//! What mass cancellation does to a consistent book: it cancels exactly the
//! participant's resting orders, reports their number, and leaves none of
//! them resting.
use crate::book::{
    book_orders, find_id, lemma_find_id_bounds, lemma_find_id_has_id, orders_at, orders_below, BookView,
};
use crate::engine::{
    cancel_all, cancel_ids, lemma_cancel_ids, of_participant, EngineView,
};
use crate::priority::{
    book_after_removal, book_consistent, book_in_step, book_shape, lemma_removal_consistent,
};
use crate::reload::lemma_below_contains;
use crate::types::{Order, Side};
use vstd::prelude::*;

verus! {

/// Every order resting in a level of `c` rests in the same level of `b`,
/// and its id is not among `gone`.
pub open spec fn rests_within(c: BookView, b: BookView, gone: Seq<u128>) -> bool {
    forall|s: Side, t: usize, i: int|
        c.side(s).levels.contains_key(t) && 0 <= i < c.side(s).levels[t].orders.len() ==> {
            let o = #[trigger] c.side(s).levels[t].orders[i];
            &&& b.side(s).levels.contains_key(t)
            &&& b.side(s).levels[t].orders.contains(o)
            &&& !gone.contains(o.id)
        }
}

/// Cancelling keeps a book in step and in shape, and what rests afterwards
/// rested before in the same level, under another id.
pub proof fn lemma_cancel_in_step(b: BookView, id: u128)
    requires
        book_in_step(b),
        book_shape(b),
    ensures
        book_in_step(b.cancel(id).0),
        book_shape(b.cancel(id).0),
        b.cancel(id).0.max_ticks == b.max_ticks,
        rests_within(b.cancel(id).0, b, seq![id]),
{
    let b2 = b.cancel(id).0;
    // An order resting somewhere is indexed where it rests.
    assert forall|s: Side, t: usize, i: int|
        b.side(s).levels.contains_key(t) && 0 <= i < b.side(s).levels[t].orders.len()
            && (#[trigger] b.side(s).levels[t].orders[i]).id == id implies b.index.contains_key(id)
        && b.index[id] == (s, t) by {}
    if !b.index.contains_key(id) {
        assert forall|s: Side, t: usize, i: int|
            b2.side(s).levels.contains_key(t) && 0 <= i < b2.side(s).levels[t].orders.len() implies {
            let o = #[trigger] b2.side(s).levels[t].orders[i];
            &&& b.side(s).levels.contains_key(t)
            &&& b.side(s).levels[t].orders.contains(o)
            &&& !seq![id].contains(o.id)
        } by {
            let o = b2.side(s).levels[t].orders[i];
            assert(b.side(s).levels[t].orders[i] == o);
            assert(seq![id][0] == id);
        }
    } else {
        let (s0, t0) = b.index[id];
        let sv = b.side(s0);
        if !sv.levels.contains_key(t0) || find_id(sv.levels[t0].orders, id) < 0 {
            // A stale index entry: no order holds the id.
            assert forall|s: Side, t: usize, i: int|
                b.side(s).levels.contains_key(t) && 0 <= i < b.side(s).levels[t].orders.len() implies (
            #[trigger] b.side(s).levels[t].orders[i]).id != id by {
                if b.side(s).levels[t].orders[i].id == id {
                    assert(s == s0 && t == t0);
                    lemma_find_id_has_id(b.side(s).levels[t].orders, id);
                }
            }
            assert(b2.bids == b.bids && b2.asks == b.asks);
            assert forall|s: Side, t: usize, i: int|
                b2.side(s).levels.contains_key(t) && 0 <= i < b2.side(s).levels[t].orders.len()
                    implies {
                let o = #[trigger] b2.side(s).levels[t].orders[i];
                &&& b.side(s).levels.contains_key(t)
                &&& b.side(s).levels[t].orders.contains(o)
                &&& !seq![id].contains(o.id)
            } by {
                let o = b2.side(s).levels[t].orders[i];
                assert(b.side(s).levels[t].orders[i] == o);
                assert(seq![id][0] == id);
            }
            assert forall|s: Side, t: usize, i: int|
                b2.side(s).levels.contains_key(t) && 0 <= i < b2.side(s).levels[t].orders.len()
                    implies {
                let oid = (#[trigger] b2.side(s).levels[t].orders[i]).id;
                b2.index.contains_key(oid) && b2.index[oid] == (s, t)
            } by {
                assert(b.side(s).levels[t].orders[i] == b2.side(s).levels[t].orders[i]);
            }
        } else {
            let l = sv.levels[t0].orders;
            let k = find_id(l, id);
            lemma_find_id_bounds(l, id);
            assert(b2 == book_after_removal(b, s0, t0, k));
            lemma_removal_consistent(b, s0, t0, k);
            assert forall|s: Side, t: usize, i: int|
                b2.side(s).levels.contains_key(t) && 0 <= i < b2.side(s).levels[t].orders.len()
                    implies {
                let o = #[trigger] b2.side(s).levels[t].orders[i];
                &&& b.side(s).levels.contains_key(t)
                &&& b.side(s).levels[t].orders.contains(o)
                &&& !seq![id].contains(o.id)
            } by {
                let o = b2.side(s).levels[t].orders[i];
                assert(seq![id][0] == id);
                if s == s0 && t == t0 {
                    let ii = if i < k {
                        i
                    } else {
                        i + 1
                    };
                    assert(b2.side(s).levels[t].orders == l.remove(k));
                    assert(o == l[ii]);
                    assert(ii != k);
                    assert(b.side(s).levels[t].orders[ii] == o);
                    assert(b.side(s).levels[t].orders[k].id == id);
                } else {
                    assert(b2.side(s).levels[t] == b.side(s).levels[t]);
                    assert(b.side(s).levels[t].orders[i] == o);
                    if o.id == id {
                        assert(b.index[id] == (s, t));
                    }
                }
            }
        }
    }
}

/// Cancelling ids in turn keeps a book in step and in shape, and what rests
/// afterwards rested before in the same level, under an id not cancelled.
pub proof fn lemma_cancel_all_in_step(b: BookView, ids: Seq<u128>)
    requires
        book_in_step(b),
        book_shape(b),
    ensures
        book_in_step(cancel_all(b, ids)),
        book_shape(cancel_all(b, ids)),
        cancel_all(b, ids).max_ticks == b.max_ticks,
        rests_within(cancel_all(b, ids), b, ids),
    decreases ids.len(),
{
    if ids.len() > 0 {
        let ids0 = ids.drop_last();
        let x = ids.last();
        lemma_cancel_all_in_step(b, ids0);
        let c = cancel_all(b, ids0);
        lemma_cancel_in_step(c, x);
        let c2 = cancel_all(b, ids);
        assert(c2 == c.cancel(x).0);
        assert forall|s: Side, t: usize, i: int|
            c2.side(s).levels.contains_key(t) && 0 <= i < c2.side(s).levels[t].orders.len() implies {
            let o = #[trigger] c2.side(s).levels[t].orders[i];
            &&& b.side(s).levels.contains_key(t)
            &&& b.side(s).levels[t].orders.contains(o)
            &&& !ids.contains(o.id)
        } by {
            let o = c2.side(s).levels[t].orders[i];
            assert(c.side(s).levels.contains_key(t));
            assert(c.side(s).levels[t].orders.contains(o));
            let j = choose|j: int| 0 <= j < c.side(s).levels[t].orders.len() && c.side(
                s,
            ).levels[t].orders[j] == o;
            assert(c.side(s).levels[t].orders[j] == o);
            assert(!seq![x].contains(o.id));
            assert(seq![x][0] == x);
            assert(!ids0.contains(o.id));
            if ids.contains(o.id) {
                let m = choose|m: int| 0 <= m < ids.len() && ids[m] == o.id;
                if m < ids.len() - 1 {
                    assert(ids0[m] == o.id);
                }
            }
        }
    }
}

/// No two orders of a sequence share an id.
pub open spec fn ids_distinct(s: Seq<Order>) -> bool {
    forall|i: int, j: int| 0 <= i < s.len() && 0 <= j < s.len() && #[trigger] s[i].id == #[trigger] s[j].id ==> i == j
}

/// The resting orders of the levels of one side below tick `n` have
/// distinct ids, and each is indexed at its side.
proof fn lemma_below_distinct(b: BookView, s: Side, n: int)
    requires
        book_in_step(b),
        n <= usize::MAX + 1,
    ensures
        ids_distinct(orders_below(b.side(s).levels, n)),
        forall|i: int|
            0 <= i < orders_below(b.side(s).levels, n).len() ==> {
                let o = #[trigger] orders_below(b.side(s).levels, n)[i];
                b.index.contains_key(o.id) && b.index[o.id].0 == s && b.index[o.id].1 < n
            },
    decreases n,
{
    let levels = b.side(s).levels;
    if n > 0 {
        lemma_below_distinct(b, s, n - 1);
        let a = orders_below(levels, n - 1);
        let x = orders_at(levels, n - 1);
        let c = orders_below(levels, n);
        assert(c == a + x);
        assert forall|i: int| 0 <= i < x.len() implies {
            let o = #[trigger] x[i];
            b.index.contains_key(o.id) && b.index[o.id] == (s, (n - 1) as usize)
        } by {
            assert(x[i] == b.side(s).levels[(n - 1) as usize].orders[i]);
        }
        assert forall|i: int| 0 <= i < c.len() implies {
            let o = #[trigger] c[i];
            b.index.contains_key(o.id) && b.index[o.id].0 == s && b.index[o.id].1 < n
        } by {
            if i < a.len() {
                assert(c[i] == a[i]);
            } else {
                assert(c[i] == x[i - a.len()]);
            }
        }
        assert forall|i: int, j: int|
            0 <= i < c.len() && 0 <= j < c.len() && #[trigger] c[i].id == #[trigger] c[j].id
                implies i == j by {
            if i < a.len() && j < a.len() {
                assert(c[i] == a[i] && c[j] == a[j]);
            } else if i >= a.len() && j >= a.len() {
                assert(c[i] == x[i - a.len()] && c[j] == x[j - a.len()]);
                let l = b.side(s).levels[(n - 1) as usize].orders;
                assert(l[i - a.len()] == c[i] && l[j - a.len()] == c[j]);
            } else if i < a.len() {
                assert(c[i] == a[i] && c[j] == x[j - a.len()]);
                assert(b.index[c[i].id].1 < n - 1);
            } else {
                assert(c[j] == a[j] && c[i] == x[i - a.len()]);
                assert(b.index[c[j].id].1 < n - 1);
            }
        }
    }
}

/// The ids mass cancellation takes from distinct, indexed orders are one
/// per order of the participant.
proof fn lemma_cancel_ids_len(s: Seq<Order>, p: Seq<char>, index: Map<u128, (Side, usize)>)
    requires
        ids_distinct(s),
        forall|i: int| 0 <= i < s.len() ==> index.contains_key(#[trigger] s[i].id),
    ensures
        cancel_ids(s, p, index).len() == of_participant(s, p).len(),
        forall|id: u128| #[trigger] cancel_ids(s, p, index).contains(id) ==> exists|j: int|
            0 <= j < s.len() && s[j].id == id,
    decreases s.len(),
{
    if s.len() > 0 {
        let r = s.drop_last();
        assert forall|i: int, j: int|
            0 <= i < r.len() && 0 <= j < r.len() && #[trigger] r[i].id == #[trigger] r[j].id
                implies i == j by {
            assert(r[i] == s[i] && r[j] == s[j]);
        }
        assert forall|i: int| 0 <= i < r.len() implies index.contains_key(#[trigger] r[i].id) by {
            assert(r[i] == s[i]);
        }
        lemma_cancel_ids_len(r, p, index);
        let o = s.last();
        let prev = cancel_ids(r, p, index);
        assert(s == r.push(o));
        assert(of_participant(s, p).len() == of_participant(r, p).len() + (if o.participant_id@
            == p {
            1int
        } else {
            0int
        })) by {
            broadcast use vstd::seq::Seq::lemma_filter_push;

            assert(of_participant(r.push(o), p) == of_participant(s, p));
        }
        assert(!prev.contains(o.id)) by {
            if prev.contains(o.id) {
                let j = choose|j: int| 0 <= j < r.len() && r[j].id == o.id;
                assert(s[j].id == s[s.len() - 1].id);
            }
        }
        assert(index.contains_key(s[s.len() - 1].id));
        let cur = cancel_ids(s, p, index);
        assert forall|id: u128| #[trigger] cur.contains(id) implies exists|j: int|
            0 <= j < s.len() && s[j].id == id by {
            if prev.contains(id) {
                let j = choose|j: int| 0 <= j < r.len() && r[j].id == id;
                assert(s[j] == r[j]);
            } else {
                let k = choose|k: int| 0 <= k < cur.len() && cur[k] == id;
                assert(cur == prev.push(o.id));
                assert(k == prev.len());
                assert(s[s.len() - 1].id == id);
            }
        }
    }
}

/// The resting orders of a book in step have distinct ids, all indexed.
proof fn lemma_book_orders_distinct(b: BookView)
    requires
        book_in_step(b),
        b.max_ticks <= usize::MAX,
    ensures
        ids_distinct(book_orders(b)),
        forall|i: int| 0 <= i < book_orders(b).len() ==> b.index.contains_key(
            #[trigger] book_orders(b)[i].id,
        ),
{
    let n = b.max_ticks as int;
    lemma_below_distinct(b, Side::Buy, n);
    lemma_below_distinct(b, Side::Sell, n);
    let a = orders_below(b.bids.levels, n);
    let x = orders_below(b.asks.levels, n);
    let c = book_orders(b);
    assert(c == a + x);
    assert(a == orders_below(b.side(Side::Buy).levels, n));
    assert(x == orders_below(b.side(Side::Sell).levels, n));
    assert forall|i: int| 0 <= i < c.len() implies b.index.contains_key(#[trigger] c[i].id) by {
        if i < a.len() {
            assert(c[i] == a[i]);
        } else {
            assert(c[i] == x[i - a.len()]);
        }
    }
    assert forall|i: int, j: int|
        0 <= i < c.len() && 0 <= j < c.len() && #[trigger] c[i].id == #[trigger] c[j].id implies i
        == j by {
        if i < a.len() && j < a.len() {
            assert(c[i] == a[i] && c[j] == a[j]);
        } else if i >= a.len() && j >= a.len() {
            assert(c[i] == x[i - a.len()] && c[j] == x[j - a.len()]);
        } else if i < a.len() {
            assert(c[i] == a[i] && c[j] == x[j - a.len()]);
            assert(b.index[c[i].id].0 == Side::Buy);
        } else {
            assert(c[j] == a[j] && c[i] == x[i - a.len()]);
            assert(b.index[c[j].id].0 == Side::Buy);
        }
    }
}

/// On an instrument whose book is consistent, mass cancellation takes one
/// id per resting order of the participant, so the count it returns is
/// their number (as a `u32`); afterwards the book is still in step, none of
/// the participant's orders rests there (so their open orders are none),
/// and every order still resting rested there before.
pub proof fn mass_cancel_takes_participant_orders(v: EngineView, iid: u64, p: Seq<char>)
    requires
        v.instruments.contains_key(iid),
        book_consistent(v.instruments[iid].book),
    ensures
        ({
            let b = v.instruments[iid].book;
            let (v2, r) = v.mass_cancel(iid, p);
            let b2 = v2.instruments[iid].book;
            &&& v.mass_cancel_ids(iid, p).len() == of_participant(book_orders(b), p).len()
            &&& r == Ok::<u32, (crate::error::ErrorKind, Seq<char>)>(
                of_participant(book_orders(b), p).len() as u32,
            )
            &&& book_in_step(b2)
            &&& of_participant(book_orders(b2), p).len() == 0
            &&& rests_within(b2, b, v.mass_cancel_ids(iid, p))
        }),
{
    let b = v.instruments[iid].book;
    let ids = v.mass_cancel_ids(iid, p);
    let b2 = cancel_all(b, ids);
    lemma_book_orders_distinct(b);
    lemma_cancel_ids_len(book_orders(b), p, b.index);
    lemma_cancel_ids(book_orders(b), p, b.index);
    lemma_cancel_all_in_step(b, ids);
    assert(v.mass_cancel(iid, p).0.instruments[iid].book == b2);
    let c = book_orders(b2);
    assert forall|i: int| 0 <= i < c.len() implies (#[trigger] c[i]).participant_id@ != p by {
        let o = c[i];
        assert(c.contains(o));
        let a2 = orders_below(b2.bids.levels, b2.max_ticks as int);
        let x2 = orders_below(b2.asks.levels, b2.max_ticks as int);
        assert(c == a2 + x2);
        let (s, lv) = if i < a2.len() {
            assert(a2[i] == o);
            (Side::Buy, b2.bids.levels)
        } else {
            assert(x2[i - a2.len()] == o);
            (Side::Sell, b2.asks.levels)
        };
        assert(orders_below(lv, b2.max_ticks as int).contains(o));
        lemma_below_contains(lv, b2.max_ticks as int, o);
        let (t, j) = choose|t: usize, j: int|
            lv.contains_key(t) && 0 <= j < lv[t].orders.len() && #[trigger] lv[t].orders[j] == o;
        assert(b2.side(s).levels == lv);
        assert(b2.side(s).levels[t].orders[j] == o);
        assert(b.side(s).levels[t].orders.contains(o));
        assert(!ids.contains(o.id));
        if o.participant_id@ == p {
            let m = choose|m: int| 0 <= m < b.side(s).levels[t].orders.len() && b.side(
                s,
            ).levels[t].orders[m] == o;
            assert(b.index.contains_key(o.id)) by {
                assert(b.side(s).levels[t].orders[m] == o);
            }
            // `o` is among the book's orders, so its id is taken.
            let bo = book_orders(b);
            assert(bo.contains(o)) by {
                crate::reload::lemma_level_in_book(b, s, t, m);
            }
            let q = choose|q: int| 0 <= q < bo.len() && bo[q] == o;
            assert(bo[q].participant_id@ == p && b.index.contains_key(bo[q].id));
        }
    }
    assert(of_participant(c, p).len() == 0) by {
        broadcast use vstd::seq_lib::group_filter_ensures, vstd::seq::Seq::lemma_filter_contains_rev;

        let f = of_participant(c, p);
        if f.len() > 0 {
            let y = f[0];
            assert(f.contains(y));
            assert(c.contains(y));
            let i = choose|i: int| 0 <= i < c.len() && c[i] == y;
            assert(c[i].participant_id@ != p);
        }
    }
    assert(book_in_step(b2));
    assert(rests_within(b2, b, ids));
    assert(ids.len() == of_participant(book_orders(b), p).len());
}

} // verus!
