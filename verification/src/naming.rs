//! Every order resting on an instrument's book names that instrument, and
//! every engine operation keeps it so.
use crate::book::{book_orders, empty_book, orders_below, BookView};
use crate::engine::{cancel_all, new_instrument, EngineView, InstrumentStatus};
use crate::matching::{finish, initial_state, match_outcome, match_run, match_step, MatchState, Step};
use crate::persistence::orders_named;
use crate::reload::lemma_below_contains;
use crate::types::{CircuitBreaker, Order, Side};
use vstd::prelude::*;

verus! {

/// Every order resting on the book names instrument `k`.
pub open spec fn names_instrument(b: BookView, k: u64) -> bool {
    forall|s: Side, t: usize, i: int|
        b.side(s).levels.contains_key(t) && 0 <= i < b.side(s).levels[t].orders.len() ==> (
        #[trigger] b.side(s).levels[t].orders[i]).instrument_id == k
}

/// Every instrument's book holds only orders naming it.
pub open spec fn books_named(v: EngineView) -> bool {
    forall|k: u64| #[trigger]
        v.instruments.contains_key(k) ==> names_instrument(v.instruments[k].book, k)
}

/// Every order of `c`'s levels names what some order of the same level of
/// `b` names, level by level: `c`'s levels hold no order naming anything new.
proof fn lemma_named_from(b: BookView, c: BookView, k: u64)
    requires
        names_instrument(b, k),
        forall|s: Side, t: usize, i: int|
            c.side(s).levels.contains_key(t) && 0 <= i < c.side(s).levels[t].orders.len() ==> (
            exists|j: int|
                0 <= j < b.side(s).levels[t].orders.len() && b.side(s).levels.contains_key(t) && (
                #[trigger] c.side(s).levels[t].orders[i]).instrument_id == b.side(
                    s,
                ).levels[t].orders[j].instrument_id),
    ensures
        names_instrument(c, k),
{
    assert forall|s: Side, t: usize, i: int|
        c.side(s).levels.contains_key(t) && 0 <= i < c.side(s).levels[t].orders.len() implies (
        #[trigger] c.side(s).levels[t].orders[i]).instrument_id == k by {
        let j = choose|j: int|
            0 <= j < b.side(s).levels[t].orders.len() && b.side(s).levels.contains_key(t) && (
            c.side(s).levels[t].orders[i]).instrument_id == b.side(s).levels[t].orders[j].instrument_id;
        assert(b.side(s).levels[t].orders[j].instrument_id == k);
    }
}

/// Inserting an order naming `k` keeps the book naming `k`.
pub proof fn lemma_named_insert(b: BookView, o: Order, k: u64)
    requires
        names_instrument(b, k),
        o.instrument_id == k,
    ensures
        names_instrument(b.insert(o), k),
{
    let c = b.insert(o);
    assert forall|s: Side, t: usize, i: int|
        c.side(s).levels.contains_key(t) && 0 <= i < c.side(s).levels[t].orders.len() implies (
        #[trigger] c.side(s).levels[t].orders[i]).instrument_id == k by {
        if o.price is Some && s == o.side && t == crate::book::price_tick(o.price->0) {
            let l0 = crate::book::level_or_empty(b.side(s), t).orders;
            if i < l0.len() {
                assert(c.side(s).levels[t].orders[i] == l0[i]);
                assert(b.side(s).levels.contains_key(t));
                assert(b.side(s).levels[t].orders[i] == l0[i]);
            }
        } else {
            assert(c.side(s).levels[t] == b.side(s).levels[t]);
            assert(b.side(s).levels[t].orders[i] == c.side(s).levels[t].orders[i]);
        }
    }
}

/// The side after an order leaves a level names only what the side named.
proof fn lemma_named_side_removal(b: BookView, side: Side, tick: usize, pos: int, k: u64)
    requires
        names_instrument(b, k),
        b.side(side).levels.contains_key(tick),
        0 <= pos < b.side(side).levels[tick].orders.len(),
    ensures
        forall|c: BookView|
            c.side(side) == BookView::side_after_removal(b.side(side), side, tick, pos) && c.side(
                side.opposite(),
            ) == b.side(side.opposite()) ==> #[trigger] names_instrument(c, k),
{
    assert forall|c: BookView|
        c.side(side) == BookView::side_after_removal(b.side(side), side, tick, pos) && c.side(
            side.opposite(),
        ) == b.side(side.opposite()) implies #[trigger] names_instrument(c, k) by {
        assert forall|s: Side, t: usize, i: int|
            c.side(s).levels.contains_key(t) && 0 <= i < c.side(s).levels[t].orders.len() implies (
            #[trigger] c.side(s).levels[t].orders[i]).instrument_id == k by {
            if s == side && t == tick {
                let l = b.side(s).levels[t].orders;
                assert(c.side(s).levels[t].orders == l.remove(pos));
                let ii = if i < pos {
                    i
                } else {
                    i + 1
                };
                assert(l.remove(pos)[i] == l[ii]);
                assert(b.side(s).levels[t].orders[ii] == l[ii]);
            } else if s == side {
                assert(c.side(s).levels[t] == b.side(s).levels[t]);
                assert(b.side(s).levels[t].orders[i] == c.side(s).levels[t].orders[i]);
            } else {
                assert(s == side.opposite());
                assert(b.side(s).levels[t].orders[i] == c.side(s).levels[t].orders[i]);
            }
        }
    }
}

/// Cancelling keeps the book naming `k`.
pub proof fn lemma_named_cancel(b: BookView, id: u128, k: u64)
    requires
        names_instrument(b, k),
    ensures
        names_instrument(b.cancel(id).0, k),
{
    let c = b.cancel(id).0;
    if b.index.contains_key(id) {
        let (s0, t0) = b.index[id];
        let sv = b.side(s0);
        if sv.levels.contains_key(t0) && crate::book::find_id(sv.levels[t0].orders, id) >= 0 {
            let pos = crate::book::find_id(sv.levels[t0].orders, id);
            crate::book::lemma_find_id_bounds(sv.levels[t0].orders, id);
            lemma_named_side_removal(b, s0, t0, pos, k);
            assert(c.side(s0) == BookView::side_after_removal(sv, s0, t0, pos));
            assert(c.side(s0.opposite()) == b.side(s0.opposite())) by {
                match s0 {
                    Side::Buy => {},
                    Side::Sell => {},
                }
            }
            assert(names_instrument(c, k));
        } else {
            assert(c.bids == b.bids && c.asks == b.asks);
            assert forall|s: Side, t: usize, i: int|
                c.side(s).levels.contains_key(t) && 0 <= i < c.side(s).levels[t].orders.len()
                    implies (#[trigger] c.side(s).levels[t].orders[i]).instrument_id == k by {
                assert(c.side(s) == b.side(s));
                assert(b.side(s).levels[t].orders[i] == c.side(s).levels[t].orders[i]);
            }
        }
    }
}

/// Cancelling ids in turn keeps the book naming `k`.
pub proof fn lemma_named_cancel_all(b: BookView, ids: Seq<u128>, k: u64)
    requires
        names_instrument(b, k),
    ensures
        names_instrument(cancel_all(b, ids), k),
    decreases ids.len(),
{
    if ids.len() > 0 {
        lemma_named_cancel_all(b, ids.drop_last(), k);
        lemma_named_cancel(cancel_all(b, ids.drop_last()), ids.last(), k);
    }
}

/// One round of matching keeps the book naming `k`.
proof fn lemma_named_step(o: Order, st: MatchState, k: u64)
    requires
        names_instrument(st.book, k),
    ensures
        ({
            let s2 = match match_step(o, st) {
                Step::Continue(s) => s,
                Step::Stop(s) => s,
                Step::Finish(s) => s,
            };
            names_instrument(s2.book, k)
        }),
{
    let side = o.side.opposite();
    let b = st.book;
    let sv = b.side(side);
    let bt = sv.best as usize;
    if sv.levels.contains_key(bt) && sv.levels[bt].orders.len() > 0 {
        lemma_named_side_removal(b, side, bt, 0, k);
        assert(b.remove_front(side, bt).0.side(side.opposite()) == b.side(side.opposite()));
        // Filling the first order keeps what it names.
        assert forall|fill: crate::decimal::Dec| #[trigger]
            names_instrument(b.fill_front(side, bt, fill).0, k) by {
            let c = b.fill_front(side, bt, fill).0;
            let l = sv.levels[bt];
            let l1 = l.reduce_front(fill);
            assert forall|s: Side, t: usize, i: int|
                c.side(s).levels.contains_key(t) && 0 <= i < c.side(s).levels[t].orders.len()
                    implies (#[trigger] c.side(s).levels[t].orders[i]).instrument_id == k by {
                if s == side && t == bt {
                    let done = l1.orders[0].remaining.units() == 0;
                    if done {
                        assert(c.side(s).levels[t].orders == l1.orders.drop_first());
                        assert(l1.orders.drop_first()[i] == l1.orders[i + 1]);
                        assert(l1.orders[i + 1] == l.orders[i + 1]);
                        assert(b.side(s).levels[t].orders[i + 1] == l.orders[i + 1]);
                    } else {
                        assert(c.side(s).levels[t].orders == l1.orders);
                        if i > 0 {
                            assert(l1.orders[i] == l.orders[i]);
                            assert(b.side(s).levels[t].orders[i] == l.orders[i]);
                        } else {
                            assert(b.side(s).levels[t].orders[0] == l.orders[0]);
                        }
                    }
                } else if s == side {
                    assert(c.side(s).levels[t] == b.side(s).levels[t]);
                    assert(b.side(s).levels[t].orders[i] == c.side(s).levels[t].orders[i]);
                } else {
                    assert(c.side(s) == b.side(s));
                    assert(b.side(s).levels[t].orders[i] == c.side(s).levels[t].orders[i]);
                }
            }
        }
    }
}

/// The matching loop keeps the book naming `k`.
proof fn lemma_named_run(o: Order, st: MatchState, fuel: nat, k: u64)
    requires
        names_instrument(st.book, k),
    ensures
        names_instrument(match_run(o, st, fuel).0.book, k),
    decreases fuel,
{
    if fuel > 0 {
        lemma_named_step(o, st, k);
        match match_step(o, st) {
            Step::Continue(s) => lemma_named_run(o, s, (fuel - 1) as nat, k),
            _ => {},
        }
    }
}

/// Matching an order naming `k` keeps the book naming `k`.
pub proof fn lemma_named_match(b: BookView, o: Order, k: u64)
    requires
        names_instrument(b, k),
        o.instrument_id == k,
    ensures
        names_instrument(match_outcome(b, o).book, k),
{
    let fuel = crate::matching::match_fuel(b, o);
    let (st, early) = match_run(o, initial_state(b, o), fuel);
    lemma_named_run(o, initial_state(b, o), fuel, k);
    if !early {
        let r = crate::matching::rested_order(o, st);
        lemma_named_insert(st.book, r, k);
    }
}

/// Creating an instrument keeps every book naming its instrument.
pub proof fn create_keeps_books_named(
    v: EngineView,
    symbol: Seq<char>,
    tick_size: crate::decimal::Dec,
    lot_size: crate::decimal::Dec,
    max_ticks: usize,
    id: u64,
)
    requires
        books_named(v),
    ensures
        books_named(v.create(symbol, tick_size, lot_size, max_ticks).0),
        books_named(v.create_with_id(id, symbol, tick_size, lot_size, max_ticks).0),
{
    assert(names_instrument(empty_book(max_ticks), v.next_id));
    assert(names_instrument(empty_book(max_ticks), id));
    let v1 = v.create(symbol, tick_size, lot_size, max_ticks).0;
    assert forall|k: u64| #[trigger] v1.instruments.contains_key(k) implies names_instrument(
        v1.instruments[k].book,
        k,
    ) by {
        if v.create_refusal(symbol, tick_size, lot_size, max_ticks) is None && k == v.next_id {
            assert(v1.instruments[k] == new_instrument(k, symbol, tick_size, lot_size, max_ticks));
        }
    }
    let v2 = v.create_with_id(id, symbol, tick_size, lot_size, max_ticks).0;
    assert forall|k: u64| #[trigger] v2.instruments.contains_key(k) implies names_instrument(
        v2.instruments[k].book,
        k,
    ) by {
        if v.create_with_id_refusal(id, symbol, tick_size, lot_size, max_ticks) is None && k == id {
            assert(v2.instruments[k] == new_instrument(k, symbol, tick_size, lot_size, max_ticks));
        }
    }
}

/// Placing or loading an order keeps every book naming its instrument.
pub proof fn place_and_load_keep_books_named(v: EngineView, o: Order)
    requires
        books_named(v),
        v.instruments.contains_key(o.instrument_id),
    ensures
        books_named(v.after_place(o)),
        books_named(v.load(o).0),
{
    let k0 = o.instrument_id;
    lemma_named_match(v.instruments[k0].book, o, k0);
    lemma_named_insert(v.instruments[k0].book, o, k0);
    let v1 = v.after_place(o);
    assert forall|k: u64| #[trigger] v1.instruments.contains_key(k) implies names_instrument(
        v1.instruments[k].book,
        k,
    ) by {
        if k != k0 {
            assert(v1.instruments[k] == v.instruments[k]);
        }
    }
    let v2 = v.load(o).0;
    assert forall|k: u64| #[trigger] v2.instruments.contains_key(k) implies names_instrument(
        v2.instruments[k].book,
        k,
    ) by {
        if k != k0 {
            assert(v2.instruments[k] == v.instruments[k]);
        }
    }
}

/// Cancelling an order or mass cancelling keeps every book naming its
/// instrument.
pub proof fn cancels_keep_books_named(v: EngineView, id: u128, iid: u64, p: Seq<char>)
    requires
        books_named(v),
    ensures
        books_named(v.cancel_order(id).0),
        books_named(v.mass_cancel(iid, p).0),
{
    let v1 = v.cancel_order(id).0;
    if v.order_instrument.contains_key(id) && v.instruments.contains_key(v.order_instrument[id]) {
        let k0 = v.order_instrument[id];
        lemma_named_cancel(v.instruments[k0].book, id, k0);
        assert forall|k: u64| #[trigger] v1.instruments.contains_key(k) implies names_instrument(
            v1.instruments[k].book,
            k,
        ) by {
            if k != k0 {
                assert(v1.instruments[k] == v.instruments[k]);
            }
        }
    }
    let v2 = v.mass_cancel(iid, p).0;
    if v.instruments.contains_key(iid) {
        lemma_named_cancel_all(v.instruments[iid].book, v.mass_cancel_ids(iid, p), iid);
        assert forall|k: u64| #[trigger] v2.instruments.contains_key(k) implies names_instrument(
            v2.instruments[k].book,
            k,
        ) by {
            if k != iid {
                assert(v2.instruments[k] == v.instruments[k]);
            }
        }
    }
}

/// Halting, resuming and setting a circuit breaker leave the books alone.
pub proof fn status_changes_keep_books_named(
    v: EngineView,
    iid: u64,
    status: InstrumentStatus,
    cb: CircuitBreaker,
)
    requires
        books_named(v),
        v.instruments.contains_key(iid),
    ensures
        books_named(v.with_status(iid, status)),
        books_named(v.with_breaker(iid, cb)),
{
    let v1 = v.with_status(iid, status);
    assert forall|k: u64| #[trigger] v1.instruments.contains_key(k) implies names_instrument(
        v1.instruments[k].book,
        k,
    ) by {
        assert(v1.instruments[k].book == v.instruments[k].book);
    }
    let v2 = v.with_breaker(iid, cb);
    assert forall|k: u64| #[trigger] v2.instruments.contains_key(k) implies names_instrument(
        v2.instruments[k].book,
        k,
    ) by {
        assert(v2.instruments[k].book == v.instruments[k].book);
    }
}

/// Books naming their instruments hold resting orders naming them.
pub proof fn lemma_books_named_orders(a: EngineView)
    requires
        books_named(a),
    ensures
        orders_named(a),
{
    assert forall|k: u64, i: int|
        a.instruments.contains_key(k) && 0 <= i < book_orders(a.instruments[k].book).len() implies (
        #[trigger] book_orders(a.instruments[k].book)[i]).instrument_id == k by {
        let b = a.instruments[k].book;
        let n = b.max_ticks as int;
        let x = orders_below(b.bids.levels, n);
        let y = orders_below(b.asks.levels, n);
        let o = book_orders(b)[i];
        assert(book_orders(b) == x + y);
        let (s, lv) = if i < x.len() {
            assert(x[i] == o);
            assert(x.contains(o));
            (Side::Buy, b.bids.levels)
        } else {
            assert(y[i - x.len()] == o);
            assert(y.contains(o));
            (Side::Sell, b.asks.levels)
        };
        lemma_below_contains(lv, n, o);
        let (t, j) = choose|t: usize, j: int|
            lv.contains_key(t) && 0 <= j < lv[t].orders.len() && #[trigger] lv[t].orders[j] == o;
        assert(b.side(s).levels == lv);
        assert(b.side(s).levels[t].orders[j] == o);
    }
}

} // verus!
