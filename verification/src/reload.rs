//! Reloading a book: inserting the resting orders of a consistent book, in
//! time order, into an empty book of the same size gives back every level
//! with its orders in the same FIFO order, hence the same tick counters,
//! best prices and depth.
use crate::book::{
    book_orders, cancel_undoes_insert, empty_book, empty_level, find_id, has_id, lemma_find_id_bounds,
    lemma_find_id_has_id, level_or_empty, orders_at, orders_below, price_tick, BookView, LevelView,
    SideView,
};
use crate::engine::sorted_by_ts;
use crate::priority::{
    book_after_removal, book_consistent, keeps_in_step, lemma_insert_in_step,
    lemma_removal_consistent, lemma_lots_positive, lemma_lots_push, lemma_side_push, lots, lots_at, placed,
    same_orders, side_after_push, side_consistent, side_shape, top_tick, whole_qty,
};
use crate::book::{depth_down, depth_up, lemma_ask_search_is_lowest, lemma_bid_search_is_highest};
use crate::types::{Order, Side};
use vstd::prelude::*;

verus! {

broadcast use {vstd::seq_lib::group_to_multiset_ensures, vstd::multiset::group_multiset_axioms};

/// The book after inserting the orders in turn.
pub open spec fn insert_all(b: BookView, s: Seq<Order>) -> BookView
    decreases s.len(),
{
    if s.len() == 0 {
        b
    } else {
        insert_all(b.insert(s[0]), s.drop_first())
    }
}

/// The orders resting at `tick` on `side` (none without a level).
pub open spec fn level_orders(b: BookView, side: Side, tick: usize) -> Seq<Order> {
    level_or_empty(b.side(side), tick).orders
}

/// The order belongs at `tick` on `side`: it is of that side and its price
/// falls on that tick.
pub open spec fn belongs(o: Order, side: Side, tick: usize) -> bool {
    &&& o.side == side
    &&& o.price matches Some(p) && price_tick(p) == tick
}

/// The orders of `s` that belong at `tick` on `side`, in their order.
pub open spec fn orders_for(s: Seq<Order>, side: Side, tick: usize) -> Seq<Order>
    decreases s.len(),
{
    if s.len() == 0 {
        Seq::empty()
    } else if belongs(s[0], side, tick) {
        seq![s[0]] + orders_for(s.drop_first(), side, tick)
    } else {
        orders_for(s.drop_first(), side, tick)
    }
}

/// Every level holds its orders in strictly increasing time.
pub open spec fn time_ordered(b: BookView) -> bool {
    forall|s: Side, t: usize, i: int, j: int|
        b.side(s).levels.contains_key(t) && 0 <= i < j < b.side(s).levels[t].orders.len() ==> (
        #[trigger] b.side(s).levels[t].orders[i]).ts < (#[trigger] b.side(
            s,
        ).levels[t].orders[j]).ts
}

// Selecting the orders of one level.

/// What `orders_for` selects comes from the sequence and belongs there.
proof fn lemma_for_in(x: Seq<Order>, side: Side, tick: usize)
    ensures
        forall|i: int|
            0 <= i < orders_for(x, side, tick).len() ==> x.contains(
                #[trigger] orders_for(x, side, tick)[i],
            ) && belongs(orders_for(x, side, tick)[i], side, tick),
    decreases x.len(),
{
    if x.len() > 0 {
        let r = x.drop_first();
        lemma_for_in(r, side, tick);
        let f = orders_for(x, side, tick);
        let fr = orders_for(r, side, tick);
        assert forall|i: int| 0 <= i < f.len() implies x.contains(#[trigger] f[i]) && belongs(
            f[i],
            side,
            tick,
        ) by {
            if belongs(x[0], side, tick) {
                if i == 0 {
                    assert(x[0] == f[0]);
                } else {
                    assert(f[i] == fr[i - 1]);
                    let j = choose|j: int| 0 <= j < r.len() && r[j] == fr[i - 1];
                    assert(x[j + 1] == r[j]);
                }
            } else {
                assert(f[i] == fr[i]);
                let j = choose|j: int| 0 <= j < r.len() && r[j] == fr[i];
                assert(x[j + 1] == r[j]);
            }
        }
    }
}

/// Selecting from a concatenation concatenates the selections.
proof fn lemma_for_add(a: Seq<Order>, b: Seq<Order>, side: Side, tick: usize)
    ensures
        orders_for(a + b, side, tick) == orders_for(a, side, tick) + orders_for(b, side, tick),
    decreases a.len(),
{
    if a.len() == 0 {
        assert(a + b =~= b);
    } else {
        assert((a + b).drop_first() =~= a.drop_first() + b);
        lemma_for_add(a.drop_first(), b, side, tick);
        assert((a + b)[0] == a[0]);
        if belongs(a[0], side, tick) {
            assert(seq![a[0]] + (orders_for(a.drop_first(), side, tick) + orders_for(b, side, tick))
                =~= (seq![a[0]] + orders_for(a.drop_first(), side, tick)) + orders_for(
                b,
                side,
                tick,
            ));
        }
    }
}

/// Selecting from orders that all belong, or all do not, keeps all or none.
proof fn lemma_for_all(x: Seq<Order>, side: Side, tick: usize, yes: bool)
    requires
        forall|i: int| 0 <= i < x.len() ==> belongs(#[trigger] x[i], side, tick) == yes,
    ensures
        orders_for(x, side, tick) == (if yes {
            x
        } else {
            Seq::<Order>::empty()
        }),
    decreases x.len(),
{
    if x.len() > 0 {
        assert forall|i: int| 0 <= i < x.len() - 1 implies belongs(
            #[trigger] x.drop_first()[i],
            side,
            tick,
        ) == yes by {
            assert(x.drop_first()[i] == x[i + 1]);
        }
        lemma_for_all(x.drop_first(), side, tick, yes);
        assert(belongs(x[0], side, tick) == yes);
        if yes {
            assert(seq![x[0]] + x.drop_first() =~= x);
        }
    }
}

/// The orders of the levels below tick `n` that belong at `tick` on `side`
/// are the orders of that level, when every level holds orders placed there.
proof fn lemma_below_for(levels: Map<usize, LevelView>, ls: Side, n: int, side: Side, tick: usize)
    requires
        n <= usize::MAX + 1,
        forall|t: usize, i: int|
            levels.contains_key(t) && 0 <= i < levels[t].orders.len() ==> placed(
                #[trigger] levels[t].orders[i],
                ls,
                t,
            ),
    ensures
        orders_for(orders_below(levels, n), side, tick) == (if ls == side && tick < n
            && levels.contains_key(tick) {
            levels[tick].orders
        } else {
            Seq::<Order>::empty()
        }),
    decreases n,
{
    if n > 0 {
        lemma_below_for(levels, ls, n - 1, side, tick);
        lemma_for_add(orders_below(levels, n - 1), orders_at(levels, n - 1), side, tick);
        let x = orders_at(levels, n - 1);
        let yes = ls == side && tick == n - 1;
        assert forall|i: int| 0 <= i < x.len() implies belongs(#[trigger] x[i], side, tick)
            == yes by {
            assert(placed(levels[(n - 1) as usize].orders[i], ls, (n - 1) as usize));
        }
        lemma_for_all(x, side, tick, yes);
        if yes {
            assert(Seq::<Order>::empty() + x =~= x);
        } else {
            assert(orders_for(orders_below(levels, n - 1), side, tick) + Seq::<Order>::empty()
                =~= orders_for(orders_below(levels, n - 1), side, tick));
        }
    }
}

/// The orders of a consistent book that belong at `tick` on `side` are the
/// orders of that level.
proof fn lemma_book_for(b: BookView, side: Side, tick: usize)
    requires
        book_consistent(b),
    ensures
        orders_for(book_orders(b), side, tick) == level_orders(b, side, tick),
{
    let n = b.max_ticks as int;
    lemma_for_add(orders_below(b.bids.levels, n), orders_below(b.asks.levels, n), side, tick);
    lemma_below_for(b.bids.levels, Side::Buy, n, side, tick);
    lemma_below_for(b.asks.levels, Side::Sell, n, side, tick);
    if b.side(side).levels.contains_key(tick) {
        assert(tick < n);
    }
    match side {
        Side::Buy => {
            assert(orders_for(book_orders(b), side, tick) =~= level_orders(b, side, tick));
        },
        Side::Sell => {
            assert(orders_for(book_orders(b), side, tick) =~= level_orders(b, side, tick));
        },
    }
}

// Multisets.

/// The count of a value in a sequence is its count after the first
/// element, plus one when the first element is that value.
proof fn lemma_count_front(x: Seq<Order>, a: Order)
    requires
        x.len() > 0,
    ensures
        x.to_multiset().count(a) == x.drop_first().to_multiset().count(a) + (if a == x[0] {
            1nat
        } else {
            0nat
        }),
{
    assert(x.remove(0) =~= x.drop_first());
    assert(x.contains(x[0]));
    assert(x.remove(0).to_multiset() == x.to_multiset().remove(x[0]));
}

/// How often an order occurs among the selected ones.
proof fn lemma_for_count(x: Seq<Order>, side: Side, tick: usize, a: Order)
    ensures
        orders_for(x, side, tick).to_multiset().count(a) == (if belongs(a, side, tick) {
            x.to_multiset().count(a)
        } else {
            0
        }),
    decreases x.len(),
{
    let f = orders_for(x, side, tick);
    if x.len() == 0 {
        assert(!f.contains(a));
        assert(!x.contains(a));
    } else {
        let r = x.drop_first();
        lemma_for_count(r, side, tick, a);
        lemma_count_front(x, a);
        if belongs(x[0], side, tick) {
            assert(f[0] == x[0]);
            assert(f.drop_first() =~= orders_for(r, side, tick));
            lemma_count_front(f, a);
        }
    }
}

/// Sequences with the same multiset select orders with the same multiset.
proof fn lemma_for_multiset(x: Seq<Order>, y: Seq<Order>, side: Side, tick: usize)
    requires
        x.to_multiset() == y.to_multiset(),
    ensures
        orders_for(x, side, tick).to_multiset() == orders_for(y, side, tick).to_multiset(),
{
    assert forall|a: Order| #[trigger] orders_for(x, side, tick).to_multiset().count(a)
        == orders_for(y, side, tick).to_multiset().count(a) by {
        lemma_for_count(x, side, tick, a);
        lemma_for_count(y, side, tick, a);
    }
    assert(orders_for(x, side, tick).to_multiset() =~= orders_for(y, side, tick).to_multiset());
}

/// Selecting from a sequence in time order keeps time order.
proof fn lemma_for_sorted(x: Seq<Order>, side: Side, tick: usize)
    requires
        sorted_by_ts(x),
    ensures
        sorted_by_ts(orders_for(x, side, tick)),
    decreases x.len(),
{
    if x.len() > 0 {
        let r = x.drop_first();
        assert forall|i: int, j: int| 0 <= i <= j < r.len() implies #[trigger] r[i].ts
            <= #[trigger] r[j].ts by {
            assert(r[i] == x[i + 1] && r[j] == x[j + 1]);
        }
        lemma_for_sorted(r, side, tick);
        lemma_for_in(r, side, tick);
        let f = orders_for(x, side, tick);
        let fr = orders_for(r, side, tick);
        if belongs(x[0], side, tick) {
            assert forall|i: int, j: int| 0 <= i <= j < f.len() implies #[trigger] f[i].ts
                <= #[trigger] f[j].ts by {
                if i == 0 {
                    if j > 0 {
                        assert(f[j] == fr[j - 1]);
                        assert(r.contains(fr[j - 1]));
                        let k = choose|k: int| 0 <= k < r.len() && r[k] == fr[j - 1];
                        assert(x[k + 1] == r[k]);
                        assert(x[0].ts <= x[k + 1].ts);
                    }
                } else {
                    assert(f[i] == fr[i - 1] && f[j] == fr[j - 1]);
                }
            }
        }
    }
}

/// A sequence in strictly increasing time and a sequence in time order with
/// the same multiset are equal.
proof fn lemma_time_order_unique(x: Seq<Order>, y: Seq<Order>)
    requires
        forall|i: int, j: int| 0 <= i < j < x.len() ==> #[trigger] x[i].ts < #[trigger] x[j].ts,
        sorted_by_ts(y),
        x.to_multiset() == y.to_multiset(),
    ensures
        x == y,
    decreases x.len(),
{
    assert(x.len() == x.to_multiset().len());
    assert(y.len() == y.to_multiset().len());
    if x.len() == 0 {
        assert(x =~= y);
    } else {
        assert(x.contains(x[0]));
        assert(x.to_multiset().count(x[0]) > 0);
        assert(y.contains(x[0]));
        let j = choose|j: int| 0 <= j < y.len() && y[j] == x[0];
        assert(y.contains(y[0]));
        assert(y.to_multiset().count(y[0]) > 0);
        assert(x.contains(y[0]));
        let i = choose|i: int| 0 <= i < x.len() && x[i] == y[0];
        assert(y[0].ts <= y[j].ts);
        if i > 0 {
            assert(x[0].ts < x[i].ts);
        }
        assert(i == 0);
        let xr = x.drop_first();
        let yr = y.drop_first();
        assert(x.remove(0) =~= xr);
        assert(y.remove(0) =~= yr);
        assert(xr.to_multiset() == x.to_multiset().remove(x[0]));
        assert(yr.to_multiset() == y.to_multiset().remove(y[0]));
        assert forall|a: int, b: int| 0 <= a < b < xr.len() implies #[trigger] xr[a].ts
            < #[trigger] xr[b].ts by {
            assert(xr[a] == x[a + 1] && xr[b] == x[b + 1]);
        }
        assert forall|a: int, b: int| 0 <= a <= b < yr.len() implies #[trigger] yr[a].ts
            <= #[trigger] yr[b].ts by {
            assert(yr[a] == y[a + 1] && yr[b] == y[b + 1]);
        }
        lemma_time_order_unique(xr, yr);
        assert forall|k: int| 0 <= k < x.len() implies x[k] == y[k] by {
            if k > 0 {
                assert(x[k] == xr[k - 1] && y[k] == yr[k - 1]);
            }
        }
        assert(x =~= y);
    }
}

// Inserting in turn.

/// Inserting an order adds it to the back of its level.
proof fn lemma_insert_level(b: BookView, o: Order, side: Side, tick: usize)
    ensures
        level_orders(b.insert(o), side, tick) == level_orders(b, side, tick) + (if belongs(
            o,
            side,
            tick,
        ) {
            seq![o]
        } else {
            Seq::<Order>::empty()
        }),
{
    if belongs(o, side, tick) {
        assert(level_orders(b, side, tick).push(o) =~= level_orders(b, side, tick) + seq![o]);
    } else {
        assert(level_orders(b, side, tick) + Seq::<Order>::empty() =~= level_orders(b, side, tick));
    }
}

/// Inserting orders in turn appends to each level the orders that belong
/// there.
proof fn lemma_insert_all_levels(b: BookView, s: Seq<Order>, side: Side, tick: usize)
    ensures
        level_orders(insert_all(b, s), side, tick) == level_orders(b, side, tick) + orders_for(
            s,
            side,
            tick,
        ),
    decreases s.len(),
{
    if s.len() == 0 {
        assert(level_orders(b, side, tick) + Seq::<Order>::empty() =~= level_orders(b, side, tick));
    } else {
        lemma_insert_level(b, s[0], side, tick);
        lemma_insert_all_levels(b.insert(s[0]), s.drop_first(), side, tick);
        if belongs(s[0], side, tick) {
            assert((level_orders(b, side, tick) + seq![s[0]]) + orders_for(s.drop_first(), side, tick)
                =~= level_orders(b, side, tick) + (seq![s[0]] + orders_for(s.drop_first(), side, tick)));
        } else {
            assert(level_orders(b, side, tick) + Seq::<Order>::empty() =~= level_orders(b, side, tick));
        }
    }
}

/// The lots of a concatenation add up.
proof fn lemma_lots_add(a: Seq<Order>, b: Seq<Order>)
    ensures
        lots(a + b) == lots(a) + lots(b),
    decreases b.len(),
{
    if b.len() == 0 {
        assert(a + b =~= a);
    } else {
        lemma_lots_add(a, b.drop_last());
        assert((a + b).drop_last() =~= a + b.drop_last());
        assert((a + b).last() == b.last());
    }
}

/// The lots of whole-lot orders are not negative.
proof fn lemma_lots_nonneg(s: Seq<Order>)
    requires
        forall|i: int| 0 <= i < s.len() ==> whole_qty(#[trigger] s[i].remaining),
    ensures
        lots(s) >= 0,
{
    lemma_lots_positive(s);
}

/// The best tick of a side in step lies among its ticks.
proof fn lemma_top_range(q: Seq<u64>, side: Side)
    requires
        q.len() > 0,
    ensures
        0 <= top_tick(side, q) < q.len(),
{
    lemma_bid_search_is_highest(q, q.len() - 1);
    lemma_ask_search_is_lowest(q, 0);
}

/// Both sides of a book have the shape of `n` ticks and are in step with
/// their levels.
pub open spec fn sides_in_step(b: BookView) -> bool {
    &&& 0 < b.max_ticks <= usize::MAX
    &&& side_shape(b.bids, b.max_ticks)
    &&& side_shape(b.asks, b.max_ticks)
    &&& side_consistent(b.bids, Side::Buy)
    &&& side_consistent(b.asks, Side::Sell)
}

/// Inserting whole-lot orders priced within the book in turn keeps both
/// sides in step, as long as no tick's counter would overflow.
proof fn lemma_insert_all_in_step(b: BookView, s: Seq<Order>)
    requires
        sides_in_step(b),
        forall|i: int|
            0 <= i < s.len() ==> whole_qty(#[trigger] s[i].remaining) && (s[i].price matches Some(
                p,
            ) && price_tick(p) < b.max_ticks),
        forall|side: Side, tick: usize|
            lots(#[trigger] level_orders(b, side, tick)) + lots(orders_for(s, side, tick))
                <= u64::MAX,
    ensures
        sides_in_step(insert_all(b, s)),
        insert_all(b, s).max_ticks == b.max_ticks,
    decreases s.len(),
{
    if s.len() > 0 {
        let o = s[0];
        let r = s.drop_first();
        let n = b.max_ticks;
        let side = o.side;
        let p = o.price->0;
        let tick = price_tick(p);
        assert(whole_qty(s[0].remaining));
        let sv = b.side(side);
        let b2 = b.insert(o);
        assert(sv.qty[tick as int] == lots_at(sv.levels, tick as int));
        assert(lots(level_orders(b, side, tick)) == lots_at(sv.levels, tick as int)) by {
            if !sv.levels.contains_key(tick) {
                assert(level_orders(b, side, tick) == empty_level().orders);
            }
        }
        assert forall|i: int| 0 <= i < r.len() implies whole_qty(#[trigger] r[i].remaining) && (
        r[i].price matches Some(q) && price_tick(q) < n) by {
            assert(r[i] == s[i + 1]);
        }
        lemma_for_in(r, side, tick);
        let fr = orders_for(r, side, tick);
        assert forall|i: int| 0 <= i < fr.len() implies whole_qty(#[trigger] fr[i].remaining) by {
            assert(r.contains(fr[i]));
        }
        lemma_lots_nonneg(fr);
        assert(orders_for(s, side, tick) == seq![o] + fr);
        lemma_lots_add(seq![o], fr);
        lemma_lots_push(Seq::<Order>::empty(), o);
        assert(seq![o] =~= Seq::<Order>::empty().push(o));
        lemma_side_push(sv, side, n, tick, o);
        lemma_top_range(side_after_push(sv, side, tick, o).qty, side);
        assert(b2.side(side) == side_after_push(sv, side, tick, o));
        assert(b2.side(side.opposite()) == b.side(side.opposite()));
        assert(side_shape(b2.side(side), n));
        assert(sides_in_step(b2)) by {
            if side == Side::Buy {
                assert(b2.asks == b.asks);
            } else {
                assert(b2.bids == b.bids);
            }
        }
        assert forall|sd: Side, tk: usize|
            lots(#[trigger] level_orders(b2, sd, tk)) + lots(orders_for(r, sd, tk)) <= u64::MAX by {
            lemma_insert_level(b, o, sd, tk);
            assert(lots(level_orders(b, sd, tk)) + lots(orders_for(s, sd, tk)) <= u64::MAX);
            if belongs(o, sd, tk) {
                lemma_lots_push(level_orders(b, sd, tk), o);
                assert(level_orders(b, sd, tk) + seq![o] =~= level_orders(b, sd, tk).push(o));
                lemma_lots_add(seq![o], orders_for(r, sd, tk));
            } else {
                assert(level_orders(b, sd, tk) + Seq::<Order>::empty() =~= level_orders(b, sd, tk));
            }
        }
        lemma_insert_all_in_step(b2, r);
    }
}

/// Two sides with the same counters, best tick and orders report the same
/// depth scanning down.
pub proof fn lemma_depth_down_same(a: SideView, c: SideView, t: int, got: nat, want: nat)
    requires
        same_orders(a, c),
    ensures
        depth_down(a, t, got, want) == depth_down(c, t, got, want),
    decreases t + 1,
{
    if t >= 0 {
        if a.levels.contains_key(t as usize) {
            assert(c.levels.dom().contains(t as usize));
        } else {
            assert(!c.levels.dom().contains(t as usize));
        }
        lemma_depth_down_same(a, c, t - 1, got + 1, want);
        lemma_depth_down_same(a, c, t - 1, got, want);
    }
}

/// Two sides with the same counters, best tick and orders report the same
/// depth scanning up.
pub proof fn lemma_depth_up_same(a: SideView, c: SideView, t: int, got: nat, want: nat)
    requires
        same_orders(a, c),
    ensures
        depth_up(a, t, got, want) == depth_up(c, t, got, want),
    decreases a.qty.len() - t,
{
    if 0 <= t < a.qty.len() {
        if a.levels.contains_key(t as usize) {
            assert(c.levels.dom().contains(t as usize));
        } else {
            assert(!c.levels.dom().contains(t as usize));
        }
        lemma_depth_up_same(a, c, t + 1, got + 1, want);
        lemma_depth_up_same(a, c, t + 1, got, want);
    }
}

/// An order among the levels below tick `n` rests in one of them.
pub proof fn lemma_below_contains(levels: Map<usize, LevelView>, n: int, o: Order)
    requires
        orders_below(levels, n).contains(o),
    ensures
        exists|t: usize, i: int|
            levels.contains_key(t) && 0 <= i < levels[t].orders.len() && #[trigger] levels[t].orders[i]
                == o,
    decreases n,
{
    if n > 0 {
        let a = orders_below(levels, n - 1);
        let x = orders_at(levels, n - 1);
        let k = choose|k: int| 0 <= k < (a + x).len() && (a + x)[k] == o;
        if k < a.len() {
            assert(a[k] == o);
            lemma_below_contains(levels, n - 1, o);
        } else {
            assert(x[k - a.len()] == o);
            assert(levels[(n - 1) as usize].orders[k - a.len()] == o);
        }
    }
}

/// Reloading restores the book: inserting the resting orders of a
/// consistent book whose levels are in strictly increasing time, taken in
/// time order, into an empty book of the same size gives every level the
/// same orders in the same FIFO order, the same tick counters and best
/// ticks, hence the same best prices and the same depth at every size.
pub proof fn reload_restores_book(b: BookView, s: Seq<Order>)
    requires
        book_consistent(b),
        time_ordered(b),
        sorted_by_ts(s),
        s.to_multiset() == book_orders(b).to_multiset(),
    ensures
        ({
            let r = insert_all(empty_book(b.max_ticks as usize), s);
            &&& forall|side: Side, tick: usize| #[trigger] level_orders(r, side, tick)
                == level_orders(b, side, tick)
            &&& same_orders(r.bids, b.bids)
            &&& same_orders(r.asks, b.asks)
            &&& r.best_price(Side::Buy) == b.best_price(Side::Buy)
            &&& r.best_price(Side::Sell) == b.best_price(Side::Sell)
            &&& forall|side: Side, levels: nat| #[trigger] r.depth(side, levels) == b.depth(
                side,
                levels,
            )
        }),
{
    let n = b.max_ticks;
    let e = empty_book(n as usize);
    let r = insert_all(e, s);
    // Each level's orders are what `s` holds for it.
    assert forall|side: Side, tick: usize| #[trigger]
        orders_for(s, side, tick) == level_orders(b, side, tick) by {
        lemma_book_for(b, side, tick);
        lemma_for_multiset(s, book_orders(b), side, tick);
        lemma_for_sorted(s, side, tick);
        let l = level_orders(b, side, tick);
        if b.side(side).levels.contains_key(tick) {
            assert forall|i: int, j: int| 0 <= i < j < l.len() implies #[trigger] l[i].ts
                < #[trigger] l[j].ts by {
                assert(b.side(side).levels[tick].orders[i].ts < b.side(side).levels[tick].orders[j].ts);
            }
        }
        lemma_time_order_unique(l, orders_for(s, side, tick));
    }
    assert forall|side: Side, tick: usize| #[trigger] level_orders(e, side, tick) == Seq::<
        Order,
    >::empty() by {}
    // The orders of `s` are whole-lot orders priced within the book.
    assert forall|i: int| 0 <= i < s.len() implies whole_qty(#[trigger] s[i].remaining) && (
    s[i].price matches Some(p) && price_tick(p) < n) by {
        assert(s.contains(s[i]));
        assert(s.to_multiset().count(s[i]) > 0);
        assert(book_orders(b).contains(s[i]));
        let bo = orders_below(b.bids.levels, n as int);
        let ao = orders_below(b.asks.levels, n as int);
        let k = choose|k: int| 0 <= k < (bo + ao).len() && (bo + ao)[k] == s[i];
        if k < bo.len() {
            assert(bo[k] == s[i]);
            lemma_below_contains(b.bids.levels, n as int, s[i]);
            let (t, j) = choose|t: usize, j: int|
                b.bids.levels.contains_key(t) && 0 <= j < b.bids.levels[t].orders.len()
                    && #[trigger] b.bids.levels[t].orders[j] == s[i];
            assert(placed(b.bids.levels[t].orders[j], Side::Buy, t));
        } else {
            assert(ao[k - bo.len()] == s[i]);
            lemma_below_contains(b.asks.levels, n as int, s[i]);
            let (t, j) = choose|t: usize, j: int|
                b.asks.levels.contains_key(t) && 0 <= j < b.asks.levels[t].orders.len()
                    && #[trigger] b.asks.levels[t].orders[j] == s[i];
            assert(placed(b.asks.levels[t].orders[j], Side::Sell, t));
        }
    }
    // No counter overflows on the way.
    assert forall|side: Side, tick: usize|
        lots(#[trigger] level_orders(e, side, tick)) + lots(orders_for(s, side, tick)) <= u64::MAX by {
        let sv = b.side(side);
        if sv.levels.contains_key(tick) {
            assert(sv.qty[tick as int] == lots_at(sv.levels, tick as int));
        }
        assert(lots(Seq::<Order>::empty()) == 0);
    }
    assert(sides_in_step(e)) by {
        crate::priority::lemma_empty_book_consistent(n as usize);
    }
    lemma_insert_all_in_step(e, s);
    assert forall|side: Side, tick: usize| #[trigger] level_orders(r, side, tick) == level_orders(
        b,
        side,
        tick,
    ) by {
        lemma_insert_all_levels(e, s, side, tick);
        assert(Seq::<Order>::empty() + orders_for(s, side, tick) =~= orders_for(s, side, tick));
    }
    // Hence the same counters, best ticks and levels.
    assert forall|side: Side| same_orders(#[trigger] r.side(side), b.side(side)) by {
        let a = r.side(side);
        let c = b.side(side);
        assert(side_shape(a, n) && side_shape(c, n)) by {
            match side {
                Side::Buy => {},
                Side::Sell => {},
            }
        }
        assert forall|t: int| 0 <= t < n implies a.qty[t] == c.qty[t] by {
            assert(a.qty[t] == lots_at(a.levels, t));
            assert(c.qty[t] == lots_at(c.levels, t));
            let lr = level_orders(r, side, t as usize);
            assert(lots(lr) == lots_at(a.levels, t)) by {
                if !a.levels.contains_key(t as usize) {
                    assert(lr == empty_level().orders);
                }
            }
            assert(lots(lr) == lots_at(c.levels, t)) by {
                if !c.levels.contains_key(t as usize) {
                    assert(level_orders(b, side, t as usize) == empty_level().orders);
                }
            }
        }
        assert(a.qty =~= c.qty);
        assert forall|t: usize| a.levels.dom().contains(t) == c.levels.dom().contains(t) by {
            let lr = level_orders(r, side, t);
            let lb = level_orders(b, side, t);
            assert(lr == lb);
            if a.levels.contains_key(t) {
                assert(lr == a.levels[t].orders);
                assert(a.levels[t].orders.len() > 0);
                if !c.levels.contains_key(t) {
                    assert(lb == empty_level().orders);
                }
            }
            if c.levels.contains_key(t) {
                assert(lb == c.levels[t].orders);
                assert(c.levels[t].orders.len() > 0);
                if !a.levels.contains_key(t) {
                    assert(lr == empty_level().orders);
                }
            }
        }
        assert(a.levels.dom() =~= c.levels.dom());
        assert forall|t: usize| #[trigger] a.levels.contains_key(t) implies a.levels[t].orders
            == c.levels[t].orders by {
            assert(level_orders(r, side, t) == level_orders(b, side, t));
        }
    }
    assert(same_orders(r.side(Side::Buy), b.side(Side::Buy)));
    assert(same_orders(r.side(Side::Sell), b.side(Side::Sell)));
    assert forall|side: Side, levels: nat| #[trigger] r.depth(side, levels) == b.depth(
        side,
        levels,
    ) by {
        lemma_depth_down_same(r.bids, b.bids, r.bids.best as int, 0, levels);
        lemma_depth_up_same(r.asks, b.asks, r.asks.best as int, 0, levels);
    }
}


/// Inserting an order into a consistent book and cancelling it again gives
/// back the order and the same book but for the level totals: the same
/// index, tick counters, best ticks and level orders, hence the same best
/// prices and depth.
pub proof fn cancel_undoes_insert_fully(b: BookView, o: Order)
    requires
        book_consistent(b),
        keeps_in_step(b, o),
        o.price is Some,
        b.insert_ok(o),
    ensures
        ({
            let (b2, r) = b.insert(o).cancel(o.id);
            &&& r == Some(o)
            &&& b2.index == b.index
            &&& same_orders(b2.bids, b.bids)
            &&& same_orders(b2.asks, b.asks)
            &&& b2.best_price(Side::Buy) == b.best_price(Side::Buy)
            &&& b2.best_price(Side::Sell) == b.best_price(Side::Sell)
            &&& forall|side: Side, levels: nat| #[trigger] b2.depth(side, levels) == b.depth(
                side,
                levels,
            )
        }),
{
    let side = o.side;
    let tick = price_tick(o.price->0);
    let b1 = b.insert(o);
    let (b2, r) = b1.cancel(o.id);
    let l0 = level_or_empty(b.side(side), tick).orders;
    assert(!has_id(l0, o.id)) by {
        if has_id(l0, o.id) {
            let j = choose|j: int| 0 <= j < l0.len() && (#[trigger] l0[j]).id == o.id;
            assert(b.side(side).levels.contains_key(tick));
            assert(b.side(side).levels[tick].orders[j] == l0[j]);
        }
    }
    cancel_undoes_insert(b, o);
    lemma_insert_in_step(b, o);
    assert(b1.index.contains_key(o.id));
    let (s, t) = b1.index[o.id];
    let lv = b1.side(s).levels[t].orders;
    lemma_find_id_bounds(lv, o.id);
    lemma_find_id_has_id(lv, o.id);
    assert(b1.side(s).levels.contains_key(t) && find_id(lv, o.id) >= 0) by {
        assert(s == side && t == tick);
        assert(lv == l0.push(o));
        assert(lv[l0.len() as int] == o);
    }
    let k = find_id(lv, o.id);
    assert(book_after_removal(b1, s, t, k) == b2);
    lemma_removal_consistent(b1, s, t, k);
    assert(b2.index =~= b.index);
    let other = side.opposite();
    assert(b2.side(other) == b.side(other));
    assert(same_orders(b2.side(side), b.side(side))) by {
        let a = b2.side(side);
        let c = b.side(side);
        assert(side_consistent(a, side) && side_consistent(c, side)) by {
            match side {
                Side::Buy => {},
                Side::Sell => {},
            }
        }
        assert(a.best == c.best);
    }
    assert(same_orders(b2.bids, b.bids) && same_orders(b2.asks, b.asks)) by {
        match side {
            Side::Buy => {},
            Side::Sell => {},
        }
    }
    assert forall|sd: Side, levels: nat| #[trigger] b2.depth(sd, levels) == b.depth(sd, levels) by {
        lemma_depth_down_same(b2.bids, b.bids, b2.bids.best as int, 0, levels);
        lemma_depth_up_same(b2.asks, b.asks, b2.asks.best as int, 0, levels);
    }
}


/// An order resting in a level of a book is among its resting orders.
pub proof fn lemma_level_in_book(b: BookView, s: Side, t: usize, m: int)
    requires
        b.side(s).levels.contains_key(t),
        t < b.max_ticks,
        0 <= m < b.side(s).levels[t].orders.len(),
    ensures
        book_orders(b).contains(b.side(s).levels[t].orders[m]),
{
    let o = b.side(s).levels[t].orders[m];
    let n = b.max_ticks as int;
    lemma_level_in_below(b.side(s).levels, t, m, n);
    let a = orders_below(b.bids.levels, n);
    let x = orders_below(b.asks.levels, n);
    match s {
        Side::Buy => {
            let k = choose|k: int| 0 <= k < a.len() && a[k] == o;
            assert((a + x)[k] == o);
        },
        Side::Sell => {
            let k = choose|k: int| 0 <= k < x.len() && x[k] == o;
            assert((a + x)[a.len() + k] == o);
        },
    }
}

/// An order of the level at tick `t` is among the orders of the levels
/// below any `n` beyond `t`.
proof fn lemma_level_in_below(levels: Map<usize, LevelView>, t: usize, m: int, n: int)
    requires
        levels.contains_key(t),
        t < n,
        0 <= m < levels[t].orders.len(),
    ensures
        orders_below(levels, n).contains(levels[t].orders[m]),
    decreases n,
{
    let o = levels[t].orders[m];
    let a = orders_below(levels, n - 1);
    let x = orders_at(levels, n - 1);
    if t == n - 1 {
        assert(x[m] == o);
        assert((a + x)[a.len() + m] == o);
    } else {
        lemma_level_in_below(levels, t, m, n - 1);
        let k = choose|k: int| 0 <= k < a.len() && a[k] == o;
        assert((a + x)[k] == o);
    }
}

} // verus!
