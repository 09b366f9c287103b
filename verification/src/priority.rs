//! Price-time priority.  A book holding whole-lot orders keeps its tick
//! arrays in step with its levels: every tick counts the lots resting
//! there, the best tick of each side is its best occupied level, and every
//! resting order is indexed where it rests.  On such a book the best prices
//! and the depth report the levels themselves, and inserting, cancelling
//! and matching keep the book so.
use crate::book::{
    ask_search, best_after_insert, bid_search, depth_down, depth_entry, depth_up, empty_book, empty_level, find_id,
    lemma_ask_search_is_lowest, lemma_bid_search_is_highest, lemma_find_id_bounds,
    level_or_empty, no_qty_between, price_tick, tick_price, tick_qty,
    with_remaining,
    BookView, LevelView, SideView,
};
use crate::decimal::{decimal_difference, lemma_pow10_pos, pow10, Dec};
use crate::types::{BookLevel, Order, Side};
use vstd::prelude::*;

verus! {

/// A quantity as a whole-lot book holds it: a positive whole number written
/// without decimal places that fits a tick's 64-bit counter.
pub open spec fn whole_qty(d: Dec) -> bool {
    d.scale == 0 && 0 < d.mantissa <= u64::MAX
}

/// The lots of a sequence of orders: the sum of their remaining quantities.
pub open spec fn lots(s: Seq<Order>) -> int
    decreases s.len(),
{
    if s.len() == 0 {
        0
    } else {
        lots(s.drop_last()) + s.last().remaining.mantissa
    }
}

/// The lots resting at tick `t` of a side's levels (0 without a level).
pub open spec fn lots_at(levels: Map<usize, LevelView>, t: int) -> int {
    if 0 <= t <= usize::MAX && levels.contains_key(t as usize) {
        lots(levels[t as usize].orders)
    } else {
        0
    }
}

/// Where the best tick of a side belongs: for bids the highest tick holding
/// quantity (0 when none does), for asks the lowest (the last tick when none
/// does).
pub open spec fn top_tick(side: Side, q: Seq<u64>) -> int {
    match side {
        Side::Buy => bid_search(q, q.len() - 1),
        Side::Sell => ask_search(q, 0),
    }
}

/// An order rests where it belongs: on its own side, at the tick of its
/// price, holding a whole-lot quantity.
pub open spec fn placed(o: Order, side: Side, t: usize) -> bool {
    &&& whole_qty(o.remaining)
    &&& o.side == side
    &&& o.price matches Some(p) && price_tick(p) == t
}

/// The shape of a side: `n` tick counters, a best tick among them, and
/// levels at ticks among them, none empty.
pub open spec fn side_shape(sv: SideView, n: nat) -> bool {
    &&& sv.qty.len() == n
    &&& n > 0 ==> sv.best < n
    &&& forall|t: usize| #[trigger] sv.levels.contains_key(t) ==> t < n && sv.levels[t].orders.len() > 0
}

/// One side of a book is in step with its levels: every resting order rests
/// where it belongs, every tick counts exactly the lots resting there, and
/// the best tick is where it belongs.
pub open spec fn side_consistent(sv: SideView, side: Side) -> bool {
    &&& forall|t: usize, i: int|
        sv.levels.contains_key(t) && 0 <= i < sv.levels[t].orders.len() ==> placed(
            #[trigger] sv.levels[t].orders[i],
            side,
            t,
        )
    &&& forall|t: int| 0 <= t < sv.qty.len() ==> #[trigger] sv.qty[t] == lots_at(sv.levels, t)
    &&& sv.best == top_tick(side, sv.qty)
}

/// A book is consistent: it is well formed and in step.
pub open spec fn book_consistent(b: BookView) -> bool {
    b.wf() && book_in_step(b)
}

/// A book is in step: it has ticks, both sides are in step with their
/// levels, every resting order is indexed at its side and tick, and no two
/// orders of a level share an id.
pub open spec fn book_in_step(b: BookView) -> bool {
    &&& b.max_ticks > 0
    &&& side_consistent(b.bids, Side::Buy)
    &&& side_consistent(b.asks, Side::Sell)
    &&& forall|s: Side, t: usize, i: int|
        b.side(s).levels.contains_key(t) && 0 <= i < b.side(s).levels[t].orders.len() ==> {
            let id = (#[trigger] b.side(s).levels[t].orders[i]).id;
            b.index.contains_key(id) && b.index[id] == (s, t)
        }
    &&& forall|s: Side, t: usize, i: int, j: int|
        b.side(s).levels.contains_key(t) && 0 <= i < b.side(s).levels[t].orders.len() && 0 <= j
            < b.side(s).levels[t].orders.len() && (#[trigger] b.side(s).levels[t].orders[i]).id == (
        #[trigger] b.side(s).levels[t].orders[j]).id ==> i == j
}

/// The book is not crossed: when both sides hold orders, the best bid tick
/// (and so the best bid price) is below the best ask tick.
pub open spec fn uncrossed(b: BookView) -> bool {
    b.best_price(Side::Buy) is None || b.best_price(Side::Sell) is None || b.bids.best < b.asks.best
}

// Sums of lots.

/// Appending an order adds its lots.
pub proof fn lemma_lots_push(s: Seq<Order>, o: Order)
    ensures
        lots(s.push(o)) == lots(s) + o.remaining.mantissa,
{
    assert(s.push(o).drop_last() =~= s);
}

/// Removing the order at position `k` takes its lots away.
pub proof fn lemma_lots_remove(s: Seq<Order>, k: int)
    requires
        0 <= k < s.len(),
    ensures
        lots(s.remove(k)) == lots(s) - s[k].remaining.mantissa,
    decreases s.len(),
{
    if k == s.len() - 1 {
        assert(s.remove(k) =~= s.drop_last());
    } else {
        lemma_lots_remove(s.drop_last(), k);
        assert(s.remove(k).drop_last() =~= s.drop_last().remove(k));
        assert(s.remove(k).last() == s.last());
    }
}

/// Replacing the order at position `k` changes the lots by the change in
/// its remaining quantity.
pub proof fn lemma_lots_update(s: Seq<Order>, k: int, o: Order)
    requires
        0 <= k < s.len(),
    ensures
        lots(s.update(k, o)) == lots(s) - s[k].remaining.mantissa + o.remaining.mantissa,
    decreases s.len(),
{
    if k == s.len() - 1 {
        assert(s.update(k, o).drop_last() =~= s.drop_last());
    } else {
        lemma_lots_update(s.drop_last(), k, o);
        assert(s.update(k, o).drop_last() =~= s.drop_last().update(k, o));
    }
}

/// Orders that each hold at least one lot hold at least as many lots as
/// there are orders.
pub proof fn lemma_lots_positive(s: Seq<Order>)
    requires
        forall|i: int| 0 <= i < s.len() ==> whole_qty(#[trigger] s[i].remaining),
    ensures
        lots(s) >= s.len(),
    decreases s.len(),
{
    if s.len() > 0 {
        assert forall|i: int| 0 <= i < s.len() - 1 implies whole_qty(
            #[trigger] s.drop_last()[i].remaining,
        ) by {
            assert(s.drop_last()[i] == s[i]);
        }
        lemma_lots_positive(s.drop_last());
        assert(whole_qty(s[s.len() - 1].remaining));
    }
}

/// The whole units of a whole-lot quantity are its mantissa.
pub proof fn lemma_tick_qty_whole(d: Dec)
    requires
        whole_qty(d),
    ensures
        tick_qty(d) == d.mantissa,
{
    let p = pow10(28);
    lemma_pow10_pos(28);
    assert(d.units() == d.mantissa * p);
    assert((d.mantissa * p) / p == d.mantissa) by (nonlinear_arith)
        requires
            p > 0,
            d.mantissa >= 0,
    ;
    assert(d.mantissa * p >= 0) by (nonlinear_arith)
        requires
            p > 0,
            d.mantissa >= 0,
    ;
}

/// On a side in step with its levels, a tick holds quantity exactly when a
/// level rests there.
pub proof fn lemma_qty_iff_level(sv: SideView, side: Side, max_ticks: nat, t: int)
    requires
        side_shape(sv, max_ticks),
        max_ticks <= usize::MAX,
        side_consistent(sv, side),
        0 <= t < max_ticks,
    ensures
        (sv.qty[t] > 0) == sv.levels.contains_key(t as usize),
{
    if sv.levels.contains_key(t as usize) {
        let s = sv.levels[t as usize].orders;
        assert forall|i: int| 0 <= i < s.len() implies whole_qty(#[trigger] s[i].remaining) by {
            assert(whole_qty(sv.levels[t as usize].orders[i].remaining));
        }
        lemma_lots_positive(s);
    }
    assert(sv.qty[t] == lots_at(sv.levels, t));
}

// Where the best tick belongs.

/// A downward search passes over ticks that hold nothing.
pub proof fn lemma_bid_search_skip(q: Seq<u64>, t: int, u: int)
    requires
        0 <= t <= u < q.len(),
        no_qty_between(q, t, u),
    ensures
        bid_search(q, u) == bid_search(q, t),
    decreases u - t,
{
    if u > t {
        assert(q[u] == 0);
        lemma_bid_search_skip(q, t, u - 1);
    }
}

/// An upward search passes over ticks that hold nothing.
pub proof fn lemma_ask_search_skip(q: Seq<u64>, t: int, u: int)
    requires
        0 <= t <= u < q.len(),
        no_qty_between(q, t - 1, u - 1),
    ensures
        ask_search(q, t) == ask_search(q, u),
    decreases u - t,
{
    if t < u {
        assert(q[t] == 0);
        lemma_ask_search_skip(q, t + 1, u);
    }
}

/// The highest bid tick is `b` when nothing above it holds quantity and it
/// holds some (or it is 0 and nothing does).
pub proof fn lemma_bid_top(q: Seq<u64>, b: int)
    requires
        0 <= b < q.len(),
        no_qty_between(q, b, q.len() - 1),
        q[b] > 0 || (b == 0 && no_qty_between(q, -1, q.len() - 1)),
    ensures
        top_tick(Side::Buy, q) == b,
{
    lemma_bid_search_skip(q, b, q.len() - 1);
}

/// The lowest ask tick is `b` when nothing below it holds quantity and it
/// holds some (or it is the last tick and nothing does).
pub proof fn lemma_ask_top(q: Seq<u64>, b: int)
    requires
        0 <= b < q.len(),
        no_qty_between(q, -1, b - 1),
        q[b] > 0 || (b == q.len() - 1 && no_qty_between(q, -1, q.len() - 1)),
    ensures
        top_tick(Side::Sell, q) == b,
{
    lemma_ask_search_skip(q, 0, b);
}

/// What the best tick of a side in step with its levels is: nothing beyond
/// it holds quantity, and it holds some unless no tick does.
pub proof fn lemma_top_facts(sv: SideView, side: Side, max_ticks: nat)
    requires
        side_shape(sv, max_ticks),
        max_ticks > 0,
        side_consistent(sv, side),
    ensures
        0 <= sv.best < max_ticks,
        side == Side::Buy ==> no_qty_between(sv.qty, sv.best as int, max_ticks - 1),
        side == Side::Sell ==> no_qty_between(sv.qty, -1, sv.best - 1),
        sv.qty[sv.best as int] > 0 || no_qty_between(sv.qty, -1, max_ticks - 1),
        side == Side::Buy && sv.qty[sv.best as int] == 0 ==> sv.best == 0,
        side == Side::Sell && sv.qty[sv.best as int] == 0 ==> sv.best == max_ticks - 1,
{
    match side {
        Side::Buy => lemma_bid_search_is_highest(sv.qty, max_ticks - 1),
        Side::Sell => lemma_ask_search_is_lowest(sv.qty, 0),
    }
    if no_qty_between(sv.qty, -1, max_ticks - 1) {
        lemma_bid_search_skip(sv.qty, 0, max_ticks - 1);
        lemma_ask_search_skip(sv.qty, 0, max_ticks - 1);
    }
}

/// The empty book is consistent.
pub proof fn lemma_empty_book_consistent(max_ticks: usize)
    requires
        max_ticks > 0,
    ensures
        book_consistent(empty_book(max_ticks)),
{
    let b = empty_book(max_ticks);
    let q = b.bids.qty;
    assert(no_qty_between(q, -1, max_ticks - 1));
    lemma_bid_top(q, 0);
    lemma_ask_top(q, max_ticks - 1);
    assert(b.asks.qty == q);
}

// The laws of price priority.

/// On a consistent book the best bid is the price of the highest occupied
/// bid level, and there is none exactly when no bid rests; the best ask is
/// the price of the lowest occupied ask level, likewise.
pub proof fn best_prices_are_best_levels(b: BookView)
    requires
        book_consistent(b),
    ensures
        (b.best_price(Side::Buy) is None) == (b.bids.levels.dom() =~= Set::empty()),
        b.best_price(Side::Buy) is Some ==> {
            &&& b.bids.levels.contains_key(b.bids.best as usize)
            &&& b.best_price(Side::Buy) == Some(tick_price(b.bids.best as usize))
            &&& forall|t: usize| #[trigger] b.bids.levels.contains_key(t) ==> t <= b.bids.best
        },
        (b.best_price(Side::Sell) is None) == (b.asks.levels.dom() =~= Set::empty()),
        b.best_price(Side::Sell) is Some ==> {
            &&& b.asks.levels.contains_key(b.asks.best as usize)
            &&& b.best_price(Side::Sell) == Some(tick_price(b.asks.best as usize))
            &&& forall|t: usize| #[trigger] b.asks.levels.contains_key(t) ==> t >= b.asks.best
        },
{
    let n = b.max_ticks;
    lemma_top_facts(b.bids, Side::Buy, n);
    lemma_top_facts(b.asks, Side::Sell, n);
    lemma_qty_iff_level(b.bids, Side::Buy, n, b.bids.best as int);
    lemma_qty_iff_level(b.asks, Side::Sell, n, b.asks.best as int);
    assert(b.bids.best as usize as int == b.bids.best as int);
    assert(b.asks.best as usize as int == b.asks.best as int);
    assert forall|t: usize| #[trigger] b.bids.levels.contains_key(t) implies t <= b.bids.best
        && b.bids.qty[b.bids.best as int] > 0 by {
        lemma_qty_iff_level(b.bids, Side::Buy, n, t as int);
    }
    assert forall|t: usize| #[trigger] b.asks.levels.contains_key(t) implies t >= b.asks.best
        && b.asks.qty[b.asks.best as int] > 0 by {
        lemma_qty_iff_level(b.asks, Side::Sell, n, t as int);
    }
    if b.bids.qty[b.bids.best as int] > 0 {
        assert(b.bids.levels.dom().contains(b.bids.best as usize));
    } else {
        assert(b.bids.levels.dom() =~= Set::empty());
    }
    if b.asks.qty[b.asks.best as int] > 0 {
        assert(b.asks.levels.dom().contains(b.asks.best as usize));
    } else {
        assert(b.asks.levels.dom() =~= Set::empty());
    }
}


/// The price of the highest occupied level of a side, if any.
pub open spec fn highest_level_price(levels: Map<usize, LevelView>) -> Option<Dec> {
    if exists|t: usize| #[trigger] levels.contains_key(t) {
        Some(
            tick_price(
                choose|t: usize|
                    #[trigger] levels.contains_key(t) && forall|u: usize| #[trigger]
                        levels.contains_key(u) ==> u <= t,
            ),
        )
    } else {
        None
    }
}

/// The price of the lowest occupied level of a side, if any.
pub open spec fn lowest_level_price(levels: Map<usize, LevelView>) -> Option<Dec> {
    if exists|t: usize| #[trigger] levels.contains_key(t) {
        Some(
            tick_price(
                choose|t: usize|
                    #[trigger] levels.contains_key(t) && forall|u: usize| #[trigger]
                        levels.contains_key(u) ==> u >= t,
            ),
        )
    } else {
        None
    }
}

/// On a consistent book the best bid is the price of the highest occupied
/// bid level and the best ask that of the lowest occupied ask level (none
/// for an empty side).
pub proof fn best_prices_are_extreme_levels(b: BookView)
    requires
        book_consistent(b),
    ensures
        b.best_price(Side::Buy) == highest_level_price(b.bids.levels),
        b.best_price(Side::Sell) == lowest_level_price(b.asks.levels),
{
    best_prices_are_best_levels(b);
    if b.best_price(Side::Buy) is Some {
        let t = b.bids.best as usize;
        assert(b.bids.levels.contains_key(t));
        let c = choose|c: usize|
            #[trigger] b.bids.levels.contains_key(c) && forall|u: usize| #[trigger]
                b.bids.levels.contains_key(u) ==> u <= c;
        assert(b.bids.levels.contains_key(t) && forall|u: usize| #[trigger]
            b.bids.levels.contains_key(u) ==> u <= t);
        assert(c <= t && t <= c);
    } else {
        assert(!exists|t: usize| #[trigger] b.bids.levels.contains_key(t)) by {
            if exists|t: usize| #[trigger] b.bids.levels.contains_key(t) {
                let t = choose|t: usize| #[trigger] b.bids.levels.contains_key(t);
                assert(b.bids.levels.dom().contains(t));
            }
        }
    }
    if b.best_price(Side::Sell) is Some {
        let t = b.asks.best as usize;
        assert(b.asks.levels.contains_key(t));
        let c = choose|c: usize|
            #[trigger] b.asks.levels.contains_key(c) && forall|u: usize| #[trigger]
                b.asks.levels.contains_key(u) ==> u >= c;
        assert(b.asks.levels.contains_key(t) && forall|u: usize| #[trigger]
            b.asks.levels.contains_key(u) ==> u >= t);
        assert(c <= t && t <= c);
    } else {
        assert(!exists|t: usize| #[trigger] b.asks.levels.contains_key(t)) by {
            if exists|t: usize| #[trigger] b.asks.levels.contains_key(t) {
                let t = choose|t: usize| #[trigger] b.asks.levels.contains_key(t);
                assert(b.asks.levels.dom().contains(t));
            }
        }
    }
}

// Inserting.

/// Adding `o` to `b` (by insertion or matching) keeps the book consistent:
/// the book is consistent, the order holds a whole number of lots, its id is
/// fresh, and its tick's counter has room for it.
pub open spec fn keeps_in_step(b: BookView, o: Order) -> bool {
    &&& book_consistent(b)
    &&& whole_qty(o.remaining)
    &&& !b.index.contains_key(o.id)
    &&& o.price matches Some(p) ==> b.side(o.side).qty[price_tick(p) as int] + o.remaining.mantissa
        <= u64::MAX
}


/// A side after an order joins the back of the level at `tick`, as
/// `BookView::insert` leaves it.
pub open spec fn side_after_push(sv: SideView, side: Side, tick: usize, o: Order) -> SideView {
    let level = level_or_empty(sv, tick).push_back(o);
    let q = sv.qty.update(tick as int, sv.qty[tick as int].wrapping_add(tick_qty(o.remaining)));
    SideView {
        qty: q,
        best: best_after_insert(side, sv.best, tick, q),
        levels: sv.levels.insert(tick, level),
    }
}

/// A whole-lot order joining a side in step with its levels keeps it so,
/// when the tick's counter does not overflow.
pub proof fn lemma_side_push(sv: SideView, side: Side, n: nat, tick: usize, o: Order)
    requires
        side_shape(sv, n),
        n <= usize::MAX,
        side_consistent(sv, side),
        tick < n,
        placed(o, side, tick),
        sv.qty[tick as int] + o.remaining.mantissa <= u64::MAX,
    ensures
        side_consistent(side_after_push(sv, side, tick, o), side),
        side_after_push(sv, side, tick, o).qty.len() == n,
{
    let sv2 = side_after_push(sv, side, tick, o);
    let l0 = level_or_empty(sv, tick);
    let m = o.remaining.mantissa;
    lemma_tick_qty_whole(o.remaining);
    lemma_lots_push(l0.orders, o);
    assert(sv.qty[tick as int] == lots_at(sv.levels, tick as int));
    assert(lots(empty_level().orders) == 0);
    assert(sv2.qty[tick as int] == sv.qty[tick as int] + m);
    assert forall|t: int| 0 <= t < sv2.qty.len() implies #[trigger] sv2.qty[t] == lots_at(
        sv2.levels,
        t,
    ) by {
        if t != tick {
            assert(sv2.qty[t] == sv.qty[t]);
            assert(sv.qty[t] == lots_at(sv.levels, t));
        }
    }
    assert forall|t: usize, i: int|
        sv2.levels.contains_key(t) && 0 <= i < sv2.levels[t].orders.len() implies placed(
        #[trigger] sv2.levels[t].orders[i],
        side,
        t,
    ) by {
        if t == tick {
            if i < l0.orders.len() {
                assert(sv2.levels[t].orders[i] == l0.orders[i]);
                assert(sv.levels.contains_key(t));
                assert(placed(sv.levels[t].orders[i], side, t));
            }
        } else {
            assert(sv2.levels[t] == sv.levels[t]);
            assert(placed(sv.levels[t].orders[i], side, t));
        }
    }
    lemma_top_facts(sv, side, n);
    let q = sv2.qty;
    let b0 = sv.best as int;
    match side {
        Side::Buy => {
            if tick > b0 {
                assert(no_qty_between(q, tick as int, n - 1));
                lemma_bid_top(q, tick as int);
            } else {
                assert(q[b0] > 0);
                assert(no_qty_between(q, b0, n - 1));
                lemma_bid_top(q, b0);
            }
        },
        Side::Sell => {
            if tick < b0 {
                assert(no_qty_between(q, -1, tick - 1));
                lemma_ask_top(q, tick as int);
            } else {
                assert(q[b0] > 0);
                assert(no_qty_between(q, -1, b0 - 1));
                lemma_ask_top(q, b0);
            }
        },
    }
}

/// Inserting a priced whole-lot order with a fresh id keeps a consistent
/// book consistent, when the counter of its tick does not overflow.  (The
/// book after insertion is well formed whenever `OrderBook::insert` can
/// run; the level total it adds up is `rust_decimal`'s.)
pub proof fn insert_keeps_consistency(b: BookView, o: Order)
    requires
        book_consistent(b),
        b.insert(o).wf(),
        o.wf(),
        b.insert_ok(o),
        whole_qty(o.remaining),
        !b.index.contains_key(o.id),
        o.price matches Some(p) ==> b.side(o.side).qty[price_tick(p) as int] + o.remaining.mantissa
            <= u64::MAX,
    ensures
        book_consistent(b.insert(o)),
{
    lemma_insert_in_step(b, o);
}

/// Both sides of a book have the shape of its ticks.
pub open spec fn book_shape(b: BookView) -> bool {
    &&& b.max_ticks <= usize::MAX
    &&& side_shape(b.bids, b.max_ticks)
    &&& side_shape(b.asks, b.max_ticks)
}

/// Inserting keeps a book in step, whatever its level totals; see
/// `insert_keeps_consistency`.
pub proof fn lemma_insert_in_step(b: BookView, o: Order)
    requires
        book_in_step(b),
        book_shape(b),
        b.insert_ok(o),
        whole_qty(o.remaining),
        !b.index.contains_key(o.id),
        o.price matches Some(p) ==> b.side(o.side).qty[price_tick(p) as int] + o.remaining.mantissa
            <= u64::MAX,
    ensures
        book_in_step(b.insert(o)),
        book_shape(b.insert(o)),
        b.insert(o).max_ticks == b.max_ticks,
{
    if let Some(p) = o.price {
        let tick = price_tick(p);
        let side = o.side;
        let n = b.max_ticks;
        let sv = b.side(side);
        let b2 = b.insert(o);
        let l0 = level_or_empty(sv, tick);
        lemma_side_push(sv, side, n, tick, o);
        assert(b2.side(side) == side_after_push(sv, side, tick, o));
        assert(b2.side(side.opposite()) == b.side(side.opposite()));
        assert forall|s: Side, t: usize, i: int|
            b2.side(s).levels.contains_key(t) && 0 <= i < b2.side(s).levels[t].orders.len() implies {
            let id = (#[trigger] b2.side(s).levels[t].orders[i]).id;
            b2.index.contains_key(id) && b2.index[id] == (s, t)
        } by {
            if s == side && t == tick {
                if i < l0.orders.len() {
                    assert(b2.side(s).levels[t].orders[i] == l0.orders[i]);
                    assert(b.side(s).levels[t].orders[i] == l0.orders[i]);
                }
            } else {
                assert(b2.side(s).levels[t] == b.side(s).levels[t]);
                assert(b.side(s).levels[t].orders[i] == b2.side(s).levels[t].orders[i]);
            }
        }
        assert forall|s: Side, t: usize, i: int, j: int|
            b2.side(s).levels.contains_key(t) && 0 <= i < b2.side(s).levels[t].orders.len() && 0
                <= j < b2.side(s).levels[t].orders.len() && (#[trigger] b2.side(
                s,
            ).levels[t].orders[i]).id == (#[trigger] b2.side(s).levels[t].orders[j]).id implies i
            == j by {
            if s == side && t == tick {
                let k = l0.orders.len() as int;
                if i < k {
                    assert(b2.side(s).levels[t].orders[i] == l0.orders[i]);
                    assert(b.side(s).levels[t].orders[i] == l0.orders[i]);
                }
                if j < k {
                    assert(b2.side(s).levels[t].orders[j] == l0.orders[j]);
                    assert(b.side(s).levels[t].orders[j] == l0.orders[j]);
                }
            } else {
                assert(b2.side(s).levels[t] == b.side(s).levels[t]);
                assert(b.side(s).levels[t].orders[i] == b2.side(s).levels[t].orders[i]);
                assert(b.side(s).levels[t].orders[j] == b2.side(s).levels[t].orders[j]);
            }
        }
        let q2 = b2.side(side).qty;
        lemma_bid_search_is_highest(q2, q2.len() - 1);
        lemma_ask_search_is_lowest(q2, 0);
        assert(side_shape(b2.side(side), n));
        assert(book_shape(b2)) by {
            if side == Side::Buy {
                assert(b2.asks == b.asks);
            } else {
                assert(b2.bids == b.bids);
            }
        }
    }
}


// Removing.

/// An order leaving a side in step with its levels keeps it so.
pub proof fn lemma_side_remove(sv: SideView, side: Side, n: nat, tick: usize, k: int)
    requires
        side_shape(sv, n),
        n <= usize::MAX,
        n > 0,
        side_consistent(sv, side),
        sv.levels.contains_key(tick),
        0 <= k < sv.levels[tick].orders.len(),
    ensures
        side_consistent(BookView::side_after_removal(sv, side, tick, k), side),
        BookView::side_after_removal(sv, side, tick, k).qty.len() == n,
{
    let sv2 = BookView::side_after_removal(sv, side, tick, k);
    let l = sv.levels[tick];
    let o = l.orders[k];
    let l2 = l.remove_at(k);
    let m = o.remaining.mantissa;
    assert(whole_qty(sv.levels[tick].orders[k].remaining));
    lemma_tick_qty_whole(o.remaining);
    lemma_lots_remove(l.orders, k);
    assert forall|i: int| 0 <= i < l2.orders.len() implies whole_qty(
        #[trigger] l2.orders[i].remaining,
    ) by {
        if i < k {
            assert(l2.orders[i] == l.orders[i]);
        } else {
            assert(l2.orders[i] == l.orders[i + 1]);
        }
        assert(whole_qty(sv.levels[tick].orders[i].remaining));
        assert(whole_qty(sv.levels[tick].orders[i + 1].remaining));
    }
    lemma_lots_positive(l2.orders);
    assert(sv.qty[tick as int] == lots_at(sv.levels, tick as int));
    let q = sv2.qty;
    assert(q[tick as int] == lots(l2.orders));
    assert forall|t: int| 0 <= t < q.len() implies #[trigger] q[t] == lots_at(sv2.levels, t) by {
        if t != tick {
            assert(q[t] == sv.qty[t]);
            assert(sv.qty[t] == lots_at(sv.levels, t));
        }
    }
    assert forall|t: usize, i: int|
        sv2.levels.contains_key(t) && 0 <= i < sv2.levels[t].orders.len() implies whole_qty(
        #[trigger] sv2.levels[t].orders[i].remaining,
    ) by {
        if t == tick {
            assert(sv2.levels[t] == l2);
        } else {
            assert(sv2.levels[t] == sv.levels[t]);
            assert(whole_qty(sv.levels[t].orders[i].remaining));
        }
    }
    lemma_top_facts(sv, side, n);
    lemma_qty_iff_level(sv, side, n, tick as int);
    let b0 = sv.best as int;
    assert(sv.qty[b0] > 0);
    assert(sv2.qty.len() == n);
    if l2.orders.len() == 0 && b0 == tick {
        match side {
            Side::Buy => {
                assert(no_qty_between(q, b0, n - 1));
                lemma_bid_search_skip(q, b0, n - 1);
                lemma_bid_search_is_highest(q, b0);
            },
            Side::Sell => {
                assert(no_qty_between(q, -1, b0 - 1));
                lemma_ask_search_skip(q, 0, b0);
                lemma_ask_search_is_lowest(q, b0);
            },
        }
    } else {
        assert(sv2.best == sv.best);
        assert(q[b0] > 0);
        match side {
            Side::Buy => {
                assert(no_qty_between(q, b0, n - 1));
                lemma_bid_top(q, b0);
            },
            Side::Sell => {
                assert(no_qty_between(q, -1, b0 - 1));
                lemma_ask_top(q, b0);
            },
        }
    }
    assert(sv2.best == top_tick(side, q));
}

/// The book after the order at position `k` of the level at `tick` on side
/// `s` leaves, with its index entry.
pub open spec fn book_after_removal(b: BookView, s: Side, tick: usize, k: int) -> BookView {
    let sv = b.side(s);
    BookView {
        index: b.index.remove(sv.levels[tick].orders[k].id),
        ..b.with_side(s, BookView::side_after_removal(sv, s, tick, k))
    }
}

/// A resting order leaving a consistent book with its index entry keeps the
/// book consistent.
pub proof fn lemma_removal_consistent(b: BookView, side: Side, tick: usize, k: int)
    requires
        book_in_step(b),
        book_shape(b),
        b.side(side).levels.contains_key(tick),
        0 <= k < b.side(side).levels[tick].orders.len(),
    ensures
        book_in_step(book_after_removal(b, side, tick, k)),
        book_shape(book_after_removal(b, side, tick, k)),
{
    let n = b.max_ticks;
    let sv = b.side(side);
    let b2 = book_after_removal(b, side, tick, k);
    let l = sv.levels[tick];
    let l2 = l.remove_at(k);
    let id = l.orders[k].id;
    lemma_side_remove(sv, side, n, tick, k);
    assert(b2.side(side) == BookView::side_after_removal(sv, side, tick, k));
    let q2 = b2.side(side).qty;
    lemma_bid_search_is_highest(q2, q2.len() - 1);
    lemma_ask_search_is_lowest(q2, 0);
    assert(side_shape(b2.side(side), n));
    assert(book_shape(b2)) by {
        if side == Side::Buy {
            assert(b2.asks == b.asks);
        } else {
            assert(b2.bids == b.bids);
        }
    }
    assert(b2.side(side.opposite()) == b.side(side.opposite()));
    assert(b2.bids == b.bids || b2.asks == b.asks);
    // Where an order of the new level was in the old one.
    assert forall|j: int| 0 <= j < l2.orders.len() implies #[trigger] l2.orders[j] == l.orders[
        if j < k {
            j
        } else {
            j + 1
        }
    ] && l2.orders[j].id != id by {
        let jj = if j < k {
            j
        } else {
            j + 1
        };
        assert(jj != k);
        assert(b.side(side).levels[tick].orders[jj].id != b.side(side).levels[tick].orders[k].id);
    }
    assert forall|s: Side, t: usize, i: int|
        b2.side(s).levels.contains_key(t) && 0 <= i < b2.side(s).levels[t].orders.len() implies {
        let oid = (#[trigger] b2.side(s).levels[t].orders[i]).id;
        b2.index.contains_key(oid) && b2.index[oid] == (s, t)
    } by {
        if s == side && t == tick {
            assert(b2.side(s).levels[t] == l2);
            let ii = if i < k {
                i
            } else {
                i + 1
            };
            assert(l2.orders[i] == l.orders[ii]);
            assert(b.side(s).levels[t].orders[ii] == l.orders[ii]);
        } else {
            assert(b2.side(s).levels[t] == b.side(s).levels[t]);
            let o2 = b.side(s).levels[t].orders[i];
            assert(b.index[o2.id] == (s, t));
            assert(b.index[id] == (side, tick));
        }
    }
    assert forall|s: Side, t: usize, i: int, j: int|
        b2.side(s).levels.contains_key(t) && 0 <= i < b2.side(s).levels[t].orders.len() && 0 <= j
            < b2.side(s).levels[t].orders.len() && (#[trigger] b2.side(s).levels[t].orders[i]).id
            == (#[trigger] b2.side(s).levels[t].orders[j]).id implies i == j by {
        if s == side && t == tick {
            assert(b2.side(s).levels[t] == l2);
            let ii = if i < k {
                i
            } else {
                i + 1
            };
            let jj = if j < k {
                j
            } else {
                j + 1
            };
            assert(l2.orders[i] == l.orders[ii]);
            assert(l2.orders[j] == l.orders[jj]);
            assert(b.side(s).levels[t].orders[ii] == l.orders[ii]);
            assert(b.side(s).levels[t].orders[jj] == l.orders[jj]);
        } else {
            assert(b2.side(s).levels[t] == b.side(s).levels[t]);
            assert(b.side(s).levels[t].orders[i] == b2.side(s).levels[t].orders[i]);
            assert(b.side(s).levels[t].orders[j] == b2.side(s).levels[t].orders[j]);
        }
    }
}

/// Cancelling keeps a consistent book consistent.
pub proof fn cancel_keeps_consistency(b: BookView, id: u128)
    requires
        book_consistent(b),
        b.cancel(id).0.wf(),
    ensures
        book_consistent(b.cancel(id).0),
{
    if b.index.contains_key(id) {
        let (s, t) = b.index[id];
        let l = b.side(s).levels[t].orders;
        let k = find_id(l, id);
        lemma_find_id_bounds(l, id);
        assert(book_after_removal(b, s, t, k) == b.cancel(id).0);
        lemma_removal_consistent(b, s, t, k);
        assert(b.cancel(id).0.wf());
    }
}


/// Two sides with the same counters, best tick and orders at every level
/// (their level totals may differ).
pub open spec fn same_orders(a: SideView, c: SideView) -> bool {
    &&& a.qty == c.qty
    &&& a.best == c.best
    &&& a.levels.dom() == c.levels.dom()
    &&& forall|t: usize| #[trigger] a.levels.contains_key(t) ==> a.levels[t].orders
        == c.levels[t].orders
}

/// Being in step does not depend on the level totals.
pub proof fn lemma_consistent_same_orders(b: BookView, c: BookView)
    requires
        book_in_step(b),
        c.max_ticks == b.max_ticks,
        c.index == b.index,
        same_orders(b.bids, c.bids),
        same_orders(b.asks, c.asks),
    ensures
        book_in_step(c),
{
    assert forall|s: Side, t: usize| #[trigger] c.side(s).levels.contains_key(t) implies
        b.side(s).levels.contains_key(t) && c.side(s).levels[t].orders == b.side(
        s,
    ).levels[t].orders by {
        assert(b.side(s).levels.dom().contains(t));
    }
    assert forall|t: int| 0 <= t < c.bids.qty.len() implies #[trigger] c.bids.qty[t] == lots_at(
        c.bids.levels,
        t,
    ) by {
        assert(b.bids.qty[t] == lots_at(b.bids.levels, t));
        if 0 <= t <= usize::MAX && c.bids.levels.contains_key(t as usize) {
            assert(c.side(Side::Buy).levels.contains_key(t as usize));
        } else if 0 <= t <= usize::MAX {
            assert(!b.bids.levels.dom().contains(t as usize));
        }
    }
    assert forall|t: int| 0 <= t < c.asks.qty.len() implies #[trigger] c.asks.qty[t] == lots_at(
        c.asks.levels,
        t,
    ) by {
        assert(b.asks.qty[t] == lots_at(b.asks.levels, t));
        if 0 <= t <= usize::MAX && c.asks.levels.contains_key(t as usize) {
            assert(c.side(Side::Sell).levels.contains_key(t as usize));
        } else if 0 <= t <= usize::MAX {
            assert(!b.asks.levels.dom().contains(t as usize));
        }
    }
    assert forall|t: usize, i: int|
        c.bids.levels.contains_key(t) && 0 <= i < c.bids.levels[t].orders.len() implies whole_qty(
        #[trigger] c.bids.levels[t].orders[i].remaining,
    ) by {
        assert(c.side(Side::Buy).levels.contains_key(t));
        assert(whole_qty(b.bids.levels[t].orders[i].remaining));
    }
    assert forall|t: usize, i: int|
        c.asks.levels.contains_key(t) && 0 <= i < c.asks.levels[t].orders.len() implies whole_qty(
        #[trigger] c.asks.levels[t].orders[i].remaining,
    ) by {
        assert(c.side(Side::Sell).levels.contains_key(t));
        assert(whole_qty(b.asks.levels[t].orders[i].remaining));
    }
    assert forall|s: Side, t: usize, i: int|
        c.side(s).levels.contains_key(t) && 0 <= i < c.side(s).levels[t].orders.len() implies {
        let id = (#[trigger] c.side(s).levels[t].orders[i]).id;
        c.index.contains_key(id) && c.index[id] == (s, t)
    } by {
        assert(b.side(s).levels[t].orders[i] == c.side(s).levels[t].orders[i]);
    }
    assert forall|s: Side, t: usize, i: int, j: int|
        c.side(s).levels.contains_key(t) && 0 <= i < c.side(s).levels[t].orders.len() && 0 <= j
            < c.side(s).levels[t].orders.len() && (#[trigger] c.side(s).levels[t].orders[i]).id == (
        #[trigger] c.side(s).levels[t].orders[j]).id implies i == j by {
        assert(b.side(s).levels[t].orders[i] == c.side(s).levels[t].orders[i]);
        assert(b.side(s).levels[t].orders[j] == c.side(s).levels[t].orders[j]);
    }
}

/// Taking a whole number of lots off the first order of a level of a
/// consistent book keeps it consistent, given that `rust_decimal` subtracts
/// the fill from that order's remaining quantity exactly (as it does for
/// numbers written without decimal places).
pub proof fn fill_keeps_consistency(b: BookView, side: Side, tick: usize, fill: Dec)
    requires
        book_consistent(b),
        b.side(side).levels.contains_key(tick),
        fill.scale == 0,
        0 < fill.mantissa <= b.side(side).levels[tick].orders[0].remaining.mantissa,
        ({
            let r = b.side(side).levels[tick].orders[0].remaining;
            let d = decimal_difference(r, fill);
            d.scale == 0 && d.mantissa == r.mantissa - fill.mantissa
        }),
        b.fill_front(side, tick, fill).0.wf(),
    ensures
        book_consistent(b.fill_front(side, tick, fill).0),
{
    let n = b.max_ticks;
    let sv = b.side(side);
    let l = sv.levels[tick];
    let o0 = l.orders[0];
    let d = decimal_difference(o0.remaining, fill);
    let b2 = b.fill_front(side, tick, fill).0;
    assert(whole_qty(b.side(side).levels[tick].orders[0].remaining));
    lemma_tick_qty_whole(fill);
    lemma_tick_qty_whole(o0.remaining);
    lemma_pow10_pos(28);
    assert(d.units() == d.mantissa * pow10(28));
    if d.mantissa == 0 {
        assert(d.units() == 0) by (nonlinear_arith)
            requires
                d.units() == d.mantissa * pow10(28),
                d.mantissa == 0,
        ;
        let b3 = book_after_removal(b, side, tick, 0);
        assert(b3.side(side).qty == b2.side(side).qty);
        assert(b3.side(side).levels.dom() =~= b2.side(side).levels.dom());
        assert(l.reduce_front(fill).orders.drop_first() =~= l.orders.remove(0));
        lemma_removal_consistent(b, side, tick, 0);
        lemma_consistent_same_orders(b3, b2);
    } else {
        assert(d.units() != 0) by (nonlinear_arith)
            requires
                d.units() == d.mantissa * pow10(28),
                d.mantissa != 0,
                pow10(28) > 0,
        ;
        let o1 = with_remaining(o0, d);
        let l1 = l.reduce_front(fill);
        assert(l1.orders == l.orders.update(0, o1));
        lemma_lots_update(l.orders, 0, o1);
        assert(whole_qty(d));
        assert forall|i: int| 0 <= i < l1.orders.len() implies whole_qty(
            #[trigger] l1.orders[i].remaining,
        ) by {
            if i > 0 {
                assert(l1.orders[i] == l.orders[i]);
                assert(whole_qty(sv.levels[tick].orders[i].remaining));
            }
        }
        lemma_lots_positive(l1.orders);
        assert(sv.qty[tick as int] == lots_at(sv.levels, tick as int));
        let sv2 = b2.side(side);
        let q = sv2.qty;
        assert(sv2.levels == sv.levels.insert(tick, l1));
        assert(q[tick as int] == lots(l1.orders));
        assert forall|t: int| 0 <= t < q.len() implies #[trigger] q[t] == lots_at(sv2.levels, t) by {
            if t != tick {
                assert(q[t] == sv.qty[t]);
                assert(sv.qty[t] == lots_at(sv.levels, t));
            }
        }
        assert forall|t: usize, i: int|
            sv2.levels.contains_key(t) && 0 <= i < sv2.levels[t].orders.len() implies whole_qty(
            #[trigger] sv2.levels[t].orders[i].remaining,
        ) by {
            if t != tick {
                assert(sv2.levels[t] == sv.levels[t]);
                assert(whole_qty(sv.levels[t].orders[i].remaining));
            }
        }
        lemma_top_facts(sv, side, n);
        lemma_qty_iff_level(sv, side, n, tick as int);
        let b0 = sv.best as int;
        assert(q[b0] > 0);
        match side {
            Side::Buy => {
                assert(no_qty_between(q, b0, n - 1));
                lemma_bid_top(q, b0);
            },
            Side::Sell => {
                assert(no_qty_between(q, -1, b0 - 1));
                lemma_ask_top(q, b0);
            },
        }
        assert(side_consistent(sv2, side));
        assert(b2.side(side.opposite()) == b.side(side.opposite()));
        assert(b2.index == b.index);
        assert forall|s: Side, t: usize, i: int|
            b2.side(s).levels.contains_key(t) && 0 <= i < b2.side(s).levels[t].orders.len() implies {
            let id = (#[trigger] b2.side(s).levels[t].orders[i]).id;
            b2.index.contains_key(id) && b2.index[id] == (s, t)
        } by {
            assert(b.side(s).levels[t].orders[i].id == b2.side(s).levels[t].orders[i].id);
        }
        assert forall|s: Side, t: usize, i: int, j: int|
            b2.side(s).levels.contains_key(t) && 0 <= i < b2.side(s).levels[t].orders.len() && 0
                <= j < b2.side(s).levels[t].orders.len() && (#[trigger] b2.side(
                s,
            ).levels[t].orders[i]).id == (#[trigger] b2.side(s).levels[t].orders[j]).id implies i
            == j by {
            assert(b.side(s).levels[t].orders[i].id == b2.side(s).levels[t].orders[i].id);
            assert(b.side(s).levels[t].orders[j].id == b2.side(s).levels[t].orders[j].id);
        }
    }
}


// Depth.

/// The depth entry of the level at tick `t`: its price, its lots (as the
/// tick counter reports them, a signed 64-bit number) and its number of
/// orders.
pub open spec fn level_entry(levels: Map<usize, LevelView>, t: usize) -> BookLevel {
    BookLevel {
        price: tick_price(t),
        qty: Dec { mantissa: ((lots(levels[t].orders) as u64) as i64) as i128, scale: 0 },
        order_count: levels[t].orders.len() as u32,
    }
}

/// The occupied levels met scanning down from tick `t`, one entry each,
/// until `want` entries are gathered in all (at least one).
pub open spec fn levels_down(levels: Map<usize, LevelView>, t: int, got: nat, want: nat) -> Seq<
    BookLevel,
>
    decreases t + 1,
{
    if t < 0 {
        Seq::empty()
    } else if t <= usize::MAX && levels.contains_key(t as usize) {
        if got + 1 >= want {
            seq![level_entry(levels, t as usize)]
        } else {
            seq![level_entry(levels, t as usize)] + levels_down(levels, t - 1, got + 1, want)
        }
    } else {
        levels_down(levels, t - 1, got, want)
    }
}

/// The occupied levels met scanning up from tick `t` to tick `n - 1`, as
/// `levels_down` does downward.
pub open spec fn levels_up(levels: Map<usize, LevelView>, t: int, n: nat, got: nat, want: nat) -> Seq<
    BookLevel,
>
    decreases n - t,
{
    if t >= n || t < 0 {
        Seq::empty()
    } else if t <= usize::MAX && levels.contains_key(t as usize) {
        if got + 1 >= want {
            seq![level_entry(levels, t as usize)]
        } else {
            seq![level_entry(levels, t as usize)] + levels_up(levels, t + 1, n, got + 1, want)
        }
    } else {
        levels_up(levels, t + 1, n, got, want)
    }
}

/// A tick's depth entry is its level's entry.
proof fn lemma_entry(sv: SideView, side: Side, n: nat, t: int)
    requires
        side_shape(sv, n),
        n <= usize::MAX,
        side_consistent(sv, side),
        0 <= t < n,
        sv.levels.contains_key(t as usize),
    ensures
        depth_entry(sv, t as usize) == level_entry(sv.levels, t as usize),
{
    assert(sv.qty[t] == lots_at(sv.levels, t));
    assert(sv.qty[t as usize as int] == sv.qty[t]);
}

/// Scanning the tick counters down is scanning the levels down.
proof fn lemma_depth_down_levels(sv: SideView, side: Side, n: nat, t: int, got: nat, want: nat)
    requires
        side_shape(sv, n),
        n <= usize::MAX,
        side_consistent(sv, side),
        t < n,
    ensures
        depth_down(sv, t, got, want) == levels_down(sv.levels, t, got, want),
    decreases t + 1,
{
    if t >= 0 {
        lemma_qty_iff_level(sv, side, n, t);
        if sv.levels.contains_key(t as usize) {
            lemma_entry(sv, side, n, t);
        }
        lemma_depth_down_levels(sv, side, n, t - 1, got + 1, want);
        lemma_depth_down_levels(sv, side, n, t - 1, got, want);
    }
}

/// Scanning the tick counters up is scanning the levels up.
proof fn lemma_depth_up_levels(sv: SideView, side: Side, n: nat, t: int, got: nat, want: nat)
    requires
        side_shape(sv, n),
        n <= usize::MAX,
        side_consistent(sv, side),
        0 <= t,
    ensures
        depth_up(sv, t, got, want) == levels_up(sv.levels, t, n, got, want),
    decreases n - t,
{
    if t < n {
        lemma_qty_iff_level(sv, side, n, t);
        if sv.levels.contains_key(t as usize) {
            lemma_entry(sv, side, n, t);
        }
        lemma_depth_up_levels(sv, side, n, t + 1, got + 1, want);
        lemma_depth_up_levels(sv, side, n, t + 1, got, want);
    }
}

/// A downward scan passes over ticks without levels.
proof fn lemma_levels_down_skip(levels: Map<usize, LevelView>, t: int, u: int, got: nat, want: nat)
    requires
        0 <= t <= u <= usize::MAX,
        forall|x: usize| t < x <= u ==> !#[trigger] levels.contains_key(x),
    ensures
        levels_down(levels, u, got, want) == levels_down(levels, t, got, want),
    decreases u - t,
{
    if u > t {
        assert(!levels.contains_key(u as usize));
        lemma_levels_down_skip(levels, t, u - 1, got, want);
    }
}

/// An upward scan passes over ticks without levels.
proof fn lemma_levels_up_skip(levels: Map<usize, LevelView>, t: int, u: int, n: nat, got: nat, want: nat)
    requires
        0 <= t <= u < n <= usize::MAX,
        forall|x: usize| t <= x < u ==> !#[trigger] levels.contains_key(x),
    ensures
        levels_up(levels, t, n, got, want) == levels_up(levels, u, n, got, want),
    decreases u - t,
{
    if t < u {
        assert(!levels.contains_key(t as usize));
        lemma_levels_up_skip(levels, t + 1, u, n, got, want);
    }
}

/// On a consistent book the depth of a side reports its occupied levels,
/// best first (bids from the highest tick down, asks from the lowest up),
/// each with its price, its lots and its number of orders, at most
/// `levels` of them (and one when `levels` is 0).
pub proof fn depth_reports_levels(b: BookView, levels: nat)
    requires
        book_consistent(b),
    ensures
        b.depth(Side::Buy, levels) == levels_down(b.bids.levels, b.max_ticks - 1, 0, levels),
        b.depth(Side::Sell, levels) == levels_up(b.asks.levels, 0, b.max_ticks, 0, levels),
{
    let n = b.max_ticks;
    lemma_top_facts(b.bids, Side::Buy, n);
    lemma_top_facts(b.asks, Side::Sell, n);
    lemma_depth_down_levels(b.bids, Side::Buy, n, b.bids.best as int, 0, levels);
    lemma_depth_up_levels(b.asks, Side::Sell, n, b.asks.best as int, 0, levels);
    assert forall|x: usize| b.bids.best < x <= n - 1 implies !#[trigger] b.bids.levels.contains_key(
        x,
    ) by {
        lemma_qty_iff_level(b.bids, Side::Buy, n, x as int);
    }
    assert forall|x: usize| 0 <= x < b.asks.best implies !#[trigger] b.asks.levels.contains_key(
        x,
    ) by {
        lemma_qty_iff_level(b.asks, Side::Sell, n, x as int);
    }
    lemma_levels_down_skip(b.bids.levels, b.bids.best as int, n - 1, 0, levels);
    lemma_levels_up_skip(b.asks.levels, 0, b.asks.best as int, n, 0, levels);
}

} // verus!
