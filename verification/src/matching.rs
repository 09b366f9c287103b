//! The matching loop: an incoming order trades against the best resting
//! orders of the other side in price-time priority, with self-trade
//! prevention, fill-or-kill and immediate-or-cancel handling.
use crate::book::{
    level_or_empty, search_best, ask_search, bid_search, decimal_to_tick_qty, find_id,
    lemma_ask_search_is_lowest,
    lemma_bid_search_is_highest, lemma_find_id_has_id, has_id, hundred, price_tick, price_to_tick,
    lemma_cents_exact, with_remaining,
    scaled_price, side_view, tick_price, tick_qty, tick_to_decimal, BookView, LevelView,
    OrderBook, PriceLevel, SideView, TickArray,
};
use crate::decimal::{
    can_add, can_div, can_mul, can_sub, dec_add, dec_div, dec_fract, dec_lt, dec_min, dec_mul,
    dec_sub, dec_to_u64, decimal_difference, exact_whole_difference,
    decimal_product, decimal_quotient, decimal_sum, difference_fits, lemma_units_sign,
    lemma_wf_in_range, lemma_zero_representable, max_scale, product_fits, quotient_fits, sum_fits, Dec,
};
use crate::types::{
    trade_id, Order, OrderStatus, OrderType, PlaceOrderResult, STPMode, Side, Trade,
};
use crate::decimal::{lemma_pow10_pos, pow10, MAX_MANTISSA};
use crate::priority::{
    book_after_removal, book_consistent, book_in_step, fill_keeps_consistency,
    insert_keeps_consistency, keeps_in_step, lemma_removal_consistent, uncrossed, whole_qty,
};
use crate::totals::{
    all_or_nothing_applies, crossing_lots, fill_keeps_totals,
    lemma_stop_no_crossing, lemma_trade_round, remove_front_keeps_totals, totals_in_step, trade_exact,
    lemma_crossing_mono, lemma_level_lots, lemma_none_cross_down, lemma_none_cross_up, total_in_step,
};
use std::collections::HashMap;
use vstd::prelude::*;

verus! {

broadcast use vstd::std_specs::hash::group_hash_axioms;

/// The number of orders in a level, or 0 without one.
pub open spec fn len_at(levels: Map<usize, LevelView>, t: int) -> nat {
    if 0 <= t <= usize::MAX && levels.contains_key(t as usize) {
        levels[t as usize].orders.len()
    } else {
        0
    }
}

/// The number of orders in the levels at ticks below `n`.
pub open spec fn count_orders(levels: Map<usize, LevelView>, n: int) -> nat
    decreases n,
{
    if n <= 0 {
        0
    } else {
        count_orders(levels, n - 1) + len_at(levels, n - 1)
    }
}

/// Changing the levels at one tick below `n` changes the count by the
/// change in that level's length.
pub proof fn lemma_count_orders_change(
    m1: Map<usize, LevelView>,
    m2: Map<usize, LevelView>,
    t0: int,
    n: int,
)
    requires
        0 <= t0 < n,
        forall|t: int| 0 <= t < n && t != t0 ==> len_at(m1, t) == len_at(m2, t),
    ensures
        count_orders(m2, n) + len_at(m1, t0) == count_orders(m1, n) + len_at(m2, t0),
    decreases n,
{
    if n - 1 > t0 {
        lemma_count_orders_change(m1, m2, t0, n - 1);
    } else {
        lemma_count_orders_unchanged(m1, m2, t0);
    }
}

/// Levels that agree below `n` have the same count.
pub proof fn lemma_count_orders_unchanged(m1: Map<usize, LevelView>, m2: Map<usize, LevelView>, n: int)
    requires
        forall|t: int| 0 <= t < n ==> len_at(m1, t) == len_at(m2, t),
    ensures
        count_orders(m2, n) == count_orders(m1, n),
    decreases n,
{
    if n > 0 {
        lemma_count_orders_unchanged(m1, m2, n - 1);
    }
}


impl BookView {
    /// The book after the first order of the level at `tick` on `side`
    /// leaves (its index entry too), and that order; nothing without such
    /// an order.
    pub open spec fn remove_front(self, side: Side, tick: usize) -> (BookView, Option<Order>) {
        let sv = self.side(side);
        if !sv.levels.contains_key(tick) || sv.levels[tick].orders.len() == 0 {
            (self, None)
        } else {
            let o = sv.levels[tick].orders[0];
            (
                BookView {
                    index: self.index.remove(o.id),
                    ..self.with_side(side, BookView::side_after_removal(sv, side, tick, 0))
                },
                Some(o),
            )
        }
    }

    /// The first order of the level at `tick` can leave without overflow.
    pub open spec fn remove_front_ok(self, side: Side, tick: usize) -> bool {
        self.side(side).levels.contains_key(tick) ==> self.side(side).levels[tick].pop_front_ok()
    }

    /// The book after `fill` is taken off the first order of the level at
    /// `tick` on `side` and off that tick: the order leaves (with its index
    /// entry) once nothing of it remains, an emptied level goes away and the
    /// best tick is searched for again when it was there.  Also the id of
    /// the order that left, if one did.
    pub open spec fn fill_front(self, side: Side, tick: usize, fill: Dec) -> (BookView, Option<u128>) {
        let sv = self.side(side);
        if !sv.levels.contains_key(tick) || sv.levels[tick].orders.len() == 0 {
            (self, None)
        } else {
            let l1 = sv.levels[tick].reduce_front(fill);
            let q = sv.qty.update(tick as int, sv.qty[tick as int].wrapping_sub(tick_qty(fill)));
            let front = l1.orders[0];
            let done = front.remaining.units() == 0;
            let l2 = if done {
                l1.pop_front()
            } else {
                l1
            };
            let sv2 = if l2.orders.len() == 0 {
                SideView {
                    qty: q,
                    best: if sv.best as usize == tick {
                        search_best(side, q, sv.best)
                    } else {
                        sv.best
                    },
                    levels: sv.levels.remove(tick),
                }
            } else {
                SideView { qty: q, best: sv.best, levels: sv.levels.insert(tick, l2) }
            };
            (
                BookView {
                    index: if done {
                        self.index.remove(front.id)
                    } else {
                        self.index
                    },
                    ..self.with_side(side, sv2)
                },
                if done {
                    Some(front.id)
                } else {
                    None
                },
            )
        }
    }

    /// `fill` can be taken off the first order of the level at `tick`
    /// without overflow.
    pub open spec fn fill_front_ok(self, side: Side, tick: usize, fill: Dec) -> bool {
        self.side(side).levels.contains_key(tick) ==> self.side(side).levels[tick].reduce_front_ok(
            fill,
        )
    }
}

/// Takes the first order out of the level at `tick` of one side.
fn pop_from_side(
    arr: &mut TickArray,
    levels: &mut HashMap<usize, PriceLevel>,
    side: Side,
    tick: usize,
    max_ticks: Ghost<nat>,
) -> (r: Option<Order>)
    requires
        side_view(old(arr), old(levels)@).wf(max_ticks@),
        side_view(old(arr), old(levels)@).levels.contains_key(tick) ==> side_view(
            old(arr),
            old(levels)@,
        ).levels[tick].pop_front_ok(),
    ensures
        ({
            let sv = side_view(old(arr), old(levels)@);
            if !sv.levels.contains_key(tick) || sv.levels[tick].orders.len() == 0 {
                r is None && side_view(final(arr), final(levels)@) == sv
            } else {
                r == Some(sv.levels[tick].orders[0]) && side_view(final(arr), final(levels)@)
                    == BookView::side_after_removal(sv, side, tick, 0) && exact_whole_difference(
                    sv.levels[tick].total_qty,
                    sv.levels[tick].orders[0].remaining,
                )
            }
        }),
        side_view(final(arr), final(levels)@).wf(max_ticks@),
{
    let ghost sv = side_view(arr, levels@);
    let mut level = match levels.remove(&tick) {
        Some(l) => l,
        None => {
            assert(side_view(arr, levels@).levels =~= sv.levels);
            return None;
        },
    };
    if level.is_empty() {
        levels.insert(tick, level);
        assert(side_view(arr, levels@).levels =~= sv.levels);
        return None;
    }
    assert(sv.levels.contains_key(tick));
    assert(level@ == sv.levels[tick]);
    assert(level@.orders[0].wf());
    let order = level.pop_front().unwrap();
    assert(level@ == sv.levels[tick].remove_at(0)) by {
        assert(sv.levels[tick].orders.drop_first() =~= sv.levels[tick].orders.remove(0));
    }
    let tq = decimal_to_tick_qty(order.remaining);
    if !level.is_empty() {
        arr.sub_qty(tick, tq);
        levels.insert(tick, level);
        assert(side_view(arr, levels@).levels =~= sv.levels.insert(
            tick,
            sv.levels[tick].remove_at(0),
        ));
    } else {
        arr.sub_qty(tick, tq);
        if arr.get_best_tick() == tick {
            proof {
                lemma_bid_search_is_highest(arr.qty@, arr.best_tick as int);
                lemma_ask_search_is_lowest(arr.qty@, arr.best_tick as int);
            }
            match side {
                Side::Buy => arr.update_best_bid(),
                Side::Sell => arr.update_best_ask(),
            }
        }
        assert(side_view(arr, levels@).levels =~= sv.levels.remove(tick));
    }
    Some(order)
}

/// Takes `fill` off the first order of the level at `tick` of one side and
/// off the tick; the order leaves once nothing of it remains.  Returns the
/// id of the order that left.
fn fill_on_side(
    arr: &mut TickArray,
    levels: &mut HashMap<usize, PriceLevel>,
    side: Side,
    tick: usize,
    fill: Dec,
    max_ticks: Ghost<nat>,
) -> (r: Option<u128>)
    requires
        side_view(old(arr), old(levels)@).wf(max_ticks@),
        tick < max_ticks@,
        fill.wf(),
        side_view(old(arr), old(levels)@).levels.contains_key(tick) ==> side_view(
            old(arr),
            old(levels)@,
        ).levels[tick].reduce_front_ok(fill),
    ensures
        ({
            let sv = side_view(old(arr), old(levels)@);
            let b = BookView {
                max_ticks: max_ticks@,
                bids: sv,
                asks: sv,
                index: Map::empty(),
            };
            let (b2, popped) = b.fill_front(side, tick, fill);
            side_view(final(arr), final(levels)@) == b2.side(side) && r == popped
        }),
        ({
            let sv = side_view(old(arr), old(levels)@);
            sv.levels.contains_key(tick) && sv.levels[tick].orders.len() > 0
                && sv.levels[tick].orders[0].remaining.units() == fill.units() ==> r is Some
        }),
        ({
            let sv = side_view(old(arr), old(levels)@);
            sv.levels.contains_key(tick) && sv.levels[tick].orders.len() > 0
                ==> exact_whole_difference(sv.levels[tick].orders[0].remaining, fill)
        }),
        ({
            let sv = side_view(old(arr), old(levels)@);
            let l = sv.levels[tick];
            sv.levels.contains_key(tick) && l.orders.len() > 0 ==> {
                &&& exact_whole_difference(l.total_qty, fill)
                &&& decimal_difference(l.orders[0].remaining, fill).units() == 0
                    ==> exact_whole_difference(
                    decimal_difference(l.total_qty, fill),
                    decimal_difference(l.orders[0].remaining, fill),
                )
            }
        }),
        side_view(final(arr), final(levels)@).wf(max_ticks@),
{
    let ghost sv = side_view(arr, levels@);
    let mut level = match levels.remove(&tick) {
        Some(l) => l,
        None => {
            assert(side_view(arr, levels@).levels =~= sv.levels);
            return None;
        },
    };
    if level.is_empty() {
        levels.insert(tick, level);
        assert(side_view(arr, levels@).levels =~= sv.levels);
        return None;
    }
    level.reduce_front_remaining(fill);
    let ghost l1 = level@;
    let tq = decimal_to_tick_qty(fill);
    arr.sub_qty(tick, tq);
    let mut popped: Option<u128> = None;
    let front_done = match level.front() {
        Some(o) => o.remaining.is_zero(),
        None => false,
    };
    if front_done {
        proof {
            lemma_wf_in_range(l1.total_qty);
        }
        let order = level.pop_front().unwrap();
        popped = Some(order.id);
    }
    if !level.is_empty() {
        levels.insert(tick, level);
        assert(side_view(arr, levels@).levels =~= sv.levels.insert(tick, level@));
    } else {
        if arr.get_best_tick() == tick {
            proof {
                lemma_bid_search_is_highest(arr.qty@, arr.best_tick as int);
                lemma_ask_search_is_lowest(arr.qty@, arr.best_tick as int);
            }
            match side {
                Side::Buy => arr.update_best_bid(),
                Side::Sell => arr.update_best_ask(),
            }
        }
        assert(side_view(arr, levels@).levels =~= sv.levels.remove(tick));
    }
    popped
}


/// Removing an order with another id keeps an id present.
pub proof fn lemma_has_id_remove(s: Seq<Order>, k: int, i: u128)
    requires
        0 <= k < s.len(),
        s[k].id != i,
        has_id(s, i),
    ensures
        has_id(s.remove(k), i),
{
    let j = choose|j: int| 0 <= j < s.len() && (#[trigger] s[j]).id == i;
    let t = s.remove(k);
    if j < k {
        assert(t[j] == s[j]);
    } else {
        assert(t[j - 1] == s[j]);
    }
}

/// Replacing an order by one with the same id keeps the ids present.
pub proof fn lemma_has_id_update(s: Seq<Order>, k: int, o: Order, i: u128)
    requires
        0 <= k < s.len(),
        s[k].id == o.id,
    ensures
        has_id(s.update(k, o), i) == has_id(s, i),
{
    let t = s.update(k, o);
    if has_id(s, i) {
        let j = choose|j: int| 0 <= j < s.len() && (#[trigger] s[j]).id == i;
        assert(t[j].id == i);
    }
    if has_id(t, i) {
        let j = choose|j: int| 0 <= j < t.len() && (#[trigger] t[j]).id == i;
        assert(s[j].id == i);
    }
}

/// Takes the first order out of the level at `tick` on `side`, with its
/// index entry.
fn remove_contra_front(book: &mut OrderBook, contra_side: Side, tick: usize) -> (r: Option<Order>)
    requires
        old(book)@.wf(),
        old(book)@.remove_front_ok(contra_side, tick),
    ensures
        (final(book)@, r) == old(book)@.remove_front(contra_side, tick),
        final(book)@.wf(),
        book_consistent(old(book)@) && totals_in_step(old(book)@) ==> totals_in_step(
            final(book)@,
        ),
{
    let ghost mt = book.max_ticks as nat;
    let ghost b0 = book@;
    let r = match contra_side {
        Side::Buy => pop_from_side(&mut book.bids, &mut book.bid_levels, contra_side, tick, Ghost(mt)),
        Side::Sell => pop_from_side(&mut book.asks, &mut book.ask_levels, contra_side, tick, Ghost(mt)),
    };
    match r {
        Some(order) => {
            let id = order.id;
            book.order_index.remove(&id);
            proof {
                let l0 = b0.side(contra_side).levels[tick].orders;
                assert forall|i: u128| #[trigger] book@.index.contains_key(i) implies {
                    let (s, t) = book@.index[i];
                    &&& book@.side(s).levels.contains_key(t)
                    &&& find_id(book@.side(s).levels[t].orders, i) >= 0
                } by {
                    let (s0, t0) = b0.index[i];
                    let la = b0.side(s0).levels[t0].orders;
                    lemma_find_id_has_id(la, i);
                    if s0 == contra_side && t0 == tick {
                        lemma_has_id_remove(la, 0, i);
                        lemma_find_id_has_id(la.remove(0), i);
                    }
                }
                if book_consistent(b0) && totals_in_step(b0) {
                    remove_front_keeps_totals(b0, contra_side, tick);
                }
            }
            Some(order)
        },
        None => {
            assert(book@ =~= b0);
            None
        },
    }
}

/// Takes `fill` off the first order of the level at `tick` on `side`; the
/// order leaves with its index entry once nothing of it remains.  Returns
/// the id of the order that left.
fn fill_contra_front(book: &mut OrderBook, contra_side: Side, tick: usize, fill: Dec) -> (r: Option<
    u128,
>)
    requires
        old(book)@.wf(),
        tick < old(book)@.max_ticks,
        fill.wf(),
        old(book)@.fill_front_ok(contra_side, tick, fill),
    ensures
        (final(book)@, r) == old(book)@.fill_front(contra_side, tick, fill),
        ({
            let sv = old(book)@.side(contra_side);
            sv.levels.contains_key(tick) && sv.levels[tick].orders.len() > 0
                && sv.levels[tick].orders[0].remaining.units() == fill.units() ==> r is Some
        }),
        ({
            let sv = old(book)@.side(contra_side);
            sv.levels.contains_key(tick) && sv.levels[tick].orders.len() > 0
                ==> exact_whole_difference(sv.levels[tick].orders[0].remaining, fill)
        }),
        final(book)@.wf(),
        book_consistent(old(book)@) && totals_in_step(old(book)@) && fill.scale == 0
            ==> totals_in_step(final(book)@),
{
    let ghost mt = book.max_ticks as nat;
    let ghost b0 = book@;
    let popped = match contra_side {
        Side::Buy => fill_on_side(&mut book.bids, &mut book.bid_levels, contra_side, tick, fill, Ghost(mt)),
        Side::Sell => fill_on_side(&mut book.asks, &mut book.ask_levels, contra_side, tick, fill, Ghost(mt)),
    };
    if let Some(id) = popped {
        book.order_index.remove(&id);
    }
    proof {
        let sv = b0.side(contra_side);
        if sv.levels.contains_key(tick) && sv.levels[tick].orders.len() > 0 {
            let l0 = sv.levels[tick];
            let l1 = l0.reduce_front(fill);
            assert forall|i: u128| #[trigger] book@.index.contains_key(i) implies {
                let (s, t) = book@.index[i];
                &&& book@.side(s).levels.contains_key(t)
                &&& find_id(book@.side(s).levels[t].orders, i) >= 0
            } by {
                let (s0, t0) = b0.index[i];
                let la = b0.side(s0).levels[t0].orders;
                lemma_find_id_has_id(la, i);
                if s0 == contra_side && t0 == tick {
                    lemma_has_id_update(la, 0, l1.orders[0], i);
                    lemma_find_id_has_id(l1.orders, i);
                    if popped is Some {
                        lemma_has_id_remove(l1.orders, 0, i);
                        assert(l1.orders.drop_first() =~= l1.orders.remove(0));
                        lemma_find_id_has_id(l1.orders.drop_first(), i);
                    }
                }
            }
            if book_consistent(b0) && totals_in_step(b0) && fill.scale == 0 {
                fill_keeps_totals(b0, contra_side, tick, fill);
            }
        } else {
            assert(book@ =~= b0);
        }
    }
    popped
}


/// Fill-or-kill check for a buy: scanning ask levels upward from tick `t`,
/// each level whose price does not exceed the limit takes its total off
/// what is still needed; the order can fill once nothing more is needed.
pub open spec fn fok_scan_up(
    levels: Map<usize, LevelView>,
    n: nat,
    limit: Option<Dec>,
    needed: Dec,
    t: int,
) -> bool
    decreases n - t,
{
    if t >= n || t < 0 {
        needed.units() <= 0
    } else if levels.contains_key(t as usize) {
        if limit matches Some(lp) && tick_price(t as usize).units() > lp.units() {
            needed.units() <= 0
        } else {
            let nd = decimal_difference(needed, levels[t as usize].total_qty);
            if nd.units() <= 0 {
                true
            } else {
                fok_scan_up(levels, n, limit, nd, t + 1)
            }
        }
    } else {
        fok_scan_up(levels, n, limit, needed, t + 1)
    }
}

/// The subtractions of `fok_scan_up` stay in range.
pub open spec fn fok_scan_up_ok(
    levels: Map<usize, LevelView>,
    n: nat,
    limit: Option<Dec>,
    needed: Dec,
    t: int,
) -> bool
    decreases n - t,
{
    if t >= n || t < 0 {
        true
    } else if levels.contains_key(t as usize) {
        if limit matches Some(lp) && tick_price(t as usize).units() > lp.units() {
            true
        } else {
            let nd = decimal_difference(needed, levels[t as usize].total_qty);
            &&& difference_fits(needed, levels[t as usize].total_qty)
            &&& (nd.units() > 0 ==> fok_scan_up_ok(levels, n, limit, nd, t + 1))
        }
    } else {
        fok_scan_up_ok(levels, n, limit, needed, t + 1)
    }
}

/// Fill-or-kill check for a sell: scanning bid levels downward from tick
/// `t`, each level whose price is not below the limit takes its total off
/// what is still needed; the order can fill once nothing more is needed.
pub open spec fn fok_scan_down(
    levels: Map<usize, LevelView>,
    limit: Option<Dec>,
    needed: Dec,
    t: int,
) -> bool
    decreases t + 1,
{
    if t < 0 {
        needed.units() <= 0
    } else if levels.contains_key(t as usize) {
        if limit matches Some(lp) && tick_price(t as usize).units() < lp.units() {
            needed.units() <= 0
        } else {
            let nd = decimal_difference(needed, levels[t as usize].total_qty);
            if nd.units() <= 0 {
                true
            } else {
                fok_scan_down(levels, limit, nd, t - 1)
            }
        }
    } else {
        fok_scan_down(levels, limit, needed, t - 1)
    }
}

/// The subtractions of `fok_scan_down` stay in range.
pub open spec fn fok_scan_down_ok(
    levels: Map<usize, LevelView>,
    limit: Option<Dec>,
    needed: Dec,
    t: int,
) -> bool
    decreases t + 1,
{
    if t < 0 {
        true
    } else if levels.contains_key(t as usize) {
        if limit matches Some(lp) && tick_price(t as usize).units() < lp.units() {
            true
        } else {
            let nd = decimal_difference(needed, levels[t as usize].total_qty);
            &&& difference_fits(needed, levels[t as usize].total_qty)
            &&& (nd.units() > 0 ==> fok_scan_down_ok(levels, limit, nd, t - 1))
        }
    } else {
        fok_scan_down_ok(levels, limit, needed, t - 1)
    }
}

impl BookView {
    /// The other side holds enough quantity at prices crossing the order's
    /// limit for the whole order to fill.
    pub open spec fn can_fill_fully(self, o: Order) -> bool {
        match o.side {
            Side::Buy => fok_scan_up(self.asks.levels, self.max_ticks, o.price, o.qty, 0),
            Side::Sell => fok_scan_down(self.bids.levels, o.price, o.qty, self.max_ticks - 1),
        }
    }

    /// The fill-or-kill check does not overflow.
    pub open spec fn can_fill_fully_ok(self, o: Order) -> bool {
        match o.side {
            Side::Buy => fok_scan_up_ok(self.asks.levels, self.max_ticks, o.price, o.qty, 0),
            Side::Sell => fok_scan_down_ok(self.bids.levels, o.price, o.qty, self.max_ticks - 1),
        }
    }
}

/// Whether the other side can fill the whole order at prices crossing its
/// limit.
fn can_fill_fully(book: &OrderBook, order: &Order) -> (b: bool)
    requires
        book@.wf(),
        order.wf(),
        book@.can_fill_fully_ok(*order),
    ensures
        b == book@.can_fill_fully(*order),
        book_consistent(book@) && totals_in_step(book@) && book@.max_ticks <= i64::MAX
            && order.qty.scale == 0 && 0 < order.qty.mantissa ==> b == (order.qty.mantissa
            <= crossing_lots(book@.side(order.side.opposite()).levels, *order, book@.max_ticks as int)),
{
    let mut needed = order.qty;
    let limit = order.price;
    let ghost b0 = book@;
    let ghost o = *order;
    let ghost cc = book_consistent(b0) && totals_in_step(b0) && b0.max_ticks <= i64::MAX
        && order.qty.scale == 0 && 0 < order.qty.mantissa;
    match order.side {
        Side::Buy => {
            let ghost lv = b0.asks.levels;
            let n = book.max_ticks;
            assert(b0.side(order.side.opposite()) == b0.asks);
            let mut tick: usize = 0;
            proof {
                if cc {
                    lemma_whole_compare(needed, Dec::zero_value());
                }
            }
            while tick < n
                invariant_except_break
                    fok_scan_up(lv, n as nat, limit, needed, tick as int) == b0.can_fill_fully(*order),
                    fok_scan_up_ok(lv, n as nat, limit, needed, tick as int),
                    cc ==> needed.scale == 0 && needed.mantissa == order.qty.mantissa
                        - crossing_lots(lv, o, tick as int) && needed.mantissa > 0
                        && needed.units() > 0,
                invariant
                    lv == book@.asks.levels,
                    b0 == book@,
                    o == *order,
                    n == book.max_ticks,
                    order.side == Side::Buy,
                    limit == order.price,
                    book@.wf(),
                    order.wf(),
                    needed.wf(),
                    tick <= n,
                    cc == (book_consistent(b0) && totals_in_step(b0) && b0.max_ticks <= i64::MAX
                        && order.qty.scale == 0 && 0 < order.qty.mantissa),
                ensures
                    (needed.units() <= 0) == b0.can_fill_fully(*order),
                    cc ==> (needed.units() <= 0) == (order.qty.mantissa <= crossing_lots(
                        lv,
                        o,
                        n as int,
                    )),
                decreases n - tick,
            {
                match book.ask_levels.get(&tick) {
                    Some(level) => {
                        assert(lv.contains_key(tick));
                        let price = tick_to_decimal(tick);
                        if let Some(lp) = limit {
                            if dec_lt(lp, price) {
                                proof {
                                    if cc {
                                        lemma_none_cross_up(lv, o, tick as int, n as int);
                                        lemma_whole_compare(needed, Dec::zero_value());
                                    }
                                }
                                break;
                            }
                        }
                        proof {
                            if cc {
                                lemma_level_lots(b0, Side::Sell, tick);
                                assert(total_in_step(lv[tick]));
                                assert(crosses(o, tick_price(tick)));
                            }
                        }
                        needed = dec_sub(needed, level.total_qty);
                        if !needed.is_positive() {
                            proof {
                                if cc {
                                    lemma_whole_compare(needed, Dec::zero_value());
                                    lemma_crossing_mono(b0, Side::Sell, o, tick + 1, n as int);
                                }
                            }
                            return true;
                        }
                        proof {
                            if cc {
                                lemma_whole_compare(needed, Dec::zero_value());
                            }
                        }
                    },
                    None => {},
                }
                tick += 1;
            }
        },
        Side::Sell => {
            let ghost lv = b0.bids.levels;
            let n = book.max_ticks;
            assert(b0.side(order.side.opposite()) == b0.bids);
            let mut tick: usize = n;
            proof {
                if cc {
                    lemma_whole_compare(needed, Dec::zero_value());
                }
            }
            while tick > 0
                invariant_except_break
                    fok_scan_down(lv, limit, needed, tick - 1) == b0.can_fill_fully(*order),
                    fok_scan_down_ok(lv, limit, needed, tick - 1),
                    cc ==> needed.scale == 0 && needed.mantissa == order.qty.mantissa - (
                    crossing_lots(lv, o, n as int) - crossing_lots(lv, o, tick as int))
                        && needed.mantissa > 0 && needed.units() > 0,
                invariant
                    lv == book@.bids.levels,
                    b0 == book@,
                    o == *order,
                    n == book.max_ticks,
                    order.side == Side::Sell,
                    limit == order.price,
                    book@.wf(),
                    order.wf(),
                    needed.wf(),
                    tick <= n,
                    cc == (book_consistent(b0) && totals_in_step(b0) && b0.max_ticks <= i64::MAX
                        && order.qty.scale == 0 && 0 < order.qty.mantissa),
                ensures
                    (needed.units() <= 0) == b0.can_fill_fully(*order),
                    cc ==> (needed.units() <= 0) == (order.qty.mantissa <= crossing_lots(
                        lv,
                        o,
                        n as int,
                    )),
                decreases tick,
            {
                let t = tick - 1;
                match book.bid_levels.get(&t) {
                    Some(level) => {
                        assert(lv.contains_key(t));
                        let price = tick_to_decimal(t);
                        if let Some(lp) = limit {
                            if dec_lt(price, lp) {
                                proof {
                                    if cc {
                                        lemma_none_cross_down(lv, o, t as int);
                                        lemma_whole_compare(needed, Dec::zero_value());
                                    }
                                }
                                break;
                            }
                        }
                        proof {
                            if cc {
                                lemma_level_lots(b0, Side::Buy, t);
                                assert(total_in_step(lv[t]));
                                assert(crosses(o, tick_price(t)));
                            }
                        }
                        needed = dec_sub(needed, level.total_qty);
                        if !needed.is_positive() {
                            proof {
                                if cc {
                                    lemma_whole_compare(needed, Dec::zero_value());
                                    lemma_crossing_mono(b0, Side::Buy, o, 0, t as int);
                                }
                            }
                            return true;
                        }
                        proof {
                            if cc {
                                lemma_whole_compare(needed, Dec::zero_value());
                            }
                        }
                    },
                    None => {},
                }
                tick = t;
            }
        },
    }
    !needed.is_positive()
}


/// The state of the matching loop: the book, what remains of the incoming
/// order, the trades so far, the quantity filled, the sum of price times
/// quantity over the fills, and the sequence number of the next fill.
pub struct MatchState {
    pub book: BookView,
    pub remaining: Dec,
    pub trades: Seq<Trade>,
    pub filled: Dec,
    pub weighted: Dec,
    pub fill_seq: u64,
}

/// What one round of the matching loop does: go on, stop matching (the
/// remainder is then handled), or end at once because of self-trade
/// prevention.
pub enum Step {
    Continue(MatchState),
    Stop(MatchState),
    Finish(MatchState),
}

/// The incoming order's limit crosses a price of the other side.
pub open spec fn crosses(o: Order, price: Dec) -> bool {
    match o.price {
        None => true,
        Some(lp) => match o.side {
            Side::Buy => lp.units() >= price.units(),
            Side::Sell => lp.units() <= price.units(),
        },
    }
}

/// The trade between the incoming order and a resting order.
pub open spec fn make_trade(o: Order, resting: Order, price: Dec, fill: Dec, fill_seq: u64) -> Trade {
    let buy_id = if o.side == Side::Buy {
        o.id
    } else {
        resting.id
    };
    let sell_id = if o.side == Side::Sell {
        o.id
    } else {
        resting.id
    };
    Trade {
        id: trade_id(o.instrument_id, buy_id, sell_id, price, fill, fill_seq),
        instrument_id: o.instrument_id,
        buy_order_id: buy_id,
        sell_order_id: sell_id,
        buy_participant_id: if o.side == Side::Buy {
            o.participant_id
        } else {
            resting.participant_id
        },
        sell_participant_id: if o.side == Side::Sell {
            o.participant_id
        } else {
            resting.participant_id
        },
        price,
        qty: fill,
        ts: o.ts,
    }
}

/// One round of the matching loop for incoming order `o`.
///
/// Matching stops when nothing remains, when the best tick of the other side
/// holds neither quantity nor orders, or when its price does not cross the
/// limit.  When the oldest order there belongs to the same participant,
/// self-trade prevention applies: `CancelNewest` ends matching, `CancelOldest`
/// removes the resting order, `Decrement` removes the resting order and
/// takes its quantity off the incoming one (ending matching when that uses
/// it up), and `Disabled` lets the trade happen.  A trade fills the smaller
/// of the two remaining quantities at the resting price.
pub open spec fn match_step(o: Order, st: MatchState) -> Step {
    if st.remaining.units() == 0 {
        Step::Stop(st)
    } else {
        let side = o.side.opposite();
        let sv = st.book.side(side);
        let bt = sv.best as usize;
        let has_orders = sv.levels.contains_key(bt) && sv.levels[bt].orders.len() > 0;
        if sv.qty[bt as int] == 0 && !has_orders {
            Step::Stop(st)
        } else {
            let best_price = tick_price(bt);
            if !crosses(o, best_price) {
                Step::Stop(st)
            } else {
                let stp = has_orders && sv.levels[bt].orders[0].participant_id@
                    == o.participant_id@;
                if stp && o.stp_mode == STPMode::CancelNewest {
                    Step::Finish(st)
                } else if stp && o.stp_mode == STPMode::CancelOldest {
                    Step::Continue(MatchState { book: st.book.remove_front(side, bt).0, ..st })
                } else if stp && o.stp_mode == STPMode::Decrement {
                    let resting = sv.levels[bt].orders[0].remaining;
                    if st.remaining.units() <= resting.units() {
                        Step::Finish(MatchState { book: st.book.remove_front(side, bt).0, ..st })
                    } else {
                        Step::Continue(
                            MatchState {
                                book: st.book.remove_front(side, bt).0,
                                remaining: decimal_difference(st.remaining, resting),
                                ..st
                            },
                        )
                    }
                } else if !has_orders {
                    Step::Stop(st)
                } else {
                    let resting = sv.levels[bt].orders[0];
                    let fill = if st.remaining.units() > resting.remaining.units() {
                        resting.remaining
                    } else {
                        st.remaining
                    };
                    Step::Continue(
                        MatchState {
                            book: st.book.fill_front(side, bt, fill).0,
                            remaining: decimal_difference(st.remaining, fill),
                            trades: st.trades.push(make_trade(o, resting, best_price, fill, st.fill_seq)),
                            filled: decimal_sum(st.filled, fill),
                            weighted: decimal_sum(st.weighted, decimal_product(best_price, fill)),
                            fill_seq: (st.fill_seq + 1) as u64,
                        },
                    )
                }
            }
        }
    }
}

/// One round of the matching loop neither panics nor overflows.
pub open spec fn step_ok(o: Order, st: MatchState) -> bool {
    st.remaining.units() != 0 ==> {
        let side = o.side.opposite();
        let sv = st.book.side(side);
        let bt = sv.best as usize;
        let has_orders = sv.levels.contains_key(bt) && sv.levels[bt].orders.len() > 0;
        let best_price = tick_price(bt);
        let stp = has_orders && sv.levels[bt].orders[0].participant_id@ == o.participant_id@;
        &&& st.book.max_ticks > 0
        &&& (sv.qty[bt as int] != 0 || has_orders) && crosses(o, best_price) ==> {
            if stp && o.stp_mode == STPMode::CancelNewest {
                true
            } else if stp && o.stp_mode == STPMode::CancelOldest {
                st.book.remove_front_ok(side, bt)
            } else if stp && o.stp_mode == STPMode::Decrement {
                let resting = sv.levels[bt].orders[0].remaining;
                &&& st.book.remove_front_ok(side, bt)
                &&& st.remaining.units() > resting.units() ==> difference_fits(
                    st.remaining,
                    resting,
                )
            } else if !has_orders {
                true
            } else {
                let resting = sv.levels[bt].orders[0];
                let fill = if st.remaining.units() > resting.remaining.units() {
                    resting.remaining
                } else {
                    st.remaining
                };
                &&& st.fill_seq < u64::MAX
                &&& sum_fits(st.filled, fill)
                &&& product_fits(best_price, fill)
                &&& sum_fits(st.weighted, decimal_product(best_price, fill))
                &&& difference_fits(st.remaining, fill)
                &&& st.book.fill_front_ok(side, bt, fill)
            }
        }
    }
}

/// The matching loop run for at most `fuel` rounds: its final state, and
/// whether it ended at once through self-trade prevention.
pub open spec fn match_run(o: Order, st: MatchState, fuel: nat) -> (MatchState, bool)
    decreases fuel,
{
    if fuel == 0 {
        (st, false)
    } else {
        match match_step(o, st) {
            Step::Stop(s) => (s, false),
            Step::Finish(s) => (s, true),
            Step::Continue(s) => match_run(o, s, (fuel - 1) as nat),
        }
    }
}

/// No round of the matching loop panics or overflows.
pub open spec fn run_ok(o: Order, st: MatchState, fuel: nat) -> bool
    decreases fuel,
{
    fuel > 0 ==> {
        &&& step_ok(o, st)
        &&& (match_step(o, st) matches Step::Continue(s) ==> run_ok(o, s, (fuel - 1) as nat))
    }
}

/// The number of orders resting on one side of a book.
pub open spec fn side_orders(b: BookView, side: Side) -> nat {
    count_orders(b.side(side).levels, b.max_ticks as int)
}

/// A bound on the rounds the matching loop has left.
pub open spec fn match_measure(o: Order, st: MatchState) -> nat {
    2 * side_orders(st.book, o.side.opposite()) + if st.remaining.units() != 0 {
        1nat
    } else {
        0nat
    }
}

/// The state in which matching starts.
pub open spec fn initial_state(b: BookView, o: Order) -> MatchState {
    MatchState {
        book: b,
        remaining: o.remaining,
        trades: Seq::empty(),
        filled: Dec::zero_value(),
        weighted: Dec::zero_value(),
        fill_seq: 0,
    }
}

/// Enough rounds for the matching loop to end.
pub open spec fn match_fuel(b: BookView, o: Order) -> nat {
    match_measure(o, initial_state(b, o)) + 1
}

/// The order is refused before matching: its quantity is not positive, or
/// its price is not positive, not a whole number of hundredths, or not below
/// the book's last tick.
pub open spec fn match_rejects(b: BookView, o: Order) -> bool {
    ||| o.qty.units() <= 0
    ||| o.price matches Some(p) && {
        ||| p.units() <= 0
        ||| !scaled_price(p).is_integral()
        ||| match scaled_price(p).to_u64_spec() {
            None => true,
            Some(t) => t as usize >= b.max_ticks,
        }
    }
}

/// What matching returns, and the book it leaves.
pub struct MatchOutcome {
    pub book: BookView,
    pub status: OrderStatus,
    pub filled: Dec,
    pub avg: Option<Dec>,
    pub trades: Seq<Trade>,
}

/// The average fill price: the price-weighted sum over the filled quantity,
/// when something was filled.
pub open spec fn average_price(st: MatchState) -> Option<Dec> {
    if st.filled.units() > 0 {
        Some(decimal_quotient(st.weighted, st.filled))
    } else {
        None
    }
}

/// The incoming order as it rests on the book after matching.
pub open spec fn rested_order(o: Order, st: MatchState) -> Order {
    Order {
        remaining: st.remaining,
        status: if st.filled.units() > 0 {
            OrderStatus::PartiallyFilled
        } else {
            OrderStatus::Open
        },
        ..o
    }
}

/// The outcome once the matching loop has ended in `st`: after an ending
/// through self-trade prevention the order is partially filled or
/// cancelled; otherwise the remainder of a limit order rests on the book
/// and the remainder of any other order is cancelled.
pub open spec fn finish(o: Order, st: MatchState, early: bool) -> MatchOutcome {
    if early {
        MatchOutcome {
            book: st.book,
            status: if st.filled.units() > 0 {
                OrderStatus::PartiallyFilled
            } else {
                OrderStatus::Cancelled
            },
            filled: st.filled,
            avg: average_price(st),
            trades: st.trades,
        }
    } else {
        MatchOutcome {
            book: if st.remaining.units() > 0 && o.order_type == OrderType::Limit {
                st.book.insert(rested_order(o, st))
            } else {
                st.book
            },
            status: if st.filled.units() == 0 {
                if st.remaining.units() == 0 {
                    OrderStatus::Cancelled
                } else if o.order_type == OrderType::Limit {
                    OrderStatus::Open
                } else {
                    OrderStatus::Cancelled
                }
            } else if st.remaining.units() == 0 {
                OrderStatus::Filled
            } else {
                OrderStatus::PartiallyFilled
            },
            filled: st.filled,
            avg: average_price(st),
            trades: st.trades,
        }
    }
}

/// Finishing neither panics nor overflows.
pub open spec fn finish_ok(o: Order, st: MatchState, early: bool) -> bool {
    &&& st.filled.units() > 0 ==> quotient_fits(st.weighted, st.filled)
    &&& !early && st.remaining.units() > 0 && o.order_type == OrderType::Limit ==> st.book.insert_ok(
        rested_order(o, st),
    )
}

/// An outcome with nothing filled and the book unchanged.
pub open spec fn unfilled(b: BookView, status: OrderStatus) -> MatchOutcome {
    MatchOutcome { book: b, status, filled: Dec::zero_value(), avg: None, trades: Seq::empty() }
}

/// What matching `o` against `b` gives: a rejection for an invalid order; a
/// cancellation with the book unchanged for a fill-or-kill order that cannot
/// fill completely; otherwise the outcome of the matching loop.
pub open spec fn match_outcome(b: BookView, o: Order) -> MatchOutcome {
    if match_rejects(b, o) {
        unfilled(b, OrderStatus::Rejected)
    } else if o.order_type == OrderType::FOK && !b.can_fill_fully(o) {
        unfilled(b, OrderStatus::Cancelled)
    } else {
        let (st, early) = match_run(o, initial_state(b, o), match_fuel(b, o));
        finish(o, st, early)
    }
}

/// Matching `o` against `b` neither panics nor overflows.
pub open spec fn match_ok(b: BookView, o: Order) -> bool {
    if o.qty.units() <= 0 {
        true
    } else if o.price matches Some(p) && p.units() > 0 && !product_fits(p, hundred()) {
        false
    } else if match_rejects(b, o) {
        true
    } else if o.order_type == OrderType::FOK && !b.can_fill_fully_ok(o) {
        false
    } else if o.order_type == OrderType::FOK && !b.can_fill_fully(o) {
        true
    } else {
        let (st, early) = match_run(o, initial_state(b, o), match_fuel(b, o));
        &&& run_ok(o, initial_state(b, o), match_fuel(b, o))
        &&& finish_ok(o, st, early)
    }
}


/// Taking the first order out of a level lowers the count of that side by
/// one.
pub proof fn lemma_remove_front_count(b: BookView, side: Side, tick: usize)
    requires
        b.wf(),
        b.side(side).levels.contains_key(tick),
    ensures
        side_orders(b.remove_front(side, tick).0, side) + 1 == side_orders(b, side),
{
    let sv = b.side(side);
    let b2 = b.remove_front(side, tick).0;
    let m1 = sv.levels;
    let m2 = b2.side(side).levels;
    assert(tick < b.max_ticks);
    assert forall|t: int| 0 <= t < b.max_ticks && t != tick implies len_at(m1, t) == len_at(m2, t) by {
        if m1.contains_key(t as usize) {
            assert(m2.contains_key(t as usize));
        }
        if m2.contains_key(t as usize) {
            assert(m1.contains_key(t as usize));
        }
    }
    lemma_count_orders_change(m1, m2, tick as int, b.max_ticks as int);
}

/// Taking quantity off the first order of a level lowers the count of that
/// side by one when the order leaves, and keeps it otherwise.
pub proof fn lemma_fill_front_count(b: BookView, side: Side, tick: usize, fill: Dec)
    requires
        b.wf(),
        b.side(side).levels.contains_key(tick),
    ensures
        ({
            let (b2, popped) = b.fill_front(side, tick, fill);
            &&& popped is Some ==> side_orders(b2, side) + 1 == side_orders(b, side)
            &&& popped is None ==> side_orders(b2, side) == side_orders(b, side)
        }),
{
    let sv = b.side(side);
    let b2 = b.fill_front(side, tick, fill).0;
    let m1 = sv.levels;
    let m2 = b2.side(side).levels;
    assert(tick < b.max_ticks);
    assert forall|t: int| 0 <= t < b.max_ticks && t != tick implies len_at(m1, t) == len_at(m2, t) by {
        if m1.contains_key(t as usize) {
            assert(m2.contains_key(t as usize));
        }
        if m2.contains_key(t as usize) {
            assert(m1.contains_key(t as usize));
        }
    }
    lemma_count_orders_change(m1, m2, tick as int, b.max_ticks as int);
}


/// The oldest order of the level at `tick`, if there is one.
pub open spec fn front_at(sv: SideView, tick: usize) -> Option<Order> {
    if sv.levels.contains_key(tick) && sv.levels[tick].orders.len() > 0 {
        Some(sv.levels[tick].orders[0])
    } else {
        None
    }
}

/// The remaining quantity of the oldest order at `tick` on `contra_side`.
fn contra_front_remaining(book: &OrderBook, contra_side: Side, tick: usize) -> (r: Option<Dec>)
    ensures
        r == (match front_at(book@.side(contra_side), tick) {
            Some(o) => Some(o.remaining),
            None => None,
        }),
{
    let level = match contra_side {
        Side::Buy => book.bid_levels.get(&tick),
        Side::Sell => book.ask_levels.get(&tick),
    };
    match level {
        Some(l) => match l.front() {
            Some(o) => Some(o.remaining),
            None => None,
        },
        None => None,
    }
}

/// The remaining quantity, id and participant of the oldest order at `tick`
/// on `contra_side`.
fn contra_front_info(book: &OrderBook, contra_side: Side, tick: usize) -> (r: Option<
    (Dec, u128, String),
>)
    ensures
        r == (match front_at(book@.side(contra_side), tick) {
            Some(o) => Some((o.remaining, o.id, o.participant_id)),
            None => None,
        }),
{
    let level = match contra_side {
        Side::Buy => book.bid_levels.get(&tick),
        Side::Sell => book.ask_levels.get(&tick),
    };
    match level {
        Some(l) => match l.front() {
            Some(o) => Some((o.remaining, o.id, o.participant_id.clone())),
            None => None,
        },
        None => None,
    }
}

/// What the matching loop carries from round to round besides the book.
struct Fills {
    remaining: Dec,
    trades: Vec<Trade>,
    filled: Dec,
    weighted: Dec,
    fill_seq: u64,
}

impl Fills {
    spec fn wf(&self) -> bool {
        &&& self.remaining.wf()
        &&& self.filled.wf()
        &&& self.weighted.wf()
    }
}

/// The state of the matching loop made of a book and what it carries.
spec fn fills_state(b: BookView, f: Fills) -> MatchState {
    MatchState {
        book: b,
        remaining: f.remaining,
        trades: f.trades@,
        filled: f.filled,
        weighted: f.weighted,
        fill_seq: f.fill_seq,
    }
}

/// How a round of the matching loop ended.
enum Round {
    Continue,
    Stop,
    Finish,
}

spec fn step_round(s: Step) -> Round {
    match s {
        Step::Continue(_) => Round::Continue,
        Step::Stop(_) => Round::Stop,
        Step::Finish(_) => Round::Finish,
    }
}

spec fn step_state(s: Step) -> MatchState {
    match s {
        Step::Continue(st) => st,
        Step::Stop(st) => st,
        Step::Finish(st) => st,
    }
}

/// A matching state of whole lots: the book is in step with its levels and
/// what remains of the incoming order is a whole number of lots (possibly
/// none) written without decimal places.
pub open spec fn whole_state(st: MatchState) -> bool {
    &&& book_in_step(st.book)
    &&& st.remaining.scale == 0
    &&& 0 <= st.remaining.mantissa <= u64::MAX
}

/// Numbers written without decimal places compare as their mantissas.
pub proof fn lemma_whole_compare(a: Dec, b: Dec)
    requires
        a.scale == 0,
        b.scale == 0,
    ensures
        (a.units() < b.units()) == (a.mantissa < b.mantissa),
        (a.units() == b.units()) == (a.mantissa == b.mantissa),
        (a.units() == 0) == (a.mantissa == 0),
{
    let p = pow10(28);
    lemma_pow10_pos(28);
    assert(a.units() == a.mantissa * p);
    assert(b.units() == b.mantissa * p);
    assert((a.mantissa * p < b.mantissa * p) == (a.mantissa < b.mantissa)) by (nonlinear_arith)
        requires
            p > 0,
    ;
    assert((a.mantissa * p == b.mantissa * p) == (a.mantissa == b.mantissa)) by (nonlinear_arith)
        requires
            p > 0,
    ;
    assert((a.mantissa * p == 0) == (a.mantissa == 0)) by (nonlinear_arith)
        requires
            p > 0,
    ;
}

/// Taking the first order of a level out of a book in step keeps it in
/// step.
pub proof fn lemma_remove_front_in_step(b: BookView, side: Side, tick: usize)
    requires
        b.wf(),
        book_in_step(b),
        b.side(side).levels.contains_key(tick),
    ensures
        book_in_step(b.remove_front(side, tick).0),
{
    assert(b.remove_front(side, tick).0 == book_after_removal(b, side, tick, 0));
    lemma_removal_consistent(b, side, tick, 0);
}

/// `rust_decimal` multiplied the price by 100 exactly.
pub open spec fn exact_cents(p: Dec) -> bool {
    scaled_price(p).units() == p.units() * 100
}

/// The price's number of hundredths fits in a `usize` (always so where
/// `usize` has 64 bits, since a tick is a `u64` first).
pub open spec fn tick_exact(p: Dec) -> bool {
    p.units() <= usize::MAX * pow10(26)
}

/// The price of tick `t` is `t` hundredths.
pub proof fn lemma_tick_price_units(t: usize)
    requires
        t <= i64::MAX,
    ensures
        tick_price(t).units() == t * pow10(26),
{
    assert((t as i64) as i128 == t);
}

/// A price accepted for a book, multiplied exactly by 100, is `t`
/// hundredths where `t` is its tick.
pub proof fn lemma_price_is_tick(b: BookView, p: Dec)
    requires
        exact_cents(p),
        tick_exact(p),
        p.units() > 0,
        scaled_price(p).is_integral(),
        scaled_price(p).to_u64_spec() matches Some(t) && (t as usize) < b.max_ticks,
        b.max_ticks <= usize::MAX,
    ensures
        p.units() == price_tick(p) * pow10(26),
{
    let sc = scaled_price(p);
    let t = sc.to_u64_spec()->0;
    let q = pow10(26);
    lemma_pow10_pos(26);
    assert(pow10(28) == 100 * q) by {
        assert(pow10(27) == 10 * pow10(26));
    }
    assert(sc.units() == sc.trunc_nonneg() * pow10(28)) by (nonlinear_arith)
        requires
            sc.units() % pow10(28) == 0,
            sc.trunc_nonneg() == sc.units() / pow10(28),
            pow10(28) > 0,
    ;
    assert(sc.trunc_nonneg() == t);
    assert(p.units() * 100 == sc.units());
    assert(t * pow10(28) == t * 100 * q) by (nonlinear_arith)
        requires
            pow10(28) == 100 * q,
    ;
    assert(p.units() * 100 == t * 100 * q);
    assert(p.units() == t * q) by (nonlinear_arith)
        requires
            p.units() * 100 == t * 100 * q,
    ;
    assert(t <= usize::MAX) by (nonlinear_arith)
        requires
            t * q <= usize::MAX * q,
            q > 0,
    ;
    assert(price_tick(p) == t);
}

/// What the book looks like once matching has ended: when the incoming
/// order's remainder rests, the other side's best tick is beyond its
/// price (or that side is empty).
proof fn lemma_stop_beyond(o: Order, st: MatchState)
    requires
        book_consistent(st.book),
        match_step(o, st) == Step::Stop(st),
        st.remaining.units() > 0,
        st.book.max_ticks <= i64::MAX,
        o.price matches Some(p) && p.units() == price_tick(p) * pow10(26),
    ensures
        st.book.side(o.side.opposite()).levels.dom() =~= Set::empty() || ({
            let bt = st.book.side(o.side.opposite()).best;
            let t = price_tick(o.price->0);
            match o.side {
                Side::Buy => t < bt,
                Side::Sell => t > bt,
            }
        }),
{
    let c = st.book;
    let side = o.side.opposite();
    let sv = c.side(side);
    let bt = sv.best as usize;
    let p = o.price->0;
    let t = price_tick(p);
    crate::priority::best_prices_are_best_levels(c);
    crate::priority::lemma_top_facts(sv, side, c.max_ticks);
    crate::priority::lemma_qty_iff_level(sv, side, c.max_ticks, bt as int);
    assert(bt as int == sv.best as int);
    lemma_tick_price_units(bt);
    lemma_pow10_pos(26);
    if sv.qty[bt as int] > 0 {
        assert(!crosses(o, tick_price(bt)));
        match o.side {
            Side::Buy => {
                assert(t * pow10(26) < bt * pow10(26));
                assert(t < bt) by (nonlinear_arith)
                    requires
                        t * pow10(26) < bt * pow10(26),
                        pow10(26) > 0,
                ;
            },
            Side::Sell => {
                assert(t * pow10(26) > bt * pow10(26));
                assert(t > bt) by (nonlinear_arith)
                    requires
                        t * pow10(26) > bt * pow10(26),
                        pow10(26) > 0,
                ;
            },
        }
    } else {
        match side {
            Side::Buy => assert(c.bids.levels.dom() =~= Set::empty()),
            Side::Sell => assert(c.asks.levels.dom() =~= Set::empty()),
        }
    }
}

/// Matching leaves an uncrossed book uncrossed: the incoming order's side
/// is only added to, the other side only loses levels, and the remainder
/// rests only at a price the other side's best does not reach.
proof fn lemma_finish_uncrossed(b: BookView, o: Order, st: MatchState, early: bool)
    requires
        book_consistent(b),
        uncrossed(b),
        book_consistent(st.book),
        book_consistent(finish(o, st, early).book),
        b.max_ticks <= i64::MAX,
        st.book.max_ticks == b.max_ticks,
        st.book.side(o.side) == b.side(o.side),
        forall|t: usize| #[trigger]
            st.book.side(o.side.opposite()).levels.contains_key(t) ==> b.side(
                o.side.opposite(),
            ).levels.contains_key(t),
        !early ==> match_step(o, st) == Step::Stop(st),
        o.price matches Some(p) ==> p.units() == price_tick(p) * pow10(26),
    ensures
        uncrossed(finish(o, st, early).book),
{
    let c = st.book;
    let f = finish(o, st, early).book;
    let own = o.side;
    let other = own.opposite();
    crate::priority::best_prices_are_best_levels(b);
    crate::priority::best_prices_are_best_levels(c);
    crate::priority::best_prices_are_best_levels(f);
    let rests = !early && st.remaining.units() > 0 && o.order_type == OrderType::Limit;
    if rests && o.price is Some {
        lemma_stop_beyond(o, st);
    }
    // The other side of the final book is that of `c`.
    assert(f.side(other) == c.side(other));
    if f.side(other).levels.dom() =~= Set::empty() {
        match other {
            Side::Buy => assert(f.best_price(Side::Buy) is None),
            Side::Sell => assert(f.best_price(Side::Sell) is None),
        }
    } else if f.side(own).levels.dom() =~= Set::empty() {
        match own {
            Side::Buy => assert(f.best_price(Side::Buy) is None),
            Side::Sell => assert(f.best_price(Side::Sell) is None),
        }
    } else {
        let ob = c.side(other).best as usize;
        let fb = f.side(own).best as usize;
        assert(c.side(other).levels.contains_key(ob)) by {
            match other {
                Side::Buy => {},
                Side::Sell => {},
            }
        }
        assert(b.side(other).levels.contains_key(ob));
        assert(f.side(own).levels.contains_key(fb)) by {
            match own {
                Side::Buy => {},
                Side::Sell => {},
            }
        }
        // The own side's best of `f` is a level of `b`'s own side or the
        // resting remainder's tick.
        if b.side(own).levels.contains_key(fb) {
            assert(b.side(own).levels.dom().contains(fb));
            match own {
                Side::Buy => {
                    assert(b.bids.best < b.asks.best);
                    assert(fb <= b.bids.best);
                    assert(ob >= b.asks.best);
                },
                Side::Sell => {
                    assert(b.bids.best < b.asks.best);
                    assert(fb >= b.asks.best);
                    assert(ob <= b.bids.best);
                },
            }
        } else {
            assert(rests && o.price is Some);
            assert(fb == price_tick(o.price->0));
        }
    }
}

/// The lots traded: the sum of the trades' quantity mantissas.
pub open spec fn trade_lots(ts: Seq<Trade>) -> int
    decreases ts.len(),
{
    if ts.len() == 0 {
        0
    } else {
        trade_lots(ts.drop_last()) + ts.last().qty.mantissa
    }
}

/// Every trade is of a positive whole number of lots.
pub open spec fn whole_trades(ts: Seq<Trade>) -> bool {
    forall|i: int| 0 <= i < ts.len() ==> (#[trigger] ts[i]).qty.scale == 0 && ts[i].qty.mantissa > 0
}

/// What was filled is a whole number of lots, the trades are whole, and
/// they add up to it.
pub open spec fn fills_accounted(st: MatchState) -> bool {
    &&& st.filled.scale == 0
    &&& st.filled.mantissa >= 0
    &&& whole_trades(st.trades)
    &&& trade_lots(st.trades) == st.filled.mantissa
}

/// Appending a trade adds its lots.
proof fn lemma_trade_lots_push(ts: Seq<Trade>, t: Trade)
    ensures
        trade_lots(ts.push(t)) == trade_lots(ts) + t.qty.mantissa,
{
    assert(ts.push(t).drop_last() =~= ts);
}

/// The order rests on the book with `left` lots remaining: an order of
/// its id is in the level its index entry names, holding `left` lots.
pub open spec fn rests_with(b: BookView, o: Order, left: int) -> bool {
    let (s, t) = b.index[o.id];
    &&& b.side(s).levels.contains_key(t)
    &&& exists|i: int|
        0 <= i < b.side(s).levels[t].orders.len() && (#[trigger] b.side(s).levels[t].orders[i]).id
            == o.id && b.side(s).levels[t].orders[i].remaining.mantissa == left
}

/// One round of the matching loop.
#[verifier::rlimit(50)]
fn match_round(book: &mut OrderBook, order: &Order, f: &mut Fills) -> (k: Round)
    requires
        old(book)@.wf(),
        order.wf(),
        old(f).wf(),
        step_ok(*order, fills_state(old(book)@, *old(f))),
    ensures
        final(book)@.wf(),
        final(f).wf(),
        final(book)@.max_ticks == old(book)@.max_ticks,
        k == step_round(match_step(*order, fills_state(old(book)@, *old(f)))),
        fills_state(final(book)@, *final(f)) == step_state(
            match_step(*order, fills_state(old(book)@, *old(f))),
        ),
        k == Round::Continue ==> match_measure(*order, fills_state(final(book)@, *final(f)))
            < match_measure(*order, fills_state(old(book)@, *old(f))),
        whole_state(fills_state(old(book)@, *old(f))) ==> whole_state(
            fills_state(final(book)@, *final(f)),
        ) && final(f).remaining.mantissa <= old(f).remaining.mantissa,
        final(book)@.side(order.side) == old(book)@.side(order.side),
        forall|i: u128| #[trigger]
            final(book)@.index.contains_key(i) ==> old(book)@.index.contains_key(i),
        forall|t: usize| #[trigger]
            final(book)@.side(order.side.opposite()).levels.contains_key(t) ==> old(
                book,
            )@.side(order.side.opposite()).levels.contains_key(t),
        whole_state(fills_state(old(book)@, *old(f))) && fills_accounted(fills_state(old(book)@, *old(f)))
            ==> fills_accounted(fills_state(final(book)@, *final(f))),
        whole_state(fills_state(old(book)@, *old(f))) && old(f).filled.scale == 0
            ==> final(f).filled.mantissa + final(f).remaining.mantissa <= old(f).filled.mantissa
            + old(f).remaining.mantissa,
        whole_state(fills_state(old(book)@, *old(f))) && old(f).filled.scale == 0
            && order.stp_mode != STPMode::Decrement ==> final(f).filled.mantissa + final(f).remaining.mantissa == old(f).filled.mantissa
            + old(f).remaining.mantissa,
        whole_state(fills_state(old(book)@, *old(f))) && k == Round::Finish && order.stp_mode
            != STPMode::Decrement ==> final(f).remaining.mantissa > 0,
        whole_state(fills_state(old(book)@, *old(f))) && totals_in_step(old(book)@)
            ==> totals_in_step(final(book)@),
        whole_state(fills_state(old(book)@, *old(f))) && order.stp_mode == STPMode::Disabled
            && k == Round::Continue ==> trade_exact(*order, fills_state(old(book)@, *old(f))),
{
    let ghost st = fills_state(book@, *f);
    let ghost b0 = book@;
    if f.remaining.is_zero() {
        return Round::Stop;
    }
    let contra_side = match order.side {
        Side::Buy => Side::Sell,
        Side::Sell => Side::Buy,
    };
    let ghost sv = b0.side(contra_side);
    let best_tick = match order.side {
        Side::Buy => book.asks.get_best_tick(),
        Side::Sell => book.bids.get_best_tick(),
    };
    let best_qty = match order.side {
        Side::Buy => book.asks.get_qty(best_tick),
        Side::Sell => book.bids.get_qty(best_tick),
    };
    let level = match order.side {
        Side::Buy => book.ask_levels.get(&best_tick),
        Side::Sell => book.bid_levels.get(&best_tick),
    };
    let has_orders = match level {
        Some(l) => !l.is_empty(),
        None => false,
    };
    if best_qty == 0 && !has_orders {
        return Round::Stop;
    }
    let best_price = tick_to_decimal(best_tick);
    if let Some(limit_price) = order.price {
        let crosses = match order.side {
            Side::Buy => !dec_lt(limit_price, best_price),
            Side::Sell => !dec_lt(best_price, limit_price),
        };
        if !crosses {
            return Round::Stop;
        }
    }
    let stp_triggered = match level {
        Some(l) => match l.front() {
            Some(resting) => resting.participant_id == order.participant_id,
            None => false,
        },
        None => false,
    };
    if stp_triggered {
        match order.stp_mode {
            STPMode::CancelNewest => {
                proof {
                    if whole_state(st) {
                        lemma_whole_compare(f.remaining, Dec::zero_value());
                    }
                }
                return Round::Finish;
            },
            STPMode::CancelOldest => {
                proof {
                    lemma_remove_front_count(b0, contra_side, best_tick);
                }
                remove_contra_front(book, contra_side, best_tick);
                proof {
                    if whole_state(st) {
                        lemma_remove_front_in_step(b0, contra_side, best_tick);
                    }
                }
                return Round::Continue;
            },
            STPMode::Decrement => {
                let resting_qty = match contra_front_remaining(book, contra_side, best_tick) {
                    Some(q) => q,
                    None => {
                        return Round::Stop;
                    },
                };
                proof {
                    lemma_remove_front_count(b0, contra_side, best_tick);
                }
                if !dec_lt(resting_qty, f.remaining) {
                    remove_contra_front(book, contra_side, best_tick);
                    proof {
                        if whole_state(st) {
                            lemma_remove_front_in_step(b0, contra_side, best_tick);
                        }
                    }
                    return Round::Finish;
                }
                proof {
                    if whole_state(st) {
                        assert(whole_qty(sv.levels[best_tick].orders[0].remaining));
                        lemma_whole_compare(resting_qty, f.remaining);
                    }
                }
                f.remaining = dec_sub(f.remaining, resting_qty);
                remove_contra_front(book, contra_side, best_tick);
                proof {
                    if whole_state(st) {
                        lemma_remove_front_in_step(b0, contra_side, best_tick);
                    }
                }
                return Round::Continue;
            },
            STPMode::Disabled => {},
        }
    }
    let (resting_qty, resting_id, resting_participant) = match contra_front_info(
        book,
        contra_side,
        best_tick,
    ) {
        Some(x) => x,
        None => {
            return Round::Stop;
        },
    };
    let ghost resting = sv.levels[best_tick].orders[0];
    let fill_qty = dec_min(f.remaining, resting_qty);
    let buy_id = match order.side {
        Side::Buy => order.id,
        Side::Sell => resting_id,
    };
    let sell_id = match order.side {
        Side::Sell => order.id,
        Side::Buy => resting_id,
    };
    let buy_participant = match order.side {
        Side::Buy => order.participant_id.clone(),
        Side::Sell => resting_participant.clone(),
    };
    let sell_participant = match order.side {
        Side::Sell => order.participant_id.clone(),
        Side::Buy => resting_participant,
    };
    let trade_id = Trade::compute_id(
        order.instrument_id,
        buy_id,
        sell_id,
        best_price,
        fill_qty,
        f.fill_seq,
    );
    let trade = Trade {
        id: trade_id,
        instrument_id: order.instrument_id,
        buy_order_id: buy_id,
        sell_order_id: sell_id,
        buy_participant_id: buy_participant,
        sell_participant_id: sell_participant,
        price: best_price,
        qty: fill_qty,
        ts: order.ts,
    };
    assert(trade == make_trade(*order, resting, best_price, fill_qty, f.fill_seq));
    f.fill_seq = f.fill_seq + 1;
    let ghost trades0 = f.trades@;
    f.trades.push(trade);
    proof {
        lemma_trade_lots_push(trades0, trade);
    }
    f.filled = dec_add(f.filled, fill_qty);
    let notional = dec_mul(best_price, fill_qty);
    f.weighted = dec_add(f.weighted, notional);
    proof {
        lemma_zero_representable(max_scale(st.remaining, fill_qty));
        lemma_fill_front_count(b0, contra_side, best_tick, fill_qty);
    }
    proof {
        if whole_state(st) {
            assert(whole_qty(sv.levels[best_tick].orders[0].remaining));
            lemma_whole_compare(st.remaining, resting_qty);
            lemma_whole_compare(fill_qty, st.remaining);
        }
    }
    f.remaining = dec_sub(f.remaining, fill_qty);
    fill_contra_front(book, contra_side, best_tick, fill_qty);
    proof {
        if whole_state(st) {
            fill_keeps_consistency(b0, contra_side, best_tick, fill_qty);
        }
    }
    Round::Continue
}

/// Matches an incoming order against the book in price-time priority.
///
/// An order with a quantity that is not positive, or with a price that is
/// not positive, not a whole number of cents or beyond the book's ticks, is
/// rejected.  A fill-or-kill order that the book cannot fill completely is
/// cancelled with the book unchanged.  Otherwise the order trades against
/// the best resting orders of the other side at their prices for as long as
/// its limit crosses, applying its self-trade prevention mode; what remains
/// of a limit order then rests on the book, and what remains of any other
/// order is cancelled.
pub fn match_order(book: &mut OrderBook, order: Order) -> (r: PlaceOrderResult)
    requires
        old(book)@.wf(),
        order.wf(),
        match_ok(old(book)@, order),
    ensures
        final(book)@.wf(),
        final(book)@.max_ticks == old(book)@.max_ticks,
        final(book)@ == match_outcome(old(book)@, order).book,
        r.order_id == order.id,
        r.status == match_outcome(old(book)@, order).status,
        r.filled_qty == match_outcome(old(book)@, order).filled,
        r.avg_fill_price == match_outcome(old(book)@, order).avg,
        r.trades@ == match_outcome(old(book)@, order).trades,
        keeps_in_step(old(book)@, order) ==> book_consistent(final(book)@),
        keeps_in_step(old(book)@, order) ==> {
            &&& r.filled_qty.scale == 0
            &&& 0 <= r.filled_qty.mantissa <= order.remaining.mantissa
            &&& whole_trades(r.trades@)
            &&& trade_lots(r.trades@) == r.filled_qty.mantissa
        },
        keeps_in_step(old(book)@, order) && order.stp_mode != STPMode::Decrement ==> {
            &&& (r.status == OrderStatus::Filled) == (r.filled_qty.mantissa
                == order.remaining.mantissa)
            &&& final(book)@.index.contains_key(order.id) ==> rests_with(
                final(book)@,
                order,
                order.remaining.mantissa - r.filled_qty.mantissa,
            )
        },
        keeps_in_step(old(book)@, order) && uncrossed(old(book)@) && old(book)@.max_ticks
            <= i64::MAX && (order.price matches Some(p) ==> tick_exact(p)) ==> uncrossed(
            final(book)@,
        ),
        keeps_in_step(old(book)@, order) && totals_in_step(old(book)@) ==> totals_in_step(
            final(book)@,
        ),
        all_or_nothing_applies(old(book)@, order) && !match_rejects(old(book)@, order)
            && order.qty.mantissa <= crossing_lots(
            old(book)@.side(order.side.opposite()).levels,
            order,
            old(book)@.max_ticks as int,
        ) ==> r.status == OrderStatus::Filled && r.filled_qty.mantissa == order.qty.mantissa,
        all_or_nothing_applies(old(book)@, order) && order.qty.mantissa > crossing_lots(
            old(book)@.side(order.side.opposite()).levels,
            order,
            old(book)@.max_ticks as int,
        ) ==> r.trades@.len() == 0 && r.filled_qty == Dec::zero_value() && final(book)@ == old(
            book,
        )@ && (r.status == OrderStatus::Cancelled || r.status == OrderStatus::Rejected),
{
    let ghost b0 = book@;
    let ghost fok_law = all_or_nothing_applies(b0, order);
    let ghost o = order;
    let ghost whole0 = keeps_in_step(b0, order);
    let ghost keep_uncrossed = whole0 && uncrossed(b0) && b0.max_ticks <= i64::MAX && (
    order.price matches Some(p) ==> tick_exact(p));
    if order_rejected(book, &order) {
        return PlaceOrderResult::rejected(order.id);
    }
    proof {
        if keep_uncrossed && order.price is Some {
            lemma_price_is_tick(b0, order.price->0);
        }
    }
    if order.order_type == OrderType::FOK {
        if !can_fill_fully(book, &order) {
            return PlaceOrderResult::cancelled(order.id);
        }
    }

    let ghost fuel0 = match_fuel(b0, o);
    let ghost res = match_run(o, initial_state(b0, o), fuel0);
    let mut f = Fills {
        remaining: order.remaining,
        trades: Vec::new(),
        filled: Dec::zero(),
        weighted: Dec::zero(),
        fill_seq: 0,
    };
    assert(fills_state(book@, f) =~= initial_state(b0, o));
    assert(trade_lots(f.trades@) == 0);
    let ghost mut fuel: nat = fuel0;
    let mut early = false;
    loop
        invariant_except_break
            match_run(o, fills_state(book@, f), fuel) == res,
            run_ok(o, fills_state(book@, f), fuel),
            match_measure(o, fills_state(book@, f)) < fuel,
            !early,
        invariant
            book@.wf(),
            book@.max_ticks == b0.max_ticks,
            order.wf(),
            f.wf(),
            order == o,
            whole0 == keeps_in_step(b0, o),
            whole0 ==> whole_state(fills_state(book@, f)) && f.remaining.mantissa
                <= order.remaining.mantissa,
            whole0 ==> fills_accounted(fills_state(book@, f)) && f.filled.mantissa
                + f.remaining.mantissa <= order.remaining.mantissa,
            whole0 && order.stp_mode != STPMode::Decrement ==> f.filled.mantissa
                + f.remaining.mantissa == order.remaining.mantissa,
            fok_law == all_or_nothing_applies(b0, o),
            whole0 && totals_in_step(b0) ==> totals_in_step(book@),
            fok_law ==> !early && f.remaining.mantissa <= crossing_lots(
                book@.side(o.side.opposite()).levels,
                o,
                b0.max_ticks as int,
            ),
            book@.side(order.side) == b0.side(order.side),
            forall|i: u128| #[trigger] book@.index.contains_key(i) ==> b0.index.contains_key(i),
            forall|t: usize| #[trigger]
                book@.side(order.side.opposite()).levels.contains_key(t) ==> b0.side(
                    order.side.opposite(),
                ).levels.contains_key(t),
        ensures
            (fills_state(book@, f), early) == res,
            !early ==> match_step(o, fills_state(book@, f)) == Step::Stop(fills_state(book@, f)),
            whole0 && early && order.stp_mode != STPMode::Decrement ==> f.remaining.mantissa > 0,
        decreases match_measure(o, fills_state(book@, f)),
    {
        let ghost st0 = fills_state(book@, f);
        let k = match_round(book, &order, &mut f);
        match k {
            Round::Stop => {
                assert(match_step(o, st0) == Step::Stop(st0));
                break;
            },
            Round::Finish => {
                assert(!fok_law);
                early = true;
                break;
            },
            Round::Continue => {
                proof {
                    fuel = (fuel - 1) as nat;
                    if fok_law {
                        lemma_trade_round(o, st0);
                    }
                }
            },
        }
    }
    let ghost st_end = fills_state(book@, f);
    proof {
        if fok_law {
            lemma_whole_compare(f.remaining, Dec::zero_value());
            if f.remaining.units() != 0 {
                lemma_stop_no_crossing(o, st_end);
            }
        }
    }
    let order_id = order.id;
    let remaining = f.remaining;
    let order_type = order.order_type;
    let filled_qty = f.filled;
    let avg_fill_price = if filled_qty.is_positive() {
        Some(dec_div(f.weighted, filled_qty))
    } else {
        None
    };
    proof {
        if whole0 {
            lemma_whole_compare(filled_qty, Dec::zero_value());
            lemma_whole_compare(remaining, Dec::zero_value());
        }
    }
    if early {
        proof {
            if keep_uncrossed {
                lemma_finish_uncrossed(b0, o, st_end, early);
            }
        }
        return PlaceOrderResult {
            order_id,
            status: if filled_qty.is_positive() {
                OrderStatus::PartiallyFilled
            } else {
                OrderStatus::Cancelled
            },
            filled_qty,
            avg_fill_price,
            trades: f.trades,
        };
    }
    if remaining.is_positive() {
        match order_type {
            OrderType::Limit => {
                let rested = Order {
                    remaining,
                    status: if filled_qty.is_positive() {
                        OrderStatus::PartiallyFilled
                    } else {
                        OrderStatus::Open
                    },
                    ..order
                };
                let ghost before = book@;
                book.insert(rested);
                proof {
                    if whole0 {
                        lemma_whole_compare(Dec::zero_value(), remaining);
                        insert_keeps_consistency(before, rested);
                        if let Some(p) = order.price {
                            let side = order.side;
                            let tick = price_tick(p);
                            assert(rested.price == Some(p) && rested.side == side && rested.id
                                == order.id);
                            let l = book@.side(side).levels[tick].orders;
                            assert(book@.index[order.id] == (side, tick));
                            assert(l == level_or_empty(before.side(side), tick).orders.push(
                                rested,
                            ));
                            assert(l[l.len() - 1] == rested);
                        }
                    }
                }
            },
            _ => {},
        }
    }
    proof {
        if keep_uncrossed {
            lemma_finish_uncrossed(b0, o, st_end, early);
        }
    }
    let status = if filled_qty.is_zero() {
        if remaining.is_zero() {
            OrderStatus::Cancelled
        } else if order_type == OrderType::Limit {
            OrderStatus::Open
        } else {
            OrderStatus::Cancelled
        }
    } else if remaining.is_zero() {
        OrderStatus::Filled
    } else {
        OrderStatus::PartiallyFilled
    };
    PlaceOrderResult { order_id, status, filled_qty, avg_fill_price, trades: f.trades }
}

/// Every trade has a well-formed price.
pub open spec fn trade_prices_wf(ts: Seq<Trade>) -> bool {
    forall|i: int| 0 <= i < ts.len() ==> (#[trigger] ts[i]).price.wf()
}

/// Matching only adds trades at tick prices, which are well formed.
pub proof fn lemma_run_trade_prices_wf(o: Order, st: MatchState, fuel: nat)
    requires
        trade_prices_wf(st.trades),
    ensures
        trade_prices_wf(match_run(o, st, fuel).0.trades),
    decreases fuel,
{
    if fuel > 0 {
        match match_step(o, st) {
            Step::Continue(s) => {
                assert(trade_prices_wf(s.trades));
                lemma_run_trade_prices_wf(o, s, (fuel - 1) as nat);
            },
            _ => {},
        }
    }
}

/// The trades of a matching outcome have well-formed prices.
pub proof fn lemma_outcome_trade_prices_wf(b: BookView, o: Order)
    ensures
        trade_prices_wf(match_outcome(b, o).trades),
{
    lemma_run_trade_prices_wf(o, initial_state(b, o), match_fuel(b, o));
}

/// An order is rejected exactly when it is invalid for the book, and a
/// rejected order leaves the book unchanged and trades nothing.  A
/// fill-or-kill order the book cannot fill completely is cancelled, again
/// with the book unchanged and nothing traded.
pub proof fn rejected_and_killed_orders_leave_book(b: BookView, o: Order)
    ensures
        (match_outcome(b, o).status == OrderStatus::Rejected) == match_rejects(b, o),
        match_rejects(b, o) ==> match_outcome(b, o) == unfilled(b, OrderStatus::Rejected),
        !match_rejects(b, o) && o.order_type == OrderType::FOK && !b.can_fill_fully(o)
            ==> match_outcome(b, o) == unfilled(b, OrderStatus::Cancelled),
{
}

/// Every trade of the incoming order is at a price its limit crosses, names
/// the incoming order on its own side, and carries its instrument and
/// timestamp.
pub open spec fn trades_fit(o: Order, ts: Seq<Trade>) -> bool {
    forall|i: int|
        0 <= i < ts.len() ==> {
            let t = #[trigger] ts[i];
            &&& crosses(o, t.price)
            &&& o.side == Side::Buy ==> t.buy_order_id == o.id
            &&& o.side == Side::Sell ==> t.sell_order_id == o.id
            &&& t.instrument_id == o.instrument_id
            &&& t.ts == o.ts
            &&& i <= u64::MAX ==> t.id == trade_id(
                t.instrument_id,
                t.buy_order_id,
                t.sell_order_id,
                t.price,
                t.qty,
                i as u64,
            )
        }
}

/// The quantities of the trades added up in turn, as `rust_decimal` adds.
pub open spec fn total_qty(ts: Seq<Trade>) -> Dec
    decreases ts.len(),
{
    if ts.len() == 0 {
        Dec::zero_value()
    } else {
        decimal_sum(total_qty(ts.drop_last()), ts.last().qty)
    }
}

/// Price times quantity of the trades added up in turn.
pub open spec fn total_notional(ts: Seq<Trade>) -> Dec
    decreases ts.len(),
{
    if ts.len() == 0 {
        Dec::zero_value()
    } else {
        decimal_sum(total_notional(ts.drop_last()), decimal_product(ts.last().price, ts.last().qty))
    }
}

/// The running totals of a matching state are those of its trades, and the
/// next fill's sequence number is the number of trades.
pub open spec fn accounted(st: MatchState) -> bool {
    &&& st.filled == total_qty(st.trades)
    &&& st.weighted == total_notional(st.trades)
    &&& st.trades.len() <= u64::MAX ==> st.fill_seq == st.trades.len()
}

/// The keys of `a` are among those of `b`.
pub open spec fn index_within(a: Map<u128, (Side, usize)>, b: Map<u128, (Side, usize)>) -> bool {
    forall|k: u128| #[trigger] a.contains_key(k) ==> b.contains_key(k)
}

/// The matching loop only adds fitting trades and only takes ids out of the
/// index.
proof fn lemma_run_fits(o: Order, st: MatchState, fuel: nat)
    requires
        trades_fit(o, st.trades),
        accounted(st),
    ensures
        trades_fit(o, match_run(o, st, fuel).0.trades),
        accounted(match_run(o, st, fuel).0),
        index_within(match_run(o, st, fuel).0.book.index, st.book.index),
    decreases fuel,
{
    if fuel > 0 {
        match match_step(o, st) {
            Step::Continue(s) => {
                if s.trades.len() > st.trades.len() {
                    let t = s.trades.last();
                    assert(s.trades.drop_last() =~= st.trades);
                    assert(s.trades[st.trades.len() as int] == t);
                    assert(accounted(s));
                    assert forall|i: int| 0 <= i < s.trades.len() implies {
                        let t = #[trigger] s.trades[i];
                        &&& crosses(o, t.price)
                        &&& o.side == Side::Buy ==> t.buy_order_id == o.id
                        &&& o.side == Side::Sell ==> t.sell_order_id == o.id
                        &&& t.instrument_id == o.instrument_id
                        &&& t.ts == o.ts
                        &&& i <= u64::MAX ==> t.id == trade_id(
                            t.instrument_id,
                            t.buy_order_id,
                            t.sell_order_id,
                            t.price,
                            t.qty,
                            i as u64,
                        )
                    } by {
                        if i < st.trades.len() {
                            assert(s.trades[i] == st.trades[i]);
                        }
                    }
                } else {
                    assert(s.trades == st.trades);
                    assert(accounted(s));
                }
                lemma_run_fits(o, s, (fuel - 1) as nat);
            },
            _ => {},
        }
    }
}

/// The trades of an order are at prices its limit crosses (a buy never pays
/// more than its limit, a sell never receives less), name the order on its
/// own side, and carry its instrument and timestamp.
pub proof fn trades_fit_incoming_order(b: BookView, o: Order)
    ensures
        trades_fit(o, match_outcome(b, o).trades),
{
    assert(accounted(initial_state(b, o)));
    lemma_run_fits(o, initial_state(b, o), match_fuel(b, o));
}

/// Every trade names the incoming order's participant on the incoming
/// order's own side (the buyer of a buy, the seller of a sell); and unless
/// the incoming order lets self-trades happen, no trade has the same
/// participant on both sides.
pub open spec fn trades_name_parties(o: Order, ts: Seq<Trade>) -> bool {
    forall|i: int|
        0 <= i < ts.len() ==> {
            let t = #[trigger] ts[i];
            &&& o.side == Side::Buy ==> t.buy_participant_id@ == o.participant_id@
            &&& o.side == Side::Sell ==> t.sell_participant_id@ == o.participant_id@
            &&& o.stp_mode != STPMode::Disabled ==> t.buy_participant_id@
                != t.sell_participant_id@
        }
}

proof fn lemma_run_parties(o: Order, st: MatchState, fuel: nat)
    requires
        trades_name_parties(o, st.trades),
    ensures
        trades_name_parties(o, match_run(o, st, fuel).0.trades),
    decreases fuel,
{
    if fuel > 0 {
        match match_step(o, st) {
            Step::Continue(s) => {
                if s.trades.len() > st.trades.len() {
                    assert forall|i: int| 0 <= i < s.trades.len() implies {
                        let t = #[trigger] s.trades[i];
                        &&& o.side == Side::Buy ==> t.buy_participant_id@ == o.participant_id@
                        &&& o.side == Side::Sell ==> t.sell_participant_id@ == o.participant_id@
                        &&& o.stp_mode != STPMode::Disabled ==> t.buy_participant_id@
                            != t.sell_participant_id@
                    } by {
                        if i < st.trades.len() {
                            assert(s.trades[i] == st.trades[i]);
                        }
                    }
                } else {
                    assert(s.trades == st.trades);
                }
                lemma_run_parties(o, s, (fuel - 1) as nat);
            },
            _ => {},
        }
    }
}

/// An order with id `id` of participant `p` rests on `side` of `b`.
pub open spec fn rests_in(b: BookView, side: Side, id: u128, p: Seq<char>) -> bool {
    exists|t: usize, j: int|
        b.side(side).levels.contains_key(t) && 0 <= j < b.side(side).levels[t].orders.len()
            && (#[trigger] b.side(side).levels[t].orders[j]).id == id
            && b.side(side).levels[t].orders[j].participant_id@ == p
}

/// Every order on `side` of `c` is, by id and participant, an order resting
/// on `side` of `b`.
pub open spec fn drawn_from(c: BookView, b: BookView, side: Side) -> bool {
    forall|t: usize, i: int|
        c.side(side).levels.contains_key(t) && 0 <= i < c.side(side).levels[t].orders.len()
            ==> rests_in(
            b,
            side,
            (#[trigger] c.side(side).levels[t].orders[i]).id,
            c.side(side).levels[t].orders[i].participant_id@,
        )
}

proof fn lemma_remove_front_drawn(c: BookView, b: BookView, side: Side, tick: usize)
    requires
        drawn_from(c, b, side),
    ensures
        drawn_from(c.remove_front(side, tick).0, b, side),
{
    let c2 = c.remove_front(side, tick).0;
    let sv = c.side(side);
    if sv.levels.contains_key(tick) && sv.levels[tick].orders.len() > 0 {
        assert forall|t: usize, i: int|
            c2.side(side).levels.contains_key(t) && 0 <= i < c2.side(side).levels[t].orders.len()
                implies rests_in(
            b,
            side,
            (#[trigger] c2.side(side).levels[t].orders[i]).id,
            c2.side(side).levels[t].orders[i].participant_id@,
        ) by {
            if t == tick {
                assert(c2.side(side).levels[t].orders[i] == sv.levels[t].orders[i + 1]);
            } else {
                assert(c2.side(side).levels[t] == sv.levels[t]);
                assert(c2.side(side).levels[t].orders[i] == sv.levels[t].orders[i]);
            }
        }
    }
}

proof fn lemma_fill_front_drawn(c: BookView, b: BookView, side: Side, tick: usize, fill: Dec)
    requires
        drawn_from(c, b, side),
    ensures
        drawn_from(c.fill_front(side, tick, fill).0, b, side),
{
    let c2 = c.fill_front(side, tick, fill).0;
    let sv = c.side(side);
    if sv.levels.contains_key(tick) && sv.levels[tick].orders.len() > 0 {
        let l1 = sv.levels[tick].reduce_front(fill);
        assert forall|t: usize, i: int|
            c2.side(side).levels.contains_key(t) && 0 <= i < c2.side(side).levels[t].orders.len()
                implies rests_in(
            b,
            side,
            (#[trigger] c2.side(side).levels[t].orders[i]).id,
            c2.side(side).levels[t].orders[i].participant_id@,
        ) by {
            if t == tick {
                if l1.orders[0].remaining.units() == 0 {
                    assert(c2.side(side).levels[t].orders[i] == l1.orders[i + 1]);
                    assert(l1.orders[i + 1] == sv.levels[t].orders[i + 1]);
                } else {
                    assert(c2.side(side).levels[t].orders[i] == l1.orders[i]);
                    if i == 0 {
                        assert(sv.levels[t].orders[0].id == l1.orders[0].id);
                    } else {
                        assert(l1.orders[i] == sv.levels[t].orders[i]);
                    }
                    assert(sv.levels[t].orders[i].id == l1.orders[i].id);
                }
            } else {
                assert(c2.side(side).levels[t] == sv.levels[t]);
                assert(c2.side(side).levels[t].orders[i] == sv.levels[t].orders[i]);
            }
        }
    }
}

/// Every trade names as the other party an order that rested on the other
/// side of the book before matching: its id and its participant.
pub open spec fn trades_name_resting(b: BookView, o: Order, ts: Seq<Trade>) -> bool {
    forall|i: int|
        0 <= i < ts.len() ==> {
            let t = #[trigger] ts[i];
            &&& o.side == Side::Buy ==> rests_in(
                b,
                Side::Sell,
                t.sell_order_id,
                t.sell_participant_id@,
            )
            &&& o.side == Side::Sell ==> rests_in(
                b,
                Side::Buy,
                t.buy_order_id,
                t.buy_participant_id@,
            )
        }
}

proof fn lemma_run_resting(b: BookView, o: Order, st: MatchState, fuel: nat)
    requires
        trades_name_resting(b, o, st.trades),
        drawn_from(st.book, b, o.side.opposite()),
    ensures
        trades_name_resting(b, o, match_run(o, st, fuel).0.trades),
    decreases fuel,
{
    if fuel > 0 && st.remaining.units() != 0 {
        let side = o.side.opposite();
        let sv = st.book.side(side);
        let bt = sv.best as usize;
        match match_step(o, st) {
            Step::Continue(s) => {
                lemma_remove_front_drawn(st.book, b, side, bt);
                if s.trades.len() > st.trades.len() {
                    let resting = sv.levels[bt].orders[0];
                    lemma_fill_front_drawn(st.book, b, side, bt, s.trades.last().qty);
                    assert(rests_in(b, side, resting.id, resting.participant_id@));
                    assert forall|i: int| 0 <= i < s.trades.len() implies {
                        let t = #[trigger] s.trades[i];
                        &&& o.side == Side::Buy ==> rests_in(
                            b,
                            Side::Sell,
                            t.sell_order_id,
                            t.sell_participant_id@,
                        )
                        &&& o.side == Side::Sell ==> rests_in(
                            b,
                            Side::Buy,
                            t.buy_order_id,
                            t.buy_participant_id@,
                        )
                    } by {
                        if i < st.trades.len() {
                            assert(s.trades[i] == st.trades[i]);
                        }
                    }
                } else {
                    assert(s.trades == st.trades);
                }
                lemma_run_resting(b, o, s, (fuel - 1) as nat);
            },
            _ => {},
        }
    }
}

/// The trades of an incoming order name it as the buyer when it buys and as
/// the seller when it sells, the resting order being the other party; and
/// under any self-trade prevention mode other than `Disabled` no trade is
/// between a participant and itself, whichever side the incoming order is.
pub proof fn trades_name_both_parties(b: BookView, o: Order)
    ensures
        trades_name_parties(o, match_outcome(b, o).trades),
        trades_name_resting(b, o, match_outcome(b, o).trades),
{
    lemma_run_parties(o, initial_state(b, o), match_fuel(b, o));
    lemma_run_resting(b, o, initial_state(b, o), match_fuel(b, o));
}

/// Only a limit order comes to rest: when an order whose id the book did not
/// index is indexed after matching, it is a limit order that is open or
/// partially filled.
pub proof fn only_limit_orders_rest(b: BookView, o: Order)
    requires
        !b.index.contains_key(o.id),
    ensures
        match_outcome(b, o).book.index.contains_key(o.id) ==> o.order_type == OrderType::Limit && (
        match_outcome(b, o).status == OrderStatus::Open || match_outcome(b, o).status
            == OrderStatus::PartiallyFilled),
{
    assert(accounted(initial_state(b, o)));
    lemma_run_fits(o, initial_state(b, o), match_fuel(b, o));
}

/// The filled quantity is the sum of the trade quantities, and the average
/// fill price, when something filled, is the sum of price times quantity
/// over that sum.
pub proof fn fills_add_up(b: BookView, o: Order)
    ensures
        match_outcome(b, o).filled == total_qty(match_outcome(b, o).trades),
        match_outcome(b, o).avg == (if total_qty(match_outcome(b, o).trades).units() > 0 {
            Some(
                decimal_quotient(
                    total_notional(match_outcome(b, o).trades),
                    total_qty(match_outcome(b, o).trades),
                ),
            )
        } else {
            None
        }),
{
    assert(accounted(initial_state(b, o)));
    lemma_run_fits(o, initial_state(b, o), match_fuel(b, o));
}

/// Whether one round of the matching loop can run without a panic or an
/// overflow, decided without changing anything.
fn round_ok(book: &OrderBook, order: &Order, f: &Fills) -> (b: bool)
    requires
        book@.wf(),
        order.wf(),
        f.wf(),
    ensures
        b == step_ok(*order, fills_state(book@, *f)),
{
    if f.remaining.is_zero() {
        return true;
    }
    if book.max_ticks == 0 {
        return false;
    }
    let ghost sv = book@.side(order.side.opposite());
    let best_tick = match order.side {
        Side::Buy => book.asks.get_best_tick(),
        Side::Sell => book.bids.get_best_tick(),
    };
    let best_qty = match order.side {
        Side::Buy => book.asks.get_qty(best_tick),
        Side::Sell => book.bids.get_qty(best_tick),
    };
    let level = match order.side {
        Side::Buy => book.ask_levels.get(&best_tick),
        Side::Sell => book.bid_levels.get(&best_tick),
    };
    let (front, total) = match level {
        Some(l) => (l.front(), l.total_qty),
        None => (None, Dec::zero()),
    };
    if best_qty == 0 && front.is_none() {
        return true;
    }
    let best_price = tick_to_decimal(best_tick);
    if let Some(limit_price) = order.price {
        let crosses = match order.side {
            Side::Buy => !dec_lt(limit_price, best_price),
            Side::Sell => !dec_lt(best_price, limit_price),
        };
        if !crosses {
            return true;
        }
    }
    let resting = match front {
        Some(o) => o,
        None => {
            return true;
        },
    };
    assert(sv.levels.contains_key(best_tick));
    assert(sv.levels[best_tick].orders[0] == *resting);
    assert(resting.wf());
    if resting.participant_id == order.participant_id {
        match order.stp_mode {
            STPMode::CancelNewest => {
                return true;
            },
            STPMode::CancelOldest => {
                return can_sub(total, resting.remaining);
            },
            STPMode::Decrement => {
                if !can_sub(total, resting.remaining) {
                    return false;
                }
                if dec_lt(resting.remaining, f.remaining) {
                    return can_sub(f.remaining, resting.remaining);
                }
                return true;
            },
            STPMode::Disabled => {},
        }
    }
    let fill = dec_min(f.remaining, resting.remaining);
    if f.fill_seq == u64::MAX || !can_add(f.filled, fill) || !can_mul(best_price, fill) {
        return false;
    }
    let notional = dec_mul(best_price, fill);
    can_add(f.weighted, notional) && can_sub(f.remaining, fill) && can_sub(resting.remaining, fill)
        && can_sub(total, fill)
}

/// Whether the fill-or-kill check can run without overflow, decided without
/// changing anything.
fn fill_check_ok(book: &OrderBook, order: &Order) -> (b: bool)
    requires
        book@.wf(),
        order.wf(),
    ensures
        b == book@.can_fill_fully_ok(*order),
{
    let mut needed = order.qty;
    let limit = order.price;
    let ghost b0 = book@;
    match order.side {
        Side::Buy => {
            let ghost lv = b0.asks.levels;
            let n = book.max_ticks;
            let mut tick: usize = 0;
            while tick < n
                invariant
                    fok_scan_up_ok(lv, n as nat, limit, needed, tick as int) == b0.can_fill_fully_ok(
                        *order,
                    ),
                    lv == book@.asks.levels,
                    b0 == book@,
                    n == book.max_ticks,
                    order.side == Side::Buy,
                    limit == order.price,
                    book@.wf(),
                    order.wf(),
                    needed.wf(),
                    tick <= n,
                decreases n - tick,
            {
                match book.ask_levels.get(&tick) {
                    Some(level) => {
                        assert(lv.contains_key(tick));
                        let price = tick_to_decimal(tick);
                        if let Some(lp) = limit {
                            if dec_lt(lp, price) {
                                return true;
                            }
                        }
                        if !can_sub(needed, level.total_qty) {
                            return false;
                        }
                        needed = dec_sub(needed, level.total_qty);
                        if !needed.is_positive() {
                            return true;
                        }
                    },
                    None => {},
                }
                tick += 1;
            }
            true
        },
        Side::Sell => {
            let ghost lv = b0.bids.levels;
            let n = book.max_ticks;
            let mut tick: usize = n;
            while tick > 0
                invariant
                    fok_scan_down_ok(lv, limit, needed, tick - 1) == b0.can_fill_fully_ok(*order),
                    lv == book@.bids.levels,
                    b0 == book@,
                    n == book.max_ticks,
                    order.side == Side::Sell,
                    limit == order.price,
                    book@.wf(),
                    order.wf(),
                    needed.wf(),
                    tick <= n,
                decreases tick,
            {
                let t = tick - 1;
                match book.bid_levels.get(&t) {
                    Some(level) => {
                        assert(lv.contains_key(t));
                        let price = tick_to_decimal(t);
                        if let Some(lp) = limit {
                            if dec_lt(price, lp) {
                                return true;
                            }
                        }
                        if !can_sub(needed, level.total_qty) {
                            return false;
                        }
                        needed = dec_sub(needed, level.total_qty);
                        if !needed.is_positive() {
                            return true;
                        }
                    },
                    None => {},
                }
                tick = t;
            }
            true
        },
    }
}

/// Whether finishing can run without a panic or an overflow.
fn finish_check(book: &OrderBook, order: &Order, f: &Fills, early: bool) -> (b: bool)
    requires
        book@.wf(),
        order.wf(),
        f.wf(),
    ensures
        b == finish_ok(*order, fills_state(book@, *f), early),
{
    if f.filled.is_positive() && !can_div(f.weighted, f.filled) {
        return false;
    }
    if early || !f.remaining.is_positive() {
        return true;
    }
    match order.order_type {
        OrderType::Limit => {},
        _ => {
            return true;
        },
    }
    let price = match order.price {
        Some(p) => p,
        None => {
            return true;
        },
    };
    if !can_mul(price, Dec::new(100, 0)) {
        return false;
    }
    let tick = price_to_tick(price);
    if tick >= book.max_ticks {
        return false;
    }
    let level = match order.side {
        Side::Buy => book.bid_levels.get(&tick),
        Side::Sell => book.ask_levels.get(&tick),
    };
    let total = match level {
        Some(l) => l.total_qty,
        None => Dec::zero(),
    };
    assert(total == level_or_empty(book@.side(order.side), tick).total_qty);
    can_add(total, f.remaining)
}

/// Whether an order is refused before matching: its quantity is not
/// positive, or its price is not positive, not a whole number of cents, or
/// beyond the book's ticks.
fn order_rejected(book: &OrderBook, order: &Order) -> (r: bool)
    requires
        order.wf(),
        order.qty.units() > 0 ==> (order.price matches Some(p) ==> (p.units() > 0 ==> product_fits(
            p,
            hundred(),
        ))),
    ensures
        r == match_rejects(book@, *order),
        order.qty.units() > 0 ==> (order.price matches Some(p) ==> (p.units() > 0 ==> exact_cents(
            p,
        ))),
{
    if !order.qty.is_positive() {
        return true;
    }
    if let Some(price) = order.price {
        if !price.is_positive() {
            return true;
        }
        let scaled = dec_mul(price, Dec::new(100, 0));
        proof {
            lemma_cents_exact(price);
        }
        let fraction = dec_fract(scaled);
        proof {
            lemma_units_sign(fraction);
        }
        if !fraction.is_zero() {
            return true;
        }
        match dec_to_u64(scaled) {
            Some(t) => {
                if t as usize >= book.max_ticks {
                    return true;
                }
            },
            None => {
                return true;
            },
        }
    }
    false
}

/// Matches the order on a copy of the book, checking before each step that
/// it can run without a panic or an overflow.  Gives the trades when the
/// whole of matching can run so, and nothing when it cannot.
pub fn dry_run(book: &OrderBook, order: &Order) -> (r: Option<Vec<Trade>>)
    requires
        book@.wf(),
        order.wf(),
    ensures
        (r is Some) == match_ok(book@, *order),
        r matches Some(ts) ==> ts@ == match_outcome(book@, *order).trades,
{
    let ghost b0 = book@;
    let ghost o = *order;
    if !order.qty.is_positive() {
        return Some(Vec::new());
    }
    if let Some(p) = order.price {
        if p.is_positive() && !can_mul(p, Dec::new(100, 0)) {
            return None;
        }
    }
    if order_rejected(book, order) {
        return Some(Vec::new());
    }
    if order.order_type == OrderType::FOK {
        if !fill_check_ok(book, order) {
            return None;
        }
        if !can_fill_fully(book, order) {
            return Some(Vec::new());
        }
    }
    let ghost fuel0 = match_fuel(b0, o);
    let ghost res = match_run(o, initial_state(b0, o), fuel0);
    let ghost ok0 = run_ok(o, initial_state(b0, o), fuel0);
    let mut sim = book.duplicate();
    let mut f = Fills {
        remaining: order.remaining,
        trades: Vec::new(),
        filled: Dec::zero(),
        weighted: Dec::zero(),
        fill_seq: 0,
    };
    assert(fills_state(sim@, f) =~= initial_state(b0, o));
    let ghost mut fuel: nat = fuel0;
    let mut early = false;
    loop
        invariant_except_break
            match_run(o, fills_state(sim@, f), fuel) == res,
            run_ok(o, fills_state(sim@, f), fuel) == ok0,
            match_measure(o, fills_state(sim@, f)) < fuel,
            !early,
        invariant
            sim@.wf(),
            sim@.max_ticks == b0.max_ticks,
            order.wf(),
            f.wf(),
            *order == o,
            b0 == book@,
            ok0 == run_ok(o, initial_state(b0, o), match_fuel(b0, o)),
            res == match_run(o, initial_state(b0, o), match_fuel(b0, o)),
            !match_rejects(b0, o),
            o.qty.units() > 0,
            o.price matches Some(p) ==> (p.units() > 0 ==> product_fits(p, hundred())),
            o.order_type == OrderType::FOK ==> b0.can_fill_fully_ok(o) && b0.can_fill_fully(o),
        ensures
            (fills_state(sim@, f), early) == res,
            ok0,
        decreases match_measure(o, fills_state(sim@, f)),
    {
        if !round_ok(&sim, order, &f) {
            return None;
        }
        let ghost st0 = fills_state(sim@, f);
        let k = match_round(&mut sim, order, &mut f);
        match k {
            Round::Stop => {
                assert(match_step(o, st0) == Step::Stop(st0));
                break;
            },
            Round::Finish => {
                early = true;
                break;
            },
            Round::Continue => {
                proof {
                    fuel = (fuel - 1) as nat;
                }
            },
        }
    }
    if !finish_check(&sim, order, &f, early) {
        return None;
    }
    Some(f.trades)
}

/// Matches an incoming order as `match_order` does when that can run
/// without a panic or an overflow; otherwise leaves the book unchanged and
/// gives nothing.
pub fn try_match_order(book: &mut OrderBook, order: Order) -> (r: Option<PlaceOrderResult>)
    requires
        old(book)@.wf(),
        order.wf(),
    ensures
        final(book)@.wf(),
        r is None ==> !match_ok(old(book)@, order) && final(book)@ == old(book)@,
        r matches Some(res) ==> {
            &&& match_ok(old(book)@, order)
            &&& final(book)@ == match_outcome(old(book)@, order).book
            &&& res.order_id == order.id
            &&& res.status == match_outcome(old(book)@, order).status
            &&& res.filled_qty == match_outcome(old(book)@, order).filled
            &&& res.avg_fill_price == match_outcome(old(book)@, order).avg
            &&& res.trades@ == match_outcome(old(book)@, order).trades
        },
{
    match dry_run(book, &order) {
        None => None,
        Some(_) => Some(match_order(book, order)),
    }
}

} // verus!
