//! Level totals: every price level's total quantity is the sum of the
//! remaining quantities of its orders, and inserting, cancelling and filling
//! keep it so; on such a book the fill-or-kill check counts exactly the lots
//! crossing the order's limit, and matching then fills a fill-or-kill order
//! completely or not at all.
use crate::book::{find_id, level_or_empty, price_tick, BookView, LevelView};
use crate::book::tick_price;
use crate::decimal::{decimal_difference, decimal_sum, exact_whole_difference, lemma_pow10_pos, pow10, Dec, MAX_MANTISSA};
use crate::matching::{
    crosses, fok_scan_down, fok_scan_up, lemma_tick_price_units, lemma_whole_compare, match_step, whole_state,
    MatchState, Step,
};
use crate::priority::{
    keeps_in_step, lemma_lots_positive, lemma_qty_iff_level, lemma_top_facts, lots_at, side_shape,
};
use crate::types::{OrderType, STPMode};
use crate::priority::{book_consistent, lemma_lots_push, lemma_lots_remove, lemma_lots_update, lots, whole_qty};
use crate::types::{Order, Side};
use vstd::prelude::*;

verus! {

/// A level's total is its lots, written without decimal places.
pub open spec fn total_in_step(l: LevelView) -> bool {
    l.total_qty.scale == 0 && l.total_qty.mantissa == lots(l.orders)
}

/// Every level of the book, on both sides, has its total in step.
pub open spec fn totals_in_step(b: BookView) -> bool {
    forall|s: Side, t: usize| #[trigger] b.side(s).levels.contains_key(t) ==> total_in_step(
        b.side(s).levels[t],
    )
}

/// `rust_decimal` adds `b` to `a` exactly when both are written without
/// decimal places: the result is too, and its mantissa is the sum.
pub open spec fn exact_whole_sum(a: Dec, b: Dec) -> bool {
    a.scale == 0 && b.scale == 0 ==> decimal_sum(a, b).scale == 0 && decimal_sum(a, b).mantissa
        == a.mantissa + b.mantissa
}

/// Inserting a whole-lot order keeps every level total in step, given that
/// `rust_decimal` adds the order's quantity to its level's total exactly (as
/// it does for numbers written without decimal places).
pub proof fn insert_keeps_totals(b: BookView, o: Order)
    requires
        totals_in_step(b),
        o.remaining.scale == 0,
        o.price matches Some(p) ==> exact_whole_sum(
            level_or_empty(b.side(o.side), price_tick(p)).total_qty,
            o.remaining,
        ),
    ensures
        totals_in_step(b.insert(o)),
{
    if let Some(p) = o.price {
        let tick = price_tick(p);
        let l = level_or_empty(b.side(o.side), tick);
        lemma_lots_push(l.orders, o);
        assert(lots(Seq::<Order>::empty()) == 0);
        let b2 = b.insert(o);
        assert forall|s: Side, t: usize| #[trigger] b2.side(s).levels.contains_key(t) implies total_in_step(
            b2.side(s).levels[t],
        ) by {
            if !(s == o.side && t == tick) {
                assert(b.side(s).levels.contains_key(t));
            }
        }
    }
}

/// Cancelling an order keeps every level total in step: the cancelled
/// order's remaining quantity leaves its level's total wherever the order
/// sits in the level, given that `rust_decimal` subtracts it exactly.
pub proof fn cancel_keeps_totals(b: BookView, id: u128)
    requires
        book_consistent(b),
        totals_in_step(b),
        b.index.contains_key(id) ==> {
            let (s, t) = b.index[id];
            let l = b.side(s).levels[t];
            exact_whole_difference(l.total_qty, l.orders[find_id(l.orders, id)].remaining)
        },
    ensures
        totals_in_step(b.cancel(id).0),
{
    if b.index.contains_key(id) {
        let (s0, t0) = b.index[id];
        let sv = b.side(s0);
        if sv.levels.contains_key(t0) && find_id(sv.levels[t0].orders, id) >= 0 {
            let l = sv.levels[t0];
            let k = find_id(l.orders, id);
            crate::book::lemma_find_id_bounds(l.orders, id);
            assert(whole_qty(l.orders[k].remaining));
            lemma_lots_remove(l.orders, k);
            let b2 = b.cancel(id).0;
            assert forall|s: Side, t: usize| #[trigger] b2.side(s).levels.contains_key(t) implies total_in_step(
                b2.side(s).levels[t],
            ) by {
                assert(b.side(s).levels.contains_key(t));
            }
        }
    }
}

/// Taking a whole number of lots off the first order of a level keeps every
/// level total in step, given that `rust_decimal` subtracts the fill from
/// the order's remaining quantity and from the total exactly, and, when the
/// order is used up, its remaining nothing from the total too.
pub proof fn fill_keeps_totals(b: BookView, side: Side, tick: usize, fill: Dec)
    requires
        book_consistent(b),
        totals_in_step(b),
        b.side(side).levels.contains_key(tick),
        fill.scale == 0,
        ({
            let l = b.side(side).levels[tick];
            let r = l.orders[0].remaining;
            &&& exact_whole_difference(r, fill)
            &&& exact_whole_difference(l.total_qty, fill)
            &&& decimal_difference(r, fill).units() == 0 ==> exact_whole_difference(
                decimal_difference(l.total_qty, fill),
                decimal_difference(r, fill),
            )
        }),
    ensures
        totals_in_step(b.fill_front(side, tick, fill).0),
{
    let l = b.side(side).levels[tick];
    assert(l.orders.len() > 0);
    assert(whole_qty(l.orders[0].remaining));
    let l1 = l.reduce_front(fill);
    lemma_lots_update(l.orders, 0, l1.orders[0]);
    assert(total_in_step(l1));
    crate::decimal::lemma_units_sign(l1.orders[0].remaining);
    if l1.orders[0].remaining.units() == 0 {
        lemma_lots_remove(l1.orders, 0);
        assert(l1.orders.remove(0) =~= l1.orders.drop_first());
    }
    let b2 = b.fill_front(side, tick, fill).0;
    assert forall|s: Side, t: usize| #[trigger] b2.side(s).levels.contains_key(t) implies total_in_step(
        b2.side(s).levels[t],
    ) by {
        assert(b.side(s).levels.contains_key(t));
    }
}

/// Removing the first order of a level keeps every level total in step,
/// given that `rust_decimal` takes its remaining quantity off the total
/// exactly.
pub proof fn remove_front_keeps_totals(b: BookView, side: Side, tick: usize)
    requires
        book_consistent(b),
        totals_in_step(b),
        b.side(side).levels.contains_key(tick) ==> exact_whole_difference(
            b.side(side).levels[tick].total_qty,
            b.side(side).levels[tick].orders[0].remaining,
        ),
    ensures
        totals_in_step(b.remove_front(side, tick).0),
{
    if b.side(side).levels.contains_key(tick) && b.side(side).levels[tick].orders.len() > 0 {
        let l = b.side(side).levels[tick];
        assert(whole_qty(l.orders[0].remaining));
        lemma_lots_remove(l.orders, 0);
        let b2 = b.remove_front(side, tick).0;
        assert forall|s: Side, t: usize| #[trigger] b2.side(s).levels.contains_key(t) implies total_in_step(
            b2.side(s).levels[t],
        ) by {
            assert(b.side(s).levels.contains_key(t));
        }
    }
}

// The fill-or-kill check.

/// `rust_decimal` subtracts numbers written without decimal places exactly
/// whenever the difference fits a mantissa: the result is again written
/// without decimal places.
pub open spec fn whole_differences_exact() -> bool {
    forall|a: Dec, c: Dec|
        a.scale == 0 && c.scale == 0 && -MAX_MANTISSA <= a.mantissa - c.mantissa <= MAX_MANTISSA
            ==> #[trigger] decimal_difference(a, c) == Dec {
            mantissa: (a.mantissa - c.mantissa) as i128,
            scale: 0,
        }
}

/// The lots resting at tick `u` of `levels` when its price crosses the
/// limit of `o` (0 otherwise).
pub open spec fn crossing_lots_at(levels: Map<usize, LevelView>, o: Order, u: int) -> int {
    if 0 <= u <= usize::MAX && levels.contains_key(u as usize) && crosses(
        o,
        tick_price(u as usize),
    ) {
        lots(levels[u as usize].orders)
    } else {
        0
    }
}

/// The lots resting below tick `n` of `levels` at prices crossing the limit
/// of `o`.
pub open spec fn crossing_lots(levels: Map<usize, LevelView>, o: Order, n: int) -> int
    decreases n,
{
    if n <= 0 {
        0
    } else {
        crossing_lots(levels, o, n - 1) + crossing_lots_at(levels, o, n - 1)
    }
}

/// A level of a consistent book lies below its last tick and holds between
/// 0 and `u64::MAX` lots.
pub proof fn lemma_level_lots(b: BookView, s: Side, t: usize)
    requires
        book_consistent(b),
        b.side(s).levels.contains_key(t),
    ensures
        t < b.max_ticks,
        0 <= lots(b.side(s).levels[t].orders) <= u64::MAX,
{
    let sv = b.side(s);
    let os = sv.levels[t].orders;
    assert(t < b.max_ticks);
    assert forall|i: int| 0 <= i < os.len() implies whole_qty(#[trigger] os[i].remaining) by {
        assert(whole_qty(sv.levels[t].orders[i].remaining));
    }
    lemma_lots_positive(os);
    assert(sv.qty[t as int] == lots_at(sv.levels, t as int));
}

/// The crossing lots of a consistent book's side never decrease with the
/// tick bound.
pub proof fn lemma_crossing_mono(b: BookView, s: Side, o: Order, m: int, n: int)
    requires
        book_consistent(b),
        m <= n,
    ensures
        crossing_lots(b.side(s).levels, o, m) <= crossing_lots(b.side(s).levels, o, n),
    decreases n - m,
{
    if m < n {
        lemma_crossing_mono(b, s, o, m, n - 1);
        let u = n - 1;
        if 0 <= u <= usize::MAX && b.side(s).levels.contains_key(u as usize) {
            lemma_level_lots(b, s, u as usize);
        }
    }
}

/// Tick prices rise with the tick.
proof fn lemma_price_mono(u: usize, v: usize)
    requires
        u <= v <= i64::MAX,
    ensures
        tick_price(u).units() <= tick_price(v).units(),
        u < v ==> tick_price(u).units() < tick_price(v).units(),
{
    lemma_tick_price_units(u);
    lemma_tick_price_units(v);
    lemma_pow10_pos(26);
    let p = pow10(26);
    assert(u * p <= v * p && (u < v ==> u * p < v * p)) by (nonlinear_arith)
        requires
            u <= v,
            p > 0,
    ;
}

/// For a buy, no tick from `t` up to `n` crosses once the price at `t` is
/// above the limit.
pub proof fn lemma_none_cross_up(levels: Map<usize, LevelView>, o: Order, t: int, n: int)
    requires
        o.side == Side::Buy,
        o.price matches Some(lp) && 0 <= t <= usize::MAX && tick_price(t as usize).units()
            > lp.units(),
        t <= n <= i64::MAX + 1,
        n <= usize::MAX + 1,
    ensures
        crossing_lots(levels, o, n) == crossing_lots(levels, o, t),
    decreases n - t,
{
    if t < n {
        lemma_none_cross_up(levels, o, t, n - 1);
        lemma_price_mono(t as usize, (n - 1) as usize);
    }
}

/// For a sell, no tick up to `t` crosses once the price at `t` is below the
/// limit.
pub proof fn lemma_none_cross_down(levels: Map<usize, LevelView>, o: Order, t: int)
    requires
        o.side == Side::Sell,
        o.price matches Some(lp) && 0 <= t <= i64::MAX && t <= usize::MAX && tick_price(
            t as usize,
        ).units() < lp.units(),
    ensures
        crossing_lots(levels, o, t + 1) == 0,
    decreases t + 1,
{
    if t > 0 {
        lemma_price_mono((t - 1) as usize, t as usize);
        lemma_none_cross_down(levels, o, t - 1);
    } else {
        assert(crossing_lots(levels, o, 0) == 0);
    }
    assert(!crosses(o, tick_price(t as usize)));
    assert(crossing_lots_at(levels, o, t) == 0);
}

/// The scan of a buy's fill-or-kill check from tick `t` succeeds exactly
/// when the lots crossing the limit from `t` on cover what is needed.
proof fn lemma_scan_up(b: BookView, o: Order, needed: Dec, t: int)
    requires
        book_consistent(b),
        totals_in_step(b),
        whole_differences_exact(),
        b.max_ticks <= i64::MAX,
        o.side == Side::Buy,
        needed.scale == 0,
        0 < needed.mantissa <= MAX_MANTISSA,
        0 <= t <= b.max_ticks,
    ensures
        fok_scan_up(b.asks.levels, b.max_ticks, o.price, needed, t) == (needed.mantissa
            <= crossing_lots(b.asks.levels, o, b.max_ticks as int) - crossing_lots(
            b.asks.levels,
            o,
            t,
        )),
    decreases b.max_ticks - t,
{
    let levels = b.asks.levels;
    let n = b.max_ticks as int;
    assert(b.side(Side::Sell) == b.asks);
    lemma_whole_compare(needed, Dec::zero_value());
    if t < n {
        if levels.contains_key(t as usize) {
            lemma_level_lots(b, Side::Sell, t as usize);
            let l = levels[t as usize];
            assert(total_in_step(l));
            let lt = lots(l.orders);
            if o.price matches Some(lp) && tick_price(t as usize).units() > lp.units() {
                lemma_none_cross_up(levels, o, t, n);
            } else {
                assert(crosses(o, tick_price(t as usize)));
                let nd = decimal_difference(needed, l.total_qty);
                assert(nd == Dec { mantissa: (needed.mantissa - lt) as i128, scale: 0 });
                lemma_whole_compare(nd, Dec::zero_value());
                lemma_crossing_mono(b, Side::Sell, o, t + 1, n);
                if nd.mantissa > 0 {
                    lemma_scan_up(b, o, nd, t + 1);
                }
            }
        } else {
            lemma_scan_up(b, o, needed, t + 1);
        }
    }
}

/// The scan of a sell's fill-or-kill check from tick `t` down succeeds
/// exactly when the lots crossing the limit up to `t` cover what is needed.
proof fn lemma_scan_down(b: BookView, o: Order, needed: Dec, t: int)
    requires
        book_consistent(b),
        totals_in_step(b),
        whole_differences_exact(),
        b.max_ticks <= i64::MAX,
        o.side == Side::Sell,
        needed.scale == 0,
        0 < needed.mantissa <= MAX_MANTISSA,
        -1 <= t < b.max_ticks,
    ensures
        fok_scan_down(b.bids.levels, o.price, needed, t) == (needed.mantissa <= crossing_lots(
            b.bids.levels,
            o,
            t + 1,
        )),
    decreases t + 1,
{
    let levels = b.bids.levels;
    assert(b.side(Side::Buy) == b.bids);
    lemma_whole_compare(needed, Dec::zero_value());
    if t >= 0 {
        if levels.contains_key(t as usize) {
            lemma_level_lots(b, Side::Buy, t as usize);
            let l = levels[t as usize];
            assert(total_in_step(l));
            let lt = lots(l.orders);
            if o.price matches Some(lp) && tick_price(t as usize).units() < lp.units() {
                lemma_none_cross_down(levels, o, t);
            } else {
                assert(crosses(o, tick_price(t as usize)));
                let nd = decimal_difference(needed, l.total_qty);
                assert(nd == Dec { mantissa: (needed.mantissa - lt) as i128, scale: 0 });
                lemma_whole_compare(nd, Dec::zero_value());
                lemma_crossing_mono(b, Side::Buy, o, 0, t);
                if nd.mantissa > 0 {
                    lemma_scan_down(b, o, nd, t - 1);
                }
            }
        } else {
            lemma_scan_down(b, o, needed, t - 1);
        }
    }
}

/// The fill-or-kill check passes exactly when the lots resting on the other
/// side at prices crossing the order's limit cover its whole quantity,
/// given that every level's total is in step with its orders and that
/// `rust_decimal` subtracts whole numbers exactly.  So an order the check
/// lets through is one the resting lots could fill completely, and an order
/// it kills is one they could not.
pub proof fn fill_or_kill_counts_crossing_lots(b: BookView, o: Order)
    requires
        book_consistent(b),
        totals_in_step(b),
        whole_differences_exact(),
        b.max_ticks <= i64::MAX,
        o.qty.scale == 0,
        0 < o.qty.mantissa <= MAX_MANTISSA,
    ensures
        b.can_fill_fully(o) == (o.qty.mantissa <= crossing_lots(
            b.side(o.side.opposite()).levels,
            o,
            b.max_ticks as int,
        )),
{
    match o.side {
        Side::Buy => {
            lemma_scan_up(b, o, o.qty, 0);
        },
        Side::Sell => {
            lemma_scan_down(b, o, o.qty, b.max_ticks - 1);
        },
    }
}

// Matching a fill-or-kill order.

/// The crossing lots of two level maps below `n` differ by `d` when their
/// crossing lots differ by `d` at tick `u` and agree at every other tick.
proof fn lemma_crossing_change(
    l1: Map<usize, LevelView>,
    l2: Map<usize, LevelView>,
    o: Order,
    u: int,
    d: int,
    n: int,
)
    requires
        0 <= u,
        forall|v: int| 0 <= v < n && v != u ==> crossing_lots_at(l1, o, v) == crossing_lots_at(
            l2,
            o,
            v,
        ),
        crossing_lots_at(l2, o, u) == crossing_lots_at(l1, o, u) - d,
    ensures
        crossing_lots(l2, o, n) == crossing_lots(l1, o, n) - (if u < n {
            d
        } else {
            0
        }),
    decreases n,
{
    if n > 0 {
        lemma_crossing_change(l1, l2, o, u, d, n - 1);
    }
}

/// No crossing lots at any tick below `n` means no crossing lots below `n`.
proof fn lemma_crossing_zero(levels: Map<usize, LevelView>, o: Order, n: int)
    requires
        forall|v: int| 0 <= v < n ==> crossing_lots_at(levels, o, v) == 0,
    ensures
        crossing_lots(levels, o, n) == 0,
    decreases n,
{
    if n > 0 {
        lemma_crossing_zero(levels, o, n - 1);
    }
}

/// When the matching loop stops on a consistent book while something of a
/// self-trading-allowed order remains, nothing on the other side crosses
/// its limit.
pub proof fn lemma_stop_no_crossing(o: Order, st: MatchState)
    requires
        book_consistent(st.book),
        st.book.max_ticks <= i64::MAX,
        st.remaining.units() != 0,
        o.stp_mode == STPMode::Disabled,
        match_step(o, st) == Step::Stop(st),
    ensures
        crossing_lots(st.book.side(o.side.opposite()).levels, o, st.book.max_ticks as int) == 0,
{
    let side = o.side.opposite();
    let sv = st.book.side(side);
    let n = st.book.max_ticks;
    let q = sv.qty;
    let bt = sv.best as usize;
    assert(side_shape(sv, n));
    lemma_top_facts(sv, side, n);
    lemma_qty_iff_level(sv, side, n, bt as int);
    assert forall|v: int| 0 <= v < n implies crossing_lots_at(sv.levels, o, v) == 0 by {
        lemma_qty_iff_level(sv, side, n, v);
        if sv.levels.contains_key(v as usize) && crosses(o, tick_price(v as usize)) {
            assert(q[v] > 0);
            if q[bt as int] == 0 {
                assert(q[v] == 0);
            } else {
                match side {
                    Side::Sell => {
                        assert(v >= bt);
                        lemma_price_mono(bt, v as usize);
                    },
                    Side::Buy => {
                        assert(v <= bt);
                        lemma_price_mono(v as usize, bt);
                    },
                }
                assert(crosses(o, tick_price(bt)));
                assert(sv.levels[bt].orders.len() > 0);
            }
        }
    }
    lemma_crossing_zero(sv.levels, o, n as int);
}

/// The quantity a trade round fills: what remains of the incoming order or
/// of the oldest order at the other side's best tick, whichever is less.
pub open spec fn round_fill(o: Order, st: MatchState) -> Dec {
    let sv = st.book.side(o.side.opposite());
    let r = sv.levels[sv.best as usize].orders[0].remaining;
    if st.remaining.units() > r.units() {
        r
    } else {
        st.remaining
    }
}

/// `rust_decimal` takes a trade round's fill exactly off what remains of the
/// incoming order and off the resting order.
pub open spec fn trade_exact(o: Order, st: MatchState) -> bool {
    let sv = st.book.side(o.side.opposite());
    &&& exact_whole_difference(st.remaining, round_fill(o, st))
    &&& exact_whole_difference(sv.levels[sv.best as usize].orders[0].remaining, round_fill(o, st))
}

/// A trade round of a self-trading-allowed order on a consistent book takes
/// the same number of lots off what remains of the order and off the lots
/// crossing its limit, given that `rust_decimal` subtracts the fill
/// exactly.
pub proof fn lemma_trade_round(o: Order, st: MatchState)
    requires
        book_consistent(st.book),
        whole_state(st),
        trade_exact(o, st),
        o.stp_mode == STPMode::Disabled,
        match_step(o, st) is Continue,
    ensures
        ({
            let s = match_step(o, st)->Continue_0;
            &&& s.remaining.scale == 0
            &&& crossing_lots(s.book.side(o.side.opposite()).levels, o, st.book.max_ticks as int)
                - s.remaining.mantissa == crossing_lots(
                st.book.side(o.side.opposite()).levels,
                o,
                st.book.max_ticks as int,
            ) - st.remaining.mantissa
        }),
{
    let s = match_step(o, st)->Continue_0;
    let side = o.side.opposite();
    let sv = st.book.side(side);
    let n = st.book.max_ticks;
    let bt = sv.best as usize;
    let l = sv.levels[bt];
    let resting = l.orders[0];
    let r = resting.remaining;
    let rem = st.remaining;
    assert(whole_qty(sv.levels[bt].orders[0].remaining));
    lemma_whole_compare(rem, r);
    lemma_whole_compare(rem, Dec::zero_value());
    let fill = if rem.units() > r.units() {
        r
    } else {
        rem
    };
    assert(s.remaining == decimal_difference(rem, fill));
    assert(s.book == st.book.fill_front(side, bt, fill).0);
    let d = decimal_difference(r, fill);
    assert(d == Dec { mantissa: (r.mantissa - fill.mantissa) as i128, scale: 0 });
    let l1 = l.reduce_front(fill);
    lemma_lots_update(l.orders, 0, l1.orders[0]);
    crate::decimal::lemma_units_sign(d);
    let l2 = if d.units() == 0 {
        l1.pop_front()
    } else {
        l1
    };
    if d.units() == 0 {
        lemma_lots_remove(l1.orders, 0);
        assert(l1.orders.remove(0) =~= l1.orders.drop_first());
    }
    assert(lots(l2.orders) == lots(l.orders) - fill.mantissa);
    let m1 = sv.levels;
    let m2 = s.book.side(side).levels;
    if l2.orders.len() == 0 {
        assert(lots(l2.orders) == 0);
        assert(m2 == m1.remove(bt));
    } else {
        assert(m2 == m1.insert(bt, l2));
    }
    assert forall|v: int| 0 <= v < n && v != bt implies crossing_lots_at(m1, o, v)
        == crossing_lots_at(m2, o, v) by {
        if 0 <= v <= usize::MAX {
            assert(m1.contains_key(v as usize) == m2.contains_key(v as usize));
            if m1.contains_key(v as usize) {
                assert(m1[v as usize] == m2[v as usize]);
            }
        }
    }
    lemma_crossing_change(m1, m2, o, bt as int, fill.mantissa as int, n as int);
}

/// The conditions under which a fill-or-kill order is filled completely or
/// not at all: a consistent book with its level totals in step that the
/// order keeps in step, ticks that fit a signed 64-bit number, an order that
/// lets self-trades happen and has nothing filled yet.
pub open spec fn all_or_nothing_applies(b: BookView, o: Order) -> bool {
    &&& keeps_in_step(b, o)
    &&& totals_in_step(b)
    &&& b.max_ticks <= i64::MAX
    &&& o.order_type == OrderType::FOK
    &&& o.stp_mode == STPMode::Disabled
    &&& o.qty == o.remaining
}

} // verus!
