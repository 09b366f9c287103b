//! The order book: per-side tick arrays of aggregate quantity, FIFO price
//! levels keyed by tick, and an index from order id to its side and tick.
use crate::decimal::{
    can_add, can_mul, dec_add, dec_mul, dec_sub, dec_to_u64, decimal_difference, decimal_product, decimal_sum,
    difference_fits, exact_product_units, exact_whole_difference, lemma_pow10_add, lemma_pow10_pos,
    product_representable, product_whole, lemma_units_sign, lemma_zero_representable,
    pow10, max_scale, product_fits, representable_at, sum_fits, Dec,
    MAX_MANTISSA,
};
use crate::totals::{cancel_keeps_totals, exact_whole_sum, insert_keeps_totals, totals_in_step};
use crate::priority::{
    best_prices_are_extreme_levels, book_consistent, cancel_keeps_consistency, depth_reports_levels,
    highest_level_price, insert_keeps_consistency, keeps_in_step, lemma_empty_book_consistent,
    levels_down, levels_up, lowest_level_price,
};
use crate::types::{BookLevel, Order, Side};
use std::collections::HashMap;
use std::collections::VecDeque;
use vstd::prelude::*;

verus! {

broadcast use vstd::std_specs::hash::group_hash_axioms;

/// The number 100.
pub open spec fn hundred() -> Dec {
    Dec { mantissa: 100, scale: 0 }
}

/// A price times 100, as `rust_decimal` computes it.
pub open spec fn scaled_price(p: Dec) -> Dec {
    decimal_product(p, hundred())
}

/// A price can be turned into a tick without overflow.
pub open spec fn price_tick_ok(p: Dec) -> bool {
    p.wf() && product_fits(p, hundred())
}

/// The tick of a price: its value times 100 rounded toward zero, or 0 when
/// that is negative or does not fit in 64 bits.
pub open spec fn price_tick(p: Dec) -> usize {
    match scaled_price(p).to_u64_spec() {
        Some(t) => t as usize,
        None => 0,
    }
}

/// The price of a tick: the tick as a number with two decimal places.
pub open spec fn tick_price(t: usize) -> Dec {
    Dec { mantissa: (t as i64) as i128, scale: 2 }
}

/// The whole units of a quantity that a tick array counts: its integer part,
/// or 0 when it is negative or does not fit in 64 bits.
pub open spec fn tick_qty(d: Dec) -> u64 {
    match d.to_u64_spec() {
        Some(q) => q,
        None => 0,
    }
}

/// The price is a whole number of hundredths, a number a tick's price can
/// hold and a `usize` can count.
pub open spec fn whole_cents(p: Dec) -> bool {
    &&& 0 <= p.units()
    &&& p.units() % pow10(26) == 0
    &&& p.units() <= i64::MAX * pow10(26)
    &&& p.units() <= usize::MAX * pow10(26)
}

/// A price times 100 can be computed exactly: with two decimal places fewer
/// when it has at least two, and as a whole number otherwise.
pub proof fn lemma_cents_exact(p: Dec)
    requires
        p.wf(),
    ensures
        product_representable(p, hundred()) || product_whole(p, hundred()),
        exact_product_units(p, hundred()) == p.units() * 100,
{
    let h = hundred();
    let s = p.scale as nat;
    let q28 = pow10(28);
    lemma_pow10_pos(28);
    assert(h.units() == 100 * q28);
    let u = p.units() * h.units();
    assert(u == (p.units() * 100) * q28) by (nonlinear_arith)
        requires
            u == p.units() * h.units(),
            h.units() == 100 * q28,
    ;
    assert(u / q28 == p.units() * 100) by (nonlinear_arith)
        requires
            u == (p.units() * 100) * q28,
            q28 > 0,
    ;
    assert(u % q28 == 0) by (nonlinear_arith)
        requires
            u == (p.units() * 100) * q28,
            q28 > 0,
    ;
    assert(pow10(2) == 100) by {
        assert(pow10(0) == 1);
        assert(pow10(1) == 10 * pow10(0));
        assert(pow10(2) == 10 * pow10(1));
    }
    if s >= 2 {
        let e = (30 - s) as nat;
        lemma_pow10_add(2, (28 - s) as nat);
        lemma_pow10_pos(e);
        assert(p.units() * 100 == p.mantissa * pow10(e)) by (nonlinear_arith)
            requires
                p.units() == p.mantissa * pow10((28 - s) as nat),
                pow10(e) == pow10(2) * pow10((28 - s) as nat),
                pow10(2) == 100,
        ;
        assert((p.mantissa * pow10(e)) % pow10(e) == 0 && (p.mantissa * pow10(e)) / pow10(e)
            == p.mantissa) by (nonlinear_arith)
            requires
                pow10(e) > 0,
        ;
        assert(representable_at(exact_product_units(p, h), (s - 2) as nat));
    } else {
        let k = (2 - s) as nat;
        lemma_pow10_add(k, 28);
        lemma_pow10_add(2, (28 - s) as nat);
        lemma_pow10_add(k, 28 + 28);
        lemma_pow10_add(28, 28);
        assert((30 - s) as nat == k + 28);
        assert(p.units() * 100 == p.mantissa * pow10(k) * q28) by (nonlinear_arith)
            requires
                p.units() == p.mantissa * pow10((28 - s) as nat),
                pow10((2 + (28 - s)) as nat) == pow10(2) * pow10((28 - s) as nat),
                pow10((k + 28) as nat) == pow10(k) * q28,
                (2 + (28 - s)) as nat == (k + 28) as nat,
                pow10(2) == 100,
        ;
        assert(u == (p.mantissa * pow10(k)) * pow10(56)) by (nonlinear_arith)
            requires
                u == (p.units() * 100) * q28,
                p.units() * 100 == p.mantissa * pow10(k) * q28,
                pow10(56) == q28 * q28,
        ;
        lemma_pow10_pos(56);
        assert(u % pow10(56) == 0) by (nonlinear_arith)
            requires
                u == (p.mantissa * pow10(k)) * pow10(56),
                pow10(56) > 0,
        ;
    }
}

/// Converts a price to its tick (hundredths, rounded toward zero).  A price
/// of whole hundredths comes back from its tick unchanged in value.
pub fn price_to_tick(price: Dec) -> (t: usize)
    requires
        price_tick_ok(price),
    ensures
        t == price_tick(price),
        whole_cents(price) ==> tick_price(t).units() == price.units(),
{
    let scaled = dec_mul(price, Dec::new(100, 0));
    proof {
        if whole_cents(price) {
            let q = pow10(26);
            let c = price.units() / q;
            lemma_pow10_pos(26);
            lemma_pow10_pos((28 - price.scale) as nat);
            lemma_units_sign(price);
            assert(pow10(28) == 100 * q) by {
                assert(pow10(27) == 10 * pow10(26));
            }
            assert(price.units() == c * q) by (nonlinear_arith)
                requires
                    price.units() % q == 0,
                    c == price.units() / q,
                    q > 0,
            ;
            lemma_cents_exact(price);
            assert(scaled.units() == price.units() * 100);
            assert(scaled.units() == c * pow10(28)) by (nonlinear_arith)
                requires
                    scaled.units() == price.units() * 100,
                    price.units() == c * q,
                    pow10(28) == 100 * q,
            ;
            assert(scaled.units() / pow10(28) == c) by (nonlinear_arith)
                requires
                    scaled.units() == c * pow10(28),
                    pow10(28) > 0,
            ;
            assert(0 <= c <= i64::MAX && c <= usize::MAX) by (nonlinear_arith)
                requires
                    price.units() == c * q,
                    0 <= price.units() <= i64::MAX * q,
                    price.units() <= usize::MAX * q,
                    q > 0,
            ;
            assert((c as i64) as i128 == c);
        }
    }
    match dec_to_u64(scaled) {
        Some(v) => v as usize,
        None => 0,
    }
}

/// Converts a tick to its price.
pub fn tick_to_decimal(tick: usize) -> (d: Dec)
    ensures
        d == tick_price(tick),
        d.wf(),
{
    Dec::new(tick as i64, 2)
}

/// The whole units of a quantity that a tick array counts.
pub fn decimal_to_tick_qty(d: Dec) -> (q: u64)
    requires
        d.wf(),
    ensures
        q == tick_qty(d),
{
    match dec_to_u64(d) {
        Some(v) => v,
        None => 0,
    }
}

/// Where a downward search for quantity that starts at tick `t` ends: the
/// highest tick at or below `t` that holds quantity, or 0 when none does.
pub open spec fn bid_search(q: Seq<u64>, t: int) -> int
    decreases t,
{
    if t <= 0 {
        0
    } else if q[t] > 0 {
        t
    } else {
        bid_search(q, t - 1)
    }
}

/// Where an upward search for quantity that starts at tick `t` ends: the
/// lowest tick at or above `t` that holds quantity, or the last tick when
/// none does.
pub open spec fn ask_search(q: Seq<u64>, t: int) -> int
    decreases q.len() - t,
{
    if t >= q.len() - 1 {
        q.len() - 1
    } else if q[t] > 0 {
        t
    } else {
        ask_search(q, t + 1)
    }
}

/// No tick in `(lo, hi]` of `q` holds quantity.
pub open spec fn no_qty_between(q: Seq<u64>, lo: int, hi: int) -> bool {
    forall|t: int| lo < t <= hi ==> #[trigger] q[t] == 0
}

/// A downward search ends at the highest tick at or below its start that
/// holds quantity; when no tick holds any, at tick 0.
pub proof fn lemma_bid_search_is_highest(q: Seq<u64>, t: int)
    requires
        0 <= t < q.len(),
    ensures
        0 <= bid_search(q, t) <= t,
        no_qty_between(q, bid_search(q, t), t),
        q[bid_search(q, t)] > 0 || no_qty_between(q, -1, t),
    decreases t,
{
    if t > 0 && q[t] == 0 {
        lemma_bid_search_is_highest(q, t - 1);
    }
}

/// An upward search ends at the lowest tick at or above its start that
/// holds quantity; when no tick holds any, at the last tick.
pub proof fn lemma_ask_search_is_lowest(q: Seq<u64>, t: int)
    requires
        0 <= t < q.len(),
    ensures
        t <= ask_search(q, t) < q.len(),
        no_qty_between(q, t - 1, ask_search(q, t) - 1),
        q[ask_search(q, t)] > 0 || no_qty_between(q, t - 1, q.len() - 1),
    decreases q.len() - t,
{
    if t < q.len() - 1 && q[t] == 0 {
        lemma_ask_search_is_lowest(q, t + 1);
    }
}

/// The counters and best tick of a tick array.
pub struct Ticks {
    pub qty: Seq<u64>,
    pub best: u64,
}

/// An operation on a tick array, named after the method that performs it.
pub enum TickOp {
    Add(usize, u64),
    Sub(usize, u64),
    SetBest(usize),
    UpdateBestBid,
    UpdateBestAsk,
}

impl TickArray {
    /// The counters and best tick.
    pub open spec fn ticks(&self) -> Ticks {
        Ticks { qty: self.qty@, best: self.best_tick }
    }
}

/// What an operation leaves of a tick array.
pub open spec fn tick_step(a: Ticks, op: TickOp) -> Ticks {
    match op {
        TickOp::Add(t, amount) => Ticks {
            qty: a.qty.update(t as int, a.qty[t as int].wrapping_add(amount)),
            ..a
        },
        TickOp::Sub(t, amount) => Ticks {
            qty: a.qty.update(t as int, a.qty[t as int].wrapping_sub(amount)),
            ..a
        },
        TickOp::SetBest(t) => Ticks { best: t as u64, ..a },
        TickOp::UpdateBestBid => Ticks { best: bid_search(a.qty, a.best as int) as u64, ..a },
        TickOp::UpdateBestAsk => Ticks { best: ask_search(a.qty, a.best as int) as u64, ..a },
    }
}

/// The operation's method accepts the array: the tick it names, or the best
/// tick it starts from, is among the counters.
pub open spec fn tick_step_ok(a: Ticks, op: TickOp) -> bool {
    match op {
        TickOp::Add(t, _) => t < a.qty.len(),
        TickOp::Sub(t, _) => t < a.qty.len(),
        TickOp::SetBest(_) => true,
        TickOp::UpdateBestBid => a.best < a.qty.len(),
        TickOp::UpdateBestAsk => a.best < a.qty.len(),
    }
}

/// A tick array after a sequence of operations, the first applied first.
pub open spec fn tick_run(a: Ticks, ops: Seq<TickOp>) -> Ticks
    decreases ops.len(),
{
    if ops.len() == 0 {
        a
    } else {
        tick_step(tick_run(a, ops.drop_last()), ops.last())
    }
}

/// Each operation of the sequence is accepted where it comes.
pub open spec fn tick_run_ok(a: Ticks, ops: Seq<TickOp>) -> bool
    decreases ops.len(),
{
    ops.len() > 0 ==> tick_run_ok(a, ops.drop_last()) && tick_step_ok(
        tick_run(a, ops.drop_last()),
        ops.last(),
    )
}

/// The number of ticks never changes: whatever sequence of accepted
/// operations a tick array made by `TickArray::new(n, b)` goes through, it
/// still has `n` ticks.
pub proof fn tick_count_never_changes(n: usize, b: u64, ops: Seq<TickOp>)
    requires
        tick_run_ok(Ticks { qty: Seq::new(n as nat, |i: int| 0u64), best: b }, ops),
    ensures
        tick_run(Ticks { qty: Seq::new(n as nat, |i: int| 0u64), best: b }, ops).qty.len() == n,
    decreases ops.len(),
{
    if ops.len() > 0 {
        tick_count_never_changes(n, b, ops.drop_last());
    }
}

/// Aggregate resting quantity per price tick, with a cached best tick.
#[derive(Clone)]
pub struct TickArray {
    pub qty: Vec<u64>,
    pub best_tick: u64,
}

impl TickArray {
    /// An array of `max_ticks` empty ticks whose best tick is
    /// `initial_best_tick`.
    pub fn new(max_ticks: usize, initial_best_tick: u64) -> (r: TickArray)
        ensures
            r.qty@ == Seq::new(max_ticks as nat, |i: int| 0u64),
            r.best_tick == initial_best_tick,
    {
        let mut qty: Vec<u64> = Vec::new();
        let mut i: usize = 0;
        while i < max_ticks
            invariant
                i <= max_ticks,
                qty@ == Seq::new(i as nat, |j: int| 0u64),
            decreases max_ticks - i,
        {
            qty.push(0);
            i = i + 1;
        }
        TickArray { qty, best_tick: initial_best_tick }
    }

    /// Number of ticks.
    pub fn len(&self) -> (n: usize)
        ensures
            n == self.qty@.len(),
    {
        self.qty.len()
    }

    /// Adds `amount` at `tick`, wrapping around on overflow as an atomic
    /// fetch-add does.
    pub fn add_qty(&mut self, tick: usize, amount: u64)
        requires
            tick < old(self).qty@.len(),
        ensures
            final(self).qty@ == old(self).qty@.update(
                tick as int,
                old(self).qty@[tick as int].wrapping_add(amount),
            ),
            final(self).best_tick == old(self).best_tick,
            final(self).qty@.len() == old(self).qty@.len(),
            final(self).ticks() == tick_step(old(self).ticks(), TickOp::Add(tick, amount)),
    {
        let cur = self.qty[tick];
        self.qty.set(tick, cur.wrapping_add(amount));
    }

    /// Takes `amount` away at `tick`, wrapping around on underflow as an
    /// atomic fetch-sub does.
    pub fn sub_qty(&mut self, tick: usize, amount: u64)
        requires
            tick < old(self).qty@.len(),
        ensures
            final(self).qty@ == old(self).qty@.update(
                tick as int,
                old(self).qty@[tick as int].wrapping_sub(amount),
            ),
            final(self).best_tick == old(self).best_tick,
            final(self).qty@.len() == old(self).qty@.len(),
            final(self).ticks() == tick_step(old(self).ticks(), TickOp::Sub(tick, amount)),
    {
        let cur = self.qty[tick];
        self.qty.set(tick, cur.wrapping_sub(amount));
    }

    /// Quantity at `tick`.
    pub fn get_qty(&self, tick: usize) -> (q: u64)
        requires
            tick < self.qty@.len(),
        ensures
            q == self.qty@[tick as int],
    {
        self.qty[tick]
    }

    /// Sets the best tick.
    pub fn set_best_tick(&mut self, tick: usize)
        ensures
            final(self).best_tick == tick as u64,
            final(self).qty@ == old(self).qty@,
            final(self).ticks() == tick_step(old(self).ticks(), TickOp::SetBest(tick)),
    {
        self.best_tick = tick as u64;
    }

    /// The best tick.
    pub fn get_best_tick(&self) -> (t: usize)
        ensures
            t == self.best_tick as usize,
    {
        self.best_tick as usize
    }

    /// Moves the best tick down from where it is to the highest tick holding
    /// quantity, or to 0 when no tick at or below it holds any.
    pub fn update_best_bid(&mut self)
        requires
            old(self).best_tick < old(self).qty@.len(),
        ensures
            final(self).qty@ == old(self).qty@,
            final(self).best_tick == bid_search(old(self).qty@, old(self).best_tick as int),
            final(self).ticks() == tick_step(old(self).ticks(), TickOp::UpdateBestBid),
    {
        let ghost start = self.best_tick as int;
        let n = self.len();
        let mut tick = self.get_best_tick();
        assert(tick as int == start);
        loop
            invariant
                0 <= tick <= start,
                start < n,
                n == self.qty@.len(),
                start == old(self).best_tick,
                self.qty@ == old(self).qty@,
                bid_search(self.qty@, start) == bid_search(self.qty@, tick as int),
            ensures
                self.qty@ == old(self).qty@,
                bid_search(self.qty@, start) == 0,
            decreases tick,
        {
            if self.get_qty(tick) > 0 {
                self.set_best_tick(tick);
                return;
            }
            if tick == 0 {
                break;
            }
            tick = tick - 1;
        }
        self.set_best_tick(0);
    }

    /// Moves the best tick up from where it is to the lowest tick holding
    /// quantity, or to the last tick when no tick at or above it holds any.
    pub fn update_best_ask(&mut self)
        requires
            old(self).best_tick < old(self).qty@.len(),
        ensures
            final(self).qty@ == old(self).qty@,
            final(self).best_tick == ask_search(old(self).qty@, old(self).best_tick as int),
            final(self).ticks() == tick_step(old(self).ticks(), TickOp::UpdateBestAsk),
    {
        let max = self.len();
        let ghost start = self.best_tick as int;
        let mut tick = self.get_best_tick();
        assert(tick as int == start);
        loop
            invariant_except_break
                start <= tick < max,
                ask_search(self.qty@, start) == ask_search(self.qty@, tick as int),
            invariant
                max == self.qty@.len(),
                start == old(self).best_tick,
                self.qty@ == old(self).qty@,
            ensures
                self.qty@ == old(self).qty@,
                max == self.qty@.len(),
                ask_search(self.qty@, start) == max - 1,
            decreases max - tick,
        {
            if self.get_qty(tick) > 0 {
                self.set_best_tick(tick);
                return;
            }
            tick = tick + 1;
            if tick >= max {
                break;
            }
        }
        self.set_best_tick(max.saturating_sub(1));
    }
}


/// The contents of a price level: its orders in time priority and their
/// total remaining quantity.
pub struct LevelView {
    pub orders: Seq<Order>,
    pub total_qty: Dec,
}

/// A level with no orders.
pub open spec fn empty_level() -> LevelView {
    LevelView { orders: Seq::empty(), total_qty: Dec::zero_value() }
}

/// The order with its remaining quantity replaced.
pub open spec fn with_remaining(o: Order, r: Dec) -> Order {
    Order {
        id: o.id,
        instrument_id: o.instrument_id,
        participant_id: o.participant_id,
        side: o.side,
        order_type: o.order_type,
        price: o.price,
        qty: o.qty,
        remaining: r,
        status: o.status,
        ts: o.ts,
        stp_mode: o.stp_mode,
    }
}

/// The position of the first order with id `id`, or -1.
pub open spec fn find_id(s: Seq<Order>, id: u128) -> int
    decreases s.len(),
{
    if s.len() == 0 {
        -1
    } else if s[0].id == id {
        0
    } else {
        let k = find_id(s.drop_first(), id);
        if k < 0 {
            -1
        } else {
            k + 1
        }
    }
}

/// `find_id` is -1 or a position holding the id.
pub proof fn lemma_find_id_bounds(s: Seq<Order>, id: u128)
    ensures
        -1 <= find_id(s, id) < s.len(),
        find_id(s, id) >= 0 ==> s[find_id(s, id)].id == id,
    decreases s.len(),
{
    if s.len() > 0 && s[0].id != id {
        lemma_find_id_bounds(s.drop_first(), id);
    }
}

/// Some order holds the id.
pub open spec fn has_id(s: Seq<Order>, id: u128) -> bool {
    exists|j: int| 0 <= j < s.len() && (#[trigger] s[j]).id == id
}

/// `find_id` finds a position exactly when some order holds the id.
pub proof fn lemma_find_id_has_id(s: Seq<Order>, id: u128)
    ensures
        (find_id(s, id) >= 0) == has_id(s, id),
    decreases s.len(),
{
    lemma_find_id_bounds(s, id);
    if s.len() > 0 && s[0].id != id {
        lemma_find_id_has_id(s.drop_first(), id);
        if has_id(s, id) {
            let j = choose|j: int| 0 <= j < s.len() && (#[trigger] s[j]).id == id;
            assert(s.drop_first()[j - 1] == s[j]);
        }
        if has_id(s.drop_first(), id) {
            let j = choose|j: int| 0 <= j < s.len() - 1 && (#[trigger] s.drop_first()[j]).id == id;
            assert(s.drop_first()[j] == s[j + 1]);
        }
    }
}

/// `find_id` is the first position holding the id.
pub proof fn lemma_find_id(s: Seq<Order>, id: u128, i: int)
    requires
        0 <= i <= s.len(),
        forall|j: int| 0 <= j < i ==> #[trigger] s[j].id != id,
    ensures
        i < s.len() && s[i].id == id ==> find_id(s, id) == i,
        i == s.len() ==> find_id(s, id) == -1,
    decreases s.len(),
{
    if s.len() > 0 && i > 0 {
        assert forall|j: int| 0 <= j < i - 1 implies #[trigger] s.drop_first()[j].id != id by {
            assert(s.drop_first()[j] == s[j + 1]);
        }
        lemma_find_id(s.drop_first(), id, i - 1);
        if i < s.len() {
            assert(s.drop_first()[i - 1] == s[i]);
        }
    }
}

impl LevelView {
    /// Every number in the level is well formed.
    pub open spec fn wf(self) -> bool {
        &&& self.total_qty.wf()
        &&& forall|i: int| 0 <= i < self.orders.len() ==> (#[trigger] self.orders[i]).wf()
    }

    /// The level after its first order leaves: the order's remaining
    /// quantity is taken off the total.
    pub open spec fn pop_front(self) -> LevelView {
        LevelView {
            orders: self.orders.drop_first(),
            total_qty: decimal_difference(self.total_qty, self.orders[0].remaining),
        }
    }

    /// The first order can leave without overflow.
    pub open spec fn pop_front_ok(self) -> bool {
        self.orders.len() > 0 ==> difference_fits(self.total_qty, self.orders[0].remaining)
    }

    /// The level after `q` is taken off its first order and off the total.
    pub open spec fn reduce_front(self, q: Dec) -> LevelView {
        LevelView {
            orders: self.orders.update(
                0,
                with_remaining(
                    self.orders[0],
                    decimal_difference(self.orders[0].remaining, q),
                ),
            ),
            total_qty: decimal_difference(self.total_qty, q),
        }
    }

    /// `q` can be taken off the first order and the total without overflow.
    pub open spec fn reduce_front_ok(self, q: Dec) -> bool {
        self.orders.len() > 0 ==> {
            &&& difference_fits(self.orders[0].remaining, q)
            &&& difference_fits(self.total_qty, q)
        }
    }

    /// The level after the order at position `k` leaves.
    pub open spec fn remove_at(self, k: int) -> LevelView {
        LevelView {
            orders: self.orders.remove(k),
            total_qty: decimal_difference(self.total_qty, self.orders[k].remaining),
        }
    }

    /// The level after `o` joins at the back.
    pub open spec fn push_back(self, o: Order) -> LevelView {
        LevelView {
            orders: self.orders.push(o),
            total_qty: decimal_sum(self.total_qty, o.remaining),
        }
    }
}

/// The orders resting at one price, oldest first.
#[derive(Clone)]
pub struct PriceLevel {
    pub orders: VecDeque<Order>,
    pub total_qty: Dec,
}

impl View for PriceLevel {
    type V = LevelView;

    open spec fn view(&self) -> LevelView {
        LevelView { orders: self.orders@, total_qty: self.total_qty }
    }
}

impl PriceLevel {
    /// An empty level.
    pub fn new() -> (r: PriceLevel)
        ensures
            r@ == empty_level(),
    {
        PriceLevel { orders: VecDeque::new(), total_qty: Dec::zero() }
    }

    /// The level has no orders.
    pub fn is_empty(&self) -> (b: bool)
        ensures
            b == (self@.orders.len() == 0),
    {
        self.orders.len() == 0
    }

    /// The oldest order, if any.
    pub fn front(&self) -> (r: Option<&Order>)
        ensures
            (r is None) == (self@.orders.len() == 0),
            r matches Some(o) ==> *o == self@.orders[0],
    {
        if self.orders.len() > 0 {
            Some(&self.orders[0])
        } else {
            None
        }
    }

    /// Takes the oldest order out of the level; its remaining quantity
    /// leaves the total.
    pub fn pop_front(&mut self) -> (r: Option<Order>)
        requires
            old(self)@.wf(),
            old(self)@.pop_front_ok(),
        ensures
            old(self)@.orders.len() == 0 ==> r is None && final(self)@ == old(self)@,
            old(self)@.orders.len() > 0 ==> r == Some(old(self)@.orders[0]) && final(self)@
                == old(self)@.pop_front(),
            final(self)@.wf(),
            old(self)@.orders.len() > 0 ==> exact_whole_difference(
                old(self)@.total_qty,
                old(self)@.orders[0].remaining,
            ),
    {
        match self.orders.pop_front() {
            Some(order) => {
                self.total_qty = dec_sub(self.total_qty, order.remaining);
                proof {
                    assert(self@.orders =~= old(self)@.orders.drop_first());
                    assert forall|i: int| 0 <= i < self@.orders.len() implies (
                    #[trigger] self@.orders[i]).wf() by {
                        assert(self@.orders[i] == old(self)@.orders[i + 1]);
                    }
                }
                Some(order)
            },
            None => None,
        }
    }

    /// Takes `qty` off the oldest order's remaining quantity and off the
    /// total; nothing happens to an empty level.
    pub fn reduce_front_remaining(&mut self, qty: Dec)
        requires
            old(self)@.wf(),
            qty.wf(),
            old(self)@.reduce_front_ok(qty),
        ensures
            old(self)@.orders.len() == 0 ==> final(self)@ == old(self)@,
            old(self)@.orders.len() > 0 ==> final(self)@ == old(self)@.reduce_front(qty),
            old(self)@.orders.len() > 0 && old(self)@.orders[0].remaining.units() == qty.units()
                ==> final(self)@.orders[0].remaining.units() == 0,
            old(self)@.orders.len() > 0 ==> exact_whole_difference(
                old(self)@.orders[0].remaining,
                qty,
            ),
            final(self)@.wf(),
            old(self)@.orders.len() > 0 ==> exact_whole_difference(old(self)@.total_qty, qty),
    {
        if self.orders.len() > 0 {
            let mut front = self.orders.pop_front().unwrap();
            proof {
                let ms = max_scale(front.remaining, qty);
                lemma_zero_representable(ms);
            }
            front.remaining = dec_sub(front.remaining, qty);
            self.orders.push_front(front);
            self.total_qty = dec_sub(self.total_qty, qty);
            proof {
                assert(self@.orders =~= old(self)@.reduce_front(qty).orders);
                assert forall|i: int| 0 <= i < self@.orders.len() implies (
                #[trigger] self@.orders[i]).wf() by {
                    if i > 0 {
                        assert(self@.orders[i] == old(self)@.orders[i]);
                    }
                }
            }
        }
    }

    /// Takes the first order with id `order_id` out of the level; its
    /// remaining quantity leaves the total.
    pub fn remove_order(&mut self, order_id: u128) -> (r: Option<Order>)
        requires
            old(self)@.wf(),
            0 <= find_id(old(self)@.orders, order_id) < old(self)@.orders.len() ==> difference_fits(
                old(self)@.total_qty,
                old(self)@.orders[find_id(old(self)@.orders, order_id)].remaining,
            ),
        ensures
            find_id(old(self)@.orders, order_id) < 0 ==> r is None && final(self)@ == old(
                self,
            )@,
            find_id(old(self)@.orders, order_id) >= 0 ==> r == Some(
                old(self)@.orders[find_id(old(self)@.orders, order_id)],
            ) && final(self)@ == old(self)@.remove_at(find_id(old(self)@.orders, order_id)),
            final(self)@.wf(),
            find_id(old(self)@.orders, order_id) >= 0 ==> exact_whole_difference(
                old(self)@.total_qty,
                old(self)@.orders[find_id(old(self)@.orders, order_id)].remaining,
            ),
    {
        let n = self.orders.len();
        let mut pos: usize = 0;
        while pos < n
            invariant
                n == self@.orders.len(),
                pos <= n,
                self@ == old(self)@,
                forall|j: int| 0 <= j < pos ==> #[trigger] self@.orders[j].id != order_id,
            ensures
                pos <= n,
                self@ == old(self)@,
                forall|j: int| 0 <= j < pos ==> #[trigger] self@.orders[j].id != order_id,
                pos < n ==> self@.orders[pos as int].id == order_id,
            decreases n - pos,
        {
            if self.orders[pos].id == order_id {
                break;
            }
            pos = pos + 1;
        }
        proof {
            lemma_find_id(self@.orders, order_id, pos as int);
            lemma_find_id_bounds(self@.orders, order_id);
        }
        if pos == n {
            return None;
        }
        let order = self.orders.remove(pos).unwrap();
        self.total_qty = dec_sub(self.total_qty, order.remaining);
        proof {
            assert forall|i: int| 0 <= i < self@.orders.len() implies (
            #[trigger] self@.orders[i]).wf() by {
                if i < pos {
                    assert(self@.orders[i] == old(self)@.orders[i]);
                } else {
                    assert(self@.orders[i] == old(self)@.orders[i + 1]);
                }
            }
        }
        Some(order)
    }
}


/// One side of a book: quantity per tick, the cached best tick, and the
/// levels by tick.
pub struct SideView {
    pub qty: Seq<u64>,
    pub best: u64,
    pub levels: Map<usize, LevelView>,
}

/// The contents of a book.
pub struct BookView {
    pub max_ticks: nat,
    pub bids: SideView,
    pub asks: SideView,
    pub index: Map<u128, (Side, usize)>,
}

/// The level at `tick`, or an empty one.
pub open spec fn level_or_empty(sv: SideView, tick: usize) -> LevelView {
    if sv.levels.contains_key(tick) {
        sv.levels[tick]
    } else {
        empty_level()
    }
}

/// Where the best tick of a side moves after its level at the best tick
/// emptied: down for bids, up for asks.
pub open spec fn search_best(side: Side, q: Seq<u64>, start: u64) -> u64 {
    match side {
        Side::Buy => bid_search(q, start as int) as u64,
        Side::Sell => ask_search(q, start as int) as u64,
    }
}

/// The best tick of a side after an order joins at `tick`: the new tick
/// when it improves on the best one or the best one holds no quantity.
pub open spec fn best_after_insert(side: Side, best: u64, tick: usize, q: Seq<u64>) -> u64 {
    let b = best as usize;
    let better = match side {
        Side::Buy => tick > b,
        Side::Sell => tick < b,
    };
    if better || q[b as int] == 0 {
        tick as u64
    } else {
        best
    }
}

impl SideView {
    /// Every tick array has `max_ticks` entries, the best tick is one of
    /// them, every level is at one of them and holds well-formed orders.
    pub open spec fn wf(self, max_ticks: nat) -> bool {
        &&& self.qty.len() == max_ticks
        &&& max_ticks > 0 ==> self.best < max_ticks
        &&& forall|t: usize| #[trigger] self.levels.contains_key(t) ==> t < max_ticks
            && self.levels[t].wf() && self.levels[t].orders.len() > 0
    }
}

impl BookView {
    /// One side of the book.
    pub open spec fn side(self, s: Side) -> SideView {
        match s {
            Side::Buy => self.bids,
            Side::Sell => self.asks,
        }
    }

    /// The book with one side replaced.
    pub open spec fn with_side(self, s: Side, v: SideView) -> BookView {
        match s {
            Side::Buy => BookView { bids: v, ..self },
            Side::Sell => BookView { asks: v, ..self },
        }
    }

    /// Both sides are well formed, and every indexed order rests in the
    /// level its index entry names.
    pub open spec fn wf(self) -> bool {
        &&& self.max_ticks <= usize::MAX
        &&& self.bids.wf(self.max_ticks)
        &&& self.asks.wf(self.max_ticks)
        &&& forall|id: u128| #[trigger]
            self.index.contains_key(id) ==> {
                let (s, t) = self.index[id];
                &&& self.side(s).levels.contains_key(t)
                &&& find_id(self.side(s).levels[t].orders, id) >= 0
            }
    }

    /// An order can be inserted without a panic or an overflow: its price
    /// converts to a tick within the book and the level total stays in
    /// range.
    pub open spec fn insert_ok(self, o: Order) -> bool {
        o.price matches Some(p) ==> {
            &&& price_tick_ok(p)
            &&& price_tick(p) < self.max_ticks
            &&& sum_fits(level_or_empty(self.side(o.side), price_tick(p)).total_qty, o.remaining)
        }
    }

    /// The book after inserting an order: nothing for an order without a
    /// price; otherwise the order joins the back of its level, its whole
    /// units join the tick, the best tick moves to it when that improves or
    /// the best tick is empty, and the index records it.
    pub open spec fn insert(self, o: Order) -> BookView {
        match o.price {
            None => self,
            Some(p) => {
                let tick = price_tick(p);
                let sv = self.side(o.side);
                let level = level_or_empty(sv, tick).push_back(o);
                let q = sv.qty.update(tick as int, sv.qty[tick as int].wrapping_add(tick_qty(o.remaining)));
                let sv2 = SideView {
                    qty: q,
                    best: best_after_insert(o.side, sv.best, tick, q),
                    levels: sv.levels.insert(tick, level),
                };
                BookView { index: self.index.insert(o.id, (o.side, tick)), ..self.with_side(o.side, sv2) }
            },
        }
    }

    /// The order with id `id` can be cancelled without overflow.
    pub open spec fn cancel_ok(self, id: u128) -> bool {
        self.index.contains_key(id) ==> {
            let (s, t) = self.index[id];
            let l = self.side(s).levels[t];
            difference_fits(l.total_qty, l.orders[find_id(l.orders, id)].remaining)
        }
    }

    /// The side after the order at position `k` of the level at `tick`
    /// leaves: its whole units leave the tick, an emptied level goes away,
    /// and when that level was at the best tick the best tick is searched
    /// for again.
    pub open spec fn side_after_removal(sv: SideView, side: Side, tick: usize, k: int) -> SideView {
        let l = sv.levels[tick];
        let o = l.orders[k];
        let l2 = l.remove_at(k);
        let q = sv.qty.update(tick as int, sv.qty[tick as int].wrapping_sub(tick_qty(o.remaining)));
        if l2.orders.len() == 0 {
            SideView {
                qty: q,
                best: if sv.best as usize == tick {
                    search_best(side, q, sv.best)
                } else {
                    sv.best
                },
                levels: sv.levels.remove(tick),
            }
        } else {
            SideView { qty: q, best: sv.best, levels: sv.levels.insert(tick, l2) }
        }
    }

    /// The book after cancelling `id` (when it is indexed, its entry leaves
    /// the index and the order leaves its level), and the cancelled order.
    pub open spec fn cancel(self, id: u128) -> (BookView, Option<Order>) {
        if !self.index.contains_key(id) {
            (self, None)
        } else {
            let (s, t) = self.index[id];
            let b1 = BookView { index: self.index.remove(id), ..self };
            let sv = self.side(s);
            if !sv.levels.contains_key(t) || find_id(sv.levels[t].orders, id) < 0 {
                (b1, None)
            } else {
                let k = find_id(sv.levels[t].orders, id);
                (
                    b1.with_side(s, BookView::side_after_removal(sv, s, t, k)),
                    Some(sv.levels[t].orders[k]),
                )
            }
        }
    }

    /// The best price of a side: the price of the best tick when it holds
    /// quantity.
    pub open spec fn best_price(self, s: Side) -> Option<Dec> {
        let sv = self.side(s);
        if sv.qty[sv.best as usize as int] > 0 {
            Some(tick_price(sv.best as usize))
        } else {
            None
        }
    }
}

/// The depth entry of a tick: its price, its quantity as a whole number,
/// and the number of orders in its level.
pub open spec fn depth_entry(sv: SideView, t: usize) -> BookLevel {
    BookLevel {
        price: tick_price(t),
        qty: Dec { mantissa: (sv.qty[t as int] as i64) as i128, scale: 0 },
        order_count: if sv.levels.contains_key(t) {
            sv.levels[t].orders.len() as u32
        } else {
            0
        },
    }
}

/// Depth entries met scanning down from tick `t`: each tick holding
/// quantity gives one, until `want` of them are gathered in all (at least
/// one) or tick 0 has been scanned.
pub open spec fn depth_down(sv: SideView, t: int, got: nat, want: nat) -> Seq<BookLevel>
    decreases t + 1,
{
    if t < 0 {
        Seq::empty()
    } else if sv.qty[t] > 0 {
        if got + 1 >= want {
            seq![depth_entry(sv, t as usize)]
        } else {
            seq![depth_entry(sv, t as usize)] + depth_down(sv, t - 1, got + 1, want)
        }
    } else {
        depth_down(sv, t - 1, got, want)
    }
}

/// Depth entries met scanning up from tick `t` to the last tick, as
/// `depth_down` does downward.
pub open spec fn depth_up(sv: SideView, t: int, got: nat, want: nat) -> Seq<BookLevel>
    decreases sv.qty.len() - t,
{
    if t >= sv.qty.len() || t < 0 {
        Seq::empty()
    } else if sv.qty[t] > 0 {
        if got + 1 >= want {
            seq![depth_entry(sv, t as usize)]
        } else {
            seq![depth_entry(sv, t as usize)] + depth_up(sv, t + 1, got + 1, want)
        }
    } else {
        depth_up(sv, t + 1, got, want)
    }
}

impl BookView {
    /// The depth of a side: from its best tick outward (down for bids, up
    /// for asks), one entry per tick holding quantity, at most `levels`
    /// entries but at least one when any tick on the way holds quantity.
    pub open spec fn depth(self, s: Side, levels: nat) -> Seq<BookLevel> {
        let sv = self.side(s);
        match s {
            Side::Buy => depth_down(sv, sv.best as int, 0, levels),
            Side::Sell => depth_up(sv, sv.best as int, 0, levels),
        }
    }
}

/// The contents of one side of a book in its parts.
pub open spec fn side_view(arr: &TickArray, levels: Map<usize, PriceLevel>) -> SideView {
    SideView { qty: arr.qty@, best: arr.best_tick, levels: levels.map_values(|l: PriceLevel| l@) }
}

/// An empty book of `max_ticks` ticks per side, its best ask at the last
/// tick.
pub open spec fn empty_book(max_ticks: usize) -> BookView {
    BookView {
        max_ticks: max_ticks as nat,
        bids: SideView {
            qty: Seq::new(max_ticks as nat, |i: int| 0u64),
            best: 0,
            levels: Map::empty(),
        },
        asks: SideView {
            qty: Seq::new(max_ticks as nat, |i: int| 0u64),
            best: max_ticks.saturating_sub(1) as u64,
            levels: Map::empty(),
        },
        index: Map::empty(),
    }
}

/// The orders of the level at tick `t`, or none.
pub open spec fn orders_at(levels: Map<usize, LevelView>, t: int) -> Seq<Order> {
    if 0 <= t <= usize::MAX && levels.contains_key(t as usize) {
        levels[t as usize].orders
    } else {
        Seq::empty()
    }
}

/// The orders of the levels below tick `n`, by tick and then in time
/// priority.
pub open spec fn orders_below(levels: Map<usize, LevelView>, n: int) -> Seq<Order>
    decreases n,
{
    if n <= 0 {
        Seq::empty()
    } else {
        orders_below(levels, n - 1) + orders_at(levels, n - 1)
    }
}

/// Every resting order of a book: the bids by tick, then the asks by tick,
/// each level in time priority.
pub open spec fn book_orders(b: BookView) -> Seq<Order> {
    orders_below(b.bids.levels, b.max_ticks as int) + orders_below(b.asks.levels, b.max_ticks as int)
}

/// A limit order book for one instrument.
#[derive(Clone)]
pub struct OrderBook {
    pub max_ticks: usize,
    pub bids: TickArray,
    pub asks: TickArray,
    pub bid_levels: HashMap<usize, PriceLevel>,
    pub ask_levels: HashMap<usize, PriceLevel>,
    pub order_index: HashMap<u128, (Side, usize)>,
}

impl View for OrderBook {
    type V = BookView;

    open spec fn view(&self) -> BookView {
        BookView {
            max_ticks: self.max_ticks as nat,
            bids: side_view(&self.bids, self.bid_levels@),
            asks: side_view(&self.asks, self.ask_levels@),
            index: self.order_index@,
        }
    }
}

/// Adds an order at `tick` to one side.
fn add_to_side(
    arr: &mut TickArray,
    levels: &mut HashMap<usize, PriceLevel>,
    side: Side,
    tick: usize,
    order: Order,
    max_ticks: Ghost<nat>,
)
    requires
        side_view(old(arr), old(levels)@).wf(max_ticks@),
        tick < max_ticks@,
        order.wf(),
        sum_fits(level_or_empty(side_view(old(arr), old(levels)@), tick).total_qty, order.remaining),
    ensures
        ({
            let sv = side_view(old(arr), old(levels)@);
            let level = level_or_empty(sv, tick).push_back(order);
            let q = sv.qty.update(tick as int, sv.qty[tick as int].wrapping_add(tick_qty(order.remaining)));
            side_view(final(arr), final(levels)@) == SideView {
                qty: q,
                best: best_after_insert(side, sv.best, tick, q),
                levels: sv.levels.insert(tick, level),
            }
        }),
        side_view(final(arr), final(levels)@).wf(max_ticks@),
        exact_whole_sum(
            level_or_empty(side_view(old(arr), old(levels)@), tick).total_qty,
            order.remaining,
        ),
{
    let ghost sv = side_view(arr, levels@);
    let remaining = order.remaining;
    let tick_qty = decimal_to_tick_qty(remaining);
    let mut level = match levels.remove(&tick) {
        Some(l) => l,
        None => PriceLevel::new(),
    };
    assert(level@ == level_or_empty(sv, tick));
    level.total_qty = dec_add(level.total_qty, remaining);
    level.orders.push_back(order);
    assert(level@ == level_or_empty(sv, tick).push_back(order));
    levels.insert(tick, level);
    arr.add_qty(tick, tick_qty);
    let best = arr.get_best_tick();
    let better = match side {
        Side::Buy => tick > best,
        Side::Sell => tick < best,
    };
    if better || arr.get_qty(best) == 0 {
        arr.set_best_tick(tick);
    }
    proof {
        let sv2 = side_view(arr, levels@);
        assert(sv2.levels =~= sv.levels.insert(tick, level_or_empty(sv, tick).push_back(order)));
        assert forall|t: usize| #[trigger] sv2.levels.contains_key(t) implies t < max_ticks@
            && sv2.levels[t].wf() && sv2.levels[t].orders.len() > 0 by {
            if t != tick {
                assert(sv.levels.contains_key(t));
            } else {
                let l0 = level_or_empty(sv, tick);
                assert forall|i: int| 0 <= i < sv2.levels[t].orders.len() implies (
                #[trigger] sv2.levels[t].orders[i]).wf() by {
                    if i < l0.orders.len() {
                        assert(sv2.levels[t].orders[i] == l0.orders[i]);
                    }
                }
            }
        }
    }
}

/// Takes the first order with id `id` out of the level at `tick` of one
/// side.
fn remove_from_side(
    arr: &mut TickArray,
    levels: &mut HashMap<usize, PriceLevel>,
    side: Side,
    tick: usize,
    id: u128,
    max_ticks: Ghost<nat>,
) -> (r: Option<Order>)
    requires
        side_view(old(arr), old(levels)@).wf(max_ticks@),
        side_view(old(arr), old(levels)@).levels.contains_key(tick),
        ({
            let l = side_view(old(arr), old(levels)@).levels[tick];
            find_id(l.orders, id) >= 0 ==> difference_fits(
                l.total_qty,
                l.orders[find_id(l.orders, id)].remaining,
            )
        }),
    ensures
        ({
            let sv = side_view(old(arr), old(levels)@);
            let k = find_id(sv.levels[tick].orders, id);
            if k < 0 {
                r is None && side_view(final(arr), final(levels)@) == sv
            } else {
                r == Some(sv.levels[tick].orders[k]) && side_view(final(arr), final(levels)@)
                    == BookView::side_after_removal(sv, side, tick, k) && exact_whole_difference(
                    sv.levels[tick].total_qty,
                    sv.levels[tick].orders[k].remaining,
                )
            }
        }),
        side_view(final(arr), final(levels)@).wf(max_ticks@),
{
    let ghost sv = side_view(arr, levels@);
    proof {
        lemma_find_id_bounds(sv.levels[tick].orders, id);
    }
    let mut level = levels.remove(&tick).unwrap();
    assert(level@ == sv.levels[tick]);
    let order = match level.remove_order(id) {
        Some(o) => o,
        None => {
            levels.insert(tick, level);
            assert(side_view(arr, levels@).levels =~= sv.levels);
            return None;
        },
    };
    let tq = decimal_to_tick_qty(order.remaining);
    arr.sub_qty(tick, tq);
    if level.is_empty() {
        if arr.get_best_tick() == tick {
            proof {
                lemma_bid_search_is_highest(arr.qty@, arr.best_tick as int);
                lemma_ask_search_is_lowest(arr.qty@, arr.best_tick as int);
            }
            match side {
                Side::Buy => arr.update_best_bid(),
                Side::Sell => arr.update_best_ask(),
            }
        }
        assert(side_view(arr, levels@).levels =~= sv.levels.remove(tick));
    } else {
        levels.insert(tick, level);
        assert(side_view(arr, levels@).levels =~= sv.levels.insert(
            tick,
            sv.levels[tick].remove_at(find_id(sv.levels[tick].orders, id)),
        ));
    }
    Some(order)
}

impl OrderBook {
    /// An empty book of `max_ticks` ticks per side; the best ask starts at
    /// the last tick.
    pub fn new(max_ticks: usize) -> (r: OrderBook)
        ensures
            r@ == empty_book(max_ticks),
            r@.wf(),
            max_ticks > 0 ==> book_consistent(r@),
            totals_in_step(r@),
    {
        proof {
            if max_ticks > 0 {
                lemma_empty_book_consistent(max_ticks);
            }
        }
        let r = OrderBook {
            max_ticks,
            bids: TickArray::new(max_ticks, 0),
            asks: TickArray::new(max_ticks, max_ticks.saturating_sub(1) as u64),
            bid_levels: HashMap::new(),
            ask_levels: HashMap::new(),
            order_index: HashMap::new(),
        };
        assert(r@.bids.levels =~= Map::empty());
        assert(r@.asks.levels =~= Map::empty());
        r
    }

    /// Rests an order on its side at the tick of its price, behind the
    /// orders already there; an order without a price is not inserted.
    pub fn insert(&mut self, order: Order)
        requires
            old(self)@.wf(),
            order.wf(),
            old(self)@.insert_ok(order),
        ensures
            final(self)@ == old(self)@.insert(order),
            final(self)@.wf(),
            keeps_in_step(old(self)@, order) ==> book_consistent(final(self)@),
            keeps_in_step(old(self)@, order) && totals_in_step(old(self)@) ==> totals_in_step(
                final(self)@,
            ),
    {
        let ghost b0 = self@;
        let tick = match order.price {
            Some(p) => price_to_tick(p),
            None => return,
        };
        let id = order.id;
        let side = order.side;
        let ghost mt = self.max_ticks as nat;
        match side {
            Side::Buy => add_to_side(&mut self.bids, &mut self.bid_levels, side, tick, order, Ghost(mt)),
            Side::Sell => add_to_side(&mut self.asks, &mut self.ask_levels, side, tick, order, Ghost(mt)),
        }
        self.order_index.insert(id, (side, tick));
        proof {
            let b = old(self)@.insert(order);
            assert(self@.index =~= b.index);
            assert forall|i: u128| #[trigger] self@.index.contains_key(i) implies {
                let (s, t) = self@.index[i];
                &&& self@.side(s).levels.contains_key(t)
                &&& find_id(self@.side(s).levels[t].orders, i) >= 0
            } by {
                let (sd, t) = self@.index[i];
                if i != id {
                    let (s0, t0) = old(self)@.index[i];
                    let l0 = old(self)@.side(s0).levels[t0].orders;
                    lemma_find_id_has_id(l0, i);
                    if s0 == side && t0 == tick {
                        let l1 = self@.side(s0).levels[t0].orders;
                        assert(l1 == l0.push(order));
                        let j = choose|j: int| 0 <= j < l0.len() && (#[trigger] l0[j]).id == i;
                        assert(l1[j] == l0[j]);
                        lemma_find_id_has_id(l1, i);
                    }
                } else {
                    let l1 = self@.side(side).levels[tick].orders;
                    assert(l1[l1.len() - 1] == order);
                    lemma_find_id_has_id(l1, i);
                }
            }
            if keeps_in_step(b0, order) {
                insert_keeps_consistency(b0, order);
                if totals_in_step(b0) {
                    insert_keeps_totals(b0, order);
                }
            }
        }
    }

    /// Cancels the order with id `order_id`: its index entry leaves, and the
    /// order leaves its level, which goes away once empty (moving the best
    /// tick when it was there).  `None` when the id is not indexed.
    pub fn cancel(&mut self, order_id: u128) -> (r: Option<Order>)
        requires
            old(self)@.wf(),
            old(self)@.cancel_ok(order_id),
        ensures
            (final(self)@, r) == old(self)@.cancel(order_id),
            final(self)@.wf(),
            book_consistent(old(self)@) ==> book_consistent(final(self)@),
            book_consistent(old(self)@) && totals_in_step(old(self)@) ==> totals_in_step(
                final(self)@,
            ),
    {
        let ghost c0 = self@;
        let (side, tick) = match self.order_index.remove(&order_id) {
            Some(x) => x,
            None => {
                assert(self@.index =~= old(self)@.index);
                assert(self@ =~= old(self)@);
                return None;
            },
        };
        let ghost mt = self.max_ticks as nat;
        let ghost b0 = old(self)@;
        proof {
            lemma_find_id_bounds(b0.side(side).levels[tick].orders, order_id);
        }
        let r = match side {
            Side::Buy => remove_from_side(
                &mut self.bids,
                &mut self.bid_levels,
                side,
                tick,
                order_id,
                Ghost(mt),
            ),
            Side::Sell => remove_from_side(
                &mut self.asks,
                &mut self.ask_levels,
                side,
                tick,
                order_id,
                Ghost(mt),
            ),
        };
        proof {
            let l0 = b0.side(side).levels[tick].orders;
            let k = find_id(l0, order_id);
            assert(k >= 0);
            assert forall|i: u128| #[trigger] self@.index.contains_key(i) implies {
                let (s, t) = self@.index[i];
                &&& self@.side(s).levels.contains_key(t)
                &&& find_id(self@.side(s).levels[t].orders, i) >= 0
            } by {
                let (s0, t0) = b0.index[i];
                let la = b0.side(s0).levels[t0].orders;
                lemma_find_id_has_id(la, i);
                if s0 == side && t0 == tick {
                    let j = choose|j: int| 0 <= j < la.len() && (#[trigger] la[j]).id == i;
                    assert(la[k].id == order_id);
                    assert(j != k);
                    let lb = la.remove(k);
                    if j < k {
                        assert(lb[j] == la[j]);
                    } else {
                        assert(lb[j - 1] == la[j]);
                    }
                    lemma_find_id_has_id(lb, i);
                }
            }
            if book_consistent(c0) {
                cancel_keeps_consistency(c0, order_id);
                if totals_in_step(c0) {
                    cancel_keeps_totals(c0, order_id);
                }
            }
        }
        r
    }

    /// The best bid: the price of the best bid tick when it holds quantity.
    pub fn best_bid(&self) -> (r: Option<Dec>)
        requires
            self@.wf(),
            self@.max_ticks > 0,
        ensures
            r == self@.best_price(Side::Buy),
            book_consistent(self@) ==> r == highest_level_price(self@.bids.levels),
    {
        proof {
            if book_consistent(self@) {
                best_prices_are_extreme_levels(self@);
            }
        }
        let tick = self.bids.get_best_tick();
        if self.bids.get_qty(tick) > 0 {
            Some(tick_to_decimal(tick))
        } else {
            None
        }
    }

    /// The best ask: the price of the best ask tick when it holds quantity.
    pub fn best_ask(&self) -> (r: Option<Dec>)
        requires
            self@.wf(),
            self@.max_ticks > 0,
        ensures
            r == self@.best_price(Side::Sell),
            book_consistent(self@) ==> r == lowest_level_price(self@.asks.levels),
    {
        proof {
            if book_consistent(self@) {
                best_prices_are_extreme_levels(self@);
            }
        }
        let tick = self.asks.get_best_tick();
        if self.asks.get_qty(tick) > 0 {
            Some(tick_to_decimal(tick))
        } else {
            None
        }
    }

    /// The number of orders in the level at `tick`, or 0 without a level.
    fn level_order_count(levels: &HashMap<usize, PriceLevel>, tick: usize) -> (n: u32)
        ensures
            n == (if levels@.contains_key(tick) {
                levels@[tick]@.orders.len() as u32
            } else {
                0
            }),
    {
        match levels.get(&tick) {
            Some(l) => l.orders.len() as u32,
            None => 0,
        }
    }

    /// The aggregated levels of one side from its best tick outward, at most
    /// `levels` of them (but one when `levels` is 0).
    pub fn depth(&self, side: Side, levels: usize) -> (r: Vec<BookLevel>)
        requires
            self@.wf(),
            self@.max_ticks > 0,
        ensures
            r@ == self@.depth(side, levels as nat),
            book_consistent(self@) ==> r@ == (match side {
                Side::Buy => levels_down(self@.bids.levels, self@.max_ticks - 1, 0, levels as nat),
                Side::Sell => levels_up(self@.asks.levels, 0, self@.max_ticks, 0, levels as nat),
            }),
    {
        proof {
            if book_consistent(self@) {
                depth_reports_levels(self@, levels as nat);
            }
        }
        let mut result: Vec<BookLevel> = Vec::new();
        match side {
            Side::Buy => {
                let ghost sv = self@.side(Side::Buy);
                let mut tick = self.bids.get_best_tick();
                let mut collected: usize = 0;
                let ghost start = tick as int;
                loop
                    invariant_except_break
                        0 <= tick <= start,
                        collected <= start - tick,
                        result@ + depth_down(sv, tick as int, collected as nat, levels as nat)
                            == self@.depth(side, levels as nat),
                    invariant
                        sv == self@.side(Side::Buy),
                        start == sv.best,
                        start < self.max_ticks,
                        side == Side::Buy,
                        self@.wf(),
                    ensures
                        result@ == self@.depth(side, levels as nat),
                    decreases tick,
                {
                    let qty = self.bids.get_qty(tick);
                    if qty > 0 {
                        let order_count = Self::level_order_count(&self.bid_levels, tick);
                        let entry = BookLevel {
                            price: tick_to_decimal(tick),
                            qty: Dec::new(qty as i64, 0),
                            order_count,
                        };
                        proof {
                            assert(entry == depth_entry(sv, tick));
                            if collected + 1 >= levels {
                                assert(depth_down(sv, tick as int, collected as nat, levels as nat)
                                    == seq![entry]);
                            }
                        }
                        let ghost before = result@;
                        let ghost c0 = collected as nat;
                        result.push(entry);
                        assert(result@ =~= before + seq![entry]);
                        collected += 1;
                        proof {
                            if collected >= levels {
                                assert(c0 + 1 >= levels);
                                assert(result@ == self@.depth(side, levels as nat));
                            } else {
                                let rest = depth_down(sv, tick as int - 1, collected as nat, levels as nat);
                                assert(depth_down(sv, tick as int, c0, levels as nat) == seq![entry]
                                    + rest);
                                assert(before + (seq![entry] + rest) =~= result@ + rest);
                            }
                        }
                        if collected >= levels {
                            break;
                        }
                    }
                    assert(result@ + depth_down(sv, tick as int - 1, collected as nat, levels as nat)
                        == self@.depth(side, levels as nat));
                    if tick == 0 {
                        break;
                    }
                    tick -= 1;
                }
            },
            Side::Sell => {
                let ghost sv = self@.side(Side::Sell);
                let mut tick = self.asks.get_best_tick();
                let mut collected: usize = 0;
                let max = self.max_ticks;
                let ghost start = tick as int;
                loop
                    invariant_except_break
                        start <= tick < max,
                        collected <= tick - start,
                        result@ + depth_up(sv, tick as int, collected as nat, levels as nat)
                            == self@.depth(side, levels as nat),
                    invariant
                        sv == self@.side(Side::Sell),
                        start == sv.best,
                        max == self.max_ticks,
                        start < max,
                        side == Side::Sell,
                        self@.wf(),
                    ensures
                        result@ == self@.depth(side, levels as nat),
                    decreases max - tick,
                {
                    let qty = self.asks.get_qty(tick);
                    if qty > 0 {
                        let order_count = Self::level_order_count(&self.ask_levels, tick);
                        let entry = BookLevel {
                            price: tick_to_decimal(tick),
                            qty: Dec::new(qty as i64, 0),
                            order_count,
                        };
                        proof {
                            assert(entry == depth_entry(sv, tick));
                            if collected + 1 >= levels {
                                assert(depth_up(sv, tick as int, collected as nat, levels as nat)
                                    == seq![entry]);
                            }
                        }
                        let ghost before = result@;
                        let ghost c0 = collected as nat;
                        result.push(entry);
                        assert(result@ =~= before + seq![entry]);
                        collected += 1;
                        proof {
                            if collected >= levels {
                                assert(c0 + 1 >= levels);
                                assert(result@ == self@.depth(side, levels as nat));
                            } else {
                                let rest = depth_up(sv, tick as int + 1, collected as nat, levels as nat);
                                assert(depth_up(sv, tick as int, c0, levels as nat) == seq![entry]
                                    + rest);
                                assert(before + (seq![entry] + rest) =~= result@ + rest);
                            }
                        }
                        if collected >= levels {
                            break;
                        }
                    }
                    assert(result@ + depth_up(sv, tick as int + 1, collected as nat, levels as nat)
                        == self@.depth(side, levels as nat));
                    tick += 1;
                    if tick >= max {
                        break;
                    }
                }
            },
        }
        result
    }
}

/// Appends the orders of the levels below tick `max_ticks`, by tick and in
/// time priority.
fn append_side_orders(levels: &HashMap<usize, PriceLevel>, max_ticks: usize, out: &mut Vec<Order>)
    ensures
        final(out)@ == old(out)@ + orders_below(
            levels@.map_values(|l: PriceLevel| l@),
            max_ticks as int,
        ),
{
    let ghost lv = levels@.map_values(|l: PriceLevel| l@);
    let mut t: usize = 0;
    while t < max_ticks
        invariant
            t <= max_ticks,
            lv == levels@.map_values(|l: PriceLevel| l@),
            out@ == old(out)@ + orders_below(lv, t as int),
        decreases max_ticks - t,
    {
        let ghost before = out@;
        match levels.get(&t) {
            Some(level) => {
                let n = level.orders.len();
                let mut k: usize = 0;
                while k < n
                    invariant
                        k <= n,
                        n == level.orders@.len(),
                        out@ == before + level.orders@.take(k as int),
                    decreases n - k,
                {
                    let o = level.orders[k].duplicate();
                    out.push(o);
                    assert(level.orders@.take(k + 1) =~= level.orders@.take(k as int).push(o));
                    assert(out@ =~= before + level.orders@.take(k + 1));
                    k += 1;
                }
                assert(level.orders@.take(n as int) =~= level.orders@);
                assert(orders_at(lv, t as int) == level@.orders);
            },
            None => {
                assert(orders_at(lv, t as int) =~= Seq::<Order>::empty());
            },
        }
        assert(orders_below(lv, t + 1) == orders_below(lv, t as int) + orders_at(lv, t as int));
        assert(out@ =~= old(out)@ + orders_below(lv, t + 1));
        t += 1;
    }
}

impl OrderBook {
    /// Every resting order: the bids by tick, then the asks by tick, each
    /// level in time priority.
    pub fn resting(&self) -> (r: Vec<Order>)
        ensures
            r@ == book_orders(self@),
    {
        let mut out: Vec<Order> = Vec::new();
        append_side_orders(&self.bid_levels, self.max_ticks, &mut out);
        append_side_orders(&self.ask_levels, self.max_ticks, &mut out);
        assert(out@ =~= book_orders(self@));
        out
    }
}

/// Adding a quantity to a tick and taking it away again restores the tick.
pub proof fn lemma_wrapping_round_trip(x: u64, a: u64)
    ensures
        x.wrapping_add(a).wrapping_sub(a) == x,
{
}

/// Inserting a priced order and then cancelling it by id gives the order
/// back and leaves the index (but for the order's own entry), the quantity
/// of every tick, the set of levels and the orders of every level as they
/// were; the other side is untouched.
pub proof fn cancel_undoes_insert(b: BookView, o: Order)
    requires
        b.wf(),
        o.price is Some,
        b.insert_ok(o),
        !has_id(level_or_empty(b.side(o.side), price_tick(o.price->0)).orders, o.id),
    ensures
        ({
            let (b2, r) = b.insert(o).cancel(o.id);
            &&& r == Some(o)
            &&& b2.index == b.index.remove(o.id)
            &&& b2.side(o.side).qty == b.side(o.side).qty
            &&& b2.side(o.side.opposite()) == b.side(o.side.opposite())
            &&& b2.side(o.side).levels.dom() == b.side(o.side).levels.dom()
            &&& forall|t: usize| #[trigger]
                b2.side(o.side).levels.contains_key(t) ==> b2.side(o.side).levels[t].orders
                    == b.side(o.side).levels[t].orders
        }),
{
    let side = o.side;
    let tick = price_tick(o.price->0);
    let sv = b.side(side);
    let l0 = level_or_empty(sv, tick);
    let b1 = b.insert(o);
    let sv1 = b1.side(side);
    let level = l0.push_back(o);
    assert(sv1.levels[tick] == level);
    assert(b1.index[o.id] == (side, tick));
    let n = l0.orders.len();
    assert forall|j: int| 0 <= j < n implies #[trigger] level.orders[j].id != o.id by {
        assert(level.orders[j] == l0.orders[j]);
    }
    lemma_find_id(level.orders, o.id, n as int);
    assert(find_id(level.orders, o.id) == n);
    assert(level.orders.remove(n as int) =~= l0.orders);
    lemma_wrapping_round_trip(sv.qty[tick as int], tick_qty(o.remaining));
    let (b2, r) = b1.cancel(o.id);
    let sv2 = b2.side(side);
    assert(sv2.qty =~= sv.qty);
    if n == 0 {
        assert(!sv.levels.contains_key(tick));
        assert(sv2.levels =~= sv.levels);
    } else {
        assert(sv.levels.contains_key(tick));
        assert(sv2.levels.dom() =~= sv.levels.dom());
    }
    assert(b2.index =~= b.index.remove(o.id));
}

/// The prices of the bid depth strictly fall, and those of the ask depth
/// strictly rise (for books whose ticks all have a price, that is fewer
/// than 2^63 of them).
pub proof fn depth_prices_ordered(b: BookView, levels: nat)
    requires
        b.wf(),
        0 < b.max_ticks <= i64::MAX,
    ensures
        forall|i: int, j: int|
            0 <= i < j < b.depth(Side::Buy, levels).len() ==> (#[trigger] b.depth(
                Side::Buy,
                levels,
            )[i]).price.mantissa > (#[trigger] b.depth(Side::Buy, levels)[j]).price.mantissa,
        forall|i: int, j: int|
            0 <= i < j < b.depth(Side::Sell, levels).len() ==> (#[trigger] b.depth(
                Side::Sell,
                levels,
            )[i]).price.mantissa < (#[trigger] b.depth(Side::Sell, levels)[j]).price.mantissa,
{
    let bs = b.side(Side::Buy);
    let a = b.side(Side::Sell);
    lemma_depth_down_ordered(bs, bs.best as int, 0, levels);
    lemma_depth_up_ordered(a, a.best as int, 0, levels);
}

/// The ticks of the entries scanned down from `t` are at most `t` and
/// strictly falling.
proof fn lemma_depth_down_ordered(sv: SideView, t: int, got: nat, want: nat)
    requires
        t < sv.qty.len() <= i64::MAX,
        sv.qty.len() <= usize::MAX,
    ensures
        forall|i: int|
            0 <= i < depth_down(sv, t, got, want).len() ==> 0 <= (#[trigger] depth_down(
                sv,
                t,
                got,
                want,
            )[i]).price.mantissa <= t,
        forall|i: int, j: int|
            0 <= i < j < depth_down(sv, t, got, want).len() ==> (#[trigger] depth_down(
                sv,
                t,
                got,
                want,
            )[i]).price.mantissa > (#[trigger] depth_down(sv, t, got, want)[j]).price.mantissa,
    decreases t + 1,
{
    if t >= 0 {
        let tu = t as usize;
        assert(tu as int == t);
        assert((tu as i64) as int == t);
        assert(depth_entry(sv, tu).price.mantissa == t);
        if sv.qty[t] > 0 {
            if got + 1 < want {
                lemma_depth_down_ordered(sv, t - 1, got + 1, want);
                let d = depth_down(sv, t, got, want);
                let rest = depth_down(sv, t - 1, got + 1, want);
                assert(d == seq![depth_entry(sv, t as usize)] + rest);
                assert forall|i: int| 0 <= i < d.len() implies 0 <= (#[trigger] d[i]).price.mantissa
                    <= t by {
                    if i > 0 {
                        assert(d[i] == rest[i - 1]);
                    }
                }
                assert forall|i: int, j: int| 0 <= i < j < d.len() implies (#[trigger] d[i]).price.mantissa
                    > (#[trigger] d[j]).price.mantissa by {
                    assert(d[j] == rest[j - 1]);
                    if i > 0 {
                        assert(d[i] == rest[i - 1]);
                    }
                }
            } else {
                let d = depth_down(sv, t, got, want);
                assert(d == seq![depth_entry(sv, t as usize)]);
                assert(d[0].price.mantissa == t);
            }
        } else {
            lemma_depth_down_ordered(sv, t - 1, got, want);
            assert(depth_down(sv, t, got, want) == depth_down(sv, t - 1, got, want));
        }
    }
}

/// The ticks of the entries scanned up from `t` are at least `t`, below the
/// number of ticks, and strictly rising.
proof fn lemma_depth_up_ordered(sv: SideView, t: int, got: nat, want: nat)
    requires
        0 <= t,
        sv.qty.len() <= i64::MAX,
        sv.qty.len() <= usize::MAX,
    ensures
        forall|i: int|
            0 <= i < depth_up(sv, t, got, want).len() ==> t <= (#[trigger] depth_up(
                sv,
                t,
                got,
                want,
            )[i]).price.mantissa < sv.qty.len(),
        forall|i: int, j: int|
            0 <= i < j < depth_up(sv, t, got, want).len() ==> (#[trigger] depth_up(
                sv,
                t,
                got,
                want,
            )[i]).price.mantissa < (#[trigger] depth_up(sv, t, got, want)[j]).price.mantissa,
    decreases sv.qty.len() - t,
{
    if t < sv.qty.len() && t >= 0 {
        let tu = t as usize;
        assert(tu as int == t);
        assert((tu as i64) as int == t);
        assert(depth_entry(sv, tu).price.mantissa == t);
        if sv.qty[t] > 0 {
            if got + 1 < want {
                lemma_depth_up_ordered(sv, t + 1, got + 1, want);
                let d = depth_up(sv, t, got, want);
                let rest = depth_up(sv, t + 1, got + 1, want);
                assert(d == seq![depth_entry(sv, t as usize)] + rest);
                assert forall|i: int| 0 <= i < d.len() implies t <= (#[trigger] d[i]).price.mantissa
                    < sv.qty.len() by {
                    if i > 0 {
                        assert(d[i] == rest[i - 1]);
                    }
                }
                assert forall|i: int, j: int| 0 <= i < j < d.len() implies (#[trigger] d[i]).price.mantissa
                    < (#[trigger] d[j]).price.mantissa by {
                    assert(d[j] == rest[j - 1]);
                    if i > 0 {
                        assert(d[i] == rest[i - 1]);
                    }
                }
            } else {
                let d = depth_up(sv, t, got, want);
                assert(d == seq![depth_entry(sv, t as usize)]);
                assert(d[0].price.mantissa == t);
            }
        } else {
            lemma_depth_up_ordered(sv, t + 1, got, want);
            assert(depth_up(sv, t, got, want) == depth_up(sv, t + 1, got, want));
        }
    }
}

impl TickArray {
    /// A copy of the array.
    pub fn duplicate(&self) -> (r: TickArray)
        ensures
            r.qty@ == self.qty@,
            r.best_tick == self.best_tick,
    {
        let mut qty: Vec<u64> = Vec::new();
        let n = self.qty.len();
        let mut i: usize = 0;
        while i < n
            invariant
                n == self.qty@.len(),
                i <= n,
                qty@ == self.qty@.take(i as int),
            decreases n - i,
        {
            qty.push(self.qty[i]);
            assert(qty@ =~= self.qty@.take(i + 1));
            i += 1;
        }
        assert(self.qty@.take(n as int) =~= self.qty@);
        TickArray { qty, best_tick: self.best_tick }
    }
}

impl OrderBook {
    /// A copy of the book.
    pub fn duplicate(&self) -> (r: OrderBook)
        ensures
            r@ == self@,
    {
        OrderBook {
            max_ticks: self.max_ticks,
            bids: self.bids.duplicate(),
            asks: self.asks.duplicate(),
            bid_levels: self.bid_levels.clone(),
            ask_levels: self.ask_levels.clone(),
            order_index: self.order_index.clone(),
        }
    }
}

/// Whether inserting the order can run without a panic or an overflow.
pub fn insert_check(book: &OrderBook, order: &Order) -> (r: bool)
    requires
        book@.wf(),
        order.wf(),
    ensures
        r == book@.insert_ok(*order),
{
    let price = match order.price {
        Some(p) => p,
        None => {
            return true;
        },
    };
    if !can_mul(price, Dec::new(100, 0)) {
        return false;
    }
    let tick = price_to_tick(price);
    if tick >= book.max_ticks {
        return false;
    }
    let level = match order.side {
        Side::Buy => book.bid_levels.get(&tick),
        Side::Sell => book.ask_levels.get(&tick),
    };
    let total = match level {
        Some(l) => l.total_qty,
        None => Dec::zero(),
    };
    assert(total == level_or_empty(book@.side(order.side), tick).total_qty);
    assert(total.wf());
    can_add(total, order.remaining)
}

} // verus!
