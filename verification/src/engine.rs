//! The multi-instrument engine: instruments with their own books, symbol
//! lookup, order placement with tick- and lot-size validation, circuit
//! breakers, cancellation and queries.
use crate::book::{book_orders, empty_book, insert_check, lemma_find_id, price_tick, price_tick_ok, price_to_tick, BookView, OrderBook};
use crate::decimal::{
    can_div, can_mul, can_sub, dec_div, dec_fract, dec_lt, dec_mul, dec_sub, dec_to_string, decimal_difference, decimal_product,
    decimal_quotient, decimal_text, difference_fits, lemma_units_sign, product_fits, quotient_fits,
    Dec, max_scale, representable_at,
};
use crate::error::{result_view, ClobError, ErrorKind};
use crate::matching::{
    dry_run, lemma_outcome_trade_prices_wf, match_ok, match_order, match_outcome, tick_exact,
    trade_prices_wf,
};
use crate::priority::{book_consistent, keeps_in_step, uncrossed};
use crate::text::{concat, decimal_digits, str_eq, u64_to_string, uuid_text, uuid_to_string};
use crate::types::{BookLevel, CircuitBreaker, Order, OrderStatus, PlaceOrderResult, Side, Trade};
use std::collections::HashMap;
use vstd::prelude::*;

verus! {

broadcast use vstd::std_specs::hash::group_hash_axioms;

/// Whether an instrument trades.
#[derive(Clone, Copy, Debug, PartialEq, Eq, Structural)]
pub enum InstrumentStatus {
    Active,
    Halted,
}

/// A tradable instrument and its book.
#[derive(Clone)]
pub struct Instrument {
    pub id: u64,
    pub symbol: String,
    pub tick_size: Dec,
    pub lot_size: Dec,
    pub status: InstrumentStatus,
    pub circuit_breaker: Option<CircuitBreaker>,
    pub book: OrderBook,
}

/// The contents of an instrument.
pub struct InstrumentView {
    pub id: u64,
    pub symbol: Seq<char>,
    pub tick_size: Dec,
    pub lot_size: Dec,
    pub status: InstrumentStatus,
    pub circuit_breaker: Option<CircuitBreaker>,
    pub book: BookView,
}

impl View for Instrument {
    type V = InstrumentView;

    open spec fn view(&self) -> InstrumentView {
        InstrumentView {
            id: self.id,
            symbol: self.symbol@,
            tick_size: self.tick_size,
            lot_size: self.lot_size,
            status: self.status,
            circuit_breaker: self.circuit_breaker,
            book: self.book@,
        }
    }
}

impl InstrumentView {
    /// The book is well formed and has ticks, the sizes are positive, and
    /// the numbers of the circuit breaker are well formed.
    pub open spec fn wf(self) -> bool {
        &&& self.book.wf()
        &&& self.book.max_ticks > 0
        &&& self.tick_size.wf()
        &&& self.tick_size.units() > 0
        &&& self.lot_size.wf()
        &&& self.lot_size.units() > 0
        &&& (self.circuit_breaker matches Some(cb) ==> cb.reference_price.wf() && cb.halt_pct.wf())
    }
}

/// Both sides of a book, aggregated by level.
#[derive(Clone, Debug)]
pub struct BookDepth {
    pub bids: Vec<BookLevel>,
    pub asks: Vec<BookLevel>,
}

/// The contents of an engine: the next instrument id, the instruments by
/// id, the symbols with their ids in creation order, and the instrument of
/// each resting order by order id.
pub struct EngineView {
    pub next_id: u64,
    pub instruments: Map<u64, InstrumentView>,
    pub symbols: Seq<(Seq<char>, u64)>,
    pub order_instrument: Map<u128, u64>,
}

/// The id registered for a symbol.
pub open spec fn symbol_id(s: Seq<(Seq<char>, u64)>, sym: Seq<char>) -> Option<u64> {
    if exists|i: int| 0 <= i < s.len() && #[trigger] s[i].0 == sym {
        Some(s[choose|i: int| 0 <= i < s.len() && #[trigger] s[i].0 == sym].1)
    } else {
        None
    }
}

/// A new, active instrument without a circuit breaker and with an empty
/// book.
pub open spec fn new_instrument(
    id: u64,
    symbol: Seq<char>,
    tick_size: Dec,
    lot_size: Dec,
    max_ticks: usize,
) -> InstrumentView {
    InstrumentView {
        id,
        symbol,
        tick_size,
        lot_size,
        status: InstrumentStatus::Active,
        circuit_breaker: None,
        book: empty_book(max_ticks),
    }
}

impl EngineView {
    /// Every instrument is well formed, is stored under its id and has an id
    /// below the next one; symbols and their ids are distinct, and they name
    /// exactly the instruments.
    pub open spec fn wf(self) -> bool {
        &&& forall|id: u64| #[trigger]
            self.instruments.contains_key(id) ==> {
                &&& self.instruments[id].wf()
                &&& self.instruments[id].id == id
                &&& id < self.next_id
            }
        &&& forall|i: int, j: int|
            0 <= i < j < self.symbols.len() ==> #[trigger] self.symbols[i].0 != #[trigger] self.symbols[j].0
                && self.symbols[i].1 != self.symbols[j].1
        &&& forall|i: int|
            0 <= i < self.symbols.len() ==> self.instruments.contains_key(#[trigger] self.symbols[i].1)
                && self.instruments[self.symbols[i].1].symbol == self.symbols[i].0
        &&& forall|id: u64| #[trigger]
            self.instruments.contains_key(id) ==> exists|i: int|
                0 <= i < self.symbols.len() && #[trigger] self.symbols[i].1 == id
    }

    /// Why creating an instrument is refused, if it is: an empty symbol, a
    /// symbol in use, a tick or lot size that is not positive, a lot size
    /// that is not a whole number, or no ticks.
    pub open spec fn create_refusal(
        self,
        symbol: Seq<char>,
        tick_size: Dec,
        lot_size: Dec,
        max_ticks: usize,
    ) -> Option<(ErrorKind, Seq<char>)> {
        if symbol.len() == 0 {
            Some((ErrorKind::InstrumentNotFound, "symbol must not be empty"@))
        } else if symbol_id(self.symbols, symbol) is Some {
            Some((ErrorKind::InvalidPrice, "symbol '"@ + symbol + "' already exists"@))
        } else if tick_size.units() <= 0 {
            Some((ErrorKind::InvalidPrice, "tick_size must be > 0"@))
        } else if lot_size.units() <= 0 {
            Some((ErrorKind::InvalidQty, "lot_size must be > 0"@))
        } else if !lot_size.is_integral() {
            Some((ErrorKind::InvalidQty, "lot_size must be a whole number"@))
        } else if max_ticks == 0 {
            Some((ErrorKind::InvalidPrice, "max_ticks must be > 0"@))
        } else {
            None
        }
    }

    /// Creating an instrument under the next id: the engine after, and the
    /// id or why it was refused.
    pub open spec fn create(
        self,
        symbol: Seq<char>,
        tick_size: Dec,
        lot_size: Dec,
        max_ticks: usize,
    ) -> (EngineView, Result<u64, (ErrorKind, Seq<char>)>) {
        match self.create_refusal(symbol, tick_size, lot_size, max_ticks) {
            Some(e) => (self, Err(e)),
            None => (
                EngineView {
                    next_id: (self.next_id + 1) as u64,
                    instruments: self.instruments.insert(
                        self.next_id,
                        new_instrument(self.next_id, symbol, tick_size, lot_size, max_ticks),
                    ),
                    symbols: self.symbols.push((symbol, self.next_id)),
                    ..self
                },
                Ok(self.next_id),
            ),
        }
    }

    /// Why creating an instrument with a given id is refused, if it is: as
    /// for `create_refusal`, and also when the id is in use.
    pub open spec fn create_with_id_refusal(
        self,
        id: u64,
        symbol: Seq<char>,
        tick_size: Dec,
        lot_size: Dec,
        max_ticks: usize,
    ) -> Option<(ErrorKind, Seq<char>)> {
        if symbol.len() == 0 {
            Some((ErrorKind::InstrumentNotFound, "symbol must not be empty"@))
        } else if symbol_id(self.symbols, symbol) is Some {
            Some((ErrorKind::InvalidPrice, "symbol '"@ + symbol + "' already exists"@))
        } else if self.instruments.contains_key(id) {
            Some(
                (
                    ErrorKind::InvalidPrice,
                    "instrument id "@ + decimal_digits(id as nat) + " already exists"@,
                ),
            )
        } else if tick_size.units() <= 0 {
            Some((ErrorKind::InvalidPrice, "tick_size must be > 0"@))
        } else if lot_size.units() <= 0 {
            Some((ErrorKind::InvalidQty, "lot_size must be > 0"@))
        } else if max_ticks == 0 {
            Some((ErrorKind::InvalidPrice, "max_ticks must be > 0"@))
        } else {
            None
        }
    }

    /// Creating an instrument with a given id; the next id moves past it.
    pub open spec fn create_with_id(
        self,
        id: u64,
        symbol: Seq<char>,
        tick_size: Dec,
        lot_size: Dec,
        max_ticks: usize,
    ) -> (EngineView, Result<u64, (ErrorKind, Seq<char>)>) {
        match self.create_with_id_refusal(id, symbol, tick_size, lot_size, max_ticks) {
            Some(e) => (self, Err(e)),
            None => (
                EngineView {
                    next_id: if self.next_id > id {
                        self.next_id
                    } else {
                        (id + 1) as u64
                    },
                    instruments: self.instruments.insert(
                        id,
                        new_instrument(id, symbol, tick_size, lot_size, max_ticks),
                    ),
                    symbols: self.symbols.push((symbol, id)),
                    ..self
                },
                Ok(id),
            ),
        }
    }
}

/// A trade price has moved from the reference price by at least the
/// share `halt_pct` of the reference price.
pub open spec fn breached(cb: CircuitBreaker, price: Dec) -> bool {
    let diff = if price.units() >= cb.reference_price.units() {
        decimal_difference(price, cb.reference_price)
    } else {
        decimal_difference(cb.reference_price, price)
    };
    diff.units() >= decimal_product(cb.reference_price, cb.halt_pct).units()
}

/// The circuit-breaker check of a price does not overflow.
pub open spec fn breach_ok(cb: CircuitBreaker, price: Dec) -> bool {
    &&& price.units() >= cb.reference_price.units() ==> difference_fits(price, cb.reference_price)
    &&& price.units() < cb.reference_price.units() ==> difference_fits(cb.reference_price, price)
    &&& product_fits(cb.reference_price, cb.halt_pct)
}

/// Some trade breaches the circuit breaker.
pub open spec fn any_breach(cb: CircuitBreaker, trades: Seq<Trade>) -> bool {
    exists|i: int| 0 <= i < trades.len() && breached(cb, #[trigger] trades[i].price)
}

/// A trade price breaches the circuit breaker exactly when its distance
/// from the reference price, above or below it, reaches the reference price
/// times `halt_pct`, given that `rust_decimal` computes that distance
/// exactly (as it does whenever the distance can be written at the larger
/// scale of the two prices).  So a fall below the reference halts just as a
/// rise above it does.
pub proof fn breach_is_distance_from_reference(cb: CircuitBreaker, price: Dec)
    requires
        price.units() >= cb.reference_price.units() ==> decimal_difference(
            price,
            cb.reference_price,
        ).units() == price.units() - cb.reference_price.units(),
        price.units() < cb.reference_price.units() ==> decimal_difference(
            cb.reference_price,
            price,
        ).units() == cb.reference_price.units() - price.units(),
    ensures
        breached(cb, price) == ((if price.units() >= cb.reference_price.units() {
            price.units() - cb.reference_price.units()
        } else {
            cb.reference_price.units() - price.units()
        }) >= decimal_product(cb.reference_price, cb.halt_pct).units()),
{
}

/// Two prices the same distance above and below the reference price both
/// breach the circuit breaker or both do not, given that `rust_decimal`
/// computes both distances exactly.
pub proof fn breach_is_symmetric(cb: CircuitBreaker, up: Dec, down: Dec)
    requires
        up.units() - cb.reference_price.units() == cb.reference_price.units() - down.units(),
        down.units() < cb.reference_price.units(),
        decimal_difference(up, cb.reference_price).units() == up.units()
            - cb.reference_price.units(),
        decimal_difference(cb.reference_price, down).units() == cb.reference_price.units()
            - down.units(),
    ensures
        breached(cb, up) == breached(cb, down),
{
}

/// Checking the trades in turn until one breaches does not overflow.
pub open spec fn breach_scan_ok(cb: CircuitBreaker, trades: Seq<Trade>) -> bool {
    forall|i: int|
        0 <= i < trades.len() && (forall|j: int| 0 <= j < i ==> !breached(cb, #[trigger] trades[j].price))
            ==> breach_ok(cb, #[trigger] trades[i].price)
}

/// The order-to-instrument map after the orders of the trades, taken in
/// turn, that no longer rest on the book leave it.
pub open spec fn drop_filled(
    m: Map<u128, u64>,
    trades: Seq<Trade>,
    index: Map<u128, (Side, usize)>,
) -> Map<u128, u64>
    decreases trades.len(),
{
    if trades.len() == 0 {
        m
    } else {
        let t = trades.last();
        let m1 = drop_filled(m, trades.drop_last(), index);
        let m2 = if index.contains_key(t.buy_order_id) {
            m1
        } else {
            m1.remove(t.buy_order_id)
        };
        if index.contains_key(t.sell_order_id) {
            m2
        } else {
            m2.remove(t.sell_order_id)
        }
    }
}

impl EngineView {
    /// Why placing an order is refused, if it is: its instrument is unknown
    /// or halted, its price is not a multiple of the tick size or beyond the
    /// book's ticks, or its quantity is not a multiple of the lot size.
    pub open spec fn place_refusal(self, o: Order) -> Option<(ErrorKind, Seq<char>)> {
        if !self.instruments.contains_key(o.instrument_id) {
            Some((ErrorKind::InstrumentNotFound, decimal_digits(o.instrument_id as nat)))
        } else {
            let ins = self.instruments[o.instrument_id];
            if ins.status == InstrumentStatus::Halted {
                Some((ErrorKind::InstrumentHalted, ins.symbol))
            } else if o.price matches Some(p) && !decimal_quotient(p, ins.tick_size).is_integral() {
                Some(
                    (
                        ErrorKind::InvalidPrice,
                        "price "@ + decimal_text(o.price->0) + " is not a multiple of tick_size "@
                            + decimal_text(ins.tick_size),
                    ),
                )
            } else if o.price matches Some(p) && price_tick(p) >= ins.book.max_ticks {
                Some(
                    (
                        ErrorKind::InvalidPrice,
                        "price "@ + decimal_text(o.price->0) + " exceeds max tick range"@,
                    ),
                )
            } else if !decimal_quotient(o.qty, ins.lot_size).is_integral() {
                Some(
                    (
                        ErrorKind::InvalidQty,
                        "quantity "@ + decimal_text(o.qty) + " is not a multiple of lot_size "@
                            + decimal_text(ins.lot_size),
                    ),
                )
            } else {
                None
            }
        }
    }

    /// Lot and tick sizes bind every order alike, buy or sell: an order is
    /// accepted only on an existing active instrument, with a quantity that
    /// is a whole multiple of the lot size and a price, if it has one, that
    /// is a whole multiple of the tick size below the book's last tick; and
    /// an order on an active instrument whose price passes but whose
    /// quantity is not a whole multiple of the lot size is refused with
    /// `InvalidQty`.
    pub proof fn lot_and_tick_sizes_bind_every_order(self, o: Order)
        ensures
            self.place_refusal(o) is None ==> {
                let ins = self.instruments[o.instrument_id];
                &&& self.instruments.contains_key(o.instrument_id)
                &&& ins.status == InstrumentStatus::Active
                &&& decimal_quotient(o.qty, ins.lot_size).is_integral()
                &&& (o.price matches Some(p) ==> decimal_quotient(p, ins.tick_size).is_integral()
                    && price_tick(p) < ins.book.max_ticks)
            },
            ({
                let ins = self.instruments[o.instrument_id];
                &&& self.instruments.contains_key(o.instrument_id)
                &&& ins.status == InstrumentStatus::Active
                &&& (o.price matches Some(p) ==> decimal_quotient(p, ins.tick_size).is_integral()
                    && price_tick(p) < ins.book.max_ticks)
                &&& !decimal_quotient(o.qty, ins.lot_size).is_integral()
            }) ==> (self.place_refusal(o) matches Some((k, _)) && k == ErrorKind::InvalidQty),
    {
    }

    /// Placing an order neither panics nor overflows: the divisions by the
    /// tick and lot sizes and the conversion of the price stay in range,
    /// matching does, and so does the circuit-breaker check.
    pub open spec fn place_ok(self, o: Order) -> bool {
        self.instruments.contains_key(o.instrument_id) && self.instruments[o.instrument_id].status
            == InstrumentStatus::Active ==> {
            let ins = self.instruments[o.instrument_id];
            &&& (o.price matches Some(p) ==> {
                &&& quotient_fits(p, ins.tick_size)
                &&& decimal_quotient(p, ins.tick_size).is_integral() ==> price_tick_ok(p)
            })
            &&& (o.price matches Some(p) ==> decimal_quotient(p, ins.tick_size).is_integral()
                && price_tick(p) < ins.book.max_ticks) ==> quotient_fits(o.qty, ins.lot_size)
            &&& self.place_refusal(o) is None ==> {
                &&& match_ok(ins.book, o)
                &&& (ins.circuit_breaker matches Some(cb) ==> breach_scan_ok(
                    cb,
                    match_outcome(ins.book, o).trades,
                ))
            }
        }
    }

    /// The engine after an accepted order: the instrument's book is the book
    /// after matching; the orders that traded and left the book leave the
    /// order map, and the incoming order joins it when it rests; the
    /// instrument halts when a trade breaches its circuit breaker.
    pub open spec fn after_place(self, o: Order) -> EngineView {
        let ins = self.instruments[o.instrument_id];
        let out = match_outcome(ins.book, o);
        let m1 = drop_filled(self.order_instrument, out.trades, out.book.index);
        let rests = (out.status == OrderStatus::Open || out.status == OrderStatus::PartiallyFilled)
            && out.book.index.contains_key(o.id);
        let halt = match ins.circuit_breaker {
            Some(cb) => any_breach(cb, out.trades),
            None => false,
        };
        EngineView {
            instruments: self.instruments.insert(
                o.instrument_id,
                InstrumentView {
                    book: out.book,
                    status: if halt {
                        InstrumentStatus::Halted
                    } else {
                        ins.status
                    },
                    ..ins
                },
            ),
            order_instrument: if rests {
                m1.insert(o.id, ins.id)
            } else {
                m1
            },
            ..self
        }
    }
}

/// Whether a trade price breaches the circuit breaker.
fn circuit_breached(cb: &CircuitBreaker, trade_price: Dec) -> (r: bool)
    requires
        cb.reference_price.wf(),
        cb.halt_pct.wf(),
        trade_price.wf(),
        breach_ok(*cb, trade_price),
    ensures
        r == breached(*cb, trade_price),
        ({
            let d = if trade_price.units() >= cb.reference_price.units() {
                trade_price.units() - cb.reference_price.units()
            } else {
                cb.reference_price.units() - trade_price.units()
            };
            representable_at(d, max_scale(trade_price, cb.reference_price)) ==> r == (d
                >= decimal_product(cb.reference_price, cb.halt_pct).units())
        }),
{
    let diff = if !dec_lt(trade_price, cb.reference_price) {
        dec_sub(trade_price, cb.reference_price)
    } else {
        dec_sub(cb.reference_price, trade_price)
    };
    let threshold = dec_mul(cb.reference_price, cb.halt_pct);
    !dec_lt(diff, threshold)
}

/// Whether some trade breaches the circuit breaker, checking them in turn.
fn trades_breach(cb: &CircuitBreaker, trades: &Vec<Trade>) -> (r: bool)
    requires
        cb.reference_price.wf(),
        cb.halt_pct.wf(),
        trade_prices_wf(trades@),
        breach_scan_ok(*cb, trades@),
    ensures
        r == any_breach(*cb, trades@),
{
    let n = trades.len();
    let mut i: usize = 0;
    while i < n
        invariant
            n == trades@.len(),
            i <= n,
            cb.reference_price.wf(),
            cb.halt_pct.wf(),
            trade_prices_wf(trades@),
            breach_scan_ok(*cb, trades@),
            forall|j: int| 0 <= j < i ==> !breached(*cb, #[trigger] trades@[j].price),
        decreases n - i,
    {
        assert(trades@[i as int].price.wf());
        if circuit_breached(cb, trades[i].price) {
            return true;
        }
        i += 1;
    }
    false
}

/// The ids that mass cancellation takes, scanning orders in turn: the
/// indexed ids of orders of participant `p`, each once.
pub open spec fn cancel_ids(s: Seq<Order>, p: Seq<char>, index: Map<u128, (Side, usize)>) -> Seq<
    u128,
>
    decreases s.len(),
{
    if s.len() == 0 {
        Seq::empty()
    } else {
        let prev = cancel_ids(s.drop_last(), p, index);
        let o = s.last();
        if o.participant_id@ == p && index.contains_key(o.id) && !prev.contains(o.id) {
            prev.push(o.id)
        } else {
            prev
        }
    }
}

/// The book after cancelling the ids in turn.
pub open spec fn cancel_all(b: BookView, ids: Seq<u128>) -> BookView
    decreases ids.len(),
{
    if ids.len() == 0 {
        b
    } else {
        cancel_all(b, ids.drop_last()).cancel(ids.last()).0
    }
}

/// Cancelling the ids in turn does not overflow.
pub open spec fn cancel_all_ok(b: BookView, ids: Seq<u128>) -> bool {
    forall|i: int| 0 <= i < ids.len() ==> #[trigger] cancel_all(b, ids.take(i)).cancel_ok(ids[i])
}

/// The map after the ids leave it in turn.
pub open spec fn remove_all(m: Map<u128, u64>, ids: Seq<u128>) -> Map<u128, u64>
    decreases ids.len(),
{
    if ids.len() == 0 {
        m
    } else {
        remove_all(m, ids.drop_last()).remove(ids.last())
    }
}

/// The orders of participant `p`.
pub open spec fn of_participant(s: Seq<Order>, p: Seq<char>) -> Seq<Order> {
    s.filter(|o: Order| o.participant_id@ == p)
}

impl EngineView {
    /// Cancelling an order by id: refused when the id is not tracked, its
    /// instrument is unknown, or its book does not hold it; otherwise the
    /// order leaves its book and the order map.
    pub open spec fn cancel_order(self, id: u128) -> (EngineView, Result<Order, (ErrorKind, Seq<char>)>) {
        if !self.order_instrument.contains_key(id) {
            (self, Err((ErrorKind::OrderNotFound, uuid_text(id))))
        } else {
            let iid = self.order_instrument[id];
            if !self.instruments.contains_key(iid) {
                (self, Err((ErrorKind::InstrumentNotFound, decimal_digits(iid as nat))))
            } else {
                let ins = self.instruments[iid];
                let (b2, r) = ins.book.cancel(id);
                let v1 = EngineView {
                    instruments: self.instruments.insert(iid, InstrumentView { book: b2, ..ins }),
                    ..self
                };
                match r {
                    None => (v1, Err((ErrorKind::OrderNotFound, uuid_text(id)))),
                    Some(o) => (
                        EngineView { order_instrument: self.order_instrument.remove(id), ..v1 },
                        Ok(o),
                    ),
                }
            }
        }
    }

    /// Cancelling the order does not overflow.
    pub open spec fn cancel_order_ok(self, id: u128) -> bool {
        self.order_instrument.contains_key(id) && self.instruments.contains_key(
            self.order_instrument[id],
        ) ==> self.instruments[self.order_instrument[id]].book.cancel_ok(id)
    }

    /// Loading an order straight onto its instrument's book, without
    /// matching, and recording its instrument.
    pub open spec fn load(self, o: Order) -> (EngineView, Result<(), (ErrorKind, Seq<char>)>) {
        if !self.instruments.contains_key(o.instrument_id) {
            (self, Err((ErrorKind::InstrumentNotFound, decimal_digits(o.instrument_id as nat))))
        } else {
            let ins = self.instruments[o.instrument_id];
            (
                EngineView {
                    instruments: self.instruments.insert(
                        o.instrument_id,
                        InstrumentView { book: ins.book.insert(o), ..ins },
                    ),
                    order_instrument: self.order_instrument.insert(o.id, ins.id),
                    ..self
                },
                Ok(()),
            )
        }
    }

    /// Loading the order neither panics nor overflows.
    pub open spec fn load_ok(self, o: Order) -> bool {
        self.instruments.contains_key(o.instrument_id) ==> self.instruments[o.instrument_id].book.insert_ok(o)
    }

    /// The ids that mass cancellation of participant `p` takes on an
    /// instrument.
    pub open spec fn mass_cancel_ids(self, iid: u64, p: Seq<char>) -> Seq<u128> {
        let b = self.instruments[iid].book;
        cancel_ids(book_orders(b), p, b.index)
    }

    /// Cancelling every resting order of participant `p` on an instrument:
    /// each indexed id of one of their orders is cancelled once and leaves
    /// the order map; the count of those ids (as a `u32`) is returned.
    pub open spec fn mass_cancel(self, iid: u64, p: Seq<char>) -> (EngineView, Result<u32, (ErrorKind, Seq<char>)>) {
        if !self.instruments.contains_key(iid) {
            (self, Err((ErrorKind::InstrumentNotFound, decimal_digits(iid as nat))))
        } else {
            let ins = self.instruments[iid];
            let ids = self.mass_cancel_ids(iid, p);
            (
                EngineView {
                    instruments: self.instruments.insert(
                        iid,
                        InstrumentView { book: cancel_all(ins.book, ids), ..ins },
                    ),
                    order_instrument: remove_all(self.order_instrument, ids),
                    ..self
                },
                Ok(ids.len() as u32),
            )
        }
    }

    /// Mass cancellation does not overflow.
    pub open spec fn mass_cancel_ok(self, iid: u64, p: Seq<char>) -> bool {
        self.instruments.contains_key(iid) ==> cancel_all_ok(
            self.instruments[iid].book,
            self.mass_cancel_ids(iid, p),
        )
    }

    /// The engine with an instrument's status replaced.
    pub open spec fn with_status(self, iid: u64, status: InstrumentStatus) -> EngineView {
        EngineView {
            instruments: self.instruments.insert(
                iid,
                InstrumentView { status, ..self.instruments[iid] },
            ),
            ..self
        }
    }

    /// The engine with an instrument's circuit breaker replaced.
    pub open spec fn with_breaker(self, iid: u64, cb: CircuitBreaker) -> EngineView {
        EngineView {
            instruments: self.instruments.insert(
                iid,
                InstrumentView { circuit_breaker: Some(cb), ..self.instruments[iid] },
            ),
            ..self
        }
    }
}

/// Whether `id` occurs in `v`.
fn contains_id(v: &Vec<u128>, id: u128) -> (r: bool)
    ensures
        r == v@.contains(id),
{
    let n = v.len();
    let mut i: usize = 0;
    while i < n
        invariant
            n == v@.len(),
            i <= n,
            forall|j: int| 0 <= j < i ==> v@[j] != id,
        decreases n - i,
    {
        if v[i] == id {
            assert(v@[i as int] == id);
            return true;
        }
        i += 1;
    }
    false
}

/// The resting orders of the first `n` instruments in creation order.
pub open spec fn orders_of_first(v: EngineView, n: int) -> Seq<Order>
    decreases n,
{
    if n <= 0 {
        Seq::empty()
    } else {
        orders_of_first(v, n - 1) + book_orders(v.instruments[v.symbols[n - 1].1].book)
    }
}

/// The resting orders of every instrument, instrument by instrument in
/// creation order.
pub open spec fn engine_orders(v: EngineView) -> Seq<Order> {
    orders_of_first(v, v.symbols.len() as int)
}

/// The orders come in nondecreasing timestamp order.
pub open spec fn sorted_by_ts(s: Seq<Order>) -> bool {
    forall|i: int, j: int| 0 <= i <= j < s.len() ==> #[trigger] s[i].ts <= #[trigger] s[j].ts
}

/// The orders sorted by timestamp, orders with equal timestamps keeping
/// their relative order.
fn sort_by_ts(v: &Vec<Order>) -> (r: Vec<Order>)
    ensures
        sorted_by_ts(r@),
        r@.to_multiset() == v@.to_multiset(),
{
    let mut out: Vec<Order> = Vec::new();
    let n = v.len();
    let mut i: usize = 0;
    assert(out@ =~= v@.take(0));
    while i < n
        invariant
            n == v@.len(),
            i <= n,
            sorted_by_ts(out@),
            out@.to_multiset() == v@.take(i as int).to_multiset(),
        decreases n - i,
    {
        let o = v[i].duplicate();
        let m = out.len();
        let mut j: usize = 0;
        while j < m && out[j].ts <= o.ts
            invariant
                j <= m,
                m == out@.len(),
                forall|k: int| 0 <= k < j ==> #[trigger] out@[k].ts <= o.ts,
            decreases m - j,
        {
            j += 1;
        }
        let ghost before = out@;
        proof {
            assert forall|k: int| j <= k < m implies #[trigger] before[k].ts > o.ts by {
                assert(before[j as int].ts > o.ts);
                assert(before[j as int].ts <= before[k].ts);
            }
            vstd::seq_lib::to_multiset_insert(before, j as int, o);
            assert(v@.take(i + 1) =~= v@.take(i as int).push(v@[i as int]));
            vstd::seq_lib::to_multiset_build(v@.take(i as int), v@[i as int]);
        }
        out.insert(j, o);
        proof {
            let a = out@;
            assert forall|p: int, q: int| 0 <= p <= q < a.len() implies #[trigger] a[p].ts
                <= #[trigger] a[q].ts by {
                if p < j {
                    assert(a[p] == before[p]);
                    if q < j {
                        assert(a[q] == before[q]);
                    } else if q > j {
                        assert(a[q] == before[q - 1]);
                    }
                } else if p == j {
                    if q > j {
                        assert(a[q] == before[q - 1]);
                    }
                } else {
                    assert(a[p] == before[p - 1]);
                    assert(a[q] == before[q - 1]);
                }
            }
        }
        i += 1;
    }
    assert(v@.take(n as int) =~= v@);
    out
}

/// Whether checking a trade price against the circuit breaker can run
/// without overflow.
fn breach_check_ok(cb: &CircuitBreaker, trade_price: Dec) -> (r: bool)
    requires
        cb.reference_price.wf(),
        cb.halt_pct.wf(),
        trade_price.wf(),
    ensures
        r == breach_ok(*cb, trade_price),
{
    let diff_ok = if !dec_lt(trade_price, cb.reference_price) {
        can_sub(trade_price, cb.reference_price)
    } else {
        can_sub(cb.reference_price, trade_price)
    };
    diff_ok && can_mul(cb.reference_price, cb.halt_pct)
}

/// Whether checking the trades in turn against the circuit breaker, until
/// one breaches it, can run without overflow.
fn breach_scan_check(cb: &CircuitBreaker, trades: &Vec<Trade>) -> (r: bool)
    requires
        cb.reference_price.wf(),
        cb.halt_pct.wf(),
        trade_prices_wf(trades@),
    ensures
        r == breach_scan_ok(*cb, trades@),
{
    let n = trades.len();
    let mut i: usize = 0;
    while i < n
        invariant
            n == trades@.len(),
            i <= n,
            cb.reference_price.wf(),
            cb.halt_pct.wf(),
            trade_prices_wf(trades@),
            forall|j: int| 0 <= j < i ==> breach_ok(*cb, #[trigger] trades@[j].price),
            forall|j: int| 0 <= j < i ==> !breached(*cb, #[trigger] trades@[j].price),
        decreases n - i,
    {
        assert(trades@[i as int].price.wf());
        if !breach_check_ok(cb, trades[i].price) {
            return false;
        }
        if circuit_breached(cb, trades[i].price) {
            proof {
                assert forall|k: int|
                    0 <= k < trades@.len() && (forall|j: int|
                        0 <= j < k ==> !breached(*cb, #[trigger] trades@[j].price)) implies breach_ok(
                    *cb,
                    #[trigger] trades@[k].price,
                ) by {
                    if k > i {
                        assert(breached(*cb, trades@[i as int].price));
                    }
                }
            }
            return true;
        }
        i += 1;
    }
    true
}

/// The ids mass cancellation of participant `p` takes on a book.
fn ids_to_cancel(book: &OrderBook, participant_id: &str) -> (r: Vec<u128>)
    ensures
        r@ == cancel_ids(book_orders(book@), participant_id@, book@.index),
{
    let all = book.resting();
    let mut to_cancel: Vec<u128> = Vec::new();
    let n = all.len();
    let mut i: usize = 0;
    while i < n
        invariant
            n == all@.len(),
            i <= n,
            to_cancel@ == cancel_ids(all@.take(i as int), participant_id@, book@.index),
        decreases n - i,
    {
        assert(all@.take(i + 1).drop_last() =~= all@.take(i as int));
        let id = all[i].id;
        if str_eq(all[i].participant_id.as_str(), participant_id) && book.order_index.contains_key(
            &id,
        ) && !contains_id(&to_cancel, id) {
            to_cancel.push(id);
        }
        i += 1;
    }
    assert(all@.take(n as int) =~= all@);
    to_cancel
}

/// Whether cancelling `id` on the book can run without overflow.
fn cancel_check(book: &OrderBook, id: u128) -> (r: bool)
    requires
        book@.wf(),
    ensures
        r == book@.cancel_ok(id),
{
    let (side, tick) = match book.order_index.get(&id) {
        Some(x) => *x,
        None => {
            return true;
        },
    };
    let level = match side {
        Side::Buy => book.bid_levels.get(&tick),
        Side::Sell => book.ask_levels.get(&tick),
    };
    let level = match level {
        Some(l) => l,
        None => {
            assert(false);
            return true;
        },
    };
    let ghost orders = level@.orders;
    assert(orders == book@.side(side).levels[tick].orders);
    let n = level.orders.len();
    let mut pos: usize = 0;
    while pos < n
        invariant
            n == orders.len(),
            orders == level@.orders,
            book@.wf(),
            book@.index.contains_key(id),
            book@.index[id] == (side, tick),
            book@.side(side).levels.contains_key(tick),
            level@ == book@.side(side).levels[tick],
            pos <= n,
            forall|j: int| 0 <= j < pos ==> #[trigger] orders[j].id != id,
        decreases n - pos,
    {
        if level.orders[pos].id == id {
            proof {
                lemma_find_id(orders, id, pos as int);
            }
            assert(level@.wf());
            assert(orders[pos as int].wf());
            return can_sub(level.total_qty, level.orders[pos].remaining);
        }
        pos += 1;
    }
    proof {
        lemma_find_id(orders, id, n as int);
    }
    assert(false);
    true
}

/// A matching engine over many instruments.
pub struct ClobEngine {
    next_id: u64,
    instruments: HashMap<u64, Instrument>,
    symbol_map: Vec<(String, u64)>,
    order_instrument: HashMap<u128, u64>,
}

impl View for ClobEngine {
    type V = EngineView;

    closed spec fn view(&self) -> EngineView {
        EngineView {
            next_id: self.next_id,
            instruments: self.instruments@.map_values(|i: Instrument| i@),
            symbols: self.symbol_map@.map(|k: int, p: (String, u64)| (p.0@, p.1)),
            order_instrument: self.order_instrument@,
        }
    }
}

impl ClobEngine {
    /// An engine with no instruments; the first id is 1.
    pub fn new() -> (r: ClobEngine)
        ensures
            r@ == (EngineView {
                next_id: 1,
                instruments: Map::empty(),
                symbols: Seq::empty(),
                order_instrument: Map::empty(),
            }),
            r@.wf(),
    {
        let r = ClobEngine {
            next_id: 1,
            instruments: HashMap::new(),
            symbol_map: Vec::new(),
            order_instrument: HashMap::new(),
        };
        assert(r@.instruments =~= Map::empty());
        assert(r@.symbols =~= Seq::empty());
        r
    }

    /// The id of the instrument with `symbol`, if there is one.
    pub fn instrument_id(&self, symbol: &str) -> (r: Option<u64>)
        requires
            self@.wf(),
        ensures
            r == symbol_id(self@.symbols, symbol@),
    {
        let ghost s = self@.symbols;
        let n = self.symbol_map.len();
        let mut i: usize = 0;
        while i < n
            invariant
                n == self.symbol_map@.len(),
                s == self@.symbols,
                s.len() == n,
                i <= n,
                self@.wf(),
                forall|j: int| 0 <= j < i ==> s[j].0 != symbol@,
            decreases n - i,
        {
            assert(s[i as int] == (self.symbol_map@[i as int].0@, self.symbol_map@[i as int].1));
            if str_eq(self.symbol_map[i].0.as_str(), symbol) {
                let id = self.symbol_map[i].1;
                proof {
                    assert(s[i as int].0 == symbol@);
                    let c = choose|k: int| 0 <= k < s.len() && #[trigger] s[k].0 == symbol@;
                    if c != i {
                        if c < i {
                            assert(s[c].0 != s[i as int].0);
                        } else {
                            assert(s[i as int].0 != s[c].0);
                        }
                    }
                }
                return Some(id);
            }
            i += 1;
        }
        None
    }

    /// Creates an instrument under the next id.
    pub fn create_instrument(
        &mut self,
        symbol: &str,
        tick_size: Dec,
        lot_size: Dec,
        max_ticks: usize,
    ) -> (r: Result<u64, ClobError>)
        requires
            old(self)@.wf(),
            tick_size.wf(),
            lot_size.wf(),
            old(self)@.create_refusal(symbol@, tick_size, lot_size, max_ticks) is None ==> old(self)@.next_id < u64::MAX,
        ensures
            final(self)@.wf(),
            (final(self)@, result_view(r)) == old(self)@.create(
                symbol@,
                tick_size,
                lot_size,
                max_ticks,
            ),
    {
        if symbol.is_empty() {
            return Err(ClobError::InstrumentNotFound("symbol must not be empty".to_owned()));
        }
        if self.instrument_id(symbol).is_some() {
            let text = concat(concat("symbol '", symbol).as_str(), "' already exists");
            return Err(ClobError::InvalidPrice(text));
        }
        if !tick_size.is_positive() {
            return Err(ClobError::InvalidPrice("tick_size must be > 0".to_owned()));
        }
        if !lot_size.is_positive() {
            return Err(ClobError::InvalidQty("lot_size must be > 0".to_owned()));
        }
        let fraction = dec_fract(lot_size);
        proof {
            lemma_units_sign(fraction);
        }
        if !fraction.is_zero() {
            return Err(ClobError::InvalidQty("lot_size must be a whole number".to_owned()));
        }
        if max_ticks == 0 {
            return Err(ClobError::InvalidPrice("max_ticks must be > 0".to_owned()));
        }
        let id = self.next_id;
        self.add_instrument(id, symbol, tick_size, lot_size, max_ticks);
        self.next_id = id + 1;
        Ok(id)
    }

    /// Creates an instrument with a given id; the next id moves past it.
    pub fn create_instrument_with_id(
        &mut self,
        id: u64,
        symbol: &str,
        tick_size: Dec,
        lot_size: Dec,
        max_ticks: usize,
    ) -> (r: Result<u64, ClobError>)
        requires
            old(self)@.wf(),
            tick_size.wf(),
            lot_size.wf(),
            old(self)@.create_with_id_refusal(id, symbol@, tick_size, lot_size, max_ticks) is None
                ==> id < u64::MAX,
        ensures
            final(self)@.wf(),
            (final(self)@, result_view(r)) == old(self)@.create_with_id(
                id,
                symbol@,
                tick_size,
                lot_size,
                max_ticks,
            ),
    {
        if symbol.is_empty() {
            return Err(ClobError::InstrumentNotFound("symbol must not be empty".to_owned()));
        }
        if self.instrument_id(symbol).is_some() {
            let text = concat(concat("symbol '", symbol).as_str(), "' already exists");
            return Err(ClobError::InvalidPrice(text));
        }
        if self.instruments.contains_key(&id) {
            let text = concat(
                concat("instrument id ", u64_to_string(id).as_str()).as_str(),
                " already exists",
            );
            return Err(ClobError::InvalidPrice(text));
        }
        if !tick_size.is_positive() {
            return Err(ClobError::InvalidPrice("tick_size must be > 0".to_owned()));
        }
        if !lot_size.is_positive() {
            return Err(ClobError::InvalidQty("lot_size must be > 0".to_owned()));
        }
        if max_ticks == 0 {
            return Err(ClobError::InvalidPrice("max_ticks must be > 0".to_owned()));
        }
        let next = if self.next_id > id {
            self.next_id
        } else {
            id + 1
        };
        self.add_instrument(id, symbol, tick_size, lot_size, max_ticks);
        self.next_id = next;
        Ok(id)
    }

    /// Registers a new active instrument with an empty book.
    fn add_instrument(
        &mut self,
        id: u64,
        symbol: &str,
        tick_size: Dec,
        lot_size: Dec,
        max_ticks: usize,
    )
        requires
            old(self)@.wf(),
            !old(self)@.instruments.contains_key(id),
            symbol_id(old(self)@.symbols, symbol@) is None,
            tick_size.wf(),
            tick_size.units() > 0,
            lot_size.wf(),
            lot_size.units() > 0,
            max_ticks > 0,
        ensures
            final(self)@ == (EngineView {
                instruments: old(self)@.instruments.insert(
                    id,
                    new_instrument(id, symbol@, tick_size, lot_size, max_ticks),
                ),
                symbols: old(self)@.symbols.push((symbol@, id)),
                ..old(self)@
            }),
            forall|k: u64| #[trigger]
                final(self)@.instruments.contains_key(k) ==> {
                    &&& final(self)@.instruments[k].wf()
                    &&& final(self)@.instruments[k].id == k
                },
            forall|i: int, j: int|
                0 <= i < j < final(self)@.symbols.len() ==> #[trigger] final(self)@.symbols[i].0
                    != #[trigger] final(self)@.symbols[j].0 && final(self)@.symbols[i].1
                    != final(self)@.symbols[j].1,
            forall|i: int|
                0 <= i < final(self)@.symbols.len() ==> final(self)@.instruments.contains_key(
                    #[trigger] final(self)@.symbols[i].1,
                ) && final(self)@.instruments[final(self)@.symbols[i].1].symbol == final(self)@.symbols[i].0,
            forall|k: u64| #[trigger]
                final(self)@.instruments.contains_key(k) ==> exists|i: int|
                    0 <= i < final(self)@.symbols.len() && #[trigger] final(self)@.symbols[i].1 == k,
    {
        let ghost v0 = self@;
        let instrument = Instrument {
            id,
            symbol: symbol.to_owned(),
            tick_size,
            lot_size,
            status: InstrumentStatus::Active,
            circuit_breaker: None,
            book: OrderBook::new(max_ticks),
        };
        assert(instrument@ == new_instrument(id, symbol@, tick_size, lot_size, max_ticks));
        self.instruments.insert(id, instrument);
        self.symbol_map.push((symbol.to_owned(), id));
        proof {
            let v = self@;
            assert(v.instruments =~= v0.instruments.insert(
                id,
                new_instrument(id, symbol@, tick_size, lot_size, max_ticks),
            ));
            assert(v.symbols =~= v0.symbols.push((symbol@, id)));
            let n = v0.symbols.len();
            assert forall|i: int, j: int| 0 <= i < j < v.symbols.len() implies #[trigger] v.symbols[i].0
                != #[trigger] v.symbols[j].0 && v.symbols[i].1 != v.symbols[j].1 by {
                if j == n {
                    assert(v.symbols[i] == v0.symbols[i]);
                    if v0.symbols[i].0 == symbol@ {
                        assert(exists|k: int| 0 <= k < v0.symbols.len() && #[trigger] v0.symbols[k].0 == symbol@);
                    }
                    assert(v0.instruments.contains_key(v0.symbols[i].1));
                } else {
                    assert(v.symbols[i] == v0.symbols[i]);
                    assert(v.symbols[j] == v0.symbols[j]);
                }
            }
            assert forall|k: u64| #[trigger] v.instruments.contains_key(k) implies exists|i: int|
                0 <= i < v.symbols.len() && #[trigger] v.symbols[i].1 == k by {
                if k == id {
                    assert(v.symbols[n as int].1 == k);
                } else {
                    let i = choose|i: int| 0 <= i < v0.symbols.len() && #[trigger] v0.symbols[i].1 == k;
                    assert(v.symbols[i] == v0.symbols[i]);
                }
            }
            assert forall|i: int| 0 <= i < v.symbols.len() implies v.instruments.contains_key(
                #[trigger] v.symbols[i].1,
            ) && v.instruments[v.symbols[i].1].symbol == v.symbols[i].0 by {
                if i < n {
                    assert(v.symbols[i] == v0.symbols[i]);
                    assert(v0.instruments.contains_key(v0.symbols[i].1));
                    assert(v0.symbols[i].1 != id);
                }
            }
        }
    }

    /// Places an order: validates it against its instrument, matches it,
    /// keeps the order map up to date and applies the circuit breaker.
    pub fn place_order(&mut self, order: Order) -> (r: Result<PlaceOrderResult, ClobError>)
        requires
            old(self)@.wf(),
            order.wf(),
            old(self)@.place_ok(order),
        ensures
            final(self)@.wf(),
            match r {
                Err(e) => old(self)@.place_refusal(order) == Some(e@) && final(self)@ == old(self)@,
                Ok(res) => {
                    let out = match_outcome(old(self)@.instruments[order.instrument_id].book, order);
                    &&& old(self)@.place_refusal(order) is None
                    &&& res.order_id == order.id
                    &&& res.status == out.status
                    &&& res.filled_qty == out.filled
                    &&& res.avg_fill_price == out.avg
                    &&& res.trades@ == out.trades
                    &&& final(self)@ == old(self)@.after_place(order)
                },
            },
            ({
                let b0 = old(self)@.instruments[order.instrument_id].book;
                let b1 = final(self)@.instruments[order.instrument_id].book;
                &&& r is Ok && keeps_in_step(b0, order) ==> book_consistent(b1)
                &&& r is Ok && keeps_in_step(b0, order) && uncrossed(b0) && b0.max_ticks
                    <= i64::MAX && (order.price matches Some(p) ==> tick_exact(p)) ==> uncrossed(b1)
            }),
    {
        let ghost v0 = self@;
        let iid = order.instrument_id;
        let instr = match self.instruments.get(&iid) {
            Some(i) => i,
            None => {
                return Err(ClobError::InstrumentNotFound(u64_to_string(iid)));
            },
        };
        assert(instr@ == v0.instruments[iid]);
        if instr.status == InstrumentStatus::Halted {
            return Err(ClobError::InstrumentHalted(instr.symbol.clone()));
        }
        if let Some(price) = order.price {
            let divided = dec_div(price, instr.tick_size);
            let fraction = dec_fract(divided);
            proof {
                lemma_units_sign(fraction);
            }
            if !fraction.is_zero() {
                let text = concat(
                    concat(
                        concat("price ", dec_to_string(price).as_str()).as_str(),
                        " is not a multiple of tick_size ",
                    ).as_str(),
                    dec_to_string(instr.tick_size).as_str(),
                );
                return Err(ClobError::InvalidPrice(text));
            }
            let tick = price_to_tick(price);
            if tick >= instr.book.max_ticks {
                let text = concat(
                    concat("price ", dec_to_string(price).as_str()).as_str(),
                    " exceeds max tick range",
                );
                return Err(ClobError::InvalidPrice(text));
            }
        }
        let divided = dec_div(order.qty, instr.lot_size);
        let fraction = dec_fract(divided);
        proof {
            lemma_units_sign(fraction);
        }
        if !fraction.is_zero() {
            let text = concat(
                concat(
                    concat("quantity ", dec_to_string(order.qty).as_str()).as_str(),
                    " is not a multiple of lot_size ",
                ).as_str(),
                dec_to_string(instr.lot_size).as_str(),
            );
            return Err(ClobError::InvalidQty(text));
        }
        assert(v0.place_refusal(order) is None);
        let order_id = order.id;
        let ghost o = order;
        let mut instr = self.instruments.remove(&iid).unwrap();
        let ghost ins0 = instr@;
        let result = match_order(&mut instr.book, order);
        let ghost out = match_outcome(ins0.book, o);
        let ghost oi0 = self.order_instrument@;
        let ghost im = self.instruments@;
        let ghost sm = self.symbol_map@;
        let ghost nid = self.next_id;
        let n = result.trades.len();
        let mut i: usize = 0;
        while i < n
            invariant
                n == result.trades@.len(),
                i <= n,
                self.order_instrument@ == drop_filled(
                    oi0,
                    result.trades@.take(i as int),
                    instr.book@.index,
                ),
                self.instruments@ == im,
                self.symbol_map@ == sm,
                self.next_id == nid,
            decreases n - i,
        {
            let ghost before = result.trades@.take(i as int);
            assert(result.trades@.take(i + 1).drop_last() =~= before);
            let buy = result.trades[i].buy_order_id;
            let sell = result.trades[i].sell_order_id;
            if !instr.book.order_index.contains_key(&buy) {
                self.order_instrument.remove(&buy);
            }
            if !instr.book.order_index.contains_key(&sell) {
                self.order_instrument.remove(&sell);
            }
            i += 1;
        }
        assert(result.trades@.take(n as int) =~= result.trades@);
        match result.status {
            OrderStatus::Open | OrderStatus::PartiallyFilled => {
                if instr.book.order_index.contains_key(&order_id) {
                    self.order_instrument.insert(order_id, instr.id);
                }
            },
            _ => {},
        }
        proof {
            lemma_outcome_trade_prices_wf(ins0.book, o);
        }
        let halt = match &instr.circuit_breaker {
            Some(cb) => trades_breach(cb, &result.trades),
            None => false,
        };
        if halt {
            instr.status = InstrumentStatus::Halted;
        }
        self.instruments.insert(iid, instr);
        proof {
            let v = self@;
            let w = v0.after_place(o);
            assert(v.instruments =~= w.instruments);
            assert(v.order_instrument =~= w.order_instrument);
            assert(v.symbols == w.symbols);
            assert forall|k: u64| #[trigger] v.instruments.contains_key(k) implies exists|j: int|
                0 <= j < v.symbols.len() && #[trigger] v.symbols[j].1 == k by {
                assert(v0.instruments.contains_key(k));
            }
        }
        Ok(result)
    }

    /// The instrument stored under `iid`, taken out of the map.
    fn take_instrument(&mut self, iid: u64) -> (r: Option<Instrument>)
        requires
            old(self)@.wf(),
        ensures
            match r {
                None => final(self)@ == old(self)@ && !old(self)@.instruments.contains_key(iid),
                Some(ins) => {
                    &&& old(self)@.instruments.contains_key(iid)
                    &&& ins@ == old(self)@.instruments[iid]
                    &&& final(self)@ == (EngineView {
                        instruments: old(self)@.instruments.remove(iid),
                        ..old(self)@
                    })
                },
            },
    {
        let r = self.instruments.remove(&iid);
        proof {
            if r is Some {
                assert(self@.instruments =~= old(self)@.instruments.remove(iid));
            } else {
                assert(self@.instruments =~= old(self)@.instruments);
            }
        }
        r
    }

    /// Puts an instrument back under its id.
    fn put_instrument(&mut self, iid: u64, ins: Instrument, Ghost(v0): Ghost<EngineView>)
        requires
            v0.wf(),
            v0.instruments.contains_key(iid),
            old(self)@ == (EngineView { instruments: v0.instruments.remove(iid), ..old(self)@ }),
            old(self)@.next_id == v0.next_id,
            old(self)@.symbols == v0.symbols,
            ins@.wf(),
            ins@.id == iid,
            ins@.symbol == v0.instruments[iid].symbol,
        ensures
            final(self)@ == (EngineView {
                instruments: v0.instruments.insert(iid, ins@),
                ..old(self)@
            }),
            final(self)@.wf(),
    {
        let ghost iv = ins@;
        self.instruments.insert(iid, ins);
        proof {
            let v = self@;
            assert(self.instruments@ == old(self).instruments@.insert(iid, ins));
            assert(old(self)@.instruments == v0.instruments.remove(iid));
            assert forall|k: u64| #[trigger] v.instruments.contains_key(k) == v0.instruments.insert(iid, iv).contains_key(k) by {
                if k != iid {
                    assert(old(self).instruments@.contains_key(k) == old(self)@.instruments.contains_key(k));
                }
            }
            assert forall|k: u64| #[trigger] v.instruments.contains_key(k) implies v.instruments[k] == v0.instruments.insert(iid, iv)[k] by {
                if k != iid {
                    assert(old(self).instruments@.contains_key(k));
                    assert(old(self)@.instruments[k] == old(self).instruments@[k]@);
                }
            }
            assert(v.instruments =~= v0.instruments.insert(iid, iv));
            assert(v.symbols == v0.symbols);
            assert forall|k: u64| #[trigger] v.instruments.contains_key(k) implies exists|j: int|
                0 <= j < v.symbols.len() && #[trigger] v.symbols[j].1 == k by {
                assert(v0.instruments.contains_key(k));
                let j = choose|j: int| 0 <= j < v0.symbols.len() && #[trigger] v0.symbols[j].1 == k;
                assert(v.symbols[j].1 == k);
            }
        }
    }

    /// Loads an order straight onto its instrument's book without matching,
    /// as when state is restored.
    pub fn load_order(&mut self, order: Order) -> (r: Result<(), ClobError>)
        requires
            old(self)@.wf(),
            order.wf(),
            old(self)@.load_ok(order),
        ensures
            final(self)@.wf(),
            (final(self)@, result_view(r)) == old(self)@.load(order),
    {
        let ghost v0 = self@;
        let iid = order.instrument_id;
        let mut instr = match self.take_instrument(iid) {
            Some(i) => i,
            None => {
                return Err(ClobError::InstrumentNotFound(u64_to_string(iid)));
            },
        };
        let order_id = order.id;
        instr.book.insert(order);
        let id = instr.id;
        self.put_instrument(iid, instr, Ghost(v0));
        self.order_instrument.insert(order_id, id);
        proof {
            assert(self@.instruments =~= v0.load(order).0.instruments);
        }
        Ok(())
    }

    /// Cancels a resting order by id.
    pub fn cancel_order(&mut self, order_id: u128) -> (r: Result<Order, ClobError>)
        requires
            old(self)@.wf(),
            old(self)@.cancel_order_ok(order_id),
        ensures
            final(self)@.wf(),
            (final(self)@, result_view(r)) == old(self)@.cancel_order(order_id),
    {
        let ghost v0 = self@;
        let iid = match self.order_instrument.get(&order_id) {
            Some(i) => *i,
            None => {
                return Err(ClobError::OrderNotFound(uuid_to_string(order_id)));
            },
        };
        let mut instr = match self.take_instrument(iid) {
            Some(i) => i,
            None => {
                return Err(ClobError::InstrumentNotFound(u64_to_string(iid)));
            },
        };
        let cancelled = instr.book.cancel(order_id);
        self.put_instrument(iid, instr, Ghost(v0));
        match cancelled {
            Some(o) => {
                self.order_instrument.remove(&order_id);
                Ok(o)
            },
            None => Err(ClobError::OrderNotFound(uuid_to_string(order_id))),
        }
    }

    /// Cancels every resting order of a participant on an instrument and
    /// returns how many ids were cancelled.
    pub fn mass_cancel(&mut self, instrument_id: u64, participant_id: &str) -> (r: Result<
        u32,
        ClobError,
    >)
        requires
            old(self)@.wf(),
            old(self)@.mass_cancel_ok(instrument_id, participant_id@),
        ensures
            final(self)@.wf(),
            (final(self)@, result_view(r)) == old(self)@.mass_cancel(
                instrument_id,
                participant_id@,
            ),
    {
        let ghost v0 = self@;
        let mut instr = match self.take_instrument(instrument_id) {
            Some(i) => i,
            None => {
                return Err(ClobError::InstrumentNotFound(u64_to_string(instrument_id)));
            },
        };
        let ghost b0 = instr.book@;
        let ghost ins0 = instr@;
        let to_cancel = ids_to_cancel(&instr.book, participant_id);
        let count = to_cancel.len() as u32;
        let ghost ids = to_cancel@;
        let ghost oi0 = self.order_instrument@;
        let ghost im = self.instruments@;
        let ghost sm = self.symbol_map@;
        let ghost nid = self.next_id;
        let m = to_cancel.len();
        let mut k: usize = 0;
        while k < m
            invariant
                m == ids.len(),
                ids == to_cancel@,
                ids == v0.mass_cancel_ids(instrument_id, participant_id@),
                v0.mass_cancel_ok(instrument_id, participant_id@),
                v0.instruments.contains_key(instrument_id),
                b0 == v0.instruments[instrument_id].book,
                k <= m,
                instr.book@ == cancel_all(b0, ids.take(k as int)),
                instr@ == (InstrumentView { book: instr.book@, ..ins0 }),
                ins0 == v0.instruments[instrument_id],
                v0.wf(),
                instr.book@.wf(),
                instr.book@.max_ticks == b0.max_ticks,
                self.order_instrument@ == remove_all(oi0, ids.take(k as int)),
                self.instruments@ == im,
                self.symbol_map@ == sm,
                self.next_id == nid,
            decreases m - k,
        {
            let id = to_cancel[k];
            assert(ids.take(k + 1).drop_last() =~= ids.take(k as int));
            assert(cancel_all(b0, ids.take(k as int)).cancel_ok(ids[k as int]));
            instr.book.cancel(id);
            self.order_instrument.remove(&id);
            k += 1;
        }
        assert(ids.take(m as int) =~= ids);
        self.put_instrument(instrument_id, instr, Ghost(v0));
        proof {
            assert(self@.instruments =~= v0.mass_cancel(instrument_id, participant_id@).0.instruments);
        }
        Ok(count)
    }

    /// The resting orders of a participant on an instrument: bids by tick,
    /// then asks by tick, each level in time priority.
    pub fn get_open_orders(&self, instrument_id: u64, participant_id: &str) -> (r: Result<
        Vec<Order>,
        ClobError,
    >)
        requires
            self@.wf(),
        ensures
            match r {
                Err(e) => !self@.instruments.contains_key(instrument_id) && e@ == (
                    ErrorKind::InstrumentNotFound,
                    decimal_digits(instrument_id as nat),
                ),
                Ok(v) => self@.instruments.contains_key(instrument_id) && v@ == of_participant(
                    book_orders(self@.instruments[instrument_id].book),
                    participant_id@,
                ),
            },
    {
        let instr = match self.instruments.get(&instrument_id) {
            Some(i) => i,
            None => {
                return Err(ClobError::InstrumentNotFound(u64_to_string(instrument_id)));
            },
        };
        assert(instr@ == self@.instruments[instrument_id]);
        let all = instr.book.resting();
        let ghost pred = |o: Order| o.participant_id@ == participant_id@;
        let mut out: Vec<Order> = Vec::new();
        let n = all.len();
        let mut i: usize = 0;
        while i < n
            invariant
                n == all@.len(),
                i <= n,
                out@ == all@.take(i as int).filter(pred),
                pred == (|o: Order| o.participant_id@ == participant_id@),
            decreases n - i,
        {
            proof {
                assert(all@.take(i + 1) =~= all@.take(i as int).push(all@[i as int]));
                all@.take(i as int).lemma_filter_push(all@[i as int], pred);
            }
            if str_eq(all[i].participant_id.as_str(), participant_id) {
                out.push(all[i].duplicate());
            }
            i += 1;
        }
        assert(all@.take(n as int) =~= all@);
        Ok(out)
    }

    /// The depth of both sides of an instrument's book.
    pub fn get_book_depth(&self, instrument_id: u64, levels: usize) -> (r: Result<
        BookDepth,
        ClobError,
    >)
        requires
            self@.wf(),
        ensures
            match r {
                Err(e) => !self@.instruments.contains_key(instrument_id) && e@ == (
                    ErrorKind::InstrumentNotFound,
                    decimal_digits(instrument_id as nat),
                ),
                Ok(d) => {
                    &&& self@.instruments.contains_key(instrument_id)
                    &&& d.bids@ == self@.instruments[instrument_id].book.depth(
                        Side::Buy,
                        levels as nat,
                    )
                    &&& d.asks@ == self@.instruments[instrument_id].book.depth(
                        Side::Sell,
                        levels as nat,
                    )
                },
            },
    {
        let instr = match self.instruments.get(&instrument_id) {
            Some(i) => i,
            None => {
                return Err(ClobError::InstrumentNotFound(u64_to_string(instrument_id)));
            },
        };
        assert(self@.instruments.contains_key(instrument_id));
        assert(instr@ == self@.instruments[instrument_id]);
        Ok(
            BookDepth {
                bids: instr.book.depth(Side::Buy, levels),
                asks: instr.book.depth(Side::Sell, levels),
            },
        )
    }

    /// Sets the status of an instrument.
    fn set_status(&mut self, instrument_id: u64, status: InstrumentStatus) -> (r: Result<
        (),
        ClobError,
    >)
        requires
            old(self)@.wf(),
        ensures
            final(self)@.wf(),
            !old(self)@.instruments.contains_key(instrument_id) ==> final(self)@ == old(self)@
                && result_view(r) == Err::<(), (ErrorKind, Seq<char>)>(
                (ErrorKind::InstrumentNotFound, decimal_digits(instrument_id as nat)),
            ),
            old(self)@.instruments.contains_key(instrument_id) ==> final(self)@ == old(
                self,
            )@.with_status(instrument_id, status) && r is Ok,
    {
        let ghost v0 = self@;
        let mut instr = match self.take_instrument(instrument_id) {
            Some(i) => i,
            None => {
                return Err(ClobError::InstrumentNotFound(u64_to_string(instrument_id)));
            },
        };
        instr.status = status;
        self.put_instrument(instrument_id, instr, Ghost(v0));
        Ok(())
    }

    /// Halts an instrument: its orders are refused until it resumes.
    pub fn halt_instrument(&mut self, instrument_id: u64) -> (r: Result<(), ClobError>)
        requires
            old(self)@.wf(),
        ensures
            final(self)@.wf(),
            !old(self)@.instruments.contains_key(instrument_id) ==> final(self)@ == old(self)@
                && result_view(r) == Err::<(), (ErrorKind, Seq<char>)>(
                (ErrorKind::InstrumentNotFound, decimal_digits(instrument_id as nat)),
            ),
            old(self)@.instruments.contains_key(instrument_id) ==> final(self)@ == old(
                self,
            )@.with_status(instrument_id, InstrumentStatus::Halted) && r is Ok,
    {
        self.set_status(instrument_id, InstrumentStatus::Halted)
    }

    /// Resumes trading on an instrument.
    pub fn resume_instrument(&mut self, instrument_id: u64) -> (r: Result<(), ClobError>)
        requires
            old(self)@.wf(),
        ensures
            final(self)@.wf(),
            !old(self)@.instruments.contains_key(instrument_id) ==> final(self)@ == old(self)@
                && result_view(r) == Err::<(), (ErrorKind, Seq<char>)>(
                (ErrorKind::InstrumentNotFound, decimal_digits(instrument_id as nat)),
            ),
            old(self)@.instruments.contains_key(instrument_id) ==> final(self)@ == old(
                self,
            )@.with_status(instrument_id, InstrumentStatus::Active) && r is Ok,
    {
        self.set_status(instrument_id, InstrumentStatus::Active)
    }

    /// Sets the circuit breaker of an instrument.
    pub fn set_circuit_breaker(&mut self, instrument_id: u64, cb: CircuitBreaker) -> (r: Result<
        (),
        ClobError,
    >)
        requires
            old(self)@.wf(),
            cb.reference_price.wf(),
            cb.halt_pct.wf(),
        ensures
            final(self)@.wf(),
            !old(self)@.instruments.contains_key(instrument_id) ==> final(self)@ == old(self)@
                && result_view(r) == Err::<(), (ErrorKind, Seq<char>)>(
                (ErrorKind::InstrumentNotFound, decimal_digits(instrument_id as nat)),
            ),
            old(self)@.instruments.contains_key(instrument_id) ==> final(self)@ == old(
                self,
            )@.with_breaker(instrument_id, cb) && r is Ok,
    {
        let ghost v0 = self@;
        let mut instr = match self.take_instrument(instrument_id) {
            Some(i) => i,
            None => {
                return Err(ClobError::InstrumentNotFound(u64_to_string(instrument_id)));
            },
        };
        instr.circuit_breaker = Some(cb);
        self.put_instrument(instrument_id, instr, Ghost(v0));
        Ok(())
    }

    /// The status of an instrument, if it exists.
    pub fn instrument_status(&self, instrument_id: u64) -> (r: Option<InstrumentStatus>)
        ensures
            r == (if self@.instruments.contains_key(instrument_id) {
                Some(self@.instruments[instrument_id].status)
            } else {
                None
            }),
    {
        match self.instruments.get(&instrument_id) {
            Some(i) => Some(i.status),
            None => None,
        }
    }

    /// The best bid of an instrument, if it exists and has one.
    pub fn best_bid(&self, instrument_id: u64) -> (r: Option<Dec>)
        requires
            self@.wf(),
        ensures
            r == (if self@.instruments.contains_key(instrument_id) {
                self@.instruments[instrument_id].book.best_price(Side::Buy)
            } else {
                None
            }),
    {
        match self.instruments.get(&instrument_id) {
            Some(i) => {
                assert(self@.instruments.contains_key(instrument_id));
                assert(i@ == self@.instruments[instrument_id]);
                i.book.best_bid()
            },
            None => None,
        }
    }

    /// The best ask of an instrument, if it exists and has one.
    pub fn best_ask(&self, instrument_id: u64) -> (r: Option<Dec>)
        requires
            self@.wf(),
        ensures
            r == (if self@.instruments.contains_key(instrument_id) {
                self@.instruments[instrument_id].book.best_price(Side::Sell)
            } else {
                None
            }),
    {
        match self.instruments.get(&instrument_id) {
            Some(i) => {
                assert(self@.instruments.contains_key(instrument_id));
                assert(i@ == self@.instruments[instrument_id]);
                i.book.best_ask()
            },
            None => None,
        }
    }

    /// The id of the instrument with `symbol`, if there is one.
    pub fn get_instrument_id(&self, symbol: &str) -> (r: Option<u64>)
        requires
            self@.wf(),
        ensures
            r == symbol_id(self@.symbols, symbol@),
    {
        self.instrument_id(symbol)
    }

    /// The symbol of an instrument, if it exists.
    pub fn instrument_symbol(&self, instrument_id: u64) -> (r: Option<&str>)
        ensures
            r is Some == self@.instruments.contains_key(instrument_id),
            r matches Some(s) ==> s@ == self@.instruments[instrument_id].symbol,
    {
        match self.instruments.get(&instrument_id) {
            Some(i) => Some(i.symbol.as_str()),
            None => None,
        }
    }

    /// The ids of all instruments, in the order they were created.
    pub fn all_instrument_ids(&self) -> (r: Vec<u64>)
        ensures
            r@ == self@.symbols.map(|k: int, p: (Seq<char>, u64)| p.1),
    {
        let mut out: Vec<u64> = Vec::new();
        let n = self.symbol_map.len();
        let mut i: usize = 0;
        while i < n
            invariant
                n == self.symbol_map@.len(),
                i <= n,
                out@ =~= self@.symbols.map(|k: int, p: (Seq<char>, u64)| p.1).take(i as int),
            decreases n - i,
        {
            out.push(self.symbol_map[i].1);
            i += 1;
        }
        out
    }

    /// Each instrument with its id, in the order they were created.
    pub fn iter_instruments(&self) -> (r: Vec<(u64, &Instrument)>)
        requires
            self@.wf(),
        ensures
            r@.len() == self@.symbols.len(),
            forall|i: int|
                0 <= i < r@.len() ==> (#[trigger] r@[i]).0 == self@.symbols[i].1 && r@[i].1@
                    == self@.instruments[self@.symbols[i].1],
    {
        let mut out: Vec<(u64, &Instrument)> = Vec::new();
        let n = self.symbol_map.len();
        let mut i: usize = 0;
        while i < n
            invariant
                n == self.symbol_map@.len(),
                i <= n,
                self@.wf(),
                out@.len() == i,
                forall|j: int|
                    0 <= j < i ==> (#[trigger] out@[j]).0 == self@.symbols[j].1 && out@[j].1@
                        == self@.instruments[self@.symbols[j].1],
            decreases n - i,
        {
            let id = self.symbol_map[i].1;
            assert(self@.symbols[i as int].1 == id);
            assert(self@.instruments.contains_key(id));
            let ins = self.instruments.get(&id).unwrap();
            out.push((id, ins));
            i += 1;
        }
        out
    }

    /// Every resting order of every instrument, sorted by timestamp: the
    /// order in which to load them again to keep time priority.
    pub fn resting_orders(&self) -> (r: Vec<Order>)
        requires
            self@.wf(),
        ensures
            sorted_by_ts(r@),
            r@.to_multiset() == engine_orders(self@).to_multiset(),
    {
        let mut all: Vec<Order> = Vec::new();
        let n = self.symbol_map.len();
        let mut i: usize = 0;
        while i < n
            invariant
                n == self@.symbols.len(),
                i <= n,
                self@.wf(),
                all@ == orders_of_first(self@, i as int),
            decreases n - i,
        {
            let id = self.symbol_map[i].1;
            assert(self@.symbols[i as int].1 == id);
            assert(self@.instruments.contains_key(id));
            let ins = self.instruments.get(&id).unwrap();
            assert(ins@ == self@.instruments[id]);
            let mut orders = ins.book.resting();
            all.append(&mut orders);
            i += 1;
        }
        sort_by_ts(&all)
    }

    /// Whether placing the order can run without a panic or an overflow,
    /// decided without changing anything.
    pub fn place_check(&self, order: &Order) -> (r: bool)
        requires
            self@.wf(),
            order.wf(),
        ensures
            r == self@.place_ok(*order),
    {
        let iid = order.instrument_id;
        let ins = match self.instruments.get(&iid) {
            Some(i) => i,
            None => {
                return true;
            },
        };
        assert(self@.instruments.contains_key(iid));
        assert(ins@ == self@.instruments[iid]);
        if ins.status == InstrumentStatus::Halted {
            return true;
        }
        let price_passes = match order.price {
            None => true,
            Some(p) => {
                if !can_div(p, ins.tick_size) {
                    return false;
                }
                let fraction = dec_fract(dec_div(p, ins.tick_size));
                proof {
                    lemma_units_sign(fraction);
                }
                if fraction.is_zero() {
                    if !can_mul(p, Dec::new(100, 0)) {
                        return false;
                    }
                    price_to_tick(p) < ins.book.max_ticks
                } else {
                    false
                }
            },
        };
        if !price_passes {
            return true;
        }
        if !can_div(order.qty, ins.lot_size) {
            return false;
        }
        let fraction = dec_fract(dec_div(order.qty, ins.lot_size));
        proof {
            lemma_units_sign(fraction);
        }
        if !fraction.is_zero() {
            return true;
        }
        assert(self@.place_refusal(*order) is None);
        match dry_run(&ins.book, order) {
            None => false,
            Some(trades) => match &ins.circuit_breaker {
                None => true,
                Some(cb) => {
                    proof {
                        lemma_outcome_trade_prices_wf(ins@.book, *order);
                    }
                    breach_scan_check(cb, &trades)
                },
            },
        }
    }

    /// Places an order as `place_order` does when that can run without a
    /// panic or an overflow; otherwise leaves the engine unchanged and gives
    /// nothing.
    pub fn try_place_order(&mut self, order: Order) -> (r: Option<Result<PlaceOrderResult, ClobError>>)
        requires
            old(self)@.wf(),
            order.wf(),
        ensures
            final(self)@.wf(),
            r is None ==> !old(self)@.place_ok(order) && final(self)@ == old(self)@,
            r matches Some(res) ==> old(self)@.place_ok(order) && match res {
                Err(e) => old(self)@.place_refusal(order) == Some(e@) && final(self)@ == old(self)@,
                Ok(res) => {
                    let out = match_outcome(old(self)@.instruments[order.instrument_id].book, order);
                    &&& old(self)@.place_refusal(order) is None
                    &&& res.order_id == order.id
                    &&& res.status == out.status
                    &&& res.filled_qty == out.filled
                    &&& res.avg_fill_price == out.avg
                    &&& res.trades@ == out.trades
                    &&& final(self)@ == old(self)@.after_place(order)
                },
            },
    {
        if self.place_check(&order) {
            Some(self.place_order(order))
        } else {
            None
        }
    }

    /// Whether mass cancellation of a participant on an instrument can run
    /// without overflow, decided on a copy of the book.
    pub fn mass_cancel_check(&self, instrument_id: u64, participant_id: &str) -> (r: bool)
        requires
            self@.wf(),
        ensures
            r == self@.mass_cancel_ok(instrument_id, participant_id@),
    {
        let instr = match self.instruments.get(&instrument_id) {
            Some(i) => i,
            None => {
                return true;
            },
        };
        assert(self@.instruments.contains_key(instrument_id));
        assert(instr@ == self@.instruments[instrument_id]);
        let ghost b0 = instr.book@;
        let ids = ids_to_cancel(&instr.book, participant_id);
        let mut sim = instr.book.duplicate();
        let m = ids.len();
        let mut k: usize = 0;
        while k < m
            invariant
                m == ids@.len(),
                k <= m,
                self@.instruments.contains_key(instrument_id),
                b0 == self@.instruments[instrument_id].book,
                ids@ == self@.mass_cancel_ids(instrument_id, participant_id@),
                sim@ == cancel_all(b0, ids@.take(k as int)),
                sim@.wf(),
                forall|j: int| 0 <= j < k ==> #[trigger] cancel_all(b0, ids@.take(j)).cancel_ok(
                    ids@[j],
                ),
            decreases m - k,
        {
            assert(ids@.take(k + 1).drop_last() =~= ids@.take(k as int));
            if !cancel_check(&sim, ids[k]) {
                assert(!cancel_all(b0, ids@.take(k as int)).cancel_ok(ids@[k as int]));
                return false;
            }
            sim.cancel(ids[k]);
            k += 1;
        }
        assert(ids@.take(m as int) =~= ids@);
        true
    }

    /// Mass cancellation as `mass_cancel` does it when that can run without
    /// overflow; otherwise the engine is unchanged and nothing is given.
    pub fn try_mass_cancel(&mut self, instrument_id: u64, participant_id: &str) -> (r: Option<
        Result<u32, ClobError>,
    >)
        requires
            old(self)@.wf(),
        ensures
            final(self)@.wf(),
            r is None ==> !old(self)@.mass_cancel_ok(instrument_id, participant_id@) && final(self)@
                == old(self)@,
            r matches Some(res) ==> old(self)@.mass_cancel_ok(instrument_id, participant_id@) && (
            final(self)@, result_view(res)) == old(self)@.mass_cancel(
                instrument_id,
                participant_id@,
            ),
    {
        if self.mass_cancel_check(instrument_id, participant_id) {
            Some(self.mass_cancel(instrument_id, participant_id))
        } else {
            None
        }
    }

    /// A copy of the engine.
    pub fn duplicate(&self) -> (r: ClobEngine)
        ensures
            r@ == self@,
    {
        let mut symbols: Vec<(String, u64)> = Vec::new();
        let n = self.symbol_map.len();
        let mut i: usize = 0;
        while i < n
            invariant
                n == self.symbol_map@.len(),
                i <= n,
                symbols@ == self.symbol_map@.take(i as int),
            decreases n - i,
        {
            let entry = (self.symbol_map[i].0.clone(), self.symbol_map[i].1);
            symbols.push(entry);
            assert(symbols@ =~= self.symbol_map@.take(i + 1));
            i += 1;
        }
        assert(self.symbol_map@.take(n as int) =~= self.symbol_map@);
        let r = ClobEngine {
            next_id: self.next_id,
            instruments: self.instruments.clone(),
            symbol_map: symbols,
            order_instrument: self.order_instrument.clone(),
        };
        assert(r@.symbols =~= self@.symbols);
        r
    }

    /// Whether creating an instrument with a given id is refused.
    pub fn create_with_id_refused(
        &self,
        id: u64,
        symbol: &str,
        tick_size: Dec,
        lot_size: Dec,
        max_ticks: usize,
    ) -> (r: bool)
        requires
            self@.wf(),
            tick_size.wf(),
            lot_size.wf(),
        ensures
            r == self@.create_with_id_refusal(id, symbol@, tick_size, lot_size, max_ticks) is Some,
    {
        symbol.is_empty() || self.instrument_id(symbol).is_some() || self.instruments.contains_key(&id)
            || !tick_size.is_positive() || !lot_size.is_positive() || max_ticks == 0
    }

    /// Whether loading the order can run without a panic or an overflow.
    pub fn load_check(&self, order: &Order) -> (r: bool)
        requires
            self@.wf(),
            order.wf(),
        ensures
            r == self@.load_ok(*order),
    {
        match self.instruments.get(&order.instrument_id) {
            Some(i) => {
                assert(self@.instruments.contains_key(order.instrument_id));
                assert(i@ == self@.instruments[order.instrument_id]);
                insert_check(&i.book, order)
            },
            None => true,
        }
    }

    /// Whether cancelling the order by id can run without overflow.
    pub fn cancel_order_check(&self, order_id: u128) -> (r: bool)
        requires
            self@.wf(),
        ensures
            r == self@.cancel_order_ok(order_id),
    {
        let iid = match self.order_instrument.get(&order_id) {
            Some(i) => *i,
            None => {
                return true;
            },
        };
        match self.instruments.get(&iid) {
            Some(i) => {
                assert(self@.instruments.contains_key(iid));
                assert(i@ == self@.instruments[iid]);
                cancel_check(&i.book, order_id)
            },
            None => true,
        }
    }

    /// The number of instruments.
    pub fn instrument_count(&self) -> (n: usize)
        ensures
            n == self@.instruments.dom().len(),
    {
        assert(self@.instruments.dom() =~= self.instruments@.dom());
        self.instruments.len()
    }

    /// The number of resting orders the engine tracks.
    pub fn order_count(&self) -> (n: usize)
        ensures
            n == self@.order_instrument.dom().len(),
    {
        self.order_instrument.len()
    }
}

/// Instruments are independent: placing an order changes only the
/// instrument it names.
pub proof fn placing_touches_one_instrument(v: EngineView, o: Order, k: u64)
    requires
        v.instruments.contains_key(o.instrument_id),
        k != o.instrument_id,
    ensures
        v.after_place(o).instruments.contains_key(k) == v.instruments.contains_key(k),
        v.instruments.contains_key(k) ==> v.after_place(o).instruments[k] == v.instruments[k],
        v.after_place(o).symbols == v.symbols,
        v.after_place(o).next_id == v.next_id,
{
}

/// Placing an order on an instrument matches it on that instrument's book:
/// the book becomes what matching leaves, the instrument halts exactly when
/// its circuit breaker is tripped by one of the trades (keeping its status
/// otherwise), and its id, symbol, sizes and breaker stay.
pub proof fn placing_matches_on_its_book(v: EngineView, o: Order)
    requires
        v.instruments.contains_key(o.instrument_id),
    ensures
        ({
            let k = o.instrument_id;
            let ins = v.instruments[k];
            let after = v.after_place(o).instruments[k];
            let out = match_outcome(ins.book, o);
            &&& v.after_place(o).instruments.contains_key(k)
            &&& after.book == out.book
            &&& after.status == (if ins.circuit_breaker matches Some(cb) && any_breach(cb, out.trades) {
                InstrumentStatus::Halted
            } else {
                ins.status
            })
            &&& after.id == ins.id && after.symbol == ins.symbol
            &&& after.tick_size == ins.tick_size && after.lot_size == ins.lot_size
            &&& after.circuit_breaker == ins.circuit_breaker
        }),
{
}

/// A well-formed engine holds finitely many instruments: each is listed
/// among its symbols.
pub proof fn instruments_are_finite(v: EngineView)
    requires
        v.wf(),
    ensures
        v.instruments.dom().finite(),
{
    let ids = v.symbols.map_values(|p: (Seq<char>, u64)| p.1);
    vstd::seq_lib::seq_to_set_is_finite(ids);
    assert forall|k: u64| #[trigger] v.instruments.dom().contains(k) implies ids.to_set().contains(
        k,
    ) by {
        let i = choose|i: int| 0 <= i < v.symbols.len() && #[trigger] v.symbols[i].1 == k;
        assert(ids[i] == k);
        assert(ids.contains(k));
    }
    vstd::set_lib::lemma_set_subset_finite(ids.to_set(), v.instruments.dom());
}

/// A halted instrument refuses every order, naming its symbol.
pub proof fn halted_instrument_refuses_orders(v: EngineView, o: Order)
    requires
        v.instruments.contains_key(o.instrument_id),
        v.instruments[o.instrument_id].status == InstrumentStatus::Halted,
    ensures
        v.place_refusal(o) == Some(
            (ErrorKind::InstrumentHalted, v.instruments[o.instrument_id].symbol),
        ),
{
}

/// Halting an active instrument and resuming it gives back the same engine.
pub proof fn resume_undoes_halt(v: EngineView, iid: u64)
    requires
        v.instruments.contains_key(iid),
        v.instruments[iid].status == InstrumentStatus::Active,
    ensures
        v.with_status(iid, InstrumentStatus::Halted).with_status(iid, InstrumentStatus::Active)
            == v,
{
    assert(v.with_status(iid, InstrumentStatus::Halted).with_status(
        iid,
        InstrumentStatus::Active,
    ).instruments =~= v.instruments);
}

/// A created instrument gets an id that was free, is stored under it, and
/// its symbol looks it up.
pub proof fn created_instrument_is_found(
    v: EngineView,
    symbol: Seq<char>,
    tick_size: Dec,
    lot_size: Dec,
    max_ticks: usize,
)
    requires
        v.wf(),
    ensures
        ({
            let (v2, r) = v.create(symbol, tick_size, lot_size, max_ticks);
            r matches Ok(id) ==> {
                &&& !v.instruments.contains_key(id)
                &&& v2.instruments.contains_key(id)
                &&& v2.instruments[id].symbol == symbol
                &&& symbol_id(v2.symbols, symbol) == Some(id)
            }
        }),
{
    let (v2, r) = v.create(symbol, tick_size, lot_size, max_ticks);
    if r is Ok {
        let id = v.next_id;
        let n = v.symbols.len();
        assert(v2.symbols[n as int] == (symbol, id));
        assert(!(exists|i: int| 0 <= i < v.symbols.len() && #[trigger] v.symbols[i].0 == symbol));
        assert(v2.symbols[n as int].0 == symbol);
        assert(exists|i: int| 0 <= i < v2.symbols.len() && #[trigger] v2.symbols[i].0 == symbol);
        let c = choose|i: int| 0 <= i < v2.symbols.len() && #[trigger] v2.symbols[i].0 == symbol;
        if c < n {
            assert(v2.symbols[c] == v.symbols[c]);
        }
    }
}

/// The ids mass cancellation takes are indexed, and every indexed id of an
/// order of the participant is among them.
pub proof fn lemma_cancel_ids(s: Seq<Order>, p: Seq<char>, index: Map<u128, (Side, usize)>)
    ensures
        forall|k: int|
            0 <= k < s.len() && (#[trigger] s[k]).participant_id@ == p && index.contains_key(s[k].id)
                ==> cancel_ids(s, p, index).contains(s[k].id),
        forall|id: u128| #[trigger] cancel_ids(s, p, index).contains(id) ==> index.contains_key(id),
    decreases s.len(),
{
    if s.len() > 0 {
        let prev = cancel_ids(s.drop_last(), p, index);
        lemma_cancel_ids(s.drop_last(), p, index);
        let o = s.last();
        let cur = cancel_ids(s, p, index);
        assert forall|k: int|
            0 <= k < s.len() && (#[trigger] s[k]).participant_id@ == p && index.contains_key(s[k].id)
                implies cur.contains(s[k].id) by {
            if k < s.len() - 1 {
                assert(s.drop_last()[k] == s[k]);
                assert(prev.contains(s[k].id));
                if cur != prev {
                    let j = choose|j: int| 0 <= j < prev.len() && prev[j] == s[k].id;
                    assert(cur[j] == prev[j]);
                }
            } else {
                if !prev.contains(o.id) {
                    assert(cur[cur.len() - 1] == o.id);
                }
            }
        }
        assert forall|id: u128| #[trigger] cur.contains(id) implies index.contains_key(id) by {
            let j = choose|j: int| 0 <= j < cur.len() && cur[j] == id;
            if o.participant_id@ == p && index.contains_key(o.id) && !prev.contains(o.id) {
                assert(cur == prev.push(o.id));
                if j < prev.len() {
                    assert(cur[j] == prev[j]);
                    assert(prev.contains(id));
                }
            } else {
                assert(cur == prev);
                assert(prev.contains(id));
            }
        }
    }
}

/// Cancelling ids in turn takes each of them out of the index and nothing
/// else.
pub proof fn lemma_cancel_all_index(b: BookView, ids: Seq<u128>)
    ensures
        forall|k: u128| #[trigger] cancel_all(b, ids).index.contains_key(k) == (b.index.contains_key(k)
            && !ids.contains(k)),
    decreases ids.len(),
{
    if ids.len() > 0 {
        lemma_cancel_all_index(b, ids.drop_last());
        let b1 = cancel_all(b, ids.drop_last());
        assert forall|k: u128| #[trigger] cancel_all(b, ids).index.contains_key(k) == (
        b.index.contains_key(k) && !ids.contains(k)) by {
            assert(cancel_all(b, ids).index.contains_key(k) == (b1.index.contains_key(k) && k
                != ids.last()));
            if ids.drop_last().contains(k) {
                let j = choose|j: int| 0 <= j < ids.drop_last().len() && ids.drop_last()[j] == k;
                assert(ids[j] == k);
            }
            if ids.contains(k) && k != ids.last() {
                let j = choose|j: int| 0 <= j < ids.len() && ids[j] == k;
                assert(ids.drop_last()[j] == k);
            }
        }
    }
}

/// After mass cancellation no order of the participant that rested on the
/// instrument's book is still indexed, and every other index entry stays.
pub proof fn mass_cancel_clears_participant(v: EngineView, iid: u64, p: Seq<char>)
    requires
        v.instruments.contains_key(iid),
    ensures
        ({
            let b = v.instruments[iid].book;
            let b2 = v.mass_cancel(iid, p).0.instruments[iid].book;
            &&& forall|o: Order|
                #[trigger] book_orders(b).contains(o) && o.participant_id@ == p
                    ==> !b2.index.contains_key(o.id)
            &&& forall|k: u128|
                #[trigger] b.index.contains_key(k) && !v.mass_cancel_ids(iid, p).contains(k)
                    ==> b2.index.contains_key(k)
        }),
{
    let b = v.instruments[iid].book;
    let ids = v.mass_cancel_ids(iid, p);
    lemma_cancel_ids(book_orders(b), p, b.index);
    lemma_cancel_all_index(b, ids);
    assert forall|o: Order| #[trigger] book_orders(b).contains(o) && o.participant_id@ == p
        implies !cancel_all(b, ids).index.contains_key(o.id) by {
        let k = choose|k: int| 0 <= k < book_orders(b).len() && book_orders(b)[k] == o;
        assert(book_orders(b)[k] == o);
    }
}

} // verus!
