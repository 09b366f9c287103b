use pg_machida::book::{decimal_to_tick_qty, price_to_tick, OrderBook, TickArray};
use pg_machida::decimal::{can_add, can_div, can_mul, can_sub, dec_min, Dec};
use pg_machida::engine::{ClobEngine, InstrumentStatus};
use pg_machida::error::ClobError;
use pg_machida::matching::match_order;
use pg_machida::persistence::{rebuild_book, rebuild_check, try_rebuild_book, InstrumentDef};
use pg_machida::types::{CircuitBreaker, Order, OrderStatus, OrderType, STPMode, Side, Trade};
use rust_decimal::Decimal;
use std::str::FromStr;
use uuid::Uuid;

fn new_id() -> u128 {
    Uuid::new_v4().as_u128()
}

fn dec(v: i64) -> Dec {
    Dec::new(v, 0)
}

fn rd(d: Dec) -> Decimal {
    Decimal::from_i128_with_scale(d.mantissa, d.scale)
}

fn from_rd(x: Decimal) -> Dec {
    Dec { mantissa: x.mantissa(), scale: x.scale() }
}

fn order(side: Side, ty: OrderType, price: Option<Dec>, qty: Dec, who: &str, ts: u64) -> Order {
    Order::new(new_id(), 1, who.into(), side, ty, price, qty, ts, STPMode::Disabled)
}

fn limit(side: Side, price: i64, qty: i64, ts: u64) -> Order {
    order(side, OrderType::Limit, Some(dec(price)), dec(qty), "p", ts)
}

// Decimal comparison and scaling through the library's own functions.

#[test]
fn decimal_operations() {
    assert_eq!(dec(1), Dec::new(1000, 3));
    assert_ne!(dec(1), Dec::new(1001, 3));
    assert_eq!(dec_min(Dec::new(99, 2), dec(1)), Dec::new(99, 2));
    assert_eq!(dec_min(dec(3), dec(2)), dec(2));
    assert_eq!(dec_min(dec(2), Dec::new(20, 1)).scale, 0);
    assert_eq!(price_to_tick(Dec::new(12345, 3)), 1234);
    assert_eq!(price_to_tick(Dec::new(1005, 1)), 10050);
    assert_eq!(decimal_to_tick_qty(Dec::new(75, 1)), 7);
    assert_eq!(decimal_to_tick_qty(Dec::new(1299, 2)), 12);
    assert_eq!(decimal_to_tick_qty(dec(-1)), 0);
}

#[test]
fn partial_fill_leaves_the_difference() {
    let mut book = OrderBook::new(1000);
    book.insert(order(Side::Sell, OrderType::Limit, Some(dec(5)), dec(3), "s", 1));
    let buy = order(Side::Buy, OrderType::Market, None, Dec::new(5, 1), "b", 2);
    let r = match_order(&mut book, buy);
    assert_eq!(r.filled_qty, Dec::new(5, 1));
    let rest = book.resting();
    assert_eq!(rest.len(), 1);
    assert_eq!(rest[0].remaining, Dec::new(25, 1));
}

#[test]
fn engine_checks_multiples_and_whole_lots() {
    let mut e = ClobEngine::new();
    let r = e.create_instrument("HALF", Dec::new(1, 2), Dec::new(5, 1), 100);
    assert!(matches!(r, Err(ClobError::InvalidQty(ref m)) if m == "lot_size must be a whole number"));
    let id = e.create_instrument("ABC", Dec::new(5, 1), dec(1), 10000).unwrap();
    let bad_price = Order::new(new_id(), id, "p".into(), Side::Buy, OrderType::Limit, Some(Dec::new(1005, 2)), dec(1), 1, STPMode::Disabled);
    match e.place_order(bad_price) {
        Err(err) => assert_eq!(err.to_string(), "invalid price: price 10.05 is not a multiple of tick_size 0.5"),
        Ok(_) => panic!("price off the tick grid was accepted"),
    }
    let good = Order::new(new_id(), id, "p".into(), Side::Buy, OrderType::Limit, Some(Dec::new(105, 1)), dec(2), 1, STPMode::Disabled);
    assert!(e.place_order(good).is_ok());
}

#[test]
fn text_through_errors_and_parsing() {
    let mut e = ClobEngine::new();
    match e.halt_instrument(1234) {
        Err(err) => assert_eq!(err.to_string(), "instrument not found: 1234"),
        Ok(_) => panic!("unknown instrument was halted"),
    }
    match e.cancel_order(0x0123456789abcdef0123456789abcdef) {
        Err(err) => assert_eq!(err.to_string(), "order not found: 01234567-89ab-cdef-0123-456789abcdef"),
        Ok(_) => panic!("unknown order was cancelled"),
    }
    assert_eq!(Side::from_str("BUY"), Ok(Side::Buy));
    assert_eq!(OrderType::from_str("FoK"), Ok(OrderType::FOK));
    assert_eq!(pg_machida::text::concat("ab", "cd"), "abcd");
}

#[test]
fn error_texts() {
    assert_eq!(ClobError::InstrumentNotFound("x".into()).to_string(), "instrument not found: x");
    assert_eq!(ClobError::ParticipantNotFound("x".into()).to_string(), "participant not found: x");
    assert_eq!(ClobError::OrderNotFound("x".into()).to_string(), "order not found: x");
    assert_eq!(ClobError::InstrumentHalted("x".into()).to_string(), "instrument halted: x");
    assert_eq!(ClobError::InvalidPrice("x".into()).to_string(), "invalid price: x");
    assert_eq!(ClobError::InvalidQty("x".into()).to_string(), "invalid quantity: x");
    assert_eq!(ClobError::RiskLimitExceeded("x".into()).to_string(), "risk limit exceeded: x");
    assert_eq!(ClobError::IoError("x".into()).to_string(), "I/O error: x");
}

#[test]
fn trade_id_is_a_function_of_the_trade() {
    let a = Trade::compute_id(7, 1, 2, Dec::new(10050, 2), dec(3), 0);
    let b = Trade::compute_id(7, 1, 2, Dec::new(10050, 2), dec(3), 0);
    let c = Trade::compute_id(7, 2, 1, Dec::new(10050, 2), dec(3), 0);
    assert_eq!(a, b);
    assert_ne!(a, c);
    let u = Uuid::from_u128(a);
    assert_eq!(u.get_version_num(), 5);
    let namespace = Uuid::parse_str("e7d8a1b4-3f95-4a2c-8e1d-c6b5f0a9d3e2").unwrap();
    let name = format!("7:{}:{}:100.50:3:0", Uuid::from_u128(1), Uuid::from_u128(2));
    assert_eq!(a, Uuid::new_v5(&namespace, name.as_bytes()).as_u128());
}

#[test]
fn trades_carry_sequence_numbered_ids_and_totals() {
    let mut book = OrderBook::new(1000);
    book.insert(limit(Side::Sell, 4, 1, 1));
    book.insert(limit(Side::Sell, 5, 2, 1));
    let buy = order(Side::Buy, OrderType::Market, None, dec(3), "p", 9);
    let r = match_order(&mut book, buy);
    assert_eq!(r.trades.len(), 2);
    let mut total = Decimal::ZERO;
    for (i, t) in r.trades.iter().enumerate() {
        let id = Trade::compute_id(t.instrument_id, t.buy_order_id, t.sell_order_id, t.price, t.qty, i as u64);
        assert_eq!(t.id, id);
        total += rd(t.qty);
    }
    assert_eq!(r.filled_qty, from_rd(total));
    assert_eq!(r.avg_fill_price, Some(from_rd(Decimal::new(1400, 2) / Decimal::from(3))));
    assert_eq!(r.status, OrderStatus::Filled);
}

// Book: inserting an order and cancelling it gives it back and restores the book.

#[test]
fn insert_then_cancel_restores_book() {
    let mut book = OrderBook::new(1000);
    book.insert(limit(Side::Buy, 5, 2, 1));
    let before = book.resting();
    let o = limit(Side::Buy, 5, 3, 2);
    let id = o.id;
    book.insert(o);
    let back = book.cancel(id).unwrap();
    assert_eq!(back.id, id);
    assert_eq!(back.qty, dec(3));
    let after = book.resting();
    assert_eq!(after.len(), before.len());
    assert_eq!(after[0].id, before[0].id);
    assert_eq!(book.bids.get_qty(price_to_tick(dec(5))), 2);
    assert_eq!(book.order_index.len(), 1);
}

// Book: depth prices strictly fall on the bid side and rise on the ask side.

#[test]
fn depth_is_ordered() {
    let mut book = OrderBook::new(1000);
    for (p, q) in [(3, 1), (7, 2), (5, 1), (7, 1)] {
        book.insert(limit(Side::Buy, p, q, 1));
        book.insert(limit(Side::Sell, p + 1, q, 1));
    }
    let bids = book.depth(Side::Buy, 10);
    assert_eq!(bids.len(), 3);
    for w in bids.windows(2) {
        assert!(rd(w[1].price) < rd(w[0].price));
    }
    let asks = book.depth(Side::Sell, 10);
    assert_eq!(asks.len(), 3);
    for w in asks.windows(2) {
        assert!(rd(w[0].price) < rd(w[1].price));
    }
    assert_eq!(book.depth(Side::Buy, 0).len(), 1);
}

// Matching: rejections leave the book unchanged.

#[test]
fn rejections_leave_book_unchanged() {
    let mut book = OrderBook::new(1000);
    book.insert(limit(Side::Sell, 5, 1, 1));
    let cases = [
        order(Side::Buy, OrderType::Limit, Some(dec(5)), dec(0), "p", 2),
        order(Side::Buy, OrderType::Limit, Some(dec(-5)), dec(1), "p", 2),
        order(Side::Buy, OrderType::Limit, Some(Dec::new(5001, 3)), dec(1), "p", 2),
        order(Side::Buy, OrderType::Limit, Some(dec(10)), dec(1), "p", 2),
        order(Side::Buy, OrderType::Market, None, dec(-1), "p", 2),
    ];
    for o in cases {
        let r = match_order(&mut book, o);
        assert_eq!(r.status, OrderStatus::Rejected);
        assert!(r.trades.is_empty());
        assert_eq!(r.filled_qty, dec(0));
    }
    assert_eq!(book.resting().len(), 1);
    assert_eq!(book.best_ask(), Some(dec(5)));
}

// Matching: a fill-or-kill order that cannot fill is cancelled with nothing traded.

#[test]
fn fill_or_kill_all_or_nothing() {
    let mut book = OrderBook::new(1000);
    book.insert(limit(Side::Sell, 5, 2, 1));
    let fok = order(Side::Buy, OrderType::FOK, Some(dec(5)), dec(3), "p", 2);
    let r = match_order(&mut book, fok);
    assert_eq!(r.status, OrderStatus::Cancelled);
    assert!(r.trades.is_empty());
    assert_eq!(book.asks.get_qty(price_to_tick(dec(5))), 2);
    let fok = order(Side::Buy, OrderType::FOK, Some(dec(5)), dec(2), "p", 3);
    let r = match_order(&mut book, fok);
    assert_eq!(r.status, OrderStatus::Filled);
}

// Matching: trades respect the limit, name the incoming order and carry its data.

#[test]
fn trades_fit_the_incoming_order() {
    let mut book = OrderBook::new(1000);
    book.insert(limit(Side::Sell, 4, 1, 1));
    book.insert(limit(Side::Sell, 5, 1, 1));
    book.insert(limit(Side::Sell, 6, 1, 1));
    let buy = limit(Side::Buy, 5, 5, 42);
    let id = buy.id;
    let r = match_order(&mut book, buy);
    assert_eq!(r.trades.len(), 2);
    for t in &r.trades {
        assert!(rd(t.price) <= Decimal::from(5));
        assert_eq!(t.buy_order_id, id);
        assert_eq!(t.ts, 42);
        assert_eq!(t.instrument_id, 1);
    }
    assert_eq!(r.status, OrderStatus::PartiallyFilled);
    assert_eq!(r.avg_fill_price, Some(Dec::new(45, 1)));
    assert!(book.order_index.contains_key(&id));
}

// Matching: only limit orders rest.

#[test]
fn only_limit_orders_rest() {
    for ty in [OrderType::IOC, OrderType::Market, OrderType::FOK] {
        let mut book = OrderBook::new(1000);
        book.insert(limit(Side::Sell, 5, 1, 1));
        let price = if ty == OrderType::Market { None } else { Some(dec(5)) };
        let o = order(Side::Buy, ty, price, if ty == OrderType::FOK { dec(1) } else { dec(3) }, "p", 2);
        let id = o.id;
        match_order(&mut book, o);
        assert!(!book.order_index.contains_key(&id));
    }
    let mut book = OrderBook::new(1000);
    let o = limit(Side::Buy, 5, 3, 1);
    let id = o.id;
    assert_eq!(match_order(&mut book, o).status, OrderStatus::Open);
    assert!(book.order_index.contains_key(&id));
}

// Matching: self-trades are allowed when prevention is disabled.

#[test]
fn self_trade_allowed_when_disabled() {
    let mut book = OrderBook::new(1000);
    book.insert(order(Side::Sell, OrderType::Limit, Some(dec(5)), dec(1), "same", 1));
    let r = match_order(&mut book, order(Side::Buy, OrderType::Limit, Some(dec(5)), dec(1), "same", 2));
    assert_eq!(r.status, OrderStatus::Filled);
    assert_eq!(r.trades[0].buy_participant_id, "same");
    assert_eq!(r.trades[0].sell_participant_id, "same");
}

// Engine: creation, lookup and refusals.

#[test]
fn create_then_lookup_and_refusals() {
    let mut e = ClobEngine::new();
    let id = e.create_instrument_with_id(5, "ABC", Dec::new(1, 2), dec(1), 100).unwrap();
    assert_eq!(id, 5);
    assert_eq!(e.instrument_id("ABC"), Some(5));
    assert_eq!(e.get_instrument_id("ABC"), Some(5));
    assert_eq!(e.instrument_symbol(5), Some("ABC"));
    assert_eq!(e.instrument_symbol(6), None);
    let next = e.create_instrument("DEF", Dec::new(1, 2), dec(1), 100).unwrap();
    assert_eq!(next, 6);
    assert_eq!(e.all_instrument_ids(), vec![5, 6]);
    let pairs = e.iter_instruments();
    assert_eq!(pairs.len(), 2);
    assert_eq!(pairs[1].0, 6);
    assert_eq!(pairs[1].1.symbol, "DEF");
    let err = e.create_instrument_with_id(5, "GHI", Dec::new(1, 2), dec(1), 100).unwrap_err();
    assert_eq!(err.to_string(), "invalid price: instrument id 5 already exists");
    let err = e.create_instrument("ABC", Dec::new(1, 2), dec(1), 100).unwrap_err();
    assert_eq!(err.to_string(), "invalid price: symbol 'ABC' already exists");
    let err = e.create_instrument("XYZ", Dec::new(1, 2), Dec::new(15, 1), 100).unwrap_err();
    assert!(matches!(err, ClobError::InvalidQty(_)));
    assert_eq!(e.instrument_count(), 2);
}

// Engine: placing an order changes only its own instrument; halts refuse.

#[test]
fn place_order_isolated_and_halt_refuses() {
    let mut e = ClobEngine::new();
    let a = e.create_instrument("A", Dec::new(1, 2), dec(1), 1000).unwrap();
    let b = e.create_instrument("B", Dec::new(1, 2), dec(1), 1000).unwrap();
    let mut o = limit(Side::Buy, 5, 1, 1);
    o.instrument_id = a;
    e.place_order(o).unwrap();
    assert_eq!(e.best_bid(a), Some(dec(5)));
    assert_eq!(e.best_bid(b), None);
    e.halt_instrument(a).unwrap();
    let mut o = limit(Side::Buy, 5, 1, 2);
    o.instrument_id = a;
    let err = e.place_order(o).unwrap_err();
    assert_eq!(err.to_string(), "instrument halted: A");
    e.resume_instrument(a).unwrap();
    assert_eq!(e.instrument_status(a), Some(InstrumentStatus::Active));
    assert_eq!(e.instrument_status(99), None);
    let mut o = limit(Side::Buy, 5, 1, 3);
    o.instrument_id = 99;
    assert_eq!(e.place_order(o).unwrap_err().to_string(), "instrument not found: 99");
}

#[test]
fn place_order_price_and_quantity_errors() {
    let mut e = ClobEngine::new();
    let a = e.create_instrument("A", Dec::new(5, 2), dec(2), 1000).unwrap();
    let mut o = limit(Side::Buy, 5, 2, 1);
    o.price = Some(Dec::new(502, 2));
    o.instrument_id = a;
    assert_eq!(
        e.place_order(o).unwrap_err().to_string(),
        "invalid price: price 5.02 is not a multiple of tick_size 0.05"
    );
    let mut o = limit(Side::Buy, 20, 2, 1);
    o.instrument_id = a;
    assert_eq!(
        e.place_order(o).unwrap_err().to_string(),
        "invalid price: price 20 exceeds max tick range"
    );
    let mut o = limit(Side::Buy, 5, 3, 1);
    o.instrument_id = a;
    assert_eq!(
        e.place_order(o).unwrap_err().to_string(),
        "invalid quantity: quantity 3 is not a multiple of lot_size 2"
    );
    assert_eq!(e.order_count(), 0);
}

// Engine: cancellation, mass cancellation and open orders.

#[test]
fn cancel_and_mass_cancel() {
    let mut e = ClobEngine::new();
    let a = e.create_instrument("A", Dec::new(1, 2), dec(1), 1000).unwrap();
    let mut ids = Vec::new();
    for (i, who) in ["x", "y", "x", "x"].iter().enumerate() {
        let mut o = order(Side::Buy, OrderType::Limit, Some(dec(1 + i as i64)), dec(1), who, i as u64);
        o.instrument_id = a;
        ids.push(o.id);
        e.place_order(o).unwrap();
    }
    assert_eq!(e.get_open_orders(a, "x").unwrap().len(), 3);
    assert_eq!(e.get_open_orders(a, "y").unwrap().len(), 1);
    assert!(matches!(e.get_open_orders(9, "x"), Err(ClobError::InstrumentNotFound(_))));
    let c = e.cancel_order(ids[0]).unwrap();
    assert_eq!(c.id, ids[0]);
    let err = e.cancel_order(ids[0]).unwrap_err();
    assert_eq!(err.to_string(), format!("order not found: {}", Uuid::from_u128(ids[0])));
    assert_eq!(e.mass_cancel(a, "x").unwrap(), 2);
    assert_eq!(e.get_open_orders(a, "x").unwrap().len(), 0);
    assert_eq!(e.order_count(), 1);
    assert_eq!(e.mass_cancel(a, "x").unwrap(), 0);
    assert!(matches!(e.mass_cancel(7, "x"), Err(ClobError::InstrumentNotFound(_))));
    assert_eq!(e.best_bid(a), Some(dec(2)));
}

// Engine: circuit breakers, depth errors, resting orders and loading.

#[test]
fn breaker_depth_resting_and_loading() {
    let mut e = ClobEngine::new();
    let a = e.create_instrument("A", Dec::new(1, 2), dec(1), 100000).unwrap();
    assert!(matches!(
        e.set_circuit_breaker(3, CircuitBreaker { reference_price: dec(1), halt_pct: dec(1), cooldown_secs: 0 }),
        Err(ClobError::InstrumentNotFound(_))
    ));
    e.set_circuit_breaker(
        a,
        CircuitBreaker { reference_price: dec(100), halt_pct: Dec::new(5, 2), cooldown_secs: 1 },
    )
    .unwrap();
    for (p, ts) in [(104, 9), (105, 3)] {
        let mut o = limit(Side::Sell, p, 1, ts);
        o.instrument_id = a;
        e.place_order(o).unwrap();
    }
    let resting = e.resting_orders();
    assert_eq!(resting.len(), 2);
    assert!(resting[0].ts <= resting[1].ts);
    let mut buy = limit(Side::Buy, 104, 1, 10);
    buy.instrument_id = a;
    e.place_order(buy).unwrap();
    assert_eq!(e.instrument_status(a), Some(InstrumentStatus::Active));
    let mut buy = limit(Side::Buy, 105, 1, 11);
    buy.instrument_id = a;
    e.place_order(buy).unwrap();
    assert_eq!(e.instrument_status(a), Some(InstrumentStatus::Halted));
    assert!(matches!(e.get_book_depth(8, 1), Err(ClobError::InstrumentNotFound(_))));
    let mut o = limit(Side::Buy, 1, 1, 1);
    o.instrument_id = 8;
    assert_eq!(e.load_order(o).unwrap_err().to_string(), "instrument not found: 8");
    let mut o = limit(Side::Sell, 1, 1, 1);
    o.instrument_id = a;
    e.load_order(o).unwrap();
    assert_eq!(e.best_ask(a), Some(dec(1)));
    assert_eq!(e.order_count(), 1);
}

#[test]
fn rebuild_stops_at_first_refusal() {
    let mut e = ClobEngine::new();
    let defs = vec![
        InstrumentDef { id: 3, symbol: "A".into(), tick_size: dec(1), lot_size: dec(1), max_ticks: 10 },
        InstrumentDef { id: 4, symbol: "A".into(), tick_size: dec(1), lot_size: dec(1), max_ticks: 10 },
    ];
    let err = rebuild_book(&mut e, &defs, &[]).unwrap_err();
    assert!(matches!(err, ClobError::InvalidPrice(_)));
    assert_eq!(e.instrument_count(), 1);
    assert_eq!(e.create_instrument("B", dec(1), dec(1), 10).unwrap(), 4);
}

// Checked forms: operations that would overflow are refused up front and
// change nothing.

fn huge(v: i128) -> Dec {
    Dec { mantissa: v, scale: 0 }
}

#[test]
fn decimal_overflow_checks() {
    let max = huge(79228162514264337593543950335);
    assert!(!can_add(max, dec(1)));
    assert!(can_add(max, dec(-1)));
    assert!(!can_sub(huge(-79228162514264337593543950335), dec(1)));
    assert!(!can_mul(max, dec(2)));
    assert!(can_mul(max, dec(1)));
    assert!(!can_div(dec(1), dec(0)));
    assert!(can_div(dec(1), dec(3)));
}

#[test]
fn try_match_order_refuses_overflow_and_keeps_book() {
    let mut book = OrderBook::new(100000);
    let big = order(Side::Sell, OrderType::Limit, Some(dec(500)), huge(1_000_000_000_000_000_000_000_000_000), "s", 1);
    book.insert(big);
    let buy = order(Side::Buy, OrderType::Market, None, huge(1_000_000_000_000_000_000_000_000_000), "b", 2);
    assert!(pg_machida::matching::dry_run(&book, &buy).is_none());
    assert!(pg_machida::matching::try_match_order(&mut book, buy).is_none());
    let resting = book.resting();
    assert_eq!(resting.len(), 1);
    assert_eq!(resting[0].remaining, huge(1_000_000_000_000_000_000_000_000_000));
    let small = order(Side::Buy, OrderType::Market, None, dec(2), "b", 3);
    let r = pg_machida::matching::try_match_order(&mut book, small).unwrap();
    assert_eq!(r.status, OrderStatus::Filled);
    assert_eq!(r.trades.len(), 1);
}

#[test]
fn insert_check_refuses_level_overflow() {
    let mut book = OrderBook::new(1000);
    let a = order(Side::Buy, OrderType::Limit, Some(dec(5)), huge(50_000_000_000_000_000_000_000_000_000), "a", 1);
    let b = order(Side::Buy, OrderType::Limit, Some(dec(5)), huge(50_000_000_000_000_000_000_000_000_000), "a", 2);
    assert!(pg_machida::book::insert_check(&book, &a));
    book.insert(a);
    assert!(!pg_machida::book::insert_check(&book, &b));
    let far = limit(Side::Buy, 50, 1, 3);
    assert!(!pg_machida::book::insert_check(&book, &far));
}

#[test]
fn engine_checked_forms() {
    let mut e = ClobEngine::new();
    let a = e.create_instrument("A", Dec::new(1, 2), dec(1), 100000).unwrap();
    let mut big = order(Side::Sell, OrderType::Limit, Some(dec(500)), huge(1_000_000_000_000_000_000_000_000_000), "s", 1);
    big.instrument_id = a;
    assert!(e.place_check(&big));
    assert!(e.try_place_order(big).unwrap().is_ok());
    let mut buy = order(Side::Buy, OrderType::Market, None, huge(1_000_000_000_000_000_000_000_000_000), "b", 2);
    buy.instrument_id = a;
    assert!(!e.place_check(&buy));
    assert!(e.try_place_order(buy).is_none());
    assert_eq!(e.order_count(), 1);
    let mut missing = limit(Side::Buy, 5, 1, 3);
    missing.instrument_id = 42;
    assert!(e.place_check(&missing));
    assert!(e.try_place_order(missing).unwrap().is_err());
    assert!(e.mass_cancel_check(a, "s"));
    assert_eq!(e.try_mass_cancel(a, "s").unwrap().unwrap(), 1);
    assert!(e.cancel_order_check(7));
    assert_eq!(e.order_count(), 0);
}

#[test]
fn engine_copy_and_refusal_check() {
    let mut e = ClobEngine::new();
    e.create_instrument("A", Dec::new(1, 2), dec(1), 100).unwrap();
    let copy = e.duplicate();
    assert_eq!(copy.instrument_id("A"), Some(1));
    assert!(e.create_with_id_refused(1, "B", dec(1), dec(1), 10));
    assert!(e.create_with_id_refused(2, "A", dec(1), dec(1), 10));
    assert!(e.create_with_id_refused(2, "B", dec(1), dec(1), 0));
    assert!(!e.create_with_id_refused(2, "B", dec(1), dec(1), 10));
}

#[test]
fn try_rebuild_book_checks_first() {
    let defs = vec![InstrumentDef { id: 1, symbol: "A".into(), tick_size: dec(1), lot_size: dec(1), max_ticks: 1000 }];
    let mut o1 = order(Side::Buy, OrderType::Limit, Some(dec(5)), huge(50_000_000_000_000_000_000_000_000_000), "a", 1);
    let mut o2 = order(Side::Buy, OrderType::Limit, Some(dec(5)), huge(50_000_000_000_000_000_000_000_000_000), "a", 2);
    o1.instrument_id = 1;
    o2.instrument_id = 1;
    let mut e = ClobEngine::new();
    assert!(!rebuild_check(&e, &defs, &[o1.duplicate(), o2.duplicate()]));
    assert!(try_rebuild_book(&mut e, &defs, &[o1.duplicate(), o2]).is_none());
    assert_eq!(e.instrument_count(), 0);
    assert!(try_rebuild_book(&mut e, &defs, &[o1]).unwrap().is_ok());
    assert_eq!(e.order_count(), 1);
}

// Price priority: best prices and depth report the levels themselves.

fn depth_fields(book: &OrderBook, side: Side) -> Vec<(Dec, Dec, u32)> {
    book.depth(side, 10).iter().map(|l| (l.price, l.qty, l.order_count)).collect()
}

#[test]
fn best_prices_follow_the_levels() {
    let mut book = OrderBook::new(1000);
    let a = limit(Side::Buy, 7, 1, 1);
    let a_id = a.id;
    book.insert(a);
    book.insert(limit(Side::Buy, 5, 2, 2));
    book.insert(limit(Side::Sell, 9, 1, 3));
    assert_eq!(book.best_bid(), Some(Dec::new(7, 0)));
    assert_eq!(book.best_ask(), Some(Dec::new(9, 0)));
    book.cancel(a_id);
    assert_eq!(book.best_bid(), Some(Dec::new(5, 0)));
    let bids = depth_fields(&book, Side::Buy);
    assert_eq!(bids, vec![(Dec::new(500, 2), dec(2), 1)]);
}

#[test]
fn insert_then_cancel_restores_best_and_depth() {
    let mut book = OrderBook::new(1000);
    book.insert(limit(Side::Buy, 5, 2, 1));
    book.insert(limit(Side::Sell, 8, 3, 2));
    let bid = book.best_bid();
    let ask = book.best_ask();
    let bids = depth_fields(&book, Side::Buy);
    let asks = depth_fields(&book, Side::Sell);
    let o = limit(Side::Buy, 7, 4, 3);
    let id = o.id;
    book.insert(o);
    assert_eq!(book.best_bid(), Some(dec(7)));
    book.cancel(id);
    assert_eq!(book.best_bid(), bid);
    assert_eq!(book.best_ask(), ask);
    assert_eq!(depth_fields(&book, Side::Buy), bids);
    assert_eq!(depth_fields(&book, Side::Sell), asks);
}

#[test]
fn matching_leaves_the_book_uncrossed() {
    let mut book = OrderBook::new(1000);
    book.insert(limit(Side::Sell, 6, 2, 1));
    book.insert(limit(Side::Sell, 8, 2, 2));
    book.insert(limit(Side::Buy, 4, 1, 3));
    let r = match_order(&mut book, limit(Side::Buy, 7, 5, 4));
    assert_eq!(r.filled_qty, dec(2));
    assert_eq!(r.status, OrderStatus::PartiallyFilled);
    let bid = rd(book.best_bid().unwrap());
    let ask = rd(book.best_ask().unwrap());
    assert_eq!(bid, Decimal::from(7));
    assert_eq!(ask, Decimal::from(8));
    assert!(bid < ask);
}

#[test]
fn price_comes_back_from_its_tick() {
    for p in [Dec::new(12345, 2), dec(100), Dec::new(1, 2), dec(99999)] {
        let t = price_to_tick(p);
        assert_eq!(pg_machida::book::tick_to_decimal(t), p);
    }
}

#[test]
fn names_read_in_any_ascii_case() {
    assert_eq!(OrderType::from_str("LIMIT"), Ok(OrderType::Limit));
    assert_eq!(OrderType::try_from("Fok"), Ok(OrderType::FOK));
    assert_eq!(Side::from_str("SeLL"), Ok(Side::Sell));
    assert_eq!(STPMode::from_str("CANCEL_OLDEST"), Ok(STPMode::CancelOldest));
    assert_eq!(OrderStatus::from_str("Partially_Filled"), Ok(OrderStatus::PartiallyFilled));
    assert!(OrderType::from_str("gtc").is_err());
}

#[test]
fn mass_cancel_counts_the_participants_orders() {
    let mut e = ClobEngine::new();
    let id = e.create_instrument("MC", dec(1), dec(1), 1000).unwrap();
    for (who, p, ts) in [("p", 5, 1), ("q", 5, 2), ("p", 6, 3), ("p", 9, 4)] {
        let side = if p < 8 { Side::Buy } else { Side::Sell };
        let o = Order::new(new_id(), id, who.into(), side, OrderType::Limit, Some(dec(p)), dec(1), ts, STPMode::Disabled);
        e.place_order(o).unwrap();
    }
    assert_eq!(e.mass_cancel(id, "p").unwrap(), 3);
    assert!(e.get_open_orders(id, "p").unwrap().is_empty());
    assert_eq!(e.get_open_orders(id, "q").unwrap().len(), 1);
    assert_eq!(e.order_count(), 1);
}

#[test]
fn tick_count_stays_through_operations() {
    let mut arr = TickArray::new(5, 4);
    arr.add_qty(2, 10);
    arr.add_qty(4, 3);
    arr.sub_qty(4, 3);
    arr.update_best_ask();
    assert_eq!(arr.get_best_tick(), 4);
    arr.set_best_tick(0);
    arr.update_best_ask();
    assert_eq!(arr.get_best_tick(), 2);
    arr.set_best_tick(4);
    arr.update_best_bid();
    assert_eq!(arr.get_best_tick(), 2);
    arr.sub_qty(2, 11);
    assert_eq!(arr.get_qty(2), u64::MAX);
    assert_eq!(arr.len(), 5);
}
