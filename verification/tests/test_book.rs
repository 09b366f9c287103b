use pg_machida::book::{price_to_tick, tick_to_decimal, OrderBook, PriceLevel, TickArray};
use pg_machida::decimal::Dec;
use pg_machida::types::{Order, OrderType, STPMode, Side};
use uuid::Uuid;

const TEST_MAX_TICKS: usize = 50000;

fn new_id() -> u128 {
    Uuid::new_v4().as_u128()
}

fn make_order(side: Side, price: Option<Dec>, qty: Dec) -> Order {
    Order::new(
        new_id(),
        1,
        "test".into(),
        side,
        OrderType::Limit,
        price,
        qty,
        1_000_000,
        STPMode::Disabled,
    )
}

fn order_with_id(id: u128, side: Side, price: Option<Dec>, qty: Dec, ts: u64) -> Order {
    Order::new(id, 1, "test".into(), side, OrderType::Limit, price, qty, ts, STPMode::Disabled)
}

// price_to_tick / tick_to_price round trip

#[test]
fn test_price_tick_round_trip() {
    for price in [Dec::new(100, 0), Dec::new(1, 2), Dec::new(99999, 0)] {
        let tick = price_to_tick(price);
        let back = tick_to_decimal(tick);
        assert_eq!(back, price, "round trip failed for {:?}", price);
    }
}

// TickArray — basic operations

#[test]
fn test_tick_array_add_and_get() {
    let mut arr = TickArray::new(1000, 0);
    arr.add_qty(100, 5);
    assert_eq!(arr.get_qty(100), 5);
    arr.add_qty(100, 3);
    assert_eq!(arr.get_qty(100), 8);
    arr.sub_qty(100, 2);
    assert_eq!(arr.get_qty(100), 6);
}

#[test]
fn test_tick_array_best_tick_get_set() {
    let mut arr = TickArray::new(1000, 0);
    arr.set_best_tick(42);
    assert_eq!(arr.get_best_tick(), 42);
}

#[test]
fn test_tick_array_update_best_bid() {
    let mut arr = TickArray::new(1000, 0);
    arr.add_qty(90, 1);
    arr.add_qty(95, 1);
    arr.set_best_tick(100);

    arr.update_best_bid();
    assert_eq!(arr.get_best_tick(), 95);
}

#[test]
fn test_tick_array_update_best_bid_empty() {
    let mut arr = TickArray::new(1000, 0);
    arr.set_best_tick(100);
    arr.update_best_bid();
    assert_eq!(arr.get_best_tick(), 0);
    assert_eq!(arr.get_qty(0), 0);
}

#[test]
fn test_tick_array_update_best_ask() {
    let mut arr = TickArray::new(1000, 1000 - 1);
    arr.add_qty(105, 1);
    arr.add_qty(110, 1);
    arr.set_best_tick(100);

    arr.update_best_ask();
    assert_eq!(arr.get_best_tick(), 105);
}

#[test]
fn test_tick_array_update_best_ask_empty() {
    let mut arr = TickArray::new(1000, 1000 - 1);
    arr.set_best_tick(100);
    arr.update_best_ask();
    assert_eq!(arr.get_best_tick(), 999);
    assert_eq!(arr.get_qty(999), 0);
}

// OrderBook — insert + cancel round trip

#[test]
fn test_insert_and_cancel_round_trip_bid() {
    let mut book = OrderBook::new(TEST_MAX_TICKS);
    let order = make_order(Side::Buy, Some(Dec::new(99, 0)), Dec::new(1, 0));
    let id = order.id;

    book.insert(order);

    let tick = price_to_tick(Dec::new(99, 0));
    assert!(book.bids.get_qty(tick) > 0);
    assert_eq!(
        book.bid_levels.get(&tick).expect("bid level should exist after insert").orders.len(),
        1
    );
    assert_eq!(book.order_index.len(), 1);

    let cancelled = book.cancel(id);
    assert!(cancelled.is_some());
    assert_eq!(book.bids.get_qty(tick), 0);
    assert!(book.bid_levels.get(&tick).is_none());
    assert!(book.order_index.is_empty());
}

#[test]
fn test_insert_and_cancel_round_trip_ask() {
    let mut book = OrderBook::new(TEST_MAX_TICKS);
    let order = make_order(Side::Sell, Some(Dec::new(101, 0)), Dec::new(2, 0));
    let id = order.id;

    book.insert(order);

    let tick = price_to_tick(Dec::new(101, 0));
    assert!(book.asks.get_qty(tick) > 0);
    assert_eq!(
        book.ask_levels.get(&tick).expect("ask level should exist after insert").orders.len(),
        1
    );
    assert_eq!(book.order_index.len(), 1);

    let cancelled = book.cancel(id);
    assert!(cancelled.is_some());
    assert_eq!(book.asks.get_qty(tick), 0);
    assert!(book.ask_levels.get(&tick).is_none());
    assert!(book.order_index.is_empty());
}

// OrderBook — best_bid / best_ask

#[test]
fn test_best_bid_after_insert() {
    let mut book = OrderBook::new(TEST_MAX_TICKS);
    book.insert(make_order(Side::Buy, Some(Dec::new(99, 0)), Dec::new(1, 0)));
    assert_eq!(book.best_bid(), Some(Dec::new(99, 0)));
}

#[test]
fn test_best_ask_after_insert() {
    let mut book = OrderBook::new(TEST_MAX_TICKS);
    book.insert(make_order(Side::Sell, Some(Dec::new(101, 0)), Dec::new(1, 0)));
    assert_eq!(book.best_ask(), Some(Dec::new(101, 0)));
}

#[test]
fn test_best_bid_after_cancel() {
    let mut book = OrderBook::new(TEST_MAX_TICKS);
    let order = make_order(Side::Buy, Some(Dec::new(99, 0)), Dec::new(1, 0));
    let id = order.id;
    book.insert(order);
    assert_eq!(book.best_bid(), Some(Dec::new(99, 0)));
    book.cancel(id);
    assert_eq!(book.best_bid(), None);
}

#[test]
fn test_best_ask_after_cancel() {
    let mut book = OrderBook::new(TEST_MAX_TICKS);
    let order = make_order(Side::Sell, Some(Dec::new(101, 0)), Dec::new(1, 0));
    let id = order.id;
    book.insert(order);
    assert_eq!(book.best_ask(), Some(Dec::new(101, 0)));
    book.cancel(id);
    assert_eq!(book.best_ask(), None);
}

#[test]
fn test_best_bid_highest_price_multiple_levels() {
    let mut book = OrderBook::new(TEST_MAX_TICKS);
    book.insert(make_order(Side::Buy, Some(Dec::new(99, 0)), Dec::new(1, 0)));
    book.insert(make_order(Side::Buy, Some(Dec::new(100, 0)), Dec::new(1, 0)));
    book.insert(make_order(Side::Buy, Some(Dec::new(98, 0)), Dec::new(1, 0)));
    assert_eq!(book.best_bid(), Some(Dec::new(100, 0)));
}

#[test]
fn test_best_ask_lowest_price_multiple_levels() {
    let mut book = OrderBook::new(TEST_MAX_TICKS);
    book.insert(make_order(Side::Sell, Some(Dec::new(101, 0)), Dec::new(1, 0)));
    book.insert(make_order(Side::Sell, Some(Dec::new(100, 0)), Dec::new(1, 0)));
    book.insert(make_order(Side::Sell, Some(Dec::new(102, 0)), Dec::new(1, 0)));
    assert_eq!(book.best_ask(), Some(Dec::new(100, 0)));
}

#[test]
fn test_empty_book_best_bid_ask_none() {
    let book = OrderBook::new(TEST_MAX_TICKS);
    assert_eq!(book.best_bid(), None);
    assert_eq!(book.best_ask(), None);
}

#[test]
fn test_book_test_cancel_nonexistent_order() {
    let mut book = OrderBook::new(TEST_MAX_TICKS);
    assert!(book.cancel(new_id()).is_none());
}

// OrderBook — best_bid/ask after emptying the top level

#[test]
fn test_best_bid_updates_after_top_level_emptied() {
    let mut book = OrderBook::new(TEST_MAX_TICKS);
    let id1 = new_id();
    let id2 = new_id();
    book.insert(order_with_id(id1, Side::Buy, Some(Dec::new(100, 0)), Dec::new(1, 0), 1));
    book.insert(order_with_id(id2, Side::Buy, Some(Dec::new(99, 0)), Dec::new(1, 0), 2));
    assert_eq!(book.best_bid(), Some(Dec::new(100, 0)));

    book.cancel(id1);
    assert_eq!(book.best_bid(), Some(Dec::new(99, 0)));

    book.cancel(id2);
    assert_eq!(book.best_bid(), None);
}

#[test]
fn test_best_ask_updates_after_top_level_emptied() {
    let mut book = OrderBook::new(TEST_MAX_TICKS);
    let id1 = new_id();
    let id2 = new_id();
    book.insert(order_with_id(id1, Side::Sell, Some(Dec::new(100, 0)), Dec::new(1, 0), 1));
    book.insert(order_with_id(id2, Side::Sell, Some(Dec::new(101, 0)), Dec::new(1, 0), 2));
    assert_eq!(book.best_ask(), Some(Dec::new(100, 0)));

    book.cancel(id1);
    assert_eq!(book.best_ask(), Some(Dec::new(101, 0)));

    book.cancel(id2);
    assert_eq!(book.best_ask(), None);
}

// OrderBook — depth

#[test]
fn test_depth_bids() {
    let mut book = OrderBook::new(TEST_MAX_TICKS);
    book.insert(make_order(Side::Buy, Some(Dec::new(99, 0)), Dec::new(2, 0)));
    book.insert(make_order(Side::Buy, Some(Dec::new(99, 0)), Dec::new(1, 0)));
    book.insert(make_order(Side::Buy, Some(Dec::new(98, 0)), Dec::new(5, 0)));
    book.insert(make_order(Side::Buy, Some(Dec::new(97, 0)), Dec::new(3, 0)));

    let depth = book.depth(Side::Buy, 2);
    assert_eq!(depth.len(), 2);
    assert_eq!(depth[0].price, Dec::new(99, 0));
    assert_eq!(depth[0].qty, Dec::new(3, 0));
    assert_eq!(depth[0].order_count, 2);
    assert_eq!(depth[1].price, Dec::new(98, 0));
    assert_eq!(depth[1].qty, Dec::new(5, 0));
    assert_eq!(depth[1].order_count, 1);
}

#[test]
fn test_depth_asks() {
    let mut book = OrderBook::new(TEST_MAX_TICKS);
    book.insert(make_order(Side::Sell, Some(Dec::new(101, 0)), Dec::new(1, 0)));
    book.insert(make_order(Side::Sell, Some(Dec::new(101, 0)), Dec::new(3, 0)));
    book.insert(make_order(Side::Sell, Some(Dec::new(102, 0)), Dec::new(2, 0)));

    let depth = book.depth(Side::Sell, 2);
    assert_eq!(depth.len(), 2);
    assert_eq!(depth[0].price, Dec::new(101, 0));
    assert_eq!(depth[0].qty, Dec::new(4, 0));
    assert_eq!(depth[0].order_count, 2);
    assert_eq!(depth[1].price, Dec::new(102, 0));
    assert_eq!(depth[1].qty, Dec::new(2, 0));
    assert_eq!(depth[1].order_count, 1);
}

#[test]
fn test_depth_empty_book() {
    let book = OrderBook::new(TEST_MAX_TICKS);
    assert_eq!(book.depth(Side::Buy, 5).len(), 0);
    assert_eq!(book.depth(Side::Sell, 5).len(), 0);
}

#[test]
fn test_depth_asks_after_cancel_top_level() {
    let mut book = OrderBook::new(TEST_MAX_TICKS);
    let id1 = new_id();
    book.insert(order_with_id(id1, Side::Sell, Some(Dec::new(100, 0)), Dec::new(1, 0), 1));
    book.insert(make_order(Side::Sell, Some(Dec::new(101, 0)), Dec::new(2, 0)));

    let depth_before = book.depth(Side::Sell, 2);
    assert_eq!(depth_before[0].price, Dec::new(100, 0));

    book.cancel(id1);

    let depth_after = book.depth(Side::Sell, 2);
    assert_eq!(depth_after[0].price, Dec::new(101, 0));
    assert_eq!(depth_after.len(), 1);
}

// OrderBook — multiple orders at same tick (FIFO order)

#[test]
fn test_multiple_orders_same_tick_fifo_order() {
    let mut book = OrderBook::new(TEST_MAX_TICKS);
    book.insert(make_order(Side::Buy, Some(Dec::new(99, 0)), Dec::new(1, 0)));
    book.insert(make_order(Side::Buy, Some(Dec::new(99, 0)), Dec::new(2, 0)));
    book.insert(make_order(Side::Buy, Some(Dec::new(99, 0)), Dec::new(3, 0)));

    let tick = price_to_tick(Dec::new(99, 0));
    let level = book.bid_levels.get(&tick).expect("bid level should exist for FIFO test");
    assert_eq!(level.orders.len(), 3);
    assert_eq!(level.total_qty, Dec::new(6, 0));
    assert_eq!(level.orders[0].qty, Dec::new(1, 0));
    assert_eq!(level.orders[1].qty, Dec::new(2, 0));
    assert_eq!(level.orders[2].qty, Dec::new(3, 0));
}

// OrderBook — market orders are not inserted

#[test]
fn test_market_order_not_inserted() {
    let mut book = OrderBook::new(TEST_MAX_TICKS);
    let order = make_order(Side::Buy, None, Dec::new(1, 0));
    let id = order.id;
    book.insert(order);
    assert!(book.order_index.is_empty());
    assert!(book.cancel(id).is_none());
}

// Further cases

#[test]
fn test_tick_array_wrapping_round_trip() {
    let mut arr = TickArray::new(10, 0);
    arr.sub_qty(3, 7);
    assert_eq!(arr.get_qty(3), u64::MAX - 6);
    arr.add_qty(3, 7);
    assert_eq!(arr.get_qty(3), 0);
    assert_eq!(arr.len(), 10);
}

#[test]
fn test_price_to_tick_truncates_and_saturates() {
    assert_eq!(price_to_tick(Dec::new(12345, 3)), 1234);
    assert_eq!(price_to_tick(Dec::new(-5, 0)), 0);
    assert_eq!(tick_to_decimal(1234), Dec::new(1234, 2));
}

#[test]
fn test_fractional_quantity_counts_whole_units_only() {
    let mut book = OrderBook::new(1000);
    book.insert(make_order(Side::Buy, Some(Dec::new(5, 0)), Dec::new(25, 1)));
    let tick = price_to_tick(Dec::new(5, 0));
    assert_eq!(book.bids.get_qty(tick), 2);
}

#[test]
fn test_price_level_front_pop_reduce() {
    let mut level = PriceLevel::new();
    assert!(level.is_empty());
    assert!(level.front().is_none());
    let a = make_order(Side::Buy, Some(Dec::new(10, 0)), Dec::new(4, 0));
    let b = make_order(Side::Buy, Some(Dec::new(10, 0)), Dec::new(6, 0));
    let (ida, idb) = (a.id, b.id);
    level.total_qty = Dec::new(10, 0);
    level.orders.push_back(a);
    level.orders.push_back(b);
    assert_eq!(level.front().unwrap().id, ida);
    level.reduce_front_remaining(Dec::new(1, 0));
    assert_eq!(level.front().unwrap().remaining, Dec::new(3, 0));
    assert_eq!(level.total_qty, Dec::new(9, 0));
    let popped = level.pop_front().unwrap();
    assert_eq!(popped.id, ida);
    assert_eq!(level.total_qty, Dec::new(6, 0));
    let removed = level.remove_order(idb).unwrap();
    assert_eq!(removed.id, idb);
    assert!(level.is_empty());
    assert!(level.remove_order(idb).is_none());
}

#[test]
fn test_resting_lists_bids_then_asks_by_tick() {
    let mut book = OrderBook::new(1000);
    let a = make_order(Side::Sell, Some(Dec::new(3, 0)), Dec::new(1, 0));
    let b = make_order(Side::Buy, Some(Dec::new(2, 0)), Dec::new(1, 0));
    let c = make_order(Side::Buy, Some(Dec::new(1, 0)), Dec::new(1, 0));
    let ids = (a.id, b.id, c.id);
    book.insert(a);
    book.insert(b);
    book.insert(c);
    let all = book.resting();
    assert_eq!(all.len(), 3);
    assert_eq!(all[0].id, ids.2);
    assert_eq!(all[1].id, ids.1);
    assert_eq!(all[2].id, ids.0);
}
