use orderbook_rs::orderbook::BookError;
use orderbook_rs::{Order, OrderBook, OrderType, Side};

#[test]
fn test_sell_at_base_price_is_admitted() {
    // The sell window includes the base price itself.
    let mut book = OrderBook::new("TEST", 100);
    let sell = Order::new(1, 10000, 7, Side::Sell, OrderType::Limit);
    let result = book.add_order(sell);
    assert!(result.is_ok());
    assert_eq!(result.unwrap().len(), 0);
    assert_eq!(book.best_ask(), Some(10000));
    let (_, asks) = book.market_depth(10);
    assert_eq!(asks, vec![(10000, 7)]);
}

#[test]
fn test_buy_at_base_price_is_rejected() {
    // The buy window is strictly below the base price.
    let mut book = OrderBook::new("TEST", 100);
    let buy = Order::new(1, 10000, 7, Side::Buy, OrderType::Limit);
    let result = book.add_order(buy);
    assert_eq!(result.unwrap_err(), BookError::PriceOutOfRange);
    assert_eq!(book.best_bid(), None);
}

#[test]
fn test_market_order_empty_book() {
    // A market order against an empty opposite side returns no executions
    // and nothing rests under its id.
    let mut book = OrderBook::new("TEST", 100);
    let market = Order::new(9, 0, 50, Side::Buy, OrderType::Market);
    let result = book.add_order(market);
    assert!(result.is_ok());
    assert_eq!(result.unwrap().len(), 0);
    let (bids, asks) = book.market_depth(10);
    assert_eq!(bids.len(), 0);
    assert_eq!(asks.len(), 0);
    assert_eq!(book.summary().order_count, 0);
    // The id was never consumed, so it can still be used.
    let buy = Order::new(9, 9990, 5, Side::Buy, OrderType::Limit);
    assert!(book.add_order(buy).is_ok());
}

#[test]
fn test_pool_full() {
    // A book with capacity one rejects the second resting order.
    let mut book = OrderBook::new("TEST", 1);
    let first = Order::new(1, 9990, 5, Side::Buy, OrderType::Limit);
    assert!(book.add_order(first).is_ok());
    let second = Order::new(2, 9980, 5, Side::Buy, OrderType::Limit);
    assert_eq!(book.add_order(second).unwrap_err(), BookError::PoolFull);
    // The first order is untouched.
    assert_eq!(book.best_bid(), Some(9990));
}

#[test]
fn test_duplicate_id_error_value() {
    let mut book = OrderBook::new("TEST", 100);
    let first = Order::new(5, 9990, 5, Side::Buy, OrderType::Limit);
    assert!(book.add_order(first).is_ok());
    let dup = Order::new(5, 9980, 5, Side::Buy, OrderType::Limit);
    assert_eq!(book.add_order(dup).unwrap_err(), BookError::DuplicateId);
}

#[test]
fn test_cancel_unknown_id() {
    let mut book = OrderBook::new("TEST", 100);
    assert_eq!(book.cancel_order(42), Err(BookError::OrderNotFound));
    let buy = Order::new(1, 9990, 5, Side::Buy, OrderType::Limit);
    book.add_order(buy).unwrap();
    book.cancel_order(1).unwrap();
    // A second cancel of the same id no longer finds it.
    assert_eq!(book.cancel_order(1), Err(BookError::OrderNotFound));
}

#[test]
fn test_admit_then_cancel_restores_depth() {
    // An admit that produced no executions, followed by its cancel,
    // returns depth and bests to the pre-admit snapshot.
    let mut book = OrderBook::new("TEST", 100);
    book.add_order(Order::new(1, 9950, 10, Side::Buy, OrderType::Limit))
        .unwrap();
    book.add_order(Order::new(2, 10050, 20, Side::Sell, OrderType::Limit))
        .unwrap();
    let depth_before = book.market_depth(16);
    let bests_before = (book.best_bid(), book.best_ask());

    book.add_order(Order::new(3, 9960, 5, Side::Buy, OrderType::Limit))
        .unwrap();
    assert_eq!(book.best_bid(), Some(9960));
    book.cancel_order(3).unwrap();

    assert_eq!(book.market_depth(16), depth_before);
    assert_eq!((book.best_bid(), book.best_ask()), bests_before);
}

#[test]
fn test_cancel_preserves_time_priority() {
    // Cancelling the middle order of a level keeps the relative order of
    // the remaining two.
    let mut book = OrderBook::new("TEST", 100);
    book.add_order(Order::new(1, 9900, 10, Side::Buy, OrderType::Limit))
        .unwrap();
    book.add_order(Order::new(2, 9900, 20, Side::Buy, OrderType::Limit))
        .unwrap();
    book.add_order(Order::new(3, 9900, 30, Side::Buy, OrderType::Limit))
        .unwrap();
    book.cancel_order(2).unwrap();

    let result = book.add_order(Order::new(4, 9900, 35, Side::Sell, OrderType::Limit));
    let executions = result.unwrap();
    assert_eq!(executions.len(), 2);
    assert_eq!(executions[0].order_id, 1);
    assert_eq!(executions[0].quantity, 10);
    assert_eq!(executions[1].order_id, 3);
    assert_eq!(executions[1].quantity, 25);
}

#[test]
fn test_market_residual_is_discarded() {
    // A market order larger than the book consumes everything and its
    // remainder never rests.
    let mut book = OrderBook::new("TEST", 100);
    book.add_order(Order::new(1, 9900, 10, Side::Buy, OrderType::Limit))
        .unwrap();
    let result = book.add_order(Order::new(2, 0, 100, Side::Sell, OrderType::Market));
    let executions = result.unwrap();
    assert_eq!(executions.len(), 1);
    assert_eq!(executions[0].quantity, 10);
    let (bids, asks) = book.market_depth(10);
    assert_eq!(bids.len(), 0);
    assert_eq!(asks.len(), 0);
    assert_eq!(book.summary().order_count, 0);
}

#[test]
fn test_depth_is_monotone() {
    let mut book = OrderBook::new("TEST", 100);
    let bid_prices: Vec<u64> = vec![9991, 9973, 9999, 9950, 9980];
    let ask_prices: Vec<u64> = vec![10002, 10030, 10000, 10017];
    let mut id: u64 = 1;
    for p in &bid_prices {
        book.add_order(Order::new(id, *p, 5, Side::Buy, OrderType::Limit))
            .unwrap();
        id += 1;
    }
    for p in &ask_prices {
        book.add_order(Order::new(id, *p, 5, Side::Sell, OrderType::Limit))
            .unwrap();
        id += 1;
    }
    let (bids, asks) = book.market_depth(100);
    assert_eq!(bids.len(), 5);
    assert_eq!(asks.len(), 4);
    for j in 1..bids.len() {
        assert!(bids[j - 1].0 > bids[j].0);
    }
    for j in 1..asks.len() {
        assert!(asks[j - 1].0 < asks[j].0);
    }
    assert!(!book.is_crossed());
}

#[test]
fn test_execution_reports_resting_side() {
    let mut book = OrderBook::new("TEST", 100);
    book.add_order(Order::new(1, 10005, 4, Side::Sell, OrderType::Limit))
        .unwrap();
    let result = book.add_order(Order::new(2, 10010, 4, Side::Buy, OrderType::Limit));
    let executions = result.unwrap();
    assert_eq!(executions.len(), 1);
    // The resting ask is reported, at its own (better) price.
    assert_eq!(executions[0].order_id, 1);
    assert_eq!(executions[0].price, 10005);
    assert_eq!(executions[0].side, Side::Sell);
    // The aggressor is fully filled, so nothing rests on the buy side.
    let (bids, asks) = book.market_depth(10);
    assert_eq!(bids.len(), 0);
    assert_eq!(asks.len(), 0);
}

#[test]
fn test_summary_counters() {
    let mut book = OrderBook::new("COUNT", 100);
    assert_eq!(book.symbol(), "COUNT");
    book.add_order(Order::new(1, 9900, 10, Side::Buy, OrderType::Limit))
        .unwrap();
    book.add_order(Order::new(2, 9900, 10, Side::Sell, OrderType::Limit))
        .unwrap();
    let summary = book.summary();
    assert_eq!(summary.symbol, "COUNT");
    assert_eq!(summary.total_orders_processed, 2);
    // A crossing limit admit counts the crossed quantity twice.
    assert_eq!(summary.total_quantity_matched, 20);
    assert_eq!(summary.order_count, 0);
    assert_eq!(summary.buy_levels, 0);
    assert_eq!(summary.sell_levels, 0);
}
