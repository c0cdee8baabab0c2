use hft_orderbook::{MatchingEngine, Order, OrderBook, OrderBookError, Side, Trade};

fn s1_book() -> OrderBook {
    let mut book = OrderBook::new();
    book.set_time(1000);
    book.add_order(Order::new(1, Side::Buy, 100, 4950, 1000, 1)).unwrap();
    book.add_order(Order::new(2, Side::Buy, 200, 4940, 1001, 1)).unwrap();
    book.add_order(Order::new(3, Side::Sell, 150, 5050, 1002, 1)).unwrap();
    book.add_order(Order::new(4, Side::Sell, 100, 5060, 1003, 1)).unwrap();
    book
}

#[test]
fn basic_build_and_top_of_book() {
    let book = s1_book();
    assert_eq!(book.best_bid(), Some((4950, 100)));
    assert_eq!(book.best_ask(), Some((5050, 150)));
    assert_eq!(book.spread(), Some(100));
    assert_eq!(book.mid_price(), Some(5000));
    let (bids, asks) = book.get_levels(Some(5));
    assert_eq!(bids, vec![(4950, 100), (4940, 200)]);
    assert_eq!(asks, vec![(5050, 150), (5060, 100)]);
}

#[test]
fn aggressive_cross_partially_fills_passive() {
    let mut book = s1_book();
    book.set_time(1004);
    let engine = MatchingEngine::new();
    let trades = engine.process_order(&mut book, Order::new(5, Side::Buy, 75, 5055, 1004, 1)).unwrap();
    assert_eq!(trades, vec![Trade::new(5, 3, 5050, 75, 1004, Side::Buy)]);
    assert_eq!(book.best_ask(), Some((5050, 75)));
    assert_eq!(book.total_orders(), 4);
    assert!(!book.contains_order(5));
    assert_eq!(book.get_order(3).unwrap().remaining_quantity, 75);
}

#[test]
fn aggressive_order_sweeps_a_level() {
    let mut book = s1_book();
    book.set_time(1005);
    let engine = MatchingEngine::new();
    let trades = engine.process_order(&mut book, Order::new(6, Side::Buy, 200, 5060, 1005, 1)).unwrap();
    assert_eq!(
        trades,
        vec![Trade::new(6, 3, 5050, 150, 1005, Side::Buy), Trade::new(6, 4, 5060, 50, 1005, Side::Buy)]
    );
    assert_eq!(book.best_ask(), Some((5060, 50)));
    assert_eq!(book.total_orders(), 3);
    assert!(book.contains_order(1));
    assert!(book.contains_order(2));
    assert!(book.contains_order(4));
    assert!(!book.contains_order(3));
    assert!(!book.contains_order(6));
}

#[test]
fn residual_rests_at_limit_price() {
    let mut book = s1_book();
    book.set_time(1006);
    let engine = MatchingEngine::new();
    let trades = engine.process_order(&mut book, Order::new(7, Side::Buy, 300, 5050, 1006, 1)).unwrap();
    assert_eq!(trades, vec![Trade::new(7, 3, 5050, 150, 1006, Side::Buy)]);
    assert_eq!(book.best_bid(), Some((5050, 150)));
    assert_eq!(book.best_ask(), Some((5060, 100)));
    assert_eq!(book.get_order(7).unwrap().remaining_quantity, 150);
    assert_eq!(book.get_order(7).unwrap().event_time, 1006);
}

#[test]
fn sell_walks_bids_from_the_highest() {
    let mut book = s1_book();
    book.set_time(1007);
    let engine = MatchingEngine::new();
    let trades = engine.process_order(&mut book, Order::new(8, Side::Sell, 250, 4900, 1007, 1)).unwrap();
    assert_eq!(
        trades,
        vec![Trade::new(8, 1, 4950, 100, 1007, Side::Sell), Trade::new(8, 2, 4940, 150, 1007, Side::Sell)]
    );
    assert_eq!(book.best_bid(), Some((4940, 50)));
    let total: u64 = trades.iter().map(|t| t.quantity).sum();
    assert_eq!(total, 250);
}

#[test]
fn fifo_within_a_price() {
    let mut book = OrderBook::new();
    book.add_order(Order::new(1, Side::Sell, 10, 100, 1, 1)).unwrap();
    book.add_order(Order::new(2, Side::Sell, 20, 100, 2, 1)).unwrap();
    let engine = MatchingEngine::new();
    let trades = engine.process_order(&mut book, Order::new(3, Side::Buy, 15, 100, 3, 1)).unwrap();
    assert_eq!(trades.len(), 2);
    assert_eq!(trades[0].passive_order_id, 1);
    assert_eq!(trades[0].quantity, 10);
    assert_eq!(trades[1].passive_order_id, 2);
    assert_eq!(trades[1].quantity, 5);
    assert_eq!(book.volume_at_price(100), Some(15));
}

#[test]
fn non_marketable_order_only_rests() {
    let mut book = s1_book();
    let engine = MatchingEngine::new();
    let trades = engine.process_order(&mut book, Order::new(9, Side::Sell, 10, 5000, 1, 1)).unwrap();
    assert!(trades.is_empty());
    assert_eq!(book.best_ask(), Some((5000, 10)));
    assert_eq!(book.spread(), Some(50));
}

#[test]
fn engine_rejects_bad_intake() {
    let mut book = s1_book();
    let engine = MatchingEngine::new();
    assert_eq!(
        engine.process_order(&mut book, Order::new(9, Side::Sell, 10, 0, 1, 1)),
        Err(OrderBookError::InvalidPrice(0))
    );
    assert_eq!(
        engine.process_order(&mut book, Order::new(9, Side::Sell, 0, 10, 1, 1)),
        Err(OrderBookError::InvalidQuantity(0))
    );
    assert_eq!(
        engine.process_order(&mut book, Order::new(1, Side::Sell, 10, 4000, 1, 1)),
        Err(OrderBookError::OrderAlreadyExists(1))
    );
    assert_eq!(book.total_orders(), 4);
    assert_eq!(book.best_bid(), Some((4950, 100)));
}

#[test]
fn trade_value_and_side_opposite() {
    let t = Trade::new(1, 2, 300, 7, 9, Side::Sell);
    assert_eq!(t.value(), 2100);
    assert_eq!(Side::Buy.opposite(), Side::Sell);
    assert_eq!(Side::Sell.opposite(), Side::Buy);
    assert!(Side::Buy.is_buy());
    assert!(Side::Sell.is_sell());
}
