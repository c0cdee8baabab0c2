use hft_orderbook::{Order, OrderBook, OrderBookError, OrderStatus, Side};

#[test]
fn cancel_middle_order_keeps_fifo() {
    let mut book = OrderBook::new();
    book.add_order(Order::new(1, Side::Buy, 10, 1000, 1000, 1)).unwrap();
    book.add_order(Order::new(2, Side::Buy, 20, 1000, 1001, 1)).unwrap();
    book.add_order(Order::new(3, Side::Buy, 30, 1000, 1002, 1)).unwrap();
    book.remove_order(2).unwrap();
    assert_eq!(book.volume_at_price(1000), Some(40));
    assert_eq!(book.orders_at_price(1000), Some(2));
    assert_eq!(book.total_orders(), 2);
    assert_eq!(book.best_head(Side::Buy), Some((1, 1000, 10)));
    book.remove_order(1).unwrap();
    assert_eq!(book.best_head(Side::Buy), Some((3, 1000, 30)));
}

#[test]
fn process_as_unified_write_path() {
    let mut book = OrderBook::new();
    book.add_order(Order::new(1, Side::Buy, 100, 5000, 1000, 1)).unwrap();
    book.process_order(Order::new(1, Side::Buy, 150, 5000, 1001, 1)).unwrap();
    assert_eq!(book.volume_at_price(5000), Some(150));
    book.process_order(Order::new(1, Side::Buy, 0, 5000, 1002, 1)).unwrap();
    assert_eq!(book.volume_at_price(5000), None);
    assert_eq!(book.total_orders(), 0);
}

#[test]
fn process_zero_quantity_for_unknown_id_is_refused() {
    let mut book = OrderBook::new();
    assert_eq!(
        book.process_order(Order::new(5, Side::Buy, 0, 5000, 1, 1)),
        Err(OrderBookError::InvalidQuantity(0))
    );
}

#[test]
fn best_price_cache_recovery() {
    let mut book = OrderBook::new();
    book.add_order(Order::new(1, Side::Buy, 10, 100, 1000, 1)).unwrap();
    book.add_order(Order::new(2, Side::Buy, 20, 95, 1001, 1)).unwrap();
    book.add_order(Order::new(3, Side::Buy, 30, 105, 1002, 1)).unwrap();
    assert_eq!(book.best_bid(), Some((105, 30)));
    book.remove_order(3).unwrap();
    assert_eq!(book.best_bid(), Some((100, 10)));
    book.remove_order(1).unwrap();
    assert_eq!(book.best_bid(), Some((95, 20)));
    book.remove_order(2).unwrap();
    assert_eq!(book.best_bid(), None);
}

#[test]
fn add_then_cancel_restores_the_book() {
    let mut book = OrderBook::new();
    book.add_order(Order::new(1, Side::Buy, 10, 100, 1, 1)).unwrap();
    book.add_order(Order::new(2, Side::Sell, 10, 110, 2, 1)).unwrap();
    let before = (book.get_levels(None), book.best_bid(), book.best_ask(), book.total_orders(), book.total_levels());
    book.add_order(Order::new(3, Side::Buy, 7, 100, 3, 1)).unwrap();
    book.remove_order(3).unwrap();
    let after = (book.get_levels(None), book.best_bid(), book.best_ask(), book.total_orders(), book.total_levels());
    assert_eq!(before, after);
    book.add_order(Order::new(4, Side::Buy, 7, 104, 4, 1)).unwrap();
    assert_eq!(book.best_bid(), Some((104, 7)));
    book.remove_order(4).unwrap();
    let again = (book.get_levels(None), book.best_bid(), book.best_ask(), book.total_orders(), book.total_levels());
    assert_eq!(before, again);
}

#[test]
fn add_then_update_moves_level_size() {
    let mut book = OrderBook::new();
    book.add_order(Order::new(1, Side::Sell, 40, 200, 1, 1)).unwrap();
    book.add_order(Order::new(2, Side::Sell, 25, 200, 2, 1)).unwrap();
    let prior = book.volume_at_price(200).unwrap();
    book.update_order(2, 60).unwrap();
    assert_eq!(book.volume_at_price(200), Some(prior + 60 - 25));
    assert_eq!(book.best_head(Side::Sell), Some((1, 200, 40)));
}

#[test]
fn cancelled_order_is_returned_stamped() {
    let mut book = OrderBook::new();
    book.set_time(10);
    book.add_order(Order::new(1, Side::Buy, 10, 100, 1, 1)).unwrap();
    assert_eq!(book.get_order(1).unwrap().event_time, 10);
    book.set_time(20);
    let c = book.remove_order(1).unwrap();
    assert_eq!(c.status, OrderStatus::Cancelled);
    assert_eq!(c.event_time, 20);
    assert_eq!(book.current_time(), 20);
    assert!(book.get_order(1).is_none());
}

#[test]
fn update_errors() {
    let mut book = OrderBook::new();
    assert_eq!(book.update_order(1, 10), Err(OrderBookError::OrderNotFound(1)));
    book.add_order(Order::new(1, Side::Buy, 10, 100, 1, 1)).unwrap();
    assert_eq!(book.update_order(1, 0), Err(OrderBookError::InvalidQuantity(0)));
    assert_eq!(book.fill_order(1, 4), Ok(4));
    assert_eq!(book.update_order(1, 4), Err(OrderBookError::InvalidQuantity(4)));
    book.update_order(1, 9).unwrap();
    assert_eq!(book.volume_at_price(100), Some(5));
}

#[test]
fn fill_order_retires_a_filled_order() {
    let mut book = OrderBook::new();
    book.add_order(Order::new(1, Side::Buy, 10, 100, 1, 1)).unwrap();
    assert_eq!(book.fill_order(1, 3), Ok(3));
    assert_eq!(book.get_order(1).unwrap().status, OrderStatus::PartiallyFilled);
    assert_eq!(book.volume_at_price(100), Some(7));
    assert_eq!(book.fill_order(1, 50), Ok(7));
    assert!(!book.contains_order(1));
    assert_eq!(book.total_levels(), 0);
    assert_eq!(book.fill_order(1, 1), Err(OrderBookError::OrderNotFound(1)));
}

#[test]
fn level_size_overflow_is_refused() {
    let mut book = OrderBook::with_capacity(16, 4);
    book.add_order(Order::new(1, Side::Buy, u64::MAX, 10, 1, 1)).unwrap();
    assert_eq!(
        book.add_order(Order::new(2, Side::Buy, 1, 10, 2, 1)),
        Err(OrderBookError::InvalidQuantity(1))
    );
    assert_eq!(book.volume_at_price(10), Some(u64::MAX));
    book.add_order(Order::new(3, Side::Buy, u64::MAX, 11, 3, 1)).unwrap();
    assert_eq!(book.total_levels(), 2);
}

#[test]
fn depth_zero_and_one() {
    let mut book = OrderBook::new();
    for (i, p) in [100u64, 95, 90].iter().enumerate() {
        book.add_order(Order::new(i as u64 + 1, Side::Buy, 5, *p, 1, 1)).unwrap();
    }
    for (i, p) in [200u64, 205, 210].iter().enumerate() {
        book.add_order(Order::new(i as u64 + 10, Side::Sell, 5, *p, 1, 1)).unwrap();
    }
    let (b0, a0) = book.get_levels(Some(0));
    assert!(b0.is_empty() && a0.is_empty());
    let (b1, a1) = book.get_levels(Some(1));
    assert_eq!(b1, vec![(100, 5)]);
    assert_eq!(a1, vec![(200, 5)]);
}

#[test]
fn mid_price_of_large_prices_does_not_overflow() {
    let mut book = OrderBook::new();
    book.add_order(Order::new(1, Side::Buy, 1, u64::MAX - 3, 1, 1)).unwrap();
    book.add_order(Order::new(2, Side::Sell, 1, u64::MAX, 1, 1)).unwrap();
    assert_eq!(book.mid_price(), Some(u64::MAX - 2));
    assert_eq!(book.spread(), Some(3));
}

#[test]
fn many_levels_stay_ordered() {
    let mut book = OrderBook::new();
    for i in 0..200u64 {
        book.add_order(Order::new(i + 1, Side::Sell, 1, 1000 + i, i, 1)).unwrap();
    }
    for i in (0..200u64).step_by(3) {
        book.remove_order(i + 1).unwrap();
    }
    let (_, asks) = book.get_levels(None);
    assert_eq!(asks.len(), 200 - 67);
    assert!(asks.windows(2).all(|w| w[0].0 < w[1].0));
    assert_eq!(book.best_ask(), Some((1001, 1)));
}
