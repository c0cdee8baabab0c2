use hft_orderbook::{Order, OrderBook, OrderBookError, Side};


#[test]
fn test_empty_orderbook() {
    let book = OrderBook::new();
    assert_eq!(book.total_orders(), 0);
    assert_eq!(book.total_levels(), 0);
    assert_eq!(book.best_bid(), None);
    assert_eq!(book.best_ask(), None);
    assert_eq!(book.spread(), None);
    assert_eq!(book.mid_price(), None);
}

#[test]
fn test_add_single_order() {
    let mut book = OrderBook::new();
    book.set_time(1000);

    let order = Order::new(1, Side::Buy, 100, 5000, 1000, 1);
    book.add_order(order).unwrap();
    
    assert_eq!(book.total_orders(), 1);
    assert_eq!(book.total_levels(), 1);
    assert_eq!(book.best_bid(), Some((5000, 100)));
    assert_eq!(book.best_ask(), None);
    assert!(book.contains_order(1));
}

#[test]
fn test_add_multiple_orders() {
    let mut book = OrderBook::new();
    book.set_time(1000);

    let buy_order = Order::new(1, Side::Buy, 100, 4950, 1000, 1);
    let sell_order = Order::new(2, Side::Sell, 150, 5050, 1001, 1);

    book.add_order(buy_order).unwrap();
    book.add_order(sell_order).unwrap();
    
    assert_eq!(book.total_orders(), 2);
    assert_eq!(book.total_levels(), 2);
    assert_eq!(book.best_bid(), Some((4950, 100)));
    assert_eq!(book.best_ask(), Some((5050, 150)));
    assert_eq!(book.spread(), Some(100));
    assert_eq!(book.mid_price(), Some(5000));
}

#[test]
fn test_remove_order() {
    let mut book = OrderBook::new();
    book.set_time(1000);

    let order = Order::new(1, Side::Buy, 100, 5000, 1000, 1);
    book.add_order(order).unwrap();
    
    assert_eq!(book.total_orders(), 1);
    assert!(book.contains_order(1));

    let removed = book.remove_order(1).unwrap();
    assert_eq!(removed.id, 1);
    assert_eq!(book.total_orders(), 0);
    assert!(!book.contains_order(1));
    assert_eq!(book.best_bid(), None);
}

#[test]
fn test_update_order() {
    let mut book = OrderBook::new();
    book.set_time(1000);

    let order = Order::new(1, Side::Buy, 100, 5000, 1000, 1);
    book.add_order(order).unwrap();
    
    assert_eq!(book.volume_at_price(5000), Some(100));

    book.update_order(1, 150).unwrap();
    assert_eq!(book.volume_at_price(5000), Some(150));
}

#[test]
fn test_process_order() {
    let mut book = OrderBook::new();
    book.set_time(1000);

    let order1 = Order::new(1, Side::Buy, 100, 5000, 1000, 1);
    book.process_order(order1).unwrap();
    assert_eq!(book.total_orders(), 1);

    let order2 = Order::new(1, Side::Buy, 150, 5000, 1001, 1);
    book.process_order(order2).unwrap();
    assert_eq!(book.total_orders(), 1);
    assert_eq!(book.volume_at_price(5000), Some(150));

    let order3 = Order::new(1, Side::Buy, 0, 5000, 1002, 1);
    book.process_order(order3).unwrap();
    assert_eq!(book.total_orders(), 0);
}


#[test]
fn test_price_levels() {
    let mut book = OrderBook::new();
    book.set_time(1000);

    book.add_order(Order::new(1, Side::Buy, 100, 4950, 1000, 1)).unwrap();
    book.add_order(Order::new(2, Side::Buy, 200, 4940, 1001, 1)).unwrap();
    book.add_order(Order::new(3, Side::Sell, 150, 5050, 1002, 1)).unwrap();
    book.add_order(Order::new(4, Side::Sell, 100, 5060, 1003, 1)).unwrap();

    let (bids, asks) = book.get_levels(None);
    
    assert_eq!(bids.len(), 2);
    assert_eq!(asks.len(), 2);
    
    assert_eq!(bids[0], (4950, 100));
    assert_eq!(bids[1], (4940, 200));
    
    assert_eq!(asks[0], (5050, 150));
    assert_eq!(asks[1], (5060, 100));
}

#[test]
fn test_error_cases() {
    let mut book = OrderBook::new();
    book.set_time(1000);

    let invalid_price_order = Order::new(1, Side::Buy, 100, 0, 1000, 1);
    assert!(matches!(book.add_order(invalid_price_order), Err(OrderBookError::InvalidPrice(0))));

    let invalid_qty_order = Order::new(1, Side::Buy, 0, 5000, 1000, 1);
    assert!(matches!(book.add_order(invalid_qty_order), Err(OrderBookError::InvalidQuantity(0))));

    let order = Order::new(1, Side::Buy, 100, 5000, 1000, 1);
    book.add_order(order).unwrap();

    let duplicate_order = Order::new(1, Side::Sell, 50, 5100, 1001, 1);
    assert!(matches!(book.add_order(duplicate_order), Err(OrderBookError::OrderAlreadyExists(1))));

    assert!(matches!(book.remove_order(999), Err(OrderBookError::OrderNotFound(999))));
}


#[test]
fn test_adding_new_order_works() {
    let mut book = OrderBook::new();
    book.set_time(1000);

    let bid_order = Order::new(1, Side::Buy, 5, 100, 1000, 1);
    let ask_order = Order::new(2, Side::Sell, 5, 200, 1001, 1);
    
    book.add_order(bid_order).unwrap();
    book.add_order(ask_order).unwrap();
    
    assert_eq!(book.best_ask(), Some((200, 5)));
    assert_eq!(book.best_bid(), Some((100, 5)));
    
    assert!(book.contains_order(1));
    assert!(book.contains_order(2));
    
    assert_eq!(book.volume_at_price(100), Some(5));
    assert_eq!(book.volume_at_price(200), Some(5));
    
    book.update_order(1, 4).unwrap();
    assert_eq!(book.volume_at_price(100), Some(4));
    
    let bid_order_2 = Order::new(3, Side::Buy, 5, 100, 1002, 1);
    book.add_order(bid_order_2).unwrap();
    
    assert_eq!(book.volume_at_price(100), Some(9));
    assert_eq!(book.total_orders(), 3);
}

#[test]
fn test_removing_orders_works() {
    let mut book = OrderBook::new();
    book.set_time(1000);

    let bid_order = Order::new(1, Side::Buy, 5, 100, 1000, 1);
    let bid_order_2 = Order::new(2, Side::Buy, 10, 100, 1001, 1);
    let ask_order = Order::new(3, Side::Sell, 10, 200, 1002, 1);
    let ask_order_2 = Order::new(4, Side::Sell, 10, 200, 1003, 1);
    
    book.add_order(bid_order).unwrap();
    book.add_order(bid_order_2).unwrap();
    book.add_order(ask_order).unwrap();
    book.add_order(ask_order_2).unwrap();
    
    assert_eq!(book.volume_at_price(100), Some(15));
    assert_eq!(book.total_orders(), 4);
    
    book.remove_order(1).unwrap();
    assert_eq!(book.volume_at_price(100), Some(10));
    assert_eq!(book.total_orders(), 3);
    assert!(!book.contains_order(1));
    assert!(book.contains_order(2));
    
    book.remove_order(2).unwrap();
    assert_eq!(book.volume_at_price(100), None);
    assert_eq!(book.total_orders(), 2);
    assert_eq!(book.best_bid(), None);
    
    assert_eq!(book.volume_at_price(200), Some(20));
}

#[test]
fn test_querying_levels_works() {
    let mut book = OrderBook::new();
    book.set_time(1000);
    
    let orders = vec![
        Order::new(1, Side::Buy, 5, 100, 1000, 1),
        Order::new(2, Side::Buy, 5, 95, 1001, 1),
        Order::new(3, Side::Buy, 5, 90, 1002, 1),
        Order::new(4, Side::Sell, 5, 200, 1003, 1),
        Order::new(5, Side::Sell, 5, 205, 1004, 1),
        Order::new(6, Side::Sell, 5, 210, 1005, 1),
    ];
    
    for order in orders {
        book.add_order(order).unwrap();
    }
    
    let (bids, asks) = book.get_levels(None);
    
    assert_eq!(bids.len(), 3);
    assert_eq!(asks.len(), 3);
    
    assert_eq!(bids[0].0, 100);
    assert_eq!(bids[1].0, 95);
    assert_eq!(bids[2].0, 90);
    
    assert_eq!(asks[0].0, 200);
    assert_eq!(asks[1].0, 205);
    assert_eq!(asks[2].0, 210);
}

#[test]
fn test_querying_levels_limit_depth() {
    let mut book = OrderBook::new();
    book.set_time(1000);
    
    let orders = vec![
        Order::new(1, Side::Buy, 5, 100, 1000, 1),
        Order::new(2, Side::Buy, 5, 95, 1001, 1),
        Order::new(3, Side::Buy, 5, 90, 1002, 1),
        Order::new(4, Side::Sell, 5, 200, 1003, 1),
        Order::new(5, Side::Sell, 5, 205, 1004, 1),
        Order::new(6, Side::Sell, 5, 210, 1005, 1),
    ];
    
    for order in orders {
        book.add_order(order).unwrap();
    }
    
    let (bids, asks) = book.get_levels(Some(2));
    
    assert_eq!(bids.len(), 2);
    assert_eq!(asks.len(), 2);
    
    assert_eq!(bids[0].0, 100);
    assert_eq!(bids[1].0, 95);
    assert_eq!(asks[0].0, 200);
    assert_eq!(asks[1].0, 205);
}

#[test]
fn test_update_order_changes_side() {
    let mut book = OrderBook::new();
    book.set_time(1000);

    let ask_order = Order::new(2, Side::Sell, 5, 200, 1000, 1);
    book.add_order(ask_order).unwrap();
    
    assert_eq!(book.best_ask(), Some((200, 5)));
    assert_eq!(book.volume_at_price(200), Some(5));
    
    book.update_order(2, 4).unwrap();
    assert_eq!(book.volume_at_price(200), Some(4));
}


#[test]
fn test_order_pushing_multiple_orders() {
    let mut book = OrderBook::new();
    book.set_time(1000);
    
    let order_a = Order::new(1, Side::Buy, 10, 1000, 1000, 1);
    let order_b = Order::new(2, Side::Buy, 20, 1000, 1001, 1);
    let order_c = Order::new(3, Side::Buy, 30, 1000, 1002, 1);
    
    book.add_order(order_a).unwrap();
    assert_eq!(book.volume_at_price(1000), Some(10));
    assert_eq!(book.total_orders(), 1);
    
    book.add_order(order_b).unwrap();
    assert_eq!(book.volume_at_price(1000), Some(30));
    assert_eq!(book.total_orders(), 2);
    
    book.add_order(order_c).unwrap();
    assert_eq!(book.volume_at_price(1000), Some(60));
    assert_eq!(book.total_orders(), 3);
    
    assert!(book.contains_order(1));
    assert!(book.contains_order(2));
    assert!(book.contains_order(3));
}

#[test]
fn test_order_removal_from_middle() {
    let mut book = OrderBook::new();
    book.set_time(1000);
    
    let order_a = Order::new(1, Side::Buy, 10, 1000, 1000, 1);
    let order_b = Order::new(2, Side::Buy, 20, 1000, 1001, 1);
    let order_c = Order::new(3, Side::Buy, 30, 1000, 1002, 1);
    
    book.add_order(order_a).unwrap();
    book.add_order(order_b).unwrap();
    book.add_order(order_c).unwrap();
    
    assert_eq!(book.volume_at_price(1000), Some(60));
    assert_eq!(book.total_orders(), 3);
    
    book.remove_order(2).unwrap();
    assert_eq!(book.volume_at_price(1000), Some(40));
    assert_eq!(book.total_orders(), 2);
    assert!(!book.contains_order(2));
    assert!(book.contains_order(1));
    assert!(book.contains_order(3));
    
    book.remove_order(1).unwrap();
    assert_eq!(book.volume_at_price(1000), Some(30));
    assert_eq!(book.total_orders(), 1);
    assert!(book.contains_order(3));
    
    book.remove_order(3).unwrap();
    assert_eq!(book.volume_at_price(1000), None);
    assert_eq!(book.total_orders(), 0);
    assert_eq!(book.best_bid(), None);
}

#[test]
fn test_multiple_price_levels() {
    let mut book = OrderBook::new();
    book.set_time(1000);
    
    let order1 = Order::new(1, Side::Buy, 10, 100, 1000, 1);
    let order2 = Order::new(2, Side::Buy, 20, 200, 1001, 1);
    let order3 = Order::new(3, Side::Buy, 30, 50, 1002, 1);
    let order4 = Order::new(4, Side::Buy, 40, 45, 1003, 1);
    
    book.add_order(order1).unwrap();
    book.add_order(order2).unwrap();
    book.add_order(order3).unwrap();
    book.add_order(order4).unwrap();
    
    assert_eq!(book.total_levels(), 4);
    assert_eq!(book.total_orders(), 4);
    
    assert_eq!(book.best_bid(), Some((200, 20)));
    
    assert_eq!(book.volume_at_price(100), Some(10));
    assert_eq!(book.volume_at_price(200), Some(20));
    assert_eq!(book.volume_at_price(50), Some(30));
    assert_eq!(book.volume_at_price(45), Some(40));
}

#[test]
fn test_duplicate_price_levels() {
    let mut book = OrderBook::new();
    book.set_time(1000);
    
    let order1 = Order::new(1, Side::Buy, 10, 100, 1000, 1);
    let order2 = Order::new(2, Side::Buy, 20, 100, 1001, 1);
    
    book.add_order(order1).unwrap();
    book.add_order(order2).unwrap();
    
    assert_eq!(book.total_levels(), 1);
    assert_eq!(book.total_orders(), 2);
    assert_eq!(book.volume_at_price(100), Some(30));
}

#[test]
fn test_best_price_updates() {
    let mut book = OrderBook::new();
    book.set_time(1000);
    
    book.add_order(Order::new(1, Side::Buy, 10, 100, 1000, 1)).unwrap();
    assert_eq!(book.best_bid(), Some((100, 10)));
    
    book.add_order(Order::new(2, Side::Buy, 20, 95, 1001, 1)).unwrap();
    assert_eq!(book.best_bid(), Some((100, 10))); // Still best
    
    book.add_order(Order::new(3, Side::Buy, 30, 105, 1002, 1)).unwrap();
    assert_eq!(book.best_bid(), Some((105, 30))); // New best
    
    book.remove_order(3).unwrap();
    assert_eq!(book.best_bid(), Some((100, 10))); // Back to previous best
    
    book.add_order(Order::new(4, Side::Sell, 10, 200, 1003, 1)).unwrap();
    assert_eq!(book.best_ask(), Some((200, 10)));
    
    book.add_order(Order::new(5, Side::Sell, 20, 205, 1004, 1)).unwrap();
    assert_eq!(book.best_ask(), Some((200, 10))); // Still best
    
    book.add_order(Order::new(6, Side::Sell, 30, 195, 1005, 1)).unwrap();
    assert_eq!(book.best_ask(), Some((195, 30))); // New best
}

#[test]
fn test_spread_and_mid_price() {
    let mut book = OrderBook::new();
    book.set_time(1000);
    
    assert_eq!(book.spread(), None);
    assert_eq!(book.mid_price(), None);
    
    book.add_order(Order::new(1, Side::Buy, 10, 100, 1000, 1)).unwrap();
    assert_eq!(book.spread(), None);
    assert_eq!(book.mid_price(), None);
    
    book.remove_order(1).unwrap();
    book.add_order(Order::new(2, Side::Sell, 10, 200, 1001, 1)).unwrap();
    assert_eq!(book.spread(), None);
    assert_eq!(book.mid_price(), None);
    
    book.add_order(Order::new(1, Side::Buy, 10, 100, 1002, 1)).unwrap();
    assert_eq!(book.spread(), Some(100));
    assert_eq!(book.mid_price(), Some(150));
    
    book.remove_order(1).unwrap();
    book.add_order(Order::new(3, Side::Buy, 10, 150, 1003, 1)).unwrap();
    assert_eq!(book.spread(), Some(50));
    assert_eq!(book.mid_price(), Some(175));
}

#[test]
fn test_order_update_quantity() {
    let mut book = OrderBook::new();
    book.set_time(1000);
    
    let order = Order::new(1, Side::Buy, 100, 5000, 1000, 1);
    book.add_order(order).unwrap();
    
    assert_eq!(book.volume_at_price(5000), Some(100));
    
    book.update_order(1, 150).unwrap();
    assert_eq!(book.volume_at_price(5000), Some(150));
    
    book.update_order(1, 75).unwrap();
    assert_eq!(book.volume_at_price(5000), Some(75));
    
    assert!(book.update_order(1, 0).is_err());
}

#[test]
fn test_process_order_add_update_remove() {
    let mut book = OrderBook::new();
    book.set_time(1000);
    
    let order1 = Order::new(1, Side::Buy, 100, 5000, 1000, 1);
    book.process_order(order1).unwrap();
    assert_eq!(book.total_orders(), 1);
    assert_eq!(book.volume_at_price(5000), Some(100));
    
    let order2 = Order::new(1, Side::Buy, 150, 5000, 1001, 1);
    book.process_order(order2).unwrap();
    assert_eq!(book.total_orders(), 1);
    assert_eq!(book.volume_at_price(5000), Some(150));
    
    let order3 = Order::new(1, Side::Buy, 0, 5000, 1002, 1);
    book.process_order(order3).unwrap();
    assert_eq!(book.total_orders(), 0);
    assert_eq!(book.volume_at_price(5000), None);
}

#[test]
fn test_comprehensive_orderbook_operations() {
    let mut book = OrderBook::new();
    book.set_time(1000);
    
    let orders = vec![
        (Order::new(1, Side::Buy, 100, 4990, 1000, 1), true),
        (Order::new(2, Side::Buy, 200, 4980, 1001, 1), true),
        (Order::new(3, Side::Buy, 150, 4970, 1002, 1), true),
        (Order::new(4, Side::Sell, 100, 5010, 1003, 1), true),
        (Order::new(5, Side::Sell, 200, 5020, 1004, 1), true),
        (Order::new(6, Side::Sell, 150, 5030, 1005, 1), true),
    ];
    
    for (order, _) in orders {
        book.add_order(order).unwrap();
    }
    
    assert_eq!(book.total_orders(), 6);
    assert_eq!(book.total_levels(), 6);
    assert_eq!(book.best_bid(), Some((4990, 100)));
    assert_eq!(book.best_ask(), Some((5010, 100)));
    assert_eq!(book.spread(), Some(20));
    
    book.update_order(1, 120).unwrap();
    assert_eq!(book.volume_at_price(4990), Some(120));
    
    book.remove_order(2).unwrap();
    assert_eq!(book.total_orders(), 5);
    assert_eq!(book.total_levels(), 5);
    assert_eq!(book.best_bid(), Some((4990, 120)));
    
    book.remove_order(1).unwrap();
    assert_eq!(book.best_bid(), Some((4970, 150)));
    
    book.remove_order(4).unwrap();
    assert_eq!(book.best_ask(), Some((5020, 200)));
    
    assert_eq!(book.total_orders(), 3);
    assert_eq!(book.total_levels(), 3);
}
