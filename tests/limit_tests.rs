use hft_orderbook::{Limit, Side};

#[test]
fn test_limit_creation() {
    let limit = Limit::new(5000, Side::Buy);
    assert_eq!(limit.price, 5000);
    assert_eq!(limit.size, 0);
    assert_eq!(limit.total_volume, 0);
    assert_eq!(limit.order_count, 0);
    assert!(limit.is_empty());
}

#[test]
fn test_limit_add_order_stats() {
    let mut limit = Limit::new(5000, Side::Buy);

    limit.add_order_stats(100);
    assert_eq!(limit.size, 100);
    assert_eq!(limit.total_volume, 500000);
    assert_eq!(limit.order_count, 1);
    assert!(!limit.is_empty());

    limit.add_order_stats(50);
    assert_eq!(limit.size, 150);
    assert_eq!(limit.total_volume, 750000);
    assert_eq!(limit.order_count, 2);
}

#[test]
fn test_limit_remove_order_stats() {
    let mut limit = Limit::new(5000, Side::Buy);
    limit.add_order_stats(100);
    limit.add_order_stats(50);

    limit.remove_order_stats(50);
    assert_eq!(limit.size, 100);
    assert_eq!(limit.total_volume, 500000);
    assert_eq!(limit.order_count, 1);

    limit.remove_order_stats(100);
    assert_eq!(limit.size, 0);
    assert_eq!(limit.total_volume, 0);
    assert_eq!(limit.order_count, 0);
    assert!(limit.is_empty());
}

#[test]
fn test_limit_update_order_stats() {
    let mut limit = Limit::new(5000, Side::Buy);
    limit.add_order_stats(100);

    limit.update_order_stats(100, 150);
    assert_eq!(limit.size, 150);
    assert_eq!(limit.total_volume, 750000);

    limit.update_order_stats(150, 75);
    assert_eq!(limit.size, 75);
    assert_eq!(limit.total_volume, 375000);
}

#[test]
fn limit_queries_and_reset() {
    let mut limit = Limit::new(7, Side::Sell);
    assert_eq!(limit.side(), Side::Sell);
    assert_eq!(limit.average_price(), 7);
    limit.add_order_stats(3);
    assert_eq!(limit.total_value(), 21);
    limit.reset();
    assert_eq!(limit.size, 0);
    assert_eq!(limit.total_value(), 0);
    assert!(limit.is_empty());
    assert_eq!(limit.price, 7);
}

#[test]
fn limit_notional_of_largest_quantities() {
    let mut limit = Limit::new(u64::MAX, Side::Buy);
    limit.add_order_stats(u64::MAX);
    assert_eq!(limit.total_volume, (u64::MAX as u128) * (u64::MAX as u128));
}
