use hft_orderbook::{Order, OrderStatus, Side};

#[test]
fn test_order_creation() {
    let order = Order::new(1, Side::Buy, 100, 5000, 1000, 1);
    assert_eq!(order.id, 1);
    assert_eq!(order.side, Side::Buy);
    assert_eq!(order.quantity, 100);
    assert_eq!(order.remaining_quantity, 100);
    assert_eq!(order.price, 5000);
    assert_eq!(order.status, OrderStatus::Active);
    assert!(!order.is_filled());
    assert!(!order.is_partially_filled());
}

#[test]
fn test_order_fill() {
    let mut order = Order::new(1, Side::Buy, 100, 5000, 1000, 1);

    let filled = order.fill(30, 1001);
    assert_eq!(filled, 30);
    assert_eq!(order.remaining_quantity, 70);
    assert_eq!(order.filled_quantity(), 30);
    assert!(order.is_partially_filled());
    assert_eq!(order.status, OrderStatus::PartiallyFilled);

    let filled = order.fill(70, 1002);
    assert_eq!(filled, 70);
    assert_eq!(order.remaining_quantity, 0);
    assert_eq!(order.filled_quantity(), 100);
    assert!(order.is_filled());
    assert_eq!(order.status, OrderStatus::Filled);
}

#[test]
fn test_order_overfill() {
    let mut order = Order::new(1, Side::Buy, 100, 5000, 1000, 1);

    let filled = order.fill(150, 1001);
    assert_eq!(filled, 100);
    assert_eq!(order.remaining_quantity, 0);
    assert!(order.is_filled());
}

#[test]
fn order_sides_and_values() {
    let order = Order::new(9, Side::Sell, 4, 25, 3, 2);
    assert!(order.is_sell());
    assert!(!order.is_buy());
    assert_eq!(order.value(), 100);
    assert_eq!(order.event_time, 3);
    let mut o = order;
    o.fill(1, 10);
    assert_eq!(o.remaining_value(), 75);
    assert_eq!(o.event_time, 10);
}

#[test]
fn order_cancel_stamps_time() {
    let mut order = Order::new(1, Side::Buy, 10, 5, 1, 1);
    order.cancel(42);
    assert_eq!(order.status, OrderStatus::Cancelled);
    assert_eq!(order.event_time, 42);
    assert_eq!(order.remaining_quantity, 10);
}

#[test]
fn order_update_quantity_keeps_filled_part() {
    let mut order = Order::new(1, Side::Buy, 100, 5, 1, 1);
    order.fill(30, 2);
    assert!(!order.update_quantity(20, 3));
    assert_eq!(order.quantity, 100);
    assert_eq!(order.event_time, 2);
    assert!(order.update_quantity(50, 4));
    assert_eq!(order.quantity, 50);
    assert_eq!(order.remaining_quantity, 20);
    assert_eq!(order.status, OrderStatus::PartiallyFilled);
    assert!(order.update_quantity(30, 5));
    assert_eq!(order.remaining_quantity, 0);
    assert_eq!(order.status, OrderStatus::Filled);
}
