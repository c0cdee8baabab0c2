use hft_orderbook::avl_tree::PriceTree;
use hft_orderbook::{Order, OrderBook, OrderBookError, Side};

#[test]
fn tree_stays_balanced_on_sorted_inserts() {
    let mut tree = PriceTree::new();
    for p in 0..1023u64 {
        tree.insert(p, p as usize);
    }
    assert_eq!(tree.root.as_ref().unwrap().height, 10);
    assert_eq!(tree.min(), Some((0, 0)));
    assert_eq!(tree.max(), Some((1022, 1022)));
    for p in 0..1000u64 {
        tree.remove(p);
    }
    assert!(tree.root.as_ref().unwrap().height <= 6);
    assert_eq!(tree.lowest(3), vec![(1000, 1000), (1001, 1001), (1002, 1002)]);
    assert_eq!(tree.highest(2), vec![(1022, 1022), (1021, 1021)]);
}

#[test]
fn tree_insert_of_present_price_keeps_handle() {
    let mut tree = PriceTree::new();
    tree.insert(5, 1);
    tree.insert(5, 2);
    assert_eq!(tree.max(), Some((5, 1)));
    tree.remove(5);
    assert!(tree.is_empty());
}

#[test]
fn inconsistent_working_quantity_is_reported() {
    let mut book = OrderBook::new();
    let mut o = Order::new(1, Side::Buy, 10, 100, 1, 1);
    o.remaining_quantity = 11;
    assert_eq!(book.add_order(o), Err(OrderBookError::InvalidQuantity(11)));
    let removed = {
        book.add_order(Order::new(2, Side::Buy, 10, 100, 1, 1)).unwrap();
        book.remove_order(2).unwrap()
    };
    assert_eq!(removed.id, 2);
}
