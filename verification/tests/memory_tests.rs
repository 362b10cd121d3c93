use orderbook_rs::types::{precise_time_ns, PriceLevel};
use orderbook_rs::{Order, OrderPool, OrderType, PriceLookupTable, Side};

#[test]
fn test_pool_allocate_and_get() {
    let mut pool = OrderPool::new(2);
    assert_eq!(pool.total_capacity(), 2);
    assert_eq!(pool.available_capacity(), 2);

    let a = Order::new(1, 9900, 10, Side::Buy, OrderType::Limit);
    let b = Order::new(2, 9910, 20, Side::Buy, OrderType::Limit);
    let ha = pool.allocate(a).unwrap();
    let hb = pool.allocate(b).unwrap();
    assert_ne!(ha, hb);
    assert_eq!(pool.available_capacity(), 0);
    assert_eq!(pool.get(ha).order_id, 1);
    assert_eq!(pool.get(hb).quantity, 20);

    // A third allocation fails until a slot is freed.
    let c = Order::new(3, 9920, 30, Side::Buy, OrderType::Limit);
    assert!(pool.allocate(c).is_none());
    pool.deallocate(ha);
    assert_eq!(pool.available_capacity(), 1);
    let hc = pool.allocate(c).unwrap();
    assert_eq!(pool.get(hc).order_id, 3);
}

#[test]
fn test_pool_set_quantity() {
    let mut pool = OrderPool::new(1);
    let h = pool
        .allocate(Order::new(7, 9900, 10, Side::Sell, OrderType::Limit))
        .unwrap();
    pool.set_quantity(h, 4);
    assert_eq!(pool.get(h).quantity, 4);
    assert_eq!(pool.get(h).order_id, 7);
    assert_eq!(pool.get(h).price, 9900);
}

#[test]
fn test_lookup_table_insert_find_remove() {
    let mut table = PriceLookupTable::new(8);
    assert!(table.is_empty());
    table.insert(9900, 0);
    table.insert(9910, 1);
    table.insert(9920, 2);
    assert_eq!(table.len(), 3);
    assert!(!table.is_empty());

    assert_eq!(table.find(9910), Some(1));
    assert_eq!(table.find(9920), Some(2));
    assert_eq!(table.find(9999), None);

    assert!(table.remove(9910));
    assert_eq!(table.len(), 2);
    assert_eq!(table.find(9910), None);
    // The remaining entries are still found.
    assert_eq!(table.find(9900), Some(0));
    assert_eq!(table.find(9920), Some(2));

    assert!(!table.remove(9910));
    assert_eq!(table.len(), 2);
}

#[test]
fn test_lookup_table_finds_first_duplicate() {
    let mut table = PriceLookupTable::new(4);
    table.insert(9900, 5);
    table.insert(9900, 6);
    assert_eq!(table.find(9900), Some(5));
    assert!(table.remove(9900));
    assert_eq!(table.find(9900), Some(6));
}

#[test]
fn test_price_level_fifo() {
    let mut level = PriceLevel::new(9900, 4);
    assert!(level.is_empty());
    assert!(level.add_order(10, 5));
    assert!(level.add_order(11, 7));
    assert!(level.add_order(12, 9));
    assert_eq!(level.order_count(), 3);
    assert_eq!(level.total_quantity, 21);

    // Removal keeps the relative order of the remaining handles.
    assert!(level.remove_order(11, 7));
    assert_eq!(level.order_count(), 2);
    assert_eq!(level.total_quantity, 14);
    assert_eq!(level.order_indices, vec![10, 12]);

    assert!(!level.remove_order(11, 7));
}

#[test]
fn test_order_accessors() {
    let order = Order::new(42, 10005, 17, Side::Sell, OrderType::Market);
    assert_eq!(order.order_id, 42);
    assert_eq!(order.price, 10005);
    assert_eq!(order.quantity, 17);
    assert_eq!(order.side(), Side::Sell);
    assert_eq!(order.order_type(), OrderType::Market);
    assert!(order.is_active());

    let spent = Order::new(43, 10005, 0, Side::Buy, OrderType::Limit);
    assert!(!spent.is_active());
    assert_eq!(spent.side(), Side::Buy);
    assert_eq!(spent.order_type(), OrderType::Limit);

    let _stamp: u64 = precise_time_ns();
}
