use orderbook::order::{ModifyOrder, Order, OrderType, Side, Status};

#[test]
fn check_new_order() {
    let test_order: Order = Order::new(OrderType::GoodTillCancel, Side::Buy, 100, 10);
    assert_eq!(test_order.price, 100);
    assert_eq!(test_order.order_type, OrderType::GoodTillCancel);
    assert_eq!(test_order.side, Side::Buy);
    assert_eq!(test_order.original_quantity, 10);
    assert_eq!(test_order.executed_quantity, 0);
}

#[test]
fn check_fill_quantity() {
    let mut test_order: Order = Order::new(OrderType::GoodTillCancel, Side::Buy, 100, 10);
    let _ = test_order.fill_qty(10);
    assert_eq!(test_order.executed_quantity, 10);
    assert_eq!(test_order.remaining_quantity, 0);
    assert_eq!(test_order.is_filled(), true);
}

#[test]
fn check_fill_quantity_partial() {
    let mut test_order: Order = Order::new(OrderType::GoodTillCancel, Side::Sell, 7, 10);
    assert!(test_order.fill_qty(4).is_ok());
    assert_eq!(test_order.executed_quantity, 4);
    assert_eq!(test_order.remaining_quantity, 6);
    assert_eq!(test_order.is_filled(), false);
}

#[test]
fn check_fill_quantity_rejects_excess() {
    let mut test_order: Order = Order::new(OrderType::GoodTillCancel, Side::Buy, 100, 10);
    let result = test_order.fill_qty(11);
    assert!(result.is_err());
    assert_eq!(test_order.executed_quantity, 0);
    assert_eq!(test_order.remaining_quantity, 10);
}

#[test]
fn check_new_order_status() {
    let test_order: Order = Order::new(OrderType::LimitOrder, Side::Sell, -3, 1);
    assert_eq!(test_order.status, Status::New);
    assert_eq!(test_order.price, -3);
    assert_eq!(test_order.remaining_quantity, 1);
}

#[test]
fn check_modify_order_to_order_ptr() {
    let modify = ModifyOrder {
        order_id: 7,
        price: 42,
        quantity: 5,
        side: Side::Buy,
        timestamp: 0,
    };
    let order = modify.to_order_ptr(OrderType::LimitOrder);
    assert_eq!(order.price, 42);
    assert_eq!(order.original_quantity, 5);
    assert_eq!(order.remaining_quantity, 5);
    assert_eq!(order.executed_quantity, 0);
    assert_eq!(order.side, Side::Buy);
    assert_eq!(order.order_type, OrderType::LimitOrder);
}
