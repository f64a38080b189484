use orderbook::models::{LevelInfo as ModelLevelInfo, OrderbookLevelInfos};
use orderbook::order::{Order, OrderType, Side};
use orderbook::price_level::PriceLevel;

#[test]
fn level_add_and_remove_keep_volume_exact() {
    let mut level = PriceLevel::new(7, 8);
    assert_eq!(level.volume, 0);
    assert_eq!(level.order_count, 0);

    let a = Order::new(OrderType::GoodTillCancel, Side::Buy, 7, 3);
    let b = Order::new(OrderType::GoodTillCancel, Side::Buy, 7, 5);
    let cursor_a = level.add_order(&a);
    let cursor_b = level.add_order(&b);
    assert_eq!(cursor_a, 0);
    assert_eq!(cursor_b, 1);
    assert_eq!(level.volume, 8);
    assert_eq!(level.order_count, 2);

    level.remove_order(cursor_a, &a);
    assert_eq!(level.volume, 5);
    assert_eq!(level.order_count, 1);
    assert_eq!(level.orders[cursor_a], None);
    assert_eq!(level.orders[cursor_b], Some(b.order_id));
}

#[test]
fn level_front_skips_cleared_slots() {
    let mut level = PriceLevel::new(7, 8);
    let a = Order::new(OrderType::GoodTillCancel, Side::Buy, 7, 3);
    let b = Order::new(OrderType::GoodTillCancel, Side::Buy, 7, 5);
    let c = Order::new(OrderType::GoodTillCancel, Side::Buy, 7, 2);
    let cursor_a = level.add_order(&a);
    level.add_order(&b);
    level.add_order(&c);

    assert_eq!(level.get_shift_loc(), 0);
    level.remove_order(cursor_a, &a);
    // the earliest still-active order is now b, in slot 1
    assert_eq!(level.get_shift_loc(), 1);
    assert_eq!(level.orders[level.get_shift_loc()], Some(b.order_id));
}

#[test]
fn level_update_order_adjusts_volume() {
    let mut level = PriceLevel::new(9, 4);
    let a = Order::new(OrderType::GoodTillCancel, Side::Sell, 9, 10);
    level.add_order(&a);
    let mut reduced = a;
    reduced.executed_quantity = 4;
    reduced.remaining_quantity = 6;
    level.update_order(&a, &reduced);
    assert_eq!(level.volume, 6);
    assert_eq!(level.order_count, 1);
}

#[test]
fn level_info_snapshot() {
    let mut level = PriceLevel::new(11, 4);
    let a = Order::new(OrderType::GoodTillCancel, Side::Sell, 11, 2);
    level.add_order(&a);
    let info = level.get_level_info();
    assert_eq!(info.price, 11);
    assert_eq!(info.volume, 2);
}

#[test]
fn model_level_infos_round_trip() {
    let bid = ModelLevelInfo::init_level_info(10, 4);
    let ask = ModelLevelInfo::init_level_info(11, 6);
    assert_eq!(bid.price, 10);
    assert_eq!(bid.qty, 4);
    let infos = OrderbookLevelInfos::init_orderbook_levels(vec![bid], vec![ask]);
    assert_eq!(infos.get_bids().len(), 1);
    assert_eq!(infos.get_asks().len(), 1);
    assert_eq!(infos.get_bids()[0].price, 10);
    assert_eq!(infos.get_asks()[0].price, 11);
}
