use orderbook::order::{Order, OrderType, Side};
use orderbook::orderbook_impl::{OrderBook, OrderBookError, Trade};

#[test]
fn check_add_new_limit_order() {
    let mut test_ob = OrderBook::new(1024, 1024);
    let limit_order = Order::new(OrderType::LimitOrder, Side::Buy, 10, 10);
    let trades = test_ob.add_order(&limit_order).unwrap();
    assert_eq!(trades, Vec::<Trade>::new());
}

#[test]
fn check_add_new_limit_order_and_later_comsumed_by_market_order() {
    let mut test_ob = OrderBook::new(1024, 1024);
    let limit_order = Order::new(OrderType::LimitOrder, Side::Buy, 10, 10);
    let market_order = Order::new(OrderType::MarketOrder, Side::Sell, 10, 10);

    // limit order first arrives to the book
    {
        test_ob.add_order(&limit_order).unwrap();
    }
    // market order arrives later to consume the book
    let trades = test_ob.add_order(&market_order).unwrap();
    assert_eq!(trades.iter().next().unwrap().price, 10);
    assert_eq!(trades.iter().next().unwrap().quantity, 10);
    assert_eq!(trades.len(), 1);
}

#[test]
fn check_get_best_bid_ask_in_multiple_limit_orders() {
    let mut test_ob = OrderBook::new(1024, 1024);
    {
        let buy_order_1 = Order::new(OrderType::LimitOrder, Side::Buy, 9, 10);
        let buy_order_2 = Order::new(OrderType::LimitOrder, Side::Buy, 8, 5);
        let buy_order_3 = Order::new(OrderType::LimitOrder, Side::Buy, 7, 3);

        test_ob.add_order(&buy_order_1).unwrap();
        test_ob.add_order(&buy_order_2).unwrap();
        test_ob.add_order(&buy_order_3).unwrap();
    }

    {
        let sell_order_1 = Order::new(OrderType::LimitOrder, Side::Sell, 10, 10);
        let sell_order_2 = Order::new(OrderType::LimitOrder, Side::Sell, 11, 5);
        let sell_order_3 = Order::new(OrderType::LimitOrder, Side::Sell, 12, 3);

        test_ob.add_order(&sell_order_1).unwrap();
        test_ob.add_order(&sell_order_2).unwrap();
        test_ob.add_order(&sell_order_3).unwrap();
    }
    assert_eq!(test_ob.get_best_bid().unwrap(), 9);
    assert_eq!(test_ob.get_best_ask().unwrap(), 10);
}

#[test]
fn check_add_multiples_limit_order_and_later_comsumed_by_an_market_order() {
    let mut test_ob = OrderBook::new(1024, 1024);
    let market_order = Order::new(OrderType::MarketOrder, Side::Sell, 0, 10);

    // limit orders first arrive to the book
    {
        let buy_order_1 = Order::new(OrderType::LimitOrder, Side::Buy, 9, 3);
        let buy_order_2 = Order::new(OrderType::LimitOrder, Side::Buy, 8, 5);
        let buy_order_3 = Order::new(OrderType::LimitOrder, Side::Buy, 7, 10);

        test_ob.add_order(&buy_order_1).unwrap();
        test_ob.add_order(&buy_order_2).unwrap();
        test_ob.add_order(&buy_order_3).unwrap();
    }
    // market order arrives later to consume the book
    let trades = test_ob.add_order(&market_order).unwrap();
    assert_eq!(trades.len(), 3);
}

#[test]
fn check_consume_limit_order_by_market_order() {
    // a market order takes the best prices first and discards any
    // unfilled remainder without error
    let mut test_ob = OrderBook::new(16, 16);
    let sell_a = Order::new(OrderType::LimitOrder, Side::Sell, 10, 4);
    let sell_b = Order::new(OrderType::LimitOrder, Side::Sell, 11, 4);
    test_ob.add_order(&sell_a).unwrap();
    test_ob.add_order(&sell_b).unwrap();

    let market_buy = Order::new(OrderType::MarketOrder, Side::Buy, 0, 10);
    let trades = test_ob.add_order(&market_buy).unwrap();
    assert_eq!(trades.len(), 2);
    assert_eq!(trades[0].price, 10);
    assert_eq!(trades[0].quantity, 4);
    assert_eq!(trades[1].price, 11);
    assert_eq!(trades[1].quantity, 4);
    // the remainder of the market order is gone, not resting
    assert_eq!(test_ob.get_best_bid(), None);
    assert_eq!(test_ob.get_best_ask(), None);
    assert_eq!(test_ob.orders.len(), 0);
}

#[test]
fn check_consume_limit_order_by_ioc_order() {
    // immediate-or-cancel matches what it can at its limit and
    // discards the rest
    let mut test_ob = OrderBook::new(16, 16);
    let sell_a = Order::new(OrderType::LimitOrder, Side::Sell, 10, 5);
    let sell_b = Order::new(OrderType::LimitOrder, Side::Sell, 12, 5);
    test_ob.add_order(&sell_a).unwrap();
    test_ob.add_order(&sell_b).unwrap();

    let ioc_buy = Order::new(OrderType::ImmediateOrCancel, Side::Buy, 10, 8);
    let trades = test_ob.add_order(&ioc_buy).unwrap();
    assert_eq!(trades.len(), 1);
    assert_eq!(trades[0].price, 10);
    assert_eq!(trades[0].quantity, 5);
    // nothing rested on the bid side; the 12-priced ask survives
    assert_eq!(test_ob.get_best_bid(), None);
    assert_eq!(test_ob.get_best_ask(), Some(12));
}

#[test]
fn check_consume_limit_order_by_fok_order() {
    // fill-or-kill needs the available volume to strictly exceed
    // its quantity
    let mut test_ob = OrderBook::new(16, 16);
    let sell_a = Order::new(OrderType::LimitOrder, Side::Sell, 10, 6);
    test_ob.add_order(&sell_a).unwrap();

    let fok_buy = Order::new(OrderType::FillOrKill, Side::Buy, 10, 5);
    let trades = test_ob.add_order(&fok_buy).unwrap();
    assert_eq!(trades.len(), 1);
    assert_eq!(trades[0].price, 10);
    assert_eq!(trades[0].quantity, 5);
    assert_eq!(test_ob.get_best_ask(), Some(10));
}

#[test]
fn duplicate_order_id_is_rejected_and_book_unchanged() {
    let mut test_ob = OrderBook::new(16, 16);
    let order = Order::new(OrderType::LimitOrder, Side::Buy, 10, 10);
    test_ob.add_order(&order).unwrap();

    let result = test_ob.add_order(&order);
    match result {
        Err(OrderBookError::OrderAlreadyExists { order_id }) => {
            assert_eq!(order_id, order.order_id);
        }
        other => panic!("expected OrderAlreadyExists, got {:?}", other),
    }
    // the book is exactly as it was
    assert_eq!(test_ob.get_best_bid(), Some(10));
    assert_eq!(test_ob.orders.len(), 1);
    assert_eq!(test_ob.bids.len(), 1);
}

#[test]
fn zero_quantity_is_rejected() {
    let mut test_ob = OrderBook::new(16, 16);
    let order = Order::new(OrderType::LimitOrder, Side::Buy, 10, 0);
    let result = test_ob.add_order(&order);
    match result {
        Err(OrderBookError::InvalidQuantity { quantity }) => {
            assert_eq!(quantity, 0);
        }
        other => panic!("expected InvalidQuantity, got {:?}", other),
    }
    assert_eq!(test_ob.get_best_bid(), None);
}

#[test]
fn cancel_unknown_order_fails() {
    let mut test_ob = OrderBook::new(16, 16);
    let result = test_ob.cancel_order(12345);
    match result {
        Err(OrderBookError::OrderNotFound { order_id }) => {
            assert_eq!(order_id, 12345);
        }
        other => panic!("expected OrderNotFound, got {:?}", other),
    }
}

#[test]
fn price_time_priority_fills_first_arrival_first() {
    let mut test_ob = OrderBook::new(16, 16);
    let buy_a = Order::new(OrderType::LimitOrder, Side::Buy, 10, 4);
    let buy_b = Order::new(OrderType::LimitOrder, Side::Buy, 10, 6);
    test_ob.add_order(&buy_a).unwrap();
    test_ob.add_order(&buy_b).unwrap();

    let sell = Order::new(OrderType::LimitOrder, Side::Sell, 10, 10);
    let trades = test_ob.add_order(&sell).unwrap();
    assert_eq!(trades.len(), 2);
    // the earlier order is filled in full before the later one
    assert_eq!(trades[0].bid_order_id, buy_a.order_id);
    assert_eq!(trades[0].quantity, 4);
    assert_eq!(trades[1].bid_order_id, buy_b.order_id);
    assert_eq!(trades[1].quantity, 6);
    assert_eq!(test_ob.get_best_bid(), None);
    assert_eq!(test_ob.get_best_ask(), None);
}

#[test]
fn crossing_market_order_empties_book() {
    let mut test_ob = OrderBook::new(16, 16);
    let buy = Order::new(OrderType::LimitOrder, Side::Buy, 10, 10);
    test_ob.add_order(&buy).unwrap();

    let sell = Order::new(OrderType::MarketOrder, Side::Sell, 0, 10);
    let trades = test_ob.add_order(&sell).unwrap();
    assert_eq!(trades.len(), 1);
    assert_eq!(trades[0].price, 10);
    assert_eq!(trades[0].quantity, 10);
    assert_eq!(trades[0].bid_order_id, buy.order_id);
    assert_eq!(trades[0].ask_order_id, sell.order_id);
    assert_eq!(test_ob.get_best_bid(), None);
    assert_eq!(test_ob.get_best_ask(), None);
}

#[test]
fn partial_fill_then_rest() {
    let mut test_ob = OrderBook::new(16, 16);
    let buy_1 = Order::new(OrderType::LimitOrder, Side::Buy, 9, 3);
    let buy_2 = Order::new(OrderType::LimitOrder, Side::Buy, 8, 5);
    let buy_3 = Order::new(OrderType::LimitOrder, Side::Buy, 7, 10);
    test_ob.add_order(&buy_1).unwrap();
    test_ob.add_order(&buy_2).unwrap();
    test_ob.add_order(&buy_3).unwrap();

    let sell = Order::new(OrderType::MarketOrder, Side::Sell, 0, 10);
    let trades = test_ob.add_order(&sell).unwrap();
    assert_eq!(trades.len(), 3);
    assert_eq!(trades[0].quantity, 3);
    assert_eq!(trades[0].price, 9);
    assert_eq!(trades[1].quantity, 5);
    assert_eq!(trades[1].price, 8);
    assert_eq!(trades[2].quantity, 2);
    assert_eq!(trades[2].price, 7);
    // 8 units remain resting at price 7
    assert_eq!(test_ob.get_best_bid(), Some(7));
    let entry = test_ob.orders.get(&buy_3.order_id).unwrap();
    assert_eq!(entry.order.remaining_quantity, 8);
    assert_eq!(entry.order.executed_quantity, 2);
}

#[test]
fn cancel_middle_order_rebalances_level() {
    let mut test_ob = OrderBook::new(16, 16);
    let buy_a = Order::new(OrderType::LimitOrder, Side::Buy, 10, 3);
    let buy_b = Order::new(OrderType::LimitOrder, Side::Buy, 10, 5);
    let buy_c = Order::new(OrderType::LimitOrder, Side::Buy, 10, 7);
    test_ob.add_order(&buy_a).unwrap();
    test_ob.add_order(&buy_b).unwrap();
    test_ob.add_order(&buy_c).unwrap();

    test_ob.cancel_order(buy_b.order_id).unwrap();

    let index = test_ob.bids[0].index;
    let level = test_ob.price_levels[index].as_ref().unwrap();
    assert_eq!(level.order_count, 2);
    assert_eq!(level.volume, 3 + 7);

    // the surviving orders keep their arrival order
    let sell = Order::new(OrderType::LimitOrder, Side::Sell, 10, 3);
    let trades = test_ob.add_order(&sell).unwrap();
    assert_eq!(trades.len(), 1);
    assert_eq!(trades[0].bid_order_id, buy_a.order_id);
    let sell_2 = Order::new(OrderType::LimitOrder, Side::Sell, 10, 7);
    let trades_2 = test_ob.add_order(&sell_2).unwrap();
    assert_eq!(trades_2.len(), 1);
    assert_eq!(trades_2[0].bid_order_id, buy_c.order_id);
}

#[test]
fn fok_exact_volume_is_rejected() {
    let mut test_ob = OrderBook::new(16, 16);
    let sell = Order::new(OrderType::LimitOrder, Side::Sell, 10, 10);
    test_ob.add_order(&sell).unwrap();

    // available volume equals the requested quantity: must reject
    let fok_buy = Order::new(OrderType::FillOrKill, Side::Buy, 10, 10);
    let trades = test_ob.add_order(&fok_buy).unwrap();
    assert_eq!(trades.len(), 0);
    // nothing changed and nothing rested
    assert_eq!(test_ob.get_best_ask(), Some(10));
    assert_eq!(test_ob.get_best_bid(), None);
    assert_eq!(test_ob.orders.len(), 1);
}

#[test]
fn arena_index_is_reused_after_teardown() {
    let mut test_ob = OrderBook::new(16, 16);
    let buy = Order::new(OrderType::LimitOrder, Side::Buy, 5, 2);
    test_ob.add_order(&buy).unwrap();
    let arena_len = test_ob.price_levels.len();
    assert_eq!(arena_len, 1);

    // tearing the level down frees its index
    test_ob.cancel_order(buy.order_id).unwrap();
    assert_eq!(test_ob.price_levels.len(), arena_len);
    assert_eq!(test_ob.free_indices.len(), 1);

    // the next distinct price reuses it: the arena does not grow
    let buy_2 = Order::new(OrderType::LimitOrder, Side::Buy, 6, 2);
    test_ob.add_order(&buy_2).unwrap();
    assert_eq!(test_ob.price_levels.len(), arena_len);
    assert_eq!(test_ob.free_indices.len(), 0);
}

#[test]
fn market_order_on_empty_book_trades_nothing() {
    let mut test_ob = OrderBook::new(16, 16);
    let market = Order::new(OrderType::MarketOrder, Side::Buy, 0, 5);
    let trades = test_ob.add_order(&market).unwrap();
    assert_eq!(trades.len(), 0);
    assert_eq!(test_ob.get_best_bid(), None);
    assert_eq!(test_ob.get_best_ask(), None);
    assert_eq!(test_ob.orders.len(), 0);
}

#[test]
fn limit_order_not_crossing_rests_without_trades() {
    let mut test_ob = OrderBook::new(16, 16);
    let sell = Order::new(OrderType::LimitOrder, Side::Sell, 12, 5);
    test_ob.add_order(&sell).unwrap();

    // a buy below the best ask cannot cross and rests whole
    let buy = Order::new(OrderType::LimitOrder, Side::Buy, 11, 5);
    let trades = test_ob.add_order(&buy).unwrap();
    assert_eq!(trades.len(), 0);
    assert_eq!(test_ob.get_best_bid(), Some(11));
    assert_eq!(test_ob.get_best_ask(), Some(12));
    assert_eq!(test_ob.orders.len(), 2);
}

#[test]
fn volume_and_table_size_stay_exact() {
    let mut test_ob = OrderBook::new(16, 16);
    let buy_a = Order::new(OrderType::LimitOrder, Side::Buy, 10, 3);
    let buy_b = Order::new(OrderType::LimitOrder, Side::Buy, 10, 4);
    let sell_c = Order::new(OrderType::LimitOrder, Side::Sell, 12, 5);
    test_ob.add_order(&buy_a).unwrap();
    test_ob.add_order(&buy_b).unwrap();
    test_ob.add_order(&sell_c).unwrap();

    // the order table size equals the total active count over all
    // live levels
    let total_active: usize = test_ob
        .price_levels
        .iter()
        .flatten()
        .map(|level| level.order_count)
        .sum();
    assert_eq!(test_ob.orders.len(), total_active);

    // each level's volume is the exact sum of its orders' remainders
    let bid_index = test_ob.bids[0].index;
    let bid_level = test_ob.price_levels[bid_index].as_ref().unwrap();
    assert_eq!(bid_level.volume, 3 + 4);
    let ask_index = test_ob.asks[0].index;
    let ask_level = test_ob.price_levels[ask_index].as_ref().unwrap();
    assert_eq!(ask_level.volume, 5);

    // a partial fill keeps both exact
    let sell = Order::new(OrderType::LimitOrder, Side::Sell, 10, 5);
    test_ob.add_order(&sell).unwrap();
    let bid_level = test_ob.price_levels[bid_index].as_ref().unwrap();
    assert_eq!(bid_level.volume, 2);
    assert_eq!(bid_level.order_count, 1);
    let total_active: usize = test_ob
        .price_levels
        .iter()
        .flatten()
        .map(|level| level.order_count)
        .sum();
    assert_eq!(test_ob.orders.len(), total_active);
}
