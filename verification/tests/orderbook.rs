use exchange::level::PriceLevel;
use exchange::orderbook::OrderBook;
use exchange::orders::{ModifyOrder, Order, OrderType};
use exchange::types::{OrderId, Price, Quantity, Side};

fn make_order(id: OrderId, side: Side, price: Price, qty: Quantity, order_type: OrderType) -> Order {
    Order {
        order_type,
        order_id: id,
        user_id: 0,
        asset_id: 0,
        side,
        price: Some(price),
        initial_quantity: qty,
        remaining_quantity: qty,
    }
}

fn gtc_buy(id: OrderId, price: Price, qty: Quantity) -> Order {
    make_order(id, Side::Buy, price, qty, OrderType::GoodTillCancel)
}

fn gtc_sell(id: OrderId, price: Price, qty: Quantity) -> Order {
    make_order(id, Side::Sell, price, qty, OrderType::GoodTillCancel)
}

fn fak_buy(id: OrderId, price: Price, qty: Quantity) -> Order {
    make_order(id, Side::Buy, price, qty, OrderType::FillAndKill)
}

fn fak_sell(id: OrderId, price: Price, qty: Quantity) -> Order {
    make_order(id, Side::Sell, price, qty, OrderType::FillAndKill)
}

fn bid_level(book: &OrderBook, price: Price) -> Option<&PriceLevel> {
    book.bids.iter().find(|l| l.0 == price).map(|l| &l.1)
}

fn ask_level(book: &OrderBook, price: Price) -> Option<&PriceLevel> {
    book.asks.iter().find(|l| l.0 == price).map(|l| &l.1)
}

#[test]
fn orderbook_test_add_single_buy_order() {
    let mut book = OrderBook::new();
    let order = gtc_buy(1, 100, 10);
    let trades = book.add_order(order);

    assert!(trades.is_some());
    assert!(trades.unwrap().is_empty());
    assert!(book.orders.contains_key(&1));
    assert!(bid_level(&book, 100).is_some());
}

#[test]
fn orderbook_test_add_single_sell_order() {
    let mut book = OrderBook::new();
    let order = gtc_sell(1, 100, 10);
    let trades = book.add_order(order);

    assert!(trades.is_some());
    assert!(trades.unwrap().is_empty());
    assert!(book.orders.contains_key(&1));
    assert!(ask_level(&book, 100).is_some());
}

#[test]
fn orderbook_test_duplicate_order_id_rejected() {
    let mut book = OrderBook::new();
    book.add_order(gtc_buy(1, 100, 10));

    let result = book.add_order(gtc_buy(1, 200, 5));
    assert!(result.is_none());
    assert_eq!(book.orders.len(), 1);
}

#[test]
fn orderbook_test_multiple_orders_same_price_level() {
    let mut book = OrderBook::new();
    book.add_order(gtc_buy(1, 100, 10));
    book.add_order(gtc_buy(2, 100, 20));
    book.add_order(gtc_buy(3, 100, 30));

    assert_eq!(book.orders.len(), 3);
    let level = bid_level(&book, 100).unwrap();
    assert_eq!(level.orders.len(), 3);
}

#[test]
fn orderbook_test_cancel_buy_order() {
    let mut book = OrderBook::new();
    book.add_order(gtc_buy(1, 100, 10));

    book.cancel_order(1);

    assert!(!book.orders.contains_key(&1));
    assert!(bid_level(&book, 100).is_none());
}

#[test]
fn orderbook_test_cancel_sell_order() {
    let mut book = OrderBook::new();
    book.add_order(gtc_sell(1, 100, 10));

    book.cancel_order(1);

    assert!(!book.orders.contains_key(&1));
    assert!(ask_level(&book, 100).is_none());
}

#[test]
fn orderbook_test_cancel_nonexistent_order() {
    let mut book = OrderBook::new();
    assert!(!book.cancel_order(999));
}

#[test]
fn orderbook_test_cancel_one_order_price_level_remains() {
    let mut book = OrderBook::new();
    book.add_order(gtc_buy(1, 100, 10));
    book.add_order(gtc_buy(2, 100, 20));

    book.cancel_order(1);

    assert!(bid_level(&book, 100).is_some());
    assert!(book.orders.contains_key(&2));
    assert!(!book.orders.contains_key(&1));

    let level = bid_level(&book, 100).unwrap();
    assert_eq!(level.orders.len(), 1);
}

#[test]
fn orderbook_test_cancel_all_orders_price_level_removed() {
    let mut book = OrderBook::new();
    book.add_order(gtc_buy(1, 100, 10));
    book.add_order(gtc_buy(2, 100, 20));

    book.cancel_order(1);
    book.cancel_order(2);

    assert!(bid_level(&book, 100).is_none());
    assert!(book.orders.is_empty());
}

#[test]
fn orderbook_test_full_match_single_order() {
    let mut book = OrderBook::new();
    book.add_order(gtc_buy(1, 100, 10));
    let trades = book.add_order(gtc_sell(2, 100, 10)).unwrap().to_vec();

    assert_eq!(trades.len(), 1);
    assert_eq!(trades[0].bid_trade.order_id, 1);
    assert_eq!(trades[0].ask_trade.order_id, 2);
    assert_eq!(trades[0].bid_trade.quantity, 10);
    assert_eq!(trades[0].ask_trade.quantity, 10);

    assert!(book.orders.is_empty());
    assert!(book.bids.is_empty());
    assert!(book.asks.is_empty());
}

#[test]
fn orderbook_test_partial_match_bid_remains() {
    let mut book = OrderBook::new();
    book.add_order(gtc_buy(1, 100, 20));
    let _trades = book.add_order(gtc_sell(2, 100, 10)).unwrap();

    assert!(book.orders.contains_key(&1));
    assert!(!book.orders.contains_key(&2));
    assert_eq!(book.orders[&1].order.get_remaining_quantity(), 10);
}

#[test]
fn orderbook_test_partial_match_ask_remains() {
    let mut book = OrderBook::new();
    book.add_order(gtc_buy(1, 100, 10));
    let _trades = book.add_order(gtc_sell(2, 100, 20)).unwrap();

    assert!(!book.orders.contains_key(&1));
    assert!(book.orders.contains_key(&2));
    assert_eq!(book.orders[&2].order.get_remaining_quantity(), 10);
}

#[test]
fn orderbook_test_no_match_price_mismatch() {
    let mut book = OrderBook::new();
    book.add_order(gtc_buy(1, 90, 10));
    let trades = book.add_order(gtc_sell(2, 100, 10)).unwrap();

    assert!(trades.is_empty());
    assert_eq!(book.orders.len(), 2);
}

#[test]
fn orderbook_test_fifo_matching_order() {
    let mut book = OrderBook::new();
    book.add_order(gtc_buy(1, 100, 10));
    book.add_order(gtc_buy(2, 100, 10));

    let trades = book.add_order(gtc_sell(3, 100, 10)).unwrap().to_vec();

    assert_eq!(trades.len(), 1);
    assert_eq!(trades[0].bid_trade.order_id, 1);
    assert!(book.orders.contains_key(&2));
}

#[test]
fn orderbook_test_price_priority_bids() {
    let mut book = OrderBook::new();
    book.add_order(gtc_buy(1, 90, 10));
    book.add_order(gtc_buy(2, 100, 10));

    let trades = book.add_order(gtc_sell(3, 90, 10)).unwrap().to_vec();
    assert_eq!(trades[0].bid_trade.order_id, 2);
    assert_eq!(trades[0].bid_trade.price, 100);
    assert!(book.orders.contains_key(&1));
}

#[test]
fn orderbook_test_multiple_trades_one_sell() {
    let mut book = OrderBook::new();
    book.add_order(gtc_buy(1, 100, 5));
    book.add_order(gtc_buy(2, 100, 5));
    book.add_order(gtc_buy(3, 100, 5));

    let trades = book.add_order(gtc_sell(4, 100, 15)).unwrap().to_vec();

    assert_eq!(trades.len(), 3);
    assert_eq!(trades[0].bid_trade.order_id, 1);
    assert_eq!(trades[1].bid_trade.order_id, 2);
    assert_eq!(trades[2].bid_trade.order_id, 3);
    assert!(book.orders.is_empty());
}

#[test]
fn orderbook_test_fak_no_match_rejected() {
    let mut book = OrderBook::new();

    let result = book.add_order(fak_sell(1, 100, 10));
    assert!(result.is_none());
    assert!(book.orders.is_empty());
}

#[test]
fn orderbook_test_fak_full_match() {
    let mut book = OrderBook::new();
    book.add_order(gtc_sell(1, 100, 10));

    let trades = book.add_order(fak_buy(2, 100, 10)).unwrap();

    assert_eq!(trades.len(), 1);
    assert!(book.orders.is_empty());
}

#[test]
fn orderbook_test_fak_partial_match_remainder_cancelled() {
    let mut book = OrderBook::new();
    book.add_order(gtc_sell(1, 100, 5));

    let trades = book.add_order(fak_buy(2, 100, 10)).unwrap().to_vec();

    assert_eq!(trades.len(), 1);
    assert_eq!(trades[0].bid_trade.quantity, 5);
    assert_eq!(book.orders.len(), 0);
    assert!(!book.orders.contains_key(&2));
}

#[test]
fn orderbook_test_slab_key_stable_after_other_cancel() {
    let mut book = OrderBook::new();
    book.add_order(gtc_buy(1, 100, 10));
    book.add_order(gtc_buy(2, 100, 20));
    book.add_order(gtc_buy(3, 100, 30));

    book.cancel_order(2);

    assert!(book.orders.contains_key(&1));
    assert!(book.orders.contains_key(&3));

    let level = bid_level(&book, 100).unwrap();
    let key1 = book.orders[&1].slab_key;
    let key3 = book.orders[&3].slab_key;

    assert_eq!(level.orders[key1].get_order_id(), 1);
    assert_eq!(level.orders[key3].get_order_id(), 3);
}

#[test]
fn orderbook_test_cancel_then_add_reuses_slab_slot() {
    let mut book = OrderBook::new();
    book.add_order(gtc_buy(1, 100, 10));
    book.cancel_order(1);

    book.add_order(gtc_buy(2, 100, 20));

    let level = bid_level(&book, 100).unwrap();
    assert_eq!(level.orders.len(), 1);
    assert!(book.orders.contains_key(&2));
}

#[test]
fn orderbook_test_modify_order() {
    let mut book = OrderBook::new();
    book.add_order(gtc_buy(1, 100, 10));
    let modify_order = ModifyOrder {
        order_id: 1,
        order_type: OrderType::GoodTillCancel,
        side: Side::Sell,
        price: 200,
        quantity: 20,
    };
    book.add_order(gtc_buy(2, 200, 20));
    let trades = book.modify_order(modify_order).unwrap().to_vec();
    assert_eq!(trades.len(), 1);
    assert_eq!(trades[0].bid_trade.order_id, 2);
    assert_eq!(trades[0].bid_trade.price, 200);
    assert_eq!(trades[0].bid_trade.quantity, 20);
}

#[test]
fn test_orderbook_len() {
    let mut book = OrderBook::new();
    for i in 1..=10 {
        book.add_order(gtc_buy(i, 100, 10));
    }
    assert_eq!(book.len(), 10);
}

#[test]
fn test_can_fully_fill_true_when_enough_resting_liquidity() {
    let mut book = OrderBook::new();
    book.add_order(gtc_sell(1, 100, 10));
    book.add_order(gtc_sell(2, 100, 5));

    assert!(book.can_fully_fill(Side::Buy, 100, 15));
}

#[test]
fn test_can_fully_fill_false_when_not_enough_liquidity() {
    let mut book = OrderBook::new();
    book.add_order(gtc_sell(1, 100, 5));

    assert!(!book.can_fully_fill(Side::Buy, 100, 10));
}

#[test]
fn test_can_fully_fill_false_after_liquidity_consumed_by_match() {
    let mut book = OrderBook::new();
    book.add_order(gtc_sell(1, 100, 10));

    book.add_order(gtc_buy(2, 100, 10));

    assert!(!book.can_fully_fill(Side::Buy, 100, 1));
}

#[test]
fn test_can_fully_fill_reflects_partial_fill_remainder() {
    let mut book = OrderBook::new();
    book.add_order(gtc_sell(1, 100, 10));

    book.add_order(gtc_buy(2, 100, 4));

    assert!(book.can_fully_fill(Side::Buy, 100, 6));
}

#[test]
fn test_can_fully_fill_false_after_cancel_removes_liquidity() {
    let mut book = OrderBook::new();
    book.add_order(gtc_sell(1, 100, 10));
    book.add_order(gtc_sell(2, 100, 10));

    book.cancel_order(1);

    assert!(book.can_fully_fill(Side::Buy, 100, 10));
    assert!(!book.can_fully_fill(Side::Buy, 100, 15));
}

#[test]
fn test_can_fully_fill_false_after_all_orders_cancelled() {
    let mut book = OrderBook::new();
    book.add_order(gtc_sell(1, 100, 10));
    book.cancel_order(1);

    assert!(!book.can_fully_fill(Side::Buy, 100, 1));
}

#[test]
fn test_can_fully_fill_accounts_for_multiple_price_levels_walked_through() {
    let mut book = OrderBook::new();
    book.add_order(gtc_sell(1, 100, 5));
    book.add_order(gtc_sell(2, 101, 5));

    assert!(book.can_fully_fill(Side::Buy, 101, 10));
    assert!(!book.can_fully_fill(Side::Buy, 101, 11));
}

#[test]
fn test_can_fully_fill_sell_side_uses_bid_liquidity() {
    let mut book = OrderBook::new();
    book.add_order(gtc_buy(1, 100, 10));
    book.add_order(gtc_buy(2, 100, 5));

    assert!(book.can_fully_fill(Side::Sell, 100, 15));
    assert!(!book.can_fully_fill(Side::Sell, 100, 16));
}

#[test]
fn market_buy_rests_as_good_till_cancel_at_best_ask() {
    let mut book = OrderBook::new();
    book.add_order(gtc_sell(1, 105, 5));
    let market = make_order(2, Side::Buy, 90, 3, OrderType::Market);
    let trades = book.add_order(market).unwrap();
    assert!(trades.is_empty());
    let resting = book.get_order(2).unwrap();
    assert_eq!(resting.order_type, OrderType::GoodTillCancel);
    assert_eq!(resting.price, Some(105));
    assert_eq!(book.orders[&2].price, 90);
}

#[test]
fn market_order_with_empty_opposite_side_is_rejected() {
    let mut book = OrderBook::new();
    let market = make_order(1, Side::Sell, 90, 3, OrderType::Market);
    assert!(book.add_order(market).is_none());
    assert!(book.orders.is_empty());
}

#[test]
fn crossing_keeps_matching_at_the_opening_prices() {
    let mut book = OrderBook::new();
    book.add_order(gtc_sell(1, 100, 1));
    book.add_order(gtc_sell(2, 101, 50));
    book.add_order(gtc_buy(3, 99, 100));
    let trades = book.add_order(gtc_buy(4, 105, 1)).unwrap().to_vec();
    assert_eq!(trades.len(), 2);
    assert_eq!(trades[1].bid_trade.order_id, 3);
    assert_eq!(trades[1].ask_trade.order_id, 2);
    assert_eq!(trades[1].bid_trade.price, 105);
    assert_eq!(trades[1].ask_trade.price, 100);
    assert!(book.asks.is_empty());
}

#[test]
fn level_data_tracks_added_and_cancelled_quantity() {
    let mut book = OrderBook::new();
    book.add_order(gtc_sell(1, 100, 10));
    book.add_order(gtc_sell(2, 100, 7));
    assert_eq!(book.data[&100].quantity, 17);
    book.cancel_order(1);
    assert_eq!(book.data[&100].quantity, 7);
    book.cancel_order(2);
    assert!(!book.data.contains_key(&100));
}

#[test]
fn cancel_orders_cancels_each_listed_order() {
    let mut book = OrderBook::new();
    book.add_order(gtc_buy(1, 100, 10));
    book.add_order(gtc_buy(2, 101, 10));
    book.add_order(gtc_sell(3, 110, 10));
    book.cancel_orders(vec![1, 3, 42]);
    assert_eq!(book.len(), 1);
    assert!(book.orders.contains_key(&2));
    assert!(book.asks.is_empty());
}

#[test]
fn modify_unknown_order_is_none() {
    let mut book = OrderBook::new();
    let m = ModifyOrder { order_id: 9, order_type: OrderType::GoodTillCancel, side: Side::Buy, price: 1, quantity: 1 };
    assert!(book.modify_order(m).is_none());
}

#[test]
fn book_is_empty_when_a_side_is_empty() {
    let mut book = OrderBook::new();
    assert!(book.is_empty());
    book.add_order(gtc_buy(1, 100, 10));
    assert!(book.is_empty());
    book.add_order(gtc_sell(2, 110, 10));
    assert!(!book.is_empty());
    assert!(book.can_match(Side::Buy, 110));
    assert!(!book.can_match(Side::Buy, 109));
    assert!(book.can_match(Side::Sell, 100));
}
