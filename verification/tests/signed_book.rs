use exchange::level::PriceLevel;
use exchange::signed_orders::{to_key, ModifyOrder, Order, OrderBook, OrderId, OrderType, Price, Quantity, Side};

fn make_order(id: OrderId, side: Side, price: Price, qty: Quantity, order_type: OrderType) -> Order {
    Order { order_type, order_id: id, side, price, intial_quantity: qty, remaining_quantity: qty }
}

fn gtc_buy(id: OrderId, price: Price, qty: Quantity) -> Order {
    make_order(id, Side::Buy, price, qty, OrderType::GoodTillCancel)
}

fn gtc_sell(id: OrderId, price: Price, qty: Quantity) -> Order {
    make_order(id, Side::Sell, price, qty, OrderType::GoodTillCancel)
}

fn fak_buy(id: OrderId, price: Price, qty: Quantity) -> Order {
    make_order(id, Side::Buy, price, qty, OrderType::FillAndKill)
}

fn bid_level(book: &OrderBook, price: Price) -> Option<&PriceLevel> {
    book.book.bids.iter().find(|(p, _)| *p == to_key(price)).map(|(_, l)| l)
}

fn ask_level(book: &OrderBook, price: Price) -> Option<&PriceLevel> {
    book.book.asks.iter().find(|(p, _)| *p == to_key(price)).map(|(_, l)| l)
}

fn remaining(book: &OrderBook, id: OrderId) -> Quantity {
    book.book.orders[&id].order.remaining_quantity
}

#[test]
fn main_test_add_single_buy_order() {
    let mut book = OrderBook::new();
    let trades = book.add_order(gtc_buy(1, 100, 10));
    assert!(trades.is_some());
    assert!(trades.unwrap().is_empty());
    assert!(book.book.orders.contains_key(&1));
    assert!(bid_level(&book, 100).is_some());
}

#[test]
fn main_test_add_single_sell_order() {
    let mut book = OrderBook::new();
    let trades = book.add_order(gtc_sell(1, 100, 10));
    assert!(trades.is_some());
    assert!(trades.unwrap().is_empty());
    assert!(book.book.orders.contains_key(&1));
    assert!(ask_level(&book, 100).is_some());
}

#[test]
fn main_test_duplicate_order_id_rejected() {
    let mut book = OrderBook::new();
    book.add_order(gtc_buy(1, 100, 10));
    let result = book.add_order(gtc_buy(1, 200, 5));
    assert!(result.is_none());
    assert_eq!(book.book.orders.len(), 1);
}

#[test]
fn main_test_multiple_orders_same_price_level() {
    let mut book = OrderBook::new();
    book.add_order(gtc_buy(1, 100, 10));
    book.add_order(gtc_buy(2, 100, 20));
    book.add_order(gtc_buy(3, 100, 30));
    assert_eq!(book.book.orders.len(), 3);
    let level = bid_level(&book, 100).unwrap();
    assert_eq!(level.orders.len(), 3);
}

#[test]
fn main_test_cancel_buy_order() {
    let mut book = OrderBook::new();
    book.add_order(gtc_buy(1, 100, 10));
    book.cancel_order(1);
    assert!(!book.book.orders.contains_key(&1));
    assert!(bid_level(&book, 100).is_none());
}

#[test]
fn main_test_cancel_sell_order() {
    let mut book = OrderBook::new();
    book.add_order(gtc_sell(1, 100, 10));
    book.cancel_order(1);
    assert!(!book.book.orders.contains_key(&1));
    assert!(ask_level(&book, 100).is_none());
}

#[test]
fn main_test_cancel_nonexistent_order() {
    let mut book = OrderBook::new();
    book.cancel_order(999);
}

#[test]
fn main_test_cancel_one_order_price_level_remains() {
    let mut book = OrderBook::new();
    book.add_order(gtc_buy(1, 100, 10));
    book.add_order(gtc_buy(2, 100, 20));
    book.cancel_order(1);
    assert!(bid_level(&book, 100).is_some());
    assert!(book.book.orders.contains_key(&2));
    assert!(!book.book.orders.contains_key(&1));
    let level = bid_level(&book, 100).unwrap();
    assert_eq!(level.orders.len(), 1);
}

#[test]
fn main_test_cancel_all_orders_price_level_removed() {
    let mut book = OrderBook::new();
    book.add_order(gtc_buy(1, 100, 10));
    book.add_order(gtc_buy(2, 100, 20));
    book.cancel_order(1);
    book.cancel_order(2);
    assert!(bid_level(&book, 100).is_none());
    assert!(book.book.orders.is_empty());
}

#[test]
fn main_test_full_match_single_order() {
    let mut book = OrderBook::new();
    book.add_order(gtc_buy(1, 100, 10));
    let trades = book.add_order(gtc_sell(2, 100, 10)).unwrap();
    assert_eq!(trades.len(), 1);
    assert_eq!(trades[0].bid_trade.order_id, 1);
    assert_eq!(trades[0].ask_trade.order_id, 2);
    assert_eq!(trades[0].bid_trade.quantity, 10);
    assert_eq!(trades[0].ask_trade.quantity, 10);
    assert!(book.book.orders.is_empty());
    assert!(book.book.bids.is_empty());
    assert!(book.book.asks.is_empty());
}

#[test]
fn main_test_partial_match_bid_remains() {
    let mut book = OrderBook::new();
    book.add_order(gtc_buy(1, 100, 20));
    let _trades = book.add_order(gtc_sell(2, 100, 10)).unwrap();
    assert!(book.book.orders.contains_key(&1));
    assert!(!book.book.orders.contains_key(&2));
    assert_eq!(remaining(&book, 1), 10);
}

#[test]
fn main_test_partial_match_ask_remains() {
    let mut book = OrderBook::new();
    book.add_order(gtc_buy(1, 100, 10));
    let _trades = book.add_order(gtc_sell(2, 100, 20)).unwrap();
    assert!(!book.book.orders.contains_key(&1));
    assert!(book.book.orders.contains_key(&2));
    assert_eq!(remaining(&book, 2), 10);
}

#[test]
fn main_test_no_match_price_mismatch() {
    let mut book = OrderBook::new();
    book.add_order(gtc_buy(1, 90, 10));
    let trades = book.add_order(gtc_sell(2, 100, 10)).unwrap();
    assert!(trades.is_empty());
    assert_eq!(book.book.orders.len(), 2);
}

#[test]
fn main_test_fifo_matching_order() {
    let mut book = OrderBook::new();
    book.add_order(gtc_buy(1, 100, 10));
    book.add_order(gtc_buy(2, 100, 10));
    let trades = book.add_order(gtc_sell(3, 100, 10)).unwrap();
    assert_eq!(trades.len(), 1);
    assert_eq!(trades[0].bid_trade.order_id, 1);
    assert!(book.book.orders.contains_key(&2));
}

#[test]
fn main_test_price_priority_bids() {
    let mut book = OrderBook::new();
    book.add_order(gtc_buy(1, 90, 10));
    book.add_order(gtc_buy(2, 100, 10));
    let trades = book.add_order(gtc_sell(3, 90, 10)).unwrap();
    assert_eq!(trades[0].bid_trade.order_id, 2);
    assert_eq!(trades[0].bid_trade.price, 100);
    assert!(book.book.orders.contains_key(&1));
}

#[test]
fn main_test_multiple_trades_one_sell() {
    let mut book = OrderBook::new();
    book.add_order(gtc_buy(1, 100, 5));
    book.add_order(gtc_buy(2, 100, 5));
    book.add_order(gtc_buy(3, 100, 5));
    let trades = book.add_order(gtc_sell(4, 100, 15)).unwrap();
    assert_eq!(trades.len(), 3);
    assert_eq!(trades[0].bid_trade.order_id, 1);
    assert_eq!(trades[1].bid_trade.order_id, 2);
    assert_eq!(trades[2].bid_trade.order_id, 3);
    assert!(book.book.orders.is_empty());
}

#[test]
fn main_test_fak_no_match_rejected() {
    let mut book = OrderBook::new();
    let result = book.add_order(fak_buy(1, 100, 10));
    assert!(result.is_none());
    assert!(book.book.orders.is_empty());
}

#[test]
fn main_test_fak_full_match() {
    let mut book = OrderBook::new();
    book.add_order(gtc_sell(1, 100, 10));
    let trades = book.add_order(fak_buy(2, 100, 10)).unwrap();
    assert_eq!(trades.len(), 1);
    assert!(book.book.orders.is_empty());
}

#[test]
fn main_test_fak_partial_match_remainder_cancelled() {
    let mut book = OrderBook::new();
    book.add_order(gtc_sell(1, 100, 5));
    let trades = book.add_order(fak_buy(2, 100, 10)).unwrap();
    assert_eq!(trades.len(), 1);
    assert_eq!(trades[0].bid_trade.quantity, 5);
    assert!(!book.book.orders.contains_key(&2));
}

#[test]
fn main_test_slab_key_stable_after_other_cancel() {
    let mut book = OrderBook::new();
    book.add_order(gtc_buy(1, 100, 10));
    book.add_order(gtc_buy(2, 100, 20));
    book.add_order(gtc_buy(3, 100, 30));
    book.cancel_order(2);
    assert!(book.book.orders.contains_key(&1));
    assert!(book.book.orders.contains_key(&3));
    let level = bid_level(&book, 100).unwrap();
    let key1 = book.book.orders[&1].slab_key;
    let key3 = book.book.orders[&3].slab_key;
    assert_eq!(level.orders[key1].order_id, 1);
    assert_eq!(level.orders[key3].order_id, 3);
}

#[test]
fn main_test_cancel_then_add_reuses_slab_slot() {
    let mut book = OrderBook::new();
    book.add_order(gtc_buy(1, 100, 10));
    book.cancel_order(1);
    book.add_order(gtc_buy(2, 100, 20));
    let level = bid_level(&book, 100).unwrap();
    assert_eq!(level.orders.len(), 1);
    assert!(book.book.orders.contains_key(&2));
}

#[test]
fn main_test_modify_order() {
    let mut book = OrderBook::new();
    book.add_order(gtc_buy(1, 100, 10));
    let modify_order = ModifyOrder { order_id: 1, order_type: OrderType::GoodTillCancel, side: Side::Sell, price: 200, quantity: 20 };
    book.add_order(gtc_buy(2, 200, 20));
    let trades = book.modify_order(modify_order).unwrap();
    assert_eq!(trades.len(), 1);
    assert_eq!(trades[0].bid_trade.order_id, 2);
    assert_eq!(trades[0].bid_trade.price, 200);
    assert_eq!(trades[0].bid_trade.quantity, 20);
}

#[test]
fn signed_book_orders_negative_prices() {
    let mut book = OrderBook::new();
    book.add_order(gtc_buy(1, -20, 4));
    book.add_order(gtc_buy(2, -5, 4));
    assert!(!book.can_match(Side::Sell, -4));
    assert!(book.can_match(Side::Sell, -5));
    let trades = book.add_order(gtc_sell(3, -30, 6)).unwrap();
    assert_eq!(trades.len(), 2);
    assert_eq!(trades[0].bid_trade.order_id, 2);
    assert_eq!(trades[0].bid_trade.price, -5);
    assert_eq!(trades[0].ask_trade.price, -30);
    assert_eq!(trades[1].bid_trade.order_id, 1);
    assert_eq!(trades[1].bid_trade.price, -5);
    assert_eq!(remaining(&book, 1), 2);
    assert!(book.book.data.is_empty());
}

#[test]
fn signed_book_modify_unknown_order_is_none() {
    let mut book = OrderBook::new();
    let modify_order = ModifyOrder { order_id: 9, order_type: OrderType::GoodTillCancel, side: Side::Sell, price: 1, quantity: 1 };
    assert!(book.modify_order(modify_order).is_none());
    assert!(book.match_orders().is_empty());
}
