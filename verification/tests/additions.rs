use exchange::events::OrderBookEvent;
use exchange::orderbook::OrderBook;
use exchange::orders::{ModifyOrder, Order, OrderType};
use exchange::risk_engine::{AccountStatus, Holdings, RiskEngine};
use exchange::signed_orders;
use exchange::symbol::Symbol;
use exchange::types::{OrderId, Price, Quantity, Side};

fn order(id: OrderId, side: Side, price: Price, qty: Quantity, order_type: OrderType) -> Order {
    Order {
        order_type,
        order_id: id,
        user_id: 7,
        asset_id: 1,
        side,
        price: Some(price),
        initial_quantity: qty,
        remaining_quantity: qty,
    }
}

#[test]
fn fill_and_kill_remainder_never_rests() {
    let mut book = OrderBook::new();
    book.add_order(order(1, Side::Sell, 100, 3, OrderType::GoodTillCancel));
    book.add_order(order(2, Side::Buy, 105, 10, OrderType::FillAndKill)).unwrap();
    assert!(book.get_order(2).is_none());
    assert!(book.get_order(1).is_none());
    assert!(book.is_empty());
}

#[test]
fn add_then_cancel_gives_the_sides_back() {
    let mut book = OrderBook::new();
    book.add_order(order(1, Side::Buy, 90, 5, OrderType::GoodTillCancel));
    book.add_order(order(2, Side::Sell, 110, 5, OrderType::GoodTillCancel));
    let trades = book.add_order(order(3, Side::Buy, 95, 4, OrderType::GoodTillCancel)).unwrap();
    assert!(trades.is_empty());
    assert!(book.cancel_order(3));
    assert_eq!(book.len(), 2);
    assert_eq!(book.bids.len(), 1);
    assert_eq!(book.bids[0].0, 90);
    assert_eq!(book.asks.len(), 1);
    assert_eq!(book.asks[0].0, 110);
}

#[test]
fn order_ids_of_type_lists_each_matching_order_once() {
    let mut book = OrderBook::new();
    book.add_order(order(1, Side::Buy, 90, 5, OrderType::GoodForDay));
    book.add_order(order(2, Side::Buy, 91, 5, OrderType::GoodTillCancel));
    book.add_order(order(3, Side::Sell, 120, 5, OrderType::GoodForDay));
    let mut ids = book.order_ids_of_type(OrderType::GoodForDay);
    ids.sort();
    assert_eq!(ids, vec![1, 3]);
    assert!(book.order_ids_of_type(OrderType::FillOrKill).is_empty());
}

#[test]
fn can_cancel_order_checks_the_tally() {
    let mut book = OrderBook::new();
    book.add_order(order(1, Side::Buy, 90, 5, OrderType::GoodTillCancel));
    book.add_order(order(2, Side::Buy, 90, 6, OrderType::GoodTillCancel));
    assert!(book.can_cancel_order(1));
    assert!(book.can_cancel_order(99));
    book.data.get_mut(&90).unwrap().quantity = 2;
    assert!(!book.can_cancel_order(1));
}

#[test]
fn event_log_records_carry_the_event_details() {
    let log = OrderBookEvent::OrderMatched(4, Symbol::BtcInr, 9, 100, 3).to_log_data().unwrap();
    assert_eq!(log.event_type.as_deref(), Some("OrderMatched"));
    assert_eq!(log.sequence_no, Some(4));
    assert_eq!(log.symbol, "BTC-INR");
    assert_eq!(log.order_id, Some(9));
    assert_eq!(log.price, Some(100));
    assert_eq!(log.quantity, Some(3));
    assert!(log.side.is_none());
    assert!(log.order_ids.is_none());

    let modify = ModifyOrder { order_type: OrderType::GoodTillCancel, order_id: 5, side: Side::Sell, price: 77, quantity: 2 };
    let log = OrderBookEvent::OrderModified(2, Symbol::EthUsdt, modify).to_log_data().unwrap();
    assert_eq!(log.side, Some(Side::Sell));
    assert_eq!(log.price, Some(77));

    let log = OrderBookEvent::OrdersExpired(1, Symbol::SolInr, vec![3, 4]).to_log_data().unwrap();
    assert_eq!(log.order_ids, Some(vec![3, 4]));
    let log = OrderBookEvent::OrdersExpired(1, Symbol::SolInr, vec![1u64 << 40]).to_log_data().unwrap();
    assert!(log.order_ids.is_none());

    assert!(OrderBookEvent::Error(1, 5).to_log_data().is_none());
}

#[test]
fn risk_engine_reserves_releases_and_settles() {
    let mut risk = RiskEngine::new_empty();
    let buyer = risk.add_account(10, 1000, Holdings::default());
    let seller = risk.add_account(20, 0, Holdings::new(1, 5));
    assert_eq!(risk.get_internal_id(20), Some(seller));
    assert_eq!(risk.accounts[buyer].status, AccountStatus::Active);

    let buy = order(1, Side::Buy, 100, 3, OrderType::GoodTillCancel);
    assert!(risk.check_and_reserve(10, buy));
    assert_eq!(risk.accounts[buyer].available_balance, 700);
    assert_eq!(risk.accounts[buyer].reserved, 300);
    assert!(risk.release(Some(buyer), 1, 1, Side::Buy, 100, 3));
    assert_eq!(risk.accounts[buyer].available_balance, 1000);
    assert_eq!(risk.accounts[buyer].reserved, 0);

    let sell = order(2, Side::Sell, 100, 2, OrderType::GoodTillCancel);
    assert!(risk.check_and_reserve(20, sell));
    assert_eq!(risk.accounts[seller].holdings.get_available_quantity(1), Some(3));
    assert_eq!(risk.accounts[seller].holdings.get_reserved_quantity(1), Some(2));
    assert!(risk.settle(Some(seller), 2, 1, Side::Sell, 100, 2));
    assert_eq!(risk.accounts[seller].available_balance, 200);
    assert_eq!(risk.accounts[seller].holdings.get_reserved_quantity(1), Some(0));

    assert!(!risk.check_and_reserve(99, buy));
    assert!(!risk.release(None, 1, 1, Side::Buy, 100, 3));
    assert!(!risk.settle(Some(buyer), 1, 1, Side::Buy, 100, 3));
}

#[test]
fn holdings_credit_opens_entries_and_refuses_overflow() {
    let mut holdings = Holdings::default();
    assert!(holdings.credit_asset(4, 10));
    assert_eq!(holdings.get_available_quantity(4), Some(10));
    assert_eq!(holdings.get_reserved_quantity(4), Some(0));
    assert!(!holdings.credit_asset(4, u32::MAX));
    assert_eq!(holdings.get_available_quantity(4), Some(10));
}

#[test]
fn signed_orders_accessors() {
    let mut o = signed_orders::Order {
        order_type: signed_orders::OrderType::GoodTillCancel,
        order_id: 3,
        side: signed_orders::Side::Sell,
        price: -5,
        intial_quantity: 10,
        remaining_quantity: 10,
    };
    assert_eq!(o.get_price(), -5);
    assert_eq!(o.get_inital_quantity(), 10);
    o.fill(4);
    assert_eq!(o.get_remaining_quantity(), 6);
    assert_eq!(o.get_filled_quantity(), 4);
    o.fill(7);
    assert_eq!(o.get_remaining_quantity(), 6);
    assert!(!o.is_filled());

    let m = signed_orders::ModifyOrder {
        order_type: signed_orders::OrderType::FillAndKill,
        order_id: 3,
        side: signed_orders::Side::Buy,
        price: 12,
        quantity: 2,
    };
    let placed = m.to_order_pointer(signed_orders::OrderType::GoodTillCancel);
    assert_eq!(placed.get_order_type(), signed_orders::OrderType::GoodTillCancel);
    assert_eq!(placed.get_side(), signed_orders::Side::Buy);
    assert_eq!(placed.get_remaining_quantity(), 2);

    let infos = signed_orders::OrderBookLeveInfos {
        bids: vec![signed_orders::LevelInfo { price: -1, quantity: 4 }],
        asks: vec![],
    };
    assert_eq!(infos.getBids()[0].price, -1);
    assert!(infos.getAsks().is_empty());

    let trade = signed_orders::Trade {
        bid_trade: signed_orders::TradeInfo { order_id: 1, price: 10, quantity: 2 },
        ask_trade: signed_orders::TradeInfo { order_id: 2, price: 9, quantity: 2 },
    };
    assert_eq!(trade.get_bid_trade().order_id, 1);
    assert_eq!(trade.get_ask_trade().price, 9);
}

#[test]
fn can_add_order_tries_the_add_on_a_copy() {
    let mut book = OrderBook::new();
    book.add_order(order(1, Side::Buy, 90, 5, OrderType::GoodTillCancel));
    assert!(book.can_add_order(order(2, Side::Sell, 90, 5, OrderType::GoodTillCancel)));
    assert!(book.can_add_order(order(3, Side::Buy, 80, 5, OrderType::GoodTillCancel)));
    // Turned away (same id), so nothing can go out of range.
    assert!(book.can_add_order(order(1, Side::Sell, 90, 5, OrderType::GoodTillCancel)));
    let mut no_price = order(4, Side::Buy, 80, 5, OrderType::GoodTillCancel);
    no_price.price = None;
    assert!(!book.can_add_order(no_price));
    // The tally at 90 no longer covers the resting bid: matching it would take it below zero.
    book.data.get_mut(&90).unwrap().quantity = 2;
    assert!(!book.can_add_order(order(2, Side::Sell, 90, 5, OrderType::GoodTillCancel)));
    assert!(book.can_add_order(order(2, Side::Sell, 95, 5, OrderType::GoodTillCancel)));
    // Raising the tally at 90 past its range.
    book.data.get_mut(&90).unwrap().quantity = u32::MAX - 1;
    assert!(!book.can_add_order(order(5, Side::Buy, 90, 5, OrderType::GoodTillCancel)));
    // The book itself is untouched by the trials.
    assert_eq!(book.len(), 1);
    assert_eq!(book.data.get(&90).unwrap().quantity, u32::MAX - 1);
}

#[test]
fn can_modify_order_tries_the_replacement_on_a_copy() {
    let mut book = OrderBook::new();
    book.add_order(order(1, Side::Buy, 90, 5, OrderType::GoodTillCancel));
    book.add_order(order(2, Side::Buy, 90, 5, OrderType::GoodTillCancel));
    let modify = ModifyOrder { order_type: OrderType::GoodTillCancel, order_id: 1, side: Side::Buy, price: 95, quantity: 3 };
    assert!(book.can_modify_order(modify));
    assert!(book.can_modify_order(ModifyOrder { order_id: 77, ..modify }));
    book.data.get_mut(&90).unwrap().quantity = 4;
    assert!(!book.can_modify_order(modify));
    assert_eq!(book.len(), 2);
}

#[test]
fn fills_add_up_and_oversized_fills_are_ignored() {
    let mut o = Order::new(1, 7, 3, Side::Buy, 100, 10, OrderType::GoodTillCancel);
    for q in [3u32, 20, 4, 4, 3] {
        o.fill(q);
    }
    // 3 and 4 are taken, 20 and the second 4 are larger than what remained, the last 3 is taken.
    assert_eq!(o.get_filled_quantity(), 10);
    assert_eq!(o.get_remaining_quantity(), 0);
    assert!(o.is_filled());
    assert_eq!(o.get_initial_quantity(), 10);
    assert_eq!(o.get_price(), 100);
}

#[test]
fn matching_fills_each_order_by_its_trades() {
    let mut book = OrderBook::new();
    book.add_order(order(1, Side::Sell, 100, 3, OrderType::GoodTillCancel));
    book.add_order(order(2, Side::Sell, 101, 4, OrderType::GoodTillCancel));
    let trades = book.add_order(order(3, Side::Buy, 105, 5, OrderType::GoodTillCancel)).unwrap().to_vec();
    let filled = |id: u64| -> u32 {
        trades
            .iter()
            .map(|t| {
                (if t.bid_trade.order_id == id { t.bid_trade.quantity } else { 0 })
                    + (if t.ask_trade.order_id == id { t.ask_trade.quantity } else { 0 })
            })
            .sum()
    };
    assert!(trades.iter().all(|t| t.bid_trade.quantity > 0 && t.ask_trade.quantity == t.bid_trade.quantity));
    assert_eq!(filled(1), 3);
    assert_eq!(filled(2), 2);
    assert_eq!(filled(3), 5);
    assert_eq!(book.get_order(2).unwrap().remaining_quantity, 2);
    assert!(book.get_order(1).is_none());
    assert!(book.get_order(3).is_none());
}

#[test]
fn can_match_and_can_cancel_orders_try_on_a_copy() {
    let mut book = OrderBook::new();
    book.add_order(order(1, Side::Buy, 90, 5, OrderType::GoodTillCancel));
    book.add_order(order(2, Side::Buy, 90, 6, OrderType::GoodTillCancel));
    book.add_order(order(3, Side::Sell, 95, 6, OrderType::GoodTillCancel));
    assert!(book.can_match_orders());
    assert!(book.can_cancel_orders(&vec![1, 2, 3, 42]));
    // With the tally at 90 lowered to 5, cancelling 2 first takes it below zero, while
    // cancelling 1 first leaves 2 alone at its level, whose tally then goes with it.
    book.data.get_mut(&90).unwrap().quantity = 5;
    assert!(!book.can_cancel_orders(&vec![2, 1]));
    assert!(book.can_cancel_orders(&vec![1, 2]));
    assert_eq!(book.len(), 3);
}
