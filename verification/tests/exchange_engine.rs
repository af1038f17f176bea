use disruptor::{build_single_producer, BusySpin, EventPoller, SingleProducerBarrier};
use exchange::commands::ExchangeCommand;
use exchange::events::{EventEnvelope, OrderBookEvent};
use exchange::exchange::{Exchange, ExchangeError};
use exchange::orders::{ModifyOrder, NewOrder, OrderType};
use exchange::risk_engine::Holdings;
use exchange::symbol::Symbol;
use exchange::types::{OrderId, Side};

type TestEventPoller = EventPoller<EventEnvelope, SingleProducerBarrier>;

fn bare_exchange() -> (Exchange, TestEventPoller) {
    let event_factory = || EventEnvelope { event: None };
    let builder = build_single_producer(1024, event_factory, BusySpin).with_multi_consumer();
    let (event_poller, builder) = builder.new_event_poller();
    let p = builder.build();
    (Exchange::new(p), event_poller)
}

fn new_exchange() -> (Exchange, TestEventPoller) {
    let (mut exchange, event_poller) = bare_exchange();
    let mut holdings = Holdings::default();
    for symbol in Symbol::ALL {
        holdings.credit_asset(symbol.get_quantity_unit().asset_id(), 1_000_000);
    }
    exchange.get_risk_engine_mut().add_account(1, 1_000_000_000, holdings);
    (exchange, event_poller)
}

fn order(order_id: OrderId, order_type: OrderType, side: Side) -> NewOrder {
    NewOrder { order_id, user_id: 1, asset_id: 1, order_type, side, price: Some(100), quantity: 1 }
}

fn new_buy_fak(order_id: OrderId) -> NewOrder {
    order(order_id, OrderType::FillAndKill, Side::Buy)
}

fn new_sell_fak(order_id: OrderId) -> NewOrder {
    order(order_id, OrderType::FillAndKill, Side::Sell)
}

fn new_buy_gtc(order_id: OrderId) -> NewOrder {
    order(order_id, OrderType::GoodTillCancel, Side::Buy)
}

fn new_sell_gtc(order_id: OrderId) -> NewOrder {
    order(order_id, OrderType::GoodTillCancel, Side::Sell)
}

fn drain(poller: &mut TestEventPoller) -> Vec<OrderBookEvent> {
    let mut events = Vec::new();
    while let Ok(mut guard) = poller.poll() {
        for item in &mut guard {
            if let Some(event) = &item.event {
                events.push(event.clone());
            }
        }
    }
    events
}

#[test]
fn gtc_orders_cross_and_match() {
    const SYMBOL: Symbol = Symbol::BtcInr;
    let (mut exchange, mut poller) = new_exchange();
    exchange.add_new_orderbook(SYMBOL);

    exchange.handle_cmd(ExchangeCommand::AddNewOrder(SYMBOL, new_buy_gtc(1))).unwrap();
    exchange.handle_cmd(ExchangeCommand::AddNewOrder(SYMBOL, new_sell_gtc(2))).unwrap();

    assert_eq!(
        drain(&mut poller),
        vec![
            OrderBookEvent::OrderAdded(1, SYMBOL, 1),
            OrderBookEvent::OrderAdded(2, SYMBOL, 2),
            OrderBookEvent::OrderMatched(3, SYMBOL, 2, 100, 1),
            OrderBookEvent::OrderMatched(4, SYMBOL, 1, 100, 1),
        ]
    );
}

#[test]
fn gtc_order_rests_when_no_counterparty() {
    const SYMBOL: Symbol = Symbol::BtcInr;
    let (mut exchange, mut poller) = new_exchange();
    exchange.add_new_orderbook(SYMBOL);

    exchange.handle_cmd(ExchangeCommand::AddNewOrder(SYMBOL, new_buy_gtc(1))).unwrap();

    assert_eq!(drain(&mut poller), vec![OrderBookEvent::OrderAdded(1, SYMBOL, 1)]);
}

#[test]
fn fak_order_matches_immediately_when_crossable() {
    const SYMBOL: Symbol = Symbol::BtcInr;
    let (mut exchange, mut poller) = new_exchange();
    exchange.add_new_orderbook(SYMBOL);

    exchange.handle_cmd(ExchangeCommand::AddNewOrder(SYMBOL, new_buy_gtc(1))).unwrap();
    exchange.handle_cmd(ExchangeCommand::AddNewOrder(SYMBOL, new_sell_fak(2))).unwrap();

    let events = drain(&mut poller);
    assert!(events.contains(&OrderBookEvent::OrderAdded(1, SYMBOL, 1)));
    assert!(events.contains(&OrderBookEvent::OrderMatched(4, SYMBOL, 1, 100, 1)));
    assert!(events.contains(&OrderBookEvent::OrderMatched(3, SYMBOL, 2, 100, 1)));
}

#[test]
fn fak_order_rejected_when_nothing_to_cross() {
    const SYMBOL: Symbol = Symbol::BtcInr;
    let (mut exchange, mut poller) = new_exchange();
    exchange.add_new_orderbook(SYMBOL);

    exchange.handle_cmd(ExchangeCommand::AddNewOrder(SYMBOL, new_buy_fak(1))).unwrap();

    assert_eq!(drain(&mut poller), vec![OrderBookEvent::OrderRejected(1, SYMBOL, 1)]);
}

#[test]
fn cancel_resting_order_emits_cancelled_event() {
    const SYMBOL: Symbol = Symbol::BtcInr;
    let (mut exchange, mut poller) = new_exchange();
    exchange.add_new_orderbook(SYMBOL);

    exchange.handle_cmd(ExchangeCommand::AddNewOrder(SYMBOL, new_buy_gtc(1))).unwrap();
    drain(&mut poller);

    exchange.handle_cmd(ExchangeCommand::CancelOrder(SYMBOL, 1)).unwrap();
    assert_eq!(drain(&mut poller), vec![OrderBookEvent::OrderCancelled(2, SYMBOL, 1)]);
}

#[test]
fn cancel_nonexistent_order_emits_nothing() {
    const SYMBOL: Symbol = Symbol::BtcInr;
    let (mut exchange, mut poller) = new_exchange();
    exchange.add_new_orderbook(SYMBOL);

    exchange.handle_cmd(ExchangeCommand::CancelOrder(SYMBOL, 999)).unwrap();
    assert_eq!(drain(&mut poller), vec![]);
}

#[test]
fn cancel_already_filled_order_does_not_recancel() {
    const SYMBOL: Symbol = Symbol::BtcInr;
    let (mut exchange, mut poller) = new_exchange();
    exchange.add_new_orderbook(SYMBOL);

    exchange.handle_cmd(ExchangeCommand::AddNewOrder(SYMBOL, new_buy_gtc(1))).unwrap();
    exchange.handle_cmd(ExchangeCommand::AddNewOrder(SYMBOL, new_sell_gtc(2))).unwrap();
    drain(&mut poller);

    exchange.handle_cmd(ExchangeCommand::CancelOrder(SYMBOL, 1)).unwrap();
    assert_eq!(drain(&mut poller), vec![]);
}

#[test]
fn orderbooks_are_isolated_per_symbol() {
    let (mut exchange, mut poller) = new_exchange();
    exchange.add_new_orderbook(Symbol::BtcInr);
    exchange.add_new_orderbook(Symbol::EthInr);

    exchange.handle_cmd(ExchangeCommand::AddNewOrder(Symbol::BtcInr, new_buy_gtc(1))).unwrap();
    exchange.handle_cmd(ExchangeCommand::AddNewOrder(Symbol::EthInr, new_sell_gtc(2))).unwrap();

    let events = drain(&mut poller);
    assert_eq!(
        events,
        vec![OrderBookEvent::OrderAdded(1, Symbol::BtcInr, 1), OrderBookEvent::OrderAdded(1, Symbol::EthInr, 2),]
    );
    assert!(!events.iter().any(|e| matches!(e, OrderBookEvent::OrderMatched(..))));
}

#[test]
fn every_symbol_gets_its_own_working_book() {
    let (mut exchange, mut poller) = new_exchange();
    let mut id: OrderId = 0;
    for symbol in Symbol::ALL.iter() {
        exchange.add_new_orderbook(*symbol);
        exchange.handle_cmd(ExchangeCommand::AddNewOrder(*symbol, new_buy_gtc(id))).unwrap();
        id += 1;
        exchange.handle_cmd(ExchangeCommand::AddNewOrder(*symbol, new_sell_gtc(id))).unwrap();
        id += 1;
    }

    let events = drain(&mut poller);
    let matched_count = events.iter().filter(|e| matches!(e, OrderBookEvent::OrderMatched(..))).count();

    assert_eq!(matched_count, Symbol::ALL.len() * 2);
}

#[test]
fn test_risk_rejects_buy_order_when_insufficient_balance() {
    const SYMBOL: Symbol = Symbol::BtcInr;
    let (mut exchange, mut poller) = bare_exchange();
    exchange.add_new_orderbook(SYMBOL);

    let order = NewOrder {
        order_id: 1,
        user_id: 99,
        asset_id: SYMBOL.get_quantity_unit().asset_id(),
        order_type: OrderType::GoodTillCancel,
        side: Side::Buy,
        price: Some(100),
        quantity: 10,
    };

    exchange.handle_cmd(ExchangeCommand::AddNewOrder(SYMBOL, order)).unwrap();

    assert_eq!(drain(&mut poller), vec![OrderBookEvent::OrderRejected(1, SYMBOL, 1)]);
    assert!(exchange.orderbook(SYMBOL).unwrap().is_empty());
}

#[test]
fn test_risk_settles_balances_on_trade_match() {
    const SYMBOL: Symbol = Symbol::BtcInr;
    let (mut exchange, _poller) = bare_exchange();
    exchange.add_new_orderbook(SYMBOL);

    let asset_id = SYMBOL.get_quantity_unit().asset_id();
    let buyer_int = exchange.get_risk_engine_mut().add_account(10, 1000, Holdings::default());
    let seller_holdings = Holdings::new(asset_id, 5);
    let seller_int = exchange.get_risk_engine_mut().add_account(20, 0, seller_holdings);

    let buy_order = NewOrder {
        order_id: 1,
        user_id: 10,
        asset_id,
        order_type: OrderType::GoodTillCancel,
        side: Side::Buy,
        price: Some(100),
        quantity: 2,
    };
    exchange.handle_cmd(ExchangeCommand::AddNewOrder(SYMBOL, buy_order)).unwrap();

    let sell_order = NewOrder {
        order_id: 2,
        user_id: 20,
        asset_id,
        order_type: OrderType::GoodTillCancel,
        side: Side::Sell,
        price: Some(100),
        quantity: 2,
    };
    exchange.handle_cmd(ExchangeCommand::AddNewOrder(SYMBOL, sell_order)).unwrap();

    let buyer_account = &exchange.get_risk_engine().accounts[buyer_int];
    assert_eq!(buyer_account.available_balance, 800);
    assert_eq!(buyer_account.reserved, 0);
    assert_eq!(buyer_account.holdings.get_available_quantity(asset_id), Some(2));

    let seller_account = &exchange.get_risk_engine().accounts[seller_int];
    assert_eq!(seller_account.available_balance, 200);
    assert_eq!(seller_account.reserved, 0);
    assert_eq!(seller_account.holdings.get_available_quantity(asset_id), Some(3));
}

#[test]
fn test_risk_releases_on_order_cancelled() {
    const SYMBOL: Symbol = Symbol::BtcInr;
    let (mut exchange, _poller) = bare_exchange();
    exchange.add_new_orderbook(SYMBOL);

    let asset_id = SYMBOL.get_quantity_unit().asset_id();
    let user_int = exchange.get_risk_engine_mut().add_account(10, 1000, Holdings::default());

    let buy_order = NewOrder {
        order_id: 1,
        user_id: 10,
        asset_id,
        order_type: OrderType::GoodTillCancel,
        side: Side::Buy,
        price: Some(100),
        quantity: 3,
    };
    exchange.handle_cmd(ExchangeCommand::AddNewOrder(SYMBOL, buy_order)).unwrap();

    assert_eq!(exchange.get_risk_engine().accounts[user_int].available_balance, 700);
    assert_eq!(exchange.get_risk_engine().accounts[user_int].reserved, 300);

    exchange.handle_cmd(ExchangeCommand::CancelOrder(SYMBOL, 1)).unwrap();

    assert_eq!(exchange.get_risk_engine().accounts[user_int].available_balance, 1000);
    assert_eq!(exchange.get_risk_engine().accounts[user_int].reserved, 0);
}

#[test]
fn exchange_command_without_book_is_an_access_error() {
    let (mut exchange, mut poller) = new_exchange();
    let result = exchange.handle_cmd(ExchangeCommand::CancelOrder(Symbol::SolInr, 1));
    assert!(matches!(result, Err(ExchangeError::OrderBookAccessError(Symbol::SolInr))));
    let result = exchange.handle_cmd(ExchangeCommand::AddNewOrder(Symbol::SolInr, new_buy_gtc(7)));
    assert!(matches!(result, Err(ExchangeError::OrderBookAccessError(Symbol::SolInr))));
    assert_eq!(drain(&mut poller), vec![]);
}

#[test]
fn exchange_modify_is_announced_or_rejected() {
    const SYMBOL: Symbol = Symbol::BtcInr;
    let (mut exchange, mut poller) = new_exchange();
    exchange.add_new_orderbook(SYMBOL);
    exchange.handle_cmd(ExchangeCommand::AddNewOrder(SYMBOL, new_buy_gtc(1))).unwrap();
    let modify = ModifyOrder { order_type: OrderType::GoodTillCancel, order_id: 1, side: Side::Buy, price: 90, quantity: 4 };
    exchange.handle_cmd(ExchangeCommand::ModifyOrder(SYMBOL, modify)).unwrap();
    let unknown = ModifyOrder { order_id: 42, ..modify };
    exchange.handle_cmd(ExchangeCommand::ModifyOrder(SYMBOL, unknown)).unwrap();
    assert_eq!(
        drain(&mut poller),
        vec![
            OrderBookEvent::OrderAdded(1, SYMBOL, 1),
            OrderBookEvent::OrderModified(2, SYMBOL, modify),
            OrderBookEvent::ModifyOrderRejected(3, SYMBOL, unknown),
        ]
    );
    let book = exchange.orderbook(SYMBOL).unwrap();
    assert_eq!(book.get_order(1).unwrap().price, Some(90));
}

#[test]
fn exchange_prune_cancels_orders_of_the_type() {
    const SYMBOL: Symbol = Symbol::BtcInr;
    let (mut exchange, mut poller) = new_exchange();
    exchange.add_new_orderbook(SYMBOL);
    exchange.handle_cmd(ExchangeCommand::AddNewOrder(SYMBOL, new_buy_gtc(1))).unwrap();
    let day = NewOrder { order_type: OrderType::GoodForDay, price: Some(90), ..new_buy_gtc(2) };
    exchange.handle_cmd(ExchangeCommand::AddNewOrder(SYMBOL, day)).unwrap();
    drain(&mut poller);
    exchange.handle_cmd(ExchangeCommand::PruneExpiredOrders(SYMBOL, OrderType::GoodForDay)).unwrap();
    assert_eq!(drain(&mut poller), vec![OrderBookEvent::OrdersExpired(3, SYMBOL, vec![2])]);
    let book = exchange.orderbook(SYMBOL).unwrap();
    assert!(book.get_order(2).is_none());
    assert!(book.get_order(1).is_some());
}

#[test]
fn exchange_sequence_counts_per_market() {
    let (mut exchange, _poller) = new_exchange();
    assert_eq!(exchange.next_seq(&Symbol::BtcInr), 1);
    assert_eq!(exchange.next_seq(&Symbol::BtcInr), 2);
    assert_eq!(exchange.next_seq(&Symbol::EthInr), 1);
}

#[test]
fn can_handle_tells_which_commands_stay_in_range() {
    const SYMBOL: Symbol = Symbol::BtcInr;
    let (mut exchange, _poller) = new_exchange();
    // No book yet: the command is answered with a book error, which is always in range.
    assert!(exchange.can_handle(ExchangeCommand::CancelOrder(SYMBOL, 1)));
    exchange.add_new_orderbook(SYMBOL);
    exchange.handle_cmd(ExchangeCommand::AddNewOrder(SYMBOL, new_buy_gtc(1))).unwrap();
    exchange.handle_cmd(ExchangeCommand::AddNewOrder(SYMBOL, new_buy_gtc(2))).unwrap();
    assert!(exchange.can_handle(ExchangeCommand::AddNewOrder(SYMBOL, new_sell_gtc(3))));
    assert!(exchange.can_handle(ExchangeCommand::CancelOrder(SYMBOL, 1)));
    let modify = ModifyOrder { order_type: OrderType::GoodTillCancel, order_id: 1, side: Side::Buy, price: 99, quantity: 1 };
    assert!(exchange.can_handle(ExchangeCommand::ModifyOrder(SYMBOL, modify)));
    assert!(exchange.can_handle(ExchangeCommand::PruneExpiredOrders(SYMBOL, OrderType::GoodForDay)));
    assert!(!exchange.can_handle(ExchangeCommand::PruneExpiredOrders(SYMBOL, OrderType::GoodTillCancel)));

    // The tally at 100 no longer covers the two resting bids.
    exchange.orderbooks.get_mut(&1).unwrap().data.get_mut(&100).unwrap().quantity = 0;
    assert!(!exchange.can_handle(ExchangeCommand::AddNewOrder(SYMBOL, new_sell_gtc(3))));
    assert!(!exchange.can_handle(ExchangeCommand::CancelOrder(SYMBOL, 1)));
    assert!(!exchange.can_handle(ExchangeCommand::ModifyOrder(SYMBOL, modify)));
    // A cancellation of an order that does not rest changes no tally.
    assert!(exchange.can_handle(ExchangeCommand::CancelOrder(SYMBOL, 42)));
    // An order the risk engine refuses never reaches the book.
    let mut stranger = new_sell_gtc(4);
    stranger.user_id = 99;
    assert!(exchange.can_handle(ExchangeCommand::AddNewOrder(SYMBOL, stranger)));
}
