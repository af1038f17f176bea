use exchange::commands::{next_prune_run, next_prune_time, CommandEnvelope, ExchangeCommand, SECONDS_PER_DAY};
use exchange::events::{EventEnvelope, OrderBookEvent};
use exchange::orders::{ModifyOrder, NewOrder, OrderType};
use exchange::symbol::Symbol;
use exchange::types::{OrderId, Side};

fn sample_new_order(order_id: OrderId) -> NewOrder {
    NewOrder {
        order_id,
        user_id: 1,
        asset_id: 1,
        order_type: OrderType::GoodTillCancel,
        side: Side::Buy,
        price: Some(100),
        quantity: 5,
    }
}

fn sample_modify_order(order_id: OrderId) -> ModifyOrder {
    ModifyOrder {
        order_type: OrderType::GoodTillCancel,
        order_id,
        side: Side::Buy,
        price: 105,
        quantity: 10,
    }
}

#[test]
fn test_exchange_command_symbol() {
    let add = ExchangeCommand::new_order(Symbol::BtcInr, sample_new_order(1));
    assert_eq!(add.symbol(), Symbol::BtcInr);

    let cancel = ExchangeCommand::cancel_order(Symbol::EthInr, 2);
    assert_eq!(cancel.symbol(), Symbol::EthInr);

    let modify = ExchangeCommand::modify_order(Symbol::SolUsdt, sample_modify_order(3));
    assert_eq!(modify.symbol(), Symbol::SolUsdt);

    let prune = ExchangeCommand::prune_expired_orders(Symbol::UsdtInr, OrderType::GoodForDay);
    assert_eq!(prune.symbol(), Symbol::UsdtInr);
}

#[test]
fn test_command_envelope_constructors() {
    let empty = CommandEnvelope::empty();
    assert_eq!(empty.command, None);

    let default_env = CommandEnvelope::default();
    assert_eq!(default_env.command, None);

    let cmd = ExchangeCommand::cancel_order(Symbol::BtcUsdt, 42);
    let with_cmd = CommandEnvelope::new(cmd.clone());
    assert_eq!(with_cmd.command, Some(cmd));
}

#[test]
fn test_command_variants_clone_and_equality() {
    let cmd1 = ExchangeCommand::new_order(Symbol::BtcInr, sample_new_order(1));
    let cmd2 = cmd1.clone();
    assert_eq!(cmd1, cmd2);

    let cmd3 = ExchangeCommand::cancel_order(Symbol::BtcInr, 1);
    assert_ne!(cmd1, cmd3);
}

#[test]
fn test_orderbook_event_symbol_extraction() {
    let matched = OrderBookEvent::OrderMatched(1, Symbol::BtcInr, 1, 100, 10);
    assert_eq!(matched.symbol(), Some(Symbol::BtcInr));
    assert!(!matched.is_error());

    let cancelled = OrderBookEvent::OrderCancelled(1, Symbol::EthInr, 2);
    assert_eq!(cancelled.symbol(), Some(Symbol::EthInr));

    let added = OrderBookEvent::OrderAdded(1, Symbol::SolInr, 3);
    assert_eq!(added.symbol(), Some(Symbol::SolInr));

    let modified = OrderBookEvent::OrderModified(
        1,
        Symbol::BtcUsdt,
        ModifyOrder {
            order_type: OrderType::GoodTillCancel,
            order_id: 4,
            side: Side::Buy,
            price: 50_000,
            quantity: 2,
        },
    );
    assert_eq!(modified.symbol(), Some(Symbol::BtcUsdt));

    let rejected = OrderBookEvent::OrderRejected(1, Symbol::XrpUsdt, 5);
    assert_eq!(rejected.symbol(), Some(Symbol::XrpUsdt));

    let mod_rejected = OrderBookEvent::ModifyOrderRejected(
        1,
        Symbol::BnbUsdt,
        ModifyOrder {
            order_type: OrderType::FillAndKill,
            order_id: 6,
            side: Side::Sell,
            price: 300,
            quantity: 1,
        },
    );
    assert_eq!(mod_rejected.symbol(), Some(Symbol::BnbUsdt));

    let expired = OrderBookEvent::OrdersExpired(1, Symbol::BtcUsdc, vec![7, 8]);
    assert_eq!(expired.symbol(), Some(Symbol::BtcUsdc));

    let partial = OrderBookEvent::OrderPartiallyFilled(1, Symbol::EthUsdc);
    assert_eq!(partial.symbol(), Some(Symbol::EthUsdc));

    let opened = OrderBookEvent::MarketOpened(1, Symbol::UsdtInr);
    assert_eq!(opened.symbol(), Some(Symbol::UsdtInr));

    let closed = OrderBookEvent::MarketClosed(1, Symbol::InrUsdt);
    assert_eq!(closed.symbol(), Some(Symbol::InrUsdt));

    let err = OrderBookEvent::Error(1, 404);
    assert_eq!(err.symbol(), None);
    assert!(err.is_error());
}

#[test]
fn test_event_envelope_constructors() {
    let empty = EventEnvelope::empty();
    assert_eq!(empty.event, None);

    let default_env = EventEnvelope::default();
    assert_eq!(default_env.event, None);

    let with_event = EventEnvelope::new(OrderBookEvent::OrderAdded(1, Symbol::BtcInr, 10));
    assert_eq!(
        with_event.event,
        Some(OrderBookEvent::OrderAdded(1, Symbol::BtcInr, 10))
    );
}

#[test]
fn event_names_as_logged() {
    assert_eq!(OrderBookEvent::OrderMatched(1, Symbol::BtcInr, 1, 100, 10).as_str(), "OrderMatched");
    assert_eq!(OrderBookEvent::OrdersExpired(1, Symbol::BtcInr, vec![]).as_str(), "OrdersExpired");
    assert_eq!(OrderBookEvent::Error(1, 2).as_str(), "ERROR");
}

#[test]
fn symbol_names_and_units() {
    assert_eq!(Symbol::BtcInr.as_str(), "BTC-INR");
    assert_eq!(Symbol::XrpUsdt.as_str(), "XRP-USDT");
    assert_eq!(Symbol::BtcInr.get_quantity_unit(), exchange::symbol::Currency::Btc);
    assert_eq!(Symbol::BtcInr.get_price_unit(), exchange::symbol::Currency::Inr);
    assert_eq!(Symbol::EthUsdc.get_price_unit(), exchange::symbol::Currency::Usdc);
    assert_eq!(Symbol::ALL.len(), 12);
}

#[test]
fn test_next_prune_run_today_tomorrow_or_never() {
    // 2024-01-01T00:00:00Z, closing at 16:00 UTC.
    let midnight: i64 = 1_704_067_200;
    let close = midnight + 16 * 3600;
    assert_eq!(next_prune_run(midnight + 3600, Some(close)), Some(close));
    assert_eq!(next_prune_run(close, Some(close)), Some(close + SECONDS_PER_DAY));
    assert_eq!(next_prune_run(close + 1, Some(close)), Some(close + 86_400));
    assert_eq!(next_prune_run(close - 1, Some(close)), Some(close));
    assert_eq!(next_prune_run(midnight, None), None);
}

#[test]
fn test_next_prune_time_from_the_clock() {
    // 2024-01-01T00:00:00Z.
    let midnight: i64 = 1_704_067_200;
    let close = midnight + 16 * 3600;
    assert_eq!(next_prune_time(midnight + 5 * 3600 + 17, 16), Some(close));
    assert_eq!(next_prune_time(close, 16), Some(close + SECONDS_PER_DAY));
    assert_eq!(next_prune_time(close + 3599, 16), Some(close + SECONDS_PER_DAY));
    assert_eq!(next_prune_time(midnight, 0), Some(midnight + SECONDS_PER_DAY));
    assert_eq!(next_prune_time(midnight + 1, 23), Some(midnight + 23 * 3600));
    assert_eq!(next_prune_time(midnight, 24), None);
    // Before the epoch the day still starts at UTC midnight.
    assert_eq!(next_prune_time(-1, 0), Some(0));
    assert_eq!(next_prune_time(-86_400 - 1, 12), Some(-2 * 86_400 + 12 * 3600 + 86_400));
}
