use vstd::prelude::*;

use crate::orders::{ModifyOrder, NewOrder, OrderType};
use crate::symbol::Symbol;
use crate::types::OrderId;

verus! {

/// A request to the matching engine, addressed to one market.
#[derive(Debug, Clone, PartialEq, Eq, Structural)]
pub enum ExchangeCommand {
    AddNewOrder(Symbol, NewOrder),
    CancelOrder(Symbol, OrderId),
    ModifyOrder(Symbol, ModifyOrder),
    PruneExpiredOrders(Symbol, OrderType),
}

/// The market a command is addressed to.
pub open spec fn command_symbol(c: ExchangeCommand) -> Symbol {
    match c {
        ExchangeCommand::AddNewOrder(s, _) => s,
        ExchangeCommand::CancelOrder(s, _) => s,
        ExchangeCommand::ModifyOrder(s, _) => s,
        ExchangeCommand::PruneExpiredOrders(s, _) => s,
    }
}

impl ExchangeCommand {
    pub fn symbol(&self) -> (r: Symbol)
        ensures
            r == command_symbol(*self),
    {
        match self {
            Self::AddNewOrder(symbol, _) => *symbol,
            Self::CancelOrder(symbol, _) => *symbol,
            Self::ModifyOrder(symbol, _) => *symbol,
            Self::PruneExpiredOrders(symbol, _) => *symbol,
        }
    }

    pub fn new_order(symbol: Symbol, order: NewOrder) -> (r: Self)
        ensures
            r == ExchangeCommand::AddNewOrder(symbol, order),
    {
        Self::AddNewOrder(symbol, order)
    }

    pub fn cancel_order(symbol: Symbol, order_id: OrderId) -> (r: Self)
        ensures
            r == ExchangeCommand::CancelOrder(symbol, order_id),
    {
        Self::CancelOrder(symbol, order_id)
    }

    pub fn modify_order(symbol: Symbol, modify: ModifyOrder) -> (r: Self)
        ensures
            r == ExchangeCommand::ModifyOrder(symbol, modify),
    {
        Self::ModifyOrder(symbol, modify)
    }

    pub fn prune_expired_orders(symbol: Symbol, order_type: OrderType) -> (r: Self)
        ensures
            r == ExchangeCommand::PruneExpiredOrders(symbol, order_type),
    {
        Self::PruneExpiredOrders(symbol, order_type)
    }
}

/// A ring buffer slot that may hold a command.
#[derive(Debug, Clone, PartialEq, Eq, Structural)]
pub struct CommandEnvelope {
    pub command: Option<ExchangeCommand>,
}

impl CommandEnvelope {
    pub fn new(command: ExchangeCommand) -> (r: Self)
        ensures
            r.command == Some(command),
    {
        Self { command: Some(command) }
    }

    pub fn empty() -> (r: Self)
        ensures
            r.command is None,
    {
        Self { command: None }
    }
}

impl Default for CommandEnvelope {
    fn default() -> (r: Self)
        ensures
            r.command is None,
    {
        Self::empty()
    }
}

/// Seconds in a day, the period of the good-for-day prune.
pub const SECONDS_PER_DAY: i64 = 86400;

/// Picks the time of the next good-for-day prune from the current time and today's closing
/// time, all in whole seconds since the epoch: today's closing time if it is still ahead of
/// `now`, else the same time tomorrow; `None` where there is no closing time today (the
/// closing hour is not an hour of the day), and the pruner stops.
pub fn next_prune_run(now: i64, target_today: Option<i64>) -> (next: Option<i64>)
    requires
        target_today matches Some(target) ==> target + SECONDS_PER_DAY <= i64::MAX,
    ensures
        match target_today {
            Some(target) => next == Some(
                if now < target {
                    target
                } else {
                    (target + SECONDS_PER_DAY) as i64
                },
            ),
            None => next is None,
        },
{
    match target_today {
        Some(target) => if now < target {
            Some(target)
        } else {
            Some(target + SECONDS_PER_DAY)
        },
        None => None,
    }
}

/// Today's closing time in seconds since the epoch: `hour`:00:00 UTC on the day of
/// `now_secs`, or `None` where `hour` is not an hour of the day. Calls chrono's
/// `DateTime::<Utc>::from_timestamp`, `date_naive` and `NaiveDate::and_hms_opt`, converting
/// back with `and_utc().timestamp()`; the contract states chrono's Euclidean day arithmetic
/// (a day is 86400 seconds, and no leap second is counted). The bound on `now_secs` keeps the
/// date inside chrono's range of years, where `from_timestamp` gives a date.
#[verifier::external_body]
fn closing_time_today(now_secs: i64, hour: u32) -> (r: Option<i64>)
    requires
        -8_000_000_000_000i64 <= now_secs <= 8_000_000_000_000i64,
    ensures
        hour >= 24 ==> r is None,
        hour < 24 ==> r == Some((now_secs - now_secs % SECONDS_PER_DAY + 3600 * hour) as i64),
{
    chrono::DateTime::<chrono::Utc>::from_timestamp(now_secs, 0)
        .and_then(|d| d.date_naive().and_hms_opt(hour, 0, 0))
        .map(|n| n.and_utc().timestamp())
}

/// When the daily good-for-day prune next runs, for a pruner that closes the market at
/// `utc_end_hr` o'clock UTC, seen at `now_secs` (whole seconds since the epoch): today's
/// closing time if it is still ahead, else tomorrow's; `None` where `utc_end_hr` is not an
/// hour of the day, and the pruner stops.
pub fn next_prune_time(now_secs: i64, utc_end_hr: u32) -> (next: Option<i64>)
    requires
        -8_000_000_000_000i64 <= now_secs <= 8_000_000_000_000i64,
    ensures
        utc_end_hr >= 24 ==> next is None,
        utc_end_hr < 24 ==> next == Some(
            {
                let target = now_secs - now_secs % SECONDS_PER_DAY + 3600 * utc_end_hr;
                (if now_secs < target {
                    target
                } else {
                    target + SECONDS_PER_DAY
                }) as i64
            },
        ),
{
    let target_today = closing_time_today(now_secs, utc_end_hr);
    next_prune_run(now_secs, target_today)
}

} // verus!
