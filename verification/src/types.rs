use vstd::prelude::*;

verus! {

pub type Trades = crate::trade_list::TradeList;

pub type AssetId = u64;

pub type Price = u64;

pub type Quantity = u32;

pub type OrderId = u64;

pub type UserId = u64;

/// The side of the book an order rests on.
#[derive(Clone, Copy, Debug, PartialEq, Eq, Structural)]
pub enum Side {
    Buy,
    Sell,
}

/// One half of a trade: the order that took part, at which price and for how much.
#[derive(Copy, Clone, Debug, PartialEq, Eq, Structural)]
pub struct TradeInfo {
    pub order_id: OrderId,
    pub user_id: UserId,
    pub price: Price,
    pub quantity: Quantity,
}

/// A match between a resting bid and a resting ask.
#[derive(Copy, Clone, Debug, PartialEq, Eq, Structural)]
pub struct Trade {
    pub bid_trade: TradeInfo,
    pub ask_trade: TradeInfo,
}

impl Trade {
    pub fn get_bid_trade(&self) -> (r: TradeInfo)
        ensures
            r == self.bid_trade,
    {
        self.bid_trade
    }

    pub fn get_ask_trade(&self) -> (r: TradeInfo)
        ensures
            r == self.ask_trade,
    {
        self.ask_trade
    }
}

} // verus!
