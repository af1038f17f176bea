//! A plainer order model with signed prices: orders, modification requests and trades
//! without users or assets, depth snapshots, and an order book over them that keeps no
//! per-price tallies.
use vstd::prelude::*;

use crate::book_model::{
    add_rejected, add_result, can_match_spec, cancel_spec, in_book, lemma_untallied_total, match_orders_spec,
    order_in_book, BookModel,
};
use crate::orderbook::OrderBook as Book;
use crate::orders::{
    order_of_modification, ModifyOrder as BookModifyOrder, Order as BookOrder, OrderType as BookOrderType,
};
use crate::types::{Side as BookSide, Trade as BookTrade, Trades as BookTrades};
use vstd::pervasive::arbitrary;

verus! {

pub type Price = i64;

pub type Quantity = u32;

pub type OrderId = u64;

/// How an order may be filled.
#[derive(Clone, Copy, Debug, PartialEq, Eq, Structural)]
pub enum OrderType {
    GoodTillCancel,
    FillAndKill,
}

/// The side of the book an order rests on.
#[derive(Clone, Copy, Debug, PartialEq, Eq, Structural)]
pub enum Side {
    Buy,
    Sell,
}

/// The total quantity resting at one price.
pub struct LevelInfo {
    pub price: Price,
    pub quantity: Quantity,
}

pub type LevelInfos = Vec<LevelInfo>;

/// A depth snapshot of both sides of a book.
pub struct OrderBookLeveInfos {
    pub bids: LevelInfos,
    pub asks: LevelInfos,
}

impl OrderBookLeveInfos {
    #[allow(non_snake_case)]
    pub fn getBids(&self) -> (r: &LevelInfos)
        ensures
            r == &self.bids,
    {
        &self.bids
    }

    #[allow(non_snake_case)]
    pub fn getAsks(&self) -> (r: &LevelInfos)
        ensures
            r == &self.asks,
    {
        &self.asks
    }
}

/// An order; `remaining_quantity` falls as it is filled.
#[derive(Debug, Clone, Copy)]
pub struct Order {
    pub order_type: OrderType,
    pub order_id: OrderId,
    pub side: Side,
    pub price: Price,
    pub intial_quantity: Quantity,
    pub remaining_quantity: Quantity,
}

impl Order {
    pub fn get_order_id(&self) -> (r: OrderId)
        ensures
            r == self.order_id,
    {
        self.order_id
    }

    pub fn get_side(&self) -> (r: Side)
        ensures
            r == self.side,
    {
        self.side
    }

    pub fn get_price(&self) -> (r: Price)
        ensures
            r == self.price,
    {
        self.price
    }

    pub fn get_order_type(&self) -> (r: OrderType)
        ensures
            r == self.order_type,
    {
        self.order_type
    }

    pub fn get_inital_quantity(&self) -> (r: Quantity)
        ensures
            r == self.intial_quantity,
    {
        self.intial_quantity
    }

    pub fn get_remaining_quantity(&self) -> (r: Quantity)
        ensures
            r == self.remaining_quantity,
    {
        self.remaining_quantity
    }

    /// How much of the order has been filled.
    pub fn get_filled_quantity(&self) -> (r: Quantity)
        requires
            self.remaining_quantity <= self.intial_quantity,
        ensures
            r == self.intial_quantity - self.remaining_quantity,
    {
        self.intial_quantity - self.remaining_quantity
    }

    /// Fills `quantity` more of the order; a fill beyond what remains is refused and changes
    /// nothing.
    pub fn fill(&mut self, quantity: Quantity)
        ensures
            quantity <= old(self).remaining_quantity ==> *final(self) == (Order {
                remaining_quantity: (old(self).remaining_quantity - quantity) as Quantity,
                ..*old(self)
            }),
            quantity > old(self).remaining_quantity ==> *final(self) == *old(self),
    {
        if quantity > self.get_remaining_quantity() {
            return;
        }
        self.remaining_quantity = self.remaining_quantity - quantity;
    }

    pub fn is_filled(&self) -> (r: bool)
        ensures
            r == (self.remaining_quantity == 0),
    {
        self.get_remaining_quantity() == 0
    }
}

/// A request to replace an order with a new side, price and quantity.
#[derive(Debug, Clone, Copy)]
pub struct ModifyOrder {
    pub order_type: OrderType,
    pub order_id: OrderId,
    pub side: Side,
    pub price: Price,
    pub quantity: Quantity,
}

impl ModifyOrder {
    pub fn get_order_id(&self) -> (r: OrderId)
        ensures
            r == self.order_id,
    {
        self.order_id
    }

    pub fn get_side(&self) -> (r: Side)
        ensures
            r == self.side,
    {
        self.side
    }

    pub fn get_price(&self) -> (r: Price)
        ensures
            r == self.price,
    {
        self.price
    }

    pub fn get_quantity(&self) -> (r: Quantity)
        ensures
            r == self.quantity,
    {
        self.quantity
    }

    /// The fresh order this modification places, of the given type.
    pub fn to_order_pointer(&self, order_type: OrderType) -> (r: Order)
        ensures
            r == (Order {
                order_type,
                order_id: self.order_id,
                side: self.side,
                price: self.price,
                intial_quantity: self.quantity,
                remaining_quantity: self.quantity,
            }),
    {
        Order {
            order_type,
            side: self.get_side(),
            order_id: self.get_order_id(),
            price: self.get_price(),
            intial_quantity: self.get_quantity(),
            remaining_quantity: self.get_quantity(),
        }
    }
}

/// One half of a trade.
#[derive(Copy, Clone, Debug)]
pub struct TradeInfo {
    pub order_id: OrderId,
    pub price: Price,
    pub quantity: Quantity,
}

/// A match between a bid and an ask.
#[derive(Copy, Clone, Debug)]
pub struct Trade {
    pub bid_trade: TradeInfo,
    pub ask_trade: TradeInfo,
}

impl Trade {
    pub fn get_bid_trade(&self) -> (r: TradeInfo)
        ensures
            r == self.bid_trade,
    {
        self.bid_trade
    }

    pub fn get_ask_trade(&self) -> (r: TradeInfo)
        ensures
            r == self.ask_trade,
    {
        self.ask_trade
    }
}

/// The unsigned key a signed price is kept under: the price shifted up by 2^63, so that keys
/// order exactly as prices do.
pub open spec fn price_key(p: Price) -> u64 {
    (p + 0x8000_0000_0000_0000) as u64
}

/// The signed price a key stands for.
pub open spec fn key_price(k: u64) -> Price {
    (k - 0x8000_0000_0000_0000) as i64
}

pub open spec fn book_side(s: Side) -> BookSide {
    match s {
        Side::Buy => BookSide::Buy,
        Side::Sell => BookSide::Sell,
    }
}

pub open spec fn book_type(t: OrderType) -> BookOrderType {
    match t {
        OrderType::GoodTillCancel => BookOrderType::GoodTillCancel,
        OrderType::FillAndKill => BookOrderType::FillAndKill,
    }
}

/// An order as the matching book holds it: keyed price, no user or asset.
pub open spec fn book_order(o: Order) -> BookOrder {
    BookOrder {
        order_id: o.order_id,
        user_id: 0,
        asset_id: 0,
        price: Some(price_key(o.price)),
        initial_quantity: o.intial_quantity,
        remaining_quantity: o.remaining_quantity,
        order_type: book_type(o.order_type),
        side: book_side(o.side),
    }
}

/// A modification as the matching book takes it.
pub open spec fn book_modify(m: ModifyOrder) -> BookModifyOrder {
    BookModifyOrder {
        order_type: book_type(m.order_type),
        order_id: m.order_id,
        side: book_side(m.side),
        price: price_key(m.price),
        quantity: m.quantity,
    }
}

/// A trade of the matching book, with its prices given back as signed prices.
pub open spec fn signed_trade(t: BookTrade) -> Trade {
    Trade {
        bid_trade: TradeInfo {
            order_id: t.bid_trade.order_id,
            price: key_price(t.bid_trade.price),
            quantity: t.bid_trade.quantity,
        },
        ask_trade: TradeInfo {
            order_id: t.ask_trade.order_id,
            price: key_price(t.ask_trade.price),
            quantity: t.ask_trade.quantity,
        },
    }
}

pub open spec fn signed_trades(ts: Seq<BookTrade>) -> Seq<Trade> {
    ts.map_values(|t: BookTrade| signed_trade(t))
}

/// The key a signed price is kept under.
pub fn to_key(p: Price) -> (r: u64)
    ensures
        r == price_key(p),
        key_price(r) == p,
{
    let shifted: i128 = p as i128 + 0x8000_0000_0000_0000i128;
    shifted as u64
}

fn to_price(k: u64) -> (r: Price)
    ensures
        r == key_price(k),
{
    let shifted: i128 = k as i128 - 0x8000_0000_0000_0000i128;
    shifted as i64
}

fn to_book_side(s: Side) -> (r: BookSide)
    ensures
        r == book_side(s),
{
    match s {
        Side::Buy => BookSide::Buy,
        Side::Sell => BookSide::Sell,
    }
}

fn to_book_type(t: OrderType) -> (r: BookOrderType)
    ensures
        r == book_type(t),
{
    match t {
        OrderType::GoodTillCancel => BookOrderType::GoodTillCancel,
        OrderType::FillAndKill => BookOrderType::FillAndKill,
    }
}

fn to_signed_trades(ts: &BookTrades) -> (r: Vec<Trade>)
    ensures
        r@ == signed_trades(ts.view_seq()),
{
    let mut out: Vec<Trade> = Vec::new();
    let n = ts.len();
    let mut i: usize = 0;
    while i < n
        invariant
            n == ts.view_seq().len(),
            i <= n,
            out@ == signed_trades(ts.view_seq().take(i as int)),
        decreases n - i,
    {
        let t = ts.get(i);
        out.push(
            Trade {
                bid_trade: TradeInfo {
                    order_id: t.bid_trade.order_id,
                    price: to_price(t.bid_trade.price),
                    quantity: t.bid_trade.quantity,
                },
                ask_trade: TradeInfo {
                    order_id: t.ask_trade.order_id,
                    price: to_price(t.ask_trade.price),
                    quantity: t.ask_trade.quantity,
                },
            },
        );
        proof {
            assert(ts.view_seq().take(i + 1) =~= ts.view_seq().take(i as int).push(t));
            assert(signed_trades(ts.view_seq().take(i + 1)) =~= signed_trades(ts.view_seq().take(i as int)).push(
                signed_trade(t),
            ));
        }
        i = i + 1;
    }
    assert(ts.view_seq().take(n as int) =~= ts.view_seq());
    out
}

/// An order book of signed prices. It is the matching book, keyed by `price_key`, that
/// keeps no per-price tallies: orders queue by price and arrival, a crossing book matches
/// front orders, and a fill-and-kill order never rests.
pub struct OrderBook {
    pub book: Book,
}

impl OrderBook {
    pub open spec fn model(&self) -> BookModel {
        self.book.model()
    }

    pub open spec fn wf(&self) -> bool {
        self.book.wf()
    }

    pub fn new() -> (r: Self)
        ensures
            r.wf(),
            r.model() == (BookModel { bids: Seq::empty(), asks: Seq::empty(), data: Map::empty() }),
    {
        OrderBook { book: Book::new() }
    }

    /// Whether an order on `side` at `price` would cross the best opposite price.
    pub fn can_match(&self, side: Side, price: Price) -> (r: bool)
        ensures
            r == can_match_spec(self.model(), book_side(side), price_key(price)),
    {
        self.book.can_match(to_book_side(side), to_key(price))
    }

    /// Matches the book as the matching book does, and gives the trades back with signed prices.
    pub fn match_orders(&mut self) -> (r: Vec<Trade>)
        requires
            old(self).wf(),
        ensures
            final(self).wf(),
            final(self).model() == (match_orders_spec(old(self).model(), false)->0).0,
            r@ == signed_trades((match_orders_spec(old(self).model(), false)->0).1),
    {
        proof {
            lemma_untallied_total(self.model(), arbitrary(), 0);
        }
        let trades = self.book.match_orders_with(false);
        to_signed_trades(&trades)
    }

    /// Places an order and matches the book. It is turned away (`None`, book unchanged) when
    /// its id already rests, or when it is fill-and-kill and cannot cross; otherwise it is
    /// queued at its price, the book is matched, and the trades come back.
    pub fn add_order(&mut self, order: Order) -> (r: Option<Vec<Trade>>)
        requires
            old(self).wf(),
        ensures
            final(self).wf(),
            add_rejected(old(self).model(), book_order(order)) ==> r is None && final(self).model() == old(
                self,
            ).model(),
            !add_rejected(old(self).model(), book_order(order)) ==> {
                &&& r is Some
                &&& final(self).model() == (add_result(old(self).model(), book_order(order), false)->0).0
                &&& r->0@ == signed_trades((add_result(old(self).model(), book_order(order), false)->0).1)
            },
    {
        proof {
            lemma_untallied_total(self.model(), book_order(order), 0);
        }
        let placed = BookOrder {
            order_id: order.order_id,
            user_id: 0,
            asset_id: 0,
            price: Some(to_key(order.price)),
            initial_quantity: order.intial_quantity,
            remaining_quantity: order.remaining_quantity,
            order_type: to_book_type(order.order_type),
            side: to_book_side(order.side),
        };
        match self.book.add_order_with(placed, false) {
            Some(trades) => Some(to_signed_trades(&trades)),
            None => None,
        }
    }

    /// Cancels the resting order `order_id`, if there is one; its level goes when it empties.
    pub fn cancel_order(&mut self, order_id: OrderId)
        requires
            old(self).wf(),
        ensures
            final(self).wf(),
            final(self).model() == cancel_spec(old(self).model(), order_id, false)->0,
    {
        let _ = self.book.cancel_order_with(order_id, false);
    }

    /// Replaces a resting order: `None` (book unchanged) when no order `modify_order.order_id`
    /// rests; otherwise that order is cancelled and the order the modification describes, with
    /// the cancelled order's type, is added as `add_order` does.
    pub fn modify_order(&mut self, modify_order: ModifyOrder) -> (r: Option<Vec<Trade>>)
        requires
            old(self).wf(),
        ensures
            final(self).wf(),
            !in_book(old(self).model(), modify_order.order_id) ==> r is None && final(self).model() == old(
                self,
            ).model(),
            in_book(old(self).model(), modify_order.order_id) ==> {
                let m1 = cancel_spec(old(self).model(), modify_order.order_id, false)->0;
                let o = order_of_modification(
                    book_modify(modify_order),
                    order_in_book(old(self).model(), modify_order.order_id).order_type,
                );
                &&& add_rejected(m1, o) ==> r is None && final(self).model() == m1
                &&& !add_rejected(m1, o) ==> {
                    &&& r is Some
                    &&& final(self).model() == (add_result(m1, o, false)->0).0
                    &&& r->0@ == signed_trades((add_result(m1, o, false)->0).1)
                }
            },
    {
        let existing = match self.book.get_order(modify_order.order_id) {
            Some(o) => o,
            None => {
                return None;
            },
        };
        let _ = self.book.cancel_order_with(modify_order.order_id, false);
        let replacement = BookModifyOrder {
            order_type: to_book_type(modify_order.order_type),
            order_id: modify_order.order_id,
            side: to_book_side(modify_order.side),
            price: to_key(modify_order.price),
            quantity: modify_order.quantity,
        };
        let placed = replacement.to_order_pointer(existing.order_type);
        proof {
            lemma_untallied_total(self.model(), placed, 0);
        }
        match self.book.add_order_with(placed, false) {
            Some(trades) => Some(to_signed_trades(&trades)),
            None => None,
        }
    }
}

} // verus!
