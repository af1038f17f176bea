use vstd::prelude::*;

use crate::types::{AssetId, OrderId, Price, Quantity, Side, UserId};

verus! {

pub type OrderIds = Vec<OrderId>;

/// How long an order may rest and how it may be filled.
#[derive(Clone, Copy, Debug, PartialEq, Eq, Structural)]
pub enum OrderType {
    GoodTillCancel,
    FillAndKill,
    FillOrKill,
    GoodForDay,
    Market,
}

/// An order as it rests in the book; `remaining_quantity` falls as it is filled.
#[derive(Debug, Copy, Clone)]
pub struct Order {
    pub order_id: OrderId,
    pub user_id: UserId,
    pub asset_id: AssetId,
    pub price: Option<Price>,
    pub initial_quantity: Quantity,
    pub remaining_quantity: Quantity,
    pub order_type: OrderType,
    pub side: Side,
}

/// A request to place an order.
#[derive(Clone, Debug, PartialEq, Eq, Structural)]
pub struct NewOrder {
    pub order_id: OrderId,
    pub user_id: UserId,
    pub asset_id: AssetId,
    pub price: Option<Price>,
    pub quantity: Quantity,
    pub order_type: OrderType,
    pub side: Side,
}

/// The order after `q` more of it was filled.
pub open spec fn filled_by(o: Order, q: Quantity) -> Order {
    Order { remaining_quantity: (o.remaining_quantity - q) as Quantity, ..o }
}

/// The order after `fill(q)`: a fill larger than what remains is ignored.
pub open spec fn fill_result(o: Order, q: Quantity) -> Order {
    if q > o.remaining_quantity {
        o
    } else {
        filled_by(o, q)
    }
}

/// The order after fills of each quantity in `qs`, in turn.
pub open spec fn after_fills(o: Order, qs: Seq<Quantity>) -> Order
    decreases qs.len(),
{
    if qs.len() == 0 {
        o
    } else {
        after_fills(fill_result(o, qs[0]), qs.drop_first())
    }
}

/// The total of the fills in `qs` that were taken: each one no larger than what remained
/// when it came.
pub open spec fn accepted_fills(o: Order, qs: Seq<Quantity>) -> int
    decreases qs.len(),
{
    if qs.len() == 0 {
        0
    } else {
        (if qs[0] <= o.remaining_quantity {
            qs[0] as int
        } else {
            0
        }) + accepted_fills(fill_result(o, qs[0]), qs.drop_first())
    }
}

/// What a run of fills leaves: the filled quantity grows by exactly the fills that were
/// taken (a fill larger than what remains changes nothing), it never passes the initial
/// quantity, and nothing but the remaining quantity changes.
pub proof fn law_fills_add_up(o: Order, qs: Seq<Quantity>)
    requires
        o.remaining_quantity <= o.initial_quantity,
    ensures
        after_fills(o, qs).remaining_quantity <= after_fills(o, qs).initial_quantity,
        after_fills(o, qs).initial_quantity - after_fills(o, qs).remaining_quantity == (o.initial_quantity
            - o.remaining_quantity) + accepted_fills(o, qs),
        after_fills(o, qs) == (Order { remaining_quantity: after_fills(o, qs).remaining_quantity, ..o }),
    decreases qs.len(),
{
    if qs.len() > 0 {
        law_fills_add_up(fill_result(o, qs[0]), qs.drop_first());
    }
}

/// The order an accepted request becomes: nothing of it filled yet.
pub open spec fn order_of_request(n: NewOrder) -> Order {
    Order {
        order_id: n.order_id,
        user_id: n.user_id,
        asset_id: n.asset_id,
        price: n.price,
        initial_quantity: n.quantity,
        remaining_quantity: n.quantity,
        order_type: n.order_type,
        side: n.side,
    }
}

impl Order {
    pub fn new(
        order_id: OrderId,
        user_id: UserId,
        asset_id: AssetId,
        side: Side,
        price: Price,
        quantity: Quantity,
        order_type: OrderType,
    ) -> (r: Self)
        ensures
            r == (Order {
                order_id,
                user_id,
                asset_id,
                price: Some(price),
                initial_quantity: quantity,
                remaining_quantity: quantity,
                order_type,
                side,
            }),
    {
        Self {
            order_id,
            user_id,
            asset_id,
            price: Some(price),
            initial_quantity: quantity,
            remaining_quantity: quantity,
            order_type,
            side,
        }
    }

    /// A market order: it carries no price, and its type is `Market` whatever is asked.
    pub fn new_market_order(
        order_id: OrderId,
        user_id: UserId,
        asset_id: AssetId,
        side: Side,
        quantity: Quantity,
        _order_type: OrderType,
    ) -> (r: Self)
        ensures
            r == (Order {
                order_id,
                user_id,
                asset_id,
                price: None,
                initial_quantity: quantity,
                remaining_quantity: quantity,
                order_type: OrderType::Market,
                side,
            }),
    {
        let order_type = OrderType::Market;
        let price = None;
        Self {
            order_id,
            user_id,
            asset_id,
            price,
            initial_quantity: quantity,
            remaining_quantity: quantity,
            order_type,
            side,
        }
    }

    pub fn get_order_id(&self) -> (r: OrderId)
        ensures
            r == self.order_id,
    {
        self.order_id
    }

    pub fn get_user_id(&self) -> (r: UserId)
        ensures
            r == self.user_id,
    {
        self.user_id
    }

    pub fn get_asset_id(&self) -> (r: AssetId)
        ensures
            r == self.asset_id,
    {
        self.asset_id
    }

    pub fn get_side(&self) -> (r: Side)
        ensures
            r == self.side,
    {
        self.side
    }

    /// The limit price; an order without one (a market order) has none to give.
    pub fn get_price(&self) -> (r: Price)
        requires
            self.price is Some,
        ensures
            r == self.price->0,
    {
        self.price.unwrap()
    }

    pub fn get_order_type(&self) -> (r: OrderType)
        ensures
            r == self.order_type,
    {
        self.order_type
    }

    pub fn get_initial_quantity(&self) -> (r: Quantity)
        ensures
            r == self.initial_quantity,
    {
        self.initial_quantity
    }

    pub fn get_remaining_quantity(&self) -> (r: Quantity)
        ensures
            r == self.remaining_quantity,
    {
        self.remaining_quantity
    }

    pub fn get_filled_quantity(&self) -> (r: Quantity)
        requires
            self.remaining_quantity <= self.initial_quantity,
        ensures
            r == self.initial_quantity - self.remaining_quantity,
    {
        self.initial_quantity - self.remaining_quantity
    }

    /// Fills `quantity` more of the order; a fill larger than what remains is refused
    /// and leaves the order as it was.
    pub fn fill(&mut self, quantity: Quantity)
        ensures
            quantity > old(self).remaining_quantity ==> *final(self) == *old(self),
            quantity <= old(self).remaining_quantity ==> *final(self) == filled_by(*old(self), quantity),
    {
        if quantity > self.get_remaining_quantity() {
            return;
        }
        self.remaining_quantity = self.remaining_quantity - quantity;
    }

    pub fn is_filled(&self) -> (r: bool)
        ensures
            r == (self.remaining_quantity == 0),
    {
        self.get_remaining_quantity() == 0
    }

    /// Turns the order into a good-till-cancel order at `price`.
    pub fn to_good_till_cancel(&mut self, price: Price)
        ensures
            *final(self) == (Order {
                order_type: OrderType::GoodTillCancel,
                price: Some(price),
                ..*old(self)
            }),
    {
        self.order_type = OrderType::GoodTillCancel;
        self.price = Some(price);
    }
}

/// A request to replace a resting order with a new price, quantity and side.
#[derive(Debug, Copy, Clone, PartialEq, Eq, Structural)]
pub struct ModifyOrder {
    pub order_type: OrderType,
    pub order_id: OrderId,
    pub side: Side,
    pub price: Price,
    pub quantity: Quantity,
}

/// The fresh order a modification places, of the given type; it belongs to no user or asset.
pub open spec fn order_of_modification(m: ModifyOrder, order_type: OrderType) -> Order {
    Order {
        order_id: m.order_id,
        user_id: 0,
        asset_id: 0,
        price: Some(m.price),
        initial_quantity: m.quantity,
        remaining_quantity: m.quantity,
        order_type,
        side: m.side,
    }
}

impl ModifyOrder {
    pub fn get_order_id(&self) -> (r: OrderId)
        ensures
            r == self.order_id,
    {
        self.order_id
    }

    pub fn get_side(&self) -> (r: Side)
        ensures
            r == self.side,
    {
        self.side
    }

    pub fn get_price(&self) -> (r: Price)
        ensures
            r == self.price,
    {
        self.price
    }

    pub fn get_quantity(&self) -> (r: Quantity)
        ensures
            r == self.quantity,
    {
        self.quantity
    }

    /// The order this modification places, with the type of the order it replaces.
    pub fn to_order_pointer(&self, order_type: OrderType) -> (r: Order)
        ensures
            r == order_of_modification(*self, order_type),
    {
        Order {
            order_id: self.get_order_id(),
            user_id: 0,
            asset_id: 0,
            price: Some(self.get_price()),
            initial_quantity: self.get_quantity(),
            remaining_quantity: self.get_quantity(),
            order_type,
            side: self.get_side(),
        }
    }
}

impl From<NewOrder> for Order {
    fn from(new_order: NewOrder) -> (r: Self) {
        Self {
            order_id: new_order.order_id,
            user_id: new_order.user_id,
            asset_id: new_order.asset_id,
            price: new_order.price,
            initial_quantity: new_order.quantity,
            remaining_quantity: new_order.quantity,
            order_type: new_order.order_type,
            side: new_order.side,
        }
    }
}

impl vstd::std_specs::convert::FromSpecImpl<NewOrder> for Order {
    open spec fn obeys_from_spec() -> bool {
        true
    }

    open spec fn from_spec(v: NewOrder) -> Order {
        order_of_request(v)
    }
}

} // verus!
