use vstd::prelude::*;

use crate::types::{OrderId, Price, Quantity};

verus! {

/// Reasons an order can be refused.
#[derive(Debug, Clone, Copy, PartialEq, Eq, Structural)]
pub enum OrderError {
    ZeroPrice(Price),
    InvalidOrder(OrderId),
    ZeroQuantity(Quantity),
    OrderNotFound(OrderId),
    DuplicateOrder(OrderId),
}

} // verus!
