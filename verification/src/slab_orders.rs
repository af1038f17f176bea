//! Orders kept in a `slab::Slab`, reached through the few slab operations a
//! price level needs. Each wrapper states what slab's source shows the call does
//! to the occupied entries; nothing here is proved.
use vstd::prelude::*;

use crate::orders::Order;
use slab::Slab;

verus! {

#[verifier::external_type_specification]
#[verifier::external_body]
#[verifier::reject_recursive_types(T)]
pub struct ExSlab<T>(slab::Slab<T>);

/// The occupied entries of a slab of orders: each key with the order stored under it.
pub uninterp spec fn slab_entries(s: Slab<Order>) -> Map<usize, Order>;

/// `Slab::new`: a slab with no occupied entry.
#[verifier::external_body]
pub(crate) fn slab_new() -> (created: Slab<Order>)
    ensures
        slab_entries(created).is_empty(),
{
    Slab::new()
}

/// `Slab::insert`: stores the order under a key that was vacant, and returns that key.
#[verifier::external_body]
pub(crate) fn slab_insert(s: &mut Slab<Order>, order: Order) -> (key: usize)
    ensures
        !slab_entries(*old(s)).contains_key(key),
        slab_entries(*final(s)) == slab_entries(*old(s)).insert(key, order),
{
    s.insert(order)
}

/// `Slab::remove`: takes the order out of an occupied key, which becomes vacant.
#[verifier::external_body]
pub(crate) fn slab_remove(s: &mut Slab<Order>, key: usize) -> (order: Order)
    requires
        slab_entries(*old(s)).contains_key(key),
    ensures
        order == slab_entries(*old(s))[key],
        slab_entries(*final(s)) == slab_entries(*old(s)).remove(key),
{
    s.remove(key)
}

/// `Index::index` of a slab: the order stored under an occupied key.
#[verifier::external_body]
pub(crate) fn slab_get(s: &Slab<Order>, key: usize) -> (order: Order)
    requires
        slab_entries(*s).contains_key(key),
    ensures
        order == slab_entries(*s)[key],
{
    s[key]
}

/// `IndexMut::index_mut` of a slab: replaces the order stored under an occupied key.
#[verifier::external_body]
pub(crate) fn slab_set(s: &mut Slab<Order>, key: usize, order: Order)
    requires
        slab_entries(*old(s)).contains_key(key),
    ensures
        slab_entries(*final(s)) == slab_entries(*old(s)).insert(key, order),
{
    s[key] = order;
}

/// `Slab::is_empty`: whether no entry is occupied.
#[verifier::external_body]
pub(crate) fn slab_is_empty(s: &Slab<Order>) -> (r: bool)
    ensures
        r == (slab_entries(*s).dom() == Set::<usize>::empty()),
{
    s.is_empty()
}


/// `Clone::clone` of a slab: a slab with the same orders under the same keys (it clones the
/// entry vector, and an order is `Copy`, so each clone equals its original).
#[verifier::external_body]
pub(crate) fn slab_clone(s: &Slab<Order>) -> (copy: Slab<Order>)
    ensures
        slab_entries(copy) == slab_entries(*s),
{
    s.clone()
}

} // verus!
