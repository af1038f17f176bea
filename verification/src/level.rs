use vstd::prelude::*;

use std::collections::VecDeque;

use slab::Slab;

use crate::orders::Order;
use crate::slab_orders::{slab_clone, slab_entries, slab_get, slab_insert, slab_is_empty, slab_new, slab_remove, slab_set};
use crate::types::{Price, Quantity};

verus! {

/// The total quantity resting at one price.
pub struct LevelInfo {
    pub price: Price,
    pub quantity: Quantity,
}

pub type LevelInfos = Vec<LevelInfo>;

/// A depth snapshot of both sides of a book.
pub struct OrderBookLevelInfos {
    pub bids: LevelInfos,
    pub asks: LevelInfos,
}

impl OrderBookLevelInfos {
    pub fn get_bids(&self) -> (r: &LevelInfos)
        ensures
            r == &self.bids,
    {
        &self.bids
    }

    pub fn get_asks(&self) -> (r: &LevelInfos)
        ensures
            r == &self.asks,
    {
        &self.asks
    }
}

/// The orders resting at one price, in the order they arrived. Each order sits in
/// the slab under a stable key; `queue` holds the keys, oldest first.
pub struct PriceLevel {
    pub orders: Slab<Order>,
    pub queue: VecDeque<usize>,
}

impl PriceLevel {
    /// Every queued key holds an order, every order is queued, and no key is queued twice.
    pub open spec fn wf(&self) -> bool {
        &&& self.queue@.no_duplicates()
        &&& forall|k: usize| slab_entries(self.orders).contains_key(k) <==> self.queue@.contains(k)
    }

    /// The resting orders, oldest first.
    pub open spec fn order_seq(&self) -> Seq<Order> {
        Seq::new(self.queue@.len(), |i: int| slab_entries(self.orders)[self.queue@[i]])
    }

    /// A copy of the level: the same orders under the same keys, queued in the same order.
    pub fn duplicate(&self) -> (r: Self)
        ensures
            r.queue@ == self.queue@,
            slab_entries(r.orders) == slab_entries(self.orders),
            r.order_seq() == self.order_seq(),
            r.wf() == self.wf(),
    {
        let mut queue: VecDeque<usize> = VecDeque::new();
        let mut i: usize = 0;
        while i < self.queue.len()
            invariant
                i <= self.queue@.len(),
                queue@ == self.queue@.take(i as int),
            decreases self.queue@.len() - i,
        {
            queue.push_back(self.queue[i]);
            i = i + 1;
            assert(queue@ =~= self.queue@.take(i as int));
        }
        assert(queue@ =~= self.queue@);
        let r = Self { orders: slab_clone(&self.orders), queue };
        assert(r.order_seq() =~= self.order_seq());
        r
    }

    pub fn new() -> (r: Self)
        ensures
            r.wf(),
            r.queue@ == Seq::<usize>::empty(),
            r.order_seq() == Seq::<Order>::empty(),
            slab_entries(r.orders) == Map::<usize, Order>::empty(),
    {
        let r = Self { orders: slab_new(), queue: VecDeque::new() };
        assert(r.order_seq() =~= Seq::<Order>::empty());
        assert(slab_entries(r.orders) =~= Map::<usize, Order>::empty());
        r
    }

    /// Queues `order` behind the orders already here and returns the key it is stored under.
    pub fn insert(&mut self, order: Order) -> (key: usize)
        requires
            old(self).wf(),
        ensures
            final(self).wf(),
            !old(self).queue@.contains(key),
            final(self).queue@ == old(self).queue@.push(key),
            slab_entries(final(self).orders) == slab_entries(old(self).orders).insert(key, order),
            final(self).order_seq() == old(self).order_seq().push(order),
    {
        let key = slab_insert(&mut self.orders, order);
        self.queue.push_back(key);
        proof {
            let old_q = old(self).queue@;
            assert(!old_q.contains(key));
            assert forall|a: int, b: int| 0 <= a < b < self.queue@.len() implies self.queue@[a]
                != self.queue@[b] by {
                if b == old_q.len() {
                    assert(old_q.contains(old_q[a]));
                }
            }
            let s = self.order_seq();
            let t = old(self).order_seq().push(order);
            assert forall|j: int| 0 <= j < s.len() implies s[j] == t[j] by {
                if j < old_q.len() {
                    assert(old_q.contains(old_q[j]));
                }
            }
            assert forall|k: usize|
                slab_entries(self.orders).contains_key(k) <==> self.queue@.contains(k) by {
                if k != key {
                    if old_q.contains(k) {
                        let j = choose|j: int| 0 <= j < old_q.len() && old_q[j] == k;
                        assert(self.queue@[j] == k);
                    }
                    if self.queue@.contains(k) {
                        let j = choose|j: int| 0 <= j < self.queue@.len() && self.queue@[j] == k;
                        assert(j < old_q.len());
                        assert(old_q[j] == k);
                    }
                } else {
                    assert(self.queue@[old_q.len() as int] == key);
                }
            }
            assert(self.order_seq() =~= old(self).order_seq().push(order));
        }
        key
    }

    /// Takes the order stored under `key` out of the level, wherever it is queued.
    pub fn remove(&mut self, key: usize)
        requires
            old(self).wf(),
            old(self).queue@.contains(key),
        ensures
            final(self).wf(),
            final(self).queue@ == old(self).queue@.remove(old(self).queue@.index_of(key)),
            slab_entries(final(self).orders) == slab_entries(old(self).orders).remove(key),
            final(self).order_seq() == old(self).order_seq().remove(old(self).queue@.index_of(key)),
    {
        let ghost old_q = self.queue@;
        let ghost pos = old_q.index_of(key);
        let _ = slab_remove(&mut self.orders, key);
        let mut i: usize = 0;
        while i < self.queue.len() && self.queue[i] != key
            invariant
                self.queue@ == old_q,
                0 <= i <= old_q.len(),
                forall|j: int| 0 <= j < i ==> old_q[j] != key,
            decreases old_q.len() - i,
        {
            i = i + 1;
        }
        proof {
            assert(old_q[pos] == key);
            if i >= old_q.len() {
                assert(false);
            }
            assert(i == pos) by {
                if i != pos {
                    assert(old_q[i as int] == key);
                }
            }
        }
        let _ = self.queue.remove(i);
        proof {
            let new_q = self.queue@;
            assert(new_q =~= old_q.remove(pos));
            assert forall|k: usize|
                slab_entries(self.orders).contains_key(k) <==> new_q.contains(k) by {
                if new_q.contains(k) {
                    let j = choose|j: int| 0 <= j < new_q.len() && new_q[j] == k;
                    if j < pos {
                        assert(old_q[j] == k);
                    } else {
                        assert(old_q[j + 1] == k);
                    }
                    assert(k != key);
                }
                if k != key && old_q.contains(k) {
                    let j = choose|j: int| 0 <= j < old_q.len() && old_q[j] == k;
                    assert(j != pos);
                    if j < pos {
                        assert(new_q[j] == k);
                    } else {
                        assert(new_q[j - 1] == k);
                    }
                }
            }
            assert forall|a: int, b: int| 0 <= a < b < new_q.len() implies new_q[a] != new_q[b] by {
                let oa = if a < pos { a } else { a + 1 };
                let ob = if b < pos { b } else { b + 1 };
                assert(new_q[a] == old_q[oa]);
                assert(new_q[b] == old_q[ob]);
            }
            let s = self.order_seq();
            let t = old(self).order_seq().remove(pos);
            assert forall|j: int| 0 <= j < s.len() implies s[j] == t[j] by {
                let oj = if j < pos { j } else { j + 1 };
                assert(new_q[j] == old_q[oj]);
                assert(old_q[oj] != key);
            }
            assert(s =~= t);
        }
    }

    pub fn is_empty(&self) -> (r: bool)
        requires
            self.wf(),
        ensures
            r == (self.queue@.len() == 0),
            r == (self.order_seq().len() == 0),
    {
        let r = slab_is_empty(&self.orders);
        proof {
            if self.queue@.len() > 0 {
                assert(self.queue@.contains(self.queue@[0]));
                assert(slab_entries(self.orders).dom().contains(self.queue@[0]));
            }
            if self.queue@.len() == 0 {
                assert forall|k: usize| !slab_entries(self.orders).dom().contains(k) by {
                    assert(!self.queue@.contains(k));
                }
                assert(slab_entries(self.orders).dom() =~= Set::<usize>::empty());
            }
        }
        r
    }

    /// The oldest order here, if any.
    pub fn front(&self) -> (r: Option<Order>)
        requires
            self.wf(),
        ensures
            self.order_seq().len() == 0 ==> r is None,
            self.order_seq().len() > 0 ==> r == Some(self.order_seq()[0]),
    {
        if self.queue.len() == 0 {
            return None;
        }
        let key = self.queue[0];
        assert(self.queue@.contains(key));
        Some(slab_get(&self.orders, key))
    }

    /// Takes the oldest order out of the level.
    pub fn pop_front(&mut self) -> (r: Option<Order>)
        requires
            old(self).wf(),
        ensures
            final(self).wf(),
            old(self).order_seq().len() == 0 ==> {
                &&& r is None
                &&& final(self).queue@ == old(self).queue@
                &&& slab_entries(final(self).orders) == slab_entries(old(self).orders)
                &&& final(self).order_seq() == old(self).order_seq()
            },
            old(self).order_seq().len() > 0 ==> {
                &&& r == Some(old(self).order_seq()[0])
                &&& final(self).queue@ == old(self).queue@.drop_first()
                &&& slab_entries(final(self).orders) == slab_entries(old(self).orders).remove(
                    old(self).queue@[0],
                )
                &&& final(self).order_seq() == old(self).order_seq().drop_first()
            },
    {
        let ghost old_q = self.queue@;
        let key = match self.queue.pop_front() {
            Some(k) => k,
            None => {
                return None;
            },
        };
        assert(old_q.contains(key));
        let order = slab_remove(&mut self.orders, key);
        proof {
            let new_q = self.queue@;
            assert(new_q =~= old_q.drop_first());
            assert forall|k: usize|
                slab_entries(self.orders).contains_key(k) <==> new_q.contains(k) by {
                if new_q.contains(k) {
                    let j = choose|j: int| 0 <= j < new_q.len() && new_q[j] == k;
                    assert(old_q[j + 1] == k);
                    assert(old_q[0] != old_q[j + 1]);
                }
                if k != key && old_q.contains(k) {
                    let j = choose|j: int| 0 <= j < old_q.len() && old_q[j] == k;
                    assert(j != 0);
                    assert(new_q[j - 1] == k);
                }
            }
            assert forall|a: int, b: int| 0 <= a < b < new_q.len() implies new_q[a] != new_q[b] by {
                assert(new_q[a] == old_q[a + 1]);
                assert(new_q[b] == old_q[b + 1]);
            }
            let s = self.order_seq();
            let t = old(self).order_seq().drop_first();
            assert forall|j: int| 0 <= j < s.len() implies s[j] == t[j] by {
                assert(new_q[j] == old_q[j + 1]);
                assert(old_q[j + 1] != key);
            }
            assert(s =~= t);
        }
        Some(order)
    }

    /// Replaces the oldest order with `order`, keeping its key and place.
    pub fn set_front(&mut self, order: Order)
        requires
            old(self).wf(),
            old(self).order_seq().len() > 0,
        ensures
            final(self).wf(),
            final(self).queue@ == old(self).queue@,
            slab_entries(final(self).orders) == slab_entries(old(self).orders).insert(
                old(self).queue@[0],
                order,
            ),
            final(self).order_seq() == old(self).order_seq().update(0, order),
    {
        let key = self.queue[0];
        assert(self.queue@.contains(key));
        slab_set(&mut self.orders, key, order);
        proof {
            let q = self.queue@;
            assert forall|k: usize|
                slab_entries(self.orders).contains_key(k) <==> q.contains(k) by {}
            let s = self.order_seq();
            let t = old(self).order_seq().update(0, order);
            assert forall|j: int| 0 <= j < s.len() implies s[j] == t[j] by {
                if j != 0 {
                    assert(q[j] != q[0]);
                }
            }
            assert(s =~= t);
        }
    }
}

impl Default for PriceLevel {
    fn default() -> (r: Self)
        ensures
            r.wf(),
            r.queue@ == Seq::<usize>::empty(),
    {
        Self::new()
    }
}

} // verus!
