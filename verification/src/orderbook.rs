//! The matching order book of one market.
use vstd::prelude::*;

use std::collections::HashMap;

use crate::book_model::{
    at, better, cancel_at, cancel_spec, can_match_spec, data_sub, front_after_fill, fronts_exist, has_level,
    in_book, in_levels, is_pos, lemma_levels_without, lemma_pos_of_unique, level_count, levels_without,
    add_rejected, add_result, can_fully_fill_spec, eligible, fill_range, lemma_qty_sum_empty,
    lemma_qty_sum_insert, lemma_qty_sum_mono, qty_sum, cancel_all_spec, order_in_book, book_with, data_add, fak_cleanup, insert_order, placed_order, is_insert_pos, lemma_insert_pos_unique, lemma_step_decreases, match_loop, match_orders_spec, match_step, min_q, model_wf, nonempty_levels, pos_after_removal, pos_of, sorted_levels,
    unique_within, uncrossed, law_matching_leaves_book_at_rest, law_cancel_takes_out_only_that_order,
    resting_of_type, BookModel, LevelModel,
};
use crate::orders::filled_by;
use crate::level::PriceLevel;
use crate::orders::{order_of_modification, order_of_request, ModifyOrder, NewOrder, Order, OrderIds, OrderType};
use crate::slab_orders::slab_entries;
use crate::trade_list::TradeList;
use crate::types::{OrderId, Price, Quantity, Side, Trade, TradeInfo, Trades};

verus! {

broadcast use vstd::std_specs::hash::group_hash_axioms;

/// Where a resting order is: its side and level price, and its key in that level's slab.
/// `order` is the order as it now stands.
#[derive(Clone, Copy)]
pub struct OrderEntry {
    pub order: Order,
    pub price: Price,
    pub side: Side,
    pub slab_key: usize,
}

pub type Orders = HashMap<OrderId, OrderEntry>;

/// The quantity tally kept for one price.
#[derive(Clone, Copy)]
pub struct LevelData {
    pub quantity: Quantity,
}

pub enum LevelDataAction {
    Add,
    Remove,
    Match,
}

/// Both sides of a book. `asks` is sorted by rising price and `bids` by falling price,
/// so the best level of each side comes first.
pub struct OrderBook {
    pub asks: Vec<(Price, PriceLevel)>,
    pub bids: Vec<(Price, PriceLevel)>,
    pub orders: HashMap<OrderId, OrderEntry>,
    pub data: HashMap<Price, LevelData>,
}

pub open spec fn level_model(l: (Price, PriceLevel)) -> LevelModel {
    LevelModel { price: l.0, orders: l.1.order_seq() }
}

pub open spec fn side_model(v: Seq<(Price, PriceLevel)>) -> Seq<LevelModel> {
    Seq::new(v.len(), |i: int| level_model(v[i]))
}

pub open spec fn data_model(d: Map<Price, LevelData>) -> Map<Price, Quantity> {
    d.map_values(|x: LevelData| x.quantity)
}

/// The index entry that the order at position `j` of a level should have.
pub open spec fn entry_for(side: Side, l: (Price, PriceLevel), j: int) -> OrderEntry {
    OrderEntry {
        order: slab_entries(l.1.orders)[l.1.queue@[j]],
        price: l.0,
        side,
        slab_key: l.1.queue@[j],
    }
}

pub open spec fn levels_wf(v: Seq<(Price, PriceLevel)>) -> bool {
    forall|i: int| 0 <= i < v.len() ==> (#[trigger] v[i]).1.wf()
}

/// Every order queued on this side has its entry in the index.
pub open spec fn side_indexed(v: Seq<(Price, PriceLevel)>, side: Side, orders: Map<OrderId, OrderEntry>) -> bool {
    forall|i: int, j: int|
        0 <= i < v.len() && 0 <= j < v[i].1.queue@.len() ==> {
            let e = #[trigger] entry_for(side, v[i], j);
            orders.contains_key(e.order.order_id) && orders[e.order.order_id] == e
        }
}

/// The index holds no order that is not resting.
pub open spec fn index_sound(orders: Map<OrderId, OrderEntry>, m: BookModel) -> bool {
    forall|id: OrderId| #[trigger] orders.contains_key(id) ==> in_book(m, id)
}

/// The set of ids of the resting orders.
pub open spec fn resting_ids(m: BookModel) -> Set<OrderId> {
    Set::new(|id: OrderId| in_book(m, id))
}

/// `new` is `old` after the order under `key` left level `i`: the level goes if it held
/// only that order, otherwise it keeps its price and loses that key.
pub open spec fn level_removed(old: Seq<(Price, PriceLevel)>, new: Seq<(Price, PriceLevel)>, i: int, key: usize) -> bool {
    if old[i].1.queue@.len() == 1 {
        new == old.remove(i)
    } else {
        &&& new.len() == old.len()
        &&& forall|k: int| 0 <= k < old.len() && k != i ==> new[k] == old[k]
        &&& new[i].0 == old[i].0
        &&& new[i].1.queue@ == old[i].1.queue@.remove(old[i].1.queue@.index_of(key))
        &&& slab_entries(new[i].1.orders) == slab_entries(old[i].1.orders).remove(key)
    }
}

/// The index of the level at `price`, which must exist.
fn find_level(v: &Vec<(Price, PriceLevel)>, price: Price) -> (r: usize)
    requires
        exists|i: int| 0 <= i < v@.len() && #[trigger] v@[i].0 == price,
    ensures
        r < v@.len(),
        v@[r as int].0 == price,
{
    let mut i: usize = 0;
    while i < v.len() && v[i].0 != price
        invariant
            i <= v@.len(),
            forall|k: int| 0 <= k < i ==> #[trigger] v@[k].0 != price,
            exists|k: int| 0 <= k < v@.len() && #[trigger] v@[k].0 == price,
        decreases v@.len() - i,
    {
        i = i + 1;
    }
    i
}

/// Takes the order under `key` out of level `i`, and the level out of the side if that
/// left it empty. Returns whether the level went.
fn remove_at_side(v: &mut Vec<(Price, PriceLevel)>, i: usize, key: usize) -> (emptied: bool)
    requires
        levels_wf(old(v)@),
        i < old(v)@.len(),
        old(v)@[i as int].1.queue@.contains(key),
    ensures
        levels_wf(final(v)@),
        emptied == (old(v)@[i as int].1.queue@.len() == 1),
        level_removed(old(v)@, final(v)@, i as int, key),
        side_model(final(v)@) == levels_without(
            side_model(old(v)@),
            i as int,
            old(v)@[i as int].1.queue@.index_of(key),
        ),
{
    let ghost old_v = v@;
    let ghost j = old_v[i as int].1.queue@.index_of(key);
    proof {
        assert(old_v[i as int].1.wf());
    }
    v[i].1.remove(key);
    let emptied = v[i].1.is_empty();
    if emptied {
        let _ = v.remove(i);
    }
    proof {
        let om = side_model(old_v);
        let nm = side_model(v@);
        let lw = levels_without(om, i as int, j);
        assert(0 <= j < old_v[i as int].1.queue@.len());
        assert(om[i as int].orders.len() == old_v[i as int].1.queue@.len());
        if emptied {
            assert(v@ =~= old_v.remove(i as int));
            assert forall|k: int| 0 <= k < nm.len() implies nm[k] == lw[k] by {
                if k < i {
                    assert(v@[k] == old_v[k]);
                } else {
                    assert(v@[k] == old_v[k + 1]);
                }
            }
            assert(nm =~= lw);
        } else {
            assert forall|k: int| 0 <= k < nm.len() implies nm[k] == lw[k] by {
                if k != i {
                    assert(v@[k] == old_v[k]);
                }
            }
            assert(nm =~= lw);
        }
        assert forall|k: int| 0 <= k < v@.len() implies (#[trigger] v@[k]).1.wf() by {
            if emptied {
                if k < i {
                    assert(v@[k] == old_v[k]);
                } else {
                    assert(v@[k] == old_v[k + 1]);
                }
            } else if k != i {
                assert(v@[k] == old_v[k]);
            }
        }
    }
    emptied
}

/// An index without entries for `id` still lists every order of a side that does not hold `id`.
proof fn lemma_indexed_without(v: Seq<(Price, PriceLevel)>, s: Side, orders: Map<OrderId, OrderEntry>, id: OrderId)
    requires
        side_indexed(v, s, orders),
        !in_levels(side_model(v), id),
    ensures
        side_indexed(v, s, orders.remove(id)),
{
    let m = side_model(v);
    assert forall|i: int, j: int| 0 <= i < v.len() && 0 <= j < v[i].1.queue@.len() implies {
        let e = #[trigger] entry_for(s, v[i], j);
        orders.remove(id).contains_key(e.order.order_id) && orders.remove(id)[e.order.order_id] == e
    } by {
        assert(entry_for(s, v[i], j).order == at(m, i, j));
        assert(is_pos(m, i, j));
    }
}

/// After the order at `(a, b)` of one side is cancelled and its entry leaves the index,
/// both sides are still fully indexed and the changed side is still well-formed.
proof fn lemma_after_removal(
    this_old: Seq<(Price, PriceLevel)>,
    this_new: Seq<(Price, PriceLevel)>,
    other: Seq<(Price, PriceLevel)>,
    s: Side,
    other_s: Side,
    bid_side: bool,
    orders: Map<OrderId, OrderEntry>,
    a: int,
    b: int,
)
    requires
        levels_wf(this_old),
        sorted_levels(side_model(this_old), bid_side),
        nonempty_levels(side_model(this_old)),
        unique_within(side_model(this_old)),
        side_indexed(this_old, s, orders),
        side_indexed(other, other_s, orders),
        forall|x: OrderId| !(#[trigger] in_levels(side_model(this_old), x) && in_levels(side_model(other), x)),
        is_pos(side_model(this_old), a, b),
        level_removed(this_old, this_new, a, this_old[a].1.queue@[b]),
        side_model(this_new) == levels_without(side_model(this_old), a, b),
    ensures
        side_indexed(this_new, s, orders.remove(at(side_model(this_old), a, b).order_id)),
        side_indexed(other, other_s, orders.remove(at(side_model(this_old), a, b).order_id)),
        sorted_levels(side_model(this_new), bid_side),
        nonempty_levels(side_model(this_new)),
        unique_within(side_model(this_new)),
        forall|x: OrderId|
            #[trigger] in_levels(side_model(this_new), x) <==> (in_levels(side_model(this_old), x) && x
                != at(side_model(this_old), a, b).order_id),
{
    let om = side_model(this_old);
    let id = at(om, a, b).order_id;
    let key = this_old[a].1.queue@[b];
    lemma_levels_without(om, a, b, bid_side);
    lemma_pos_of_unique(om, a, b);
    assert(this_old[a].1.wf());
    assert(this_old[a].1.queue@.index_of(key) == b) by {
        let q = this_old[a].1.queue@;
        assert(q[b] == key);
        let k = q.index_of(key);
        assert(0 <= k < q.len() && q[k] == key);
    }
    lemma_indexed_without(other, other_s, orders, id);
    let nm = side_model(this_new);
    let o2 = orders.remove(id);
    assert forall|c: int, d: int| 0 <= c < this_new.len() && 0 <= d < this_new[c].1.queue@.len() implies {
        let e = #[trigger] entry_for(s, this_new[c], d);
        o2.contains_key(e.order.order_id) && o2[e.order.order_id] == e
    } by {
        assert(is_pos(nm, c, d));
        let (x, y) = choose|x: int, y: int|
            is_pos(om, x, y) && (x, y) != (a, b) && pos_after_removal(om, a, b, x, y) == (c, d);
        assert(at(nm, c, d) == at(om, x, y));
        let q = this_old[a].1.queue@;
        if this_old[a].1.queue@.len() == 1 {
            assert(this_new[c] == this_old[x]);
        } else if x == a {
            assert(this_new[c].1.queue@[d] == q[y]);
            assert(q[y] != key);
        } else {
            assert(this_new[c] == this_old[x]);
        }
        assert(entry_for(s, this_new[c], d) == entry_for(s, this_old[x], y));
        assert(entry_for(s, this_old[x], y).order == at(om, x, y));
        assert(at(om, x, y).order_id != id);
    }
}

/// `new` is `old` with the front order of its best level replaced by `o`.
pub open spec fn front_replaced(old: Seq<(Price, PriceLevel)>, new: Seq<(Price, PriceLevel)>, o: Order) -> bool {
    &&& new.len() == old.len()
    &&& forall|k: int| 0 < k < old.len() ==> new[k] == old[k]
    &&& new[0].0 == old[0].0
    &&& new[0].1.queue@ == old[0].1.queue@
    &&& slab_entries(new[0].1.orders) == slab_entries(old[0].1.orders).insert(old[0].1.queue@[0], o)
}

/// Replacing the front order by a later state of itself (same id) keeps the side
/// well-formed and fully indexed once the index holds its new entry.
proof fn lemma_after_front_update(
    this_old: Seq<(Price, PriceLevel)>,
    this_new: Seq<(Price, PriceLevel)>,
    other: Seq<(Price, PriceLevel)>,
    s: Side,
    other_s: Side,
    bid_side: bool,
    orders: Map<OrderId, OrderEntry>,
    o: Order,
)
    requires
        levels_wf(this_old),
        levels_wf(this_new),
        sorted_levels(side_model(this_old), bid_side),
        nonempty_levels(side_model(this_old)),
        unique_within(side_model(this_old)),
        side_indexed(this_old, s, orders),
        side_indexed(other, other_s, orders),
        forall|x: OrderId| !(#[trigger] in_levels(side_model(this_old), x) && in_levels(side_model(other), x)),
        this_old.len() > 0,
        front_replaced(this_old, this_new, o),
        o.order_id == at(side_model(this_old), 0, 0).order_id,
    ensures
        side_model(this_new) == side_model(this_old).update(
            0,
            LevelModel { price: this_old[0].0, orders: side_model(this_old)[0].orders.update(0, o) },
        ),
        side_indexed(this_new, s, orders.insert(o.order_id, entry_for(s, this_new[0], 0))),
        side_indexed(other, other_s, orders.insert(o.order_id, entry_for(s, this_new[0], 0))),
        sorted_levels(side_model(this_new), bid_side),
        nonempty_levels(side_model(this_new)),
        unique_within(side_model(this_new)),
        forall|x: OrderId| #[trigger] in_levels(side_model(this_new), x) <==> in_levels(side_model(this_old), x),
{
    let om = side_model(this_old);
    let nm = side_model(this_new);
    let id = o.order_id;
    let q = this_old[0].1.queue@;
    assert(this_old[0].1.wf());
    assert(om[0].orders.len() > 0);
    let target = om.update(0, LevelModel { price: this_old[0].0, orders: om[0].orders.update(0, o) });
    assert forall|k: int| 0 <= k < nm.len() implies nm[k] == target[k] by {
        if k == 0 {
            let a = nm[0].orders;
            let b = om[0].orders.update(0, o);
            assert forall|j: int| 0 <= j < a.len() implies a[j] == b[j] by {
                if j != 0 {
                    assert(q[j] != q[0]);
                }
            }
            assert(a =~= b);
        } else {
            assert(this_new[k] == this_old[k]);
        }
    }
    assert(nm =~= target);
    assert forall|a: int, b: int| is_pos(nm, a, b) implies #[trigger] at(nm, a, b).order_id == at(om, a, b).order_id by {}
    assert forall|x: OrderId| #[trigger] in_levels(nm, x) <==> in_levels(om, x) by {
        if in_levels(nm, x) {
            let (a, b) = choose|a: int, b: int| is_pos(nm, a, b) && (#[trigger] at(nm, a, b)).order_id == x;
            assert(at(nm, a, b).order_id == at(om, a, b).order_id);
        }
        if in_levels(om, x) {
            let (a, b) = choose|a: int, b: int| is_pos(om, a, b) && (#[trigger] at(om, a, b)).order_id == x;
            assert(is_pos(nm, a, b));
            assert(at(nm, a, b).order_id == at(om, a, b).order_id);
        }
    }
    assert forall|a1: int, b1: int, a2: int, b2: int|
        is_pos(nm, a1, b1) && is_pos(nm, a2, b2) && (#[trigger] at(nm, a1, b1)).order_id == (
        #[trigger] at(nm, a2, b2)).order_id implies a1 == a2 && b1 == b2 by {
        assert(at(nm, a1, b1).order_id == at(om, a1, b1).order_id);
        assert(at(nm, a2, b2).order_id == at(om, a2, b2).order_id);
        assert(is_pos(om, a1, b1) && is_pos(om, a2, b2));
    }
    assert forall|i: int, j: int| 0 <= i < j < nm.len() implies better(
        #[trigger] nm[i].price,
        #[trigger] nm[j].price,
        bid_side,
    ) by {
        assert(nm[i].price == om[i].price && nm[j].price == om[j].price);
    }
    assert forall|i: int| 0 <= i < nm.len() implies #[trigger] nm[i].orders.len() > 0 by {
        assert(nm[i].orders.len() == om[i].orders.len());
    }
    let e = entry_for(s, this_new[0], 0);
    let o2 = orders.insert(id, e);
    assert(e.order == o);
    assert forall|i: int, j: int| 0 <= i < this_new.len() && 0 <= j < this_new[i].1.queue@.len() implies {
        let f = #[trigger] entry_for(s, this_new[i], j);
        o2.contains_key(f.order.order_id) && o2[f.order.order_id] == f
    } by {
        assert(is_pos(om, i, j));
        if i == 0 && j == 0 {
        } else {
            assert(entry_for(s, this_old[i], j).order == at(om, i, j));
            lemma_pos_of_unique(om, 0, 0);
            assert(at(om, i, j).order_id != id);
            if i == 0 {
                assert(q[j] != q[0]);
            }
            assert(entry_for(s, this_new[i], j) == entry_for(s, this_old[i], j));
        }
    }
    assert(is_pos(om, 0, 0));
    assert(in_levels(om, id));
    assert(!in_levels(side_model(other), id));
    let mo = side_model(other);
    assert forall|i: int, j: int| 0 <= i < other.len() && 0 <= j < other[i].1.queue@.len() implies {
        let f = #[trigger] entry_for(other_s, other[i], j);
        o2.contains_key(f.order.order_id) && o2[f.order.order_id] == f
    } by {
        assert(entry_for(other_s, other[i], j).order == at(mo, i, j));
        assert(is_pos(mo, i, j));
    }
}

/// Takes the front order out of the best level, and the level out of the side if that
/// left it empty. Returns whether the level went.
fn pop_front_at_side(v: &mut Vec<(Price, PriceLevel)>) -> (emptied: bool)
    requires
        levels_wf(old(v)@),
        old(v)@.len() > 0,
        old(v)@[0].1.queue@.len() > 0,
    ensures
        levels_wf(final(v)@),
        emptied == (old(v)@[0].1.queue@.len() == 1),
        level_removed(old(v)@, final(v)@, 0, old(v)@[0].1.queue@[0]),
        side_model(final(v)@) == levels_without(side_model(old(v)@), 0, 0),
{
    let ghost old_v = v@;
    let ghost key = old_v[0].1.queue@[0];
    proof {
        assert(old_v[0].1.wf());
        let q = old_v[0].1.queue@;
        let k = q.index_of(key);
        assert(q[0] == key);
        assert(0 <= k < q.len() && q[k] == key);
        assert(k == 0);
        assert(q.drop_first() =~= q.remove(0));
    }
    let _ = v[0].1.pop_front();
    let emptied = v[0].1.is_empty();
    if emptied {
        let _ = v.remove(0);
    }
    proof {
        let om = side_model(old_v);
        let nm = side_model(v@);
        let lw = levels_without(om, 0, 0);
        assert(om[0].orders.len() == old_v[0].1.queue@.len());
        assert(old_v[0].1.order_seq().drop_first() =~= old_v[0].1.order_seq().remove(0));
        if emptied {
            assert(v@ =~= old_v.remove(0));
            assert forall|k: int| 0 <= k < nm.len() implies nm[k] == lw[k] by {
                assert(v@[k] == old_v[k + 1]);
            }
            assert(nm =~= lw);
        } else {
            assert forall|k: int| 0 <= k < nm.len() implies nm[k] == lw[k] by {
                if k != 0 {
                    assert(v@[k] == old_v[k]);
                }
            }
            assert(nm =~= lw);
        }
        assert forall|k: int| 0 <= k < v@.len() implies (#[trigger] v@[k]).1.wf() by {
            if emptied {
                assert(v@[k] == old_v[k + 1]);
            } else if k != 0 {
                assert(v@[k] == old_v[k]);
            }
        }
    }
    emptied
}

fn better_exec(a: Price, b: Price, bid_side: bool) -> (r: bool)
    ensures
        r == better(a, b, bid_side),
{
    if bid_side {
        a > b
    } else {
        a < b
    }
}

/// `new` is `old` with `order` queued under `key` at level `k`, which has price `price`:
/// either the level was there and the order joins its end, or it is a new level.
pub open spec fn level_inserted(
    old: Seq<(Price, PriceLevel)>,
    new: Seq<(Price, PriceLevel)>,
    k: int,
    price: Price,
    key: usize,
    order: Order,
) -> bool {
    if k < old.len() && old[k].0 == price {
        &&& new.len() == old.len()
        &&& forall|i: int| 0 <= i < old.len() && i != k ==> new[i] == old[i]
        &&& new[k].0 == price
        &&& !old[k].1.queue@.contains(key)
        &&& new[k].1.queue@ == old[k].1.queue@.push(key)
        &&& slab_entries(new[k].1.orders) == slab_entries(old[k].1.orders).insert(key, order)
    } else {
        &&& new.len() == old.len() + 1
        &&& forall|i: int| 0 <= i < k ==> new[i] == old[i]
        &&& forall|i: int| k < i < new.len() ==> new[i] == old[i - 1]
        &&& new[k].0 == price
        &&& new[k].1.queue@ == seq![key]
        &&& slab_entries(new[k].1.orders) == Map::<usize, Order>::empty().insert(key, order)
    }
}

/// Queues `order` at `price` on a side kept in order by `bid_side`, opening a level
/// there if there is none. Returns the level's index and the order's slab key.
fn insert_into_side(v: &mut Vec<(Price, PriceLevel)>, price: Price, order: Order, bid_side: bool) -> (r: (
    usize,
    usize,
))
    requires
        levels_wf(old(v)@),
        sorted_levels(side_model(old(v)@), bid_side),
    ensures
        levels_wf(final(v)@),
        is_insert_pos(side_model(old(v)@), price, bid_side, r.0 as int),
        level_inserted(old(v)@, final(v)@, r.0 as int, price, r.1, order),
        side_model(final(v)@) == insert_order(side_model(old(v)@), price, order, bid_side),
{
    let ghost old_v = v@;
    let ghost om = side_model(old_v);
    let mut k: usize = 0;
    while k < v.len() && better_exec(v[k].0, price, bid_side)
        invariant
            v@ == old_v,
            om == side_model(old_v),
            k <= old_v.len(),
            forall|i: int| 0 <= i < k ==> better(#[trigger] om[i].price, price, bid_side),
        decreases old_v.len() - k,
    {
        k = k + 1;
    }
    proof {
        assert forall|i: int| k <= i < om.len() implies !better(#[trigger] om[i].price, price, bid_side) by {
            if i > k {
                assert(better(om[k as int].price, om[i].price, bid_side));
                assert(!better(om[k as int].price, price, bid_side));
            }
        }
        assert(is_insert_pos(om, price, bid_side, k as int));
        lemma_insert_pos_unique(om, price, bid_side, k as int);
    }
    if k < v.len() && v[k].0 == price {
        proof {
            assert(old_v[k as int].1.wf());
        }
        let key = v[k].1.insert(order);
        proof {
            let nm = side_model(v@);
            let target = insert_order(om, price, order, bid_side);
            assert forall|i: int| 0 <= i < nm.len() implies nm[i] == target[i] by {
                if i != k {
                    assert(v@[i] == old_v[i]);
                }
            }
            assert(nm =~= target);
            assert forall|i: int| 0 <= i < v@.len() implies (#[trigger] v@[i]).1.wf() by {
                if i != k {
                    assert(v@[i] == old_v[i]);
                }
            }
        }
        (k, key)
    } else {
        let mut level = PriceLevel::new();
        let key = level.insert(order);
        proof {
            assert(level.order_seq() =~= seq![order]);
            assert(level.queue@ =~= seq![key]);
            assert(slab_entries(level.orders) =~= Map::<usize, Order>::empty().insert(key, order));
        }
        v.insert(k, (price, level));
        proof {
            let nm = side_model(v@);
            let target = insert_order(om, price, order, bid_side);
            assert forall|i: int| 0 <= i < nm.len() implies nm[i] == target[i] by {
                if i < k {
                    assert(v@[i] == old_v[i]);
                } else if i > k {
                    assert(v@[i] == old_v[i - 1]);
                }
            }
            assert(nm =~= target);
            assert forall|i: int| 0 <= i < v@.len() implies (#[trigger] v@[i]).1.wf() by {
                if i < k {
                    assert(v@[i] == old_v[i]);
                } else if i > k {
                    assert(v@[i] == old_v[i - 1]);
                }
            }
        }
        (k, key)
    }
}

/// Where an order of level `i` is found after an insertion at level `k`.
pub open spec fn level_after_insert(existing: bool, k: int, i: int) -> int {
    if i < k || existing {
        i
    } else {
        i + 1
    }
}

/// Queuing a new order (one whose id rests nowhere) keeps a side well-formed, and both
/// sides stay fully indexed once the index holds the new order's entry.
proof fn lemma_after_insert(
    this_old: Seq<(Price, PriceLevel)>,
    this_new: Seq<(Price, PriceLevel)>,
    other: Seq<(Price, PriceLevel)>,
    s: Side,
    other_s: Side,
    bid_side: bool,
    orders: Map<OrderId, OrderEntry>,
    k: int,
    price: Price,
    key: usize,
    o: Order,
)
    requires
        levels_wf(this_old),
        levels_wf(this_new),
        sorted_levels(side_model(this_old), bid_side),
        nonempty_levels(side_model(this_old)),
        unique_within(side_model(this_old)),
        side_indexed(this_old, s, orders),
        side_indexed(other, other_s, orders),
        !in_levels(side_model(this_old), o.order_id),
        !in_levels(side_model(other), o.order_id),
        is_insert_pos(side_model(this_old), price, bid_side, k),
        level_inserted(this_old, this_new, k, price, key, o),
        side_model(this_new) == insert_order(side_model(this_old), price, o, bid_side),
    ensures
        side_indexed(this_new, s, orders.insert(o.order_id, OrderEntry { order: o, price, side: s, slab_key: key })),
        side_indexed(other, other_s, orders.insert(o.order_id, OrderEntry { order: o, price, side: s, slab_key: key })),
        sorted_levels(side_model(this_new), bid_side),
        nonempty_levels(side_model(this_new)),
        unique_within(side_model(this_new)),
        forall|x: OrderId|
            #[trigger] in_levels(side_model(this_new), x) <==> (in_levels(side_model(this_old), x) || x
                == o.order_id),
{
    let om = side_model(this_old);
    let nm = side_model(this_new);
    let existing = k < om.len() && om[k].price == price;
    let e = OrderEntry { order: o, price, side: s, slab_key: key };
    let o2 = orders.insert(o.order_id, e);
    let newj = if existing { om[k].orders.len() as int } else { 0int };
    // every old place has a new place holding the same order
    assert forall|i: int, j: int| #[trigger] is_pos(om, i, j) implies {
        &&& is_pos(nm, level_after_insert(existing, k, i), j)
        &&& at(nm, level_after_insert(existing, k, i), j) == at(om, i, j)
        &&& entry_for(s, this_new[level_after_insert(existing, k, i)], j) == entry_for(s, this_old[i], j)
    } by {
        let c = level_after_insert(existing, k, i);
        if existing && i == k {
            assert(this_old[k].1.wf());
            assert(this_old[k].1.queue@.contains(this_old[k].1.queue@[j]));
            assert(this_new[k].1.queue@[j] == this_old[k].1.queue@[j]);
        } else {
            assert(this_new[c] == this_old[i]);
        }
    }
    // the new order's place
    assert(is_pos(nm, k, newj));
    assert(at(nm, k, newj) == o);
    assert(entry_for(s, this_new[k], newj) == e) by {
        if existing {
            assert(this_new[k].1.queue@[newj] == key);
        } else {
            assert(this_new[k].1.queue@[0] == key);
        }
    }
    // every new place is the new order's or an old one's
    assert forall|c: int, d: int| #[trigger] is_pos(nm, c, d) implies (c == k && d == newj) || exists|i: int|
        is_pos(om, i, d) && level_after_insert(existing, k, i) == c by {
        if existing {
            if !(c == k && d == newj) {
                assert(is_pos(om, c, d));
                assert(level_after_insert(existing, k, c) == c);
            }
        } else if c < k {
            assert(is_pos(om, c, d));
            assert(level_after_insert(existing, k, c) == c);
        } else if c > k {
            assert(is_pos(om, c - 1, d));
            assert(level_after_insert(existing, k, c - 1) == c);
        }
    }
    assert forall|c: int, d: int| 0 <= c < this_new.len() && 0 <= d < this_new[c].1.queue@.len() implies {
        let f = #[trigger] entry_for(s, this_new[c], d);
        o2.contains_key(f.order.order_id) && o2[f.order.order_id] == f
    } by {
        assert(is_pos(nm, c, d));
        if !(c == k && d == newj) {
            let i = choose|i: int| is_pos(om, i, d) && level_after_insert(existing, k, i) == c;
            assert(entry_for(s, this_new[c], d) == entry_for(s, this_old[i], d));
            assert(entry_for(s, this_old[i], d).order == at(om, i, d));
            assert(at(om, i, d).order_id != o.order_id);
        }
    }
    let mo = side_model(other);
    assert forall|i: int, j: int| 0 <= i < other.len() && 0 <= j < other[i].1.queue@.len() implies {
        let f = #[trigger] entry_for(other_s, other[i], j);
        o2.contains_key(f.order.order_id) && o2[f.order.order_id] == f
    } by {
        assert(entry_for(other_s, other[i], j).order == at(mo, i, j));
        assert(is_pos(mo, i, j));
    }
    assert forall|a: int, b: int| 0 <= a < b < nm.len() implies better(
        #[trigger] nm[a].price,
        #[trigger] nm[b].price,
        bid_side,
    ) by {
        if existing {
            assert(nm[a].price == om[a].price && nm[b].price == om[b].price);
        } else {
            if b < k {
                assert(nm[a] == om[a] && nm[b] == om[b]);
            } else if a > k {
                assert(nm[a] == om[a - 1] && nm[b] == om[b - 1]);
            } else if a == k {
                assert(nm[b] == om[b - 1]);
                assert(!better(om[b - 1].price, price, bid_side));
                if b - 1 > k {
                    assert(better(om[k].price, om[b - 1].price, bid_side));
                    assert(!better(om[k].price, price, bid_side));
                } else {
                    assert(om[k].price != price);
                }
            } else if b == k {
                assert(nm[a] == om[a]);
            } else {
                assert(nm[a] == om[a] && nm[b] == om[b - 1]);
            }
        }
    }
    assert forall|a: int| 0 <= a < nm.len() implies #[trigger] nm[a].orders.len() > 0 by {
        if existing {
            if a != k {
                assert(nm[a] == om[a]);
            }
        } else if a < k {
            assert(nm[a] == om[a]);
        } else if a > k {
            assert(nm[a] == om[a - 1]);
        }
    }
    assert forall|c1: int, d1: int, c2: int, d2: int|
        is_pos(nm, c1, d1) && is_pos(nm, c2, d2) && (#[trigger] at(nm, c1, d1)).order_id == (
        #[trigger] at(nm, c2, d2)).order_id implies c1 == c2 && d1 == d2 by {
        let n1 = c1 == k && d1 == newj;
        let n2 = c2 == k && d2 == newj;
        if !n1 {
            let i1 = choose|i: int| is_pos(om, i, d1) && level_after_insert(existing, k, i) == c1;
            assert(at(nm, c1, d1) == at(om, i1, d1));
            if !n2 {
                let i2 = choose|i: int| is_pos(om, i, d2) && level_after_insert(existing, k, i) == c2;
                assert(at(nm, c2, d2) == at(om, i2, d2));
                assert(i1 == i2);
            } else {
                assert(at(om, i1, d1).order_id != o.order_id);
            }
        } else if !n2 {
            let i2 = choose|i: int| is_pos(om, i, d2) && level_after_insert(existing, k, i) == c2;
            assert(at(nm, c2, d2) == at(om, i2, d2));
            assert(at(om, i2, d2).order_id != o.order_id);
        }
    }
    assert forall|x: OrderId| #[trigger] in_levels(nm, x) <==> (in_levels(om, x) || x == o.order_id) by {
        if in_levels(nm, x) {
            let (c, d) = choose|c: int, d: int| is_pos(nm, c, d) && (#[trigger] at(nm, c, d)).order_id == x;
            if !(c == k && d == newj) {
                let i = choose|i: int| is_pos(om, i, d) && level_after_insert(existing, k, i) == c;
                assert(at(nm, c, d) == at(om, i, d));
            }
        }
        if in_levels(om, x) {
            let (i, j) = choose|i: int, j: int| is_pos(om, i, j) && (#[trigger] at(om, i, j)).order_id == x;
            assert(at(nm, level_after_insert(existing, k, i), j) == at(om, i, j));
        }
        if x == o.order_id {
            assert(at(nm, k, newj).order_id == x);
        }
    }
}

/// Distinct keys seen in the first `n` entries of an iteration number `n`.
proof fn lemma_seen_len(s: Seq<(&Price, &LevelData)>, seen: Set<Price>, n: int)
    requires
        0 <= n <= s.len(),
        forall|i: int, j: int| 0 <= i < j < s.len() ==> *(#[trigger] s[i]).0 != *(#[trigger] s[j]).0,
        forall|p: Price| #[trigger] seen.contains(p) <==> exists|i: int| 0 <= i < n && *(#[trigger] s[i]).0 == p,
    ensures
        seen.finite(),
        seen.len() == n,
    decreases n,
{
    if n == 0 {
        assert(seen =~= Set::<Price>::empty());
    } else {
        let p = *s[n - 1].0;
        let prev = seen.remove(p);
        assert forall|x: Price| #[trigger] prev.contains(x) <==> exists|i: int| 0 <= i < n - 1 && *(#[trigger] s[i]).0 == x by {
            if prev.contains(x) {
                let i = choose|i: int| 0 <= i < n && *(#[trigger] s[i]).0 == x;
                assert(i != n - 1);
            }
        }
        lemma_seen_len(s, prev, n - 1);
        assert(prev.insert(p) =~= seen);
    }
}

/// Whether a side has a level at `price`.
fn side_has_price(v: &Vec<(Price, PriceLevel)>, price: Price) -> (r: bool)
    ensures
        r == has_level(side_model(v@), price),
{
    let mut i: usize = 0;
    while i < v.len()
        invariant
            i <= v@.len(),
            forall|k: int| 0 <= k < i ==> #[trigger] v@[k].0 != price,
        decreases v@.len() - i,
    {
        if v[i].0 == price {
            assert(side_model(v@)[i as int].price == price);
            return true;
        }
        i = i + 1;
    }
    assert forall|k: int| 0 <= k < side_model(v@).len() implies #[trigger] side_model(v@)[k].price != price by {
        assert(v@[k].0 != price);
    }
    false
}

/// Two sides with the same prices and, level by level, the same queued keys and stored orders.
pub open spec fn same_side(a: Seq<(Price, PriceLevel)>, b: Seq<(Price, PriceLevel)>) -> bool {
    &&& a.len() == b.len()
    &&& forall|i: int|
        0 <= i < a.len() ==> (#[trigger] a[i]).0 == b[i].0 && a[i].1.queue@ == b[i].1.queue@
            && slab_entries(a[i].1.orders) == slab_entries(b[i].1.orders)
}

/// Sides alike level by level have the same model, invariant and index entries.
proof fn lemma_same_side(a: Seq<(Price, PriceLevel)>, b: Seq<(Price, PriceLevel)>)
    requires
        same_side(a, b),
    ensures
        side_model(a) == side_model(b),
        levels_wf(a) == levels_wf(b),
        forall|s: Side, o: Map<OrderId, OrderEntry>| side_indexed(a, s, o) == side_indexed(b, s, o),
{
    assert forall|i: int| 0 <= i < a.len() implies level_model(#[trigger] a[i]) == level_model(b[i]) by {
        assert(a[i].1.order_seq() =~= b[i].1.order_seq());
    }
    assert(side_model(a) =~= side_model(b));
    assert forall|i: int| 0 <= i < a.len() implies (#[trigger] a[i]).1.wf() == b[i].1.wf() by {}
    if levels_wf(a) {
        assert forall|i: int| 0 <= i < b.len() implies (#[trigger] b[i]).1.wf() by {
            assert(a[i].1.wf());
        }
    }
    if levels_wf(b) {
        assert forall|i: int| 0 <= i < a.len() implies (#[trigger] a[i]).1.wf() by {
            assert(b[i].1.wf());
        }
    }
    assert forall|s: Side, o: Map<OrderId, OrderEntry>| side_indexed(a, s, o) == side_indexed(b, s, o) by {
        assert forall|i: int, j: int| 0 <= i < a.len() && 0 <= j < a[i].1.queue@.len() implies #[trigger] entry_for(s, a[i], j)
            == entry_for(s, b[i], j) by {}
        if side_indexed(a, s, o) {
            assert forall|i: int, j: int| 0 <= i < b.len() && 0 <= j < b[i].1.queue@.len() implies {
                let e = #[trigger] entry_for(s, b[i], j);
                o.contains_key(e.order.order_id) && o[e.order.order_id] == e
            } by {
                assert(entry_for(s, a[i], j) == entry_for(s, b[i], j));
            }
        }
        if side_indexed(b, s, o) {
            assert forall|i: int, j: int| 0 <= i < a.len() && 0 <= j < a[i].1.queue@.len() implies {
                let e = #[trigger] entry_for(s, a[i], j);
                o.contains_key(e.order.order_id) && o[e.order.order_id] == e
            } by {
                assert(entry_for(s, a[i], j) == entry_for(s, b[i], j));
            }
        }
    }
}

/// A copy of one side, level by level.
fn duplicate_side(v: &Vec<(Price, PriceLevel)>) -> (r: Vec<(Price, PriceLevel)>)
    ensures
        same_side(r@, v@),
{
    let mut r: Vec<(Price, PriceLevel)> = Vec::new();
    let mut i: usize = 0;
    while i < v.len()
        invariant
            i <= v@.len(),
            r@.len() == i,
            forall|k: int|
                0 <= k < i ==> (#[trigger] r@[k]).0 == v@[k].0 && r@[k].1.queue@ == v@[k].1.queue@
                    && slab_entries(r@[k].1.orders) == slab_entries(v@[k].1.orders),
        decreases v@.len() - i,
    {
        let level = v[i].1.duplicate();
        r.push((v[i].0, level));
        i = i + 1;
    }
    r
}

impl OrderBook {
    pub open spec fn model(&self) -> BookModel {
        BookModel {
            bids: side_model(self.bids@),
            asks: side_model(self.asks@),
            data: data_model(self.data@),
        }
    }

    /// The book's invariant: a well-formed model, well-formed levels, and an index that
    /// lists exactly the resting orders with their places.
    pub open spec fn wf(&self) -> bool {
        &&& model_wf(self.model())
        &&& levels_wf(self.bids@)
        &&& levels_wf(self.asks@)
        &&& side_indexed(self.bids@, Side::Buy, self.orders@)
        &&& side_indexed(self.asks@, Side::Sell, self.orders@)
        &&& index_sound(self.orders@, self.model())
    }

    /// A copy of the book: the same levels, orders, index and tallies.
    pub fn duplicate(&self) -> (r: Self)
        requires
            self.wf(),
        ensures
            r.wf(),
            r.model() == self.model(),
    {
        let bids = duplicate_side(&self.bids);
        let asks = duplicate_side(&self.asks);
        let r = OrderBook { asks, bids, orders: self.orders.clone(), data: self.data.clone() };
        proof {
            lemma_same_side(r.bids@, self.bids@);
            lemma_same_side(r.asks@, self.asks@);
            assert(r.model() == self.model());
        }
        r
    }

    pub fn new() -> (r: Self)
        ensures
            r.wf(),
            r.model() == (BookModel {
                bids: Seq::empty(),
                asks: Seq::empty(),
                data: Map::empty(),
            }),
    {
        let r = Self { bids: Vec::new(), asks: Vec::new(), orders: HashMap::new(), data: HashMap::new() };
        assert(r.model().bids =~= Seq::<LevelModel>::empty());
        assert(r.model().asks =~= Seq::<LevelModel>::empty());
        assert(r.model().data =~= Map::<Price, Quantity>::empty());
        r
    }

    /// The number of resting orders.
    pub fn len(&self) -> (r: usize)
        requires
            self.wf(),
        ensures
            r == resting_ids(self.model()).len(),
    {
        proof {
            self.lemma_index_is_resting_ids();
        }
        self.orders.len()
    }

    /// True when either side has no order (or the book holds none).
    pub fn is_empty(&self) -> (r: bool)
        requires
            self.wf(),
        ensures
            r == (self.model().asks.len() == 0 || self.model().bids.len() == 0),
    {
        if self.asks.len() == 0 || self.bids.len() == 0 {
            return true;
        }
        proof {
            let l = self.bids@[0];
            assert(self.model().bids[0].orders.len() > 0);
            assert(l.1.queue@.len() > 0);
            assert(entry_for(Side::Buy, l, 0) == entry_for(Side::Buy, self.bids@[0], 0));
            assert(self.orders@.contains_key(entry_for(Side::Buy, l, 0).order.order_id));
        }
        if self.orders.is_empty() {
            return true;
        }
        false
    }

    /// Whether an order on `side` at `price` would cross the best opposite price.
    pub fn can_match(&self, side: Side, price: Price) -> (r: bool)
        ensures
            r == can_match_spec(self.model(), side, price),
    {
        match side {
            Side::Buy => {
                if self.asks.len() == 0 {
                    return false;
                }
                price >= self.asks[0].0
            },
            Side::Sell => {
                if self.bids.len() == 0 {
                    return false;
                }
                price <= self.bids[0].0
            },
        }
    }

    /// Takes `quantity` off the tally at `price`, if that price has one.
    pub fn on_order_cancelled(&mut self, price: Price, quantity: Quantity)
        requires
            data_sub(data_model(old(self).data@), price, quantity) is Some,
        ensures
            data_model(final(self).data@) == data_sub(data_model(old(self).data@), price, quantity)->0,
            final(self).bids == old(self).bids,
            final(self).asks == old(self).asks,
            final(self).orders == old(self).orders,
    {
        let q = match self.data.get(&price) {
            Some(level_data) => level_data.quantity,
            None => {
                return;
            },
        };
        self.data.insert(price, LevelData { quantity: q - quantity });
        assert(data_model(self.data@) =~= data_sub(data_model(old(self).data@), price, quantity)->0);
    }

    /// Cancels the resting order `order_id`; returns whether there was one. Its level goes
    /// when it empties, taking its tally with it; otherwise the remainder leaves the tally.
    pub fn cancel_order(&mut self, order_id: OrderId) -> (r: bool)
        requires
            old(self).wf(),
            cancel_spec(old(self).model(), order_id, true) is Some,
        ensures
            final(self).wf(),
            r == in_book(old(self).model(), order_id),
            final(self).model() == cancel_spec(old(self).model(), order_id, true)->0,
            uncrossed(old(self).model()) ==> uncrossed(final(self).model()),
    {        self.cancel_order_with(order_id, true)
    }

    /// `cancel_order`, with the tallies kept only where `tally` holds.
    pub(crate) fn cancel_order_with(&mut self, order_id: OrderId, tally: bool) -> (r: bool)
        requires
            old(self).wf(),
            cancel_spec(old(self).model(), order_id, tally) is Some,
        ensures
            final(self).wf(),
            r == in_book(old(self).model(), order_id),
            final(self).model() == cancel_spec(old(self).model(), order_id, tally)->0,
            uncrossed(old(self).model()) ==> uncrossed(final(self).model()),
    {
        let ghost om = self.model();
        proof {
            law_cancel_takes_out_only_that_order(om, order_id, tally);
        }
        let ghost old_orders = self.orders@;
        let entry = match self.orders.remove(&order_id) {
            Some(e) => e,
            None => {
                proof {
                    if in_book(om, order_id) {
                        self.lemma_index_is_resting_ids();
                        assert(resting_ids(om).contains(order_id));
                    }
                    assert(self.orders@ =~= old_orders);
                }
                return false;
            },
        };
        let remaining = entry.order.remaining_quantity;
        let price = entry.price;
        let ghost old_bids = self.bids@;
        let ghost old_asks = self.asks@;
        proof {
            assert(old_orders.contains_key(order_id));
            assert(in_book(om, order_id));
        }
        let emptied;
        match entry.side {
            Side::Buy => {
                let ghost (a, b) = choose|a: int, b: int| is_pos(om.bids, a, b) && (#[trigger] at(om.bids, a, b)).order_id == order_id;
                proof {
                    if in_levels(om.asks, order_id) {
                        let (x, y) = choose|x: int, y: int| is_pos(om.asks, x, y) && (#[trigger] at(om.asks, x, y)).order_id == order_id;
                        assert(entry_for(Side::Sell, old_asks[x], y).order == at(om.asks, x, y));
                        assert(old_orders[order_id] == entry_for(Side::Sell, old_asks[x], y));
                        assert(false);
                    }
                    assert(in_levels(om.bids, order_id));
                    assert(entry_for(Side::Buy, old_bids[a], b).order == at(om.bids, a, b));
                    assert(entry == entry_for(Side::Buy, old_bids[a], b));
                    assert(old_bids[a].1.wf());
                    assert(old_bids[a].1.queue@.contains(entry.slab_key)) by {
                        assert(old_bids[a].1.queue@[b] == entry.slab_key);
                    }
                }
                let i = find_level(&self.bids, price);
                proof {
                    if i != a {
                        if i < a {
                            assert(om.bids[i as int].price > om.bids[a].price);
                        } else {
                            assert(om.bids[a].price > om.bids[i as int].price);
                        }
                    }
                }
                emptied = remove_at_side(&mut self.bids, i, entry.slab_key);
                proof {
                    lemma_after_removal(old_bids, self.bids@, old_asks, Side::Buy, Side::Sell, true, old_orders, a, b);
                    lemma_pos_of_unique(om.bids, a, b);
                }
            },
            Side::Sell => {
                let ghost (a, b) = choose|a: int, b: int| is_pos(om.asks, a, b) && (#[trigger] at(om.asks, a, b)).order_id == order_id;
                proof {
                    if in_levels(om.bids, order_id) {
                        let (x, y) = choose|x: int, y: int| is_pos(om.bids, x, y) && (#[trigger] at(om.bids, x, y)).order_id == order_id;
                        assert(entry_for(Side::Buy, old_bids[x], y).order == at(om.bids, x, y));
                        assert(old_orders[order_id] == entry_for(Side::Buy, old_bids[x], y));
                        assert(false);
                    }
                    assert(in_levels(om.asks, order_id));
                    assert(entry_for(Side::Sell, old_asks[a], b).order == at(om.asks, a, b));
                    assert(entry == entry_for(Side::Sell, old_asks[a], b));
                    assert(old_asks[a].1.wf());
                    assert(old_asks[a].1.queue@.contains(entry.slab_key)) by {
                        assert(old_asks[a].1.queue@[b] == entry.slab_key);
                    }
                }
                let i = find_level(&self.asks, price);
                proof {
                    if i != a {
                        if i < a {
                            assert(om.asks[i as int].price < om.asks[a].price);
                        } else {
                            assert(om.asks[a].price < om.asks[i as int].price);
                        }
                    }
                }
                emptied = remove_at_side(&mut self.asks, i, entry.slab_key);
                proof {
                    lemma_after_removal(old_asks, self.asks@, old_bids, Side::Sell, Side::Buy, false, old_orders, a, b);
                    lemma_pos_of_unique(om.asks, a, b);
                }
            },
        }
        if tally {
            if emptied {
                let _ = self.data.remove(&price);
                assert(data_model(self.data@) =~= om.data.remove(price));
            } else {
                assert(data_model(self.data@) =~= om.data);
            }
            self.on_order_cancelled(price, remaining);
        }
        proof {
            let nm = self.model();
            assert(self.orders@ =~= old_orders.remove(order_id));
            assert forall|x: OrderId| #[trigger] self.orders@.contains_key(x) implies in_book(nm, x) by {
                assert(old_orders.contains_key(x));
                assert(in_book(om, x));
            }
            assert forall|x: OrderId| !(#[trigger] in_levels(nm.bids, x) && in_levels(nm.asks, x)) by {
                assert(!(in_levels(om.bids, x) && in_levels(om.asks, x)));
            }
        }
        true
    }

    /// Takes `quantity` off the tally at `price`, if that price has one.
    pub fn on_order_matched(&mut self, price: Price, quantity: Quantity)
        requires
            data_sub(data_model(old(self).data@), price, quantity) is Some,
        ensures
            data_model(final(self).data@) == data_sub(data_model(old(self).data@), price, quantity)->0,
            final(self).bids == old(self).bids,
            final(self).asks == old(self).asks,
            final(self).orders == old(self).orders,
    {
        let q = match self.data.get(&price) {
            Some(level_data) => level_data.quantity,
            None => {
                return;
            },
        };
        self.data.insert(price, LevelData { quantity: q - quantity });
        assert(data_model(self.data@) =~= data_sub(data_model(old(self).data@), price, quantity)->0);
    }

    /// Writes the filled front order of one side back: a filled order leaves its level (and an
    /// emptied level leaves the side, its tally going unless the other side has a level at
    /// `stale`); an unfilled one stays in place with its new remainder.
    fn apply_front_fill(&mut self, is_bid: bool, o: Order, stale: Price, tally: bool)
        requires
            old(self).wf(),
            is_bid ==> old(self).model().bids.len() > 0 && o.order_id == at(old(self).model().bids, 0, 0).order_id,
            !is_bid ==> old(self).model().asks.len() > 0 && o.order_id == at(old(self).model().asks, 0, 0).order_id,
        ensures
            final(self).wf(),
            is_bid ==> {
                &&& final(self).model().bids == front_after_fill(old(self).model().bids, o)
                &&& final(self).model().asks == old(self).model().asks
                &&& final(self).model().data == if tally && o.remaining_quantity == 0
                    && old(self).model().bids[0].orders.len() == 1 && !has_level(
                    old(self).model().asks,
                    stale,
                ) {
                    old(self).model().data.remove(stale)
                } else {
                    old(self).model().data
                }
            },
            !is_bid ==> {
                &&& final(self).model().asks == front_after_fill(old(self).model().asks, o)
                &&& final(self).model().bids == old(self).model().bids
                &&& final(self).model().data == if tally && o.remaining_quantity == 0
                    && old(self).model().asks[0].orders.len() == 1 && !has_level(
                    old(self).model().bids,
                    stale,
                ) {
                    old(self).model().data.remove(stale)
                } else {
                    old(self).model().data
                }
            },
    {
        let ghost om = self.model();
        let ghost old_orders = self.orders@;
        let ghost old_bids = self.bids@;
        let ghost old_asks = self.asks@;
        proof {
            assert(is_pos(om.bids, 0, 0) || !is_bid);
            assert(is_pos(om.asks, 0, 0) || is_bid);
        }
        if is_bid {
            proof {
                assert(old_bids[0].1.queue@.len() == om.bids[0].orders.len());
            }
            if o.remaining_quantity == 0 {
                let emptied = pop_front_at_side(&mut self.bids);
                if tally && emptied {
                    if !side_has_price(&self.asks, stale) {
                        let _ = self.data.remove(&stale);
                        assert(data_model(self.data@) =~= om.data.remove(stale));
                    }
                }
                let _ = self.orders.remove(&o.order_id);
                proof {
                    lemma_after_removal(old_bids, self.bids@, old_asks, Side::Buy, Side::Sell, true, old_orders, 0, 0);
                    assert(self.orders@ =~= old_orders.remove(o.order_id));
                }
            } else {
                self.bids[0].1.set_front(o);
                let key = self.bids[0].1.queue[0];
                let p = self.bids[0].0;
                proof {
                    assert(front_replaced(old_bids, self.bids@, o));
                    assert forall|k: int| 0 <= k < self.bids@.len() implies (#[trigger] self.bids@[k]).1.wf() by {
                        if k != 0 {
                            assert(self.bids@[k] == old_bids[k]);
                        }
                    }
                    lemma_after_front_update(old_bids, self.bids@, old_asks, Side::Buy, Side::Sell, true, old_orders, o);
                    assert(OrderEntry { order: o, price: p, side: Side::Buy, slab_key: key } == entry_for(Side::Buy, self.bids@[0], 0));
                }
                let _ = self.orders.insert(o.order_id, OrderEntry { order: o, price: p, side: Side::Buy, slab_key: key });
                proof {
                    let b = om.bids;
                    assert(self.model().bids =~= front_after_fill(b, o));
                }
            }
        } else {
            proof {
                assert(old_asks[0].1.queue@.len() == om.asks[0].orders.len());
            }
            if o.remaining_quantity == 0 {
                let emptied = pop_front_at_side(&mut self.asks);
                if tally && emptied {
                    if !side_has_price(&self.bids, stale) {
                        let _ = self.data.remove(&stale);
                        assert(data_model(self.data@) =~= om.data.remove(stale));
                    }
                }
                let _ = self.orders.remove(&o.order_id);
                proof {
                    lemma_after_removal(old_asks, self.asks@, old_bids, Side::Sell, Side::Buy, false, old_orders, 0, 0);
                    assert(self.orders@ =~= old_orders.remove(o.order_id));
                }
            } else {
                self.asks[0].1.set_front(o);
                let key = self.asks[0].1.queue[0];
                let p = self.asks[0].0;
                proof {
                    assert(front_replaced(old_asks, self.asks@, o));
                    assert forall|k: int| 0 <= k < self.asks@.len() implies (#[trigger] self.asks@[k]).1.wf() by {
                        if k != 0 {
                            assert(self.asks@[k] == old_asks[k]);
                        }
                    }
                    lemma_after_front_update(old_asks, self.asks@, old_bids, Side::Sell, Side::Buy, false, old_orders, o);
                    assert(OrderEntry { order: o, price: p, side: Side::Sell, slab_key: key } == entry_for(Side::Sell, self.asks@[0], 0));
                }
                let _ = self.orders.insert(o.order_id, OrderEntry { order: o, price: p, side: Side::Sell, slab_key: key });
                proof {
                    let a = om.asks;
                    assert(self.model().asks =~= front_after_fill(a, o));
                }
            }
        }
        proof {
            let nm = self.model();
            assert forall|x: OrderId| #[trigger] self.orders@.contains_key(x) implies in_book(nm, x) by {
                if x != o.order_id {
                    assert(old_orders.contains_key(x));
                    assert(in_book(om, x));
                } else {
                    assert(o.remaining_quantity != 0);
                    if is_bid {
                        assert(in_levels(om.bids, x)) by {
                            assert(is_pos(om.bids, 0, 0));
                        }
                    } else {
                        assert(in_levels(om.asks, x)) by {
                            assert(is_pos(om.asks, 0, 0));
                        }
                    }
                }
            }
            assert forall|x: OrderId| !(#[trigger] in_levels(nm.bids, x) && in_levels(nm.asks, x)) by {
                assert(!(in_levels(om.bids, x) && in_levels(om.asks, x)));
            }
        }
    }

    /// Matches the two front orders once: fills both by the smaller remainder, books the
    /// tally at the two given prices, records the trade, and writes both orders back.
    fn match_front(&mut self, bp: Price, ap: Price, trades: &mut Trades, tally: bool)
        requires
            old(self).wf(),
            old(self).bids@.len() > 0,
            old(self).asks@.len() > 0,
            match_step(old(self).model(), bp, ap, tally) is Some,
        ensures
            final(self).wf(),
            final(self).model() == (match_step(old(self).model(), bp, ap, tally)->0).0,
            final(trades).view_seq() == old(trades).view_seq().push((match_step(old(self).model(), bp, ap, tally)->0).1),
    {
        let ghost m = self.model();
        proof {
            assert(self.bids@[0].1.wf());
            assert(self.asks@[0].1.wf());
            assert(m.bids[0].orders.len() > 0);
            assert(m.asks[0].orders.len() > 0);
        }
        let b = self.bids[0].1.front().unwrap();
        let a = self.asks[0].1.front().unwrap();
        let q = if b.remaining_quantity <= a.remaining_quantity {
            b.remaining_quantity
        } else {
            a.remaining_quantity
        };
        let mut b2 = b;
        b2.fill(q);
        let mut a2 = a;
        a2.fill(q);
        if tally {
            self.on_order_matched(bp, q);
            self.on_order_matched(ap, q);
        }
        trades.push(
            Trade {
                bid_trade: TradeInfo { order_id: b.order_id, user_id: b.user_id, price: bp, quantity: q },
                ask_trade: TradeInfo { order_id: a.order_id, user_id: a.user_id, price: ap, quantity: q },
            },
        );
        proof {
            assert(q == min_q(b.remaining_quantity, a.remaining_quantity));
            assert(b2 == filled_by(b, q));
            assert(a2 == filled_by(a, q));
            assert(b == at(m.bids, 0, 0));
        }
        self.apply_front_fill(true, b2, bp, tally);
        self.apply_front_fill(false, a2, ap, tally);
    }

    /// The tally kept at `price`, if that price has one.
    fn tally_at(&self, price: Price) -> (r: Option<Quantity>)
        ensures
            r is Some == data_model(self.data@).contains_key(price),
            r matches Some(q) ==> q == data_model(self.data@)[price],
    {
        match self.data.get(&price) {
            Some(level_data) => Some(level_data.quantity),
            None => None,
        }
    }

    /// Whether matching the two front orders, booked at `bp` and `ap`, keeps both tallies in range.
    fn step_feasible(&self, bp: Price, ap: Price) -> (r: bool)
        requires
            self.wf(),
            self.bids@.len() > 0,
            self.asks@.len() > 0,
        ensures
            r == match_step(self.model(), bp, ap, true) is Some,
    {
        let ghost m = self.model();
        proof {
            assert(self.bids@[0].1.wf());
            assert(self.asks@[0].1.wf());
            assert(m.bids[0].orders.len() > 0);
            assert(m.asks[0].orders.len() > 0);
        }
        let b = self.bids[0].1.front().unwrap();
        let a = self.asks[0].1.front().unwrap();
        let q = if b.remaining_quantity <= a.remaining_quantity {
            b.remaining_quantity
        } else {
            a.remaining_quantity
        };
        proof {
            assert(q == min_q(m.bids[0].orders[0].remaining_quantity, m.asks[0].orders[0].remaining_quantity));
        }
        let tb = self.tally_at(bp);
        let after_bid = match tb {
            Some(t) => {
                if t < q {
                    return false;
                }
                Some(t - q)
            },
            None => None,
        };
        let ghost d1 = data_sub(m.data, bp, q)->0;
        let ta = if ap == bp {
            after_bid
        } else {
            self.tally_at(ap)
        };
        proof {
            assert(ta is Some == d1.contains_key(ap));
            assert(ta matches Some(t) ==> t == d1[ap]);
        }
        match ta {
            Some(t) => t >= q,
            None => true,
        }
    }

    /// Whether matching the book keeps every tally in range. The book is left in whatever state
    /// the matching reached; it is meant for a copy.
    fn dry_match(&mut self) -> (ok: bool)
        requires
            old(self).wf(),
        ensures
            ok == match_orders_spec(old(self).model(), true) is Some,
    {
        let ghost m0 = self.model();
        let mut trades = TradeList::with_capacity(0);
        if self.bids.len() > 0 && self.asks.len() > 0 {
            let bid_price = self.bids[0].0;
            let ask_price = self.asks[0].0;
            if !(bid_price < ask_price) {
                let ghost target = match_loop(m0, bid_price, ask_price, Seq::empty(), true);
                proof {
                    assert(trades.view_seq() =~= Seq::<Trade>::empty());
                }
                while self.bids.len() > 0 && self.asks.len() > 0
                    invariant
                        self.wf(),
                        match_loop(self.model(), bid_price, ask_price, trades.view_seq(), true) == target,
                        target == match_loop(m0, bid_price, ask_price, Seq::empty(), true),
                        m0.bids.len() > 0 && m0.asks.len() > 0 && m0.bids[0].price == bid_price
                            && m0.asks[0].price == ask_price,
                        bid_price >= ask_price,
                        m0 == old(self).model(),
                    decreases level_count(self.model().bids) + level_count(self.model().asks),
                {
                    let ghost m = self.model();
                    proof {
                        assert(self.bids@[0].1.wf());
                        assert(self.asks@[0].1.wf());
                        assert(m.bids[0].orders.len() > 0);
                        assert(m.asks[0].orders.len() > 0);
                        assert(fronts_exist(m));
                    }
                    if !self.step_feasible(bid_price, ask_price) {
                        proof {
                            assert(match_loop(m, bid_price, ask_price, trades.view_seq(), true) is None);
                            assert(target is None);
                            assert(match_orders_spec(m0, true) is None);
                        }
                        return false;
                    }
                    proof {
                        lemma_step_decreases(m, bid_price, ask_price, true);
                    }
                    self.match_front(bid_price, ask_price, &mut trades, true);
                }
                proof {
                    assert(!fronts_exist(self.model()));
                }
            }
        }
        let ghost m1 = self.model();
        proof {
            assert(match_orders_spec(m0, true) == match fak_cleanup(m1, true) {
                None => None,
                Some(m2) => Some((m2, trades.view_seq())),
            });
        }
        if self.bids.len() > 0 {
            proof {
                assert(self.bids@[0].1.wf());
                assert(m1.bids[0].orders.len() > 0);
            }
            let front = self.bids[0].1.front().unwrap();
            if front.order_type == OrderType::FillAndKill {
                if !self.can_cancel_order(front.order_id) {
                    return false;
                }
                let _ = self.cancel_order_with(front.order_id, true);
            }
        }
        let ghost m2 = self.model();
        if self.asks.len() > 0 {
            proof {
                assert(self.asks@[0].1.wf());
                assert(m2.asks[0].orders.len() > 0);
            }
            let front = self.asks[0].1.front().unwrap();
            if front.order_type == OrderType::FillAndKill {
                if !self.can_cancel_order(front.order_id) {
                    return false;
                }
                let _ = self.cancel_order_with(front.order_id, true);
            }
        }
        true
    }

    /// Matches the book: when the best bid reaches the best ask, front orders are matched
    /// until one side runs out; then a fill-and-kill order left at the front of either side is
    /// cancelled. Matching does not stop when the levels reached no longer cross: every trade
    /// and tally is booked at the two opening best prices, also for orders on later levels
    /// whose own prices do not cross.
    pub fn match_orders(&mut self) -> (r: Trades)
        requires
            old(self).wf(),
            match_orders_spec(old(self).model(), true) is Some,
        ensures
            final(self).wf(),
            (final(self).model(), r.view_seq()) == match_orders_spec(old(self).model(), true)->0,
            uncrossed(final(self).model()),
    {        self.match_orders_with(true)
    }

    /// `match_orders`, with the tallies kept only where `tally` holds.
    pub(crate) fn match_orders_with(&mut self, tally: bool) -> (r: Trades)
        requires
            old(self).wf(),
            match_orders_spec(old(self).model(), tally) is Some,
        ensures
            final(self).wf(),
            (final(self).model(), r.view_seq()) == match_orders_spec(old(self).model(), tally)->0,
            uncrossed(final(self).model()),
    {
        let ghost m0 = self.model();
        proof {
            law_matching_leaves_book_at_rest(m0, tally);
        }
        let mut trades = TradeList::with_capacity(self.orders.len());
        if self.bids.len() > 0 && self.asks.len() > 0 {
            let bid_price = self.bids[0].0;
            let ask_price = self.asks[0].0;
            if !(bid_price < ask_price) {
                let ghost target = match_loop(m0, bid_price, ask_price, Seq::empty(), tally);
                proof {
                    assert(trades.view_seq() =~= Seq::<Trade>::empty());
                }
                while self.bids.len() > 0 && self.asks.len() > 0
                    invariant
                        self.wf(),
                        match_loop(self.model(), bid_price, ask_price, trades.view_seq(), tally) == target,
                        target is Some,
                    decreases level_count(self.model().bids) + level_count(self.model().asks),
                {
                    let ghost m = self.model();
                    proof {
                        assert(m.bids[0].orders.len() > 0);
                        assert(m.asks[0].orders.len() > 0);
                        assert(fronts_exist(m));
                        if match_step(m, bid_price, ask_price, tally) is None {
                            assert(match_loop(m, bid_price, ask_price, trades.view_seq(), tally) is None);
                        }
                        lemma_step_decreases(m, bid_price, ask_price, tally);
                    }
                    self.match_front(bid_price, ask_price, &mut trades, tally);
                }
            }
        }
        let ghost m1 = self.model();
        if self.bids.len() > 0 {
            proof {
                assert(self.bids@[0].1.wf());
                assert(m1.bids[0].orders.len() > 0);
            }
            let front = self.bids[0].1.front().unwrap();
            if front.order_type == OrderType::FillAndKill {
                let _ = self.cancel_order_with(front.order_id, tally);
            }
        }
        let ghost m2 = self.model();
        if self.asks.len() > 0 {
            proof {
                assert(self.asks@[0].1.wf());
                assert(m2.asks[0].orders.len() > 0);
            }
            let front = self.asks[0].1.front().unwrap();
            if front.order_type == OrderType::FillAndKill {
                let _ = self.cancel_order_with(front.order_id, tally);
            }
        }
        trades
    }

    /// Adds `quantity` to the tally at `price`, if that price has one.
    pub fn on_order_added(&mut self, price: Price, quantity: Quantity)
        requires
            data_add(data_model(old(self).data@), price, quantity) is Some,
        ensures
            data_model(final(self).data@) == data_add(data_model(old(self).data@), price, quantity)->0,
            final(self).bids == old(self).bids,
            final(self).asks == old(self).asks,
            final(self).orders == old(self).orders,
    {
        let q = match self.data.get(&price) {
            Some(level_data) => level_data.quantity,
            None => {
                return;
            },
        };
        self.data.insert(price, LevelData { quantity: q + quantity });
        assert(data_model(self.data@) =~= data_add(data_model(old(self).data@), price, quantity)->0);
    }

    /// Adjusts the tally at `price`, if it has one: raised for `Add`, lowered otherwise.
    pub fn update_level_data(&mut self, price: Price, quantity: Quantity, action: LevelDataAction)
        requires
            action is Add ==> data_add(data_model(old(self).data@), price, quantity) is Some,
            !(action is Add) ==> data_sub(data_model(old(self).data@), price, quantity) is Some,
        ensures
            action is Add ==> data_model(final(self).data@) == data_add(data_model(old(self).data@), price, quantity)->0,
            !(action is Add) ==> data_model(final(self).data@) == data_sub(data_model(old(self).data@), price, quantity)->0,
            final(self).bids == old(self).bids,
            final(self).asks == old(self).asks,
            final(self).orders == old(self).orders,
    {
        if !self.data.contains_key(&price) {
            return;
        }
        match action {
            LevelDataAction::Add => {
                self.on_order_added(price, quantity);
            },
            _ => {
                self.on_order_cancelled(price, quantity);
            },
        }
    }

    /// Places an order and matches the book. It is turned away (`None`, book unchanged) when
    /// it is a market order with nothing on the other side, when its id already rests, or when
    /// it is fill-and-kill and cannot cross. Otherwise it is queued at its price (a market order
    /// as good-till-cancel at the best opposite price), the tally there opened and raised by its
    /// initial quantity, and the book matched; the trades come back.
    pub fn add_order(&mut self, order: Order) -> (r: Option<Trades>)
        requires
            old(self).wf(),
            order.price is Some,
            !add_rejected(old(self).model(), order) ==> add_result(old(self).model(), order, true) is Some,
        ensures
            final(self).wf(),
            add_rejected(old(self).model(), order) ==> r is None && final(self).model() == old(self).model(),
            !add_rejected(old(self).model(), order) ==> r is Some && (final(self).model(), r->0.view_seq())
                == add_result(old(self).model(), order, true)->0,
            !add_rejected(old(self).model(), order) ==> uncrossed(final(self).model()),
    {        self.add_order_with(order, true)
    }

    /// `add_order`, with the tallies kept only where `tally` holds.
    pub(crate) fn add_order_with(&mut self, order: Order, tally: bool) -> (r: Option<Trades>)
        requires
            old(self).wf(),
            order.price is Some,
            !add_rejected(old(self).model(), order) ==> add_result(old(self).model(), order, tally) is Some,
        ensures
            final(self).wf(),
            add_rejected(old(self).model(), order) ==> r is None && final(self).model() == old(self).model(),
            !add_rejected(old(self).model(), order) ==> r is Some && (final(self).model(), r->0.view_seq())
                == add_result(old(self).model(), order, tally)->0,
            !add_rejected(old(self).model(), order) ==> uncrossed(final(self).model()),
    {
        let ghost m = self.model();
        let ghost orig = order;
        let order_type = order.get_order_type();
        let order_id = order.get_order_id();
        let order_side = order.get_side();
        let order_price = order.get_price();
        let mut order = order;
        if order_type == OrderType::Market {
            if order_side == Side::Buy && self.asks.len() > 0 {
                let worst_ask_price = self.asks[0].0;
                order.to_good_till_cancel(worst_ask_price);
            } else if order_side == Side::Sell && self.bids.len() > 0 {
                let worst_bid_price = self.bids[0].0;
                order.to_good_till_cancel(worst_bid_price);
            } else {
                return None;
            }
        }
        proof {
            self.lemma_index_is_resting_ids();
            assert(resting_ids(m).contains(order_id) == in_book(m, order_id));
        }
        if self.orders.contains_key(&order_id) {
            return None;
        }
        if order_type == OrderType::FillAndKill && !self.can_match(order_side, order_price) {
            return None;
        }
        let ghost old_bids = self.bids@;
        let ghost old_asks = self.asks@;
        let ghost old_orders = self.orders@;
        proof {
            assert(order == placed_order(m, orig));
        }
        let slab_key;
        match order_side {
            Side::Buy => {
                let (k, key) = insert_into_side(&mut self.bids, order_price, order, true);
                slab_key = key;
                proof {
                    lemma_after_insert(old_bids, self.bids@, old_asks, Side::Buy, Side::Sell, true, old_orders, k as int, order_price, key, order);
                }
            },
            Side::Sell => {
                let (k, key) = insert_into_side(&mut self.asks, order_price, order, false);
                slab_key = key;
                proof {
                    lemma_after_insert(old_asks, self.asks@, old_bids, Side::Sell, Side::Buy, false, old_orders, k as int, order_price, key, order);
                }
            },
        }
        if tally && !self.data.contains_key(&order_price) {
            let _ = self.data.insert(order_price, LevelData { quantity: 0 });
        }
        let _ = self.orders.insert(order_id, OrderEntry { order, price: order_price, side: order_side, slab_key });
        proof {
            let nm = self.model();
            assert(data_model(self.data@) =~= (if !tally || m.data.contains_key(order_price) { m.data } else { m.data.insert(order_price, 0) }));
            assert forall|x: OrderId| #[trigger] self.orders@.contains_key(x) implies in_book(nm, x) by {
                if x != order_id {
                    assert(old_orders.contains_key(x));
                    assert(in_book(m, x));
                }
            }
            assert forall|x: OrderId| !(#[trigger] in_levels(nm.bids, x) && in_levels(nm.asks, x)) by {
                assert(!(in_levels(m.bids, x) && in_levels(m.asks, x)));
            }
        }
        if tally {
            self.on_order_added(order_price, order.get_initial_quantity());
        }
        proof {
            assert(Some(self.model()) == book_with(m, orig, tally));
        }
        Some(self.match_orders_with(tally))
    }

    /// Whether adding `order` keeps every tally in range: true where the book turns the order
    /// away. The book is left in whatever state the add reached; it is meant for a copy.
    fn dry_add(&mut self, order: Order) -> (ok: bool)
        requires
            old(self).wf(),
            order.price is Some,
        ensures
            ok == (!add_rejected(old(self).model(), order) ==> add_result(old(self).model(), order, true) is Some),
    {
        let ghost m = self.model();
        let ghost orig = order;
        let order_type = order.get_order_type();
        let order_id = order.get_order_id();
        let order_side = order.get_side();
        let order_price = order.get_price();
        let mut order = order;
        if order_type == OrderType::Market {
            if order_side == Side::Buy && self.asks.len() > 0 {
                let worst_ask_price = self.asks[0].0;
                order.to_good_till_cancel(worst_ask_price);
            } else if order_side == Side::Sell && self.bids.len() > 0 {
                let worst_bid_price = self.bids[0].0;
                order.to_good_till_cancel(worst_bid_price);
            } else {
                return true;
            }
        }
        proof {
            self.lemma_index_is_resting_ids();
            assert(resting_ids(m).contains(order_id) == in_book(m, order_id));
        }
        if self.orders.contains_key(&order_id) {
            return true;
        }
        if order_type == OrderType::FillAndKill && !self.can_match(order_side, order_price) {
            return true;
        }
        let ghost old_bids = self.bids@;
        let ghost old_asks = self.asks@;
        let ghost old_orders = self.orders@;
        proof {
            assert(order == placed_order(m, orig));
        }
        let slab_key;
        match order_side {
            Side::Buy => {
                let (k, key) = insert_into_side(&mut self.bids, order_price, order, true);
                slab_key = key;
                proof {
                    lemma_after_insert(old_bids, self.bids@, old_asks, Side::Buy, Side::Sell, true, old_orders, k as int, order_price, key, order);
                }
            },
            Side::Sell => {
                let (k, key) = insert_into_side(&mut self.asks, order_price, order, false);
                slab_key = key;
                proof {
                    lemma_after_insert(old_asks, self.asks@, old_bids, Side::Sell, Side::Buy, false, old_orders, k as int, order_price, key, order);
                }
            },
        }
        if !self.data.contains_key(&order_price) {
            let _ = self.data.insert(order_price, LevelData { quantity: 0 });
        }
        let _ = self.orders.insert(order_id, OrderEntry { order, price: order_price, side: order_side, slab_key });
        proof {
            let nm = self.model();
            assert(data_model(self.data@) =~= (if m.data.contains_key(order_price) { m.data } else { m.data.insert(order_price, 0) }));
            assert forall|x: OrderId| #[trigger] self.orders@.contains_key(x) implies in_book(nm, x) by {
                if x != order_id {
                    assert(old_orders.contains_key(x));
                    assert(in_book(m, x));
                }
            }
            assert forall|x: OrderId| !(#[trigger] in_levels(nm.bids, x) && in_levels(nm.asks, x)) by {
                assert(!(in_levels(m.bids, x) && in_levels(m.asks, x)));
            }
        }
        let initial = order.get_initial_quantity();
        let current = match self.tally_at(order_price) {
            Some(q) => q,
            None => 0,
        };
        if current > Quantity::MAX - initial {
            proof {
                assert(book_with(m, orig, true) is None);
            }
            return false;
        }
        self.on_order_added(order_price, initial);
        proof {
            assert(Some(self.model()) == book_with(m, orig, true));
        }
        self.dry_match()
    }


    /// Whether the book can take `order` (see `add_order`): it has a price, and, unless the book
    /// turns it away, queueing and matching it keep every price's tally in range. Tried on a
    /// copy of the book.
    pub fn can_add_order(&self, order: Order) -> (r: bool)
        requires
            self.wf(),
        ensures
            r == (order.price is Some && (!add_rejected(self.model(), order) ==> add_result(
                self.model(),
                order,
                true,
            ) is Some)),
    {
        if order.price.is_none() {
            return false;
        }
        let mut copy = self.duplicate();
        copy.dry_add(order)
    }

    /// Whether the book can carry out `modify_order` (see `modify_order`): where the order rests,
    /// cancelling it and adding its replacement keep every price's tally in range. Tried on a
    /// copy of the book.
    pub fn can_modify_order(&self, modify_order: ModifyOrder) -> (r: bool)
        requires
            self.wf(),
        ensures
            r == (in_book(self.model(), modify_order.order_id) ==> {
                let m1 = cancel_spec(self.model(), modify_order.order_id, true);
                let o = order_of_modification(
                    modify_order,
                    order_in_book(self.model(), modify_order.order_id).order_type,
                );
                &&& m1 is Some
                &&& !add_rejected(m1->0, o) ==> add_result(m1->0, o, true) is Some
            }),
    {
        let order_id = modify_order.get_order_id();
        let resting = match self.get_order(order_id) {
            Some(o) => o,
            None => {
                return true;
            },
        };
        if !self.can_cancel_order(order_id) {
            return false;
        }
        let mut copy = self.duplicate();
        let _ = copy.cancel_order(order_id);
        let replacement = modify_order.to_order_pointer(resting.get_order_type());
        copy.dry_add(replacement)
    }

    /// Places a requested order (see `add_order`).
    pub fn add_new_order(&mut self, order: NewOrder) -> (r: Option<Trades>)
        requires
            old(self).wf(),
            order.price is Some,
            !add_rejected(old(self).model(), order_of_request(order)) ==> add_result(
                old(self).model(),
                order_of_request(order),
true,
            ) is Some,
        ensures
            final(self).wf(),
            add_rejected(old(self).model(), order_of_request(order)) ==> r is None && final(self).model()
                == old(self).model(),
            !add_rejected(old(self).model(), order_of_request(order)) ==> r is Some && (
            final(self).model(),
            r->0.view_seq(),
            ) == add_result(old(self).model(), order_of_request(order), true)->0,
            !add_rejected(old(self).model(), order_of_request(order)) ==> uncrossed(final(self).model()),
    {
        let order_pointer = Order {
            order_type: order.order_type,
            order_id: order.order_id,
            user_id: order.user_id,
            asset_id: order.asset_id,
            side: order.side,
            price: order.price,
            initial_quantity: order.quantity,
            remaining_quantity: order.quantity,
        };
        self.add_order(order_pointer)
    }

    /// Replaces a resting order: `None` (book unchanged) when no order `modify_order.order_id`
    /// rests; otherwise that order is cancelled and the order the modification describes,
    /// with the cancelled order's type, is added as `add_order` does.
    pub fn modify_order(&mut self, modify_order: ModifyOrder) -> (r: Option<Trades>)
        requires
            old(self).wf(),
            in_book(old(self).model(), modify_order.order_id) ==> {
                let m1 = cancel_spec(old(self).model(), modify_order.order_id, true);
                let o = order_of_modification(
                    modify_order,
                    order_in_book(old(self).model(), modify_order.order_id).order_type,
                );
                &&& m1 is Some
                &&& !add_rejected(m1->0, o) ==> add_result(m1->0, o, true) is Some
            },
        ensures
            final(self).wf(),
            !in_book(old(self).model(), modify_order.order_id) ==> r is None && final(self).model()
                == old(self).model(),
            in_book(old(self).model(), modify_order.order_id) ==> {
                let m1 = cancel_spec(old(self).model(), modify_order.order_id, true)->0;
                let o = order_of_modification(
                    modify_order,
                    order_in_book(old(self).model(), modify_order.order_id).order_type,
                );
                &&& add_rejected(m1, o) ==> r is None && final(self).model() == m1
                &&& !add_rejected(m1, o) ==> r is Some && (final(self).model(), r->0.view_seq())
                    == add_result(m1, o, true)->0
            },
            uncrossed(old(self).model()) ==> uncrossed(final(self).model()),
    {
        let ghost m = self.model();
        proof {
            self.lemma_index_is_resting_ids();
            assert(resting_ids(m).contains(modify_order.order_id) == in_book(m, modify_order.order_id));
        }
        if !self.orders.contains_key(&modify_order.order_id) {
            return None;
        }
        let existing_order_entry = self.orders.get(&modify_order.order_id).unwrap();
        let order_type = existing_order_entry.order.get_order_type();
        proof {
            self.lemma_entry_is_order_in_book(modify_order.order_id);
        }
        let _ = self.cancel_order(modify_order.order_id);
        self.add_order(modify_order.to_order_pointer(order_type))
    }

    /// Whether matching the book keeps every tally in range (see `match_orders`). Tried on a
    /// copy of the book.
    pub fn can_match_orders(&self) -> (r: bool)
        requires
            self.wf(),
        ensures
            r == match_orders_spec(self.model(), true) is Some,
    {
        let mut copy = self.duplicate();
        copy.dry_match()
    }

    /// Whether cancelling the orders in turn keeps every tally in range (see `cancel_orders`).
    /// Tried on a copy of the book.
    pub fn can_cancel_orders(&self, order_ids: &OrderIds) -> (r: bool)
        requires
            self.wf(),
        ensures
            r == cancel_all_spec(self.model(), order_ids@, true) is Some,
    {
        let ghost target = cancel_all_spec(self.model(), order_ids@, true);
        let mut copy = self.duplicate();
        let mut i: usize = 0;
        assert(order_ids@.subrange(0, order_ids@.len() as int) =~= order_ids@);
        while i < order_ids.len()
            invariant
                copy.wf(),
                i <= order_ids@.len(),
                cancel_all_spec(copy.model(), order_ids@.subrange(i as int, order_ids@.len() as int), true) == target,
                target == cancel_all_spec(self.model(), order_ids@, true),
            decreases order_ids@.len() - i,
        {
            proof {
                let rest = order_ids@.subrange(i as int, order_ids@.len() as int);
                assert(rest[0] == order_ids@[i as int]);
                assert(rest.drop_first() =~= order_ids@.subrange(i + 1, order_ids@.len() as int));
            }
            if !copy.can_cancel_order(order_ids[i]) {
                proof {
                    assert(target is None);
                }
                return false;
            }
            let _ = copy.cancel_order(order_ids[i]);
            i = i + 1;
        }
        proof {
            assert(order_ids@.subrange(i as int, order_ids@.len() as int) =~= Seq::<OrderId>::empty());
        }
        true
    }

    /// Cancels each listed order in turn.
    pub fn cancel_orders(&mut self, order_ids: OrderIds)
        requires
            old(self).wf(),
            cancel_all_spec(old(self).model(), order_ids@, true) is Some,
        ensures
            final(self).wf(),
            final(self).model() == cancel_all_spec(old(self).model(), order_ids@, true)->0,
            uncrossed(old(self).model()) ==> uncrossed(final(self).model()),
    {
        let ghost target = cancel_all_spec(self.model(), order_ids@, true);
        let mut i: usize = 0;
        assert(order_ids@.subrange(0, order_ids@.len() as int) =~= order_ids@);
        while i < order_ids.len()
            invariant
                self.wf(),
                i <= order_ids@.len(),
                cancel_all_spec(self.model(), order_ids@.subrange(i as int, order_ids@.len() as int), true) == target,
                target is Some,
                uncrossed(old(self).model()) ==> uncrossed(self.model()),
            decreases order_ids@.len() - i,
        {
            proof {
                let rest = order_ids@.subrange(i as int, order_ids@.len() as int);
                assert(rest[0] == order_ids@[i as int]);
                assert(rest.drop_first() =~= order_ids@.subrange(i + 1, order_ids@.len() as int));
            }
            let _ = self.cancel_order(order_ids[i]);
            i = i + 1;
        }
        proof {
            assert(order_ids@.subrange(i as int, order_ids@.len() as int) =~= Seq::<OrderId>::empty());
        }
    }

    /// The ids of the resting orders of type `order_type`, each once, in no stated order.
    pub fn order_ids_of_type(&self, order_type: OrderType) -> (r: OrderIds)
        requires
            self.wf(),
        ensures
            resting_of_type(self.model(), order_type, r@),
    {
        let mut ids: OrderIds = Vec::new();
        proof {
            self.lemma_index_is_resting_ids();
        }
        for k in it: self.orders.keys()
            invariant
                self.wf(),
                self.orders@.dom() == resting_ids(self.model()),
                it.seq().unref().to_set() == self.orders@.dom(),
                it.seq().no_duplicates(),
                ids@.no_duplicates(),
                forall|x: OrderId| #[trigger] ids@.contains(x) <==> ((exists|j: int| 0 <= j < it.index() && *it.seq()[j] == x)
                    && self.orders@.contains_key(x) && self.orders@[x].order.order_type == order_type),
                it.index() == it.seq().len() ==> forall|x: OrderId| #[trigger] ids@.contains(x) <==> (self.orders@.contains_key(x)
                    && self.orders@[x].order.order_type == order_type),
        {
            assert(it.seq().unref()[it.index() as int] == *k);
            assert(it.seq().unref().to_set().contains(*k));
            let entry = self.orders.get(k).unwrap();
            if entry.order.order_type == order_type {
                proof {
                    if ids@.contains(*k) {
                        let j = choose|j: int| 0 <= j < it.index() && *it.seq()[j] == *k;
                        assert(it.seq()[j] == it.seq()[it.index() as int]);
                    }
                }
                let ghost old_ids = ids@;
                ids.push(*k);
                proof {
                    assert(*it.seq()[it.index() as int] == *k);
                    assert forall|x: OrderId| #[trigger] ids@.contains(x) <==> ((exists|j: int| 0 <= j < it.index() + 1 && *it.seq()[j] == x)
                        && self.orders@.contains_key(x) && self.orders@[x].order.order_type == order_type) by {
                        if x == *k {
                            assert(ids@[ids@.len() - 1] == x);
                        } else {
                            assert(ids@.contains(x) <==> old_ids.contains(x)) by {
                                if ids@.contains(x) {
                                    let y = choose|y: int| 0 <= y < ids@.len() && ids@[y] == x;
                                    assert(old_ids[y] == x);
                                }
                                if old_ids.contains(x) {
                                    let y = choose|y: int| 0 <= y < old_ids.len() && old_ids[y] == x;
                                    assert(ids@[y] == x);
                                }
                            }
                            if exists|j: int| 0 <= j < it.index() + 1 && *it.seq()[j] == x {
                                let j = choose|j: int| 0 <= j < it.index() + 1 && *it.seq()[j] == x;
                                assert(j < it.index());
                            }
                        }
                    }
                }
            } else {
                proof {
                    assert forall|x: OrderId| #[trigger] ids@.contains(x) <==> ((exists|j: int| 0 <= j < it.index() + 1 && *it.seq()[j] == x)
                        && self.orders@.contains_key(x) && self.orders@[x].order.order_type == order_type) by {
                        if x != *k && (exists|j: int| 0 <= j < it.index() + 1 && *it.seq()[j] == x) {
                            let j = choose|j: int| 0 <= j < it.index() + 1 && *it.seq()[j] == x;
                            assert(j < it.index());
                        }
                    }
                }
            }
            proof {
                assert forall|x: OrderId| it.index() + 1 == it.seq().len() && self.orders@.contains_key(x) implies (exists|j: int|
                    0 <= j < it.index() + 1 && *it.seq()[j] == x) by {
                    assert(it.seq().unref().to_set().contains(x));
                    assert(it.seq().unref().contains(x));
                    let j = choose|j: int| 0 <= j < it.seq().unref().len() && it.seq().unref()[j] == x;
                    assert(*it.seq()[j] == x);
                }
            }
        }
        proof {
            let m = self.model();
            assert forall|x: OrderId| #[trigger] ids@.contains(x) <==> (in_book(m, x) && order_in_book(m, x).order_type
                == order_type) by {
                if in_book(m, x) {
                    assert(resting_ids(m).contains(x));
                    self.lemma_entry_is_order_in_book(x);
                }
                if ids@.contains(x) {
                    assert(self.orders@.contains_key(x));
                    assert(resting_ids(m).contains(x));
                    self.lemma_entry_is_order_in_book(x);
                }
            }
        }
        ids
    }

    /// Whether cancelling `order_id` keeps the tally at its price in range: it does when no
    /// such order rests, when the order is alone at its level (the tally goes with the level),
    /// when the price has no tally, or when the tally covers the order's remainder.
    pub fn can_cancel_order(&self, order_id: OrderId) -> (r: bool)
        requires
            self.wf(),
        ensures
            r == cancel_spec(self.model(), order_id, true) is Some,
    {
        let ghost m = self.model();
        proof {
            self.lemma_index_is_resting_ids();
            assert(resting_ids(m).contains(order_id) == in_book(m, order_id));
        }
        let entry = match self.orders.get(&order_id) {
            Some(e) => e,
            None => {
                return true;
            },
        };
        let price = entry.price;
        let remaining = entry.order.remaining_quantity;
        let count;
        match entry.side {
            Side::Buy => {
                let ghost (a, b) = choose|a: int, b: int| is_pos(m.bids, a, b) && (#[trigger] at(m.bids, a, b)).order_id == order_id;
                proof {
                    if in_levels(m.asks, order_id) {
                        let (x, y) = choose|x: int, y: int| is_pos(m.asks, x, y) && (#[trigger] at(m.asks, x, y)).order_id == order_id;
                        assert(entry_for(Side::Sell, self.asks@[x], y).order == at(m.asks, x, y));
                        assert(false);
                    }
                    assert(entry_for(Side::Buy, self.bids@[a], b).order == at(m.bids, a, b));
                    assert(*entry == entry_for(Side::Buy, self.bids@[a], b));
                    lemma_pos_of_unique(m.bids, a, b);
                    assert(exists|k: int| 0 <= k < self.bids@.len() && #[trigger] self.bids@[k].0 == price) by {
                        assert(self.bids@[a].0 == price);
                    }
                }
                let i = find_level(&self.bids, price);
                proof {
                    if i != a {
                        if i < a {
                            assert(m.bids[i as int].price > m.bids[a].price);
                        } else {
                            assert(m.bids[a].price > m.bids[i as int].price);
                        }
                    }
                }
                count = self.bids[i].1.queue.len();
            },
            Side::Sell => {
                let ghost (a, b) = choose|a: int, b: int| is_pos(m.asks, a, b) && (#[trigger] at(m.asks, a, b)).order_id == order_id;
                proof {
                    if in_levels(m.bids, order_id) {
                        let (x, y) = choose|x: int, y: int| is_pos(m.bids, x, y) && (#[trigger] at(m.bids, x, y)).order_id == order_id;
                        assert(entry_for(Side::Buy, self.bids@[x], y).order == at(m.bids, x, y));
                        assert(false);
                    }
                    assert(entry_for(Side::Sell, self.asks@[a], b).order == at(m.asks, a, b));
                    assert(*entry == entry_for(Side::Sell, self.asks@[a], b));
                    lemma_pos_of_unique(m.asks, a, b);
                    assert(exists|k: int| 0 <= k < self.asks@.len() && #[trigger] self.asks@[k].0 == price) by {
                        assert(self.asks@[a].0 == price);
                    }
                }
                let i = find_level(&self.asks, price);
                proof {
                    if i != a {
                        if i < a {
                            assert(m.asks[i as int].price < m.asks[a].price);
                        } else {
                            assert(m.asks[a].price < m.asks[i as int].price);
                        }
                    }
                }
                count = self.asks[i].1.queue.len();
            },
        }
        if count == 1 {
            return true;
        }
        match self.data.get(&price) {
            Some(level_data) => level_data.quantity >= remaining,
            None => true,
        }
    }

    /// The order resting under `id`, if any.
    pub fn get_order(&self, id: OrderId) -> (r: Option<Order>)
        requires
            self.wf(),
        ensures
            r == (if in_book(self.model(), id) {
                Some(order_in_book(self.model(), id))
            } else {
                None
            }),
    {
        proof {
            self.lemma_index_is_resting_ids();
            assert(resting_ids(self.model()).contains(id) == in_book(self.model(), id));
            if in_book(self.model(), id) {
                self.lemma_entry_is_order_in_book(id);
            }
        }
        match self.orders.get(&id) {
            Some(entry) => Some(entry.order),
            None => None,
        }
    }

    /// Whether an order on `side` with limit `price` could be filled in full: it must cross,
    /// and the tallies at the prices from the best opposite price to its limit must include
    /// at least one and add up to at least `quantity`.
    pub fn can_fully_fill(&self, side: Side, price: Price, quantity: Quantity) -> (r: bool)
        ensures
            r == can_fully_fill_spec(self.model(), side, price, quantity),
    {
        if !self.can_match(side, price) {
            return false;
        }
        let threshold = match side {
            Side::Buy => self.asks[0].0,
            Side::Sell => self.bids[0].0,
        };
        let ghost dm = self.model().data;
        let ghost lo = fill_range(self.model(), side, price).0;
        let ghost hi = fill_range(self.model(), side, price).1;
        let ghost q0 = quantity;
        let ghost mut seen_all: Set<Price> = Set::empty();
        let ghost mut seen_elig: Set<Price> = Set::empty();
        let mut remaining = quantity;
        let iter = self.data.iter();
        proof {
            lemma_qty_sum_empty(dm);
            assert(dm.dom() =~= self.data@.dom());
            let v = vstd::std_specs::iter::IteratorSpec::remaining(&iter);
            assert forall|i: int, j: int| 0 <= i < j < v.len() implies *(#[trigger] v[i]).0 != *(#[trigger] v[j]).0 by {
                if *v[i].0 == *v[j].0 {
                    assert(self.data@[*v[i].0] == *v[i].1);
                    assert(self.data@[*v[j].0] == *v[j].1);
                    assert(v[i] == v[j]);
                }
            }
        }
        for entry in it: iter
            invariant
                dm == data_model(self.data@),
                can_match_spec(self.model(), side, price),
                lo == fill_range(self.model(), side, price).0,
                hi == fill_range(self.model(), side, price).1,
                threshold == (if side == Side::Buy { lo } else { hi }),
                forall|i: int| 0 <= i < it.seq().len() ==> dm.contains_key(#[trigger] (*it.seq()[i].0))
                    && dm[*it.seq()[i].0] == (*it.seq()[i].1).quantity,
                forall|i: int, j: int| 0 <= i < j < it.seq().len() ==> *(#[trigger] it.seq()[i]).0 != *(
                #[trigger] it.seq()[j]).0,
                it.seq().len() == dm.dom().len(),
                forall|p: Price| #[trigger] seen_all.contains(p) <==> exists|i: int|
                    0 <= i < it.index() && *(#[trigger] it.seq()[i]).0 == p,
                seen_all.finite(),
                seen_elig.finite(),
                forall|p: Price| #[trigger] seen_elig.contains(p) <==> seen_all.contains(p) && lo <= p && p <= hi,
                remaining as int == q0 - qty_sum(seen_elig, dm),
                q0 == quantity,
                (exists|p: Price| #[trigger] seen_elig.contains(p)) ==> qty_sum(seen_elig, dm) < q0,
                it.index() == it.seq().len() ==> seen_all == dm.dom(),
        {
            let (level_price, level_data) = entry;
            let lp = *level_price;
            let lq = level_data.quantity;
            let in_range = !((side == Side::Buy && threshold > lp) || (side == Side::Sell && threshold < lp))
                && !((side == Side::Buy && lp > price) || (side == Side::Sell && lp < price));
            proof {
                assert(*it.seq()[it.index()].0 == lp);
                assert(dm.contains_key(lp) && dm[lp] == lq);
                assert(!seen_all.contains(lp)) by {
                    if seen_all.contains(lp) {
                        let i = choose|i: int| 0 <= i < it.index() && *(#[trigger] it.seq()[i]).0 == lp;
                        assert(*it.seq()[i].0 != *it.seq()[it.index()].0);
                    }
                }
                assert(in_range == (lo <= lp && lp <= hi));
            }
            if in_range {
                if remaining <= lq {
                    proof {
                        lemma_qty_sum_insert(seen_elig, dm, lp);
                        let e = eligible(dm, lo, hi);
                        assert(seen_elig.insert(lp).subset_of(e));
                        assert(e.finite()) by {
                            assert(dm.dom() =~= self.data@.dom());
                            assert(e.subset_of(dm.dom()));
                            vstd::set_lib::lemma_set_subset_finite(dm.dom(), e);
                        }
                        lemma_qty_sum_mono(seen_elig.insert(lp), e, dm);
                        assert(e.contains(lp));
                        let m = self.model();
                        assert(q0 <= qty_sum(seen_elig.insert(lp), dm));
                        assert(q0 <= qty_sum(e, dm));
                        assert(e == eligible(m.data, fill_range(m, side, price).0, fill_range(m, side, price).1));
                        assert(can_fully_fill_spec(m, side, price, q0));
                    }
                    return true;
                }
                remaining = remaining - lq;
                proof {
                    lemma_qty_sum_insert(seen_elig, dm, lp);
                    seen_elig = seen_elig.insert(lp);
                }
            }
            proof {
                seen_all = seen_all.insert(lp);
                assert forall|p: Price| #[trigger] seen_all.contains(p) <==> exists|i: int|
                    0 <= i < it.index() + 1 && *(#[trigger] it.seq()[i]).0 == p by {
                    if p == lp {
                        assert(*it.seq()[it.index()].0 == p);
                    }
                }
                assert(it.index() + 1 == it.seq().len() ==> seen_all == dm.dom()) by {
                    if it.index() + 1 == it.seq().len() {
                        assert forall|p: Price| dm.dom().contains(p) implies seen_all.contains(p) by {
                            assert(seen_all.subset_of(dm.dom()));
                            if !seen_all.contains(p) {
                                assert(seen_all.len() == it.seq().len()) by {
                                    lemma_seen_len(it.seq(), seen_all, it.seq().len() as int);
                                }
                                assert(dm.dom() =~= self.data@.dom());
                                vstd::set_lib::lemma_len_subset(seen_all, dm.dom().remove(p));
                            }
                        }
                        assert(seen_all =~= dm.dom());
                    }
                }
            }
        }
        proof {
            let e = eligible(dm, lo, hi);
            assert(seen_elig =~= e);
        }
        false
    }

    /// The index entry of a resting order holds that order as it rests.
    proof fn lemma_entry_is_order_in_book(&self, id: OrderId)
        requires
            self.wf(),
            in_book(self.model(), id),
        ensures
            self.orders@.contains_key(id),
            self.orders@[id].order == order_in_book(self.model(), id),
    {
        let m = self.model();
        if in_levels(m.bids, id) {
            let (i, j) = choose|i: int, j: int| is_pos(m.bids, i, j) && (#[trigger] at(m.bids, i, j)).order_id == id;
            lemma_pos_of_unique(m.bids, i, j);
            assert(entry_for(Side::Buy, self.bids@[i], j).order == at(m.bids, i, j));
        } else {
            let (i, j) = choose|i: int, j: int| is_pos(m.asks, i, j) && (#[trigger] at(m.asks, i, j)).order_id == id;
            lemma_pos_of_unique(m.asks, i, j);
            assert(entry_for(Side::Sell, self.asks@[i], j).order == at(m.asks, i, j));
        }
    }

    proof fn lemma_index_is_resting_ids(&self)
        requires
            self.wf(),
        ensures
            self.orders@.dom() == resting_ids(self.model()),
    {
        let m = self.model();
        assert forall|id: OrderId| #[trigger] resting_ids(m).contains(id) implies self.orders@.contains_key(id) by {
            if in_levels(m.bids, id) {
                let (i, j) = choose|i: int, j: int| is_pos(m.bids, i, j) && (#[trigger] at(m.bids, i, j)).order_id == id;
                assert(entry_for(Side::Buy, self.bids@[i], j).order == at(m.bids, i, j));
            } else {
                let (i, j) = choose|i: int, j: int| is_pos(m.asks, i, j) && (#[trigger] at(m.asks, i, j)).order_id == id;
                assert(entry_for(Side::Sell, self.asks@[i], j).order == at(m.asks, i, j));
            }
        }
        assert(self.orders@.dom() =~= resting_ids(m));
    }
}

} // verus!
