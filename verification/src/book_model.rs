//! The mathematical model of an order book: both sides as sequences of price levels,
//! best price first, each level a first-in-first-out sequence of orders, and the
//! per-price quantity tally. The book's operations are stated here as functions on
//! the model, for a book that keeps its tallies (`tally`) and for one that does not;
//! `Option` results are `None` exactly where a tally update would leave the range of a
//! `Quantity`, so a book without tallies never meets `None`.
use vstd::prelude::*;

use crate::orders::{filled_by, Order, OrderType};
use crate::types::{OrderId, Price, Quantity, Side, Trade, TradeInfo};

verus! {

pub struct LevelModel {
    pub price: Price,
    pub orders: Seq<Order>,
}

pub struct BookModel {
    /// Buy levels, highest price first.
    pub bids: Seq<LevelModel>,
    /// Sell levels, lowest price first.
    pub asks: Seq<LevelModel>,
    /// The quantity tally kept per price.
    pub data: Map<Price, Quantity>,
}

/// Whether price `a` comes before price `b` on a side: higher first for bids, lower first for asks.
pub open spec fn better(a: Price, b: Price, bid_side: bool) -> bool {
    if bid_side {
        a > b
    } else {
        a < b
    }
}

pub open spec fn sorted_levels(levels: Seq<LevelModel>, bid_side: bool) -> bool {
    forall|i: int, j: int|
        0 <= i < j < levels.len() ==> better(#[trigger] levels[i].price, #[trigger] levels[j].price, bid_side)
}

pub open spec fn nonempty_levels(levels: Seq<LevelModel>) -> bool {
    forall|i: int| 0 <= i < levels.len() ==> #[trigger] levels[i].orders.len() > 0
}

pub open spec fn has_level(levels: Seq<LevelModel>, p: Price) -> bool {
    exists|i: int| 0 <= i < levels.len() && #[trigger] levels[i].price == p
}

/// The order at position `j` of level `i`.
pub open spec fn at(levels: Seq<LevelModel>, i: int, j: int) -> Order {
    levels[i].orders[j]
}

pub open spec fn is_pos(levels: Seq<LevelModel>, i: int, j: int) -> bool {
    0 <= i < levels.len() && 0 <= j < levels[i].orders.len()
}

pub open spec fn in_levels(levels: Seq<LevelModel>, id: OrderId) -> bool {
    exists|i: int, j: int| is_pos(levels, i, j) && (#[trigger] at(levels, i, j)).order_id == id
}

/// Whether an order with this id rests on either side.
pub open spec fn in_book(m: BookModel, id: OrderId) -> bool {
    in_levels(m.bids, id) || in_levels(m.asks, id)
}

pub open spec fn unique_within(levels: Seq<LevelModel>) -> bool {
    forall|i1: int, j1: int, i2: int, j2: int|
        is_pos(levels, i1, j1) && is_pos(levels, i2, j2) && (#[trigger] at(levels, i1, j1)).order_id
            == (#[trigger] at(levels, i2, j2)).order_id ==> i1 == i2 && j1 == j2
}

pub open spec fn disjoint_sides(bids: Seq<LevelModel>, asks: Seq<LevelModel>) -> bool {
    forall|id: OrderId| !(#[trigger] in_levels(bids, id) && in_levels(asks, id))
}

/// Levels sorted best first with distinct prices, no empty level, and no order id twice.
pub open spec fn model_wf(m: BookModel) -> bool {
    &&& sorted_levels(m.bids, true)
    &&& sorted_levels(m.asks, false)
    &&& nonempty_levels(m.bids)
    &&& nonempty_levels(m.asks)
    &&& unique_within(m.bids)
    &&& unique_within(m.asks)
    &&& disjoint_sides(m.bids, m.asks)
}

/// Whether an order on `side` at `price` would cross the best opposite price.
pub open spec fn can_match_spec(m: BookModel, side: Side, price: Price) -> bool {
    match side {
        Side::Buy => m.asks.len() > 0 && price >= m.asks[0].price,
        Side::Sell => m.bids.len() > 0 && price <= m.bids[0].price,
    }
}

/// Lowers the tally at `p` by `q`, where there is one.
pub open spec fn data_sub(d: Map<Price, Quantity>, p: Price, q: Quantity) -> Option<Map<Price, Quantity>> {
    if d.contains_key(p) {
        if d[p] >= q {
            Some(d.insert(p, (d[p] - q) as Quantity))
        } else {
            None
        }
    } else {
        Some(d)
    }
}

/// Raises the tally at `p` by `q`, where there is one.
pub open spec fn data_add(d: Map<Price, Quantity>, p: Price, q: Quantity) -> Option<Map<Price, Quantity>> {
    if d.contains_key(p) {
        if d[p] + q <= Quantity::MAX {
            Some(d.insert(p, (d[p] + q) as Quantity))
        } else {
            None
        }
    } else {
        Some(d)
    }
}

/// The side after the order at position `j` of level `i` leaves it; a level left empty goes.
pub open spec fn levels_without(levels: Seq<LevelModel>, i: int, j: int) -> Seq<LevelModel> {
    let rest = levels[i].orders.remove(j);
    if rest.len() == 0 {
        levels.remove(i)
    } else {
        levels.update(i, LevelModel { price: levels[i].price, orders: rest })
    }
}

/// `data_sub` where tallies are kept; otherwise the tallies as they are.
pub open spec fn tally_sub(d: Map<Price, Quantity>, p: Price, q: Quantity, tally: bool) -> Option<Map<Price, Quantity>> {
    if tally {
        data_sub(d, p, q)
    } else {
        Some(d)
    }
}

/// Takes the order at position `j` of level `i` out of one side, with the tally updates
/// a cancellation makes where tallies are kept: an emptied level's tally goes, otherwise the
/// remainder is subtracted.
pub open spec fn cancel_at(
    levels: Seq<LevelModel>,
    d: Map<Price, Quantity>,
    i: int,
    j: int,
    tally: bool,
) -> Option<(Seq<LevelModel>, Map<Price, Quantity>)> {
    let p = levels[i].price;
    let rem = levels[i].orders[j].remaining_quantity;
    let d1 = if tally && levels[i].orders.len() == 1 {
        d.remove(p)
    } else {
        d
    };
    match tally_sub(d1, p, rem, tally) {
        Some(d2) => Some((levels_without(levels, i, j), d2)),
        None => None,
    }
}

/// Where an order with this id sits on a side.
pub open spec fn pos_of(levels: Seq<LevelModel>, id: OrderId) -> (int, int) {
    choose|i: int, j: int| is_pos(levels, i, j) && (#[trigger] at(levels, i, j)).order_id == id
}

/// Cancelling the order `id`: the book without it, or the book unchanged when no such order rests.
pub open spec fn cancel_spec(m: BookModel, id: OrderId, tally: bool) -> Option<BookModel> {
    if in_levels(m.bids, id) {
        let (i, j) = pos_of(m.bids, id);
        match cancel_at(m.bids, m.data, i, j, tally) {
            Some((b, d)) => Some(BookModel { bids: b, asks: m.asks, data: d }),
            None => None,
        }
    } else if in_levels(m.asks, id) {
        let (i, j) = pos_of(m.asks, id);
        match cancel_at(m.asks, m.data, i, j, tally) {
            Some((a, d)) => Some(BookModel { bids: m.bids, asks: a, data: d }),
            None => None,
        }
    } else {
        Some(m)
    }
}

/// Cancelling each id in turn.
pub open spec fn cancel_all_spec(m: BookModel, ids: Seq<OrderId>, tally: bool) -> Option<BookModel>
    decreases ids.len(),
{
    if ids.len() == 0 {
        Some(m)
    } else {
        match cancel_spec(m, ids[0], tally) {
            None => None,
            Some(m1) => cancel_all_spec(m1, ids.drop_first(), tally),
        }
    }
}

/// The resting order with this id.
pub open spec fn order_in_book(m: BookModel, id: OrderId) -> Order {
    if in_levels(m.bids, id) {
        let (i, j) = pos_of(m.bids, id);
        at(m.bids, i, j)
    } else {
        let (i, j) = pos_of(m.asks, id);
        at(m.asks, i, j)
    }
}

pub open spec fn level_count(levels: Seq<LevelModel>) -> nat
    decreases levels.len(),
{
    if levels.len() == 0 {
        0
    } else {
        levels[0].orders.len() + level_count(levels.drop_first())
    }
}

/// The side after its front order was filled to `o`: out if nothing remains, else updated in place.
pub open spec fn front_after_fill(levels: Seq<LevelModel>, o: Order) -> Seq<LevelModel> {
    if o.remaining_quantity == 0 {
        levels_without(levels, 0, 0)
    } else {
        levels.update(0, LevelModel { price: levels[0].price, orders: levels[0].orders.update(0, o) })
    }
}

pub open spec fn min_q(a: Quantity, b: Quantity) -> Quantity {
    if a <= b {
        a
    } else {
        b
    }
}

/// One match of the two front orders. The trade and (where tallies are kept) the tally are
/// booked at `bp` and `ap`, the best prices seen when matching began, whatever levels the two
/// orders now sit on.
pub open spec fn match_step(m: BookModel, bp: Price, ap: Price, tally: bool) -> Option<(BookModel, Trade)> {
    let b = m.bids[0].orders[0];
    let a = m.asks[0].orders[0];
    let q = min_q(b.remaining_quantity, a.remaining_quantity);
    let b2 = filled_by(b, q);
    let a2 = filled_by(a, q);
    let trade = Trade {
        bid_trade: TradeInfo { order_id: b.order_id, user_id: b.user_id, price: bp, quantity: q },
        ask_trade: TradeInfo { order_id: a.order_id, user_id: a.user_id, price: ap, quantity: q },
    };
    match tally_sub(m.data, bp, q, tally) {
        None => None,
        Some(d1) => match tally_sub(d1, ap, q, tally) {
            None => None,
            Some(d2) => {
                let bids1 = front_after_fill(m.bids, b2);
                let d3 = if tally && b2.remaining_quantity == 0 && m.bids[0].orders.len() == 1 && !has_level(
                    m.asks,
                    bp,
                ) {
                    d2.remove(bp)
                } else {
                    d2
                };
                let asks1 = front_after_fill(m.asks, a2);
                let d4 = if tally && a2.remaining_quantity == 0 && m.asks[0].orders.len() == 1 && !has_level(
                    bids1,
                    ap,
                ) {
                    d3.remove(ap)
                } else {
                    d3
                };
                Some((BookModel { bids: bids1, asks: asks1, data: d4 }, trade))
            },
        },
    }
}

pub open spec fn fronts_exist(m: BookModel) -> bool {
    &&& m.bids.len() > 0
    &&& m.asks.len() > 0
    &&& m.bids[0].orders.len() > 0
    &&& m.asks[0].orders.len() > 0
}

/// Matches front orders until one side is empty, appending each trade to `trades`.
pub open spec fn match_loop(m: BookModel, bp: Price, ap: Price, trades: Seq<Trade>, tally: bool) -> Option<
    (BookModel, Seq<Trade>),
>
    decreases level_count(m.bids) + level_count(m.asks),
{
    if !fronts_exist(m) {
        Some((m, trades))
    } else {
        match match_step(m, bp, ap, tally) {
            None => None,
            Some((m2, t)) => {
                if level_count(m2.bids) + level_count(m2.asks) < level_count(m.bids) + level_count(
                    m.asks,
                ) {
                    match_loop(m2, bp, ap, trades.push(t), tally)
                } else {
                    Some((m2, trades.push(t)))
                }
            },
        }
    }
}

/// After matching: a fill-and-kill order left at the front of either side is cancelled.
pub open spec fn fak_cleanup(m: BookModel, tally: bool) -> Option<BookModel> {
    let r = if m.bids.len() > 0 && m.bids[0].orders.len() > 0 && m.bids[0].orders[0].order_type
        == OrderType::FillAndKill {
        cancel_spec(m, m.bids[0].orders[0].order_id, tally)
    } else {
        Some(m)
    };
    match r {
        None => None,
        Some(m2) => if m2.asks.len() > 0 && m2.asks[0].orders.len() > 0
            && m2.asks[0].orders[0].order_type == OrderType::FillAndKill {
            cancel_spec(m2, m2.asks[0].orders[0].order_id, tally)
        } else {
            Some(m2)
        },
    }
}

/// Matching the book: if the best bid reaches the best ask, front orders are matched
/// until a side runs out; then fill-and-kill leftovers at the front are cancelled.
pub open spec fn match_orders_spec(m: BookModel, tally: bool) -> Option<(BookModel, Seq<Trade>)> {
    let r = if m.bids.len() > 0 && m.asks.len() > 0 && m.bids[0].price >= m.asks[0].price {
        match_loop(m, m.bids[0].price, m.asks[0].price, Seq::empty(), tally)
    } else {
        Some((m, Seq::empty()))
    };
    match r {
        None => None,
        Some((m1, t)) => match fak_cleanup(m1, tally) {
            None => None,
            Some(m2) => Some((m2, t)),
        },
    }
}

/// Where a level at price `p` belongs on a side: after every better price, before the rest.
pub open spec fn is_insert_pos(levels: Seq<LevelModel>, p: Price, bid_side: bool, k: int) -> bool {
    &&& 0 <= k <= levels.len()
    &&& forall|i: int| 0 <= i < k ==> better(#[trigger] levels[i].price, p, bid_side)
    &&& forall|i: int| k <= i < levels.len() ==> !better(#[trigger] levels[i].price, p, bid_side)
}

pub open spec fn insert_pos(levels: Seq<LevelModel>, p: Price, bid_side: bool) -> int {
    choose|k: int| #[trigger] is_insert_pos(levels, p, bid_side, k)
}

/// The side with `o` queued last at price `p`, in a new level if there was none.
pub open spec fn insert_order(levels: Seq<LevelModel>, p: Price, o: Order, bid_side: bool) -> Seq<LevelModel> {
    let k = insert_pos(levels, p, bid_side);
    if k < levels.len() && levels[k].price == p {
        levels.update(k, LevelModel { price: p, orders: levels[k].orders.push(o) })
    } else {
        levels.insert(k, LevelModel { price: p, orders: seq![o] })
    }
}

/// Whether the book turns the order away: a market order with nothing on the other side,
/// an id already resting, or a fill-and-kill order that cannot cross.
pub open spec fn add_rejected(m: BookModel, o: Order) -> bool {
    ||| (o.order_type == OrderType::Market && !(o.side == Side::Buy && m.asks.len() > 0) && !(
    o.side == Side::Sell && m.bids.len() > 0))
    ||| in_book(m, o.order_id)
    ||| (o.order_type == OrderType::FillAndKill && !can_match_spec(m, o.side, o.price->0))
}

/// The order as it is queued: a market order becomes good-till-cancel at the best opposite price.
pub open spec fn placed_order(m: BookModel, o: Order) -> Order {
    if o.order_type == OrderType::Market {
        let p = if o.side == Side::Buy {
            m.asks[0].price
        } else {
            m.bids[0].price
        };
        Order { order_type: OrderType::GoodTillCancel, price: Some(p), ..o }
    } else {
        o
    }
}

/// The book before matching: the order queued at its own price and, where tallies are kept,
/// its tally opened and raised by its initial quantity.
pub open spec fn book_with(m: BookModel, o: Order, tally: bool) -> Option<BookModel> {
    let p = o.price->0;
    let o2 = placed_order(m, o);
    let bids = if o.side == Side::Buy {
        insert_order(m.bids, p, o2, true)
    } else {
        m.bids
    };
    let asks = if o.side == Side::Sell {
        insert_order(m.asks, p, o2, false)
    } else {
        m.asks
    };
    if !tally {
        Some(BookModel { bids, asks, data: m.data })
    } else {
        let d0 = if m.data.contains_key(p) {
            m.data
        } else {
            m.data.insert(p, 0)
        };
        match data_add(d0, p, o2.initial_quantity) {
            None => None,
            Some(d) => Some(BookModel { bids, asks, data: d }),
        }
    }
}

/// Adding an order that is not turned away: queue it, then match the book.
pub open spec fn add_result(m: BookModel, o: Order, tally: bool) -> Option<(BookModel, Seq<Trade>)> {
    match book_with(m, o, tally) {
        None => None,
        Some(m1) => match_orders_spec(m1, tally),
    }
}

/// With unique ids, the chosen place of an id is the one place it occupies.
pub proof fn lemma_pos_of_unique(levels: Seq<LevelModel>, i: int, j: int)
    requires
        unique_within(levels),
        is_pos(levels, i, j),
    ensures
        pos_of(levels, at(levels, i, j).order_id) == (i, j),
        in_levels(levels, at(levels, i, j).order_id),
{
    let id = at(levels, i, j).order_id;
    assert(is_pos(levels, i, j) && at(levels, i, j).order_id == id);
    let (a, b) = pos_of(levels, id);
    assert(is_pos(levels, a, b) && at(levels, a, b).order_id == id);
}

/// Where an order at `(a, b)` other than `(i, j)` is found once `(i, j)` is taken out.
pub open spec fn pos_after_removal(levels: Seq<LevelModel>, i: int, j: int, a: int, b: int) -> (int, int) {
    if levels[i].orders.len() == 1 {
        (if a < i { a } else { a - 1 }, b)
    } else if a == i {
        (a, if b < j { b } else { b - 1 })
    } else {
        (a, b)
    }
}

/// Taking one order out of a well-formed side keeps it well-formed; every other order
/// stays, at the place `pos_after_removal` gives.
pub proof fn lemma_levels_without(levels: Seq<LevelModel>, i: int, j: int, bid_side: bool)
    requires
        sorted_levels(levels, bid_side),
        nonempty_levels(levels),
        unique_within(levels),
        is_pos(levels, i, j),
    ensures
        sorted_levels(levels_without(levels, i, j), bid_side),
        nonempty_levels(levels_without(levels, i, j)),
        unique_within(levels_without(levels, i, j)),
        forall|a: int, b: int|
            is_pos(levels, a, b) && (a, b) != (i, j) ==> {
                let (c, d) = #[trigger] pos_after_removal(levels, i, j, a, b);
                &&& is_pos(levels_without(levels, i, j), c, d)
                &&& at(levels_without(levels, i, j), c, d) == at(levels, a, b)
            },
        forall|c: int, d: int|
            #[trigger] is_pos(levels_without(levels, i, j), c, d) ==> exists|a: int, b: int|
                is_pos(levels, a, b) && (a, b) != (i, j) && pos_after_removal(levels, i, j, a, b) == (
                c,
                d,
            ),
        forall|x: OrderId|
            #[trigger] in_levels(levels_without(levels, i, j), x) <==> (in_levels(levels, x) && x
                != at(levels, i, j).order_id),
{
    let n = levels_without(levels, i, j);
    let removed = levels[i].orders.len() == 1;
    assert forall|a: int, b: int|
        is_pos(levels, a, b) && (a, b) != (i, j) implies {
            let (c, d) = #[trigger] pos_after_removal(levels, i, j, a, b);
            &&& is_pos(n, c, d)
            &&& at(n, c, d) == at(levels, a, b)
        } by {
        if removed {
            assert(a != i);
        } else if a == i {
            assert(b != j);
        }
    }
    assert forall|c: int, d: int| #[trigger] is_pos(n, c, d) implies exists|a: int, b: int|
        is_pos(levels, a, b) && (a, b) != (i, j) && pos_after_removal(levels, i, j, a, b) == (c, d) by {
        if removed {
            let a = if c < i { c } else { c + 1 };
            assert(n[c] == levels[a]);
            assert(is_pos(levels, a, d) && (a, d) != (i, j));
            assert(pos_after_removal(levels, i, j, a, d) == (c, d));
        } else if c == i {
            let b = if d < j { d } else { d + 1 };
            assert(is_pos(levels, c, b) && (c, b) != (i, j));
            assert(pos_after_removal(levels, i, j, c, b) == (c, d));
        } else {
            assert(n[c] == levels[c]);
            assert(is_pos(levels, c, d) && (c, d) != (i, j));
            assert(pos_after_removal(levels, i, j, c, d) == (c, d));
        }
    }
    assert forall|p: int, q: int| 0 <= p < q < n.len() implies better(
        #[trigger] n[p].price,
        #[trigger] n[q].price,
        bid_side,
    ) by {
        if removed {
            let p0 = if p < i { p } else { p + 1 };
            let q0 = if q < i { q } else { q + 1 };
            assert(n[p] == levels[p0] && n[q] == levels[q0]);
            assert(better(levels[p0].price, levels[q0].price, bid_side));
        } else {
            assert(n[p].price == levels[p].price && n[q].price == levels[q].price);
            assert(better(levels[p].price, levels[q].price, bid_side));
        }
    }
    assert forall|p: int| 0 <= p < n.len() implies #[trigger] n[p].orders.len() > 0 by {
        if removed {
            let p0 = if p < i { p } else { p + 1 };
            assert(n[p] == levels[p0]);
        } else if p != i {
            assert(n[p] == levels[p]);
        }
    }
    assert forall|c1: int, d1: int, c2: int, d2: int|
        is_pos(n, c1, d1) && is_pos(n, c2, d2) && (#[trigger] at(n, c1, d1)).order_id == (
        #[trigger] at(n, c2, d2)).order_id implies c1 == c2 && d1 == d2 by {
        let (a1, b1) = choose|a: int, b: int|
            is_pos(levels, a, b) && (a, b) != (i, j) && pos_after_removal(levels, i, j, a, b) == (c1, d1);
        let (a2, b2) = choose|a: int, b: int|
            is_pos(levels, a, b) && (a, b) != (i, j) && pos_after_removal(levels, i, j, a, b) == (c2, d2);
        assert(at(n, c1, d1) == at(levels, a1, b1));
        assert(at(n, c2, d2) == at(levels, a2, b2));
    }
    let rid = at(levels, i, j).order_id;
    assert forall|x: OrderId| #[trigger] in_levels(n, x) <==> (in_levels(levels, x) && x != rid) by {
        if in_levels(n, x) {
            let (c, d) = choose|c: int, d: int| is_pos(n, c, d) && (#[trigger] at(n, c, d)).order_id == x;
            let (a, b) = choose|a: int, b: int|
                is_pos(levels, a, b) && (a, b) != (i, j) && pos_after_removal(levels, i, j, a, b) == (c, d);
            assert(at(n, c, d) == at(levels, a, b));
            assert(at(levels, a, b).order_id == x);
        }
        if in_levels(levels, x) && x != rid {
            let (a, b) = choose|a: int, b: int| is_pos(levels, a, b) && (#[trigger] at(levels, a, b)).order_id == x;
            let (c, d) = pos_after_removal(levels, i, j, a, b);
            assert(at(n, c, d) == at(levels, a, b));
        }
    }
}

proof fn lemma_count_drop_front(levels: Seq<LevelModel>)
    requires
        levels.len() > 0,
        levels[0].orders.len() > 0,
    ensures
        level_count(levels_without(levels, 0, 0)) + 1 == level_count(levels),
{
    let rest = levels[0].orders.remove(0);
    if rest.len() == 0 {
        assert(levels.remove(0) =~= levels.drop_first());
    } else {
        let n = levels.update(0, LevelModel { price: levels[0].price, orders: rest });
        assert(n.drop_first() =~= levels.drop_first());
    }
}

proof fn lemma_count_update_front(levels: Seq<LevelModel>, l: LevelModel)
    requires
        levels.len() > 0,
        l.orders.len() == levels[0].orders.len(),
    ensures
        level_count(levels.update(0, l)) == level_count(levels),
{
    assert(levels.update(0, l).drop_first() =~= levels.drop_first());
}

/// Each match fills at least one of the two front orders completely, so a match
/// leaves fewer orders resting.
pub proof fn lemma_step_decreases(m: BookModel, bp: Price, ap: Price, tally: bool)
    requires
        fronts_exist(m),
        match_step(m, bp, ap, tally) is Some,
    ensures
        level_count((match_step(m, bp, ap, tally)->0).0.bids) + level_count((match_step(m, bp, ap, tally)->0).0.asks)
            < level_count(m.bids) + level_count(m.asks),
{
    let b = m.bids[0].orders[0];
    let a = m.asks[0].orders[0];
    let q = min_q(b.remaining_quantity, a.remaining_quantity);
    let b2 = filled_by(b, q);
    let a2 = filled_by(a, q);
    if b2.remaining_quantity == 0 {
        lemma_count_drop_front(m.bids);
    } else {
        lemma_count_update_front(m.bids, LevelModel { price: m.bids[0].price, orders: m.bids[0].orders.update(0, b2) });
    }
    if a2.remaining_quantity == 0 {
        lemma_count_drop_front(m.asks);
    } else {
        lemma_count_update_front(m.asks, LevelModel { price: m.asks[0].price, orders: m.asks[0].orders.update(0, a2) });
    }
}

/// On a sorted side only one place fits a new price.
pub proof fn lemma_insert_pos_unique(levels: Seq<LevelModel>, p: Price, bid_side: bool, k: int)
    requires
        sorted_levels(levels, bid_side),
        is_insert_pos(levels, p, bid_side, k),
    ensures
        insert_pos(levels, p, bid_side) == k,
{
    let c = insert_pos(levels, p, bid_side);
    assert(is_insert_pos(levels, p, bid_side, c));
    if c < k {
        assert(better(levels[c].price, p, bid_side));
    } else if k < c {
        assert(better(levels[k].price, p, bid_side));
    }
}

/// The step function that adds the tally at a price to a running total.
pub open spec fn qty_adder(d: Map<Price, Quantity>) -> spec_fn(int, Price) -> int {
    |acc: int, p: Price| acc + d[p] as int
}

/// The total tally over a set of prices.
pub open spec fn qty_sum(s: Set<Price>, d: Map<Price, Quantity>) -> int {
    s.fold(0int, qty_adder(d))
}

/// The prices with a tally in `[lo, hi]`.
pub open spec fn eligible(d: Map<Price, Quantity>, lo: Price, hi: Price) -> Set<Price> {
    d.dom().filter(|p: Price| lo <= p && p <= hi)
}

/// The price range an order on `side` with limit `price` could fill against: from the best
/// opposite price up (or down) to its limit.
pub open spec fn fill_range(m: BookModel, side: Side, price: Price) -> (Price, Price) {
    match side {
        Side::Buy => (m.asks[0].price, price),
        Side::Sell => (price, m.bids[0].price),
    }
}

/// Whether an order could be filled in full: it crosses, some price in its range has a tally,
/// and the tallies in that range add up to at least `quantity`.
pub open spec fn can_fully_fill_spec(m: BookModel, side: Side, price: Price, quantity: Quantity) -> bool {
    &&& can_match_spec(m, side, price)
    &&& exists|p: Price| #[trigger] eligible(m.data, fill_range(m, side, price).0, fill_range(m, side, price).1).contains(p)
    &&& quantity <= qty_sum(eligible(m.data, fill_range(m, side, price).0, fill_range(m, side, price).1), m.data)
}

pub proof fn lemma_qty_sum_empty(d: Map<Price, Quantity>)
    ensures
        qty_sum(Set::empty(), d) == 0,
{
    vstd::set::fold::lemma_fold_empty(0int, qty_adder(d));
}

pub proof fn lemma_qty_sum_insert(s: Set<Price>, d: Map<Price, Quantity>, p: Price)
    requires
        s.finite(),
        !s.contains(p),
    ensures
        qty_sum(s.insert(p), d) == qty_sum(s, d) + d[p] as int,
{
    let f = qty_adder(d);
    assert(vstd::set::fold::is_fun_commutative(f)) by {
        assert forall|a1: Price, a2: Price, b: int| #[trigger] f(f(b, a2), a1) == f(f(b, a1), a2) by {}
    }
    vstd::set::fold::lemma_fold_insert(s, 0int, f, p);
}

/// A total over fewer prices is no larger.
pub proof fn lemma_qty_sum_mono(a: Set<Price>, b: Set<Price>, d: Map<Price, Quantity>)
    requires
        b.finite(),
        a.subset_of(b),
    ensures
        qty_sum(a, d) <= qty_sum(b, d),
    decreases b.len(),
{
    if b.subset_of(a) {
        assert(a =~= b);
    } else {
        let x = choose|x: Price| b.contains(x) && !a.contains(x);
        let b2 = b.remove(x);
        assert(a.subset_of(b2));
        lemma_qty_sum_mono(a, b2, d);
        lemma_qty_sum_insert(b2, d, x);
        assert(b2.insert(x) =~= b);
    }
}

/// A book at rest: no bid reaches the best ask.
pub open spec fn uncrossed(m: BookModel) -> bool {
    m.bids.len() == 0 || m.asks.len() == 0 || m.bids[0].price < m.asks[0].price
}

/// Replacing the front order of a well-formed side by a later state of itself keeps the
/// side well-formed and its ids.
pub proof fn lemma_front_update(levels: Seq<LevelModel>, o: Order, bid_side: bool)
    requires
        sorted_levels(levels, bid_side),
        nonempty_levels(levels),
        unique_within(levels),
        levels.len() > 0,
        o.order_id == levels[0].orders[0].order_id,
    ensures
        ({
            let n = levels.update(0, LevelModel { price: levels[0].price, orders: levels[0].orders.update(0, o) });
            &&& sorted_levels(n, bid_side)
            &&& nonempty_levels(n)
            &&& unique_within(n)
            &&& forall|x: OrderId| #[trigger] in_levels(n, x) <==> in_levels(levels, x)
            &&& n.len() == levels.len()
            &&& forall|k: int| 0 <= k < n.len() ==> #[trigger] n[k].price == levels[k].price
        }),
{
    let n = levels.update(0, LevelModel { price: levels[0].price, orders: levels[0].orders.update(0, o) });
    assert forall|a: int, b: int| is_pos(n, a, b) implies #[trigger] at(n, a, b).order_id == at(levels, a, b).order_id by {}
    assert forall|x: OrderId| #[trigger] in_levels(n, x) <==> in_levels(levels, x) by {
        if in_levels(n, x) {
            let (a, b) = choose|a: int, b: int| is_pos(n, a, b) && (#[trigger] at(n, a, b)).order_id == x;
            assert(at(n, a, b).order_id == at(levels, a, b).order_id);
        }
        if in_levels(levels, x) {
            let (a, b) = choose|a: int, b: int| is_pos(levels, a, b) && (#[trigger] at(levels, a, b)).order_id == x;
            assert(is_pos(n, a, b));
            assert(at(n, a, b).order_id == at(levels, a, b).order_id);
        }
    }
    assert forall|a1: int, b1: int, a2: int, b2: int|
        is_pos(n, a1, b1) && is_pos(n, a2, b2) && (#[trigger] at(n, a1, b1)).order_id == (
        #[trigger] at(n, a2, b2)).order_id implies a1 == a2 && b1 == b2 by {
        assert(at(n, a1, b1).order_id == at(levels, a1, b1).order_id);
        assert(at(n, a2, b2).order_id == at(levels, a2, b2).order_id);
        assert(is_pos(levels, a1, b1) && is_pos(levels, a2, b2));
    }
    assert forall|i: int, j: int| 0 <= i < j < n.len() implies better(#[trigger] n[i].price, #[trigger] n[j].price, bid_side) by {
        assert(n[i].price == levels[i].price && n[j].price == levels[j].price);
    }
    assert forall|i: int| 0 <= i < n.len() implies #[trigger] n[i].orders.len() > 0 by {
        assert(n[i].orders.len() == levels[i].orders.len());
    }
}

/// The side after its front order was filled keeps the side well-formed, holds the same ids
/// bar the front order's if it was filled, and its best price is no better than before.
pub proof fn lemma_front_after_fill(levels: Seq<LevelModel>, o: Order, bid_side: bool)
    requires
        sorted_levels(levels, bid_side),
        nonempty_levels(levels),
        unique_within(levels),
        levels.len() > 0,
        o.order_id == levels[0].orders[0].order_id,
    ensures
        sorted_levels(front_after_fill(levels, o), bid_side),
        nonempty_levels(front_after_fill(levels, o)),
        unique_within(front_after_fill(levels, o)),
        forall|x: OrderId| #[trigger] in_levels(front_after_fill(levels, o), x) ==> in_levels(levels, x),
        front_after_fill(levels, o).len() > 0 ==> !better(front_after_fill(levels, o)[0].price, levels[0].price, bid_side),
        o.remaining_quantity != 0 ==> front_after_fill(levels, o)[0].orders[0] == o && front_after_fill(levels, o)[0].price
            == levels[0].price,
        o.remaining_quantity != 0 ==> forall|x: OrderId| #[trigger] in_levels(front_after_fill(levels, o), x) <==> in_levels(levels, x),
        o.remaining_quantity == 0 ==> forall|x: OrderId| #[trigger] in_levels(front_after_fill(levels, o), x) <==> (in_levels(levels, x)
            && x != o.order_id),
{
    if o.remaining_quantity == 0 {
        assert(is_pos(levels, 0, 0));
        lemma_levels_without(levels, 0, 0, bid_side);
        let n = levels_without(levels, 0, 0);
        if n.len() > 0 {
            if levels[0].orders.len() == 1 {
                assert(n[0] == levels[1]);
            }
        }
    } else {
        lemma_front_update(levels, o, bid_side);
    }
}

/// One match keeps the model well-formed, and neither best price gets better.
pub proof fn lemma_step_wf(m: BookModel, bp: Price, ap: Price, tally: bool)
    requires
        model_wf(m),
        fronts_exist(m),
        match_step(m, bp, ap, tally) is Some,
    ensures
        model_wf((match_step(m, bp, ap, tally)->0).0),
        forall|x: OrderId| #[trigger] in_book((match_step(m, bp, ap, tally)->0).0, x) ==> in_book(m, x),
        (match_step(m, bp, ap, tally)->0).1.bid_trade.quantity == (match_step(m, bp, ap, tally)->0).1.ask_trade.quantity,
{
    let b = m.bids[0].orders[0];
    let a = m.asks[0].orders[0];
    let q = min_q(b.remaining_quantity, a.remaining_quantity);
    let b2 = filled_by(b, q);
    let a2 = filled_by(a, q);
    lemma_front_after_fill(m.bids, b2, true);
    lemma_front_after_fill(m.asks, a2, false);
    let n = (match_step(m, bp, ap, tally)->0).0;
    assert(n.bids == front_after_fill(m.bids, b2));
    assert(n.asks == front_after_fill(m.asks, a2));
    assert forall|x: OrderId| !(#[trigger] in_levels(n.bids, x) && in_levels(n.asks, x)) by {
        assert(!(in_levels(m.bids, x) && in_levels(m.asks, x)));
    }
}

/// Matching runs until one side is empty, keeping the model well-formed; every trade it
/// makes has equal quantities on its two halves.
pub proof fn lemma_loop_empties(m: BookModel, bp: Price, ap: Price, trades: Seq<Trade>, tally: bool)
    requires
        model_wf(m),
        match_loop(m, bp, ap, trades, tally) is Some,
        forall|i: int| 0 <= i < trades.len() ==> #[trigger] trades[i].bid_trade.quantity == trades[i].ask_trade.quantity,
    ensures
        model_wf((match_loop(m, bp, ap, trades, tally)->0).0),
        (match_loop(m, bp, ap, trades, tally)->0).0.bids.len() == 0 || (match_loop(m, bp, ap, trades, tally)->0).0.asks.len() == 0,
        forall|i: int| 0 <= i < (match_loop(m, bp, ap, trades, tally)->0).1.len() ==> #[trigger] (match_loop(m, bp, ap, trades, tally)->0).1[i].bid_trade.quantity
            == (match_loop(m, bp, ap, trades, tally)->0).1[i].ask_trade.quantity,
        forall|x: OrderId| #[trigger] in_book((match_loop(m, bp, ap, trades, tally)->0).0, x) ==> in_book(m, x),
    decreases level_count(m.bids) + level_count(m.asks),
{
    if !fronts_exist(m) {
        if m.bids.len() > 0 && m.asks.len() > 0 {
            assert(m.bids[0].orders.len() > 0);
            assert(m.asks[0].orders.len() > 0);
        }
    } else {
        lemma_step_decreases(m, bp, ap, tally);
        lemma_step_wf(m, bp, ap, tally);
        let (m2, t) = match_step(m, bp, ap, tally)->0;
        let t2 = trades.push(t);
        assert(t.bid_trade.quantity == t.ask_trade.quantity);
        assert forall|i: int| 0 <= i < t2.len() implies #[trigger] t2[i].bid_trade.quantity == t2[i].ask_trade.quantity by {
            if i < trades.len() {
                assert(t2[i] == trades[i]);
                assert(trades[i].bid_trade.quantity == trades[i].ask_trade.quantity);
            } else {
                assert(t2[i] == t);
            }
        }
        lemma_loop_empties(m2, bp, ap, t2, tally);
    }
}

/// Cancelling keeps the model well-formed, takes exactly the cancelled order out, and keeps
/// a book at rest at rest (and an empty side empty).
pub proof fn law_cancel_takes_out_only_that_order(m: BookModel, id: OrderId, tally: bool)
    requires
        model_wf(m),
        cancel_spec(m, id, tally) is Some,
    ensures
        model_wf(cancel_spec(m, id, tally)->0),
        forall|x: OrderId| #[trigger] in_book(cancel_spec(m, id, tally)->0, x) <==> (in_book(m, x) && x != id),
        uncrossed(m) ==> uncrossed(cancel_spec(m, id, tally)->0),
        m.bids.len() == 0 ==> (cancel_spec(m, id, tally)->0).bids.len() == 0,
        m.asks.len() == 0 ==> (cancel_spec(m, id, tally)->0).asks.len() == 0,
        (cancel_spec(m, id, tally)->0).bids.len() > 0 ==> m.bids.len() > 0 && (cancel_spec(m, id, tally)->0).bids[0].price <= m.bids[0].price,
        (cancel_spec(m, id, tally)->0).asks.len() > 0 ==> m.asks.len() > 0 && (cancel_spec(m, id, tally)->0).asks[0].price >= m.asks[0].price,
{
    let n = cancel_spec(m, id, tally)->0;
    if in_levels(m.bids, id) {
        let (i, j) = pos_of(m.bids, id);
        lemma_levels_without(m.bids, i, j, true);
        assert(at(m.bids, i, j).order_id == id);
        let lw = levels_without(m.bids, i, j);
        if lw.len() > 0 {
            if m.bids[i].orders.len() == 1 && i == 0 {
                assert(lw[0] == m.bids[1]);
            } else {
                assert(lw[0].price == m.bids[0].price);
            }
        }
        assert forall|x: OrderId| !(#[trigger] in_levels(n.bids, x) && in_levels(n.asks, x)) by {
            assert(!(in_levels(m.bids, x) && in_levels(m.asks, x)));
        }
        assert forall|x: OrderId| #[trigger] in_book(n, x) <==> (in_book(m, x) && x != id) by {
            if in_levels(m.asks, x) {
                assert(x != id);
            }
        }
    } else if in_levels(m.asks, id) {
        let (i, j) = pos_of(m.asks, id);
        lemma_levels_without(m.asks, i, j, false);
        assert(at(m.asks, i, j).order_id == id);
        let lw = levels_without(m.asks, i, j);
        if lw.len() > 0 {
            if m.asks[i].orders.len() == 1 && i == 0 {
                assert(lw[0] == m.asks[1]);
            } else {
                assert(lw[0].price == m.asks[0].price);
            }
        }
        assert forall|x: OrderId| !(#[trigger] in_levels(n.bids, x) && in_levels(n.asks, x)) by {
            assert(!(in_levels(m.bids, x) && in_levels(m.asks, x)));
        }
        assert forall|x: OrderId| #[trigger] in_book(n, x) <==> (in_book(m, x) && x != id) by {
            if in_levels(m.bids, x) {
                assert(x != id);
            }
        }
    }
}

/// The fill-and-kill clean-up keeps the model well-formed and a book at rest at rest.
pub proof fn lemma_fak_cleanup_wf(m: BookModel, tally: bool)
    requires
        model_wf(m),
        fak_cleanup(m, tally) is Some,
    ensures
        model_wf(fak_cleanup(m, tally)->0),
        uncrossed(m) ==> uncrossed(fak_cleanup(m, tally)->0),
        forall|x: OrderId| #[trigger] in_book(fak_cleanup(m, tally)->0, x) ==> in_book(m, x),
{
    if m.bids.len() > 0 && m.bids[0].orders.len() > 0 && m.bids[0].orders[0].order_type == OrderType::FillAndKill {
        law_cancel_takes_out_only_that_order(m, m.bids[0].orders[0].order_id, tally);
    }
    let m2 = if m.bids.len() > 0 && m.bids[0].orders.len() > 0 && m.bids[0].orders[0].order_type
        == OrderType::FillAndKill {
        cancel_spec(m, m.bids[0].orders[0].order_id, tally)->0
    } else {
        m
    };
    if m2.asks.len() > 0 && m2.asks[0].orders.len() > 0 && m2.asks[0].orders[0].order_type == OrderType::FillAndKill {
        law_cancel_takes_out_only_that_order(m2, m2.asks[0].orders[0].order_id, tally);
    }
}

/// Matching leaves the book well-formed and at rest: the best bid is below the best ask, or a
/// side is empty. Each trade's two halves carry the same quantity, and matching only ever
/// takes orders out.
pub proof fn law_matching_leaves_book_at_rest(m: BookModel, tally: bool)
    requires
        model_wf(m),
        match_orders_spec(m, tally) is Some,
    ensures
        model_wf((match_orders_spec(m, tally)->0).0),
        uncrossed((match_orders_spec(m, tally)->0).0),
        forall|i: int| 0 <= i < (match_orders_spec(m, tally)->0).1.len() ==> #[trigger] (match_orders_spec(m, tally)->0).1[i].bid_trade.quantity
            == (match_orders_spec(m, tally)->0).1[i].ask_trade.quantity,
        forall|x: OrderId| #[trigger] in_book((match_orders_spec(m, tally)->0).0, x) ==> in_book(m, x),
{
    if m.bids.len() > 0 && m.asks.len() > 0 && m.bids[0].price >= m.asks[0].price {
        lemma_loop_empties(m, m.bids[0].price, m.asks[0].price, Seq::empty(), tally);
        let m1 = (match_loop(m, m.bids[0].price, m.asks[0].price, Seq::empty(), tally)->0).0;
        lemma_fak_cleanup_wf(m1, tally);
    } else {
        lemma_fak_cleanup_wf(m, tally);
    }
}


/// Whether the first order of the best level on a side is the fill-and-kill order `id`.
pub open spec fn fak_at_front(levels: Seq<LevelModel>, id: OrderId) -> bool {
    &&& levels.len() > 0
    &&& levels[0].orders.len() > 0
    &&& levels[0].orders[0].order_id == id
    &&& levels[0].orders[0].order_type == OrderType::FillAndKill
}

/// One match keeps a fill-and-kill order at the front of its side, or takes it out of the book.
proof fn lemma_step_keeps_fak_front(m: BookModel, bp: Price, ap: Price, id: OrderId, tally: bool)
    requires
        model_wf(m),
        fronts_exist(m),
        match_step(m, bp, ap, tally) is Some,
        fak_at_front(m.bids, id) || fak_at_front(m.asks, id) || !in_book(m, id),
    ensures
        ({
            let n = (match_step(m, bp, ap, tally)->0).0;
            ||| fak_at_front(m.bids, id) && fak_at_front(n.bids, id)
            ||| fak_at_front(m.asks, id) && fak_at_front(n.asks, id)
            ||| !in_book(n, id)
        }),
{
    let b = m.bids[0].orders[0];
    let a = m.asks[0].orders[0];
    let q = min_q(b.remaining_quantity, a.remaining_quantity);
    let b2 = filled_by(b, q);
    let a2 = filled_by(a, q);
    lemma_front_after_fill(m.bids, b2, true);
    lemma_front_after_fill(m.asks, a2, false);
    lemma_step_wf(m, bp, ap, tally);
    let n = (match_step(m, bp, ap, tally)->0).0;
    assert(n.bids == front_after_fill(m.bids, b2));
    assert(n.asks == front_after_fill(m.asks, a2));
    if fak_at_front(m.bids, id) {
        assert(at(m.bids, 0, 0).order_id == id);
        assert(in_levels(m.bids, id));
        assert(!in_levels(m.asks, id));
        if b2.remaining_quantity == 0 {
            assert(!in_levels(n.bids, id));
            if in_levels(n.asks, id) {
                assert(in_levels(m.asks, id));
            }
        }
    } else if fak_at_front(m.asks, id) {
        assert(at(m.asks, 0, 0).order_id == id);
        assert(in_levels(m.asks, id));
        assert(!in_levels(m.bids, id));
        if a2.remaining_quantity == 0 {
            assert(!in_levels(n.asks, id));
            if in_levels(n.bids, id) {
                assert(in_levels(m.bids, id));
            }
        }
    }
}

/// The matching loop keeps a fill-and-kill order at the front of its side, or takes it out.
proof fn lemma_loop_keeps_fak_front(m: BookModel, bp: Price, ap: Price, trades: Seq<Trade>, id: OrderId, tally: bool)
    requires
        model_wf(m),
        match_loop(m, bp, ap, trades, tally) is Some,
        fak_at_front(m.bids, id) || fak_at_front(m.asks, id) || !in_book(m, id),
    ensures
        ({
            let n = (match_loop(m, bp, ap, trades, tally)->0).0;
            ||| fak_at_front(m.bids, id) && fak_at_front(n.bids, id)
            ||| fak_at_front(m.asks, id) && fak_at_front(n.asks, id)
            ||| !in_book(n, id)
        }),
    decreases level_count(m.bids) + level_count(m.asks),
{
    if fronts_exist(m) {
        lemma_step_decreases(m, bp, ap, tally);
        lemma_step_wf(m, bp, ap, tally);
        lemma_step_keeps_fak_front(m, bp, ap, id, tally);
        let (m2, t) = match_step(m, bp, ap, tally)->0;
        lemma_loop_keeps_fak_front(m2, bp, ap, trades.push(t), id, tally);
        if fak_at_front(m2.bids, id) {
            assert(at(m2.bids, 0, 0).order_id == id);
            assert(in_book(m2, id));
            if fak_at_front(m2.asks, id) {
                assert(at(m2.asks, 0, 0).order_id == id);
                assert(in_levels(m2.bids, id) && in_levels(m2.asks, id));
            }
        }
        if fak_at_front(m2.asks, id) {
            assert(at(m2.asks, 0, 0).order_id == id);
            assert(in_book(m2, id));
        }
    }
}

/// A new order whose price is strictly better than every level on its side opens a new
/// best level of its own; the side stays well-formed.
proof fn lemma_insert_at_front(levels: Seq<LevelModel>, p: Price, o: Order, bid_side: bool)
    requires
        sorted_levels(levels, bid_side),
        nonempty_levels(levels),
        unique_within(levels),
        !in_levels(levels, o.order_id),
        levels.len() == 0 || better(p, levels[0].price, bid_side),
    ensures
        insert_order(levels, p, o, bid_side) == levels.insert(0, LevelModel { price: p, orders: seq![o] }),
        sorted_levels(insert_order(levels, p, o, bid_side), bid_side),
        nonempty_levels(insert_order(levels, p, o, bid_side)),
        unique_within(insert_order(levels, p, o, bid_side)),
        forall|x: OrderId| #[trigger] in_levels(insert_order(levels, p, o, bid_side), x) <==> (in_levels(levels, x)
            || x == o.order_id),
{
    assert forall|i: int| 0 <= i < levels.len() implies !better(#[trigger] levels[i].price, p, bid_side) by {
        if i > 0 {
            assert(better(levels[0].price, levels[i].price, bid_side));
        }
    }
    assert(is_insert_pos(levels, p, bid_side, 0));
    lemma_insert_pos_unique(levels, p, bid_side, 0);
    let l = LevelModel { price: p, orders: seq![o] };
    let n = levels.insert(0, l);
    assert(insert_order(levels, p, o, bid_side) == n);
    assert forall|i: int, j: int| 0 <= i < j < n.len() implies better(#[trigger] n[i].price, #[trigger] n[j].price, bid_side) by {
        assert(n[j] == levels[j - 1]);
        if i > 0 {
            assert(n[i] == levels[i - 1]);
        } else if j - 1 > 0 {
            assert(better(levels[0].price, levels[j - 1].price, bid_side));
        }
    }
    assert forall|i: int| 0 <= i < n.len() implies #[trigger] n[i].orders.len() > 0 by {
        if i > 0 {
            assert(n[i] == levels[i - 1]);
        }
    }
    assert forall|i1: int, j1: int, i2: int, j2: int|
        is_pos(n, i1, j1) && is_pos(n, i2, j2) && (#[trigger] at(n, i1, j1)).order_id == (#[trigger] at(n, i2, j2)).order_id
        implies i1 == i2 && j1 == j2 by {
        if i1 > 0 && i2 > 0 {
            assert(at(n, i1, j1) == at(levels, i1 - 1, j1));
            assert(at(n, i2, j2) == at(levels, i2 - 1, j2));
        } else if i1 > 0 {
            assert(at(n, i1, j1) == at(levels, i1 - 1, j1));
            assert(is_pos(levels, i1 - 1, j1));
        } else if i2 > 0 {
            assert(at(n, i2, j2) == at(levels, i2 - 1, j2));
            assert(is_pos(levels, i2 - 1, j2));
        }
    }
    assert forall|x: OrderId| #[trigger] in_levels(n, x) <==> (in_levels(levels, x) || x == o.order_id) by {
        if in_levels(levels, x) {
            let (i, j) = choose|i: int, j: int| is_pos(levels, i, j) && (#[trigger] at(levels, i, j)).order_id == x;
            assert(at(n, i + 1, j) == at(levels, i, j));
        }
        if x == o.order_id {
            assert(at(n, 0, 0) == o);
        }
        if in_levels(n, x) {
            let (i, j) = choose|i: int, j: int| is_pos(n, i, j) && (#[trigger] at(n, i, j)).order_id == x;
            if i > 0 {
                assert(at(n, i, j) == at(levels, i - 1, j));
            }
        }
    }
}

/// A fill-and-kill order never rests: added to a well-formed book at rest, it trades what it
/// can and whatever is left of it is cancelled, so afterwards no order with its id is in the book.
pub proof fn law_fill_and_kill_never_rests(m: BookModel, o: Order, tally: bool)
    requires
        model_wf(m),
        uncrossed(m),
        o.order_type == OrderType::FillAndKill,
        o.price is Some,
        !add_rejected(m, o),
        add_result(m, o, tally) is Some,
    ensures
        !in_book((add_result(m, o, tally)->0).0, o.order_id),
{
    let p = o.price->0;
    let id = o.order_id;
    assert(placed_order(m, o) == o);
    let m1 = book_with(m, o, tally)->0;
    if o.side == Side::Buy {
        assert(m.asks.len() > 0 && p >= m.asks[0].price);
        lemma_insert_at_front(m.bids, p, o, true);
        assert(m1.bids == m.bids.insert(0, LevelModel { price: p, orders: seq![o] }));
        assert(m1.asks == m.asks);
        assert forall|x: OrderId| !(#[trigger] in_levels(m1.bids, x) && in_levels(m1.asks, x)) by {
            assert(!(in_levels(m.bids, x) && in_levels(m.asks, x)));
        }
        assert(fak_at_front(m1.bids, id));
    } else {
        assert(m.bids.len() > 0 && p <= m.bids[0].price);
        lemma_insert_at_front(m.asks, p, o, false);
        assert(m1.asks == m.asks.insert(0, LevelModel { price: p, orders: seq![o] }));
        assert(m1.bids == m.bids);
        assert forall|x: OrderId| !(#[trigger] in_levels(m1.bids, x) && in_levels(m1.asks, x)) by {
            assert(!(in_levels(m.bids, x) && in_levels(m.asks, x)));
        }
        assert(fak_at_front(m1.asks, id));
    }
    assert(model_wf(m1));
    assert(m1.bids.len() > 0 && m1.asks.len() > 0 && m1.bids[0].price >= m1.asks[0].price);
    let bp = m1.bids[0].price;
    let ap = m1.asks[0].price;
    lemma_loop_empties(m1, bp, ap, Seq::empty(), tally);
    lemma_loop_keeps_fak_front(m1, bp, ap, Seq::empty(), id, tally);
    let r1 = (match_loop(m1, bp, ap, Seq::empty(), tally)->0).0;
    lemma_fak_cleanup_wf(r1, tally);
    if fak_at_front(r1.bids, id) {
        law_cancel_takes_out_only_that_order(r1, id, tally);
        let m2 = cancel_spec(r1, id, tally)->0;
        if m2.asks.len() > 0 && m2.asks[0].orders.len() > 0 && m2.asks[0].orders[0].order_type == OrderType::FillAndKill {
            law_cancel_takes_out_only_that_order(m2, m2.asks[0].orders[0].order_id, tally);
        }
    } else if fak_at_front(r1.asks, id) {
        assert(r1.bids.len() == 0);
        law_cancel_takes_out_only_that_order(r1, id, tally);
    }
}


/// On a sorted side some place fits every price: scanning from `k`, where all earlier levels
/// are better, the first level that is not better is it.
proof fn lemma_insert_pos_found(levels: Seq<LevelModel>, p: Price, bid_side: bool, k: int)
    requires
        sorted_levels(levels, bid_side),
        0 <= k <= levels.len(),
        forall|i: int| 0 <= i < k ==> better(#[trigger] levels[i].price, p, bid_side),
    ensures
        is_insert_pos(levels, p, bid_side, insert_pos(levels, p, bid_side)),
    decreases levels.len() - k,
{
    if k == levels.len() {
        assert(is_insert_pos(levels, p, bid_side, k));
    } else if better(levels[k].price, p, bid_side) {
        lemma_insert_pos_found(levels, p, bid_side, k + 1);
    } else {
        assert forall|i: int| k <= i < levels.len() implies !better(#[trigger] levels[i].price, p, bid_side) by {
            if i > k {
                assert(better(levels[k].price, levels[i].price, bid_side));
            }
        }
        assert(is_insert_pos(levels, p, bid_side, k));
    }
}

/// Queuing an order the side does not hold and then taking it out again gives the side
/// back; the order sits at exactly one place, on a level at its price, and the best level
/// afterwards is either the old best level or one at the order's price.
proof fn lemma_insert_then_remove(levels: Seq<LevelModel>, p: Price, o: Order, bid_side: bool)
    requires
        sorted_levels(levels, bid_side),
        nonempty_levels(levels),
        unique_within(levels),
        !in_levels(levels, o.order_id),
    ensures
        ({
            let n = insert_order(levels, p, o, bid_side);
            let (i, j) = pos_of(n, o.order_id);
            &&& in_levels(n, o.order_id)
            &&& is_pos(n, i, j)
            &&& at(n, i, j) == o
            &&& n[i].price == p
            &&& n[i].orders.len() == 1 ==> !has_level(levels, p)
            &&& levels_without(n, i, j) == levels
            &&& n.len() > 0
            &&& n[0].price == p || (levels.len() > 0 && n[0] == levels[0])
            &&& n[0].orders[0] == o || (levels.len() > 0 && n[0].orders[0] == levels[0].orders[0])
        }),
{
    lemma_insert_pos_found(levels, p, bid_side, 0);
    let k = insert_pos(levels, p, bid_side);
    let n = insert_order(levels, p, o, bid_side);
    let id = o.order_id;
    if k < levels.len() && levels[k].price == p {
        let old_orders = levels[k].orders;
        let jk = old_orders.len() as int;
        assert(n == levels.update(k, LevelModel { price: p, orders: old_orders.push(o) }));
        assert(at(n, k, jk) == o);
        assert(in_levels(n, id));
        let (i, j) = pos_of(n, id);
        if i != k {
            assert(at(n, i, j) == at(levels, i, j));
            assert(is_pos(levels, i, j));
        } else if j < jk {
            assert(at(n, i, j) == at(levels, i, j));
            assert(is_pos(levels, i, j));
        }
        assert((i, j) == (k, jk));
        assert(old_orders.push(o).remove(jk) =~= old_orders);
        assert(old_orders.len() > 0);
        assert(levels_without(n, k, jk) =~= levels);
        if k > 0 {
            assert(n[0] == levels[0]);
        } else {
            assert(n[0].orders[0] == levels[0].orders[0]);
        }
    } else {
        let l = LevelModel { price: p, orders: seq![o] };
        assert(n == levels.insert(k, l));
        assert(at(n, k, 0) == o);
        assert(in_levels(n, id));
        let (i, j) = pos_of(n, id);
        if i < k {
            assert(at(n, i, j) == at(levels, i, j));
            assert(is_pos(levels, i, j));
        } else if i > k {
            assert(at(n, i, j) == at(levels, i - 1, j));
            assert(is_pos(levels, i - 1, j));
        }
        assert((i, j) == (k, 0int));
        assert(seq![o].remove(0) =~= Seq::<Order>::empty());
        assert(levels_without(n, k, 0) =~= levels);
        if has_level(levels, p) {
            let x = choose|x: int| 0 <= x < levels.len() && #[trigger] levels[x].price == p;
            if x < k {
                assert(better(levels[x].price, p, bid_side));
            } else if x > k {
                assert(!better(levels[k].price, p, bid_side));
                assert(better(levels[k].price, levels[x].price, bid_side));
            }
        }
        if k > 0 {
            assert(n[0] == levels[0]);
        }
    }
}

/// Whether the first order of the best level on a side is a fill-and-kill order.
pub open spec fn front_is_fak(levels: Seq<LevelModel>) -> bool {
    levels.len() > 0 && levels[0].orders.len() > 0 && levels[0].orders[0].order_type == OrderType::FillAndKill
}

/// Adding a good-till-cancel order that does not cross makes no trade, and cancelling it
/// afterwards gives both sides of the book back as they were (for a book at rest with no
/// fill-and-kill order at the front of a side).
pub proof fn law_add_then_cancel_restores_sides(m: BookModel, o: Order, tally: bool)
    requires
        model_wf(m),
        uncrossed(m),
        !front_is_fak(m.bids),
        !front_is_fak(m.asks),
        o.order_type == OrderType::GoodTillCancel,
        o.price is Some,
        o.remaining_quantity <= o.initial_quantity,
        !in_book(m, o.order_id),
        !can_match_spec(m, o.side, o.price->0),
        add_result(m, o, tally) is Some,
    ensures
        !add_rejected(m, o),
        (add_result(m, o, tally)->0).1.len() == 0,
        cancel_spec((add_result(m, o, tally)->0).0, o.order_id, tally) is Some,
        (cancel_spec((add_result(m, o, tally)->0).0, o.order_id, tally)->0).bids == m.bids,
        (cancel_spec((add_result(m, o, tally)->0).0, o.order_id, tally)->0).asks == m.asks,
{
    let p = o.price->0;
    let id = o.order_id;
    assert(placed_order(m, o) == o);
    let m1 = book_with(m, o, tally)->0;
    let d0 = if m.data.contains_key(p) {
        m.data
    } else {
        m.data.insert(p, 0)
    };
    if tally {
        assert(m1.data == d0.insert(p, (d0[p] + o.initial_quantity) as Quantity));
    }
    if o.side == Side::Buy {
        lemma_insert_then_remove(m.bids, p, o, true);
        assert(m1.bids == insert_order(m.bids, p, o, true));
        assert(m1.asks == m.asks);
        assert(!(m1.bids.len() > 0 && m1.asks.len() > 0 && m1.bids[0].price >= m1.asks[0].price));
        assert(match_orders_spec(m1, tally) == Some((m1, Seq::<Trade>::empty())));
        assert(!in_levels(m.asks, id));
        assert(in_levels(m1.bids, id));
        let (i, j) = pos_of(m1.bids, id);
        if tally {
            assert(at(m1.bids, i, j).remaining_quantity <= m1.data[p]);
        }
    } else {
        lemma_insert_then_remove(m.asks, p, o, false);
        assert(m1.asks == insert_order(m.asks, p, o, false));
        assert(m1.bids == m.bids);
        assert(!(m1.bids.len() > 0 && m1.asks.len() > 0 && m1.bids[0].price >= m1.asks[0].price));
        assert(match_orders_spec(m1, tally) == Some((m1, Seq::<Trade>::empty())));
        assert(!in_levels(m.bids, id));
        assert(in_levels(m1.asks, id));
        let (i, j) = pos_of(m1.asks, id);
        if tally {
            assert(at(m1.asks, i, j).remaining_quantity <= m1.data[p]);
        }
    }
}

/// Whether `ids` lists, once each, exactly the resting orders of type `t`.
pub open spec fn resting_of_type(m: BookModel, t: OrderType, ids: Seq<OrderId>) -> bool {
    &&& ids.no_duplicates()
    &&& forall|x: OrderId| #[trigger] ids.contains(x) <==> (in_book(m, x) && order_in_book(m, x).order_type == t)
}

/// Without tallies, matching always goes through.
proof fn lemma_untallied_loop_total(m: BookModel, bp: Price, ap: Price, trades: Seq<Trade>)
    ensures
        match_loop(m, bp, ap, trades, false) is Some,
    decreases level_count(m.bids) + level_count(m.asks),
{
    if fronts_exist(m) {
        let (m2, t) = match_step(m, bp, ap, false)->0;
        if level_count(m2.bids) + level_count(m2.asks) < level_count(m.bids) + level_count(m.asks) {
            lemma_untallied_loop_total(m2, bp, ap, trades.push(t));
        }
    }
}

/// Without tallies, cancelling, matching and adding always go through.
pub proof fn lemma_untallied_total(m: BookModel, o: Order, id: OrderId)
    ensures
        cancel_spec(m, id, false) is Some,
        match_orders_spec(m, false) is Some,
        add_result(m, o, false) is Some,
{
    if m.bids.len() > 0 && m.asks.len() > 0 && m.bids[0].price >= m.asks[0].price {
        lemma_untallied_loop_total(m, m.bids[0].price, m.asks[0].price, Seq::empty());
    }
    let m1 = book_with(m, o, false)->0;
    if m1.bids.len() > 0 && m1.asks.len() > 0 && m1.bids[0].price >= m1.asks[0].price {
        lemma_untallied_loop_total(m1, m1.bids[0].price, m1.asks[0].price, Seq::empty());
    }
}

/// Queuing an order the side does not hold keeps the side well-formed, and adds its id.
proof fn lemma_insert_order_wf(levels: Seq<LevelModel>, p: Price, o: Order, bid_side: bool)
    requires
        sorted_levels(levels, bid_side),
        nonempty_levels(levels),
        unique_within(levels),
        !in_levels(levels, o.order_id),
    ensures
        sorted_levels(insert_order(levels, p, o, bid_side), bid_side),
        nonempty_levels(insert_order(levels, p, o, bid_side)),
        unique_within(insert_order(levels, p, o, bid_side)),
        forall|x: OrderId| #[trigger] in_levels(insert_order(levels, p, o, bid_side), x) <==> (in_levels(levels, x)
            || x == o.order_id),
{
    lemma_insert_pos_found(levels, p, bid_side, 0);
    let k = insert_pos(levels, p, bid_side);
    let n = insert_order(levels, p, o, bid_side);
    if k < levels.len() && levels[k].price == p {
        let jk = levels[k].orders.len() as int;
        assert(n == levels.update(k, LevelModel { price: p, orders: levels[k].orders.push(o) }));
        assert forall|i: int, j: int| 0 <= i < j < n.len() implies better(#[trigger] n[i].price, #[trigger] n[j].price, bid_side) by {
            assert(n[i].price == levels[i].price);
            assert(n[j].price == levels[j].price);
        }
        assert forall|i: int| 0 <= i < n.len() implies #[trigger] n[i].orders.len() > 0 by {
            if i != k {
                assert(n[i] == levels[i]);
            }
        }
        assert forall|i1: int, j1: int, i2: int, j2: int|
            is_pos(n, i1, j1) && is_pos(n, i2, j2) && (#[trigger] at(n, i1, j1)).order_id == (#[trigger] at(n, i2, j2)).order_id
            implies i1 == i2 && j1 == j2 by {
            let old1 = !(i1 == k && j1 == jk);
            let old2 = !(i2 == k && j2 == jk);
            if old1 {
                assert(at(n, i1, j1) == at(levels, i1, j1));
                assert(is_pos(levels, i1, j1));
            }
            if old2 {
                assert(at(n, i2, j2) == at(levels, i2, j2));
                assert(is_pos(levels, i2, j2));
            }
        }
        assert forall|x: OrderId| #[trigger] in_levels(n, x) <==> (in_levels(levels, x) || x == o.order_id) by {
            if in_levels(levels, x) {
                let (i, j) = choose|i: int, j: int| is_pos(levels, i, j) && (#[trigger] at(levels, i, j)).order_id == x;
                assert(at(n, i, j) == at(levels, i, j));
            }
            if x == o.order_id {
                assert(at(n, k, jk) == o);
            }
            if in_levels(n, x) {
                let (i, j) = choose|i: int, j: int| is_pos(n, i, j) && (#[trigger] at(n, i, j)).order_id == x;
                if !(i == k && j == jk) {
                    assert(at(n, i, j) == at(levels, i, j));
                }
            }
        }
    } else {
        let l = LevelModel { price: p, orders: seq![o] };
        assert(n == levels.insert(k, l));
        assert forall|i: int, j: int| 0 <= i < j < n.len() implies better(#[trigger] n[i].price, #[trigger] n[j].price, bid_side) by {
            if j < k {
                assert(n[i] == levels[i] && n[j] == levels[j]);
            } else if j == k {
                assert(n[i] == levels[i]);
            } else if i == k {
                assert(n[j] == levels[j - 1]);
                assert(!better(levels[j - 1].price, p, bid_side));
                if j - 1 > k {
                    assert(better(levels[k].price, levels[j - 1].price, bid_side));
                    assert(levels[k].price != p);
                } else {
                    assert(levels[k].price != p);
                }
            } else if i < k {
                assert(n[i] == levels[i] && n[j] == levels[j - 1]);
            } else {
                assert(n[i] == levels[i - 1] && n[j] == levels[j - 1]);
            }
        }
        assert forall|i: int| 0 <= i < n.len() implies #[trigger] n[i].orders.len() > 0 by {
            if i < k {
                assert(n[i] == levels[i]);
            } else if i > k {
                assert(n[i] == levels[i - 1]);
            }
        }
        assert forall|i1: int, j1: int, i2: int, j2: int|
            is_pos(n, i1, j1) && is_pos(n, i2, j2) && (#[trigger] at(n, i1, j1)).order_id == (#[trigger] at(n, i2, j2)).order_id
            implies i1 == i2 && j1 == j2 by {
            if i1 < k {
                assert(at(n, i1, j1) == at(levels, i1, j1));
                assert(is_pos(levels, i1, j1));
            } else if i1 > k {
                assert(at(n, i1, j1) == at(levels, i1 - 1, j1));
                assert(is_pos(levels, i1 - 1, j1));
            }
            if i2 < k {
                assert(at(n, i2, j2) == at(levels, i2, j2));
                assert(is_pos(levels, i2, j2));
            } else if i2 > k {
                assert(at(n, i2, j2) == at(levels, i2 - 1, j2));
                assert(is_pos(levels, i2 - 1, j2));
            }
            if i1 != k && i2 != k {
                let a1 = if i1 < k { i1 } else { i1 - 1 };
                let a2 = if i2 < k { i2 } else { i2 - 1 };
                assert(at(levels, a1, j1).order_id == at(levels, a2, j2).order_id);
            }
        }
        assert forall|x: OrderId| #[trigger] in_levels(n, x) <==> (in_levels(levels, x) || x == o.order_id) by {
            if in_levels(levels, x) {
                let (i, j) = choose|i: int, j: int| is_pos(levels, i, j) && (#[trigger] at(levels, i, j)).order_id == x;
                if i < k {
                    assert(at(n, i, j) == at(levels, i, j));
                } else {
                    assert(at(n, i + 1, j) == at(levels, i, j));
                }
            }
            if x == o.order_id {
                assert(at(n, k, 0) == o);
            }
            if in_levels(n, x) {
                let (i, j) = choose|i: int, j: int| is_pos(n, i, j) && (#[trigger] at(n, i, j)).order_id == x;
                if i < k {
                    assert(at(n, i, j) == at(levels, i, j));
                } else if i > k {
                    assert(at(n, i, j) == at(levels, i - 1, j));
                }
            }
        }
    }
}

/// Queuing an order whose id does not rest keeps the model well-formed.
pub proof fn lemma_book_with_wf(m: BookModel, o: Order, tally: bool)
    requires
        model_wf(m),
        !in_book(m, o.order_id),
        book_with(m, o, tally) is Some,
    ensures
        model_wf(book_with(m, o, tally)->0),
        forall|x: OrderId| #[trigger] in_book(book_with(m, o, tally)->0, x) <==> (in_book(m, x) || x == o.order_id),
{
    let p = o.price->0;
    let o2 = placed_order(m, o);
    let n = book_with(m, o, tally)->0;
    if o.side == Side::Buy {
        lemma_insert_order_wf(m.bids, p, o2, true);
        assert(n.bids == insert_order(m.bids, p, o2, true));
        assert(n.asks == m.asks);
    } else {
        lemma_insert_order_wf(m.asks, p, o2, false);
        assert(n.asks == insert_order(m.asks, p, o2, false));
        assert(n.bids == m.bids);
    }
    assert forall|x: OrderId| !(#[trigger] in_levels(n.bids, x) && in_levels(n.asks, x)) by {
        assert(!(in_levels(m.bids, x) && in_levels(m.asks, x)));
    }
}

/// Adding an order that is not turned away leaves a well-formed book well-formed and at rest.
pub proof fn lemma_add_result_at_rest(m: BookModel, o: Order, tally: bool)
    requires
        model_wf(m),
        !add_rejected(m, o),
        add_result(m, o, tally) is Some,
    ensures
        model_wf((add_result(m, o, tally)->0).0),
        uncrossed((add_result(m, o, tally)->0).0),
{
    lemma_book_with_wf(m, o, tally);
    law_matching_leaves_book_at_rest(book_with(m, o, tally)->0, tally);
}

/// Cancelling a list of orders keeps a well-formed book well-formed, and a book at rest at rest.
pub proof fn lemma_cancel_all_at_rest(m: BookModel, ids: Seq<OrderId>, tally: bool)
    requires
        model_wf(m),
        cancel_all_spec(m, ids, tally) is Some,
    ensures
        model_wf(cancel_all_spec(m, ids, tally)->0),
        uncrossed(m) ==> uncrossed(cancel_all_spec(m, ids, tally)->0),
    decreases ids.len(),
{
    if ids.len() > 0 {
        law_cancel_takes_out_only_that_order(m, ids[0], tally);
        lemma_cancel_all_at_rest(cancel_spec(m, ids[0], tally)->0, ids.drop_first(), tally);
    }
}

/// The matching loop only appends trades.
proof fn lemma_loop_keeps_prefix(m: BookModel, bp: Price, ap: Price, trades: Seq<Trade>, tally: bool)
    requires
        match_loop(m, bp, ap, trades, tally) is Some,
    ensures
        (match_loop(m, bp, ap, trades, tally)->0).1.len() >= trades.len(),
        forall|i: int| 0 <= i < trades.len() ==> (match_loop(m, bp, ap, trades, tally)->0).1[i] == trades[i],
    decreases level_count(m.bids) + level_count(m.asks),
{
    if fronts_exist(m) {
        let (m2, t) = match_step(m, bp, ap, tally)->0;
        let t2 = trades.push(t);
        if level_count(m2.bids) + level_count(m2.asks) < level_count(m.bids) + level_count(m.asks) {
            lemma_loop_keeps_prefix(m2, bp, ap, t2, tally);
            assert forall|i: int| 0 <= i < trades.len() implies (match_loop(m, bp, ap, trades, tally)->0).1[i] == trades[i] by {
                assert(t2[i] == trades[i]);
            }
        }
    }
}

/// Price and time priority: when the book crosses, the first trade takes the first order of
/// the best bid level and the first order of the best ask level, for the smaller of their
/// remainders, at those two levels' prices.
pub proof fn law_first_trade_takes_the_fronts(m: BookModel, tally: bool)
    requires
        model_wf(m),
        m.bids.len() > 0,
        m.asks.len() > 0,
        m.bids[0].price >= m.asks[0].price,
        match_orders_spec(m, tally) is Some,
    ensures
        ({
            let t = (match_orders_spec(m, tally)->0).1;
            let b = m.bids[0].orders[0];
            let a = m.asks[0].orders[0];
            &&& t.len() > 0
            &&& t[0].bid_trade.order_id == b.order_id
            &&& t[0].ask_trade.order_id == a.order_id
            &&& t[0].bid_trade.price == m.bids[0].price
            &&& t[0].ask_trade.price == m.asks[0].price
            &&& t[0].bid_trade.quantity == min_q(b.remaining_quantity, a.remaining_quantity)
            &&& t[0].ask_trade.quantity == min_q(b.remaining_quantity, a.remaining_quantity)
        }),
{
    let bp = m.bids[0].price;
    let ap = m.asks[0].price;
    assert(m.bids[0].orders.len() > 0);
    assert(m.asks[0].orders.len() > 0);
    assert(fronts_exist(m));
    let (m2, t) = match_step(m, bp, ap, tally)->0;
    lemma_step_decreases(m, bp, ap, tally);
    lemma_loop_keeps_prefix(m2, bp, ap, Seq::<Trade>::empty().push(t), tally);
    assert(Seq::<Trade>::empty().push(t)[0] == t);
}


/// Every order on a side has something left to fill.
pub open spec fn all_positive(levels: Seq<LevelModel>) -> bool {
    forall|i: int, j: int| is_pos(levels, i, j) ==> (#[trigger] at(levels, i, j)).remaining_quantity > 0
}

/// Every resting order of the book has something left to fill.
pub open spec fn book_positive(m: BookModel) -> bool {
    all_positive(m.bids) && all_positive(m.asks)
}

/// Taking an order out of a side leaves every other order as it was.
proof fn lemma_without_positive(levels: Seq<LevelModel>, i: int, j: int)
    requires
        all_positive(levels),
        is_pos(levels, i, j),
    ensures
        all_positive(levels_without(levels, i, j)),
{
    let r = levels_without(levels, i, j);
    let rest = levels[i].orders.remove(j);
    assert forall|a: int, b: int| is_pos(r, a, b) implies (#[trigger] at(r, a, b)).remaining_quantity > 0 by {
        if rest.len() == 0 {
            let a2 = if a < i {
                a
            } else {
                a + 1
            };
            assert(at(r, a, b) == at(levels, a2, b));
        } else if a == i {
            let b2 = if b < j {
                b
            } else {
                b + 1
            };
            assert(at(r, a, b) == at(levels, a, b2));
        } else {
            assert(at(r, a, b) == at(levels, a, b));
        }
    }
}

/// The front order filled to `o`, which leaves if nothing remains, keeps the side positive.
proof fn lemma_front_fill_positive(levels: Seq<LevelModel>, o: Order)
    requires
        all_positive(levels),
        levels.len() > 0,
        levels[0].orders.len() > 0,
    ensures
        all_positive(front_after_fill(levels, o)),
{
    if o.remaining_quantity == 0 {
        lemma_without_positive(levels, 0, 0);
    } else {
        let r = front_after_fill(levels, o);
        assert forall|a: int, b: int| is_pos(r, a, b) implies (#[trigger] at(r, a, b)).remaining_quantity > 0 by {
            if !(a == 0 && b == 0) {
                assert(at(r, a, b) == at(levels, a, b));
            }
        }
    }
}

/// Cancelling keeps the book positive.
proof fn lemma_cancel_positive(m: BookModel, id: OrderId, tally: bool)
    requires
        book_positive(m),
        cancel_spec(m, id, tally) is Some,
    ensures
        book_positive(cancel_spec(m, id, tally)->0),
{
    if in_levels(m.bids, id) {
        let (i, j) = pos_of(m.bids, id);
        lemma_without_positive(m.bids, i, j);
    } else if in_levels(m.asks, id) {
        let (i, j) = pos_of(m.asks, id);
        lemma_without_positive(m.asks, i, j);
    }
}

/// Matching from a positive book adds trades of positive quantities only and keeps the book positive.
proof fn lemma_loop_positive(m: BookModel, bp: Price, ap: Price, trades: Seq<Trade>, tally: bool)
    requires
        book_positive(m),
        forall|k: int| 0 <= k < trades.len() ==> (#[trigger] trades[k]).bid_trade.quantity > 0 && trades[k].ask_trade.quantity > 0,
        match_loop(m, bp, ap, trades, tally) is Some,
    ensures
        book_positive((match_loop(m, bp, ap, trades, tally)->0).0),
        forall|k: int|
            0 <= k < (match_loop(m, bp, ap, trades, tally)->0).1.len() ==> (#[trigger] (match_loop(
                m,
                bp,
                ap,
                trades,
                tally,
            )->0).1[k]).bid_trade.quantity > 0 && (match_loop(m, bp, ap, trades, tally)->0).1[k].ask_trade.quantity > 0,
    decreases level_count(m.bids) + level_count(m.asks),
{
    if fronts_exist(m) {
        let (m2, t) = match_step(m, bp, ap, tally)->0;
        let b = m.bids[0].orders[0];
        let a = m.asks[0].orders[0];
        assert(b == at(m.bids, 0, 0));
        assert(a == at(m.asks, 0, 0));
        let q = min_q(b.remaining_quantity, a.remaining_quantity);
        lemma_front_fill_positive(m.bids, filled_by(b, q));
        lemma_front_fill_positive(m.asks, filled_by(a, q));
        assert(t.bid_trade.quantity > 0 && t.ask_trade.quantity > 0);
        let ts = trades.push(t);
        assert forall|k: int| 0 <= k < ts.len() implies (#[trigger] ts[k]).bid_trade.quantity > 0 && ts[k].ask_trade.quantity > 0 by {
            if k < trades.len() {
                assert(ts[k] == trades[k]);
            }
        }
        if level_count(m2.bids) + level_count(m2.asks) < level_count(m.bids) + level_count(m.asks) {
            lemma_loop_positive(m2, bp, ap, ts, tally);
        }
    }
}

/// Matching a book in which every resting order has something left makes trades of positive
/// quantities only, and every order left resting still has something left.
pub proof fn law_matching_trades_are_positive(m: BookModel, tally: bool)
    requires
        book_positive(m),
        match_orders_spec(m, tally) is Some,
    ensures
        book_positive((match_orders_spec(m, tally)->0).0),
        forall|k: int|
            0 <= k < (match_orders_spec(m, tally)->0).1.len() ==> {
                let t = #[trigger] (match_orders_spec(m, tally)->0).1[k];
                t.bid_trade.quantity > 0 && t.ask_trade.quantity > 0
            },
{
    let r = if m.bids.len() > 0 && m.asks.len() > 0 && m.bids[0].price >= m.asks[0].price {
        match_loop(m, m.bids[0].price, m.asks[0].price, Seq::empty(), tally)
    } else {
        Some((m, Seq::empty()))
    };
    if m.bids.len() > 0 && m.asks.len() > 0 && m.bids[0].price >= m.asks[0].price {
        lemma_loop_positive(m, m.bids[0].price, m.asks[0].price, Seq::empty(), tally);
    }
    let (m1, ts) = r->0;
    let r2 = if m1.bids.len() > 0 && m1.bids[0].orders.len() > 0 && m1.bids[0].orders[0].order_type
        == OrderType::FillAndKill {
        cancel_spec(m1, m1.bids[0].orders[0].order_id, tally)
    } else {
        Some(m1)
    };
    if m1.bids.len() > 0 && m1.bids[0].orders.len() > 0 && m1.bids[0].orders[0].order_type
        == OrderType::FillAndKill {
        lemma_cancel_positive(m1, m1.bids[0].orders[0].order_id, tally);
    }
    let m2 = r2->0;
    if m2.asks.len() > 0 && m2.asks[0].orders.len() > 0 && m2.asks[0].orders[0].order_type
        == OrderType::FillAndKill {
        lemma_cancel_positive(m2, m2.asks[0].orders[0].order_id, tally);
    }
}


/// The order standing under an id on a side.
pub open spec fn order_on(levels: Seq<LevelModel>, x: OrderId) -> Order {
    let (i, j) = pos_of(levels, x);
    at(levels, i, j)
}

/// What is left of the order `x` in the book: nothing where it does not rest.
pub open spec fn rem_of(m: BookModel, x: OrderId) -> int {
    if in_book(m, x) {
        order_in_book(m, x).remaining_quantity as int
    } else {
        0
    }
}

/// How much of the order `x` one trade fills.
pub open spec fn traded_by(t: Trade, x: OrderId) -> int {
    (if t.bid_trade.order_id == x {
        t.bid_trade.quantity as int
    } else {
        0
    }) + (if t.ask_trade.order_id == x {
        t.ask_trade.quantity as int
    } else {
        0
    })
}

/// How much of the order `x` a run of trades fills.
pub open spec fn traded(ts: Seq<Trade>, x: OrderId) -> int
    decreases ts.len(),
{
    if ts.len() == 0 {
        0
    } else {
        traded(ts.drop_last(), x) + traded_by(ts.last(), x)
    }
}

/// Taking out the order at `(i, j)` leaves every other order where its id finds it.
proof fn lemma_without_keeps_others(levels: Seq<LevelModel>, i: int, j: int, bid_side: bool, x: OrderId)
    requires
        sorted_levels(levels, bid_side),
        nonempty_levels(levels),
        unique_within(levels),
        is_pos(levels, i, j),
        in_levels(levels_without(levels, i, j), x),
    ensures
        x != at(levels, i, j).order_id,
        in_levels(levels, x),
        order_on(levels_without(levels, i, j), x) == order_on(levels, x),
{
    lemma_levels_without(levels, i, j, bid_side);
    let n = levels_without(levels, i, j);
    let (c, d) = choose|c: int, d: int| is_pos(n, c, d) && (#[trigger] at(n, c, d)).order_id == x;
    assert(is_pos(n, c, d));
    let (a, b) = choose|a: int, b: int|
        is_pos(levels, a, b) && (a, b) != (i, j) && pos_after_removal(levels, i, j, a, b) == (c, d);
    assert(at(n, c, d) == at(levels, a, b));
    lemma_pos_of_unique(n, c, d);
    lemma_pos_of_unique(levels, a, b);
}

/// Replacing the front order by `o` leaves every other order where its id finds it.
proof fn lemma_update_keeps_others(levels: Seq<LevelModel>, o: Order, bid_side: bool, x: OrderId)
    requires
        sorted_levels(levels, bid_side),
        nonempty_levels(levels),
        unique_within(levels),
        levels.len() > 0,
        o.order_id == levels[0].orders[0].order_id,
        in_levels(levels, x),
    ensures
        order_on(levels.update(0, LevelModel { price: levels[0].price, orders: levels[0].orders.update(0, o) }), x)
            == (if x == o.order_id {
            o
        } else {
            order_on(levels, x)
        }),
{
    lemma_front_update(levels, o, bid_side);
    let n = levels.update(0, LevelModel { price: levels[0].price, orders: levels[0].orders.update(0, o) });
    let (a, b) = choose|a: int, b: int| is_pos(levels, a, b) && (#[trigger] at(levels, a, b)).order_id == x;
    assert(is_pos(n, a, b));
    lemma_pos_of_unique(levels, a, b);
    assert(is_pos(levels, 0, 0));
    lemma_pos_of_unique(levels, 0, 0);
    if a == 0 && b == 0 {
        assert(at(n, a, b) == o);
    } else {
        assert(at(n, a, b) == at(levels, a, b));
    }
    lemma_pos_of_unique(n, a, b);
}

/// Filling the front order to `o` leaves every other order where its id finds it.
proof fn lemma_fill_keeps_others(levels: Seq<LevelModel>, o: Order, bid_side: bool, x: OrderId)
    requires
        sorted_levels(levels, bid_side),
        nonempty_levels(levels),
        unique_within(levels),
        levels.len() > 0,
        o.order_id == levels[0].orders[0].order_id,
        in_levels(front_after_fill(levels, o), x),
    ensures
        in_levels(levels, x),
        order_on(front_after_fill(levels, o), x) == (if x == o.order_id {
            o
        } else {
            order_on(levels, x)
        }),
{
    lemma_front_after_fill(levels, o, bid_side);
    if o.remaining_quantity == 0 {
        assert(is_pos(levels, 0, 0));
        lemma_without_keeps_others(levels, 0, 0, bid_side, x);
    } else {
        lemma_update_keeps_others(levels, o, bid_side, x);
    }
}

/// One match fills each of the two front orders by the trade's quantity and leaves every other
/// order as it was; no order changes its type.
proof fn lemma_step_conserves(m: BookModel, bp: Price, ap: Price, tally: bool)
    requires
        model_wf(m),
        fronts_exist(m),
        match_step(m, bp, ap, tally) is Some,
    ensures
        forall|x: OrderId|
            rem_of(m, x) - rem_of((match_step(m, bp, ap, tally)->0).0, x) == #[trigger] traded_by(
                (match_step(m, bp, ap, tally)->0).1,
                x,
            ),
        forall|x: OrderId|
            #[trigger] in_book((match_step(m, bp, ap, tally)->0).0, x) ==> order_in_book(
                (match_step(m, bp, ap, tally)->0).0,
                x,
            ).order_type == order_in_book(m, x).order_type,
{
    let (n, t) = match_step(m, bp, ap, tally)->0;
    let b = m.bids[0].orders[0];
    let a = m.asks[0].orders[0];
    let q = min_q(b.remaining_quantity, a.remaining_quantity);
    let b2 = filled_by(b, q);
    let a2 = filled_by(a, q);
    lemma_front_after_fill(m.bids, b2, true);
    lemma_front_after_fill(m.asks, a2, false);
    assert(n.bids == front_after_fill(m.bids, b2));
    assert(n.asks == front_after_fill(m.asks, a2));
    assert(is_pos(m.bids, 0, 0) && at(m.bids, 0, 0) == b);
    assert(is_pos(m.asks, 0, 0) && at(m.asks, 0, 0) == a);
    lemma_pos_of_unique(m.bids, 0, 0);
    lemma_pos_of_unique(m.asks, 0, 0);
    assert(in_levels(m.bids, b.order_id));
    assert(in_levels(m.asks, a.order_id));
    assert(!in_levels(m.asks, b.order_id));
    assert(!in_levels(m.bids, a.order_id));
    assert(b.order_id != a.order_id);
    assert forall|x: OrderId| rem_of(m, x) - rem_of(n, x) == #[trigger] traded_by(t, x) by {
        if in_levels(n.bids, x) {
            lemma_fill_keeps_others(m.bids, b2, true, x);
        }
        if in_levels(n.asks, x) {
            lemma_fill_keeps_others(m.asks, a2, false, x);
        }
    }
    assert forall|x: OrderId| #[trigger] in_book(n, x) implies order_in_book(n, x).order_type == order_in_book(
        m,
        x,
    ).order_type by {
        if in_levels(n.bids, x) {
            lemma_fill_keeps_others(m.bids, b2, true, x);
        }
        if in_levels(n.asks, x) {
            lemma_fill_keeps_others(m.asks, a2, false, x);
        }
    }
}

/// Matching fills each order by exactly what its trades say, leaves every other order as it
/// was, and changes no order's type.
proof fn lemma_loop_conserves(m: BookModel, bp: Price, ap: Price, trades: Seq<Trade>, tally: bool)
    requires
        model_wf(m),
        match_loop(m, bp, ap, trades, tally) is Some,
    ensures
        forall|x: OrderId|
            rem_of(m, x) - rem_of((match_loop(m, bp, ap, trades, tally)->0).0, x) == #[trigger] traded(
                (match_loop(m, bp, ap, trades, tally)->0).1,
                x,
            ) - traded(trades, x),
        forall|x: OrderId|
            #[trigger] in_book((match_loop(m, bp, ap, trades, tally)->0).0, x) ==> order_in_book(
                (match_loop(m, bp, ap, trades, tally)->0).0,
                x,
            ).order_type == order_in_book(m, x).order_type,
        forall|x: OrderId| #[trigger] in_book((match_loop(m, bp, ap, trades, tally)->0).0, x) ==> in_book(m, x),
    decreases level_count(m.bids) + level_count(m.asks),
{
    if fronts_exist(m) {
        let (m2, t) = match_step(m, bp, ap, tally)->0;
        lemma_step_wf(m, bp, ap, tally);
        lemma_step_conserves(m, bp, ap, tally);
        let ts = trades.push(t);
        assert(ts.drop_last() =~= trades);
        assert forall|x: OrderId| #[trigger] traded(ts, x) == traded(trades, x) + traded_by(t, x) by {}
        if level_count(m2.bids) + level_count(m2.asks) < level_count(m.bids) + level_count(m.asks) {
            lemma_loop_conserves(m2, bp, ap, ts, tally);
            let fin = (match_loop(m, bp, ap, trades, tally)->0).0;
            assert forall|x: OrderId| #[trigger] in_book(fin, x) implies order_in_book(fin, x).order_type
                == order_in_book(m, x).order_type by {
                lemma_step_wf(m, bp, ap, tally);
                assert(in_book(m2, x));
            }
        }
    }
}

/// Cancelling leaves every other resting order as it was.
proof fn lemma_cancel_keeps_others(m: BookModel, id: OrderId, tally: bool)
    requires
        model_wf(m),
        cancel_spec(m, id, tally) is Some,
    ensures
        forall|x: OrderId|
            #[trigger] in_book(cancel_spec(m, id, tally)->0, x) ==> order_in_book(cancel_spec(m, id, tally)->0, x)
                == order_in_book(m, x),
{
    let n = cancel_spec(m, id, tally)->0;
    law_cancel_takes_out_only_that_order(m, id, tally);
    assert forall|x: OrderId| #[trigger] in_book(n, x) implies order_in_book(n, x) == order_in_book(m, x) by {
        if in_levels(m.bids, id) {
            let (i, j) = pos_of(m.bids, id);
            if in_levels(n.bids, x) {
                lemma_without_keeps_others(m.bids, i, j, true, x);
            } else {
                assert(in_levels(m.asks, x));
            }
        } else if in_levels(m.asks, id) {
            let (i, j) = pos_of(m.asks, id);
            if in_levels(n.asks, x) && !in_levels(n.bids, x) {
                lemma_without_keeps_others(m.asks, i, j, false, x);
            }
        }
    }
}

/// Matching moves quantity only through trades: an order that still rests afterwards, or never
/// rested, was filled by exactly the quantities of the trades naming it; an order matching took
/// out was filled completely, unless it was a fill-and-kill order left at the front, which is
/// cancelled with what its trades did not fill.
pub proof fn law_matching_conserves_quantities(m: BookModel, tally: bool)
    requires
        model_wf(m),
        match_orders_spec(m, tally) is Some,
    ensures
        ({
            let (fin, ts) = match_orders_spec(m, tally)->0;
            &&& forall|x: OrderId|
                (in_book(fin, x) || !in_book(m, x)) ==> rem_of(m, x) - rem_of(fin, x) == #[trigger] traded(ts, x)
            &&& forall|x: OrderId|
                in_book(m, x) && !in_book(fin, x) && order_in_book(m, x).order_type != OrderType::FillAndKill
                    ==> #[trigger] traded(ts, x) == rem_of(m, x)
        }),
{
    let crossed = m.bids.len() > 0 && m.asks.len() > 0 && m.bids[0].price >= m.asks[0].price;
    let r = if crossed {
        match_loop(m, m.bids[0].price, m.asks[0].price, Seq::empty(), tally)
    } else {
        Some((m, Seq::empty()))
    };
    if crossed {
        lemma_loop_conserves(m, m.bids[0].price, m.asks[0].price, Seq::empty(), tally);
        lemma_loop_empties(m, m.bids[0].price, m.asks[0].price, Seq::empty(), tally);
    }
    let (m1, ts) = r->0;
    assert(model_wf(m1));
    assert forall|x: OrderId| #[trigger] traded(Seq::<Trade>::empty(), x) == 0 by {}
    assert forall|x: OrderId| rem_of(m, x) - rem_of(m1, x) == #[trigger] traded(ts, x) by {
        if !crossed {
            assert(traded(ts, x) == 0);
        }
    }
    assert forall|x: OrderId| #[trigger] in_book(m1, x) implies order_in_book(m1, x).order_type == order_in_book(
        m,
        x,
    ).order_type by {}
    let bid_fak = m1.bids.len() > 0 && m1.bids[0].orders.len() > 0 && m1.bids[0].orders[0].order_type
        == OrderType::FillAndKill;
    let m2 = if bid_fak {
        cancel_spec(m1, m1.bids[0].orders[0].order_id, tally)->0
    } else {
        m1
    };
    if bid_fak {
        let id = m1.bids[0].orders[0].order_id;
        law_cancel_takes_out_only_that_order(m1, id, tally);
        lemma_cancel_keeps_others(m1, id, tally);
        assert(is_pos(m1.bids, 0, 0) && at(m1.bids, 0, 0).order_id == id);
        lemma_pos_of_unique(m1.bids, 0, 0);
        assert(in_book(m1, id) && order_in_book(m1, id).order_type == OrderType::FillAndKill);
    }
    let ask_fak = m2.asks.len() > 0 && m2.asks[0].orders.len() > 0 && m2.asks[0].orders[0].order_type
        == OrderType::FillAndKill;
    let fin = if ask_fak {
        cancel_spec(m2, m2.asks[0].orders[0].order_id, tally)->0
    } else {
        m2
    };
    if ask_fak {
        let id = m2.asks[0].orders[0].order_id;
        law_cancel_takes_out_only_that_order(m2, id, tally);
        lemma_cancel_keeps_others(m2, id, tally);
        assert(is_pos(m2.asks, 0, 0) && at(m2.asks, 0, 0).order_id == id);
        lemma_pos_of_unique(m2.asks, 0, 0);
        assert(in_levels(m2.asks, id));
        assert(!in_levels(m2.bids, id));
        assert(in_book(m2, id) && order_in_book(m2, id).order_type == OrderType::FillAndKill);
    }
    assert(fin == (match_orders_spec(m, tally)->0).0);
    assert(ts == (match_orders_spec(m, tally)->0).1);
}


/// Two tally maps hold the same tallies at every price from `lo` to `hi`.
pub open spec fn tallies_agree(d1: Map<Price, Quantity>, d2: Map<Price, Quantity>, lo: Price, hi: Price) -> bool {
    forall|p: Price|
        lo <= p <= hi ==> (#[trigger] d1.contains_key(p) == d2.contains_key(p) && (d1.contains_key(p) ==> d1[p]
            == d2[p]))
}

/// Totals over one set of prices agree where the tallies agree on it.
proof fn lemma_qty_sum_agree(s: Set<Price>, d1: Map<Price, Quantity>, d2: Map<Price, Quantity>)
    requires
        s.finite(),
        forall|p: Price| #[trigger] s.contains(p) ==> d1[p] == d2[p],
    ensures
        qty_sum(s, d1) == qty_sum(s, d2),
    decreases s.len(),
{
    if s.len() == 0 {
        assert(s =~= Set::empty());
        lemma_qty_sum_empty(d1);
        lemma_qty_sum_empty(d2);
    } else {
        let x = s.choose();
        let s2 = s.remove(x);
        lemma_qty_sum_agree(s2, d1, d2);
        lemma_qty_sum_insert(s2, d1, x);
        lemma_qty_sum_insert(s2, d2, x);
        assert(s2.insert(x) =~= s);
    }
}

/// Only the tallies an order could reach count towards filling it: for a buy those from the
/// best ask up to its limit, for a sell those from its limit up to the best bid. Two books with
/// the same orders whose tallies agree on that range give the same answer, whatever their
/// tallies at other prices (such as the buy side's own prices, for a buy).
pub proof fn law_fill_counts_only_reachable_tallies(
    m1: BookModel,
    m2: BookModel,
    side: Side,
    price: Price,
    quantity: Quantity,
)
    requires
        m1.bids == m2.bids,
        m1.asks == m2.asks,
        m1.data.dom().finite(),
        m2.data.dom().finite(),
        side == Side::Buy && m1.asks.len() > 0 ==> tallies_agree(m1.data, m2.data, m1.asks[0].price, price),
        side == Side::Sell && m1.bids.len() > 0 ==> tallies_agree(m1.data, m2.data, price, m1.bids[0].price),
    ensures
        can_fully_fill_spec(m1, side, price, quantity) == can_fully_fill_spec(m2, side, price, quantity),
{
    if can_match_spec(m1, side, price) {
        let (lo, hi) = fill_range(m1, side, price);
        let e1 = eligible(m1.data, lo, hi);
        let e2 = eligible(m2.data, lo, hi);
        assert(tallies_agree(m1.data, m2.data, lo, hi));
        assert forall|p: Price| e1.contains(p) == e2.contains(p) by {
            if lo <= p <= hi {
                assert(m1.data.contains_key(p) == m2.data.contains_key(p));
            }
        }
        assert(e1 =~= e2);
        assert forall|p: Price| #[trigger] e1.contains(p) implies m1.data[p] == m2.data[p] by {
            assert(m1.data.contains_key(p) == m2.data.contains_key(p));
        }
        lemma_qty_sum_agree(e1, m1.data, m2.data);
        if exists|p: Price| #[trigger] e1.contains(p) {
            let p = choose|p: Price| #[trigger] e1.contains(p);
            assert(e2.contains(p));
        }
        if exists|p: Price| #[trigger] e2.contains(p) {
            let p = choose|p: Price| #[trigger] e2.contains(p);
            assert(e1.contains(p));
        }
    }
}

/// The level an order rests on.
pub open spec fn level_of(m: BookModel, id: OrderId) -> LevelModel {
    if in_levels(m.bids, id) {
        m.bids[pos_of(m.bids, id).0]
    } else {
        m.asks[pos_of(m.asks, id).0]
    }
}

/// Cancelling a resting order moves only the tally at its level's price: where others share
/// the level, that tally falls by exactly what was left of the cancelled order (not by its
/// initial size); where it was alone, the tally goes with the level.
pub proof fn law_cancel_lowers_tally_by_remainder(m: BookModel, id: OrderId)
    requires
        in_book(m, id),
        cancel_spec(m, id, true) is Some,
    ensures
        ({
            let n = cancel_spec(m, id, true)->0;
            let p = level_of(m, id).price;
            &&& level_of(m, id).orders.len() > 1 && m.data.contains_key(p) ==> n.data == m.data.insert(
                p,
                (m.data[p] - order_in_book(m, id).remaining_quantity) as Quantity,
            )
            &&& level_of(m, id).orders.len() > 1 && !m.data.contains_key(p) ==> n.data == m.data
            &&& level_of(m, id).orders.len() <= 1 ==> n.data == m.data.remove(p)
        }),
{
}

} // verus!
