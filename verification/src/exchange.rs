//! The exchange: one order book per market, a sequence counter per market, the risk engine
//! that guards every order, and the event ring that every outcome is published on.
use vstd::prelude::*;

use std::collections::HashMap;

use disruptor::{MultiConsumerBarrier, RingBufferFull, SingleProducer};

use crate::book_model::{
    add_rejected, add_result, cancel_all_spec, cancel_spec, in_book, law_cancel_takes_out_only_that_order,
    lemma_add_result_at_rest, lemma_cancel_all_at_rest, model_wf, order_in_book, resting_of_type, uncrossed, BookModel,
};
use crate::commands::{command_symbol, ExchangeCommand};
use crate::events::{published, EventDispatcher, EventEnvelope, OrderBookEvent, Sequence};
use crate::orderbook::OrderBook;
use crate::orders::{order_of_modification, order_of_request, ModifyOrder, NewOrder, Order, OrderIds, OrderType};
use crate::risk_engine::{
    check_and_reserve_spec, internal_id_of, law_release_undoes_reservation, price_or_zero, qty_or_zero, release_spec,
    reserved_for_order, settle_spec, AccountModel, AccountStatus, ExternalUserId, RiskEngine, RiskModel,
};
use crate::symbol::{currency_asset_id, quantity_unit, Symbol};
use crate::types::{AssetId, OrderId, Quantity, Side, Trade, Trades};

verus! {

broadcast use vstd::std_specs::hash::group_hash_axioms;

/// Why a command could not be carried through.
#[derive(Debug)]
pub enum ExchangeError {
    /// The event ring was full when an event was to be sent.
    ExchangeEventTrySendError(RingBufferFull),
    /// The exchange has no book for the command's market.
    OrderBookAccessError(Symbol),
}

/// The key a market's book and counter are kept under: its place in the list of markets.
pub open spec fn symbol_key(s: Symbol) -> u64 {
    match s {
        Symbol::UsdtInr => 0,
        Symbol::BtcInr => 1,
        Symbol::EthInr => 2,
        Symbol::SolInr => 3,
        Symbol::BtcUsdt => 4,
        Symbol::EthUsdt => 5,
        Symbol::SolUsdt => 6,
        Symbol::BnbUsdt => 7,
        Symbol::XrpUsdt => 8,
        Symbol::BtcUsdc => 9,
        Symbol::EthUsdc => 10,
        Symbol::InrUsdt => 11,
    }
}

/// The asset a market's quantities are counted in.
pub open spec fn market_asset(s: Symbol) -> AssetId {
    currency_asset_id(quantity_unit(s))
}

/// The exchange as plain values: each market's book, each market's last sequence number,
/// and the risk engine.
#[verifier::ext_equal]
pub struct ExchangeModel {
    pub books: Map<u64, BookModel>,
    pub seqs: Map<u64, Sequence>,
    pub risk: RiskModel,
}

/// What handling a command does, step by step: the state of the exchange as each event is
/// sent, with that event; the state once everything went through; and whether it stopped for
/// want of the market's book.
#[verifier::ext_equal]
pub struct Run {
    pub sends: Seq<(ExchangeModel, OrderBookEvent)>,
    pub last: ExchangeModel,
    pub missing_book: bool,
}

pub open spec fn start(m: ExchangeModel) -> Run {
    Run { sends: Seq::empty(), last: m, missing_book: false }
}

/// The last sequence number given out in a market (zero before the first).
pub open spec fn seq_of(m: ExchangeModel, s: Symbol) -> Sequence {
    if m.seqs.contains_key(symbol_key(s)) {
        m.seqs[symbol_key(s)]
    } else {
        0
    }
}

/// The event with its sequence number replaced by `q`.
pub open spec fn with_seq(e: OrderBookEvent, q: Sequence) -> OrderBookEvent {
    match e {
        OrderBookEvent::OrderMatched(_, s, id, p, n) => OrderBookEvent::OrderMatched(q, s, id, p, n),
        OrderBookEvent::OrderCancelled(_, s, id) => OrderBookEvent::OrderCancelled(q, s, id),
        OrderBookEvent::OrderAdded(_, s, id) => OrderBookEvent::OrderAdded(q, s, id),
        OrderBookEvent::OrderModified(_, s, mo) => OrderBookEvent::OrderModified(q, s, mo),
        OrderBookEvent::OrderRejected(_, s, id) => OrderBookEvent::OrderRejected(q, s, id),
        OrderBookEvent::ModifyOrderRejected(_, s, mo) => OrderBookEvent::ModifyOrderRejected(q, s, mo),
        OrderBookEvent::OrdersExpired(_, s, ids) => OrderBookEvent::OrdersExpired(q, s, ids),
        OrderBookEvent::OrderPartiallyFilled(_, s) => OrderBookEvent::OrderPartiallyFilled(q, s),
        OrderBookEvent::MarketOpened(_, s) => OrderBookEvent::MarketOpened(q, s),
        OrderBookEvent::MarketClosed(_, s) => OrderBookEvent::MarketClosed(q, s),
        OrderBookEvent::Error(_, c) => OrderBookEvent::Error(q, c),
    }
}

/// One more send: the market's counter goes up by one and the event goes out stamped with it.
pub open spec fn stamped(run: Run, s: Symbol, e: OrderBookEvent) -> Run {
    let n = (seq_of(run.last, s) + 1) as Sequence;
    let m2 = ExchangeModel { seqs: run.last.seqs.insert(symbol_key(s), n), ..run.last };
    Run { sends: run.sends.push((m2, with_seq(e, n))), last: m2, missing_book: run.missing_book }
}

/// The events of a run's sends, in order.
pub open spec fn events_of(sends: Seq<(ExchangeModel, OrderBookEvent)>) -> Seq<OrderBookEvent> {
    sends.map_values(|p: (ExchangeModel, OrderBookEvent)| p.1)
}

pub open spec fn with_risk(run: Run, r: RiskModel) -> Run {
    Run { last: ExchangeModel { risk: r, ..run.last }, ..run }
}

pub open spec fn with_book(run: Run, s: Symbol, b: BookModel) -> Run {
    Run { last: ExchangeModel { books: run.last.books.insert(symbol_key(s), b), ..run.last }, ..run }
}

/// One trade: its buyer and its seller are settled (buyer first), then the ask's match and the
/// bid's match are sent.
pub open spec fn trade_run(run: Run, s: Symbol, asset: AssetId, t: Trade) -> Run {
    let r = run.last.risk;
    let bid_id = internal_id_of(r, t.bid_trade.user_id as ExternalUserId);
    let ask_id = internal_id_of(r, t.ask_trade.user_id as ExternalUserId);
    let r1 = settle_spec(r, bid_id, asset, Side::Buy, t.bid_trade.price, t.bid_trade.quantity).1;
    let r2 = settle_spec(r1, ask_id, asset, Side::Sell, t.ask_trade.price, t.ask_trade.quantity).1;
    let run1 = with_risk(run, r2);
    let ask = OrderBookEvent::OrderMatched(0, s, t.ask_trade.order_id, t.ask_trade.price, t.ask_trade.quantity);
    let bid = OrderBookEvent::OrderMatched(0, s, t.bid_trade.order_id, t.bid_trade.price, t.bid_trade.quantity);
    stamped(stamped(run1, s, ask), s, bid)
}

/// The trades in order, each as `trade_run` has it.
pub open spec fn trades_run(run: Run, s: Symbol, asset: AssetId, ts: Seq<Trade>) -> Run
    decreases ts.len(),
{
    if ts.len() == 0 {
        run
    } else {
        trades_run(trade_run(run, s, asset, ts[0]), s, asset, ts.drop_first())
    }
}

/// The book of a market, where the exchange has one.
pub open spec fn has_book(m: ExchangeModel, s: Symbol) -> bool {
    m.books.contains_key(symbol_key(s))
}

pub open spec fn book_of(m: ExchangeModel, s: Symbol) -> BookModel {
    m.books[symbol_key(s)]
}

pub open spec fn missing(m: ExchangeModel) -> Run {
    Run { sends: Seq::empty(), last: m, missing_book: true }
}

/// A new order: the risk engine checks and reserves for it (a refusal is answered with a
/// rejection); then the market's book takes it (a book that turns it away gets the
/// reservation released and a rejection sent), the addition is announced, and the trades it
/// made are settled and announced.
pub open spec fn add_run(m: ExchangeModel, s: Symbol, no: NewOrder) -> Run {
    let o = order_of_request(no);
    let user = no.user_id as ExternalUserId;
    let asset = market_asset(s);
    let (ok, r1) = check_and_reserve_spec(m.risk, user, o);
    let m1 = ExchangeModel { risk: r1, ..m };
    if !ok {
        stamped(start(m1), s, OrderBookEvent::OrderRejected(0, s, no.order_id))
    } else if !has_book(m1, s) {
        missing(m1)
    } else {
        let b = book_of(m1, s);
        if add_rejected(b, o) {
            let r2 = release_spec(r1, internal_id_of(r1, user), asset, o.side, price_or_zero(o), o.initial_quantity).1;
            stamped(start(ExchangeModel { risk: r2, ..m1 }), s, OrderBookEvent::OrderRejected(0, s, no.order_id))
        } else {
            let (b2, ts) = add_result(b, o, true)->0;
            trades_run(
                stamped(with_book(start(m1), s, b2), s, OrderBookEvent::OrderAdded(0, s, no.order_id)),
                s,
                asset,
                ts,
            )
        }
    }
}

/// A cancellation: where the order rests it leaves the book, what it had reserved is
/// released, and the cancellation is announced; otherwise nothing happens.
pub open spec fn cancel_run(m: ExchangeModel, s: Symbol, id: OrderId) -> Run {
    if !has_book(m, s) {
        missing(m)
    } else {
        let b = book_of(m, s);
        if in_book(b, id) {
            let o = order_in_book(b, id);
            let r2 = release_spec(
                m.risk,
                internal_id_of(m.risk, o.user_id as ExternalUserId),
                market_asset(s),
                o.side,
                price_or_zero(o),
                o.remaining_quantity,
            ).1;
            stamped(
                with_risk(with_book(start(m), s, cancel_spec(b, id, true)->0), r2),
                s,
                OrderBookEvent::OrderCancelled(0, s, id),
            )
        } else {
            start(m)
        }
    }
}

/// A modification: where the order rests it is replaced as the book's `modify_order` does; a
/// refused modification is answered with a rejection, an accepted one is announced and its
/// trades settled and announced.
pub open spec fn modify_run(m: ExchangeModel, s: Symbol, mo: ModifyOrder) -> Run {
    if !has_book(m, s) {
        missing(m)
    } else {
        let b = book_of(m, s);
        if !in_book(b, mo.order_id) {
            stamped(start(m), s, OrderBookEvent::ModifyOrderRejected(0, s, mo))
        } else {
            let b1 = cancel_spec(b, mo.order_id, true)->0;
            let o = order_of_modification(mo, order_in_book(b, mo.order_id).order_type);
            if add_rejected(b1, o) {
                stamped(with_book(start(m), s, b1), s, OrderBookEvent::ModifyOrderRejected(0, s, mo))
            } else {
                let (b2, ts) = add_result(b1, o, true)->0;
                trades_run(
                    stamped(with_book(start(m), s, b2), s, OrderBookEvent::OrderModified(0, s, mo)),
                    s,
                    market_asset(s),
                    ts,
                )
            }
        }
    }
}

/// Pruning: the listed orders are cancelled and their expiry announced.
pub open spec fn prune_run(m: ExchangeModel, s: Symbol, ids: OrderIds) -> Run {
    if !has_book(m, s) {
        missing(m)
    } else {
        stamped(
            with_book(start(m), s, cancel_all_spec(book_of(m, s), ids@, true)->0),
            s,
            OrderBookEvent::OrdersExpired(0, s, ids),
        )
    }
}

/// What a command does; `ids` are the orders a prune finds (see `prune_ids`).
pub open spec fn cmd_run(m: ExchangeModel, cmd: ExchangeCommand, ids: OrderIds) -> Run {
    match cmd {
        ExchangeCommand::AddNewOrder(s, no) => add_run(m, s, no),
        ExchangeCommand::CancelOrder(s, id) => cancel_run(m, s, id),
        ExchangeCommand::ModifyOrder(s, mo) => modify_run(m, s, mo),
        ExchangeCommand::PruneExpiredOrders(s, _) => prune_run(m, s, ids),
    }
}

/// The orders a prune of the market's orders of a type may find: each resting order of that
/// type once, in whatever order the book's index is walked.
pub open spec fn prune_ids(m: ExchangeModel, cmd: ExchangeCommand, ids: OrderIds) -> bool {
    match cmd {
        ExchangeCommand::PruneExpiredOrders(s, t) => has_book(m, s) ==> resting_of_type(book_of(m, s), t, ids@),
        _ => true,
    }
}

/// Whether the book can carry the command out without a tally leaving its range, and a new
/// order that reaches the book has a price.
pub open spec fn cmd_feasible(m: ExchangeModel, cmd: ExchangeCommand) -> bool {
    match cmd {
        ExchangeCommand::AddNewOrder(s, no) => {
            let o = order_of_request(no);
            check_and_reserve_spec(m.risk, no.user_id as ExternalUserId, o).0 && has_book(m, s) ==> {
                &&& no.price is Some
                &&& !add_rejected(book_of(m, s), o) ==> add_result(book_of(m, s), o, true) is Some
            }
        },
        ExchangeCommand::CancelOrder(s, id) => has_book(m, s) ==> cancel_spec(book_of(m, s), id, true) is Some,
        ExchangeCommand::ModifyOrder(s, mo) => has_book(m, s) && in_book(book_of(m, s), mo.order_id) ==> {
            let b1 = cancel_spec(book_of(m, s), mo.order_id, true);
            let o = order_of_modification(mo, order_in_book(book_of(m, s), mo.order_id).order_type);
            &&& b1 is Some
            &&& !add_rejected(b1->0, o) ==> add_result(b1->0, o, true) is Some
        },
        ExchangeCommand::PruneExpiredOrders(s, t) => has_book(m, s) ==> forall|ids: Seq<OrderId>|
            #[trigger] resting_of_type(book_of(m, s), t, ids) ==> cancel_all_spec(book_of(m, s), ids, true) is Some,
    }
}

/// How a call ended, for every behavior of the event ring: `Ok` when every send of `run` went
/// through, with the exchange as `run` leaves it; a send error when a send failed, with the
/// exchange as it was when that send was made and the events before it published; a book
/// error when `run` stops for want of the book.
pub open spec fn outcome(
    run: Run,
    base: Seq<OrderBookEvent>,
    now: Seq<OrderBookEvent>,
    fin: ExchangeModel,
    r: Result<(), ExchangeError>,
) -> bool {
    match r {
        Ok(()) => !run.missing_book && fin == run.last && now == base + events_of(run.sends),
        Err(ExchangeError::ExchangeEventTrySendError(_)) => exists|k: int|
            0 <= k < run.sends.len() && fin == (#[trigger] run.sends[k]).0 && now == base + events_of(
                run.sends.take(k),
            ),
        Err(ExchangeError::OrderBookAccessError(_)) => run.missing_book && fin == run.last && now == base
            + events_of(run.sends),
    }
}

/// The sends of `a` begin the sends of `b`.
pub open spec fn extends(a: Run, b: Run) -> bool {
    a.sends.len() <= b.sends.len() && b.sends.take(a.sends.len() as int) == a.sends
}

proof fn lemma_extends_self(run: Run)
    ensures
        extends(run, run),
{
    assert(run.sends.take(run.sends.len() as int) =~= run.sends);
}

/// The number of sends a command makes when every send goes through (a prune makes one).
pub open spec fn sends_needed(m: ExchangeModel, cmd: ExchangeCommand) -> nat {
    match cmd {
        ExchangeCommand::AddNewOrder(s, no) => add_run(m, s, no).sends.len(),
        ExchangeCommand::CancelOrder(s, id) => cancel_run(m, s, id).sends.len(),
        ExchangeCommand::ModifyOrder(s, mo) => modify_run(m, s, mo).sends.len(),
        ExchangeCommand::PruneExpiredOrders(_, _) => 1,
    }
}

proof fn lemma_events_of_push(sends: Seq<(ExchangeModel, OrderBookEvent)>, p: (ExchangeModel, OrderBookEvent))
    ensures
        events_of(sends.push(p)) == events_of(sends).push(p.1),
{
    assert(events_of(sends.push(p)) =~= events_of(sends).push(p.1));
}

proof fn lemma_events_of_add(a: Seq<(ExchangeModel, OrderBookEvent)>, b: Seq<(ExchangeModel, OrderBookEvent)>)
    ensures
        events_of(a + b) == events_of(a) + events_of(b),
{
    assert(events_of(a + b) =~= events_of(a) + events_of(b));
}

/// A trade's run adds its two sends to whatever came before.
proof fn lemma_trade_run_shift(run: Run, s: Symbol, asset: AssetId, t: Trade)
    ensures
        trade_run(run, s, asset, t).sends == run.sends + trade_run(start(run.last), s, asset, t).sends,
        trade_run(run, s, asset, t).last == trade_run(start(run.last), s, asset, t).last,
        trade_run(run, s, asset, t).missing_book == run.missing_book,
        trade_run(run, s, asset, t).sends.len() == run.sends.len() + 2,
{
    let a = trade_run(run, s, asset, t);
    let b = trade_run(start(run.last), s, asset, t);
    assert(a.sends =~= run.sends + b.sends);
}

/// Handling trades after earlier sends adds the sends the trades make on their own.
proof fn lemma_trades_run_shift(run: Run, s: Symbol, asset: AssetId, ts: Seq<Trade>)
    ensures
        trades_run(run, s, asset, ts).sends == run.sends + trades_run(start(run.last), s, asset, ts).sends,
        trades_run(run, s, asset, ts).last == trades_run(start(run.last), s, asset, ts).last,
        trades_run(run, s, asset, ts).missing_book == run.missing_book,
    decreases ts.len(),
{
    if ts.len() == 0 {
        assert(run.sends + Seq::<(ExchangeModel, OrderBookEvent)>::empty() =~= run.sends);
    } else {
        let r1 = trade_run(run, s, asset, ts[0]);
        let r2 = trade_run(start(run.last), s, asset, ts[0]);
        lemma_trade_run_shift(run, s, asset, ts[0]);
        lemma_trades_run_shift(r1, s, asset, ts.drop_first());
        lemma_trades_run_shift(r2, s, asset, ts.drop_first());
        assert(start(r1.last) == start(r2.last));
        let x = trades_run(start(r1.last), s, asset, ts.drop_first()).sends;
        assert(run.sends + r2.sends + x =~= run.sends + (r2.sends + x));
    }
}

/// The sends of a run come first in the sends of the trades handled after it.
proof fn lemma_trades_run_extends(run: Run, s: Symbol, asset: AssetId, ts: Seq<Trade>)
    ensures
        extends(run, trades_run(run, s, asset, ts)),
        trades_run(run, s, asset, ts).missing_book == run.missing_book,
{
    lemma_trades_run_shift(run, s, asset, ts);
    let t = trades_run(start(run.last), s, asset, ts);
    assert((run.sends + t.sends).take(run.sends.len() as int) =~= run.sends);
}

/// A stamped send after `run`: the exchange as it is once the counter went up, and the events
/// published with the new one.
proof fn lemma_stamped_step(run: Run, s: Symbol, e: OrderBookEvent, base: Seq<OrderBookEvent>)
    ensures
        stamped(run, s, e).last == stamped(start(run.last), s, e).last,
        stamped(run, s, e).sends == run.sends.push(stamped(start(run.last), s, e).sends[0]),
        (base + events_of(run.sends)).push(stamped(start(run.last), s, e).sends[0].1) == base + events_of(
            stamped(run, s, e).sends,
        ),
        stamped(run, s, e).missing_book == run.missing_book,
{
    let p = stamped(start(run.last), s, e).sends[0];
    assert(stamped(run, s, e).sends =~= run.sends.push(p));
    lemma_events_of_push(run.sends, p);
    assert((base + events_of(run.sends)).push(p.1) =~= base + events_of(run.sends).push(p.1));
}

/// A send that failed right after `run`, where the command's plan goes on past it: the call
/// ended as `outcome` says for a send error.
proof fn lemma_send_failed(
    run: Run,
    s: Symbol,
    e: OrderBookEvent,
    target: Run,
    base: Seq<OrderBookEvent>,
    now: Seq<OrderBookEvent>,
    fin: ExchangeModel,
    r: Result<(), ExchangeError>,
)
    requires
        now == base + events_of(run.sends),
        fin == stamped(run, s, e).last,
        extends(stamped(run, s, e), target),
        r matches Err(ExchangeError::ExchangeEventTrySendError(_)),
    ensures
        outcome(target, base, now, fin, r),
{
    let st = stamped(run, s, e);
    let k = run.sends.len() as int;
    assert(st.sends.len() == k + 1);
    assert(target.sends[k] == st.sends.take(k + 1)[k]);
    assert(target.sends.take(k) =~= st.sends.take(k + 1).take(k));
    assert(st.sends.take(k + 1).take(k) =~= run.sends);
    assert(fin == target.sends[k].0);
}

/// Whatever happened after `prefix` was sent, as seen from before it.
proof fn lemma_outcome_shift(
    prefix: Seq<(ExchangeModel, OrderBookEvent)>,
    t: Run,
    base: Seq<OrderBookEvent>,
    now: Seq<OrderBookEvent>,
    fin: ExchangeModel,
    r: Result<(), ExchangeError>,
)
    requires
        outcome(t, base + events_of(prefix), now, fin, r),
    ensures
        outcome(Run { sends: prefix + t.sends, last: t.last, missing_book: t.missing_book }, base, now, fin, r),
{
    let whole = Run { sends: prefix + t.sends, last: t.last, missing_book: t.missing_book };
    lemma_events_of_add(prefix, t.sends);
    assert(base + events_of(prefix) + events_of(t.sends) =~= base + events_of(prefix + t.sends));
    match r {
        Err(ExchangeError::ExchangeEventTrySendError(_)) => {
            let k2 = choose|k: int|
                0 <= k < t.sends.len() && fin == (#[trigger] t.sends[k]).0 && now == base + events_of(prefix)
                    + events_of(t.sends.take(k));
            let k = prefix.len() + k2;
            assert(whole.sends[k] == t.sends[k2]);
            assert(whole.sends.take(k) =~= prefix + t.sends.take(k2));
            lemma_events_of_add(prefix, t.sends.take(k2));
            assert(base + events_of(prefix) + events_of(t.sends.take(k2)) =~= base + events_of(whole.sends.take(k)));
        },
        _ => {},
    }
}

/// The sequence number an event carries.
pub open spec fn event_seq(e: OrderBookEvent) -> Sequence {
    match e {
        OrderBookEvent::OrderMatched(q, ..) => q,
        OrderBookEvent::OrderCancelled(q, ..) => q,
        OrderBookEvent::OrderAdded(q, ..) => q,
        OrderBookEvent::OrderModified(q, ..) => q,
        OrderBookEvent::OrderRejected(q, ..) => q,
        OrderBookEvent::ModifyOrderRejected(q, ..) => q,
        OrderBookEvent::OrdersExpired(q, ..) => q,
        OrderBookEvent::OrderPartiallyFilled(q, ..) => q,
        OrderBookEvent::MarketOpened(q, ..) => q,
        OrderBookEvent::MarketClosed(q, ..) => q,
        OrderBookEvent::Error(q, ..) => q,
    }
}

/// Whether an exchange differs from `m` in no other market than `s`: every other market's
/// book and counter are as in `m`.
pub open spec fn only_market_changed(x: ExchangeModel, m: ExchangeModel, s: Symbol) -> bool {
    &&& x.books.remove(symbol_key(s)) == m.books.remove(symbol_key(s))
    &&& x.seqs.remove(symbol_key(s)) == m.seqs.remove(symbol_key(s))
}

/// Whether a run, started from `m`, has numbered its sends in market `s` one by one from
/// `n0 + 1`, its counter standing at the last number given, and left every other market as
/// in `m` throughout.
pub open spec fn counted_from(run: Run, m: ExchangeModel, s: Symbol, n0: int) -> bool {
    &&& seq_of(run.last, s) == n0 + run.sends.len()
    &&& only_market_changed(run.last, m, s)
    &&& forall|k: int|
        0 <= k < run.sends.len() ==> {
            &&& event_seq((#[trigger] run.sends[k]).1) == n0 + k + 1
            &&& seq_of(run.sends[k].0, s) == n0 + k + 1
            &&& only_market_changed(run.sends[k].0, m, s)
        }
}

proof fn lemma_stamped_counts(run: Run, m: ExchangeModel, s: Symbol, n0: int, e: OrderBookEvent)
    requires
        counted_from(run, m, s, n0),
        0 <= n0,
        n0 + run.sends.len() + 1 <= u64::MAX,
    ensures
        counted_from(stamped(run, s, e), m, s, n0),
{
    let st = stamped(run, s, e);
    let key = symbol_key(s);
    assert(st.last.seqs.remove(key) =~= run.last.seqs.remove(key));
    assert(st.last.books == run.last.books);
    assert forall|k: int| 0 <= k < st.sends.len() implies {
        &&& event_seq((#[trigger] st.sends[k]).1) == n0 + k + 1
        &&& seq_of(st.sends[k].0, s) == n0 + k + 1
        &&& only_market_changed(st.sends[k].0, m, s)
    } by {
        if k < run.sends.len() {
            assert(st.sends[k] == run.sends[k]);
        }
    }
}

proof fn lemma_with_book_counts(run: Run, m: ExchangeModel, s: Symbol, n0: int, b: BookModel)
    requires
        counted_from(run, m, s, n0),
    ensures
        counted_from(with_book(run, s, b), m, s, n0),
{
    let key = symbol_key(s);
    assert(with_book(run, s, b).last.books.remove(key) =~= run.last.books.remove(key));
}

proof fn lemma_trades_run_counts(run: Run, m: ExchangeModel, s: Symbol, n0: int, asset: AssetId, ts: Seq<Trade>)
    requires
        counted_from(run, m, s, n0),
        0 <= n0,
        n0 + trades_run(run, s, asset, ts).sends.len() <= u64::MAX,
    ensures
        counted_from(trades_run(run, s, asset, ts), m, s, n0),
    decreases ts.len(),
{
    if ts.len() > 0 {
        let t = ts[0];
        let r = run.last.risk;
        let r2 = settle_spec(
            settle_spec(r, internal_id_of(r, t.bid_trade.user_id as ExternalUserId), asset, Side::Buy, t.bid_trade.price, t.bid_trade.quantity).1,
            internal_id_of(r, t.ask_trade.user_id as ExternalUserId),
            asset,
            Side::Sell,
            t.ask_trade.price,
            t.ask_trade.quantity,
        ).1;
        let run1 = with_risk(run, r2);
        let ask = OrderBookEvent::OrderMatched(0, s, t.ask_trade.order_id, t.ask_trade.price, t.ask_trade.quantity);
        let bid = OrderBookEvent::OrderMatched(0, s, t.bid_trade.order_id, t.bid_trade.price, t.bid_trade.quantity);
        let whole = trade_run(run, s, asset, t);
        assert(whole == stamped(stamped(run1, s, ask), s, bid));
        lemma_trades_run_extends(whole, s, asset, ts.drop_first());
        lemma_trade_run_shift(run, s, asset, t);
        assert(counted_from(run1, m, s, n0));
        lemma_stamped_counts(run1, m, s, n0, ask);
        lemma_stamped_counts(stamped(run1, s, ask), m, s, n0, bid);
        lemma_trades_run_counts(whole, m, s, n0, asset, ts.drop_first());
    }
}

/// Each market numbers its events one by one, and a command touches only its own market:
/// the events a command sends carry its market's next numbers in order, the market's counter
/// ends at the last of them, and every other market's book and counter stay as they were, at
/// every send and at the end.
pub proof fn law_events_numbered_in_order(m: ExchangeModel, cmd: ExchangeCommand, ids: OrderIds)
    requires
        seq_of(m, command_symbol(cmd)) + cmd_run(m, cmd, ids).sends.len() <= u64::MAX,
    ensures
        counted_from(cmd_run(m, cmd, ids), m, command_symbol(cmd), seq_of(m, command_symbol(cmd)) as int),
{
    let s = command_symbol(cmd);
    let n0 = seq_of(m, s) as int;
    assert(counted_from(start(m), m, s, n0));
    match cmd {
        ExchangeCommand::AddNewOrder(_, no) => {
            let o = order_of_request(no);
            let user = no.user_id as ExternalUserId;
            let (ok, r1) = check_and_reserve_spec(m.risk, user, o);
            let m1 = ExchangeModel { risk: r1, ..m };
            assert(counted_from(start(m1), m, s, n0));
            if !ok {
                lemma_stamped_counts(start(m1), m, s, n0, OrderBookEvent::OrderRejected(0, s, no.order_id));
            } else if has_book(m1, s) {
                let b = book_of(m1, s);
                if add_rejected(b, o) {
                    let r2 = release_spec(r1, internal_id_of(r1, user), market_asset(s), o.side, price_or_zero(o), o.initial_quantity).1;
                    let m2 = ExchangeModel { risk: r2, ..m1 };
                    assert(counted_from(start(m2), m, s, n0));
                    lemma_stamped_counts(start(m2), m, s, n0, OrderBookEvent::OrderRejected(0, s, no.order_id));
                } else {
                    let (b2, ts) = add_result(b, o, true)->0;
                    let run1 = with_book(start(m1), s, b2);
                    let run2 = stamped(run1, s, OrderBookEvent::OrderAdded(0, s, no.order_id));
                    lemma_with_book_counts(start(m1), m, s, n0, b2);
                    lemma_trades_run_extends(run2, s, market_asset(s), ts);
                    lemma_stamped_counts(run1, m, s, n0, OrderBookEvent::OrderAdded(0, s, no.order_id));
                    lemma_trades_run_counts(run2, m, s, n0, market_asset(s), ts);
                }
            }
        },
        ExchangeCommand::CancelOrder(_, id) => {
            if has_book(m, s) {
                let b = book_of(m, s);
                if in_book(b, id) {
                    let o = order_in_book(b, id);
                    let r2 = release_spec(m.risk, internal_id_of(m.risk, o.user_id as ExternalUserId), market_asset(s), o.side, price_or_zero(o), o.remaining_quantity).1;
                    let run1 = with_book(start(m), s, cancel_spec(b, id, true)->0);
                    lemma_with_book_counts(start(m), m, s, n0, cancel_spec(b, id, true)->0);
                    assert(counted_from(with_risk(run1, r2), m, s, n0));
                    lemma_stamped_counts(with_risk(run1, r2), m, s, n0, OrderBookEvent::OrderCancelled(0, s, id));
                }
            }
        },
        ExchangeCommand::ModifyOrder(_, mo) => {
            if has_book(m, s) {
                let b = book_of(m, s);
                if !in_book(b, mo.order_id) {
                    lemma_stamped_counts(start(m), m, s, n0, OrderBookEvent::ModifyOrderRejected(0, s, mo));
                } else {
                    let b1 = cancel_spec(b, mo.order_id, true)->0;
                    let o = order_of_modification(mo, order_in_book(b, mo.order_id).order_type);
                    if add_rejected(b1, o) {
                        lemma_with_book_counts(start(m), m, s, n0, b1);
                        lemma_stamped_counts(with_book(start(m), s, b1), m, s, n0, OrderBookEvent::ModifyOrderRejected(0, s, mo));
                    } else {
                        let (b2, ts) = add_result(b1, o, true)->0;
                        let run1 = with_book(start(m), s, b2);
                        let run2 = stamped(run1, s, OrderBookEvent::OrderModified(0, s, mo));
                        lemma_with_book_counts(start(m), m, s, n0, b2);
                        lemma_trades_run_extends(run2, s, market_asset(s), ts);
                        lemma_stamped_counts(run1, m, s, n0, OrderBookEvent::OrderModified(0, s, mo));
                        lemma_trades_run_counts(run2, m, s, n0, market_asset(s), ts);
                    }
                }
            }
        },
        ExchangeCommand::PruneExpiredOrders(_, _) => {
            if has_book(m, s) {
                let b2 = cancel_all_spec(book_of(m, s), ids@, true)->0;
                lemma_with_book_counts(start(m), m, s, n0, b2);
                lemma_stamped_counts(with_book(start(m), s, b2), m, s, n0, OrderBookEvent::OrdersExpired(0, s, ids));
            }
        },
    }
}

/// Every book of the exchange is well-formed and at rest.
pub open spec fn books_at_rest(m: ExchangeModel) -> bool {
    forall|k: u64| #[trigger] m.books.contains_key(k) ==> model_wf(m.books[k]) && uncrossed(m.books[k])
}

/// Whether every state of a run has its books at rest.
pub open spec fn run_at_rest(run: Run) -> bool {
    &&& books_at_rest(run.last)
    &&& forall|k: int| 0 <= k < run.sends.len() ==> books_at_rest((#[trigger] run.sends[k]).0)
}

proof fn lemma_stamped_at_rest(run: Run, s: Symbol, e: OrderBookEvent)
    requires
        run_at_rest(run),
    ensures
        run_at_rest(stamped(run, s, e)),
{
    let st = stamped(run, s, e);
    assert(st.last.books == run.last.books);
    assert forall|k: int| 0 <= k < st.sends.len() implies books_at_rest((#[trigger] st.sends[k]).0) by {
        if k < run.sends.len() {
            assert(st.sends[k] == run.sends[k]);
        }
    }
}

proof fn lemma_trades_run_at_rest(run: Run, s: Symbol, asset: AssetId, ts: Seq<Trade>)
    requires
        run_at_rest(run),
    ensures
        run_at_rest(trades_run(run, s, asset, ts)),
    decreases ts.len(),
{
    if ts.len() > 0 {
        let t = ts[0];
        let r = run.last.risk;
        let r2 = settle_spec(
            settle_spec(r, internal_id_of(r, t.bid_trade.user_id as ExternalUserId), asset, Side::Buy, t.bid_trade.price, t.bid_trade.quantity).1,
            internal_id_of(r, t.ask_trade.user_id as ExternalUserId),
            asset,
            Side::Sell,
            t.ask_trade.price,
            t.ask_trade.quantity,
        ).1;
        let run1 = with_risk(run, r2);
        let ask = OrderBookEvent::OrderMatched(0, s, t.ask_trade.order_id, t.ask_trade.price, t.ask_trade.quantity);
        let bid = OrderBookEvent::OrderMatched(0, s, t.bid_trade.order_id, t.bid_trade.price, t.bid_trade.quantity);
        assert(trade_run(run, s, asset, t) == stamped(stamped(run1, s, ask), s, bid));
        assert(run_at_rest(run1));
        lemma_stamped_at_rest(run1, s, ask);
        lemma_stamped_at_rest(stamped(run1, s, ask), s, bid);
        lemma_trades_run_at_rest(trade_run(run, s, asset, t), s, asset, ts.drop_first());
    }
}

proof fn lemma_with_book_at_rest(m: ExchangeModel, s: Symbol, b: BookModel)
    requires
        books_at_rest(m),
        model_wf(b),
        uncrossed(b),
    ensures
        run_at_rest(with_book(start(m), s, b)),
{
    let n = with_book(start(m), s, b).last;
    assert forall|k: u64| #[trigger] n.books.contains_key(k) implies model_wf(n.books[k]) && uncrossed(n.books[k]) by {
        if k != symbol_key(s) {
            assert(m.books.contains_key(k));
        }
    }
}

/// Whatever the ring did, a call ends in one of its run's states.
proof fn lemma_outcome_at_rest(
    run: Run,
    base: Seq<OrderBookEvent>,
    now: Seq<OrderBookEvent>,
    fin: ExchangeModel,
    r: Result<(), ExchangeError>,
)
    requires
        run_at_rest(run),
        outcome(run, base, now, fin, r),
    ensures
        books_at_rest(fin),
{
    match r {
        Err(ExchangeError::ExchangeEventTrySendError(_)) => {
            let k = choose|k: int|
                0 <= k < run.sends.len() && fin == (#[trigger] run.sends[k]).0 && now == base + events_of(
                    run.sends.take(k),
                );
            assert(books_at_rest(run.sends[k].0));
        },
        _ => {},
    }
}

/// The exchange keeps every book at rest: where each book is well-formed with no bid
/// reaching the best ask, it stays so at every send of a command and at its end.
pub proof fn law_books_stay_at_rest(m: ExchangeModel, cmd: ExchangeCommand, ids: OrderIds)
    requires
        books_at_rest(m),
        cmd_feasible(m, cmd),
        prune_ids(m, cmd, ids),
    ensures
        run_at_rest(cmd_run(m, cmd, ids)),
{
    let s = command_symbol(cmd);
    assert(run_at_rest(start(m)));
    match cmd {
        ExchangeCommand::AddNewOrder(_, no) => {
            let o = order_of_request(no);
            let user = no.user_id as ExternalUserId;
            let (ok, r1) = check_and_reserve_spec(m.risk, user, o);
            let m1 = ExchangeModel { risk: r1, ..m };
            assert(run_at_rest(start(m1)));
            if !ok {
                lemma_stamped_at_rest(start(m1), s, OrderBookEvent::OrderRejected(0, s, no.order_id));
            } else if has_book(m1, s) {
                let b = book_of(m1, s);
                assert(m.books.contains_key(symbol_key(s)));
                if add_rejected(b, o) {
                    let r2 = release_spec(r1, internal_id_of(r1, user), market_asset(s), o.side, price_or_zero(o), o.initial_quantity).1;
                    let m2 = ExchangeModel { risk: r2, ..m1 };
                    assert(run_at_rest(start(m2)));
                    lemma_stamped_at_rest(start(m2), s, OrderBookEvent::OrderRejected(0, s, no.order_id));
                } else {
                    lemma_add_result_at_rest(b, o, true);
                    let (b2, ts) = add_result(b, o, true)->0;
                    lemma_with_book_at_rest(m1, s, b2);
                    let run2 = stamped(with_book(start(m1), s, b2), s, OrderBookEvent::OrderAdded(0, s, no.order_id));
                    lemma_stamped_at_rest(with_book(start(m1), s, b2), s, OrderBookEvent::OrderAdded(0, s, no.order_id));
                    lemma_trades_run_at_rest(run2, s, market_asset(s), ts);
                }
            }
        },
        ExchangeCommand::CancelOrder(_, id) => {
            if has_book(m, s) {
                let b = book_of(m, s);
                assert(m.books.contains_key(symbol_key(s)));
                if in_book(b, id) {
                    let o = order_in_book(b, id);
                    let r2 = release_spec(m.risk, internal_id_of(m.risk, o.user_id as ExternalUserId), market_asset(s), o.side, price_or_zero(o), o.remaining_quantity).1;
                    law_cancel_takes_out_only_that_order(b, id, true);
                    lemma_with_book_at_rest(m, s, cancel_spec(b, id, true)->0);
                    let run1 = with_book(start(m), s, cancel_spec(b, id, true)->0);
                    assert(run_at_rest(with_risk(run1, r2)));
                    lemma_stamped_at_rest(with_risk(run1, r2), s, OrderBookEvent::OrderCancelled(0, s, id));
                }
            }
        },
        ExchangeCommand::ModifyOrder(_, mo) => {
            if has_book(m, s) {
                let b = book_of(m, s);
                assert(m.books.contains_key(symbol_key(s)));
                if !in_book(b, mo.order_id) {
                    lemma_stamped_at_rest(start(m), s, OrderBookEvent::ModifyOrderRejected(0, s, mo));
                } else {
                    law_cancel_takes_out_only_that_order(b, mo.order_id, true);
                    let b1 = cancel_spec(b, mo.order_id, true)->0;
                    let o = order_of_modification(mo, order_in_book(b, mo.order_id).order_type);
                    if add_rejected(b1, o) {
                        lemma_with_book_at_rest(m, s, b1);
                        lemma_stamped_at_rest(with_book(start(m), s, b1), s, OrderBookEvent::ModifyOrderRejected(0, s, mo));
                    } else {
                        lemma_add_result_at_rest(b1, o, true);
                        let (b2, ts) = add_result(b1, o, true)->0;
                        lemma_with_book_at_rest(m, s, b2);
                        let run2 = stamped(with_book(start(m), s, b2), s, OrderBookEvent::OrderModified(0, s, mo));
                        lemma_stamped_at_rest(with_book(start(m), s, b2), s, OrderBookEvent::OrderModified(0, s, mo));
                        lemma_trades_run_at_rest(run2, s, market_asset(s), ts);
                    }
                }
            }
        },
        ExchangeCommand::PruneExpiredOrders(_, _) => {
            if has_book(m, s) {
                assert(m.books.contains_key(symbol_key(s)));
                let b = book_of(m, s);
                lemma_cancel_all_at_rest(b, ids@, true);
                let b2 = cancel_all_spec(b, ids@, true)->0;
                lemma_with_book_at_rest(m, s, b2);
                lemma_stamped_at_rest(with_book(start(m), s, b2), s, OrderBookEvent::OrdersExpired(0, s, ids));
            }
        },
    }
}

/// The key a market's book and counter are kept under.
fn key_of(s: Symbol) -> (r: u64)
    ensures
        r == symbol_key(s),
{
    match s {
        Symbol::UsdtInr => 0,
        Symbol::BtcInr => 1,
        Symbol::EthInr => 2,
        Symbol::SolInr => 3,
        Symbol::BtcUsdt => 4,
        Symbol::EthUsdt => 5,
        Symbol::SolUsdt => 6,
        Symbol::BnbUsdt => 7,
        Symbol::XrpUsdt => 8,
        Symbol::BtcUsdc => 9,
        Symbol::EthUsdc => 10,
        Symbol::InrUsdt => 11,
    }
}

/// The event stamped with the sequence number `q`.
fn restamp(e: OrderBookEvent, q: Sequence) -> (r: OrderBookEvent)
    ensures
        r == with_seq(e, q),
{
    match e {
        OrderBookEvent::OrderMatched(_, s, id, p, n) => OrderBookEvent::OrderMatched(q, s, id, p, n),
        OrderBookEvent::OrderCancelled(_, s, id) => OrderBookEvent::OrderCancelled(q, s, id),
        OrderBookEvent::OrderAdded(_, s, id) => OrderBookEvent::OrderAdded(q, s, id),
        OrderBookEvent::OrderModified(_, s, mo) => OrderBookEvent::OrderModified(q, s, mo),
        OrderBookEvent::OrderRejected(_, s, id) => OrderBookEvent::OrderRejected(q, s, id),
        OrderBookEvent::ModifyOrderRejected(_, s, mo) => OrderBookEvent::ModifyOrderRejected(q, s, mo),
        OrderBookEvent::OrdersExpired(_, s, ids) => OrderBookEvent::OrdersExpired(q, s, ids),
        OrderBookEvent::OrderPartiallyFilled(_, s) => OrderBookEvent::OrderPartiallyFilled(q, s),
        OrderBookEvent::MarketOpened(_, s) => OrderBookEvent::MarketOpened(q, s),
        OrderBookEvent::MarketClosed(_, s) => OrderBookEvent::MarketClosed(q, s),
        OrderBookEvent::Error(_, c) => OrderBookEvent::Error(q, c),
    }
}

/// The matching engine: a book per market (kept under the market's key), the per-market
/// event counters, the risk engine, and the event ring.
pub struct Exchange {
    pub orderbooks: HashMap<u64, OrderBook>,
    pub event_tx: EventDispatcher,
    pub seqs: HashMap<u64, Sequence>,
    pub risk_engine: RiskEngine,
}

impl Exchange {
    pub open spec fn model(&self) -> ExchangeModel {
        ExchangeModel {
            books: self.orderbooks@.map_values(|b: OrderBook| b.model()),
            seqs: self.seqs@,
            risk: self.risk_engine.model(),
        }
    }

    /// Every book the exchange keeps is well-formed.
    pub open spec fn wf(&self) -> bool {
        forall|k: u64| #[trigger] self.orderbooks@.contains_key(k) ==> self.orderbooks@[k].wf()
    }

    /// An exchange with no books, no counters and an empty risk engine, publishing on `p`.
    pub fn new(p: SingleProducer<EventEnvelope, MultiConsumerBarrier>) -> (r: Self)
        ensures
            r.wf(),
            r.model().books == Map::<u64, BookModel>::empty(),
            r.model().seqs == Map::<u64, Sequence>::empty(),
            r.model().risk.ids == Map::<ExternalUserId, usize>::empty(),
            r.model().risk.accounts.len() == 0,
            r.event_tx.producer == p,
    {
        let r = Self {
            orderbooks: HashMap::new(),
            event_tx: EventDispatcher::new(p),
            seqs: HashMap::new(),
            risk_engine: RiskEngine::new_empty(),
        };
        assert(r.model().books =~= Map::<u64, BookModel>::empty());
        r
    }

    /// An exchange with no books and no counters, guarded by `risk_engine`, publishing on `p`.
    pub fn new_with_risk_engine(p: SingleProducer<EventEnvelope, MultiConsumerBarrier>, risk_engine: RiskEngine) -> (r:
        Self)
        ensures
            r.wf(),
            r.model().books == Map::<u64, BookModel>::empty(),
            r.model().seqs == Map::<u64, Sequence>::empty(),
            r.risk_engine == risk_engine,
            r.event_tx.producer == p,
    {
        let r = Self { orderbooks: HashMap::new(), event_tx: EventDispatcher::new(p), seqs: HashMap::new(), risk_engine };
        assert(r.model().books =~= Map::<u64, BookModel>::empty());
        r
    }

    pub fn get_risk_engine(&self) -> (r: &RiskEngine)
        ensures
            *r == self.risk_engine,
    {
        &self.risk_engine
    }

    pub fn get_risk_engine_mut(&mut self) -> (r: &mut RiskEngine)
        ensures
            *r == old(self).risk_engine,
            final(self).risk_engine == *final(r),
            final(self).orderbooks == old(self).orderbooks,
            final(self).seqs == old(self).seqs,
            final(self).event_tx == old(self).event_tx,
    {
        &mut self.risk_engine
    }

    /// The book of a market, if the exchange has one.
    pub fn orderbook(&self, symbol: Symbol) -> (r: Option<&OrderBook>)
        ensures
            r is Some <==> has_book(self.model(), symbol),
            r is Some ==> *r->0 == self.orderbooks@[symbol_key(symbol)],
    {
        self.orderbooks.get(&key_of(symbol))
    }

    /// Whether `handle_cmd` can take the command without a tally or a reservation leaving its
    /// range (`cmd_feasible`): exactly so for an order, a cancellation and a modification. For a
    /// prune the test is only sufficient: it passes where there is no book or no order of the
    /// type rests, and fails otherwise, since the prune's cancellations may come in any order.
    pub fn can_handle(&self, cmd: ExchangeCommand) -> (r: bool)
        requires
            self.wf(),
        ensures
            !(cmd is PruneExpiredOrders) ==> r == cmd_feasible(self.model(), cmd),
            r ==> cmd_feasible(self.model(), cmd),
    {
        let ghost m = self.model();
        let book = match self.orderbook(cmd.symbol()) {
            Some(b) => b,
            None => {
                return true;
            },
        };
        proof {
            assert(self.orderbooks@.contains_key(symbol_key(command_symbol(cmd))));
            assert(book.wf());
            assert(book.model() == book_of(m, command_symbol(cmd)));
        }
        match cmd {
            ExchangeCommand::AddNewOrder(_, new_order) => {
                let order = Order {
                    order_id: new_order.order_id,
                    user_id: new_order.user_id,
                    asset_id: new_order.asset_id,
                    price: new_order.price,
                    initial_quantity: new_order.quantity,
                    remaining_quantity: new_order.quantity,
                    order_type: new_order.order_type,
                    side: new_order.side,
                };
                proof {
                    assert(order == order_of_request(new_order));
                }
                if !self.risk_engine.can_reserve_for(new_order.user_id as ExternalUserId, order) {
                    return true;
                }
                book.can_add_order(order)
            },
            ExchangeCommand::CancelOrder(_, order_id) => book.can_cancel_order(order_id),
            ExchangeCommand::ModifyOrder(_, modify_order) => book.can_modify_order(modify_order),
            ExchangeCommand::PruneExpiredOrders(_, order_type) => {
                let ids = book.order_ids_of_type(order_type);
                if ids.len() == 0 {
                    proof {
                        let b = book_of(m, command_symbol(cmd));
                        assert forall|other: Seq<OrderId>| #[trigger] resting_of_type(b, order_type, other)
                            implies cancel_all_spec(b, other, true) is Some by {
                            if other.len() > 0 {
                                assert(other.contains(other[0]));
                                assert(ids@.contains(other[0]));
                            }
                        }
                    }
                    true
                } else {
                    false
                }
            },
        }
    }

    /// Counts one more event in the market and returns its number.
    pub fn next_seq(&mut self, symbol: &Symbol) -> (r: Sequence)
        requires
            seq_of(old(self).model(), *symbol) < u64::MAX,
        ensures
            r == seq_of(old(self).model(), *symbol) + 1,
            final(self).model() == (ExchangeModel {
                seqs: old(self).model().seqs.insert(symbol_key(*symbol), r),
                ..old(self).model()
            }),
            final(self).orderbooks == old(self).orderbooks,
            final(self).event_tx == old(self).event_tx,
            final(self).risk_engine == old(self).risk_engine,
    {
        let key = key_of(*symbol);
        let current: Sequence = match self.seqs.get(&key) {
            Some(v) => *v,
            None => 0,
        };
        let next = current + 1;
        self.seqs.insert(key, next);
        next
    }

    /// Opens an empty book for the market, replacing any book it had.
    pub fn add_new_orderbook(&mut self, symbol: Symbol)
        requires
            old(self).wf(),
        ensures
            final(self).wf(),
            final(self).model() == (ExchangeModel {
                books: old(self).model().books.insert(
                    symbol_key(symbol),
                    BookModel { bids: Seq::empty(), asks: Seq::empty(), data: Map::empty() },
                ),
                ..old(self).model()
            }),
            final(self).event_tx == old(self).event_tx,
    {
        let orderbook = OrderBook::new();
        let ghost old_books = self.orderbooks@;
        self.orderbooks.insert(key_of(symbol), orderbook);
        assert(self.orderbooks@.map_values(|b: OrderBook| b.model()) =~= old_books.map_values(|b: OrderBook| b.model()).insert(
            symbol_key(symbol),
            orderbook.model(),
        ));
    }

    /// Settles and announces trades in order (see `trade_run`), stopping at the first send
    /// the ring refuses.
    pub fn handle_trades(&mut self, trades: Trades, symbol: Symbol, asset_id: AssetId) -> (r: Result<(), ExchangeError>)
        requires
            old(self).wf(),
            seq_of(old(self).model(), symbol) + trades_run(
                start(old(self).model()),
                symbol,
                asset_id,
                trades.view_seq(),
            ).sends.len() <= u64::MAX,
        ensures
            final(self).wf(),
            outcome(
                trades_run(start(old(self).model()), symbol, asset_id, trades.view_seq()),
                published(old(self).event_tx.producer),
                published(final(self).event_tx.producer),
                final(self).model(),
                r,
            ),
            r is Err ==> r matches Err(ExchangeError::ExchangeEventTrySendError(_)),
    {
        let ghost m0 = self.model();
        let ghost ts = trades.view_seq();
        let ghost target = trades_run(start(m0), symbol, asset_id, ts);
        let ghost base = published(self.event_tx.producer);
        let ghost mut run = start(m0);
        let n = trades.len();
        let mut i: usize = 0;
        proof {
            assert(ts.subrange(0, n as int) =~= ts);
            assert(base + events_of(run.sends) =~= base);
            lemma_trades_run_extends(run, symbol, asset_id, ts);
        }
        while i < n
            invariant
                self.wf(),
                n == ts.len(),
                i <= n,
                ts == trades.view_seq(),
                m0 == old(self).model(),
                base == published(old(self).event_tx.producer),
                target == trades_run(start(m0), symbol, asset_id, ts),
                self.model() == run.last,
                published(self.event_tx.producer) == base + events_of(run.sends),
                trades_run(run, symbol, asset_id, ts.subrange(i as int, n as int)) == target,
                !run.missing_book,
                seq_of(run.last, symbol) == seq_of(m0, symbol) + run.sends.len(),
                seq_of(m0, symbol) + target.sends.len() <= u64::MAX,
                extends(run, target),
            decreases n - i,
        {
            let trade = trades.get(i);
            let ghost rest = ts.subrange(i as int, n as int);
            let ghost whole = trade_run(run, symbol, asset_id, trade);
            proof {
                assert(rest[0] == trade);
                assert(rest.drop_first() =~= ts.subrange(i + 1, n as int));
                assert(trades_run(run, symbol, asset_id, rest) == trades_run(whole, symbol, asset_id, rest.drop_first()));
                lemma_trades_run_extends(whole, symbol, asset_id, rest.drop_first());
                lemma_trade_run_shift(run, symbol, asset_id, trade);
            }
            let ask_internal_id = self.risk_engine.get_internal_id(trade.ask_trade.user_id as ExternalUserId);
            let bid_internal_id = self.risk_engine.get_internal_id(trade.bid_trade.user_id as ExternalUserId);
            let _ = self.risk_engine.settle(
                bid_internal_id,
                trade.bid_trade.order_id,
                asset_id,
                Side::Buy,
                trade.bid_trade.price,
                trade.bid_trade.quantity,
            );
            let _ = self.risk_engine.settle(
                ask_internal_id,
                trade.ask_trade.order_id,
                asset_id,
                Side::Sell,
                trade.ask_trade.price,
                trade.ask_trade.quantity,
            );
            let ghost settled_run = with_risk(run, self.risk_engine.model());
            let ask_event = OrderBookEvent::OrderMatched(
                0,
                symbol,
                trade.ask_trade.order_id,
                trade.ask_trade.price,
                trade.ask_trade.quantity,
            );
            let bid_event = OrderBookEvent::OrderMatched(
                0,
                symbol,
                trade.bid_trade.order_id,
                trade.bid_trade.price,
                trade.bid_trade.quantity,
            );
            let ghost run_a = stamped(settled_run, symbol, ask_event);
            proof {
                assert(self.model() == settled_run.last);
                assert(whole == stamped(run_a, symbol, bid_event));
                lemma_stamped_step(settled_run, symbol, ask_event, base);
                lemma_stamped_step(run_a, symbol, bid_event, base);
                assert(whole.sends.len() == run.sends.len() + 2);
                assert(extends(whole, target));
                assert(target.sends.len() >= run.sends.len() + 2);
                assert(whole.sends.take(run_a.sends.len() as int) =~= run_a.sends);
                assert(target.sends.take(run_a.sends.len() as int) =~= target.sends.take(whole.sends.len() as int).take(
                    run_a.sends.len() as int,
                ));
                assert(extends(run_a, target));
            }
            match self.send_stamped(symbol, ask_event) {
                Ok(()) => {},
                Err(e) => {
                    proof {
                        lemma_send_failed(
                            settled_run,
                            symbol,
                            ask_event,
                            target,
                            base,
                            published(self.event_tx.producer),
                            self.model(),
                            Err(e),
                        );
                    }
                    return Err(e);
                },
            }
            proof {
                run = run_a;
            }
            match self.send_stamped(symbol, bid_event) {
                Ok(()) => {},
                Err(e) => {
                    proof {
                        lemma_send_failed(
                            run_a,
                            symbol,
                            bid_event,
                            target,
                            base,
                            published(self.event_tx.producer),
                            self.model(),
                            Err(e),
                        );
                    }
                    return Err(e);
                },
            }
            proof {
                run = whole;
            }
            i = i + 1;
        }
        proof {
            assert(ts.subrange(n as int, n as int) =~= Seq::<Trade>::empty());
        }
        Ok(())
    }

    /// Handles a new order as `add_run` describes.
    fn handle_add(&mut self, symbol: Symbol, new_order: NewOrder) -> (r: Result<(), ExchangeError>)
        requires
            old(self).wf(),
            cmd_feasible(old(self).model(), ExchangeCommand::AddNewOrder(symbol, new_order)),
            seq_of(old(self).model(), symbol) + add_run(old(self).model(), symbol, new_order).sends.len() <= u64::MAX,
        ensures
            final(self).wf(),
            outcome(
                add_run(old(self).model(), symbol, new_order),
                published(old(self).event_tx.producer),
                published(final(self).event_tx.producer),
                final(self).model(),
                r,
            ),
            r matches Err(ExchangeError::OrderBookAccessError(s)) ==> s == symbol,
    {
        let ghost m = self.model();
        let ghost base = published(self.event_tx.producer);
        let ghost target = add_run(m, symbol, new_order);
        let order_id = new_order.order_id;
        let user_id = new_order.user_id as ExternalUserId;
        let asset_id = symbol.get_quantity_unit().asset_id();
        let order = Order {
            order_id: new_order.order_id,
            user_id: new_order.user_id,
            asset_id: new_order.asset_id,
            price: new_order.price,
            initial_quantity: new_order.quantity,
            remaining_quantity: new_order.quantity,
            order_type: new_order.order_type,
            side: new_order.side,
        };
        assert(order == order_of_request(new_order));
        let reserved = self.risk_engine.check_and_reserve(user_id, order);
        let ghost m1 = self.model();
        proof {
            assert(m1 == ExchangeModel { risk: check_and_reserve_spec(m.risk, user_id, order).1, ..m });
            assert(base + events_of(start(m1).sends) =~= base);
        }
        if !reserved {
            let rejected = OrderBookEvent::OrderRejected(0, symbol, order_id);
            proof {
                lemma_stamped_step(start(m1), symbol, rejected, base);
                assert(target == stamped(start(m1), symbol, rejected));
                lemma_extends_self(target);
            }
            match self.send_stamped(symbol, rejected) {
                Ok(()) => {},
                Err(e) => {
                    proof {
                        lemma_send_failed(start(m1), symbol, rejected, target, base, published(self.event_tx.producer), self.model(), Err(e));
                    }
                    return Err(e);
                },
            }
            return Ok(());
        }
        let key = key_of(symbol);
        let mut book = match self.orderbooks.remove(&key) {
            Some(b) => b,
            None => {
                proof {
                    assert(self.model().books =~= m1.books);
                    assert(target == missing(m1));
                }
                return Err(ExchangeError::OrderBookAccessError(symbol));
            },
        };
        let ghost b = book.model();
        let added = book.add_new_order(new_order);
        self.orderbooks.insert(key, book);
        let ghost m2 = self.model();
        proof {
            assert(m2.books =~= m1.books.insert(key, book.model()));
        }
        match added {
            Some(trades) => {
                let ghost b2 = book.model();
                let ghost ts = trades.view_seq();
                let added_event = OrderBookEvent::OrderAdded(0, symbol, order_id);
                let ghost run1 = with_book(start(m1), symbol, b2);
                let ghost run2 = stamped(run1, symbol, added_event);
                proof {
                    assert(run1.last == m2);
                    assert(target == trades_run(run2, symbol, asset_id, ts));
                    lemma_stamped_step(run1, symbol, added_event, base);
                    lemma_trades_run_extends(run2, symbol, asset_id, ts);
                    lemma_trades_run_shift(run2, symbol, asset_id, ts);
                    assert(run1.sends =~= Seq::<(ExchangeModel, OrderBookEvent)>::empty());
                }
                match self.send_stamped(symbol, added_event) {
                    Ok(()) => {},
                    Err(e) => {
                        proof {
                            lemma_send_failed(run1, symbol, added_event, target, base, published(self.event_tx.producer), self.model(), Err(e));
                        }
                        return Err(e);
                    },
                }
                let ghost before = published(self.event_tx.producer);
                let result = self.handle_trades(trades, symbol, asset_id);
                proof {
                    let t = trades_run(start(run2.last), symbol, asset_id, ts);
                    lemma_trades_run_extends(start(run2.last), symbol, asset_id, ts);
                    lemma_outcome_shift(run2.sends, t, base, published(self.event_tx.producer), self.model(), result);
                    assert(target =~= Run { sends: run2.sends + t.sends, last: t.last, missing_book: t.missing_book });
                }
                result
            },
            None => {
                let internal_id = self.risk_engine.get_internal_id(user_id);
                let price = match order.price {
                    Some(p) => p,
                    None => 0,
                };
                let _ = self.risk_engine.release(internal_id, order_id, asset_id, order.side, price, order.initial_quantity);
                let ghost m3 = self.model();
                let rejected = OrderBookEvent::OrderRejected(0, symbol, order_id);
                proof {
                    assert(m2 =~= m1);
                    assert(target == stamped(start(m3), symbol, rejected));
                    lemma_stamped_step(start(m3), symbol, rejected, base);
                    assert(base + events_of(start(m3).sends) =~= base);
                    lemma_extends_self(target);
                }
                match self.send_stamped(symbol, rejected) {
                    Ok(()) => {},
                    Err(e) => {
                        proof {
                            lemma_send_failed(start(m3), symbol, rejected, target, base, published(self.event_tx.producer), self.model(), Err(e));
                        }
                        return Err(e);
                    },
                }
                Ok(())
            },
        }
    }

    /// Handles a cancellation as `cancel_run` describes.
    fn handle_cancel(&mut self, symbol: Symbol, order_id: OrderId) -> (r: Result<(), ExchangeError>)
        requires
            old(self).wf(),
            cmd_feasible(old(self).model(), ExchangeCommand::CancelOrder(symbol, order_id)),
            seq_of(old(self).model(), symbol) + cancel_run(old(self).model(), symbol, order_id).sends.len() <= u64::MAX,
        ensures
            final(self).wf(),
            outcome(
                cancel_run(old(self).model(), symbol, order_id),
                published(old(self).event_tx.producer),
                published(final(self).event_tx.producer),
                final(self).model(),
                r,
            ),
            r matches Err(ExchangeError::OrderBookAccessError(s)) ==> s == symbol,
    {
        let ghost m = self.model();
        let ghost base = published(self.event_tx.producer);
        let ghost target = cancel_run(m, symbol, order_id);
        proof {
            assert(base + events_of(start(m).sends) =~= base);
        }
        let key = key_of(symbol);
        let mut book = match self.orderbooks.remove(&key) {
            Some(b) => b,
            None => {
                proof {
                    assert(self.model().books =~= m.books);
                }
                return Err(ExchangeError::OrderBookAccessError(symbol));
            },
        };
        let ghost b = book.model();
        let order_info = book.get_order(order_id);
        let cancelled = book.cancel_order(order_id);
        self.orderbooks.insert(key, book);
        let ghost m1 = self.model();
        proof {
            assert(m1.books =~= m.books.insert(key, book.model()));
        }
        if cancelled {
            match order_info {
                Some(o) => {
                    let internal_id = self.risk_engine.get_internal_id(o.user_id as ExternalUserId);
                    let asset_id = symbol.get_quantity_unit().asset_id();
                    let price = match o.price {
                        Some(p) => p,
                        None => 0,
                    };
                    let _ = self.risk_engine.release(internal_id, order_id, asset_id, o.side, price, o.remaining_quantity);
                },
                None => {},
            }
            let ghost m2 = self.model();
            let cancelled_event = OrderBookEvent::OrderCancelled(0, symbol, order_id);
            proof {
                assert(target == stamped(start(m2), symbol, cancelled_event));
                lemma_stamped_step(start(m2), symbol, cancelled_event, base);
                lemma_extends_self(target);
                assert(base + events_of(start(m2).sends) =~= base);
            }
            match self.send_stamped(symbol, cancelled_event) {
                Ok(()) => {},
                Err(e) => {
                    proof {
                        lemma_send_failed(start(m2), symbol, cancelled_event, target, base, published(self.event_tx.producer), self.model(), Err(e));
                    }
                    return Err(e);
                },
            }
        } else {
            proof {
                assert(m1.books =~= m.books);
                assert(target == start(m1));
            }
        }
        Ok(())
    }

    /// Handles a modification as `modify_run` describes.
    fn handle_modify(&mut self, symbol: Symbol, modify_order: ModifyOrder) -> (r: Result<(), ExchangeError>)
        requires
            old(self).wf(),
            cmd_feasible(old(self).model(), ExchangeCommand::ModifyOrder(symbol, modify_order)),
            seq_of(old(self).model(), symbol) + modify_run(old(self).model(), symbol, modify_order).sends.len() <= u64::MAX,
        ensures
            final(self).wf(),
            outcome(
                modify_run(old(self).model(), symbol, modify_order),
                published(old(self).event_tx.producer),
                published(final(self).event_tx.producer),
                final(self).model(),
                r,
            ),
            r matches Err(ExchangeError::OrderBookAccessError(s)) ==> s == symbol,
    {
        let ghost m = self.model();
        let ghost base = published(self.event_tx.producer);
        let ghost target = modify_run(m, symbol, modify_order);
        proof {
            assert(base + events_of(start(m).sends) =~= base);
        }
        let key = key_of(symbol);
        let mut book = match self.orderbooks.remove(&key) {
            Some(b) => b,
            None => {
                proof {
                    assert(self.model().books =~= m.books);
                }
                return Err(ExchangeError::OrderBookAccessError(symbol));
            },
        };
        let modified = book.modify_order(modify_order);
        self.orderbooks.insert(key, book);
        let ghost m1 = self.model();
        proof {
            assert(m1.books =~= m.books.insert(key, book.model()));
        }
        match modified {
            Some(trades) => {
                let ghost ts = trades.view_seq();
                let asset_id = symbol.get_quantity_unit().asset_id();
                let modified_event = OrderBookEvent::OrderModified(0, symbol, modify_order);
                let ghost run1 = with_book(start(m), symbol, book.model());
                let ghost run2 = stamped(run1, symbol, modified_event);
                proof {
                    assert(run1.last == m1);
                    assert(target == trades_run(run2, symbol, asset_id, ts));
                    lemma_stamped_step(run1, symbol, modified_event, base);
                    lemma_trades_run_extends(run2, symbol, asset_id, ts);
                    lemma_trades_run_shift(run2, symbol, asset_id, ts);
                    assert(base + events_of(run1.sends) =~= base);
                }
                match self.send_stamped(symbol, modified_event) {
                    Ok(()) => {},
                    Err(e) => {
                        proof {
                            lemma_send_failed(run1, symbol, modified_event, target, base, published(self.event_tx.producer), self.model(), Err(e));
                        }
                        return Err(e);
                    },
                }
                let result = self.handle_trades(trades, symbol, asset_id);
                proof {
                    let t = trades_run(start(run2.last), symbol, asset_id, ts);
                    lemma_trades_run_extends(start(run2.last), symbol, asset_id, ts);
                    lemma_outcome_shift(run2.sends, t, base, published(self.event_tx.producer), self.model(), result);
                    assert(target =~= Run { sends: run2.sends + t.sends, last: t.last, missing_book: t.missing_book });
                }
                result
            },
            None => {
                let rejected = OrderBookEvent::ModifyOrderRejected(0, symbol, modify_order);
                proof {
                    if in_book(book_of(m, symbol), modify_order.order_id) {
                        assert(target == stamped(start(m1), symbol, rejected));
                    } else {
                        assert(m1.books =~= m.books);
                        assert(target == stamped(start(m1), symbol, rejected));
                    }
                    lemma_stamped_step(start(m1), symbol, rejected, base);
                    lemma_extends_self(target);
                    assert(base + events_of(start(m1).sends) =~= base);
                }
                match self.send_stamped(symbol, rejected) {
                    Ok(()) => {},
                    Err(e) => {
                        proof {
                            lemma_send_failed(start(m1), symbol, rejected, target, base, published(self.event_tx.producer), self.model(), Err(e));
                        }
                        return Err(e);
                    },
                }
                Ok(())
            },
        }
    }

    /// Cancels the market's resting orders of a type, in whatever order the book's index
    /// yields them, and announces them as expired.
    fn handle_prune(&mut self, symbol: Symbol, prune_order_type: OrderType) -> (r: Result<(), ExchangeError>)
        requires
            old(self).wf(),
            cmd_feasible(old(self).model(), ExchangeCommand::PruneExpiredOrders(symbol, prune_order_type)),
            seq_of(old(self).model(), symbol) < u64::MAX,
        ensures
            final(self).wf(),
            exists|ids: OrderIds|
                #[trigger] prune_ids(old(self).model(), ExchangeCommand::PruneExpiredOrders(symbol, prune_order_type), ids)
                    && outcome(
                    prune_run(old(self).model(), symbol, ids),
                    published(old(self).event_tx.producer),
                    published(final(self).event_tx.producer),
                    final(self).model(),
                    r,
                ),
            r matches Err(ExchangeError::OrderBookAccessError(s)) ==> s == symbol,
    {
        let ghost m = self.model();
        let ghost base = published(self.event_tx.producer);
        let ghost cmd = ExchangeCommand::PruneExpiredOrders(symbol, prune_order_type);
        proof {
            assert(base + events_of(start(m).sends) =~= base);
        }
        let key = key_of(symbol);
        let mut book = match self.orderbooks.remove(&key) {
            Some(b) => b,
            None => {
                proof {
                    assert(self.model().books =~= m.books);
                    let w: OrderIds = vstd::pervasive::arbitrary();
                    assert(prune_ids(m, cmd, w));
                    assert(prune_run(m, symbol, w) == missing(m));
                }
                return Err(ExchangeError::OrderBookAccessError(symbol));
            },
        };
        let order_ids = book.order_ids_of_type(prune_order_type);
        book.cancel_orders(order_ids.clone());
        self.orderbooks.insert(key, book);
        let ghost m1 = self.model();
        let ghost target = prune_run(m, symbol, order_ids);
        let expired = OrderBookEvent::OrdersExpired(0, symbol, order_ids);
        proof {
            assert(m1.books =~= m.books.insert(key, book.model()));
            assert(prune_ids(m, cmd, order_ids));
            assert(target == stamped(start(m1), symbol, expired));
            lemma_stamped_step(start(m1), symbol, expired, base);
            lemma_extends_self(target);
            assert(base + events_of(start(m1).sends) =~= base);
        }
        match self.send_stamped(symbol, expired) {
            Ok(()) => {},
            Err(e) => {
                proof {
                    lemma_send_failed(start(m1), symbol, expired, target, base, published(self.event_tx.producer), self.model(), Err(e));
                }
                return Err(e);
            },
        }
        Ok(())
    }

    /// Carries out a command (see `cmd_run`), publishing what happened on the event ring.
    /// Whatever the ring does, the call ends as `outcome` says for the orders a prune finds;
    /// a book error names the command's market.
    pub fn handle_cmd(&mut self, cmd: ExchangeCommand) -> (r: Result<(), ExchangeError>)
        requires
            old(self).wf(),
            cmd_feasible(old(self).model(), cmd),
            seq_of(old(self).model(), command_symbol(cmd)) + sends_needed(old(self).model(), cmd) <= u64::MAX,
        ensures
            final(self).wf(),
            exists|ids: OrderIds|
                #[trigger] prune_ids(old(self).model(), cmd, ids) && outcome(
                    cmd_run(old(self).model(), cmd, ids),
                    published(old(self).event_tx.producer),
                    published(final(self).event_tx.producer),
                    final(self).model(),
                    r,
                ),
            r matches Err(ExchangeError::OrderBookAccessError(s)) ==> s == command_symbol(cmd),
            books_at_rest(old(self).model()) ==> books_at_rest(final(self).model()),
    {
        let ghost m = self.model();
        let ghost base = published(self.event_tx.producer);
        let ghost w: OrderIds = vstd::pervasive::arbitrary();
        let r = self.handle_cmd_inner(cmd);
        proof {
            if books_at_rest(m) {
                let ids = choose|ids: OrderIds|
                    #[trigger] prune_ids(m, cmd, ids) && outcome(
                        cmd_run(m, cmd, ids),
                        base,
                        published(self.event_tx.producer),
                        self.model(),
                        r,
                    );
                law_books_stay_at_rest(m, cmd, ids);
                lemma_outcome_at_rest(cmd_run(m, cmd, ids), base, published(self.event_tx.producer), self.model(), r);
            }
        }
        r
    }

    /// Dispatches a command to its handler.
    fn handle_cmd_inner(&mut self, cmd: ExchangeCommand) -> (r: Result<(), ExchangeError>)
        requires
            old(self).wf(),
            cmd_feasible(old(self).model(), cmd),
            seq_of(old(self).model(), command_symbol(cmd)) + sends_needed(old(self).model(), cmd) <= u64::MAX,
        ensures
            final(self).wf(),
            exists|ids: OrderIds|
                #[trigger] prune_ids(old(self).model(), cmd, ids) && outcome(
                    cmd_run(old(self).model(), cmd, ids),
                    published(old(self).event_tx.producer),
                    published(final(self).event_tx.producer),
                    final(self).model(),
                    r,
                ),
            r matches Err(ExchangeError::OrderBookAccessError(s)) ==> s == command_symbol(cmd),
    {
        let ghost m = self.model();
        let ghost w: OrderIds = vstd::pervasive::arbitrary();
        match cmd {
            ExchangeCommand::AddNewOrder(symbol, new_order) => {
                let r = self.handle_add(symbol, new_order);
                proof {
                    assert(prune_ids(m, cmd, w));
                }
                r
            },
            ExchangeCommand::CancelOrder(symbol, order_id) => {
                let r = self.handle_cancel(symbol, order_id);
                proof {
                    assert(prune_ids(m, cmd, w));
                }
                r
            },
            ExchangeCommand::ModifyOrder(symbol, modify_order) => {
                let r = self.handle_modify(symbol, modify_order);
                proof {
                    assert(prune_ids(m, cmd, w));
                }
                r
            },
            ExchangeCommand::PruneExpiredOrders(symbol, prune_order_type) => {
                self.handle_prune(symbol, prune_order_type)
            },
        }
    }

    /// Stamps `event` with the market's next sequence number and sends it.
    fn send_stamped(&mut self, symbol: Symbol, event: OrderBookEvent) -> (r: Result<(), ExchangeError>)
        requires
            old(self).wf(),
            seq_of(old(self).model(), symbol) < u64::MAX,
        ensures
            final(self).wf(),
            final(self).model() == stamped(start(old(self).model()), symbol, event).last,
            r is Ok ==> published(final(self).event_tx.producer) == published(old(self).event_tx.producer).push(
                stamped(start(old(self).model()), symbol, event).sends[0].1,
            ),
            r is Err ==> published(final(self).event_tx.producer) == published(old(self).event_tx.producer),
            r is Err ==> r matches Err(ExchangeError::ExchangeEventTrySendError(_)),
    {
        let seq = self.next_seq(&symbol);
        let ev = restamp(event, seq);
        match self.event_tx.try_send(ev) {
            Ok(_) => Ok(()),
            Err(e) => Err(ExchangeError::ExchangeEventTrySendError(e)),
        }
    }
}


/// The internal id of the owner of a resting order.
pub open spec fn owner_of(m: ExchangeModel, s: Symbol, id: OrderId) -> int {
    m.risk.ids[order_in_book(book_of(m, s), id).user_id as ExternalUserId] as int
}

/// Cancelling a resting order through the exchange gives back exactly what the rest of it had
/// set aside, and touches no other account: for a buy, its price times its remaining quantity
/// moves from the owner's reserve to their available balance; for a sell, its remaining
/// quantity moves from the reserved to the available holding of the market's asset.
pub proof fn law_cancel_releases_the_remainder(m: ExchangeModel, s: Symbol, id: OrderId)
    requires
        has_book(m, s),
        in_book(book_of(m, s), id),
        m.risk.ids.contains_key(order_in_book(book_of(m, s), id).user_id as ExternalUserId),
        0 <= owner_of(m, s, id) < m.risk.accounts.len(),
        ({
            let o = order_in_book(book_of(m, s), id);
            let a = m.risk.accounts[owner_of(m, s, id)];
            let cost = price_or_zero(o) * o.remaining_quantity;
            let asset = market_asset(s);
            &&& o.side == Side::Buy ==> a.status != AccountStatus::Closed && 0 < cost <= a.reserved
                && a.available_balance + cost <= u64::MAX
            &&& o.side == Side::Sell ==> a.assets_reserved.contains_key(asset) && o.remaining_quantity
                <= a.assets_reserved[asset] && qty_or_zero(a.assets_available, asset) + o.remaining_quantity
                <= Quantity::MAX
        }),
    ensures
        ({
            let o = order_in_book(book_of(m, s), id);
            let i = owner_of(m, s, id);
            let a = m.risk.accounts[i];
            let r = cancel_run(m, s, id).last.risk;
            let b = r.accounts[i];
            let cost = price_or_zero(o) * o.remaining_quantity;
            let asset = market_asset(s);
            &&& r.ids == m.risk.ids
            &&& r.accounts.len() == m.risk.accounts.len()
            &&& forall|k: int| 0 <= k < r.accounts.len() && k != i ==> #[trigger] r.accounts[k] == m.risk.accounts[k]
            &&& o.side == Side::Buy ==> b == (AccountModel {
                available_balance: (a.available_balance + cost) as u64,
                reserved: (a.reserved - cost) as u64,
                ..a
            })
            &&& o.side == Side::Sell ==> {
                &&& b.assets_reserved[asset] == a.assets_reserved[asset] - o.remaining_quantity
                &&& b.assets_available[asset] == qty_or_zero(a.assets_available, asset) + o.remaining_quantity
                &&& b.available_balance == a.available_balance
                &&& b.reserved == a.reserved
            }
        }),
{
}

/// A new order that never reaches the book leaves every account as it was: where the risk
/// engine refuses it nothing is set aside, and where the book turns it away what was set aside
/// for it is given back in full (a sell's in the market's own asset).
pub proof fn law_unplaced_order_leaves_accounts(m: ExchangeModel, s: Symbol, no: NewOrder)
    requires
        has_book(m, s),
        no.side == Side::Sell ==> no.asset_id == market_asset(s),
        !check_and_reserve_spec(m.risk, no.user_id as ExternalUserId, order_of_request(no)).0 || add_rejected(
            book_of(m, s),
            order_of_request(no),
        ),
    ensures
        add_run(m, s, no).last.risk == m.risk,
{
    let o = order_of_request(no);
    let user = no.user_id as ExternalUserId;
    let (ok, r1) = check_and_reserve_spec(m.risk, user, o);
    if ok {
        let i = m.risk.ids[user];
        let a = m.risk.accounts[i as int];
        law_release_undoes_reservation(a, o);
        let r2 = release_spec(r1, internal_id_of(r1, user), market_asset(s), o.side, price_or_zero(o), o.initial_quantity).1;
        assert(r2.accounts =~= m.risk.accounts);
        assert(r2 == m.risk);
    }
}

} // verus!
