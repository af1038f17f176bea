use vstd::prelude::*;

use disruptor::{MultiConsumerBarrier, Producer, RingBufferFull, SingleProducer};

use crate::orders::{ModifyOrder, OrderIds};
use crate::symbol::{symbol_name, Symbol};
use crate::types::{OrderId, Price, Quantity, Side};

verus! {

/// The per-market number that orders the events of that market.
pub type Sequence = u64;

/// What happened in a book, stamped with the market's sequence number.
#[derive(Clone, PartialEq, Debug)]
pub enum OrderBookEvent {
    OrderMatched(Sequence, Symbol, OrderId, Price, Quantity),
    OrderCancelled(Sequence, Symbol, OrderId),
    OrderAdded(Sequence, Symbol, OrderId),
    OrderModified(Sequence, Symbol, ModifyOrder),
    OrderRejected(Sequence, Symbol, OrderId),
    ModifyOrderRejected(Sequence, Symbol, ModifyOrder),
    OrdersExpired(Sequence, Symbol, OrderIds),
    OrderPartiallyFilled(Sequence, Symbol),
    MarketOpened(Sequence, Symbol),
    MarketClosed(Sequence, Symbol),
    Error(Sequence, u32),
}

/// The market an event concerns; an error event concerns none.
pub open spec fn event_symbol(e: OrderBookEvent) -> Option<Symbol> {
    match e {
        OrderBookEvent::OrderMatched(_, s, _, _, _) => Some(s),
        OrderBookEvent::OrderCancelled(_, s, _) => Some(s),
        OrderBookEvent::OrderAdded(_, s, _) => Some(s),
        OrderBookEvent::OrderModified(_, s, _) => Some(s),
        OrderBookEvent::OrderRejected(_, s, _) => Some(s),
        OrderBookEvent::ModifyOrderRejected(_, s, _) => Some(s),
        OrderBookEvent::OrdersExpired(_, s, _) => Some(s),
        OrderBookEvent::OrderPartiallyFilled(_, s) => Some(s),
        OrderBookEvent::MarketOpened(_, s) => Some(s),
        OrderBookEvent::MarketClosed(_, s) => Some(s),
        OrderBookEvent::Error(_, _) => None,
    }
}

/// The event's kind as written in logs.
pub open spec fn event_name(e: OrderBookEvent) -> Seq<char> {
    match e {
        OrderBookEvent::MarketClosed(..) => "MarketClosed"@,
        OrderBookEvent::MarketOpened(..) => "MarketOpened"@,
        OrderBookEvent::OrderMatched(..) => "OrderMatched"@,
        OrderBookEvent::OrderAdded(..) => "OrderAdded"@,
        OrderBookEvent::OrderCancelled(..) => "OrderCancelled"@,
        OrderBookEvent::OrderModified(..) => "OrderModified"@,
        OrderBookEvent::OrderPartiallyFilled(..) => "OrderPartiallyFilled"@,
        OrderBookEvent::OrderRejected(..) => "OrderRejected"@,
        OrderBookEvent::OrdersExpired(..) => "OrdersExpired"@,
        OrderBookEvent::ModifyOrderRejected(..) => "ModifyOrderRejected"@,
        OrderBookEvent::Error(..) => "ERROR"@,
    }
}

impl OrderBookEvent {
    pub fn symbol(&self) -> (r: Option<Symbol>)
        ensures
            r == event_symbol(*self),
    {
        match self {
            Self::OrderMatched(_, s, _, _, _) => Some(*s),
            Self::OrderCancelled(_, s, _) => Some(*s),
            Self::OrderAdded(_, s, _) => Some(*s),
            Self::OrderModified(_, s, _) => Some(*s),
            Self::OrderRejected(_, s, _) => Some(*s),
            Self::ModifyOrderRejected(_, s, _) => Some(*s),
            Self::OrdersExpired(_, s, _) => Some(*s),
            Self::OrderPartiallyFilled(_, s) => Some(*s),
            Self::MarketOpened(_, s) => Some(*s),
            Self::MarketClosed(_, s) => Some(*s),
            Self::Error(..) => None,
        }
    }

    pub fn is_error(&self) -> (r: bool)
        ensures
            r == (*self is Error),
    {
        match self {
            Self::Error(..) => true,
            _ => false,
        }
    }

    pub fn as_str(&self) -> (r: &'static str)
        ensures
            r@ == event_name(*self),
    {
        match self {
            Self::MarketClosed(..) => "MarketClosed",
            Self::MarketOpened(..) => "MarketOpened",
            Self::OrderMatched(..) => "OrderMatched",
            Self::OrderAdded(..) => "OrderAdded",
            Self::OrderCancelled(..) => "OrderCancelled",
            Self::OrderModified(..) => "OrderModified",
            Self::OrderPartiallyFilled(..) => "OrderPartiallyFilled",
            Self::OrderRejected(..) => "OrderRejected",
            Self::OrdersExpired(..) => "OrdersExpired",
            Self::ModifyOrderRejected(..) => "ModifyOrderRejected",
            Self::Error(..) => "ERROR",
        }
    }
}

/// A ring buffer slot that may hold an event.
#[derive(Debug, Clone, PartialEq)]
pub struct EventEnvelope {
    pub event: Option<OrderBookEvent>,
}

impl EventEnvelope {
    pub fn new(event: OrderBookEvent) -> (r: Self)
        ensures
            r.event == Some(event),
    {
        Self { event: Some(event) }
    }

    pub fn empty() -> (r: Self)
        ensures
            r.event is None,
    {
        Self { event: None }
    }
}

impl Default for EventEnvelope {
    fn default() -> (r: Self)
        ensures
            r.event is None,
    {
        Self::empty()
    }
}

#[verifier::external_type_specification]
#[verifier::external_body]
#[verifier::reject_recursive_types(E)]
#[verifier::reject_recursive_types(C)]
pub struct ExSingleProducer<E, C>(SingleProducer<E, C>);

#[verifier::external_type_specification]
#[verifier::external_body]
pub struct ExMultiConsumerBarrier(MultiConsumerBarrier);

#[verifier::external_type_specification]
#[verifier::external_body]
pub struct ExRingBufferFull(RingBufferFull);

/// The events a producer of the event ring has published so far, oldest first.
pub uninterp spec fn published(p: SingleProducer<EventEnvelope, MultiConsumerBarrier>) -> Seq<OrderBookEvent>;

/// Writes an event into a ring slot.
fn put_event(slot: &mut EventEnvelope, event: OrderBookEvent)
    ensures
        final(slot).event == Some(event),
{
    slot.event = Some(event);
}

/// The sending end of the event ring, shared by every market's book.
pub struct EventDispatcher {
    pub producer: SingleProducer<EventEnvelope, MultiConsumerBarrier>,
}

impl EventDispatcher {
    pub fn new(producer: SingleProducer<EventEnvelope, MultiConsumerBarrier>) -> (r: Self)
        ensures
            r.producer == producer,
    {
        Self { producer }
    }

    /// Publishes `event` without waiting, through `disruptor::Producer::try_publish`: on `Ok`
    /// the event was appended to what this producer has published, and the sequence number
    /// returned is its place there (the producer numbers its events from 0, one by one); on
    /// `Err` (the ring is full) nothing was published.
    #[verifier::external_body]
    pub fn try_send(&mut self, event: OrderBookEvent) -> (r: Result<i64, RingBufferFull>)
        ensures
            r is Ok ==> published(final(self).producer) == published(old(self).producer).push(event),
            r matches Ok(seq) ==> seq == published(old(self).producer).len(),
            r is Err ==> published(final(self).producer) == published(old(self).producer),
    {
        self.producer.try_publish(|slot| put_event(slot, event))
    }
}

/// An event as it is logged: its kind, number, market, and whichever order details it carries.
pub struct OrderbookEventLog {
    pub event_type: Option<String>,
    pub sequence_no: Option<u64>,
    pub symbol: String,
    pub order_id: Option<OrderId>,
    pub price: Option<Price>,
    pub quantity: Option<Quantity>,
    pub side: Option<Side>,
    pub order_ids: Option<Vec<u32>>,
    pub error_code: Option<u64>,
}

/// Whether every id fits the 32-bit ids of the log.
pub open spec fn ids_fit(ids: Seq<OrderId>) -> bool {
    forall|i: int| 0 <= i < ids.len() ==> ids[i] <= u32::MAX
}

/// The 32-bit ids, in order, where they all fit.
pub open spec fn short_ids(ids: Seq<OrderId>) -> Seq<u32> {
    ids.map_values(|x: OrderId| x as u32)
}

/// The sequence number, order id, price, quantity and side an event reports (those it does not
/// carry are `None`).
pub open spec fn log_fields(e: OrderBookEvent) -> (Sequence, Option<OrderId>, Option<Price>, Option<Quantity>, Option<Side>) {
    match e {
        OrderBookEvent::OrderMatched(q, _, id, p, n) => (q, Some(id), Some(p), Some(n), None),
        OrderBookEvent::OrderCancelled(q, _, id) => (q, Some(id), None, None, None),
        OrderBookEvent::OrderAdded(q, _, id) => (q, Some(id), None, None, None),
        OrderBookEvent::OrderModified(q, _, mo) => (q, Some(mo.order_id), Some(mo.price), Some(mo.quantity), Some(mo.side)),
        OrderBookEvent::OrderRejected(q, _, id) => (q, Some(id), None, None, None),
        OrderBookEvent::ModifyOrderRejected(q, _, mo) => (
            q,
            Some(mo.order_id),
            Some(mo.price),
            Some(mo.quantity),
            Some(mo.side),
        ),
        OrderBookEvent::OrdersExpired(q, _, _) => (q, None, None, None, None),
        OrderBookEvent::OrderPartiallyFilled(q, _) => (q, None, None, None, None),
        OrderBookEvent::MarketOpened(q, _) => (q, None, None, None, None),
        OrderBookEvent::MarketClosed(q, _) => (q, None, None, None, None),
        OrderBookEvent::Error(q, _) => (q, None, None, None, None),
    }
}

/// Copies the ids to 32-bit ids, where every one fits.
fn short_id_list(ids: &OrderIds) -> (r: Option<Vec<u32>>)
    ensures
        r is Some <==> ids_fit(ids@),
        r is Some ==> r->0@ == short_ids(ids@),
{
    let mut out: Vec<u32> = Vec::new();
    let mut i: usize = 0;
    while i < ids.len()
        invariant
            i <= ids@.len(),
            ids_fit(ids@.take(i as int)),
            out@ == short_ids(ids@.take(i as int)),
        decreases ids@.len() - i,
    {
        if ids[i] > 4294967295u64 {
            proof {
                assert(ids@[i as int] > u32::MAX);
            }
            return None;
        }
        out.push(ids[i] as u32);
        proof {
            assert(ids@.take(i + 1) =~= ids@.take(i as int).push(ids@[i as int]));
            assert(short_ids(ids@.take(i + 1)) =~= short_ids(ids@.take(i as int)).push(ids@[i as int] as u32));
        }
        i = i + 1;
    }
    assert(ids@.take(i as int) =~= ids@);
    Some(out)
}

impl OrderBookEvent {
    /// The log record of an event of a market: its kind and number, the market's name, the
    /// order details it carries, and for an expiry the expired ids (where they all fit 32
    /// bits). An error event, which concerns no market, has none.
    pub fn to_log_data(&self) -> (r: Option<OrderbookEventLog>)
        ensures
            r is None <==> event_symbol(*self) is None,
            r is Some ==> {
                let l = r->0;
                let (q, id, p, n, side) = log_fields(*self);
                &&& l.event_type is Some && l.event_type->0@ == event_name(*self)
                &&& l.sequence_no == Some(q)
                &&& l.symbol@ == symbol_name(event_symbol(*self)->0)
                &&& l.order_id == id
                &&& l.price == p
                &&& l.quantity == n
                &&& l.side == side
                &&& l.error_code is None
                &&& match *self {
                    OrderBookEvent::OrdersExpired(_, _, ids) => (l.order_ids is Some <==> ids_fit(ids@)) && (
                    l.order_ids is Some ==> l.order_ids->0@ == short_ids(ids@)),
                    _ => l.order_ids is None,
                }
            },
    {
        let symbol = match self.symbol() {
            Some(s) => s,
            None => {
                return None;
            },
        };
        let (sequence_no, order_id, price, quantity, side): (Sequence, Option<OrderId>, Option<Price>, Option<Quantity>, Option<Side>) = match self {
            OrderBookEvent::OrderMatched(q, _, id, p, n) => (*q, Some(*id), Some(*p), Some(*n), None),
            OrderBookEvent::OrderCancelled(q, _, id) => (*q, Some(*id), None, None, None),
            OrderBookEvent::OrderAdded(q, _, id) => (*q, Some(*id), None, None, None),
            OrderBookEvent::OrderModified(q, _, mo) => (*q, Some(mo.order_id), Some(mo.price), Some(mo.quantity), Some(mo.side)),
            OrderBookEvent::OrderRejected(q, _, id) => (*q, Some(*id), None, None, None),
            OrderBookEvent::ModifyOrderRejected(q, _, mo) => (*q, Some(mo.order_id), Some(mo.price), Some(mo.quantity), Some(mo.side)),
            OrderBookEvent::OrdersExpired(q, _, _) => (*q, None, None, None, None),
            OrderBookEvent::OrderPartiallyFilled(q, _) => (*q, None, None, None, None),
            OrderBookEvent::MarketOpened(q, _) => (*q, None, None, None, None),
            OrderBookEvent::MarketClosed(q, _) => (*q, None, None, None, None),
            OrderBookEvent::Error(q, _) => (*q, None, None, None, None),
        };
        let order_ids = match self {
            OrderBookEvent::OrdersExpired(_, _, ids) => short_id_list(ids),
            _ => None,
        };
        Some(
            OrderbookEventLog {
                event_type: Some(self.as_str().to_owned()),
                sequence_no: Some(sequence_no),
                symbol: symbol.as_str().to_owned(),
                order_id,
                price,
                quantity,
                side,
                order_ids,
                error_code: None,
            },
        )
    }
}

} // verus!
