//! The vocabulary of the engine: identifiers, commands and events.

use crate::model::opposite;
use vstd::prelude::*;

verus! {

pub type OrderId = u64;

/// A fixed-point price: the real price times a power of ten.
pub type Price = u64;

/// A fixed-point quantity: the real quantity times a power of ten.
pub type Quantity = u64;

/// Nanoseconds, assigned where commands are sequenced.
pub type Timestamp = u64;

pub type Sequence = u64;

/// The events that one command gives rise to, in order.
pub type Events = Vec<Event>;

#[derive(Debug, Clone, Copy, PartialEq, Eq, Structural)]
pub enum Side {
    Buy,
    Sell,
}

impl Side {
    /// The side that orders of this side trade against.
    pub fn opposite(self) -> (side: Side)
        ensures
            side == opposite(self),
            side != self,
    {
        match self {
            Side::Buy => Side::Sell,
            Side::Sell => Side::Buy,
        }
    }
}

/// What an order does with the quantity that it cannot trade at once.
///
/// - `Limit`: trades what it can, the remainder rests on the book
/// - `Market`: takes liquidity up to the protection price, the remainder is canceled
/// - `Ioc`: trades what it can, the remainder is canceled
/// - `Fok`: trades in full or not at all
/// - `PostOnly`: rests on the book, and is rejected if it would trade
#[derive(Debug, Clone, Copy, PartialEq, Eq, Structural)]
pub enum OrderType {
    Limit,
    Market,
    Ioc,
    Fok,
    PostOnly,
}

/// What an engine is asked to do.
#[derive(Debug, Clone)]
pub enum Command {
    NewOrder(NewOrder),
    Cancel { order_id: OrderId },
}

#[derive(Debug, Clone)]
pub struct NewOrder {
    pub order_id: OrderId,
    pub symbol: String,
    pub side: Side,
    pub order_type: OrderType,
    /// Ignored for market orders.
    pub price: Price,
    pub quantity: Quantity,
    pub user_id: u64,
}

/// A command with the sequence number and the time that it was given when it
/// was sequenced. Replaying the same sequenced commands gives the same events.
#[derive(Debug, Clone)]
pub struct Sequenced {
    pub seq: Sequence,
    pub ts: Timestamp,
    pub cmd: Command,
}

/// What the engine reports.
#[derive(Debug, Clone)]
pub enum Event {
    Accepted { order_id: OrderId, seq: Sequence },
    Rejected { order_id: OrderId, reason: String },
    /// A trade. Its price is always the price of the resting order.
    Trade {
        seq: Sequence,
        ts: Timestamp,
        symbol: String,
        taker_order_id: OrderId,
        maker_order_id: OrderId,
        taker_side: Side,
        price: Price,
        quantity: Quantity,
    },
    /// An order, or what is left of it, now rests on the book.
    Resting { order_id: OrderId, side: Side, price: Price, remaining: Quantity },
    Canceled { order_id: OrderId },
    /// The part of an order that did not trade was canceled.
    Killed { order_id: OrderId, unfilled: Quantity, reason: String },
}

/// An [`Event`] with its strings as sequences of characters.
pub enum EventView {
    Accepted { order_id: OrderId, seq: Sequence },
    Rejected { order_id: OrderId, reason: Seq<char> },
    Trade {
        seq: Sequence,
        ts: Timestamp,
        symbol: Seq<char>,
        taker_order_id: OrderId,
        maker_order_id: OrderId,
        taker_side: Side,
        price: Price,
        quantity: Quantity,
    },
    Resting { order_id: OrderId, side: Side, price: Price, remaining: Quantity },
    Canceled { order_id: OrderId },
    Killed { order_id: OrderId, unfilled: Quantity, reason: Seq<char> },
}

impl View for Event {
    type V = EventView;

    open spec fn view(&self) -> EventView {
        match *self {
            Event::Accepted { order_id, seq } => EventView::Accepted { order_id, seq },
            Event::Rejected { order_id, reason } => EventView::Rejected {
                order_id,
                reason: reason@,
            },
            Event::Trade {
                seq,
                ts,
                symbol,
                taker_order_id,
                maker_order_id,
                taker_side,
                price,
                quantity,
            } => EventView::Trade {
                seq,
                ts,
                symbol: symbol@,
                taker_order_id,
                maker_order_id,
                taker_side,
                price,
                quantity,
            },
            Event::Resting { order_id, side, price, remaining } => EventView::Resting {
                order_id,
                side,
                price,
                remaining,
            },
            Event::Canceled { order_id } => EventView::Canceled { order_id },
            Event::Killed { order_id, unfilled, reason } => EventView::Killed {
                order_id,
                unfilled,
                reason: reason@,
            },
        }
    }
}

/// The views of a batch of events.
pub open spec fn event_views(events: Seq<Event>) -> Seq<EventView> {
    events.map_values(|e: Event| e@)
}

pub proof fn lemma_event_views_push(events: Seq<Event>, event: Event)
    ensures
        event_views(events.push(event)) == event_views(events).push(event@),
{
    assert(event_views(events.push(event)) =~= event_views(events).push(event@));
}

/// The views of events leave nothing out: they come one for each event, in order, with
/// the same fields.
pub proof fn law_event_views_are_faithful(events: Seq<Event>, i: int)
    requires
        0 <= i < events.len(),
    ensures
        event_views(events).len() == events.len(),
        match events[i] {
            Event::Accepted { order_id, seq } => event_views(events)[i] == (EventView::Accepted {
                order_id,
                seq,
            }),
            Event::Rejected { order_id, reason } => event_views(events)[i]
                == (EventView::Rejected { order_id, reason: reason@ }),
            Event::Trade {
                seq,
                ts,
                symbol,
                taker_order_id,
                maker_order_id,
                taker_side,
                price,
                quantity,
            } => event_views(events)[i] == (EventView::Trade {
                seq,
                ts,
                symbol: symbol@,
                taker_order_id,
                maker_order_id,
                taker_side,
                price,
                quantity,
            }),
            Event::Resting { order_id, side, price, remaining } => event_views(events)[i]
                == (EventView::Resting { order_id, side, price, remaining }),
            Event::Canceled { order_id } => event_views(events)[i] == (EventView::Canceled {
                order_id,
            }),
            Event::Killed { order_id, unfilled, reason } => event_views(events)[i]
                == (EventView::Killed { order_id, unfilled, reason: reason@ }),
        },
{
}

} // verus!
