//! The engine of one symbol: it takes sequenced commands, drives the order book
//! and reports events.

use crate::domain::{
    event_views, lemma_event_views_push, Command, Event, EventView, Events, NewOrder, OrderId,
    OrderType, Price, Quantity, Sequence, Sequenced, Side, Timestamp,
};
use crate::engine_laws::{law_commands_keep_the_book_sound, sound};
use crate::model::{best, depth, opposite, orders_at, sum_remaining, BookView, Taker};
use crate::orderbook::{Fill, MatchOutcome, OrderBook, RestingOrder};
use crate::queue_lemmas::{lemma_best_is, lemma_no_best, lemma_sweep_unfilled};
use vstd::prelude::*;

verus! {

/// How many basis points make up the whole.
pub const BASIS_POINTS: u64 = 10_000;

/// The distance that market orders may move from the best price `price`.
pub open spec fn allowance(price: Price, bps: u64) -> int {
    price * bps / (BASIS_POINTS as int)
}

/// The worst price that a market order on `side` may trade at, when the best price
/// on the other side is `price`: no higher than the highest price that there is, and no
/// lower than zero.
pub open spec fn protected_price(side: Side, price: Price, bps: u64) -> int {
    match side {
        Side::Buy => if price + allowance(price, bps) <= Price::MAX {
            price + allowance(price, bps)
        } else {
            Price::MAX as int
        },
        Side::Sell => if allowance(price, bps) <= price {
            price - allowance(price, bps)
        } else {
            0
        },
    }
}

/// An order of this quantity can be added to the total of its price level.
pub open spec fn level_has_room(
    book: BookView,
    side: Side,
    price: Price,
    quantity: int,
) -> bool {
    sum_remaining(orders_at(book.side(side), price)) + quantity <= Quantity::MAX
}

/// The state of an engine.
#[verifier::ext_equal]
pub struct EngineView {
    pub book: BookView,
    pub market_protection_bps: u64,
}

/// The trade events of an order, one for each fill.
pub open spec fn trades(
    order: NewOrder,
    seq: Sequence,
    ts: Timestamp,
    fills: Seq<Fill>,
) -> Seq<EventView> {
    fills.map_values(
        |f: Fill|
            EventView::Trade {
                seq,
                ts,
                symbol: order.symbol@,
                taker_order_id: order.order_id,
                maker_order_id: f.maker_order_id,
                taker_side: order.side,
                price: f.price,
                quantity: f.quantity,
            },
    )
}

/// One canceled event for each id.
pub open spec fn cancellations(ids: Seq<OrderId>) -> Seq<EventView> {
    ids.map_values(|id: OrderId| EventView::Canceled { order_id: id })
}

impl EngineView {
    /// An engine that has seen no command.
    pub open spec fn empty(symbol: Seq<char>, market_protection_bps: u64) -> EngineView {
        EngineView { book: BookView::empty(symbol), market_protection_bps }
    }

    /// The protection price of a market order on `side`.
    pub open spec fn protection(self, side: Side) -> Option<Price> {
        match best(self.book.side(opposite(side)), opposite(side)) {
            Some(p) => Some(protected_price(side, p, self.market_protection_bps) as Price),
            None => None,
        }
    }

    /// How an order meets the resting ones.
    pub open spec fn taker(self, order: NewOrder) -> Taker {
        let is_market = order.order_type == OrderType::Market;
        Taker {
            side: order.side,
            limit_price: order.price,
            is_market,
            protection: if is_market {
                self.protection(order.side)
            } else {
                None
            },
            user_id: order.user_id,
        }
    }

    /// What of a new order rests on the book, when it is worth `remaining`.
    pub open spec fn resting(order: NewOrder, remaining: int) -> RestingOrder {
        RestingOrder {
            order_id: order.order_id,
            user_id: order.user_id,
            remaining: remaining as Quantity,
        }
    }

    /// A fill-or-kill order that cannot be filled.
    pub open spec fn must_kill(self, order: NewOrder) -> bool {
        &&& order.order_type == OrderType::Fok
        &&& depth(
            self.book.queue_for(order.side),
            Taker::limited(order.side, order.price, order.user_id),
        ) < order.quantity
    }

    /// What becomes of the part of an order that matching left over.
    pub open spec fn after_match(self, order: NewOrder, remaining: int) -> (
        EngineView,
        Seq<EventView>,
    ) {
        if remaining <= 0 {
            (self, Seq::empty())
        } else if order.order_type == OrderType::Limit {
            (
                EngineView {
                    book: self.book.rest(
                        order.side,
                        order.price,
                        Self::resting(order, remaining),
                    ),
                    ..self
                },
                seq![
                    EventView::Resting {
                        order_id: order.order_id,
                        side: order.side,
                        price: order.price,
                        remaining: remaining as Quantity,
                    },
                ],
            )
        } else {
            (
                self,
                seq![
                    EventView::Killed {
                        order_id: order.order_id,
                        unfilled: remaining as Quantity,
                        reason: "remainder canceled"@,
                    },
                ],
            )
        }
    }

    /// What a new order does after it was accepted: the new state and the events.
    pub open spec fn place(self, order: NewOrder, seq: Sequence, ts: Timestamp) -> (
        EngineView,
        Seq<EventView>,
    ) {
        let order_id = order.order_id;
        if order.quantity == 0 {
            (self, seq![EventView::Rejected { order_id, reason: "quantity must be positive"@ }])
        } else if order.order_type == OrderType::PostOnly {
            if self.book.would_cross(order.side, order.price) {
                (self, seq![EventView::Rejected { order_id, reason: "post-only would take"@ }])
            } else {
                (
                    EngineView {
                        book: self.book.rest(
                            order.side,
                            order.price,
                            Self::resting(order, order.quantity as int),
                        ),
                        ..self
                    },
                    seq![
                        EventView::Resting {
                            order_id,
                            side: order.side,
                            price: order.price,
                            remaining: order.quantity,
                        },
                    ],
                )
            }
        } else if self.must_kill(order) {
            (
                self,
                seq![
                    EventView::Killed {
                        order_id,
                        unfilled: order.quantity,
                        reason: "FOK cannot fill"@,
                    },
                ],
            )
        } else {
            let swept = self.book.sweep(self.taker(order), order.quantity);
            let matched = EngineView {
                book: self.book.matched(self.taker(order), order.quantity),
                ..self
            };
            let (after, rest) = matched.after_match(order, swept.unfilled);
            (after, cancellations(swept.canceled) + trades(order, seq, ts, swept.fills) + rest)
        }
    }

    /// What a command does: the new state and the events.
    pub open spec fn step(self, s: Sequenced) -> (EngineView, Seq<EventView>) {
        match s.cmd {
            Command::NewOrder(order) => {
                let (after, events) = self.place(order, s.seq, s.ts);
                (
                    after,
                    seq![EventView::Accepted { order_id: order.order_id, seq: s.seq }] + events,
                )
            },
            Command::Cancel { order_id } => (
                EngineView { book: self.book.cancel(order_id), ..self },
                seq![
                    if self.book.can_cancel(order_id) {
                        EventView::Canceled { order_id }
                    } else {
                        EventView::Rejected { order_id, reason: "order not found"@ }
                    },
                ],
            ),
        }
    }

    /// The total of the price level that an order comes to rest at does not overflow.
    pub open spec fn admits(self, s: Sequenced) -> bool {
        match s.cmd {
            Command::NewOrder(order) => order.quantity == 0 || match order.order_type {
                OrderType::PostOnly => self.book.would_cross(order.side, order.price)
                    || level_has_room(
                    self.book,
                    order.side,
                    order.price,
                    order.quantity as int,
                ),
                OrderType::Limit => {
                    let unfilled = self.book.sweep(
                        self.taker(order),
                        order.quantity,
                    ).unfilled;
                    unfilled > 0 ==> level_has_room(self.book, order.side, order.price, unfilled)
                },
                OrderType::Market | OrderType::Ioc | OrderType::Fok => true,
            },
            Command::Cancel { .. } => true,
        }
    }
}

/// The matching engine of one symbol.
pub struct Engine {
    book: OrderBook,
    /// Market orders stop at the best price plus or minus this many basis points.
    market_protection_bps: u64,
}

impl View for Engine {
    type V = EngineView;

    closed spec fn view(&self) -> EngineView {
        EngineView { book: self.book@, market_protection_bps: self.market_protection_bps }
    }
}

impl Engine {
    /// The order book is well formed and sound.
    pub closed spec fn wf(self) -> bool {
        self.book.wf() && sound(self@)
    }

    /// At all times no price level is empty, no resting order is used up, every bid is
    /// below every ask, and every entry of the index leads to an order.
    pub proof fn law_engines_are_sound(self)
        requires
            self.wf(),
        ensures
            sound(self@),
    {
    }

    /// An engine with an empty book.
    pub fn new(symbol: &str, market_protection_bps: u64) -> (engine: Engine)
        ensures
            engine.wf(),
            engine@ == EngineView::empty(symbol@, market_protection_bps),
            engine@.market_protection_bps == market_protection_bps,
            engine@.book.symbol == symbol@,
            engine@.book.bids.dom().is_empty(),
            engine@.book.asks.dom().is_empty(),
            engine@.book.index.dom().is_empty(),
    {
        Engine { book: OrderBook::new(symbol), market_protection_bps }
    }

    /// The order book.
    pub fn book(&self) -> (book: &OrderBook)
        requires
            self.wf(),
        ensures
            book.wf(),
            book@ == self@.book,
    {
        &self.book
    }

    /// Whether the total of the price level that an order comes to rest at does not
    /// overflow.
    pub fn can_handle(&self, s: &Sequenced) -> (b: bool)
        requires
            self.wf(),
        ensures
            b == self@.admits(*s),
    {
        match &s.cmd {
            Command::NewOrder(o) => {
                if o.quantity == 0 {
                    return true;
                }
                match o.order_type {
                    OrderType::PostOnly => {
                        self.book.would_cross(o.side, o.price) || self.room_at(o.side, o.price)
                            >= o.quantity
                    },
                    OrderType::Limit => {
                        let room = self.room_at(o.side, o.price);
                        proof {
                            lemma_sweep_unfilled(
                                self@.book.queue_for(o.side),
                                self@.taker(*o),
                                o.quantity as int,
                            );
                        }
                        room >= o.quantity || room >= o.quantity - self.book.fillable_quantity(
                            o.side,
                            o.price,
                            o.quantity,
                            o.user_id,
                        )
                    },
                    OrderType::Market | OrderType::Ioc | OrderType::Fok => true,
                }
            },
            Command::Cancel { .. } => true,
        }
    }

    /// How much can be added to the total of a price level.
    fn room_at(&self, side: Side, price: Price) -> (room: Quantity)
        requires
            self.wf(),
        ensures
            room == Quantity::MAX - sum_remaining(orders_at(self@.book.side(side), price)),
    {
        match self.book.level(side, price) {
            Some(level) => Quantity::MAX - level.total,
            None => Quantity::MAX,
        }
    }

    /// Handles a sequenced command and returns the events that it gives rise to.
    pub fn handle(&mut self, s: &Sequenced) -> (events: Events)
        requires
            old(self).wf(),
            old(self)@.admits(*s),
        ensures
            final(self).wf(),
            (final(self)@, event_views(events@)) == old(self)@.step(*s),
    {
        proof {
            law_commands_keep_the_book_sound(self@, *s);
        }
        match &s.cmd {
            Command::NewOrder(order) => self.on_new_order(order, s.seq, s.ts),
            Command::Cancel { order_id } => {
                let event = if self.book.cancel(*order_id) {
                    Event::Canceled { order_id: *order_id }
                } else {
                    Event::Rejected { order_id: *order_id, reason: "order not found".to_owned() }
                };
                let mut events: Events = Vec::new();
                events.push(event);
                assert(event_views(events@) =~= old(self)@.step(*s).1);
                events
            },
        }
    }

    /// A new order: checked, matched, and what is left of it rested or killed.
    fn on_new_order(&mut self, o: &NewOrder, seq: Sequence, ts: Timestamp) -> (events: Events)
        requires
            old(self).wf(),
            old(self)@.admits(Sequenced { seq, ts, cmd: Command::NewOrder(*o) }),
        ensures
            final(self).wf(),
            (final(self)@, event_views(events@)) == old(self)@.step(
                Sequenced { seq, ts, cmd: Command::NewOrder(*o) },
            ),
    {
        let ghost s = Sequenced { seq, ts, cmd: Command::NewOrder(*o) };
        let ghost whole = old(self)@.step(s);
        proof {
            law_commands_keep_the_book_sound(self@, s);
        }
        let mut ev: Events = Vec::new();
        ev.push(Event::Accepted { order_id: o.order_id, seq });

        if o.quantity == 0 {
            ev.push(
                Event::Rejected {
                    order_id: o.order_id,
                    reason: "quantity must be positive".to_owned(),
                },
            );
            assert(event_views(ev@) =~= whole.1);
            return ev;
        }
        if o.order_type == OrderType::PostOnly {
            if self.book.would_cross(o.side, o.price) {
                ev.push(
                    Event::Rejected {
                        order_id: o.order_id,
                        reason: "post-only would take".to_owned(),
                    },
                );
            } else {
                self.book.rest(o.order_id, o.user_id, o.side, o.price, o.quantity);
                ev.push(
                    Event::Resting {
                        order_id: o.order_id,
                        side: o.side,
                        price: o.price,
                        remaining: o.quantity,
                    },
                );
            }
            assert(event_views(ev@) =~= whole.1);
            return ev;
        }
        if o.order_type == OrderType::Fok && !self.book.can_fill_fully(
            o.side,
            o.price,
            o.quantity,
            o.user_id,
        ) {
            ev.push(
                Event::Killed {
                    order_id: o.order_id,
                    unfilled: o.quantity,
                    reason: "FOK cannot fill".to_owned(),
                },
            );
            assert(event_views(ev@) =~= whole.1);
            return ev;
        }
        let is_market = o.order_type == OrderType::Market;
        let protection = if is_market {
            self.market_protection(o.side)
        } else {
            None
        };
        let outcome = self.book.match_order(
            o.side,
            o.price,
            o.quantity,
            is_market,
            protection,
            o.user_id,
        );
        let remaining = outcome.remaining;
        Self::report_match(&mut ev, o, seq, ts, outcome);
        if remaining > 0 {
            match o.order_type {
                OrderType::Limit => {
                    self.book.rest(o.order_id, o.user_id, o.side, o.price, remaining);
                    let event = Event::Resting {
                        order_id: o.order_id,
                        side: o.side,
                        price: o.price,
                        remaining,
                    };
                    proof {
                        lemma_event_views_push(ev@, event);
                    }
                    ev.push(event);
                },
                OrderType::Market | OrderType::Ioc | OrderType::Fok => {
                    let event = Event::Killed {
                        order_id: o.order_id,
                        unfilled: remaining,
                        reason: "remainder canceled".to_owned(),
                    };
                    proof {
                        lemma_event_views_push(ev@, event);
                    }
                    ev.push(event);
                },
                OrderType::PostOnly => {},
            }
        }
        assert(event_views(ev@) =~= whole.1);
        ev
    }

    /// Reports what matching did: first the orders that were canceled, then the trades.
    fn report_match(
        ev: &mut Events,
        o: &NewOrder,
        seq: Sequence,
        ts: Timestamp,
        outcome: MatchOutcome,
    )
        ensures
            event_views(final(ev)@) == event_views(old(ev)@) + cancellations(
                outcome.stp_canceled@,
            ) + trades(*o, seq, ts, outcome.fills@),
    {
        let ghost before = event_views(ev@);
        let ghost canceled = cancellations(outcome.stp_canceled@);
        let ghost traded = trades(*o, seq, ts, outcome.fills@);
        let mut i: usize = 0;
        while i < outcome.stp_canceled.len()
            invariant
                i <= outcome.stp_canceled@.len(),
                canceled == cancellations(outcome.stp_canceled@),
                event_views(ev@) =~= before + canceled.take(i as int),
            decreases outcome.stp_canceled@.len() - i,
        {
            let event = Event::Canceled { order_id: outcome.stp_canceled[i] };
            proof {
                lemma_event_views_push(ev@, event);
                assert(canceled.take(i + 1) =~= canceled.take(i as int).push(event@));
            }
            ev.push(event);
            i = i + 1;
        }
        let mut k: usize = 0;
        while k < outcome.fills.len()
            invariant
                k <= outcome.fills@.len(),
                canceled == cancellations(outcome.stp_canceled@),
                traded == trades(*o, seq, ts, outcome.fills@),
                event_views(ev@) =~= before + canceled + traded.take(k as int),
            decreases outcome.fills@.len() - k,
        {
            let fill = &outcome.fills[k];
            let event = Event::Trade {
                seq,
                ts,
                symbol: o.symbol.clone(),
                taker_order_id: o.order_id,
                maker_order_id: fill.maker_order_id,
                taker_side: o.side,
                price: fill.price,
                quantity: fill.quantity,
            };
            proof {
                lemma_event_views_push(ev@, event);
                assert(traded.take(k + 1) =~= traded.take(k as int).push(event@));
            }
            ev.push(event);
            k = k + 1;
        }
    }

    /// The protection price of a market order, from the best price on the other side.
    fn market_protection(&self, taker: Side) -> (price: Option<Price>)
        ensures
            price == self@.protection(taker),
    {
        let best_opposite = match taker {
            Side::Buy => self.book.best_ask(),
            Side::Sell => self.book.best_bid(),
        };
        let ghost levels = self@.book.side(opposite(taker));
        match best_opposite {
            Some(p) => {
                proof {
                    lemma_best_is(levels, opposite(taker), p);
                }
                Some(Self::protect(taker, p, self.market_protection_bps))
            },
            None => {
                proof {
                    lemma_no_best(levels, opposite(taker));
                }
                None
            },
        }
    }

    /// The protection price for a best price. The product needs more than 64 bits.
    fn protect(taker: Side, price: Price, bps: u64) -> (protected: Price)
        ensures
            protected == protected_price(taker, price, bps),
    {
        assert(0 <= price * bps <= u64::MAX * u64::MAX) by (nonlinear_arith)
            requires
                0 <= price <= u64::MAX,
                0 <= bps <= u64::MAX,
        ;
        let allowed: u128 = price as u128 * bps as u128 / BASIS_POINTS as u128;
        match taker {
            Side::Buy => {
                let bound: u128 = price as u128 + allowed;
                if bound <= Price::MAX as u128 {
                    bound as Price
                } else {
                    Price::MAX
                }
            },
            Side::Sell => {
                if allowed <= price as u128 {
                    price - allowed as Price
                } else {
                    0
                }
            },
        }
    }
}

} // verus!
