//! What holds of the engine as a whole: of every command, and of every state that
//! commands can lead to.

use crate::book_laws::{
    id_at, indexed, law_levels_stay_tidy, law_no_self_trade, law_quantity_is_conserved,
    law_takers_exhaust_what_they_admit, law_trades_are_not_empty, law_trades_at_admitted_prices,
    lemma_cancel_indexed, lemma_cancel_leads, lemma_matched_indexed, lemma_matched_leads,
    lemma_matched_prices, lemma_rest_indexed, lemma_rest_leads, lemma_some_position, nonzero, rests,
    total_filled, uncrossed, unused,
};
use crate::domain::{
    Command, EventView, NewOrder, OrderId, OrderType, Price, Quantity, Sequence, Sequenced, Side,
    Timestamp,
};
use crate::engine::{cancellations, protected_price, trades, Engine, EngineView};
use crate::model::{
    best, crosses, depth, fill_matches, met, opposite, orders_at, position, sweep, Quote, Taker,
};
use crate::orderbook::{Fill, RestingOrder};
use crate::queue_lemmas::lemma_sweep_unfilled;
use crate::sweep_lemmas::lemma_sweep_met;
use vstd::prelude::*;

verus! {

// ---------------------------------------------------------------------------
// The events of one command
// ---------------------------------------------------------------------------

/// The events that the command gives rise to when the engine is in state `e`.
pub open spec fn events_of(e: EngineView, s: Sequenced) -> Seq<EventView> {
    e.step(s).1
}

/// The quantity that the events say was traded.
pub open spec fn traded(events: Seq<EventView>) -> nat
    decreases events.len(),
{
    if events.len() == 0 {
        0
    } else {
        traded(events.drop_last()) + match events.last() {
            EventView::Trade { quantity, .. } => quantity as nat,
            _ => 0,
        }
    }
}

/// The quantity that the events say was put on the book or given up.
pub open spec fn left_over(events: Seq<EventView>) -> nat
    decreases events.len(),
{
    if events.len() == 0 {
        0
    } else {
        left_over(events.drop_last()) + match events.last() {
            EventView::Resting { remaining, .. } => remaining as nat,
            EventView::Killed { unfilled, .. } => unfilled as nat,
            _ => 0,
        }
    }
}

/// The events of two sequences add up.
proof fn lemma_totals_add(a: Seq<EventView>, b: Seq<EventView>)
    ensures
        traded(a + b) == traded(a) + traded(b),
        left_over(a + b) == left_over(a) + left_over(b),
    decreases b.len(),
{
    if b.len() == 0 {
        assert(a + b =~= a);
    } else {
        lemma_totals_add(a, b.drop_last());
        assert((a + b).drop_last() =~= a + b.drop_last());
    }
}

/// One event alone.
proof fn lemma_total_of_one(event: EventView)
    ensures
        traded(seq![event]) == match event {
            EventView::Trade { quantity, .. } => quantity as nat,
            _ => 0,
        },
        left_over(seq![event]) == match event {
            EventView::Resting { remaining, .. } => remaining as nat,
            EventView::Killed { unfilled, .. } => unfilled as nat,
            _ => 0,
        },
{
    assert(seq![event].drop_last() =~= Seq::empty());
    reveal_with_fuel(traded, 2);
    reveal_with_fuel(left_over, 2);
}

/// The trade events report the fills.
proof fn lemma_total_of_trades(order: NewOrder, seq: Sequence, ts: Timestamp, fills: Seq<Fill>)
    ensures
        traded(trades(order, seq, ts, fills)) == total_filled(fills),
        left_over(trades(order, seq, ts, fills)) == 0,
    decreases fills.len(),
{
    let events = trades(order, seq, ts, fills);
    if fills.len() > 0 {
        let tail = trades(order, seq, ts, fills.drop_first());
        lemma_total_of_trades(order, seq, ts, fills.drop_first());
        lemma_total_of_one(events[0]);
        lemma_totals_add(seq![events[0]], tail);
        assert(events =~= seq![events[0]] + tail);
    }
}

/// Canceled orders do not count.
proof fn lemma_total_of_cancellations(ids: Seq<OrderId>)
    ensures
        traded(cancellations(ids)) == 0,
        left_over(cancellations(ids)) == 0,
    decreases ids.len(),
{
    if ids.len() > 0 {
        lemma_total_of_cancellations(ids.drop_last());
        assert(cancellations(ids).drop_last() =~= cancellations(ids.drop_last()));
    }
}

/// Every new order is acknowledged: the first event accepts it under its sequence
/// number, no other event does, and another event says what became of it.
pub proof fn law_every_order_is_acknowledged(e: EngineView, s: Sequenced, order: NewOrder)
    requires
        s.cmd == Command::NewOrder(order),
    ensures
        events_of(e, s).len() >= 2,
        events_of(e, s)[0] == (EventView::Accepted { order_id: order.order_id, seq: s.seq }),
        forall|i: int|
            0 < i < events_of(e, s).len() ==> (#[trigger] events_of(e, s)[i]) !is Accepted,
{
    if order.quantity > 0 && order.order_type != OrderType::PostOnly && !e.must_kill(order) {
        let swept = e.book.sweep(e.taker(order), order.quantity);
        law_quantity_is_conserved(
            e.book.queue_for(order.side),
            e.taker(order),
            order.quantity,
        );
        if swept.fills.len() == 0 {
            assert(swept.unfilled == order.quantity);
        }
    }
}

/// An order without quantity is accepted, then rejected, and changes nothing.
pub proof fn law_zero_quantity_is_rejected(e: EngineView, s: Sequenced, order: NewOrder)
    requires
        s.cmd == Command::NewOrder(order),
        order.quantity == 0,
    ensures
        e.step(s) == (
            e,
            seq![
                EventView::Accepted { order_id: order.order_id, seq: s.seq },
                EventView::Rejected {
                    order_id: order.order_id,
                    reason: "quantity must be positive"@,
                },
            ],
        ),
{
    assert(e.step(s).1 =~= seq![
        EventView::Accepted { order_id: order.order_id, seq: s.seq },
        EventView::Rejected { order_id: order.order_id, reason: "quantity must be positive"@ },
    ]);
}

/// A post-only order never takes: it trades with nobody and leaves the other side
/// alone. If it could trade it is rejected and changes nothing, else it rests whole.
pub proof fn law_post_only_never_takes(e: EngineView, s: Sequenced, order: NewOrder)
    requires
        s.cmd == Command::NewOrder(order),
        order.order_type == OrderType::PostOnly,
        order.quantity > 0,
    ensures
        traded(events_of(e, s)) == 0,
        e.step(s).0.book.side(opposite(order.side)) == e.book.side(opposite(order.side)),
        if e.book.would_cross(order.side, order.price) {
            &&& e.step(s).0 == e
            &&& events_of(e, s).last() == (EventView::Rejected {
                order_id: order.order_id,
                reason: "post-only would take"@,
            })
        } else {
            events_of(e, s).last() == (EventView::Resting {
                order_id: order.order_id,
                side: order.side,
                price: order.price,
                remaining: order.quantity,
            })
        },
        events_of(e, s).len() == 2,
{
    let events = events_of(e, s);
    lemma_total_of_one(events[0]);
    lemma_total_of_one(events[1]);
    lemma_totals_add(seq![events[0]], seq![events[1]]);
    assert(events =~= seq![events[0]] + seq![events[1]]);
}

/// Market, immediate-or-cancel and fill-or-kill orders never rest: their own side of
/// the book stays as it was.
pub proof fn law_takers_never_rest(e: EngineView, s: Sequenced, order: NewOrder)
    requires
        s.cmd == Command::NewOrder(order),
        order.order_type == OrderType::Market || order.order_type == OrderType::Ioc
            || order.order_type == OrderType::Fok,
    ensures
        e.step(s).0.book.side(order.side) == e.book.side(order.side),
        forall|i: int|
            0 <= i < events_of(e, s).len() ==> (#[trigger] events_of(e, s)[i]) !is Resting,
{
}

/// Fill or kill. If other users offer less than the order wants at its price or
/// better, the order is killed whole and changes nothing. Else it trades in full.
pub proof fn law_fill_or_kill(e: EngineView, s: Sequenced, order: NewOrder)
    requires
        s.cmd == Command::NewOrder(order),
        order.order_type == OrderType::Fok,
        order.quantity > 0,
    ensures
        if depth(
            e.book.queue_for(order.side),
            Taker::limited(order.side, order.price, order.user_id),
        ) < order.quantity {
            e.step(s) == (
                e,
                seq![
                    EventView::Accepted { order_id: order.order_id, seq: s.seq },
                    EventView::Killed {
                        order_id: order.order_id,
                        unfilled: order.quantity,
                        reason: "FOK cannot fill"@,
                    },
                ],
            )
        } else {
            &&& traded(events_of(e, s)) == order.quantity
            &&& forall|i: int|
                0 <= i < events_of(e, s).len() ==> (#[trigger] events_of(e, s)[i]) !is Killed
        },
{
    if e.must_kill(order) {
        assert(e.step(s).1 =~= seq![
            EventView::Accepted { order_id: order.order_id, seq: s.seq },
            EventView::Killed {
                order_id: order.order_id,
                unfilled: order.quantity,
                reason: "FOK cannot fill"@,
            },
        ]);
    } else {
        lemma_sweep_unfilled(
            e.book.queue_for(order.side),
            e.taker(order),
            order.quantity as int,
        );
        law_quantity_is_accounted_for(e, s, order);
        assert(e.book.sweep(e.taker(order), order.quantity).unfilled == 0);
        lemma_placed_totals(e, s, order);
    }
}

/// The totals of an order that is matched.
pub(crate) proof fn lemma_placed_totals(e: EngineView, s: Sequenced, order: NewOrder)
    requires
        s.cmd == Command::NewOrder(order),
        order.quantity > 0,
        order.order_type != OrderType::PostOnly,
        !e.must_kill(order),
    ensures
        ({
            let swept = e.book.sweep(e.taker(order), order.quantity);
            &&& traded(events_of(e, s)) == total_filled(swept.fills)
            &&& left_over(events_of(e, s)) == swept.unfilled
            &&& 0 <= swept.unfilled
            &&& total_filled(swept.fills) + swept.unfilled == order.quantity
        }),
{
    let taker = e.taker(order);
    let swept = e.book.sweep(taker, order.quantity);
    law_quantity_is_conserved(e.book.queue_for(order.side), taker, order.quantity);
    lemma_sweep_unfilled(e.book.queue_for(order.side), taker, order.quantity as int);
    let accepted = seq![EventView::Accepted { order_id: order.order_id, seq: s.seq }];
    let canceled = cancellations(swept.canceled);
    let traded_events = trades(order, s.seq, s.ts, swept.fills);
    let matched = EngineView { book: e.book.matched(taker, order.quantity), ..e };
    let rest = matched.after_match(order, swept.unfilled).1;
    lemma_total_of_one(accepted[0]);
    lemma_total_of_cancellations(swept.canceled);
    lemma_total_of_trades(order, s.seq, s.ts, swept.fills);
    if swept.unfilled > 0 {
        lemma_total_of_one(rest[0]);
        assert(rest =~= seq![rest[0]]);
    }
    lemma_totals_add(canceled, traded_events);
    lemma_totals_add(canceled + traded_events, rest);
    lemma_totals_add(accepted, canceled + traded_events + rest);
    assert(events_of(e, s) =~= accepted + (canceled + traded_events + rest));
}

/// No quantity is lost: what an order trades, and what of it rests or is killed, add
/// up to its quantity. An order that is rejected does neither.
pub proof fn law_quantity_is_accounted_for(e: EngineView, s: Sequenced, order: NewOrder)
    requires
        s.cmd == Command::NewOrder(order),
    ensures
        traded(events_of(e, s)) + left_over(events_of(e, s)) == if events_of(
            e,
            s,
        ).last() is Rejected {
            0
        } else {
            order.quantity as int
        },
{
    let events = events_of(e, s);
    if order.quantity > 0 && order.order_type != OrderType::PostOnly && !e.must_kill(order) {
        lemma_placed_totals(e, s, order);
        law_every_order_is_acknowledged(e, s, order);
        assert(events.last() !is Rejected);
    } else {
        lemma_total_of_one(events[0]);
        lemma_total_of_one(events[1]);
        lemma_totals_add(seq![events[0]], seq![events[1]]);
        assert(events =~= seq![events[0]] + seq![events[1]]);
    }
}

/// The trade event says that this order traded with the resting order of the quote, which
/// belongs to someone else, at the price of the quote and for no more than it offers.
pub open spec fn reports_trade(
    event: EventView,
    s: Sequenced,
    order: NewOrder,
    quote: Quote,
) -> bool {
    &&& event matches EventView::Trade {
        seq,
        ts,
        symbol,
        taker_order_id,
        maker_order_id,
        taker_side,
        price,
        quantity,
    }
    &&& seq == s.seq
    &&& ts == s.ts
    &&& symbol == order.symbol@
    &&& taker_order_id == order.order_id
    &&& taker_side == order.side
    &&& maker_order_id == quote.order.order_id
    &&& price == quote.price
    &&& quantity <= quote.order.remaining
    &&& quote.order.user_id != order.user_id
}

/// The trades of an order are stamped with its sequence number and time and name it
/// as the taker. Each is with an order of another user that rested on the other side,
/// at the price of that order. An order with a limit never trades beyond it.
pub proof fn law_trades_are_with_resting_orders(
    e: EngineView,
    s: Sequenced,
    order: NewOrder,
    i: int,
) -> (k: int)
    requires
        s.cmd == Command::NewOrder(order),
        0 <= i < events_of(e, s).len(),
        events_of(e, s)[i] is Trade,
    ensures
        0 <= k < e.book.queue_for(order.side).len(),
        reports_trade(events_of(e, s)[i], s, order, e.book.queue_for(order.side)[k]),
        e.taker(order).admits(e.book.queue_for(order.side)[k].price),
        order.order_type != OrderType::Market ==> crosses(
            order.side,
            order.price,
            e.book.queue_for(order.side)[k].price,
        ),
{
    let taker = e.taker(order);
    let q = e.book.queue_for(order.side);
    let swept = e.book.sweep(taker, order.quantity);
    let events = events_of(e, s);
    let canceled = cancellations(swept.canceled);
    let traded_events = trades(order, s.seq, s.ts, swept.fills);
    let n = met(q, taker, order.quantity as int);
    lemma_sweep_met(q, taker, order.quantity as int);
    law_no_self_trade(e.book, taker, order.quantity);
    law_trades_at_admitted_prices(e.book, taker, order.quantity);
    let f = i - 1 - canceled.len();
    assert(0 <= f < traded_events.len());
    assert(events[i] == traded_events[f]);
    let fill = swept.fills[f];
    choose|k: int| 0 <= k < n && fill_matches(fill, #[trigger] q[k]) && !taker.owns(q[k])
}

/// Orders that self-trade prevention cancels are reported before any trade.
pub proof fn law_cancellations_come_before_trades(
    e: EngineView,
    s: Sequenced,
    order: NewOrder,
    i: int,
    j: int,
)
    requires
        s.cmd == Command::NewOrder(order),
        0 <= i < j < events_of(e, s).len(),
        events_of(e, s)[i] is Trade,
    ensures
        events_of(e, s)[j] !is Canceled,
{
}

/// Market protection. A market order trades no further from the best price on the
/// other side than the engine's basis points allow.
pub proof fn law_market_protection(
    e: EngineView,
    s: Sequenced,
    order: NewOrder,
    best_price: Price,
    i: int,
)
    requires
        s.cmd == Command::NewOrder(order),
        order.order_type == OrderType::Market,
        best(e.book.side(opposite(order.side)), opposite(order.side)) == Some(best_price),
        0 <= i < events_of(e, s).len(),
        events_of(e, s)[i] is Trade,
    ensures
        match order.side {
            Side::Buy => events_of(e, s)[i]->Trade_price <= best_price + best_price
                * e.market_protection_bps / 10_000,
            Side::Sell => events_of(e, s)[i]->Trade_price >= best_price - best_price
                * e.market_protection_bps / 10_000,
        },
{
    let k = law_trades_are_with_resting_orders(e, s, order, i);
    let bound = protected_price(order.side, best_price, e.market_protection_bps);
    assert(order.quantity > 0);
    assert(0 <= bound <= Price::MAX) by {
        assert(best_price * e.market_protection_bps >= 0) by (nonlinear_arith);
    }
    assert(e.taker(order).protection == Some(bound as Price));
}

/// Takers that admit the same prices and belong to the same user do the same.
proof fn lemma_same_sweep(q: Seq<Quote>, a: Taker, b: Taker, quantity: int)
    requires
        a.user_id == b.user_id,
        forall|p: Price| #[trigger] a.admits(p) == b.admits(p),
    ensures
        sweep(q, a, quantity) == sweep(q, b, quantity),
    decreases q.len(),
{
    if q.len() > 0 {
        let tail = q.drop_first();
        lemma_same_sweep(tail, a, b, quantity);
        lemma_same_sweep(tail, a, b, quantity - q[0].order.remaining);
        assert(a.admits(q[0].price) == b.admits(q[0].price));
    }
}

/// The price of a market order is ignored: two market orders that differ in nothing but
/// their price do the same and are answered the same.
pub proof fn law_market_orders_ignore_their_price(
    e: EngineView,
    s: Sequenced,
    t: Sequenced,
    first: NewOrder,
    second: NewOrder,
)
    requires
        s.cmd == Command::NewOrder(first),
        t.cmd == Command::NewOrder(second),
        s.seq == t.seq,
        s.ts == t.ts,
        first.order_type == OrderType::Market,
        second.order_type == OrderType::Market,
        first.order_id == second.order_id,
        first.symbol@ == second.symbol@,
        first.side == second.side,
        first.quantity == second.quantity,
        first.user_id == second.user_id,
    ensures
        e.step(s) == e.step(t),
        e.admits(s) && e.admits(t),
{
    let q = e.book.queue_for(first.side);
    lemma_same_sweep(q, e.taker(first), e.taker(second), first.quantity as int);
    let fills = e.book.sweep(e.taker(first), first.quantity).fills;
    assert(trades(first, s.seq, s.ts, fills) =~= trades(second, t.seq, t.ts, fills));
}

/// A limit order that is not filled leaves no order that it could have traded with:
/// it takes what it can before it rests.
pub proof fn law_limit_orders_take_what_they_can(e: EngineView, s: Sequenced, order: NewOrder)
    requires
        e.book.tidy(),
        s.cmd == Command::NewOrder(order),
        order.order_type == OrderType::Limit,
        left_over(events_of(e, s)) > 0,
    ensures
        !e.step(s).0.book.would_cross(order.side, order.price),
{
    let taker = e.taker(order);
    if order.quantity == 0 {
        law_zero_quantity_is_rejected(e, s, order);
        law_quantity_is_accounted_for(e, s, order);
    } else {
        lemma_placed_totals(e, s, order);
        law_takers_exhaust_what_they_admit(e.book, taker, order.quantity);
        let matched = e.book.matched(taker, order.quantity);
        let after = e.step(s).0.book;
        assert(after.side(opposite(order.side)) == matched.side(opposite(order.side)));
        assert forall|p: Price| #[trigger]
            after.side(opposite(order.side)).contains_key(p) implies !crosses(
            order.side,
            order.price,
            p,
        ) by {
            assert(matched.side(opposite(taker.side)).contains_key(p));
        }
    }
}

/// An order that came to rest can be canceled.
pub proof fn law_orders_that_rest_can_be_canceled(e: EngineView, s: Sequenced, order: NewOrder)
    requires
        s.cmd == Command::NewOrder(order),
        events_of(e, s).last() is Resting,
    ensures
        e.step(s).0.book.can_cancel(order.order_id),
{
    let after = e.step(s).0.book;
    let orders = orders_at(after.side(order.side), order.price);
    assert(order.quantity > 0);
    let taker = e.taker(order);
    if order.order_type != OrderType::PostOnly && !e.must_kill(order) {
        lemma_sweep_unfilled(e.book.queue_for(order.side), taker, order.quantity as int);
        let swept = e.book.sweep(taker, order.quantity);
        law_every_order_is_acknowledged(e, s, order);
        assert(swept.unfilled > 0);
    }
    assert(orders.last().order_id == order.order_id);
    lemma_some_position(orders, order.order_id, orders.len() - 1);
}

/// A cancel is answered by one event, which says whether the order was found. It
/// leaves the other orders alone.
pub proof fn law_cancels_are_answered(e: EngineView, s: Sequenced, order_id: OrderId)
    requires
        s.cmd == (Command::Cancel { order_id }),
    ensures
        e.book.can_cancel(order_id) ==> events_of(e, s) == seq![EventView::Canceled { order_id }],
        !e.book.can_cancel(order_id) ==> {
            &&& events_of(e, s) == seq![
                EventView::Rejected { order_id, reason: "order not found"@ },
            ]
            &&& e.step(s).0.book.bids == e.book.bids
            &&& e.step(s).0.book.asks == e.book.asks
        },
        !e.step(s).0.book.can_cancel(order_id),
{
}

// ---------------------------------------------------------------------------
// What every command keeps
// ---------------------------------------------------------------------------

/// What holds of every engine: no price level is empty, no resting order is used up,
/// every bid is below every ask, and every entry of the index leads to an order.
pub open spec fn sound(e: EngineView) -> bool {
    &&& e.book.tidy()
    &&& nonzero(e.book)
    &&& uncrossed(e.book)
    &&& e.book.entries_lead()
}

/// Putting an order of some quantity at a price that crosses nothing.
proof fn lemma_rest_sound(e: EngineView, side: Side, price: Price, order: RestingOrder)
    requires
        sound(e),
        order.remaining > 0,
        !e.book.would_cross(side, price),
    ensures
        sound(EngineView { book: e.book.rest(side, price, order), ..e }),
{
    let after = e.book.rest(side, price, order);
    lemma_rest_leads(e.book, side, price, order);
    assert forall|s: Side, p: Price, i: int| #[trigger] rests(after, s, p, i) implies after.side(
        s,
    )[p][i].remaining > 0 by {
        if !((s, p) == (side, price) && i == orders_at(e.book.side(side), price).len()) {
            assert(rests(e.book, s, p, i));
        }
    }
    assert forall|b: Price, a: Price| #[trigger]
        after.bids.contains_key(b) && #[trigger] after.asks.contains_key(a) implies b < a by {
        match side {
            Side::Buy => {
                assert(e.book.side(opposite(side)).contains_key(a));
                assert(b == price || e.book.bids.contains_key(b));
            },
            Side::Sell => {
                assert(e.book.side(opposite(side)).contains_key(b));
                assert(a == price || e.book.asks.contains_key(a));
            },
        }
    }
}

/// Taking orders off the other side.
proof fn lemma_matched_sound(e: EngineView, taker: Taker, quantity: Quantity)
    requires
        sound(e),
    ensures
        sound(EngineView { book: e.book.matched(taker, quantity), ..e }),
{
    let after = e.book.matched(taker, quantity);
    lemma_matched_leads(e.book, taker, quantity);
    law_trades_are_not_empty(e.book, taker, quantity);
    law_levels_stay_tidy(
        e.book,
        Side::Buy,
        0,
        RestingOrder { order_id: 0, user_id: 0, remaining: 0 },
        0,
        taker,
        quantity,
    );
    assert forall|b: Price, a: Price| #[trigger]
        after.bids.contains_key(b) && #[trigger] after.asks.contains_key(a) implies b < a by {
        match taker.side {
            Side::Buy => lemma_matched_prices(e.book, taker, quantity, a),
            Side::Sell => lemma_matched_prices(e.book, taker, quantity, b),
        }
        assert(e.book.bids.contains_key(b) && e.book.asks.contains_key(a));
    }
}

/// Taking one order off.
proof fn lemma_cancel_sound(e: EngineView, order_id: OrderId)
    requires
        sound(e),
    ensures
        sound(EngineView { book: e.book.cancel(order_id), ..e }),
{
    let after = e.book.cancel(order_id);
    lemma_cancel_leads(e.book, order_id);
    assert forall|s: Side, p: Price, i: int| #[trigger] rests(after, s, p, i) implies after.side(
        s,
    )[p][i].remaining > 0 by {
        if e.book.can_cancel(order_id) && e.book.index[order_id] == (s, p) {
            let orders = orders_at(e.book.side(s), p);
            let at = position(orders, order_id)->0;
            let was = if i < at {
                i
            } else {
                i + 1
            };
            assert(rests(e.book, s, p, was));
            assert(after.side(s)[p][i] == e.book.side(s)[p][was]);
        } else {
            assert(rests(e.book, s, p, i));
        }
    }
    assert forall|b: Price, a: Price| #[trigger]
        after.bids.contains_key(b) && #[trigger] after.asks.contains_key(a) implies b < a by {
        assert(e.book.bids.contains_key(b) && e.book.asks.contains_key(a));
    }
}

/// Every command keeps the book sound: no empty price level, no order without
/// quantity, no bid that meets an ask, and no index entry without an order.
pub proof fn law_commands_keep_the_book_sound(e: EngineView, s: Sequenced)
    requires
        sound(e),
    ensures
        sound(e.step(s).0),
{
    match s.cmd {
        Command::Cancel { order_id } => lemma_cancel_sound(e, order_id),
        Command::NewOrder(order) => {
            let taker = e.taker(order);
            if order.quantity == 0 || e.must_kill(order) {
            } else if order.order_type == OrderType::PostOnly {
                if !e.book.would_cross(order.side, order.price) {
                    lemma_rest_sound(
                        e,
                        order.side,
                        order.price,
                        EngineView::resting(order, order.quantity as int),
                    );
                }
            } else {
                let swept = e.book.sweep(taker, order.quantity);
                lemma_sweep_unfilled(e.book.queue_for(order.side), taker, order.quantity as int);
                lemma_matched_sound(e, taker, order.quantity);
                let matched = EngineView { book: e.book.matched(taker, order.quantity), ..e };
                if swept.unfilled > 0 && order.order_type == OrderType::Limit {
                    law_takers_exhaust_what_they_admit(e.book, taker, order.quantity);
                    lemma_rest_sound(
                        matched,
                        order.side,
                        order.price,
                        EngineView::resting(order, swept.unfilled),
                    );
                }
            }
        },
    }
}

/// Every command keeps the index: as long as new orders bring ids that no resting
/// order has, the index knows where every resting order is, and ids stay unique.
pub proof fn law_commands_keep_the_index(e: EngineView, s: Sequenced)
    requires
        e.book.tidy(),
        indexed(e.book),
        s.cmd matches Command::NewOrder(order) ==> unused(e.book, order.order_id),
    ensures
        indexed(e.step(s).0.book),
{
    match s.cmd {
        Command::Cancel { order_id } => lemma_cancel_indexed(e.book, order_id),
        Command::NewOrder(order) => {
            let taker = e.taker(order);
            if order.quantity == 0 || e.must_kill(order) {
            } else if order.order_type == OrderType::PostOnly {
                if !e.book.would_cross(order.side, order.price) {
                    lemma_rest_indexed(
                        e.book,
                        order.side,
                        order.price,
                        EngineView::resting(order, order.quantity as int),
                    );
                }
            } else {
                let swept = e.book.sweep(taker, order.quantity);
                lemma_matched_indexed(e.book, taker, order.quantity);
                if swept.unfilled > 0 && order.order_type == OrderType::Limit {
                    lemma_rest_indexed(
                        e.book.matched(taker, order.quantity),
                        order.side,
                        order.price,
                        EngineView::resting(order, swept.unfilled),
                    );
                }
            }
        },
    }
}

// ---------------------------------------------------------------------------
// Runs
// ---------------------------------------------------------------------------

/// The state after the commands, and all their events in order.
pub open spec fn run(e: EngineView, commands: Seq<Sequenced>) -> (EngineView, Seq<EventView>)
    decreases commands.len(),
{
    if commands.len() == 0 {
        (e, Seq::empty())
    } else {
        let (before, events) = run(e, commands.drop_last());
        let (after, last) = before.step(commands.last());
        (after, events + last)
    }
}

/// Determinism. Two engines in the same state that are given the same commands in the
/// same order report the same events and end in the same state.
pub proof fn law_same_commands_give_same_events(
    primary: Engine,
    standby: Engine,
    commands: Seq<Sequenced>,
)
    requires
        primary@ == standby@,
    ensures
        run(primary@, commands) == run(standby@, commands),
{
}

/// When a command is sequenced makes no difference to what it does: its number and its
/// time are only reported.
pub proof fn law_stamps_are_only_reported(e: EngineView, s: Sequenced, t: Sequenced)
    requires
        s.cmd == t.cmd,
    ensures
        e.step(s).0 == e.step(t).0,
        events_of(e, s).len() == events_of(e, t).len(),
        traded(events_of(e, s)) == traded(events_of(e, t)),
        left_over(events_of(e, s)) == left_over(events_of(e, t)),
{
    if let Command::NewOrder(order) = s.cmd {
        if order.quantity > 0 && order.order_type != OrderType::PostOnly && !e.must_kill(order) {
            lemma_placed_totals(e, s, order);
            lemma_placed_totals(e, t, order);
        } else {
            let a = events_of(e, s);
            let b = events_of(e, t);
            lemma_total_of_one(a[0]);
            lemma_total_of_one(b[0]);
            lemma_totals_add(seq![a[0]], seq![a[1]]);
            lemma_totals_add(seq![b[0]], seq![b[1]]);
            assert(a =~= seq![a[0]] + seq![a[1]]);
            assert(b =~= seq![b[0]] + seq![b[1]]);
        }
    }
}

/// Replay. Running commands in two parts is running them in one: an engine that has
/// replayed a log goes on exactly as the engine that wrote it.
pub proof fn law_replay(e: EngineView, log: Seq<Sequenced>, more: Seq<Sequenced>)
    ensures
        run(e, log + more).0 == run(run(e, log).0, more).0,
        run(e, log + more).1 == run(e, log).1 + run(run(e, log).0, more).1,
    decreases more.len(),
{
    if more.len() == 0 {
        assert(log + more =~= log);
        assert(run(e, log).1 + Seq::<EventView>::empty() =~= run(e, log).1);
    } else {
        law_replay(e, log, more.drop_last());
        assert((log + more).drop_last() =~= log + more.drop_last());
        let middle = run(e, log).0;
        let (before, events) = run(middle, more.drop_last());
        let last = before.step(more.last()).1;
        assert(run(e, log).1 + (events + last) =~= run(e, log).1 + events + last);
    }
}

/// Whatever commands an engine has seen, its book is sound, and its symbol and its
/// protection are those that it started with.
pub proof fn law_every_run_is_sound(symbol: Seq<char>, bps: u64, commands: Seq<Sequenced>)
    ensures
        sound(run(EngineView::empty(symbol, bps), commands).0),
        run(EngineView::empty(symbol, bps), commands).0.book.symbol == symbol,
        run(EngineView::empty(symbol, bps), commands).0.market_protection_bps == bps,
    decreases commands.len(),
{
    if commands.len() > 0 {
        law_every_run_is_sound(symbol, bps, commands.drop_last());
        let before = run(EngineView::empty(symbol, bps), commands.drop_last()).0;
        law_commands_keep_the_book_sound(before, commands.last());
    }
}

/// The command brings a new order with this id.
pub open spec fn brings(s: Sequenced, order_id: OrderId) -> bool {
    s.cmd matches Command::NewOrder(order) && order.order_id == order_id
}

/// No two commands bring new orders with the same id.
pub open spec fn distinct_ids(commands: Seq<Sequenced>) -> bool {
    forall|i: int, j: int, order_id: OrderId|
        0 <= i < j < commands.len() && #[trigger] brings(commands[i], order_id)
            ==> !#[trigger] brings(commands[j], order_id)
}

/// An id that no resting order has comes into use only when a new order brings it.
proof fn lemma_unused_until_brought(e: EngineView, s: Sequenced, order_id: OrderId)
    requires
        e.book.tidy(),
        indexed(e.book),
        unused(e.book, order_id),
        !brings(s, order_id),
    ensures
        unused(e.step(s).0.book, order_id),
{
    match s.cmd {
        Command::Cancel { order_id: canceled } => lemma_cancel_indexed(e.book, canceled),
        Command::NewOrder(order) => {
            let taker = e.taker(order);
            let after = e.step(s).0.book;
            lemma_matched_indexed(e.book, taker, order.quantity);
            let before = if order.quantity == 0 || e.must_kill(order) || order.order_type
                == OrderType::PostOnly {
                e.book
            } else {
                e.book.matched(taker, order.quantity)
            };
            assert(unused(before, order_id));
            assert forall|side: Side, p: Price, i: int|
                #![trigger id_at(after, side, p, i)]
                rests(after, side, p, i) implies id_at(after, side, p, i) != order_id by {
                if rests(before, side, p, i) {
                    assert(id_at(after, side, p, i) == id_at(before, side, p, i));
                } else {
                    assert(id_at(after, side, p, i) == order.order_id);
                }
            }
        },
    }
}

/// Where every new order brings an id of its own, every order that rests at any time
/// is indexed, and so can be canceled.
pub proof fn law_distinct_ids_stay_indexed(symbol: Seq<char>, bps: u64, commands: Seq<Sequenced>)
    requires
        distinct_ids(commands),
    ensures
        indexed(run(EngineView::empty(symbol, bps), commands).0.book),
        forall|order_id: OrderId|
            (forall|i: int| 0 <= i < commands.len() ==> !#[trigger] brings(commands[i], order_id))
                ==> #[trigger] unused(
                run(EngineView::empty(symbol, bps), commands).0.book,
                order_id,
            ),
    decreases commands.len(),
{
    let empty = EngineView::empty(symbol, bps);
    if commands.len() > 0 {
        let earlier = commands.drop_last();
        let s = commands.last();
        let before = run(empty, earlier).0;
        assert forall|i: int, j: int, order_id: OrderId|
            0 <= i < j < earlier.len() && #[trigger] brings(
                earlier[i],
                order_id,
            ) implies !#[trigger] brings(earlier[j], order_id) by {
            assert(brings(commands[i], order_id));
            assert(!brings(commands[j], order_id));
        }
        law_distinct_ids_stay_indexed(symbol, bps, earlier);
        law_every_run_is_sound(symbol, bps, earlier);
        if let Command::NewOrder(order) = s.cmd {
            let last = commands.len() - 1;
            assert(brings(commands[last], order.order_id));
            assert forall|i: int| 0 <= i < earlier.len() implies !#[trigger] brings(
                earlier[i],
                order.order_id,
            ) by {
                if brings(commands[i], order.order_id) {
                    assert(!brings(commands[last], order.order_id));
                }
            }
            assert(unused(before.book, order.order_id));
        }
        law_commands_keep_the_index(before, s);
        assert forall|order_id: OrderId|
            (forall|i: int|
                0 <= i < commands.len() ==> !#[trigger] brings(
                    commands[i],
                    order_id,
                )) implies #[trigger] unused(run(empty, commands).0.book, order_id) by {
            assert(!brings(commands[commands.len() - 1], order_id));
            assert forall|i: int| 0 <= i < earlier.len() implies !#[trigger] brings(
                earlier[i],
                order_id,
            ) by {
                assert(!brings(commands[i], order_id));
            }
            assert(unused(before.book, order_id));
            lemma_unused_until_brought(before, s, order_id);
        }
    }
}

} // verus!
