//! What the order book means: price levels, price-time priority, and what a
//! taker does to the orders that rest on the other side.

use crate::domain::{OrderId, Price, Quantity, Side};
use crate::orderbook::{Fill, RestingOrder};
use vstd::prelude::*;

verus! {

/// One side of a book: at each price the orders that rest there, oldest first.
pub type Levels = Map<Price, Seq<RestingOrder>>;

/// A resting order together with the price that it rests at.
pub struct Quote {
    pub price: Price,
    pub order: RestingOrder,
}

/// The side that orders of `side` trade against.
pub open spec fn opposite(side: Side) -> Side {
    match side {
        Side::Buy => Side::Sell,
        Side::Sell => Side::Buy,
    }
}

/// Among the orders resting on `side`, price `p` comes strictly before price `q`:
/// the highest bid first, the lowest ask first.
pub open spec fn better(side: Side, p: Price, q: Price) -> bool {
    match side {
        Side::Buy => p > q,
        Side::Sell => p < q,
    }
}

/// A taker on `side` that accepts `limit` or better can trade at `book_price`.
pub open spec fn crosses(side: Side, limit: Price, book_price: Price) -> bool {
    match side {
        Side::Buy => limit >= book_price,
        Side::Sell => limit <= book_price,
    }
}

/// The quantity of all the orders in a queue together.
pub open spec fn sum_remaining(orders: Seq<RestingOrder>) -> nat
    decreases orders.len(),
{
    if orders.len() == 0 {
        0
    } else {
        sum_remaining(orders.drop_last()) + orders.last().remaining as nat
    }
}

/// Every price that is listed has an order.
pub open spec fn tidy(levels: Levels) -> bool {
    &&& levels.dom().finite()
    &&& forall|p: Price| #[trigger] levels.contains_key(p) ==> levels[p].len() > 0
}

/// No price of `levels` comes before `p`, which is one of them.
pub open spec fn is_best(levels: Levels, side: Side, p: Price) -> bool {
    &&& levels.contains_key(p)
    &&& forall|q: Price| levels.contains_key(q) ==> !better(side, q, p)
}

/// The price of `levels` that comes first, if there is any.
pub open spec fn best(levels: Levels, side: Side) -> Option<Price> {
    if exists|p: Price| is_best(levels, side, p) {
        Some(choose|p: Price| is_best(levels, side, p))
    } else {
        None
    }
}

/// The orders of one price level as quotes.
pub open spec fn quotes(price: Price, orders: Seq<RestingOrder>) -> Seq<Quote> {
    orders.map_values(|o: RestingOrder| Quote { price, order: o })
}

/// The orders of one side in price-time priority: the best price first, and at
/// one price the oldest order first.
pub open spec fn queue(levels: Levels, side: Side) -> Seq<Quote>
    decreases levels.dom().len(),
    when levels.dom().finite()
{
    match best(levels, side) {
        Some(p) => quotes(p, levels[p]) + queue(levels.remove(p), side),
        None => Seq::empty(),
    }
}

/// The price levels that a queue of quotes makes up.
pub open spec fn levels_of(queue: Seq<Quote>) -> Levels {
    Map::new(
        |p: Price| exists|i: int| 0 <= i < queue.len() && (#[trigger] queue[i]).price == p,
        |p: Price| queue.filter(|q: Quote| q.price == p).map_values(|q: Quote| q.order),
    )
}

/// What decides how an incoming order meets the resting ones.
#[derive(Debug, Clone, Copy)]
pub struct Taker {
    pub side: Side,
    pub limit_price: Price,
    /// A market order: its limit price does not count.
    pub is_market: bool,
    /// The worst price that it may trade at, if it is protected.
    pub protection: Option<Price>,
    pub user_id: u64,
}

impl Taker {
    /// A taker that trades at a limit price or better.
    pub open spec fn limited(side: Side, limit_price: Price, user_id: u64) -> Taker {
        Taker { side, limit_price, is_market: false, protection: None, user_id }
    }

    /// The taker may trade at this price.
    pub open spec fn admits(self, price: Price) -> bool {
        &&& self.is_market || crosses(self.side, self.limit_price, price)
        &&& match self.protection {
            Some(bound) => crosses(self.side, bound, price),
            None => true,
        }
    }

    /// The taker does not look at the first quote of `queue`: there is none, or
    /// nothing is left to trade, or it may not trade at that price.
    pub open spec fn stops(self, queue: Seq<Quote>, quantity: int) -> bool {
        queue.len() == 0 || quantity <= 0 || !self.admits(queue[0].price)
    }

    /// The order belongs to the taker's own user.
    pub open spec fn owns(self, quote: Quote) -> bool {
        quote.order.user_id == self.user_id
    }
}

/// What a taker leaves behind.
#[verifier::ext_equal]
pub struct Sweep {
    /// The trades, in order.
    pub fills: Seq<Fill>,
    /// The taker's own resting orders that it met, which are canceled.
    pub canceled: Seq<OrderId>,
    /// The quantity that did not trade.
    pub unfilled: int,
    /// The quotes that still rest.
    pub residue: Seq<Quote>,
}

/// A taker for `quantity` works through `queue` from its front. It cancels its
/// own orders, and trades with each other order as much as both have left.
pub open spec fn sweep(queue: Seq<Quote>, taker: Taker, quantity: int) -> Sweep
    decreases queue.len(),
{
    if taker.stops(queue, quantity) {
        Sweep {
            fills: Seq::empty(),
            canceled: Seq::empty(),
            unfilled: quantity,
            residue: queue,
        }
    } else if taker.owns(queue[0]) {
        let next = sweep(queue.drop_first(), taker, quantity);
        Sweep { canceled: seq![queue[0].order.order_id] + next.canceled, ..next }
    } else if quantity < queue[0].order.remaining {
        Sweep {
            fills: seq![fill_of(queue[0], quantity)],
            canceled: Seq::empty(),
            unfilled: 0,
            residue: seq![reduced(queue[0], quantity)] + queue.drop_first(),
        }
    } else {
        let traded = queue[0].order.remaining as int;
        let next = sweep(queue.drop_first(), taker, quantity - traded);
        Sweep { fills: seq![fill_of(queue[0], traded)] + next.fills, ..next }
    }
}

/// The trade of `quantity` against `quote`, at the price of the quote.
pub open spec fn fill_of(quote: Quote, quantity: int) -> Fill {
    Fill {
        maker_order_id: quote.order.order_id,
        price: quote.price,
        quantity: quantity as Quantity,
    }
}

/// What is left of `quote` once `quantity` has been traded.
pub open spec fn reduced(quote: Quote, quantity: int) -> Quote {
    Quote {
        order: RestingOrder {
            remaining: (quote.order.remaining - quantity) as Quantity,
            ..quote.order
        },
        ..quote
    }
}

/// The quantity that the taker could trade in full: all that other users offer
/// at prices that it admits.
pub open spec fn depth(queue: Seq<Quote>, taker: Taker) -> nat
    decreases queue.len(),
{
    if queue.len() == 0 || !taker.admits(queue[0].price) {
        0
    } else if taker.owns(queue[0]) {
        depth(queue.drop_first(), taker)
    } else {
        queue[0].order.remaining as nat + depth(queue.drop_first(), taker)
    }
}

/// The quantity that all users together, the taker's own included, offer at
/// prices that the taker admits.
pub open spec fn gross_depth(queue: Seq<Quote>, taker: Taker) -> nat
    decreases queue.len(),
{
    if queue.len() == 0 || !taker.admits(queue[0].price) {
        0
    } else {
        queue[0].order.remaining as nat + gross_depth(queue.drop_first(), taker)
    }
}

/// The prices of a queue never get better from front to back.
pub open spec fn sorted(q: Seq<Quote>, side: Side) -> bool {
    forall|i: int, j: int|
        0 <= i <= j < q.len() ==> !better(side, (#[trigger] q[j]).price, (#[trigger] q[i]).price)
}

/// The quotes that do not belong to the taker's user.
pub open spec fn of_others(q: Seq<Quote>, taker: Taker) -> Seq<Quote> {
    q.filter(|x: Quote| !taker.owns(x))
}

/// The quotes that belong to the taker's user.
pub open spec fn of_own(q: Seq<Quote>, taker: Taker) -> Seq<Quote> {
    q.filter(|x: Quote| taker.owns(x))
}

/// How many quotes of the queue the taker meets: those that it trades with and
/// those of its own that it cancels.
pub open spec fn met(q: Seq<Quote>, taker: Taker, quantity: int) -> int
    decreases q.len(),
{
    if taker.stops(q, quantity) {
        0
    } else if taker.owns(q[0]) {
        1 + met(q.drop_first(), taker, quantity)
    } else if quantity < q[0].order.remaining {
        1
    } else {
        1 + met(q.drop_first(), taker, quantity - q[0].order.remaining)
    }
}

/// How many quotes of the queue are gone once the taker is done. All that it meets
/// are gone but one that it leaves partly filled.
pub open spec fn gone(q: Seq<Quote>, taker: Taker, quantity: int) -> int {
    let n = met(q, taker, quantity);
    let fills = sweep(q, taker, quantity).fills;
    if fills.len() > 0 && fills.last().quantity < of_others(
        q.take(n),
        taker,
    ).last().order.remaining {
        n - 1
    } else {
        n
    }
}

/// The fill trades with the quote, at its price and for no more than it offers.
pub open spec fn fill_matches(fill: Fill, quote: Quote) -> bool {
    &&& fill.maker_order_id == quote.order.order_id
    &&& fill.price == quote.price
    &&& fill.quantity <= quote.order.remaining
}

/// One of the trades is with an order of this id.
pub open spec fn trades_with(fills: Seq<Fill>, order_id: OrderId) -> bool {
    exists|k: int| 0 <= k < fills.len() && (#[trigger] fills[k]).maker_order_id == order_id
}

/// The state of an order book.
#[verifier::ext_equal]
pub struct BookView {
    pub symbol: Seq<char>,
    pub bids: Levels,
    pub asks: Levels,
    /// Where the order that last rested under an id was put. An entry goes when its
    /// order is canceled or used up.
    pub index: Map<OrderId, (Side, Price)>,
}

/// `i` is the first place in `orders` that holds an order with this id.
pub open spec fn is_first_with_id(orders: Seq<RestingOrder>, order_id: OrderId, i: int) -> bool {
    &&& 0 <= i < orders.len()
    &&& orders[i].order_id == order_id
    &&& forall|j: int| 0 <= j < i ==> (#[trigger] orders[j]).order_id != order_id
}

/// The first place in `orders` that holds an order with this id, if any does.
pub open spec fn position(orders: Seq<RestingOrder>, order_id: OrderId) -> Option<int> {
    if exists|i: int| is_first_with_id(orders, order_id, i) {
        Some(choose|i: int| is_first_with_id(orders, order_id, i))
    } else {
        None
    }
}

/// The orders that rest at `price`, none if the price is not listed.
pub open spec fn orders_at(levels: Levels, price: Price) -> Seq<RestingOrder> {
    if levels.contains_key(price) {
        levels[price]
    } else {
        Seq::empty()
    }
}

/// `levels` with these orders at `price`; a price without orders is not listed.
pub open spec fn with_orders_at(levels: Levels, price: Price, orders: Seq<RestingOrder>) -> Levels {
    if orders.len() == 0 {
        levels.remove(price)
    } else {
        levels.insert(price, orders)
    }
}

impl BookView {
    /// The book before any order.
    pub open spec fn empty(symbol: Seq<char>) -> BookView {
        BookView { symbol, bids: Map::empty(), asks: Map::empty(), index: Map::empty() }
    }

    pub open spec fn side(self, side: Side) -> Levels {
        match side {
            Side::Buy => self.bids,
            Side::Sell => self.asks,
        }
    }

    pub open spec fn with_side(self, side: Side, levels: Levels) -> BookView {
        match side {
            Side::Buy => BookView { bids: levels, ..self },
            Side::Sell => BookView { asks: levels, ..self },
        }
    }

    /// Every price that is listed, on either side, has an order.
    pub open spec fn tidy(self) -> bool {
        tidy(self.bids) && tidy(self.asks)
    }

    /// The orders that a taker on `side` meets, in the order in which it meets them.
    pub open spec fn queue_for(self, side: Side) -> Seq<Quote> {
        queue(self.side(opposite(side)), opposite(side))
    }

    /// Someone on the other side already offers a price that an order at this price
    /// could trade at.
    pub open spec fn would_cross(self, side: Side, price: Price) -> bool {
        exists|p: Price| #[trigger]
            self.side(opposite(side)).contains_key(p) && crosses(side, price, p)
    }

    /// The book once an order has been put at the end of its price level.
    pub open spec fn rest(self, side: Side, price: Price, order: RestingOrder) -> BookView {
        let levels = self.side(side);
        BookView {
            index: self.index.insert(order.order_id, (side, price)),
            ..self.with_side(side, levels.insert(price, orders_at(levels, price).push(order)))
        }
    }

    /// The id is indexed, and an order with it rests where the index says.
    pub open spec fn can_cancel(self, order_id: OrderId) -> bool {
        &&& self.index.contains_key(order_id)
        &&& {
            let (side, price) = self.index[order_id];
            position(orders_at(self.side(side), price), order_id) is Some
        }
    }

    /// The book once `order_id` has been canceled. The index forgets the id, also
    /// when no order rests where it points.
    pub open spec fn cancel(self, order_id: OrderId) -> BookView {
        let forgotten = BookView { index: self.index.remove(order_id), ..self };
        if self.can_cancel(order_id) {
            let (side, price) = self.index[order_id];
            let orders = orders_at(self.side(side), price);
            let i = position(orders, order_id)->0;
            forgotten.with_side(side, with_orders_at(self.side(side), price, orders.remove(i)))
        } else {
            forgotten
        }
    }

    /// Every entry of the index leads to an order.
    pub open spec fn entries_lead(self) -> bool {
        forall|order_id: OrderId| #[trigger]
            self.index.contains_key(order_id) ==> self.can_cancel(order_id)
    }

    /// The ids of orders that traded from which the index leads to no order.
    pub open spec fn stale(self, fills: Seq<Fill>) -> Set<OrderId> {
        Set::new(|order_id: OrderId| trades_with(fills, order_id) && !self.can_cancel(order_id))
    }

    /// What a taker for `quantity` does to the orders on the other side.
    pub open spec fn sweep(self, taker: Taker, quantity: Quantity) -> Sweep {
        sweep(self.queue_for(taker.side), taker, quantity as int)
    }

    /// The book once a taker for `quantity` has taken its orders off, before the index
    /// forgets those that are used up.
    pub open spec fn taken(self, taker: Taker, quantity: Quantity) -> BookView {
        let swept = self.sweep(taker, quantity);
        BookView {
            index: self.index.remove_keys(swept.canceled.to_set()),
            ..self.with_side(opposite(taker.side), levels_of(swept.residue))
        }
    }

    /// The book once a taker for `quantity` has matched. The index forgets the orders
    /// that were canceled, and those that traded and are used up.
    pub open spec fn matched(self, taker: Taker, quantity: Quantity) -> BookView {
        let taken = self.taken(taker, quantity);
        let fills = self.sweep(taker, quantity).fills;
        BookView { index: taken.index.remove_keys(taken.stale(fills)), ..taken }
    }
}

} // verus!
