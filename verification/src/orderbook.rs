//! The order book: price levels, the index of resting orders, and the matching
//! and canceling of orders.

use crate::book_laws::{
    law_own_orders_never_add_depth, lemma_cancel_leads, lemma_matched_leads, lemma_rest_leads,
};
use crate::domain::{OrderId, Price, Quantity, Side};
use crate::ladder::{
    best_price, cancel_on_ladder, fillable, find_order, ladder_levels, ladder_wf,
    lemma_ladder_tidy, match_ladder, rest_on_ladder, totals_reach,
};
use crate::market_laws::resting_on;
use crate::model::{
    crosses, depth, is_best, opposite, orders_at, queue, sum_remaining, trades_with, BookView,
    Taker,
};
use std::collections::{BTreeMap, HashMap, VecDeque};
use vstd::prelude::*;

verus! {

/// What is left of an order that rests on the book.
#[derive(Debug)]
pub struct RestingOrder {
    pub order_id: OrderId,
    pub user_id: u64,
    pub remaining: Quantity,
}

/// One price: the orders that rest there, oldest first, and their total quantity.
#[derive(Debug)]
pub struct PriceLevel {
    pub orders: VecDeque<RestingOrder>,
    pub total: Quantity,
}

/// One trade of a taker with a resting order.
#[derive(Debug)]
pub struct Fill {
    pub maker_order_id: OrderId,
    pub price: Price,
    pub quantity: Quantity,
}

/// What matching an order gave: the quantity that did not trade, the trades, and
/// the taker's own resting orders that were canceled.
#[derive(Debug)]
pub struct MatchOutcome {
    pub remaining: Quantity,
    pub fills: Vec<Fill>,
    pub stp_canceled: Vec<OrderId>,
}

impl Default for PriceLevel {
    fn default() -> (level: PriceLevel)
        ensures
            level.orders@ == Seq::<RestingOrder>::empty(),
            level.total == 0,
    {
        PriceLevel { orders: VecDeque::new(), total: 0 }
    }
}

impl Default for MatchOutcome {
    fn default() -> (outcome: MatchOutcome)
        ensures
            outcome.remaining == 0,
            outcome.fills@ == Seq::<Fill>::empty(),
            outcome.stp_canceled@ == Seq::<OrderId>::empty(),
    {
        MatchOutcome { remaining: 0, fills: Vec::new(), stp_canceled: Vec::new() }
    }
}

impl PriceLevel {
    /// The level has an order, and its cached total is the quantity of its orders.
    pub open spec fn wf(self) -> bool {
        &&& self.orders@.len() > 0
        &&& self.total == sum_remaining(self.orders@)
    }
}

/// The central limit order book of one symbol.
pub struct OrderBook {
    pub symbol: String,
    /// The last key is the best bid.
    bids: BTreeMap<Price, PriceLevel>,
    /// The first key is the best ask.
    asks: BTreeMap<Price, PriceLevel>,
    /// Where each order was put, for canceling it.
    index: HashMap<OrderId, (Side, Price)>,
}

impl View for OrderBook {
    type V = BookView;

    closed spec fn view(&self) -> BookView {
        BookView {
            symbol: self.symbol@,
            bids: ladder_levels(self.bids@),
            asks: ladder_levels(self.asks@),
            index: self.index@,
        }
    }
}

impl OrderBook {
    /// No price level is empty, every cached total is the quantity of its level, and
    /// every entry of the index leads to an order.
    pub closed spec fn wf(self) -> bool {
        &&& ladder_wf(self.bids@)
        &&& ladder_wf(self.asks@)
        &&& self@.entries_lead()
    }

    /// At all times every listed price has an order.
    pub proof fn law_books_are_tidy(self)
        requires
            self.wf(),
        ensures
            self@.tidy(),
    {
        lemma_ladder_tidy(self.bids@);
        lemma_ladder_tidy(self.asks@);
    }

    /// At all times every entry of the index leads to an order, so the index holds
    /// nothing of orders that are filled or canceled.
    pub proof fn law_index_leads_to_orders(self)
        requires
            self.wf(),
        ensures
            self@.entries_lead(),
    {
    }

    /// A book without orders.
    pub fn new(symbol: &str) -> (book: OrderBook)
        ensures
            book.wf(),
            book@ == BookView::empty(symbol@),
            book@.symbol == symbol@,
            book@.bids.dom().is_empty(),
            book@.asks.dom().is_empty(),
            book@.index.dom().is_empty(),
    {
        let book = OrderBook {
            symbol: symbol.to_owned(),
            bids: BTreeMap::new(),
            asks: BTreeMap::new(),
            index: HashMap::new(),
        };
        assert(book@ =~= BookView::empty(symbol@));
        book
    }

    /// The best bid: the highest price that someone bids.
    pub fn best_bid(&self) -> (price: Option<Price>)
        ensures
            match price {
                Some(p) => is_best(self@.bids, Side::Buy, p),
                None => self@.bids.dom().is_empty(),
            },
            price matches Some(p) ==> {
                &&& self@.bids.contains_key(p)
                &&& forall|q: Price| #[trigger] self@.bids.contains_key(q) ==> q <= p
            },
    {
        best_price(&self.bids, Side::Buy)
    }

    /// The best ask: the lowest price that someone asks.
    pub fn best_ask(&self) -> (price: Option<Price>)
        ensures
            match price {
                Some(p) => is_best(self@.asks, Side::Sell, p),
                None => self@.asks.dom().is_empty(),
            },
            price matches Some(p) ==> {
                &&& self@.asks.contains_key(p)
                &&& forall|q: Price| #[trigger] self@.asks.contains_key(q) ==> q >= p
            },
    {
        best_price(&self.asks, Side::Sell)
    }

    /// Whether a taker with this price can trade at a price of the book.
    #[inline]
    pub fn price_crosses(taker: Side, taker_price: Price, book_price: Price) -> (b: bool)
        ensures
            b == crosses(taker, taker_price, book_price),
            taker == Side::Buy ==> b == (book_price <= taker_price),
            taker == Side::Sell ==> b == (book_price >= taker_price),
    {
        match taker {
            Side::Buy => taker_price >= book_price,
            Side::Sell => taker_price <= book_price,
        }
    }

    /// Whether an order at this price would trade at once.
    pub fn would_cross(&self, side: Side, price: Price) -> (b: bool)
        ensures
            b == self@.would_cross(side, price),
            side == Side::Buy ==> b == exists|p: Price| #[trigger]
                self@.asks.contains_key(p) && p <= price,
            side == Side::Sell ==> b == exists|p: Price| #[trigger]
                self@.bids.contains_key(p) && p >= price,
    {
        let best_opposite = match side {
            Side::Buy => self.best_ask(),
            Side::Sell => self.best_bid(),
        };
        let ghost levels = self@.side(opposite(side));
        match best_opposite {
            Some(p) => {
                assert(levels.contains_key(p));
                Self::price_crosses(side, price, p)
            },
            None => {
                assert(forall|p: Price| !levels.dom().contains(p));
                false
            },
        }
    }

    /// Whether an order could trade in full at this price or better. Orders of the
    /// same user do not count.
    pub fn can_fill_fully(
        &self,
        side: Side,
        price: Price,
        qty: Quantity,
        taker_user_id: u64,
    ) -> (b: bool)
        requires
            self.wf(),
        ensures
            b == (depth(
                self@.queue_for(side),
                Taker::limited(side, price, taker_user_id),
            ) >= qty),
    {
        let taker = Taker {
            side,
            limit_price: price,
            is_market: false,
            protection: None,
            user_id: taker_user_id,
        };
        match side {
            Side::Buy => Self::can_fill_fully_inner(&self.asks, &taker, qty),
            Side::Sell => Self::can_fill_fully_inner(&self.bids, &taker, qty),
        }
    }

    /// How much of `qty` an order could trade at this price or better. Orders of the
    /// same user do not count.
    pub fn fillable_quantity(
        &self,
        side: Side,
        price: Price,
        qty: Quantity,
        taker_user_id: u64,
    ) -> (available: Quantity)
        requires
            self.wf(),
        ensures
            ({
                let available_depth = depth(
                    self@.queue_for(side),
                    Taker::limited(side, price, taker_user_id),
                );
                available == if available_depth >= qty {
                    qty as nat
                } else {
                    available_depth
                }
            }),
    {
        let taker = Taker {
            side,
            limit_price: price,
            is_market: false,
            protection: None,
            user_id: taker_user_id,
        };
        match side {
            Side::Buy => fillable(&self.asks, &taker, qty),
            Side::Sell => fillable(&self.bids, &taker, qty),
        }
    }

    /// Looks at the cached totals first, which bound what is available from above.
    /// The orders are looked at one by one only if the totals suffice.
    fn can_fill_fully_inner(
        ladder: &BTreeMap<Price, PriceLevel>,
        taker: &Taker,
        qty: Quantity,
    ) -> (b: bool)
        requires
            ladder_wf(ladder@),
        ensures
            b == (depth(queue(ladder_levels(ladder@), opposite(taker.side)), *taker) >= qty),
    {
        proof {
            law_own_orders_never_add_depth(
                queue(ladder_levels(ladder@), opposite(taker.side)),
                *taker,
            );
        }
        totals_reach(ladder, taker, qty) && fillable(ladder, taker, qty) >= qty
    }

    /// An order, or what is left of it, is put on the book.
    pub fn rest(
        &mut self,
        order_id: OrderId,
        user_id: u64,
        side: Side,
        price: Price,
        remaining: Quantity,
    )
        requires
            old(self).wf(),
            sum_remaining(orders_at(old(self)@.side(side), price)) + remaining <= Quantity::MAX,
        ensures
            final(self).wf(),
            final(self)@ == old(self)@.rest(
                side,
                price,
                RestingOrder { order_id, user_id, remaining },
            ),
    {
        let order = RestingOrder { order_id, user_id, remaining };
        proof {
            lemma_rest_leads(self@, side, price, order);
        }
        match side {
            Side::Buy => rest_on_ladder(&mut self.bids, price, order),
            Side::Sell => rest_on_ladder(&mut self.asks, price, order),
        }
        self.index.insert(order_id, (side, price));
    }

    /// Takes an order off the book. Says whether there was one to take off.
    pub fn cancel(&mut self, order_id: OrderId) -> (found: bool)
        requires
            old(self).wf(),
        ensures
            final(self).wf(),
            found == old(self)@.can_cancel(order_id),
            final(self)@ == old(self)@.cancel(order_id),
    {
        proof {
            lemma_cancel_leads(self@, order_id);
        }
        match self.index.remove(&order_id) {
            Some((side, price)) => match side {
                Side::Buy => cancel_on_ladder(&mut self.bids, price, order_id),
                Side::Sell => cancel_on_ladder(&mut self.asks, price, order_id),
            },
            None => {
                assert(self.index@ =~= old(self).index@.remove(order_id));
                false
            },
        }
    }

    /// Matches an incoming order against the other side, best price first and
    /// oldest order first. A resting order of the taker's own user is canceled when
    /// it is met, and the taker goes on. Every trade is at the price of the resting
    /// order. The index forgets the orders that are canceled or used up.
    pub fn match_order(
        &mut self,
        side: Side,
        limit_price: Price,
        qty: Quantity,
        is_market: bool,
        protection: Option<Price>,
        taker_user_id: u64,
    ) -> (outcome: MatchOutcome)
        requires
            old(self).wf(),
        ensures
            final(self).wf(),
            ({
                let taker = Taker {
                    side,
                    limit_price,
                    is_market,
                    protection,
                    user_id: taker_user_id,
                };
                let swept = old(self)@.sweep(taker, qty);
                &&& outcome.remaining == swept.unfilled
                &&& outcome.fills@ == swept.fills
                &&& outcome.stp_canceled@ == swept.canceled
                &&& final(self)@ == old(self)@.matched(taker, qty)
            }),
    {
        let taker = Taker { side, limit_price, is_market, protection, user_id: taker_user_id };
        proof {
            self.law_books_are_tidy();
            lemma_matched_leads(self@, taker, qty);
        }
        let outcome = match side {
            Side::Buy => match_ladder(&mut self.asks, &taker, qty),
            Side::Sell => match_ladder(&mut self.bids, &taker, qty),
        };
        let ghost asks = self.asks@;
        let ghost bids = self.bids@;
        let ghost symbol = self.symbol@;
        let ghost canceled = outcome.stp_canceled@;
        let mut i: usize = 0;
        assert(old(self).index@.remove_keys(canceled.take(0).to_set()) =~= old(self).index@);
        while i < outcome.stp_canceled.len()
            invariant
                i <= canceled.len(),
                canceled == outcome.stp_canceled@,
                self.asks@ == asks,
                self.bids@ == bids,
                self.symbol@ == symbol,
                self.index@ == old(self).index@.remove_keys(canceled.take(i as int).to_set()),
            decreases canceled.len() - i,
        {
            let ghost before = self.index@;
            self.index.remove(&outcome.stp_canceled[i]);
            proof {
                let done = canceled.take(i as int);
                let next = canceled.take(i + 1);
                assert(next =~= done.push(canceled[i as int]));
                done.lemma_push_to_set_commute(canceled[i as int]);
                assert(self.index@ =~= old(self).index@.remove_keys(next.to_set()));
            }
            i = i + 1;
        }
        assert(canceled.take(canceled.len() as int) =~= canceled);
        assert(self@ =~= old(self)@.taken(taker, qty));
        self.forget_used_up(&outcome.fills);
        outcome
    }

    /// Whether the index leads from this id to an order.
    fn leads_to_order(&self, order_id: OrderId) -> (b: bool)
        ensures
            b == self@.can_cancel(order_id),
    {
        match self.index.get(&order_id) {
            Some((side, price)) => {
                let level = match side {
                    Side::Buy => self.bids.get(price),
                    Side::Sell => self.asks.get(price),
                };
                match level {
                    Some(level) => find_order(&level.orders, order_id).is_some(),
                    None => false,
                }
            },
            None => false,
        }
    }

    /// The index forgets the orders that traded and do not rest any more.
    fn forget_used_up(&mut self, fills: &Vec<Fill>)
        ensures
            final(self).bids == old(self).bids,
            final(self).asks == old(self).asks,
            final(self)@ == (BookView {
                index: old(self)@.index.remove_keys(old(self)@.stale(fills@)),
                ..old(self)@
            }),
    {
        let ghost before = self@;
        let mut k: usize = 0;
        assert(before.index.remove_keys(before.stale(fills@.take(0))) =~= before.index);
        while k < fills.len()
            invariant
                k <= fills@.len(),
                before == old(self)@,
                self.bids == old(self).bids,
                self.asks == old(self).asks,
                self.symbol == old(self).symbol,
                self.index@ == before.index.remove_keys(before.stale(fills@.take(k as int))),
            decreases fills@.len() - k,
        {
            let order_id = fills[k].maker_order_id;
            let ghost done = fills@.take(k as int);
            let ghost next = fills@.take(k + 1);
            let ghost index = self.index@;
            proof {
                assert(self@.can_cancel(order_id) == before.can_cancel(order_id));
                assert(next =~= done.push(fills@[k as int]));
                assert forall|id: OrderId| trades_with(next, id) == (trades_with(done, id) || id
                    == order_id) by {
                    if trades_with(done, id) {
                        let i = choose|i: int|
                            0 <= i < done.len() && (#[trigger] done[i]).maker_order_id == id;
                        assert(next[i].maker_order_id == id);
                    }
                    if trades_with(next, id) && id != order_id {
                        let i = choose|i: int|
                            0 <= i < next.len() && (#[trigger] next[i]).maker_order_id == id;
                        assert(done[i].maker_order_id == id);
                    }
                    assert(next[k as int].maker_order_id == order_id);
                }
            }
            if !self.leads_to_order(order_id) {
                self.index.remove(&order_id);
                assert(self.index@ =~= index.remove(order_id));
            }
            assert(self.index@ =~= before.index.remove_keys(before.stale(next)));
            k = k + 1;
        }
        assert(fills@.take(fills@.len() as int) =~= fills@);
    }

    /// The orders that rest at a price, if any do.
    pub fn level(&self, side: Side, price: Price) -> (level: Option<&PriceLevel>)
        requires
            self.wf(),
        ensures
            match level {
                Some(l) => {
                    &&& self@.side(side).contains_key(price)
                    &&& l.orders@ == self@.side(side)[price]
                    &&& l.wf()
                },
                None => !self@.side(side).contains_key(price),
            },
            ({
                let levels = resting_on(self@, side);
                &&& level is Some <==> levels.contains_key(price)
                &&& level matches Some(l) ==> l.orders@ == levels[price] && l.total
                    == sum_remaining(levels[price])
            }),
    {
        match side {
            Side::Buy => self.bids.get(&price),
            Side::Sell => self.asks.get(&price),
        }
    }
}

} // verus!
