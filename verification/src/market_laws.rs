//! What the book and the engine promise to those who trade, in terms of the orders
//! that rest before and after, their user ids, and the events that are reported.

use crate::book_laws::{law_lower_priority_is_untouched, lemma_some_position};
use crate::domain::{
    Command, EventView, NewOrder, OrderId, OrderType, Price, Quantity, Sequenced, Side,
};
use crate::engine::{cancellations, protected_price, trades, EngineView};
use crate::engine_laws::{
    law_fill_or_kill, law_post_only_never_takes, law_quantity_is_accounted_for, lemma_placed_totals,
    traded,
};
use crate::model::{
    best, better, crosses, depth, fill_matches, is_best, is_first_with_id, levels_of, met,
    of_others, of_own, opposite, orders_at, position, queue, sum_remaining, sweep, tidy, BookView,
    Levels, Quote, Taker,
};
use crate::orderbook::RestingOrder;
use crate::queue_lemmas::{
    lemma_best_exists, lemma_best_is, lemma_levels_of_queue, lemma_queue_empty, lemma_queue_front,
    lemma_sweep_unfilled,
};
use crate::sweep_lemmas::{
    lemma_filter_source, lemma_level_suffix, lemma_levels_of_tidy, lemma_queue_sorted,
    lemma_sweep_met,
};
use vstd::prelude::*;

verus! {

// ---------------------------------------------------------------------------
// Words
// ---------------------------------------------------------------------------

/// The orders that rest on a side.
pub open spec fn resting_on(book: BookView, side: Side) -> Levels {
    match side {
        Side::Buy => book.bids,
        Side::Sell => book.asks,
    }
}

/// The orders that an order of this side trades with.
pub open spec fn facing(book: BookView, side: Side) -> Levels {
    match side {
        Side::Buy => book.asks,
        Side::Sell => book.bids,
    }
}

/// `q` lists the orders that an order of this side trades with in price-time priority:
/// a buyer meets the lowest price first and a seller the highest, and the orders at one
/// price come in the order in which they stand there.
pub open spec fn in_priority(q: Seq<Quote>, levels: Levels, side: Side) -> bool {
    &&& forall|i: int, j: int|
        0 <= i < j < q.len() ==> match side {
            Side::Buy => (#[trigger] q[i]).price <= (#[trigger] q[j]).price,
            Side::Sell => q[i].price >= q[j].price,
        }
    &&& forall|i: int| 0 <= i < q.len() ==> levels.contains_key((#[trigger] q[i]).price)
    &&& forall|p: Price| #[trigger]
        levels.contains_key(p) ==> levels[p].len() > 0 && levels[p] == q.filter(
            |x: Quote| x.price == p,
        ).map_values(|x: Quote| x.order)
}

/// The quantity that users other than this one offer in `q`.
pub open spec fn offered(q: Seq<Quote>, user_id: u64) -> nat
    decreases q.len(),
{
    if q.len() == 0 {
        0
    } else {
        (if q[0].order.user_id != user_id {
            q[0].order.remaining as nat
        } else {
            0
        }) + offered(q.drop_first(), user_id)
    }
}

/// An order of this side that accepts `limit` or better accepts `price`.
pub open spec fn accepts(side: Side, limit: int, price: Price) -> bool {
    match side {
        Side::Buy => price <= limit,
        Side::Sell => price >= limit,
    }
}

/// The quantity that users other than this one offer in `q` at this limit or better.
pub open spec fn offered_within(q: Seq<Quote>, side: Side, limit: Price, user_id: u64) -> nat
    decreases q.len(),
{
    if q.len() == 0 {
        0
    } else {
        (if q[0].order.user_id != user_id && accepts(side, limit as int, q[0].price) {
            q[0].order.remaining as nat
        } else {
            0
        }) + offered_within(q.drop_first(), side, limit, user_id)
    }
}

/// An order of this user that wants `quantity` meets the first `n` quotes of `q` and no
/// more: their prices are allowed, it still wants something when it meets the last of
/// them, and then it is done or no price that is allowed is left.
pub open spec fn meets(
    q: Seq<Quote>,
    n: int,
    user_id: u64,
    quantity: int,
    allowed: spec_fn(Price) -> bool,
) -> bool {
    &&& 0 <= n <= q.len()
    &&& forall|i: int| 0 <= i < n ==> allowed((#[trigger] q[i]).price)
    &&& n > 0 ==> offered(q.take(n - 1), user_id) < quantity
    &&& n == q.len() || !allowed(q[n].price) || offered(q.take(n), user_id) >= quantity
}

/// The quotes among the first `n` that belong to other users.
pub open spec fn strangers(q: Seq<Quote>, n: int, user_id: u64) -> Seq<Quote> {
    q.take(n).filter(|x: Quote| x.order.user_id != user_id)
}

/// The quotes among the first `n` that belong to this user.
pub open spec fn relatives(q: Seq<Quote>, n: int, user_id: u64) -> Seq<Quote> {
    q.take(n).filter(|x: Quote| x.order.user_id == user_id)
}

/// By how much the first `n` quotes offer more than `quantity`.
pub open spec fn excess(q: Seq<Quote>, n: int, user_id: u64, quantity: int) -> int {
    if offered(q.take(n), user_id) > quantity {
        offered(q.take(n), user_id) - quantity
    } else {
        0
    }
}

/// By how much the first `n` quotes offer less than `quantity`.
pub open spec fn shortfall(q: Seq<Quote>, n: int, user_id: u64, quantity: int) -> int {
    if offered(q.take(n), user_id) < quantity {
        quantity - offered(q.take(n), user_id)
    } else {
        0
    }
}

/// What is traded with the `k`th of the strangers: all that it offers, but for the last
/// of them, which keeps the excess.
pub open spec fn share(q: Seq<Quote>, n: int, user_id: u64, quantity: int, k: int) -> int {
    let others = strangers(q, n, user_id);
    others[k].order.remaining - (if k == others.len() - 1 {
        excess(q, n, user_id, quantity)
    } else {
        0
    })
}

/// What is left of `q`: the quotes that were not met, behind the last that was met if it
/// keeps an excess.
pub open spec fn left_of(q: Seq<Quote>, n: int, user_id: u64, quantity: int) -> Seq<Quote> {
    if excess(q, n, user_id, quantity) > 0 {
        let last = q[n - 1];
        seq![
            Quote {
                price: last.price,
                order: RestingOrder {
                    order_id: last.order.order_id,
                    user_id: last.order.user_id,
                    remaining: excess(q, n, user_id, quantity) as Quantity,
                },
            },
        ] + q.skip(n)
    } else {
        q.skip(n)
    }
}

/// The orders at a price kept their places and one came to stand behind them; the other
/// prices are as they were.
pub open spec fn joined_back(
    before: Levels,
    after: Levels,
    price: Price,
    order: RestingOrder,
) -> bool {
    let standing = if before.contains_key(price) {
        before[price].len()
    } else {
        0
    };
    &&& after.contains_key(price)
    &&& after[price].len() == standing + 1
    &&& after[price][standing as int] == order
    &&& forall|i: int| 0 <= i < standing ==> #[trigger] after[price][i] == before[price][i]
    &&& forall|p: Price|
        p != price ==> (#[trigger] after.contains_key(p) <==> before.contains_key(p))
    &&& forall|p: Price|
        p != price && before.contains_key(p) ==> #[trigger] after[p] == before[p]
}

/// An order with this id stands at the place that the index gives for it.
pub open spec fn stands(book: BookView, order_id: OrderId, place: (Side, Price)) -> bool {
    let levels = resting_on(book, place.0);
    &&& levels.contains_key(place.1)
    &&& exists|i: int|
        0 <= i < levels[place.1].len() && (#[trigger] levels[place.1][i]).order_id == order_id
}

// ---------------------------------------------------------------------------
// Matching
// ---------------------------------------------------------------------------

/// A taker may trade at this price.
pub open spec fn within_bounds(taker: Taker, price: Price) -> bool {
    &&& taker.is_market || accepts(taker.side, taker.limit_price as int, price)
    &&& taker.protection matches Some(bound) ==> accepts(taker.side, bound as int, price)
}

/// The queue lists a side in price-time priority.
proof fn lemma_queue_in_priority(levels: Levels, side: Side)
    requires
        tidy(levels),
    ensures
        in_priority(queue(levels, opposite(side)), levels, side),
{
    let q = queue(levels, opposite(side));
    lemma_queue_sorted(levels, opposite(side));
    lemma_levels_of_queue(levels, opposite(side));
    assert forall|i: int| 0 <= i < q.len() implies levels.contains_key((#[trigger] q[i]).price) by {
        assert(levels_of(q).contains_key(q[i].price));
    }
    assert forall|p: Price| #[trigger] levels.contains_key(p) implies levels[p].len() > 0
        && levels[p] == q.filter(|x: Quote| x.price == p).map_values(|x: Quote| x.order) by {
        assert(levels_of(q).contains_key(p));
    }
    assert forall|i: int, j: int| 0 <= i < j < q.len() implies match side {
        Side::Buy => (#[trigger] q[i]).price <= (#[trigger] q[j]).price,
        Side::Sell => q[i].price >= q[j].price,
    } by {
        assert(!better(opposite(side), q[j].price, q[i].price));
    }
}

/// Two sorted lists with the same quotes at each price are the same.
proof fn lemma_same_filters(a: Seq<Quote>, b: Seq<Quote>, side: Side)
    requires
        sorted_for(a, side),
        sorted_for(b, side),
        forall|p: Price| #[trigger] quotes_at(a, p) == quotes_at(b, p),
    ensures
        a == b,
    decreases a.len(),
{
    if a.len() == 0 {
        if b.len() > 0 {
            let at_p = |x: Quote| x.price == b[0].price;
            b.lemma_filter_contains(at_p, 0);
            assert(quotes_at(a, b[0].price) == quotes_at(b, b[0].price));
            assert(a.filter(at_p).len() == 0) by {
                reveal(Seq::filter);
            }
        }
        assert(a =~= b);
    } else {
        let i = lemma_counterpart(a, b, 0);
        let j = lemma_counterpart(b, a, 0);
        let p = a[0].price;
        assert(b[0].price == p) by {
            if i > 0 {
                assert(in_turn(b[0], b[i], side));
            }
            if j > 0 {
                assert(in_turn(a[0], a[j], side));
            }
        }
        let ta = a.drop_first();
        let tb = b.drop_first();
        assert(a =~= seq![a[0]] + ta);
        assert(b =~= seq![b[0]] + tb);
        assert forall|r: Price| #[trigger] quotes_at(ta, r) == quotes_at(tb, r) by {
            let at_r = |x: Quote| x.price == r;
            ta.lemma_filter_prepend(a[0], at_r);
            tb.lemma_filter_prepend(b[0], at_r);
            assert(quotes_at(a, r) == quotes_at(b, r));
            if r == p {
                assert(quotes_at(a, r).drop_first() =~= quotes_at(ta, r));
                assert(quotes_at(b, r).drop_first() =~= quotes_at(tb, r));
            }
        }
        let at_p = |x: Quote| x.price == p;
        ta.lemma_filter_prepend(a[0], at_p);
        tb.lemma_filter_prepend(b[0], at_p);
        assert(quotes_at(a, p) == quotes_at(b, p));
        assert(quotes_at(a, p)[0] == a[0] && quotes_at(b, p)[0] == b[0]);
        assert forall|x: int, y: int| 0 <= x < y < ta.len() implies in_turn(
            #[trigger] ta[x],
            #[trigger] ta[y],
            side,
        ) by {
            assert(in_turn(a[x + 1], a[y + 1], side));
        }
        assert forall|x: int, y: int| 0 <= x < y < tb.len() implies in_turn(
            #[trigger] tb[x],
            #[trigger] tb[y],
            side,
        ) by {
            assert(in_turn(b[x + 1], b[y + 1], side));
        }
        lemma_same_filters(ta, tb, side);
    }
}

/// `x` may stand before `y`.
spec fn in_turn(x: Quote, y: Quote, side: Side) -> bool {
    match side {
        Side::Buy => x.price <= y.price,
        Side::Sell => x.price >= y.price,
    }
}

/// The list is sorted by price for an order of this side.
spec fn sorted_for(q: Seq<Quote>, side: Side) -> bool {
    forall|x: int, y: int|
        0 <= x < y < q.len() ==> in_turn(#[trigger] q[x], #[trigger] q[y], side)
}

/// The quotes at a price.
spec fn quotes_at(q: Seq<Quote>, p: Price) -> Seq<Quote> {
    q.filter(|x: Quote| x.price == p)
}

/// A quote of one list has a counterpart at its price in the other.
proof fn lemma_counterpart(a: Seq<Quote>, b: Seq<Quote>, i: int) -> (j: int)
    requires
        0 <= i < a.len(),
        forall|p: Price| #[trigger] quotes_at(a, p) == quotes_at(b, p),
    ensures
        0 <= j < b.len(),
        b[j].price == a[i].price,
{
    let at_p = |x: Quote| x.price == a[i].price;
    a.lemma_filter_contains(at_p, i);
    assert(quotes_at(a, a[i].price) == quotes_at(b, a[i].price));
    assert(b.filter(at_p).len() > 0);
    lemma_filter_source(b, at_p, 0)
}

/// There is one way only to list orders in price-time priority.
pub proof fn law_priority_is_unique(a: Seq<Quote>, b: Seq<Quote>, levels: Levels, side: Side)
    requires
        in_priority(a, levels, side),
        in_priority(b, levels, side),
    ensures
        a == b,
{
    assert forall|p: Price| #[trigger] quotes_at(a, p) == quotes_at(b, p) by {
        lemma_filter_matches(a, p);
        lemma_filter_matches(b, p);
        let fa = quotes_at(a, p);
        let fb = quotes_at(b, p);
        if levels.contains_key(p) {
            let orders = levels[p];
            assert(orders == fa.map_values(|x: Quote| x.order));
            assert(orders == fb.map_values(|x: Quote| x.order));
            assert forall|k: int| 0 <= k < fa.len() implies fa[k] == fb[k] by {
                assert(fa[k].order == orders[k] && fb[k].order == orders[k]);
            }
            assert(fa =~= fb);
        } else {
            if fa.len() > 0 {
                let i = lemma_filter_source(a, |x: Quote| x.price == p, 0);
                assert(levels.contains_key(a[i].price));
            }
            if fb.len() > 0 {
                let i = lemma_filter_source(b, |x: Quote| x.price == p, 0);
                assert(levels.contains_key(b[i].price));
            }
            assert(fa =~= fb);
        }
    }
    lemma_same_filters(a, b, side);
}

/// What is listed at a price has that price.
proof fn lemma_filter_matches(q: Seq<Quote>, p: Price)
    ensures
        forall|k: int|
            0 <= k < quotes_at(q, p).len() ==> (#[trigger] quotes_at(q, p)[k]).price == p,
{
    assert forall|k: int| 0 <= k < quotes_at(q, p).len() implies (#[trigger] quotes_at(
        q,
        p,
    )[k]).price == p by {
        let i = lemma_filter_source(q, |x: Quote| x.price == p, k);
    }
}

/// The totals of a sweep.
proof fn lemma_sweep_totals(q: Seq<Quote>, taker: Taker, quantity: int)
    requires
        0 <= quantity <= Quantity::MAX,
    ensures
        ({
            let n = met(q, taker, quantity);
            let swept = sweep(q, taker, quantity);
            &&& 0 <= n <= q.len()
            &&& n > 0 ==> offered(q.take(n - 1), taker.user_id) < quantity
            &&& n == q.len() || !taker.admits(q[n].price) || offered(q.take(n), taker.user_id)
                >= quantity
            &&& swept.unfilled == shortfall(q, n, taker.user_id, quantity)
            &&& swept.residue == left_of(q, n, taker.user_id, quantity)
            &&& 0 <= excess(q, n, taker.user_id, quantity) <= Quantity::MAX
        }),
    decreases q.len(),
{
    let n = met(q, taker, quantity);
    let user = taker.user_id;
    let tail = q.drop_first();
    assert(q.take(0) =~= Seq::empty());
    if taker.stops(q, quantity) {
        assert(q.skip(0) =~= q);
    } else {
        let head = q[0];
        let owned = taker.owns(head);
        if !owned && quantity < head.order.remaining {
            assert(q.take(1).drop_first() =~= Seq::empty());
            assert(offered(q.take(1), user) == head.order.remaining as nat);
            assert(q.skip(1) =~= tail);
            assert(sweep(q, taker, quantity).residue =~= left_of(q, 1, user, quantity));
        } else {
            let want = if owned {
                quantity
            } else {
                quantity - head.order.remaining
            };
            lemma_sweep_totals(tail, taker, want);
            let m = met(tail, taker, want);
            assert(q.take(n).drop_first() =~= tail.take(m));
            assert(q.skip(n) =~= tail.skip(m));
            if m > 0 {
                assert(q.take(n - 1).drop_first() =~= tail.take(m - 1));
                assert(q[n - 1] == tail[m - 1]);
            }
            assert(sweep(q, taker, quantity).residue =~= left_of(q, n, user, quantity));
        }
    }
}

/// Both filters of the quotes that are met speak of user ids.
proof fn lemma_filters_by_user(q: Seq<Quote>, taker: Taker)
    ensures
        of_others(q, taker) == q.filter(|x: Quote| x.order.user_id != taker.user_id),
        of_own(q, taker) == q.filter(|x: Quote| x.order.user_id == taker.user_id),
    decreases q.len(),
{
    reveal(Seq::filter);
    if q.len() > 0 {
        lemma_filters_by_user(q.drop_last(), taker);
    }
}

/// What is left of a list in priority is in priority.
proof fn lemma_left_in_priority(
    q: Seq<Quote>,
    levels: Levels,
    side: Side,
    n: int,
    user_id: u64,
    quantity: int,
)
    requires
        in_priority(q, levels, side),
        0 <= n <= q.len(),
        n == 0 ==> quantity >= 0,
    ensures
        in_priority(
            left_of(q, n, user_id, quantity),
            levels_of(left_of(q, n, user_id, quantity)),
            side,
        ),
{
    let left = left_of(q, n, user_id, quantity);
    assert(q.take(0) =~= Seq::empty());
    assert(n == 0 ==> excess(q, n, user_id, quantity) == 0);
    let shift: int = if excess(q, n, user_id, quantity) > 0 {
        n - 1
    } else {
        n
    };
    assert forall|i: int| 0 <= i < left.len() implies (#[trigger] left[i]).price == q[i
        + shift].price by {}
    lemma_levels_of_tidy(left);
    assert forall|i: int, j: int| 0 <= i < j < left.len() implies match side {
        Side::Buy => (#[trigger] left[i]).price <= (#[trigger] left[j]).price,
        Side::Sell => left[i].price >= left[j].price,
    } by {
        assert(q[i + shift].price == left[i].price && q[j + shift].price == left[j].price);
    }
}

/// What matching does, for the queue of the book.
proof fn lemma_match_facts(book: BookView, taker: Taker, quantity: Quantity)
    requires
        book.tidy(),
    ensures
        ({
            let q = book.queue_for(taker.side);
            let n = met(q, taker, quantity as int);
            let user = taker.user_id;
            let swept = book.sweep(taker, quantity);
            let after = book.matched(taker, quantity);
            let others = strangers(q, n, user);
            let own = relatives(q, n, user);
            &&& in_priority(q, facing(book, taker.side), taker.side)
            &&& meets(q, n, user, quantity as int, |p: Price| within_bounds(taker, p))
            &&& n == q.len() || !taker.admits(q[n].price) || offered(q.take(n), user) >= quantity
            &&& swept.canceled.len() == own.len()
            &&& forall|k: int|
                0 <= k < own.len() ==> #[trigger] swept.canceled[k] == own[k].order.order_id
            &&& swept.fills.len() == others.len()
            &&& of_others(q.take(n), taker) == others
            &&& forall|k: int|
                0 <= k < others.len() ==> {
                    &&& (#[trigger] swept.fills[k]).maker_order_id == others[k].order.order_id
                    &&& swept.fills[k].price == others[k].price
                    &&& swept.fills[k].quantity == share(q, n, user, quantity as int, k)
                }
            &&& swept.unfilled == shortfall(q, n, user, quantity as int)
            &&& in_priority(
                left_of(q, n, user, quantity as int),
                facing(after, taker.side),
                taker.side,
            )
            &&& resting_on(after, taker.side) == resting_on(book, taker.side)
            &&& after.symbol == book.symbol
        }),
{
    let side = opposite(taker.side);
    let q = book.queue_for(taker.side);
    let n = met(q, taker, quantity as int);
    let user = taker.user_id;
    let swept = book.sweep(taker, quantity);
    lemma_queue_in_priority(book.side(side), taker.side);
    lemma_sweep_met(q, taker, quantity as int);
    lemma_sweep_totals(q, taker, quantity as int);
    lemma_filters_by_user(q.take(n), taker);
    lemma_left_in_priority(q, book.side(side), taker.side, n, user, quantity as int);
    let others = strangers(q, n, user);
    assert forall|i: int| 0 <= i < n implies within_bounds(taker, (#[trigger] q[i]).price) by {
        assert(taker.admits(q[i].price));
    }
    assert(n < q.len() ==> taker.admits(q[n].price) == within_bounds(taker, q[n].price));
    if others.len() > 0 {
        let last = others.len() - 1;
        assert(fill_matches(swept.fills[last], others[last]));
        let spare = others[last].order.remaining - swept.fills[last].quantity;
        if spare > 0 {
            assert(swept.residue.len() == q.len() - n + 1);
            assert(swept.residue[0].order.remaining == spare);
            assert(excess(q, n, user, quantity as int) == spare);
        } else {
            assert(swept.residue.len() == q.len() - n);
            assert(excess(q, n, user, quantity as int) == 0);
        }
    }
}

/// Matching, order by order. The orders of the other side stand in price-time priority.
/// The taker meets them in turn, as long as the price is within its bounds and it wants
/// something. Of those it meets, the orders of its own user id are canceled, and all
/// others trade at their own price for all that they offer, but for the last, which
/// keeps what the taker does not want. Those that are not met stay as they are, and so
/// does the taker's own side.
pub proof fn law_matching_order_by_order(book: BookView, taker: Taker, quantity: Quantity) -> (r: (
    Seq<Quote>,
    int,
))
    requires
        book.tidy(),
    ensures
        ({
            let (q, n) = r;
            let user = taker.user_id;
            let swept = book.sweep(taker, quantity);
            let after = book.matched(taker, quantity);
            let others = strangers(q, n, user);
            let own = relatives(q, n, user);
            &&& in_priority(q, facing(book, taker.side), taker.side)
            &&& meets(q, n, user, quantity as int, |p: Price| within_bounds(taker, p))
            &&& swept.canceled.len() == own.len()
            &&& forall|k: int|
                0 <= k < own.len() ==> #[trigger] swept.canceled[k] == own[k].order.order_id
            &&& swept.fills.len() == others.len()
            &&& forall|k: int|
                0 <= k < others.len() ==> {
                    &&& (#[trigger] swept.fills[k]).maker_order_id == others[k].order.order_id
                    &&& swept.fills[k].price == others[k].price
                    &&& swept.fills[k].quantity == share(q, n, user, quantity as int, k)
                }
            &&& swept.unfilled == shortfall(q, n, user, quantity as int)
            &&& in_priority(
                left_of(q, n, user, quantity as int),
                facing(after, taker.side),
                taker.side,
            )
            &&& resting_on(after, taker.side) == resting_on(book, taker.side)
            &&& after.symbol == book.symbol
        }),
{
    lemma_match_facts(book, taker, quantity);
    (book.queue_for(taker.side), met(book.queue_for(taker.side), taker, quantity as int))
}

/// The index leads to an order exactly where one with the id stands.
proof fn lemma_stands(book: BookView, order_id: OrderId)
    ensures
        book.can_cancel(order_id) <==> book.index.contains_key(order_id) && stands(
            book,
            order_id,
            book.index[order_id],
        ),
{
    if book.index.contains_key(order_id) {
        let (side, price) = book.index[order_id];
        let orders = orders_at(book.side(side), price);
        if position(orders, order_id) is Some {
            let i = position(orders, order_id)->0;
            assert(is_first_with_id(orders, order_id, i));
            assert(resting_on(book, side)[price][i].order_id == order_id);
        }
        if stands(book, order_id, (side, price)) {
            let levels = resting_on(book, side);
            let i = choose|i: int|
                0 <= i < levels[price].len() && (#[trigger] levels[price][i]).order_id == order_id;
            lemma_some_position(orders, order_id, i);
        }
    }
}

/// Matching and the index. An entry goes if its order was canceled, or if an order with
/// its id traded and none stands at its place any more. All other entries stay.
pub proof fn law_matching_and_the_index(
    book: BookView,
    taker: Taker,
    quantity: Quantity,
    order_id: OrderId,
)
    ensures
        ({
            let swept = book.sweep(taker, quantity);
            let after = book.matched(taker, quantity);
            let canceled = exists|k: int|
                0 <= k < swept.canceled.len() && #[trigger] swept.canceled[k] == order_id;
            let traded = exists|k: int|
                0 <= k < swept.fills.len() && (#[trigger] swept.fills[k]).maker_order_id
                    == order_id;
            &&& after.index.contains_key(order_id) <==> {
                &&& book.index.contains_key(order_id)
                &&& !canceled
                &&& traded ==> stands(after, order_id, book.index[order_id])
            }
            &&& after.index.contains_key(order_id) ==> after.index[order_id]
                == book.index[order_id]
        }),
{
    let swept = book.sweep(taker, quantity);
    let taken = book.taken(taker, quantity);
    let after = book.matched(taker, quantity);
    lemma_stands(taken, order_id);
    assert(swept.canceled.to_set().contains(order_id) <==> swept.canceled.contains(order_id));
    if taken.index.contains_key(order_id) {
        assert(taken.index[order_id] == book.index[order_id]);
        let place = book.index[order_id];
        assert(resting_on(taken, place.0) == resting_on(after, place.0));
        assert(stands(taken, order_id, place) == stands(after, order_id, place));
    }
}

/// What counts for fill-or-kill is all that other users offer at the limit or better,
/// whoever they are, and nothing of the user's own.
pub proof fn law_depth_is_what_others_offer(
    book: BookView,
    side: Side,
    limit: Price,
    user_id: u64,
) -> (q: Seq<Quote>)
    requires
        book.tidy(),
    ensures
        in_priority(q, facing(book, side), side),
        depth(book.queue_for(side), Taker::limited(side, limit, user_id)) == offered_within(
            q,
            side,
            limit,
            user_id,
        ),
{
    let q = book.queue_for(side);
    lemma_queue_in_priority(book.side(opposite(side)), side);
    lemma_depth_offered(q, side, limit, user_id);
    q
}

/// Depth as a sum over all quotes of a list in priority.
proof fn lemma_depth_offered(q: Seq<Quote>, side: Side, limit: Price, user_id: u64)
    requires
        forall|i: int, j: int|
            0 <= i < j < q.len() ==> match side {
                Side::Buy => (#[trigger] q[i]).price <= (#[trigger] q[j]).price,
                Side::Sell => q[i].price >= q[j].price,
            },
    ensures
        depth(q, Taker::limited(side, limit, user_id)) == offered_within(q, side, limit, user_id),
    decreases q.len(),
{
    if q.len() > 0 {
        if accepts(side, limit as int, q[0].price) {
            lemma_depth_offered(q.drop_first(), side, limit, user_id);
        } else {
            assert forall|i: int| 0 <= i < q.len() implies !accepts(
                side,
                limit as int,
                (#[trigger] q[i]).price,
            ) by {
                if i > 0 {
                    assert(match side {
                        Side::Buy => q[0].price <= q[i].price,
                        Side::Sell => q[0].price >= q[i].price,
                    });
                }
            }
            lemma_none_offered(q, side, limit, user_id);
        }
    }
}

/// Nothing is offered where no price is accepted.
proof fn lemma_none_offered(q: Seq<Quote>, side: Side, limit: Price, user_id: u64)
    requires
        forall|i: int| 0 <= i < q.len() ==> !accepts(side, limit as int, (#[trigger] q[i]).price),
    ensures
        offered_within(q, side, limit, user_id) == 0,
    decreases q.len(),
{
    if q.len() > 0 {
        lemma_none_offered(q.drop_first(), side, limit, user_id);
    }
}

// ---------------------------------------------------------------------------
// Resting and canceling
// ---------------------------------------------------------------------------

/// Time priority of resting. When an order comes to rest, the orders that rested at its
/// price keep their places and it is the last of them, whoever it belongs to. Nothing
/// else on the book changes, and the index knows its place.
pub proof fn law_new_orders_join_the_back(
    book: BookView,
    side: Side,
    price: Price,
    order: RestingOrder,
)
    ensures
        ({
            let after = book.rest(side, price, order);
            &&& joined_back(resting_on(book, side), resting_on(after, side), price, order)
            &&& facing(after, side) == facing(book, side)
            &&& after.symbol == book.symbol
            &&& after.index.contains_key(order.order_id)
            &&& after.index[order.order_id] == (side, price)
            &&& forall|id: OrderId|
                id != order.order_id ==> (#[trigger] after.index.contains_key(id)
                    <==> book.index.contains_key(id))
            &&& forall|id: OrderId|
                id != order.order_id && book.index.contains_key(id) ==> #[trigger] after.index[id]
                    == book.index[id]
        }),
{
}

/// Of two orders at one price, the one that came to rest earlier is traded first: as
/// long as the earlier one is left, the later one has not been touched.
pub proof fn law_earlier_orders_trade_first(
    book: BookView,
    side: Side,
    price: Price,
    earlier: RestingOrder,
    later: RestingOrder,
    taker: Taker,
    quantity: Quantity,
)
    requires
        book.tidy(),
        taker.side != side,
    ensures
        ({
            let both = book.rest(side, price, earlier).rest(side, price, later);
            let left = resting_on(both.matched(taker, quantity), side);
            let orders = left[price];
            left.contains_key(price) ==> {
                &&& orders.len() > 0
                &&& orders.last().order_id == later.order_id
                &&& orders.last().user_id == later.user_id
                &&& orders.len() > 1 ==> {
                    &&& orders.last() == later
                    &&& orders[orders.len() - 2].order_id == earlier.order_id
                    &&& orders[orders.len() - 2].user_id == earlier.user_id
                }
                &&& orders.len() > 2 ==> orders[orders.len() - 2] == earlier
            }
        }),
{
    let one = book.rest(side, price, earlier);
    let both = one.rest(side, price, later);
    let left = resting_on(both.matched(taker, quantity), side);
    if left.contains_key(price) {
        assert(one.tidy());
        assert(both.tidy());
        let k = law_lower_priority_is_untouched(both, taker, quantity, price);
        let k2 = lemma_level_suffix(
            both.side(side),
            side,
            taker,
            quantity as int,
            price,
        );
        let before = resting_on(both, side)[price];
        let count = before.len();
        assert(before[count - 1] == later);
        assert(before[count - 2] == earlier);
        assert(left[price][left[price].len() - 1].order_id == before[count - 1].order_id);
        if left[price].len() > 1 {
            assert(left[price][left[price].len() - 2].order_id == before[count - 2].order_id);
            assert(left[price][left[price].len() - 2].user_id == before[count - 2].user_id);
        }
    }
}

/// Canceling. It succeeds exactly when an order with the id stands where the index says.
/// Then the first such order there is taken off, and those behind it move up by one;
/// its price goes if no order is left. Nothing else on either side changes. The index
/// forgets the id and no other.
pub proof fn law_cancel_takes_one_order_off(book: BookView, order_id: OrderId) -> (i: int)
    ensures
        ({
            let after = book.cancel(order_id);
            let place = book.index[order_id];
            let found = book.index.contains_key(order_id) && stands(book, order_id, place);
            let before = resting_on(book, place.0);
            let left = resting_on(after, place.0);
            let orders = before[place.1];
            &&& book.can_cancel(order_id) == found
            &&& !found ==> after.bids == book.bids && after.asks == book.asks
            &&& found ==> {
                &&& 0 <= i < orders.len()
                &&& orders[i].order_id == order_id
                &&& forall|j: int| 0 <= j < i ==> (#[trigger] orders[j]).order_id != order_id
                &&& left.contains_key(place.1) <==> orders.len() > 1
                &&& left.contains_key(place.1) ==> {
                    &&& left[place.1].len() == orders.len() - 1
                    &&& forall|j: int| 0 <= j < i ==> #[trigger] left[place.1][j] == orders[j]
                    &&& forall|j: int|
                        i <= j < orders.len() - 1 ==> #[trigger] left[place.1][j] == orders[j + 1]
                }
                &&& forall|p: Price|
                    p != place.1 ==> (#[trigger] left.contains_key(p) <==> before.contains_key(p))
                &&& forall|p: Price|
                    p != place.1 && before.contains_key(p) ==> #[trigger] left[p] == before[p]
                &&& facing(after, place.0) == facing(book, place.0)
            }
            &&& after.symbol == book.symbol
            &&& !after.index.contains_key(order_id)
            &&& forall|id: OrderId|
                id != order_id ==> (#[trigger] after.index.contains_key(id)
                    <==> book.index.contains_key(id))
            &&& forall|id: OrderId|
                id != order_id && book.index.contains_key(id) ==> #[trigger] after.index[id]
                    == book.index[id]
        }),
{
    lemma_stands(book, order_id);
    let (side, price) = book.index[order_id];
    let orders = orders_at(book.side(side), price);
    let i = position(orders, order_id)->0;
    if book.can_cancel(order_id) {
        assert(is_first_with_id(orders, order_id, i));
    }
    i
}

/// The total of a price level is the quantity of its orders: nothing for no order, and
/// as much more as an order has left for each that comes to stand behind the others.
pub proof fn law_totals_add_up(orders: Seq<RestingOrder>, order: RestingOrder)
    ensures
        sum_remaining(Seq::empty()) == 0,
        sum_remaining(orders.push(order)) == sum_remaining(orders) + order.remaining,
{
    assert(orders.push(order).drop_last() =~= orders);
}

// ---------------------------------------------------------------------------
// Orders
// ---------------------------------------------------------------------------

/// The order may trade at this price, when `best_price` is the best on the other side.
/// A market order may go as far from it as the basis points say, and its own price does
/// not count; every other order trades at its price or better and knows no other bound.
pub open spec fn acceptable(
    order: NewOrder,
    market_protection_bps: u64,
    best_price: Price,
    price: Price,
) -> bool {
    match order.order_type {
        OrderType::Market => match order.side {
            Side::Buy => price <= best_price + best_price * market_protection_bps / 10_000,
            Side::Sell => price >= best_price - best_price * market_protection_bps / 10_000,
        },
        _ => accepts(order.side, order.price as int, price),
    }
}

/// The queue starts at the best price.
proof fn lemma_front_is_best(levels: Levels, side: Side)
    requires
        tidy(levels),
        queue(levels, side).len() > 0,
    ensures
        best(levels, side) == Some(queue(levels, side)[0].price),
{
    if levels.dom().len() == 0 {
        lemma_queue_empty(levels, side);
    } else {
        lemma_best_exists(levels, side);
        let p = choose|p: Price| is_best(levels, side, p);
        lemma_queue_front(levels, side, p);
        lemma_best_is(levels, side, p);
    }
}

/// The prices that an order meets are acceptable exactly if its taker admits them.
proof fn lemma_acceptable(e: EngineView, order: NewOrder, price: Price)
    requires
        e.book.tidy(),
        e.book.queue_for(order.side).len() > 0,
    ensures
        e.taker(order).admits(price) == acceptable(
            order,
            e.market_protection_bps,
            e.book.queue_for(order.side)[0].price,
            price,
        ),
{
    let best_price = e.book.queue_for(order.side)[0].price;
    lemma_front_is_best(e.book.side(opposite(order.side)), opposite(order.side));
    assert(best_price * e.market_protection_bps >= 0) by (nonlinear_arith);
    if order.order_type == OrderType::Market {
        let bound = protected_price(order.side, best_price, e.market_protection_bps);
        assert(0 <= bound <= Price::MAX);
        assert(e.taker(order).protection == Some(bound as Price));
    }
}

/// The events of an order that is matched with the first `n` quotes of `q`: it is
/// accepted; the orders of its own user are reported as canceled; each of the others is
/// reported as a trade, at its own price; and what the order lacks is reported as resting
/// if it is a limit order, and as killed if not.
pub open spec fn reported(
    events: Seq<EventView>,
    s: Sequenced,
    order: NewOrder,
    q: Seq<Quote>,
    n: int,
) -> bool {
    let user = order.user_id;
    let own = relatives(q, n, user);
    let others = strangers(q, n, user);
    let lacks = shortfall(q, n, user, order.quantity as int);
    let head = 1 + own.len();
    &&& events.len() == head + others.len() + (if lacks > 0 {
        1int
    } else {
        0
    })
    &&& events[0] == (EventView::Accepted { order_id: order.order_id, seq: s.seq })
    &&& forall|k: int|
        0 <= k < own.len() ==> #[trigger] events[1 + k] == (EventView::Canceled {
            order_id: own[k].order.order_id,
        })
    &&& forall|k: int|
        0 <= k < others.len() ==> #[trigger] events[head + k] == (EventView::Trade {
            seq: s.seq,
            ts: s.ts,
            symbol: order.symbol@,
            taker_order_id: order.order_id,
            maker_order_id: others[k].order.order_id,
            taker_side: order.side,
            price: others[k].price,
            quantity: share(q, n, user, order.quantity as int, k) as Quantity,
        })
    &&& forall|k: int|
        0 <= k < others.len() ==> 0 <= #[trigger] share(q, n, user, order.quantity as int, k)
            <= others[k].order.remaining
    &&& lacks > 0 ==> events.last() == if order.order_type == OrderType::Limit {
        EventView::Resting {
            order_id: order.order_id,
            side: order.side,
            price: order.price,
            remaining: lacks as Quantity,
        }
    } else {
        EventView::Killed {
            order_id: order.order_id,
            unfilled: lacks as Quantity,
            reason: "remainder canceled"@,
        }
    }
}

/// Orders that take. Those that rest on the other side stand in price-time priority. A
/// fill-or-kill order for more than other users offer at its price or better is killed
/// and changes nothing. Any other order meets them in turn, as far as its prices are
/// acceptable and it wants something, and the events say what came of it. Those that it
/// does not meet stay as they are. What a limit order lacks comes to rest behind the
/// orders at its price; no other order rests.
pub proof fn law_orders_are_matched_in_turn(e: EngineView, s: Sequenced, order: NewOrder) -> (r: (
    Seq<Quote>,
    int,
))
    requires
        e.book.tidy(),
        s.cmd == Command::NewOrder(order),
        order.quantity > 0,
        order.order_type != OrderType::PostOnly,
    ensures
        ({
            let (q, n) = r;
            let user = order.user_id;
            let wanted = order.quantity as int;
            let (after, events) = e.step(s);
            let lacks = shortfall(q, n, user, wanted);
            &&& in_priority(q, facing(e.book, order.side), order.side)
            &&& if order.order_type == OrderType::Fok && offered_within(
                q,
                order.side,
                order.price,
                user,
            ) < wanted {
                &&& after == e
                &&& events.len() == 2
                &&& events[0] == (EventView::Accepted { order_id: order.order_id, seq: s.seq })
                &&& events[1] == (EventView::Killed {
                    order_id: order.order_id,
                    unfilled: order.quantity,
                    reason: "FOK cannot fill"@,
                })
            } else {
                &&& meets(
                    q,
                    n,
                    user,
                    wanted,
                    |p: Price| acceptable(order, e.market_protection_bps, q[0].price, p),
                )
                &&& reported(events, s, order, q, n)
                &&& in_priority(
                    left_of(q, n, user, wanted),
                    facing(after.book, order.side),
                    order.side,
                )
                &&& if lacks > 0 && order.order_type == OrderType::Limit {
                    joined_back(
                        resting_on(e.book, order.side),
                        resting_on(after.book, order.side),
                        order.price,
                        RestingOrder {
                            order_id: order.order_id,
                            user_id: order.user_id,
                            remaining: lacks as Quantity,
                        },
                    )
                } else {
                    resting_on(after.book, order.side) == resting_on(e.book, order.side)
                }
                &&& after.book.symbol == e.book.symbol
                &&& after.market_protection_bps == e.market_protection_bps
            }
        }),
{
    let taker = e.taker(order);
    let wanted = order.quantity as int;
    let user = order.user_id;
    let q = e.book.queue_for(order.side);
    let n = met(q, taker, wanted);
    let swept = e.book.sweep(taker, order.quantity);
    let events = e.step(s).1;
    lemma_queue_in_priority(e.book.side(opposite(order.side)), order.side);
    lemma_depth_offered(q, order.side, order.price, user);
    if e.must_kill(order) {
        (q, n)
    } else {
        lemma_sweep_met(q, taker, wanted);
        lemma_match_facts(e.book, taker, order.quantity);
        assert forall|i: int| 0 <= i < n implies acceptable(
            order,
            e.market_protection_bps,
            q[0].price,
            (#[trigger] q[i]).price,
        ) by {
            lemma_acceptable(e, order, q[i].price);
        }
        if n < q.len() {
            lemma_acceptable(e, order, q[n].price);
        }
        let own = relatives(q, n, user);
        let others = strangers(q, n, user);
        let canceled = cancellations(swept.canceled);
        let traded = trades(order, s.seq, s.ts, swept.fills);
        let matched = EngineView { book: e.book.matched(taker, order.quantity), ..e };
        let rest = matched.after_match(order, swept.unfilled).1;
        assert(events =~= seq![EventView::Accepted { order_id: order.order_id, seq: s.seq }] + (
        canceled + traded + rest));
        assert forall|k: int| 0 <= k < own.len() implies #[trigger] events[1 + k] == (
        EventView::Canceled { order_id: own[k].order.order_id }) by {
            assert(events[1 + k] == canceled[k]);
        }
        let head = 1 + own.len();
        assert forall|k: int| 0 <= k < others.len() implies #[trigger] events[head + k] == (
        EventView::Trade {
            seq: s.seq,
            ts: s.ts,
            symbol: order.symbol@,
            taker_order_id: order.order_id,
            maker_order_id: others[k].order.order_id,
            taker_side: order.side,
            price: others[k].price,
            quantity: share(q, n, user, wanted, k) as Quantity,
        }) by {
            assert(events[head + k] == traded[k]);
            assert(swept.fills[k].quantity == share(q, n, user, wanted, k));
        }
        assert forall|k: int| 0 <= k < others.len() implies 0 <= #[trigger] share(
            q,
            n,
            user,
            wanted,
            k,
        ) <= others[k].order.remaining by {
            assert(fill_matches(swept.fills[k], of_others(q.take(n), taker)[k]));
            assert(swept.fills[k].quantity == share(q, n, user, wanted, k));
        }
        (q, n)
    }
}

/// Where an order that is not a limit order is killed, or a limit order rests, it lacks
/// something, and no price that is acceptable to it is left.
proof fn lemma_lacking_orders_took_all(
    e: EngineView,
    s: Sequenced,
    order: NewOrder,
    q: Seq<Quote>,
    n: int,
    p: Price,
)
    requires
        in_priority(q, facing(e.book, order.side), order.side),
        meets(
            q,
            n,
            order.user_id,
            order.quantity as int,
            |p: Price| acceptable(order, e.market_protection_bps, q[0].price, p),
        ),
        shortfall(q, n, order.user_id, order.quantity as int) > 0,
        in_priority(
            left_of(q, n, order.user_id, order.quantity as int),
            facing(e.step(s).0.book, order.side),
            order.side,
        ),
        facing(e.step(s).0.book, order.side).contains_key(p),
    ensures
        !acceptable(order, e.market_protection_bps, q[0].price, p),
{
    let left = left_of(q, n, order.user_id, order.quantity as int);
    let at_p = |x: Quote| x.price == p;
    assert(left == q.skip(n));
    assert(left.filter(at_p).len() > 0);
    let i = lemma_filter_source(left, at_p, 0);
    assert(q[n + i].price == p);
    assert(!acceptable(order, e.market_protection_bps, q[0].price, q[n].price));
    if i > 0 {
        assert(match order.side {
            Side::Buy => q[n].price <= q[n + i].price,
            Side::Sell => q[n].price >= q[n + i].price,
        });
    }
}

/// Limit and immediate-or-cancel orders take all that they can, and their limit is their
/// only bound: they trade as much as they want, or all that other users offer at the
/// limit or better. If something is lacking, no order is left on the other side at a
/// price within the limit.
pub proof fn law_limits_are_the_only_bound(e: EngineView, s: Sequenced, order: NewOrder) -> (q: Seq<
    Quote,
>)
    requires
        e.book.tidy(),
        s.cmd == Command::NewOrder(order),
        order.quantity > 0,
        order.order_type == OrderType::Limit || order.order_type == OrderType::Ioc,
    ensures
        in_priority(q, facing(e.book, order.side), order.side),
        ({
            let available = offered_within(q, order.side, order.price, order.user_id);
            &&& traded(e.step(s).1) == if available < order.quantity {
                available as int
            } else {
                order.quantity as int
            }
            &&& available < order.quantity ==> forall|p: Price| #[trigger]
                facing(e.step(s).0.book, order.side).contains_key(p) ==> !accepts(
                    order.side,
                    order.price as int,
                    p,
                )
        }),
{
    let (q, n) = law_orders_are_matched_in_turn(e, s, order);
    let own = e.book.queue_for(order.side);
    let taker = e.taker(order);
    lemma_queue_in_priority(e.book.side(opposite(order.side)), order.side);
    lemma_depth_offered(own, order.side, order.price, order.user_id);
    law_priority_is_unique(q, own, facing(e.book, order.side), order.side);
    assert(taker == Taker::limited(order.side, order.price, order.user_id));
    lemma_sweep_unfilled(own, taker, order.quantity as int);
    lemma_placed_totals(e, s, order);
    let available = offered_within(q, order.side, order.price, order.user_id);
    if available < order.quantity {
        lemma_reported_totals(e, s, order, q, n);
        assert forall|p: Price| #[trigger]
            facing(e.step(s).0.book, order.side).contains_key(p) implies !accepts(
            order.side,
            order.price as int,
            p,
        ) by {
            lemma_lacking_orders_took_all(e, s, order, q, n, p);
        }
    }
    q
}

/// What the events leave over is what the order lacks.
proof fn lemma_reported_totals(
    e: EngineView,
    s: Sequenced,
    order: NewOrder,
    q: Seq<Quote>,
    n: int,
)
    requires
        s.cmd == Command::NewOrder(order),
        order.quantity > 0,
        order.order_type != OrderType::PostOnly,
        !e.must_kill(order),
        0 <= n <= q.len(),
        reported(e.step(s).1, s, order, q, n),
    ensures
        shortfall(q, n, order.user_id, order.quantity as int) == e.book.sweep(
            e.taker(order),
            order.quantity,
        ).unfilled,
        traded(e.step(s).1) + shortfall(q, n, order.user_id, order.quantity as int)
            == order.quantity,
{
    let events = e.step(s).1;
    let swept = e.book.sweep(e.taker(order), order.quantity);
    let lacks = shortfall(q, n, order.user_id, order.quantity as int);
    let own = relatives(q, n, order.user_id);
    let others = strangers(q, n, order.user_id);
    lemma_placed_totals(e, s, order);
    let last = events.len() - 1;
    if lacks > 0 {
        assert(events.last() is Resting || events.last() is Killed);
        assert(lacks <= order.quantity);
        if swept.unfilled <= 0 {
            assert(events[last] !is Resting && events[last] !is Killed);
        }
    } else if swept.unfilled > 0 {
        assert(events[last] is Resting || events[last] is Killed);
        if others.len() > 0 {
            assert(events[1 + own.len() + (others.len() - 1)] is Trade);
        } else if own.len() > 0 {
            assert(events[1 + (own.len() - 1)] is Canceled);
        }
        assert(false);
    }
}

/// Market orders go as far as protection allows. Let `best_price` be the best price on
/// the other side. A market order that is not filled leaves no order there at a price
/// within the basis points of it, whatever rests on its own side; and it trades at no
/// price beyond them.
pub proof fn law_market_orders_go_to_their_bound(
    e: EngineView,
    s: Sequenced,
    order: NewOrder,
    best_price: Price,
)
    requires
        e.book.tidy(),
        s.cmd == Command::NewOrder(order),
        order.quantity > 0,
        order.order_type == OrderType::Market,
        facing(e.book, order.side).contains_key(best_price),
        forall|p: Price| #[trigger]
            facing(e.book, order.side).contains_key(p) ==> match order.side {
                Side::Buy => best_price <= p,
                Side::Sell => best_price >= p,
            },
    ensures
        ({
            let (after, events) = e.step(s);
            let reach = best_price * e.market_protection_bps / 10_000;
            &&& traded(events) < order.quantity ==> forall|p: Price| #[trigger]
                facing(after.book, order.side).contains_key(p) ==> match order.side {
                    Side::Buy => p > best_price + reach,
                    Side::Sell => p < best_price - reach,
                }
            &&& forall|i: int|
                #![trigger events[i]]
                0 <= i < events.len() && events[i] is Trade ==> match order.side {
                    Side::Buy => events[i]->Trade_price <= best_price + reach,
                    Side::Sell => events[i]->Trade_price >= best_price - reach,
                }
        }),
{
    let (after, events) = e.step(s);
    let (q, n) = law_orders_are_matched_in_turn(e, s, order);
    let user = order.user_id;
    lemma_best_heads_list(q, facing(e.book, order.side), order.side, best_price);
    lemma_reported_totals(e, s, order, q, n);
    if traded(events) < order.quantity {
        assert forall|p: Price| #[trigger]
            facing(after.book, order.side).contains_key(p) implies match order.side {
            Side::Buy => p > best_price + best_price * e.market_protection_bps / 10_000,
            Side::Sell => p < best_price - best_price * e.market_protection_bps / 10_000,
        } by {
            lemma_lacking_orders_took_all(e, s, order, q, n, p);
        }
    }
    let own = relatives(q, n, user);
    let others = strangers(q, n, user);
    assert forall|i: int|
        #![trigger events[i]]
        0 <= i < events.len() && events[i] is Trade implies match order.side {
        Side::Buy => events[i]->Trade_price <= best_price + best_price * e.market_protection_bps
            / 10_000,
        Side::Sell => events[i]->Trade_price >= best_price - best_price * e.market_protection_bps
            / 10_000,
    } by {
        let k = lemma_trade_place(events, s, order, q, n, i);
        let j = lemma_filter_source(q.take(n), |x: Quote| x.order.user_id != user, k);
        assert(q[j].price == others[k].price);
        assert(acceptable(order, e.market_protection_bps, q[0].price, q[j].price));
    }
}

/// The best price stands at the head of the list.
proof fn lemma_best_heads_list(q: Seq<Quote>, levels: Levels, side: Side, best_price: Price)
    requires
        in_priority(q, levels, side),
        levels.contains_key(best_price),
        forall|p: Price| #[trigger]
            levels.contains_key(p) ==> match side {
                Side::Buy => best_price <= p,
                Side::Sell => best_price >= p,
            },
    ensures
        q.len() > 0,
        q[0].price == best_price,
{
    let at_best = |x: Quote| x.price == best_price;
    assert(q.filter(at_best).len() > 0);
    let i = lemma_filter_source(q, at_best, 0);
    assert(levels.contains_key(q[0].price));
    if i > 0 {
        assert(match side {
            Side::Buy => q[0].price <= q[i].price,
            Side::Sell => q[0].price >= q[i].price,
        });
    }
}

/// The place of a trade among those that are reported.
proof fn lemma_trade_place(
    events: Seq<EventView>,
    s: Sequenced,
    order: NewOrder,
    q: Seq<Quote>,
    n: int,
    i: int,
) -> (k: int)
    requires
        reported(events, s, order, q, n),
        0 <= i < events.len(),
        events[i] is Trade,
    ensures
        0 <= k < strangers(q, n, order.user_id).len(),
        i == 1 + relatives(q, n, order.user_id).len() + k,
        events[i]->Trade_price == strangers(q, n, order.user_id)[k].price,
        events[i]->Trade_maker_order_id == strangers(q, n, order.user_id)[k].order.order_id,
{
    let own = relatives(q, n, order.user_id);
    let others = strangers(q, n, order.user_id);
    let k = i - 1 - own.len();
    if k < 0 {
        if i > 0 {
            assert(events[1 + (i - 1)] is Canceled);
        }
        assert(false);
    }
    if k >= others.len() {
        assert(events.last() !is Trade);
        assert(i == events.len() - 1);
        assert(false);
    }
    assert(events[1 + own.len() + k] == events[i]);
    k
}

/// What the resting event reports is what is on the book: the last order at the side and
/// price of the order has its id, its user id and exactly the reported quantity, which is
/// what the order wanted less what it traded.
pub proof fn law_resting_events_are_true(
    e: EngineView,
    s: Sequenced,
    order: NewOrder,
    remaining: Quantity,
)
    requires
        e.book.tidy(),
        s.cmd == Command::NewOrder(order),
        e.step(s).1.last() is Resting,
        e.step(s).1.last()->Resting_remaining == remaining,
    ensures
        ({
            let (after, events) = e.step(s);
            let levels = resting_on(after.book, order.side);
            &&& events.last() == (EventView::Resting {
                order_id: order.order_id,
                side: order.side,
                price: order.price,
                remaining,
            })
            &&& levels.contains_key(order.price)
            &&& levels[order.price].len() > 0
            &&& levels[order.price].last() == (RestingOrder {
                order_id: order.order_id,
                user_id: order.user_id,
                remaining,
            })
            &&& remaining > 0
            &&& remaining + traded(events) == order.quantity
        }),
{
    let (after, events) = e.step(s);
    if order.quantity == 0 {
        assert(events.last() is Rejected);
    } else if order.order_type == OrderType::PostOnly {
        law_post_only_never_takes(e, s, order);
    } else {
        let (q, n) = law_orders_are_matched_in_turn(e, s, order);
        if e.must_kill(order) {
            assert(events.last() is Killed);
        } else {
            lemma_reported_totals(e, s, order, q, n);
            let lacks = shortfall(q, n, order.user_id, order.quantity as int);
            let own = relatives(q, n, order.user_id);
            let others = strangers(q, n, order.user_id);
            if lacks == 0 {
                if others.len() > 0 {
                    assert(events[1 + own.len() + (others.len() - 1)] is Trade);
                } else if own.len() > 0 {
                    assert(events[1 + (own.len() - 1)] is Canceled);
                }
                assert(false);
            }
        }
    }
}

/// A new order cancels resting orders of its own user id only: each that is reported as
/// canceled rested on the other side under that user id.
pub proof fn law_only_own_orders_are_canceled(
    e: EngineView,
    s: Sequenced,
    order: NewOrder,
    i: int,
) -> (r: (Price, int))
    requires
        e.book.tidy(),
        s.cmd == Command::NewOrder(order),
        0 <= i < e.step(s).1.len(),
        e.step(s).1[i] is Canceled,
    ensures
        ({
            let levels = facing(e.book, order.side);
            let (p, j) = r;
            &&& levels.contains_key(p)
            &&& 0 <= j < levels[p].len()
            &&& levels[p][j].order_id == e.step(s).1[i]->Canceled_order_id
            &&& levels[p][j].user_id == order.user_id
        }),
{
    let events = e.step(s).1;
    let levels = facing(e.book, order.side);
    if order.quantity == 0 || order.order_type == OrderType::PostOnly || e.must_kill(order) {
        (0, 0)
    } else {
        let (q, n) = law_orders_are_matched_in_turn(e, s, order);
        let own = relatives(q, n, order.user_id);
        let others = strangers(q, n, order.user_id);
        let k = i - 1;
        if k >= own.len() {
            if k < own.len() + others.len() {
                assert(events[1 + own.len() + (k - own.len())] is Trade);
            }
            assert(false);
        }
        assert(events[1 + k] == events[i]);
        let at = lemma_filter_source(
            q.take(n),
            |x: Quote| x.order.user_id == order.user_id,
            k,
        );
        let p = q[at].price;
        let at_p = |x: Quote| x.price == p;
        q.lemma_filter_contains(at_p, at);
        let listed = q.filter(at_p);
        let j = choose|j: int| 0 <= j < listed.len() && listed[j] == q[at];
        assert(levels.contains_key(p));
        assert(levels[p][j] == q[at].order);
        (p, j)
    }
}

/// No order of another user vanishes: an order that rested on the other side under
/// another user id than the new order's is still there afterwards, or a trade with it is
/// reported.
pub proof fn law_orders_of_others_stay_or_trade(
    e: EngineView,
    s: Sequenced,
    order: NewOrder,
    p: Price,
    j: int,
)
    requires
        e.book.tidy(),
        s.cmd == Command::NewOrder(order),
        facing(e.book, order.side).contains_key(p),
        0 <= j < facing(e.book, order.side)[p].len(),
        facing(e.book, order.side)[p][j].user_id != order.user_id,
    ensures
        ({
            let (after, events) = e.step(s);
            let maker = facing(e.book, order.side)[p][j];
            let left = facing(after.book, order.side);
            ||| left.contains_key(p) && exists|i: int|
                0 <= i < left[p].len() && (#[trigger] left[p][i]).order_id == maker.order_id
                    && left[p][i].user_id == maker.user_id
            ||| exists|i: int|
                0 <= i < events.len() && (#[trigger] events[i]) is Trade
                    && events[i]->Trade_maker_order_id == maker.order_id
                    && events[i]->Trade_price == p
        }),
{
    let (after, events) = e.step(s);
    let levels = facing(e.book, order.side);
    let maker = levels[p][j];
    let left = facing(after.book, order.side);
    if order.quantity == 0 || order.order_type == OrderType::PostOnly || e.must_kill(order) {
        assert(left == levels);
        assert(left[p][j].order_id == maker.order_id);
    } else {
        let (q, n) = law_orders_are_matched_in_turn(e, s, order);
        let user = order.user_id;
        let wanted = order.quantity as int;
        let at_p = |x: Quote| x.price == p;
        let at = lemma_filter_source(q, at_p, j);
        assert(q[at].order == maker);
        if at < n {
            assert(q.take(n)[at] == q[at]);
            q.take(n).lemma_filter_contains(|x: Quote| x.order.user_id != user, at);
            let others = strangers(q, n, user);
            let k = choose|k: int| 0 <= k < others.len() && others[k] == q[at];
            let own = relatives(q, n, user);
            assert(events[1 + own.len() + k]->Trade_maker_order_id == maker.order_id);
        } else {
            let rest = left_of(q, n, user, wanted);
            let shift: int = if excess(q, n, user, wanted) > 0 {
                1
            } else {
                0
            };
            assert(rest[at - n + shift] == q[at]);
            rest.lemma_filter_contains(at_p, at - n + shift);
            let listed = rest.filter(at_p);
            let i = choose|i: int| 0 <= i < listed.len() && listed[i] == q[at];
            assert(left.contains_key(p)) by {
                assert(left.contains_key(rest[at - n + shift].price));
            }
            assert(left[p][i] == maker);
        }
    }
}

/// A post-only order never trades. If someone on the other side already offers its price
/// or better it is rejected and changes nothing; else it comes to rest whole, behind the
/// orders at its price, and nothing else on the book changes.
pub proof fn law_post_only_rests_or_is_rejected(e: EngineView, s: Sequenced, order: NewOrder)
    requires
        s.cmd == Command::NewOrder(order),
        order.order_type == OrderType::PostOnly,
        order.quantity > 0,
    ensures
        ({
            let (after, events) = e.step(s);
            let would_trade = exists|p: Price| #[trigger]
                facing(e.book, order.side).contains_key(p) && accepts(
                    order.side,
                    order.price as int,
                    p,
                );
            &&& events.len() == 2
            &&& events[0] == (EventView::Accepted { order_id: order.order_id, seq: s.seq })
            &&& would_trade ==> {
                &&& after == e
                &&& events[1] == (EventView::Rejected {
                    order_id: order.order_id,
                    reason: "post-only would take"@,
                })
            }
            &&& !would_trade ==> {
                &&& events[1] == (EventView::Resting {
                    order_id: order.order_id,
                    side: order.side,
                    price: order.price,
                    remaining: order.quantity,
                })
                &&& joined_back(
                    resting_on(e.book, order.side),
                    resting_on(after.book, order.side),
                    order.price,
                    RestingOrder {
                        order_id: order.order_id,
                        user_id: order.user_id,
                        remaining: order.quantity,
                    },
                )
                &&& facing(after.book, order.side) == facing(e.book, order.side)
                &&& after.book.index.contains_key(order.order_id)
                &&& after.book.index[order.order_id] == (order.side, order.price)
                &&& forall|id: OrderId|
                    id != order.order_id ==> (#[trigger] after.book.index.contains_key(id)
                        <==> e.book.index.contains_key(id))
                &&& forall|id: OrderId|
                    id != order.order_id && e.book.index.contains_key(id)
                        ==> #[trigger] after.book.index[id] == e.book.index[id]
                &&& after.book.symbol == e.book.symbol
                &&& after.market_protection_bps == e.market_protection_bps
            }
        }),
{
    let levels = facing(e.book, order.side);
    assert(levels == e.book.side(opposite(order.side)));
    if e.book.would_cross(order.side, order.price) {
        let p = choose|p: Price| #[trigger]
            e.book.side(opposite(order.side)).contains_key(p) && crosses(
                order.side,
                order.price,
                p,
            );
        assert(levels.contains_key(p));
    }
    law_new_orders_join_the_back(
        e.book,
        order.side,
        order.price,
        EngineView::resting(order, order.quantity as int),
    );
}

/// Orders that take and the index. The order itself has an entry if it comes to rest. An
/// entry goes if its order is reported as canceled, or if a trade with its id is reported
/// and no order with the id stands at its place any more. All other entries stay.
pub proof fn law_orders_and_the_index(
    e: EngineView,
    s: Sequenced,
    order: NewOrder,
    order_id: OrderId,
)
    requires
        e.book.tidy(),
        s.cmd == Command::NewOrder(order),
    ensures
        ({
            let (after, events) = e.step(s);
            let before = e.book.index;
            let index = after.book.index;
            let canceled = exists|i: int|
                0 <= i < events.len() && #[trigger] events[i] == (EventView::Canceled { order_id });
            let sold = exists|i: int|
                0 <= i < events.len() && (#[trigger] events[i]) is Trade
                    && events[i]->Trade_maker_order_id == order_id;
            if events.last() is Resting && order_id == order.order_id {
                index.contains_key(order_id) && index[order_id] == (order.side, order.price)
            } else {
                &&& index.contains_key(order_id) <==> {
                    &&& before.contains_key(order_id)
                    &&& !canceled
                    &&& sold ==> stands(after.book, order_id, before[order_id])
                }
                &&& index.contains_key(order_id) ==> index[order_id] == before[order_id]
            }
        }),
{
    let (after, events) = e.step(s);
    if order.quantity == 0 || e.must_kill(order) || order.order_type == OrderType::PostOnly {
        assert(events.len() == 2);
        assert(events[0] is Accepted);
        assert(events[1] !is Canceled && events[1] !is Trade);
    } else {
        let taker = e.taker(order);
        let (q, n) = law_orders_are_matched_in_turn(e, s, order);
        let swept = e.book.sweep(taker, order.quantity);
        let matched = e.book.matched(taker, order.quantity);
        let canceled_events = cancellations(swept.canceled);
        let trade_events = trades(order, s.seq, s.ts, swept.fills);
        let rest = EngineView { book: matched, ..e }.after_match(order, swept.unfilled).1;
        law_matching_and_the_index(e.book, taker, order.quantity, order_id);
        assert(events =~= seq![EventView::Accepted { order_id: order.order_id, seq: s.seq }] + (
        canceled_events + trade_events + rest));
        // What is reported is what was swept.
        if exists|k: int|
            0 <= k < swept.canceled.len() && #[trigger] swept.canceled[k] == order_id {
            let k = choose|k: int|
                0 <= k < swept.canceled.len() && #[trigger] swept.canceled[k] == order_id;
            assert(events[1 + k] == canceled_events[k]);
        }
        if exists|i: int|
            0 <= i < events.len() && #[trigger] events[i] == (EventView::Canceled { order_id }) {
            let i = choose|i: int|
                0 <= i < events.len() && #[trigger] events[i] == (EventView::Canceled { order_id });
            assert(events[i] == canceled_events[i - 1]);
            assert(swept.canceled[i - 1] == order_id);
        }
        if exists|k: int|
            0 <= k < swept.fills.len() && (#[trigger] swept.fills[k]).maker_order_id == order_id {
            let k = choose|k: int|
                0 <= k < swept.fills.len() && (#[trigger] swept.fills[k]).maker_order_id
                    == order_id;
            assert(events[1 + canceled_events.len() + k] == trade_events[k]);
        }
        if exists|i: int|
            0 <= i < events.len() && (#[trigger] events[i]) is Trade
                && events[i]->Trade_maker_order_id == order_id {
            let i = choose|i: int|
                0 <= i < events.len() && (#[trigger] events[i]) is Trade
                    && events[i]->Trade_maker_order_id == order_id;
            let k = i - 1 - canceled_events.len();
            assert(0 <= k < trade_events.len());
            assert(events[i] == trade_events[k]);
            assert(swept.fills[k].maker_order_id == order_id);
        }
        lemma_sweep_unfilled(e.book.queue_for(order.side), taker, order.quantity as int);
        if swept.unfilled > 0 && order.order_type == OrderType::Limit {
            assert(events.last() == rest[0]);
            if order_id != order.order_id && e.book.index.contains_key(order_id) {
                let place = e.book.index[order_id];
                lemma_rest_keeps_standing(
                    matched,
                    order.side,
                    order.price,
                    EngineView::resting(order, swept.unfilled),
                    order_id,
                    place,
                );
            }
        } else {
            assert(events.last() !is Resting) by {
                if swept.unfilled > 0 {
                    assert(events.last() == rest[0]);
                } else if swept.fills.len() > 0 {
                    assert(events.last() == trade_events.last());
                } else if swept.canceled.len() > 0 {
                    assert(events.last() == canceled_events.last());
                }
            }
            assert(after.book == matched);
        }
    }
}

/// Resting an order changes nothing for the ids of others.
proof fn lemma_rest_keeps_standing(
    book: BookView,
    side: Side,
    price: Price,
    order: RestingOrder,
    order_id: OrderId,
    place: (Side, Price),
)
    requires
        order_id != order.order_id,
    ensures
        stands(book.rest(side, price, order), order_id, place) == stands(book, order_id, place),
{
    let after = book.rest(side, price, order);
    let before = resting_on(book, place.0);
    let levels = resting_on(after, place.0);
    if stands(book, order_id, place) {
        let i = choose|i: int|
            0 <= i < before[place.1].len() && (#[trigger] before[place.1][i]).order_id == order_id;
        assert(levels[place.1][i] == before[place.1][i]);
    }
    if stands(after, order_id, place) {
        let i = choose|i: int|
            0 <= i < levels[place.1].len() && (#[trigger] levels[place.1][i]).order_id == order_id;
        assert(before[place.1][i] == levels[place.1][i]);
    }
}

/// Fill or kill. The order trades all that it wants if other users offer as much at its
/// limit or better, whoever they are. Else it trades nothing and changes nothing.
pub proof fn law_fill_or_kill_is_all_or_nothing(e: EngineView, s: Sequenced, order: NewOrder) -> (q:
    Seq<Quote>)
    requires
        e.book.tidy(),
        s.cmd == Command::NewOrder(order),
        order.quantity > 0,
        order.order_type == OrderType::Fok,
    ensures
        in_priority(q, facing(e.book, order.side), order.side),
        if offered_within(q, order.side, order.price, order.user_id) >= order.quantity {
            traded(e.step(s).1) == order.quantity
        } else {
            traded(e.step(s).1) == 0 && e.step(s).0 == e
        },
{
    let q = law_depth_is_what_others_offer(e.book, order.side, order.price, order.user_id);
    law_fill_or_kill(e, s, order);
    law_quantity_is_accounted_for(e, s, order);
    if e.must_kill(order) {
        let events = e.step(s).1;
        assert(events.len() == 2);
        reveal_with_fuel(traded, 3);
        assert(events.drop_last().drop_last() =~= Seq::empty());
        assert(events.drop_last().last() == events[0]);
    }
    q
}

/// A cancel command cancels the order that it names and nothing else. It is answered by
/// one event: canceled if an order with the id stands where the index says, rejected if
/// not.
pub proof fn law_cancel_commands(e: EngineView, s: Sequenced, order_id: OrderId)
    requires
        s.cmd == (Command::Cancel { order_id }),
    ensures
        ({
            let (after, events) = e.step(s);
            let found = e.book.index.contains_key(order_id) && stands(
                e.book,
                order_id,
                e.book.index[order_id],
            );
            &&& after.book == e.book.cancel(order_id)
            &&& after.market_protection_bps == e.market_protection_bps
            &&& events.len() == 1
            &&& found ==> events[0] == (EventView::Canceled { order_id })
            &&& !found ==> events[0] == (EventView::Rejected {
                order_id,
                reason: "order not found"@,
            })
        }),
{
    lemma_stands(e.book, order_id);
}

/// A command fits unless its order comes to rest at a price whose total would then be
/// more than 64 bits hold.
pub proof fn law_what_fits(e: EngineView, s: Sequenced)
    requires
        e.book.tidy(),
    ensures
        e.admits(s) <==> (e.step(s).1.last() matches EventView::Resting {
            side,
            price,
            remaining,
            ..
        } ==> (if resting_on(e.book, side).contains_key(price) {
            sum_remaining(resting_on(e.book, side)[price])
        } else {
            0
        }) + remaining <= u64::MAX),
{
    if let Command::NewOrder(order) = s.cmd {
        if order.quantity > 0 && order.order_type != OrderType::PostOnly && !e.must_kill(order) {
            let (q, n) = law_orders_are_matched_in_turn(e, s, order);
            lemma_reported_totals(e, s, order, q, n);
            let own = relatives(q, n, order.user_id);
            let others = strangers(q, n, order.user_id);
            let events = e.step(s).1;
            if shortfall(q, n, order.user_id, order.quantity as int) == 0 {
                if others.len() > 0 {
                    assert(events[1 + own.len() + (others.len() - 1)] is Trade);
                } else if own.len() > 0 {
                    assert(events[1 + (own.len() - 1)] is Canceled);
                }
                assert(events.last() !is Resting);
            }
        }
    }
    assert(sum_remaining(Seq::<RestingOrder>::empty()) == 0);
}

} // verus!
