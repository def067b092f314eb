//! Facts about queues of quotes.

use crate::domain::{OrderId, Price, Side};
use crate::model::{
    best, better, depth, is_best, is_first_with_id, levels_of, position, queue, quotes,
    sum_remaining, sweep, tidy, Levels, Quote, Taker,
};
use crate::orderbook::RestingOrder;
use vstd::prelude::*;

verus! {

/// A side with any price has a best one.
pub proof fn lemma_best_exists(levels: Levels, side: Side)
    requires
        levels.dom().finite(),
        levels.dom().len() > 0,
    ensures
        exists|p: Price| is_best(levels, side, p),
    decreases levels.dom().len(),
{
    let p = levels.dom().choose();
    assert(levels.contains_key(p));
    let others = levels.remove(p);
    assert(others.dom() =~= levels.dom().remove(p));
    if others.dom().len() == 0 {
        assert forall|q: Price| levels.contains_key(q) implies !better(side, q, p) by {
            if q != p {
                assert(others.dom().contains(q));
                assert(others.dom() =~= Set::empty());
            }
        }
        assert(is_best(levels, side, p));
    } else {
        lemma_best_exists(others, side);
        let q = choose|q: Price| is_best(others, side, q);
        assert(levels.contains_key(q));
        let winner = if better(side, p, q) {
            p
        } else {
            q
        };
        assert forall|r: Price| levels.contains_key(r) implies !better(side, r, winner) by {
            if r != p {
                assert(others.contains_key(r));
            }
        }
        assert(is_best(levels, side, winner));
    }
}

/// At most one price is the best.
pub proof fn lemma_best_is(levels: Levels, side: Side, p: Price)
    requires
        is_best(levels, side, p),
    ensures
        best(levels, side) == Some(p),
{
    let q = choose|q: Price| is_best(levels, side, q);
    assert(is_best(levels, side, q));
    assert(!better(side, q, p) && !better(side, p, q));
}

/// The queue starts with the best level.
pub proof fn lemma_queue_front(levels: Levels, side: Side, p: Price)
    requires
        levels.dom().finite(),
        is_best(levels, side, p),
    ensures
        queue(levels, side) == quotes(p, levels[p]) + queue(levels.remove(p), side),
{
    lemma_best_is(levels, side, p);
}

/// A side without prices has no best one.
pub proof fn lemma_no_best(levels: Levels, side: Side)
    requires
        levels.dom().is_empty(),
    ensures
        best(levels, side) is None,
{
    if exists|p: Price| is_best(levels, side, p) {
        let p = choose|p: Price| is_best(levels, side, p);
        assert(levels.dom().contains(p));
    }
}

/// A side without prices has no queue.
pub proof fn lemma_queue_empty(levels: Levels, side: Side)
    requires
        levels.dom().is_empty(),
    ensures
        levels.dom().finite(),
        queue(levels, side) == Seq::<Quote>::empty(),
{
    assert(levels.dom() =~= Set::empty());
    lemma_no_best(levels, side);
}

/// The quotes of one price, looked up by a price.
proof fn lemma_filter_quotes(price: Price, orders: Seq<RestingOrder>, p: Price)
    ensures
        quotes(price, orders).filter(|q: Quote| q.price == p) == if p == price {
            quotes(price, orders)
        } else {
            Seq::<Quote>::empty()
        },
    decreases orders.len(),
{
    let at_p = |q: Quote| q.price == p;
    reveal(Seq::filter);
    if orders.len() > 0 {
        lemma_filter_quotes(price, orders.drop_last(), p);
        assert(quotes(price, orders).drop_last() =~= quotes(price, orders.drop_last()));
        assert(quotes(price, orders) =~= quotes(price, orders.drop_last()).push(
            quotes(price, orders).last(),
        ));
    }
}

/// A queue that starts with all the quotes of one price makes up that level and
/// the levels of the others.
pub proof fn lemma_levels_of_front(price: Price, orders: Seq<RestingOrder>, tail: Seq<Quote>)
    requires
        !levels_of(tail).contains_key(price),
    ensures
        orders.len() > 0 ==> levels_of(quotes(price, orders) + tail) == levels_of(tail).insert(
            price,
            orders,
        ),
        orders.len() == 0 ==> levels_of(quotes(price, orders) + tail) == levels_of(tail),
{
    let front = quotes(price, orders);
    let whole = front + tail;
    if orders.len() == 0 {
        assert(whole =~= tail);
    } else {
        let expected = levels_of(tail).insert(price, orders);
        assert forall|p: Price| levels_of(whole).contains_key(p) == expected.contains_key(p) by {
            if p == price {
                assert(whole[0].price == p);
            } else {
                if levels_of(tail).contains_key(p) {
                    let i = choose|i: int| 0 <= i < tail.len() && (#[trigger] tail[i]).price == p;
                    assert(whole[i + front.len()].price == p);
                }
                if levels_of(whole).contains_key(p) {
                    let i = choose|i: int| 0 <= i < whole.len() && (#[trigger] whole[i]).price == p;
                    assert(tail[i - front.len()].price == p);
                }
            }
        }
        assert forall|p: Price| #[trigger] expected.contains_key(p) implies levels_of(whole)[p]
            == expected[p] by {
            let at_p = |q: Quote| q.price == p;
            Seq::filter_distributes_over_add(front, tail, at_p);
            lemma_filter_quotes(price, orders, p);
            if p == price {
                assert(tail.filter(at_p) =~= Seq::empty()) by {
                    assert forall|i: int| 0 <= i < tail.len() implies !at_p(tail[i]) by {
                        assert(tail[i].price != price);
                    }
                    tail.lemma_all_neg_filter_empty(at_p);
                }
                assert(whole.filter(at_p).map_values(|q: Quote| q.order) =~= orders);
            } else {
                assert(whole.filter(at_p) =~= tail.filter(at_p));
            }
        }
        assert(levels_of(whole) =~= expected);
    }
}

/// The levels of a side are those that its queue makes up.
pub proof fn lemma_levels_of_queue(levels: Levels, side: Side)
    requires
        tidy(levels),
    ensures
        levels_of(queue(levels, side)) == levels,
    decreases levels.dom().len(),
{
    if levels.dom().len() == 0 {
        lemma_queue_empty(levels, side);
        assert(levels_of(queue(levels, side)) =~= levels);
    } else {
        lemma_best_exists(levels, side);
        let p = choose|p: Price| is_best(levels, side, p);
        lemma_queue_front(levels, side, p);
        let others = levels.remove(p);
        lemma_levels_of_queue(others, side);
        lemma_levels_of_front(p, levels[p], queue(others, side));
        assert(others.insert(p, levels[p]) =~= levels);
    }
}

/// What is left unfilled is what the depth does not cover.
pub proof fn lemma_sweep_unfilled(q: Seq<Quote>, taker: Taker, quantity: int)
    requires
        quantity >= 0,
    ensures
        sweep(q, taker, quantity).unfilled == if depth(q, taker) >= quantity {
            0
        } else {
            quantity - depth(q, taker)
        },
    decreases q.len(),
{
    if !taker.stops(q, quantity) {
        if taker.owns(q[0]) {
            lemma_sweep_unfilled(q.drop_first(), taker, quantity);
        } else if quantity >= q[0].order.remaining {
            lemma_sweep_unfilled(q.drop_first(), taker, quantity - q[0].order.remaining);
        }
    }
}

/// The quantity of two queues, one after the other.
pub proof fn lemma_sum_concat(a: Seq<RestingOrder>, b: Seq<RestingOrder>)
    ensures
        sum_remaining(a + b) == sum_remaining(a) + sum_remaining(b),
    decreases b.len(),
{
    if b.len() == 0 {
        assert(a + b =~= a);
    } else {
        lemma_sum_concat(a, b.drop_last());
        assert((a + b).drop_last() =~= a + b.drop_last());
    }
}

/// The quantity of a queue without one of its orders.
pub proof fn lemma_sum_remove(orders: Seq<RestingOrder>, i: int)
    requires
        0 <= i < orders.len(),
    ensures
        sum_remaining(orders) == orders[i].remaining + sum_remaining(orders.remove(i)),
{
    let before = orders.subrange(0, i);
    let after = orders.subrange(i + 1, orders.len() as int);
    let one = seq![orders[i]];
    assert(orders =~= (before + one) + after);
    assert(orders.remove(i) =~= before + after);
    lemma_sum_concat(before + one, after);
    lemma_sum_concat(before, one);
    lemma_sum_concat(before, after);
    assert(sum_remaining(one) == orders[i].remaining) by {
        reveal_with_fuel(sum_remaining, 2);
    }
}

/// The quantity of a queue is that of its first order and of the others.
pub proof fn lemma_sum_first(orders: Seq<RestingOrder>)
    requires
        orders.len() > 0,
    ensures
        sum_remaining(orders) == orders[0].remaining + sum_remaining(orders.drop_first()),
{
    lemma_sum_remove(orders, 0);
    assert(orders.remove(0) =~= orders.drop_first());
}

/// At most one place is the first with an id.
pub proof fn lemma_position_is(orders: Seq<RestingOrder>, order_id: OrderId, i: int)
    requires
        is_first_with_id(orders, order_id, i),
    ensures
        position(orders, order_id) == Some(i),
{
    let j = choose|j: int| is_first_with_id(orders, order_id, j);
    assert(is_first_with_id(orders, order_id, j));
}

} // verus!
