//! Facts about what a taker does to a queue of quotes.

use crate::domain::{Price, Side};
use crate::model::{
    better, fill_matches, gone, is_best, levels_of, met, of_others, of_own, queue, quotes, reduced,
    sorted, sweep, tidy, Levels, Quote, Taker,
};
use crate::queue_lemmas::{
    lemma_best_exists, lemma_levels_of_queue, lemma_queue_empty, lemma_queue_front,
};
use vstd::prelude::*;

verus! {

/// What a taker does to a queue, in terms of the quotes that it meets.
pub proof fn lemma_sweep_met(q: Seq<Quote>, taker: Taker, quantity: int)
    requires
        quantity >= 0,
    ensures
        ({
            let n = met(q, taker, quantity);
            let swept = sweep(q, taker, quantity);
            let others = of_others(q.take(n), taker);
            let own = of_own(q.take(n), taker);
            &&& 0 <= n <= q.len()
            &&& forall|i: int| 0 <= i < n ==> taker.admits((#[trigger] q[i]).price)
            &&& swept.canceled == own.map_values(|x: Quote| x.order.order_id)
            &&& swept.fills.len() == others.len()
            &&& forall|k: int|
                0 <= k < others.len() ==> fill_matches(#[trigger] swept.fills[k], others[k])
            &&& forall|k: int|
                0 <= k < others.len() - 1 ==> (#[trigger] swept.fills[k]).quantity
                    == others[k].order.remaining
            &&& 0 <= swept.unfilled <= quantity
            &&& swept.unfilled > 0 ==> n == q.len() || !taker.admits(q[n].price)
            &&& if swept.fills.len() > 0 && swept.fills.last().quantity
                < others.last().order.remaining {
                &&& n > 0
                &&& q[n - 1] == others.last()
                &&& swept.unfilled == 0
                &&& swept.residue == seq![
                    reduced(others.last(), swept.fills.last().quantity as int),
                ] + q.skip(n)
            } else {
                swept.residue == q.skip(n)
            }
        }),
    decreases q.len(),
{
    let n = met(q, taker, quantity);
    let swept = sweep(q, taker, quantity);
    let is_own = |x: Quote| taker.owns(x);
    let is_other = |x: Quote| !taker.owns(x);
    reveal(Seq::filter);
    if taker.stops(q, quantity) {
        assert(q.take(0) =~= Seq::empty());
        assert(q.skip(0) =~= q);
    } else {
        let tail = q.drop_first();
        let head = q[0];
        let left = if taker.owns(head) {
            quantity
        } else {
            quantity - head.order.remaining
        };
        if !taker.owns(head) && quantity < head.order.remaining {
            let one = q.take(1);
            assert(one =~= Seq::empty().push(head));
            assert(one.drop_last() =~= Seq::empty());
            assert(Seq::<Quote>::empty().filter(is_other) =~= Seq::empty());
            assert(Seq::<Quote>::empty().filter(is_own) =~= Seq::empty());
            assert(of_others(one, taker) =~= seq![head]);
            assert(of_own(one, taker) =~= Seq::empty());
            assert(q.skip(1) =~= tail);
        } else {
            lemma_sweep_met(tail, taker, left);
            let m = met(tail, taker, left);
            let rest = tail.take(m);
            assert(q.take(n) =~= seq![head] + rest);
            rest.lemma_filter_prepend(head, is_other);
            rest.lemma_filter_prepend(head, is_own);
            assert(q.skip(n) =~= tail.skip(m));
            assert forall|i: int| 0 <= i < n implies taker.admits((#[trigger] q[i]).price) by {
                if i > 0 {
                    assert(tail[i - 1] == q[i]);
                }
            }
            assert(m < tail.len() ==> tail[m] == q[n]);
            let others = of_others(q.take(n), taker);
            let inner = sweep(tail, taker, left);
            if taker.owns(head) {
                assert(others =~= of_others(rest, taker));
                assert(swept.canceled =~= of_own(q.take(n), taker).map_values(
                    |x: Quote| x.order.order_id,
                ));
            } else {
                assert(others =~= seq![head] + of_others(rest, taker));
                assert forall|k: int| 0 <= k < others.len() implies fill_matches(
                    #[trigger] swept.fills[k],
                    others[k],
                ) by {
                    if k > 0 {
                        assert(swept.fills[k] == inner.fills[k - 1]);
                    }
                }
                assert forall|k: int| 0 <= k < others.len() - 1 implies (
                #[trigger] swept.fills[k]).quantity == others[k].order.remaining by {
                    if k > 0 {
                        assert(swept.fills[k] == inner.fills[k - 1]);
                    }
                }
            }
            if m > 0 {
                assert(tail[m - 1] == q[n - 1]);
            }
        }
    }
}

/// Every quote of the queue rests at its price.
pub proof fn lemma_queue_members(levels: Levels, side: Side, i: int)
    requires
        tidy(levels),
        0 <= i < queue(levels, side).len(),
    ensures
        levels.contains_key(queue(levels, side)[i].price),
        levels[queue(levels, side)[i].price].contains(queue(levels, side)[i].order),
    decreases levels.dom().len(),
{
    if levels.dom().len() == 0 {
        lemma_queue_empty(levels, side);
    } else {
        lemma_best_exists(levels, side);
        let p = choose|p: Price| is_best(levels, side, p);
        lemma_queue_front(levels, side, p);
        let front = quotes(p, levels[p]);
        if i < front.len() {
            assert(queue(levels, side)[i] == front[i]);
            assert(levels[p][i] == front[i].order);
        } else {
            lemma_queue_members(levels.remove(p), side, i - front.len());
        }
    }
}

/// The queue of a side is sorted by price.
pub proof fn lemma_queue_sorted(levels: Levels, side: Side)
    requires
        tidy(levels),
    ensures
        sorted(queue(levels, side), side),
    decreases levels.dom().len(),
{
    if levels.dom().len() == 0 {
        lemma_queue_empty(levels, side);
    } else {
        lemma_best_exists(levels, side);
        let p = choose|p: Price| is_best(levels, side, p);
        lemma_queue_front(levels, side, p);
        let others = levels.remove(p);
        lemma_queue_sorted(others, side);
        let q = queue(levels, side);
        let front = quotes(p, levels[p]);
        let tail = queue(others, side);
        assert forall|i: int, j: int| 0 <= i <= j < q.len() implies !better(
            side,
            (#[trigger] q[j]).price,
            (#[trigger] q[i]).price,
        ) by {
            lemma_queue_members(levels, side, j);
            if i >= front.len() {
                assert(q[i] == tail[i - front.len()]);
                assert(q[j] == tail[j - front.len()]);
            }
        }
    }
}

/// A queue makes up tidy levels.
pub proof fn lemma_levels_of_tidy(q: Seq<Quote>)
    ensures
        tidy(levels_of(q)),
{
    let prices = q.map_values(|x: Quote| x.price);
    assert(levels_of(q).dom().subset_of(prices.to_set())) by {
        assert forall|p: Price| levels_of(q).dom().contains(p) implies prices.to_set().contains(
            p,
        ) by {
            assert(levels_of(q).contains_key(p));
            let i = choose|i: int| 0 <= i < q.len() && (#[trigger] q[i]).price == p;
            assert(prices[i] == p);
        }
    }
    vstd::set_lib::lemma_len_subset(levels_of(q).dom(), prices.to_set());
    assert forall|p: Price| #[trigger] levels_of(q).contains_key(p) implies levels_of(q)[p].len()
        > 0 by {
        let at_p = |x: Quote| x.price == p;
        let i = choose|i: int| 0 <= i < q.len() && (#[trigger] q[i]).price == p;
        q.lemma_filter_contains(at_p, i);
        assert(q.filter(at_p).len() > 0);
    }
}

/// Two queues that differ only in the quantities of their quotes.
pub open spec fn same_but_quantity(a: Seq<Quote>, b: Seq<Quote>) -> bool {
    &&& a.len() == b.len()
    &&& forall|i: int|
        0 <= i < a.len() ==> (#[trigger] a[i]).price == b[i].price && a[i].order.order_id
            == b[i].order.order_id && a[i].order.user_id == b[i].order.user_id
}

proof fn lemma_filter_same(a: Seq<Quote>, b: Seq<Quote>, p: Price)
    requires
        same_but_quantity(a, b),
    ensures
        same_but_quantity(
            a.filter(|x: Quote| x.price == p),
            b.filter(|x: Quote| x.price == p),
        ),
    decreases a.len(),
{
    reveal(Seq::filter);
    if a.len() > 0 {
        assert(same_but_quantity(a.drop_last(), b.drop_last()));
        lemma_filter_same(a.drop_last(), b.drop_last(), p);
    }
}

/// What a taker leaves is the end of the queue, from the first quote that is not
/// gone; the quotes before it that belong to the taker are those that were canceled.
pub proof fn lemma_residue_is_suffix(q: Seq<Quote>, taker: Taker, quantity: int)
    requires
        quantity >= 0,
    ensures
        0 <= gone(q, taker, quantity) <= q.len(),
        same_but_quantity(
            sweep(q, taker, quantity).residue,
            q.skip(gone(q, taker, quantity)),
        ),
        sweep(q, taker, quantity).canceled == of_own(
            q.take(gone(q, taker, quantity)),
            taker,
        ).map_values(|x: Quote| x.order.order_id),
{
    lemma_sweep_met(q, taker, quantity);
    let n = met(q, taker, quantity);
    let m = gone(q, taker, quantity);
    let swept = sweep(q, taker, quantity);
    let others = of_others(q.take(n), taker);
    if m < n {
        assert(q.take(n) =~= q.take(m).push(q[m]));
        reveal(Seq::filter);
        assert(q.take(n).drop_last() =~= q.take(m));
        assert(!taker.owns(q[m])) by {
            let is_other = |x: Quote| !taker.owns(x);
            q.take(n).lemma_filter_pred(is_other, others.len() - 1);
        }
        assert(of_own(q.take(n), taker) =~= of_own(q.take(m), taker));
        assert(same_but_quantity(swept.residue, q.skip(m)));
    }
}

/// The orders that a taker leaves at a price are the last of those that rested
/// there, in the same order.
pub proof fn lemma_level_suffix(
    levels: Levels,
    side: Side,
    taker: Taker,
    quantity: int,
    p: Price,
) -> (k: int)
    requires
        tidy(levels),
        quantity >= 0,
        levels_of(sweep(queue(levels, side), taker, quantity).residue).contains_key(p),
    ensures
        levels.contains_key(p),
        ({
            let swept = sweep(queue(levels, side), taker, quantity);
            let after = levels_of(swept.residue)[p];
            &&& 0 <= k
            &&& after.len() == levels[p].len() - k
            &&& forall|i: int|
                0 <= i < after.len() ==> (#[trigger] after[i]).order_id == levels[p][i + k].order_id
                    && after[i].user_id == levels[p][i + k].user_id
        }),
{
    let q = queue(levels, side);
    let swept = sweep(q, taker, quantity);
    lemma_residue_is_suffix(q, taker, quantity);
    let n = gone(q, taker, quantity);
    let at_p = |x: Quote| x.price == p;
    lemma_levels_of_queue(levels, side);
    assert(q =~= q.take(n) + q.skip(n));
    Seq::filter_distributes_over_add(q.take(n), q.skip(n), at_p);
    lemma_filter_same(swept.residue, q.skip(n), p);
    let i = choose|i: int| 0 <= i < swept.residue.len() && (#[trigger] swept.residue[i]).price == p;
    assert(q[n + i].price == p) by {
        assert(q.skip(n)[i].price == p);
    }
    assert(levels_of(q).contains_key(p));
    let k = q.take(n).filter(at_p).len() as int;
    let after = levels_of(swept.residue)[p];
    assert forall|i: int| 0 <= i < after.len() implies (#[trigger] after[i]).order_id
        == levels[p][i + k].order_id && after[i].user_id == levels[p][i + k].user_id by {
        assert(after[i] == swept.residue.filter(at_p)[i].order);
        assert(levels[p][i + k] == q.filter(at_p)[i + k].order);
        assert(q.filter(at_p)[i + k] == q.skip(n).filter(at_p)[i]);
    }
    k
}

/// The quotes at a price, of a queue that is put together from parts.
pub proof fn lemma_filter_split(head: Seq<Quote>, middle: Quote, tail: Seq<Quote>, p: Price)
    ensures
        ({
            let at_p = |x: Quote| x.price == p;
            let one = if middle.price == p {
                seq![middle]
            } else {
                Seq::empty()
            };
            &&& (seq![middle] + tail).filter(at_p) == one + tail.filter(at_p)
            &&& (head + (seq![middle] + tail)).filter(at_p) == head.filter(at_p) + (one
                + tail.filter(at_p))
        }),
{
    let at_p = |x: Quote| x.price == p;
    Seq::filter_distributes_over_add(seq![middle], tail, at_p);
    Seq::filter_distributes_over_add(head, seq![middle] + tail, at_p);
    reveal_with_fuel(Seq::filter, 2);
    assert(seq![middle].drop_last() =~= Seq::empty());
    assert(seq![middle].filter(at_p) =~= if middle.price == p {
        seq![middle]
    } else {
        Seq::empty()
    });
}

/// A queue without quotes at a price.
pub proof fn lemma_filter_none(q: Seq<Quote>, p: Price)
    requires
        forall|i: int| 0 <= i < q.len() ==> (#[trigger] q[i]).price != p,
    ensures
        q.filter(|x: Quote| x.price == p).len() == 0,
    decreases q.len(),
{
    reveal(Seq::filter);
    if q.len() > 0 {
        lemma_filter_none(q.drop_last(), p);
    }
}

/// What a filter keeps comes from the sequence and satisfies the predicate.
pub proof fn lemma_filter_source<A>(s: Seq<A>, keep: spec_fn(A) -> bool, k: int) -> (i: int)
    requires
        0 <= k < s.filter(keep).len(),
    ensures
        0 <= i < s.len(),
        s[i] == s.filter(keep)[k],
        keep(s[i]),
    decreases s.len(),
{
    reveal(Seq::filter);
    let shorter = s.drop_last();
    if k < shorter.filter(keep).len() {
        lemma_filter_source(shorter, keep, k)
    } else {
        s.len() - 1
    }
}

/// A quote that is gone stood at its price before all those that are left there.
pub proof fn lemma_gone_stood_before(
    levels: Levels,
    side: Side,
    taker: Taker,
    quantity: int,
    i: int,
) -> (j: int)
    requires
        tidy(levels),
        quantity >= 0,
        0 <= i < gone(queue(levels, side), taker, quantity),
    ensures
        ({
            let q = queue(levels, side);
            let swept = sweep(q, taker, quantity);
            let p = q[i].price;
            &&& levels.contains_key(p)
            &&& 0 <= j < levels[p].len()
            &&& levels[p][j] == q[i].order
            &&& levels_of(swept.residue).contains_key(p) ==> j < levels[p].len() - levels_of(
                swept.residue,
            )[p].len()
        }),
{
    let q = queue(levels, side);
    let swept = sweep(q, taker, quantity);
    let p = q[i].price;
    let at_p = |x: Quote| x.price == p;
    lemma_residue_is_suffix(q, taker, quantity);
    let n = gone(q, taker, quantity);
    lemma_levels_of_queue(levels, side);
    assert(levels_of(q).contains_key(p));
    assert(q =~= q.take(n) + q.skip(n));
    Seq::filter_distributes_over_add(q.take(n), q.skip(n), at_p);
    lemma_filter_same(swept.residue, q.skip(n), p);
    let before = q.take(n).filter(at_p);
    q.take(n).lemma_filter_contains(at_p, i);
    let j = choose|j: int| 0 <= j < before.len() && before[j] == q.take(n)[i];
    assert(q.filter(at_p)[j] == before[j]);
    j
}

} // verus!
