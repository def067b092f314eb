//! What holds of the order book as a whole.

use crate::domain::{OrderId, Price, Quantity, Side};
use crate::model::{
    better, depth, fill_matches, fill_of, gone, gross_depth, is_first_with_id, levels_of, met,
    of_others, of_own, opposite, orders_at, position, reduced, sorted, sweep, trades_with,
    with_orders_at, BookView, Quote, Taker,
};
use crate::orderbook::{Fill, RestingOrder};
use crate::queue_lemmas::{lemma_levels_of_queue, lemma_position_is, lemma_sweep_unfilled};
use crate::sweep_lemmas::{
    lemma_filter_none, lemma_filter_source, lemma_filter_split, lemma_gone_stood_before,
    lemma_level_suffix, lemma_levels_of_tidy, lemma_queue_members, lemma_queue_sorted,
    lemma_residue_is_suffix, lemma_sweep_met,
};
use vstd::prelude::*;

verus! {

// ---------------------------------------------------------------------------
// Matching
// ---------------------------------------------------------------------------

/// The quantity of several trades together.
pub open spec fn total_filled(fills: Seq<Fill>) -> nat
    decreases fills.len(),
{
    if fills.len() == 0 {
        0
    } else {
        fills[0].quantity as nat + total_filled(fills.drop_first())
    }
}

/// Nothing is lost in matching: what traded and what did not trade add up to the
/// quantity of the order.
pub proof fn law_quantity_is_conserved(q: Seq<Quote>, taker: Taker, quantity: Quantity)
    ensures
        total_filled(sweep(q, taker, quantity as int).fills) + sweep(
            q,
            taker,
            quantity as int,
        ).unfilled == quantity,
    decreases q.len(),
{
    let whole = sweep(q, taker, quantity as int);
    if taker.stops(q, quantity as int) {
    } else if taker.owns(q[0]) {
        law_quantity_is_conserved(q.drop_first(), taker, quantity);
    } else if quantity < q[0].order.remaining {
        assert(whole.fills.drop_first() =~= Seq::empty());
        assert(total_filled(whole.fills.drop_first()) == 0);
    } else {
        let left = (quantity - q[0].order.remaining) as Quantity;
        law_quantity_is_conserved(q.drop_first(), taker, left);
        assert(whole.fills.drop_first() =~= sweep(q.drop_first(), taker, left as int).fills);
    }
}

/// Price-time priority. The orders that a taker meets stand in a queue. In the
/// queue a better price comes first, and the orders at one price stand in the order
/// in which they came to rest. The taker meets the orders from the front of the
/// queue without leaving one out: its trades are with the orders of other users
/// among them, in the order of the queue, and all but the last of these orders are
/// used up.
pub proof fn law_price_time_priority(book: BookView, taker: Taker, quantity: Quantity)
    requires
        book.tidy(),
    ensures
        ({
            let side = opposite(taker.side);
            let q = book.queue_for(taker.side);
            let swept = book.sweep(taker, quantity);
            let n = met(q, taker, quantity as int);
            let others = of_others(q.take(n), taker);
            &&& sorted(q, side)
            &&& levels_of(q) == book.side(side)
            &&& 0 <= n <= q.len()
            &&& swept.fills.len() == others.len()
            &&& forall|k: int|
                0 <= k < others.len() ==> fill_matches(#[trigger] swept.fills[k], others[k])
            &&& forall|k: int|
                0 <= k < others.len() - 1 ==> (#[trigger] swept.fills[k]).quantity
                    == others[k].order.remaining
        }),
{
    let side = opposite(taker.side);
    lemma_queue_sorted(book.side(side), side);
    lemma_levels_of_queue(book.side(side), side);
    lemma_sweep_met(book.queue_for(taker.side), taker, quantity as int);
}

/// Priority is kept. As long as an order still rests after a taker has matched, no order
/// with a lower priority was touched: those at worse prices are all as before, and so are
/// those behind the first order that is left at a price.
pub proof fn law_lower_priority_is_untouched(
    book: BookView,
    taker: Taker,
    quantity: Quantity,
    p: Price,
) -> (k: int)
    requires
        book.tidy(),
        book.matched(taker, quantity).side(opposite(taker.side)).contains_key(p),
    ensures
        ({
            let side = opposite(taker.side);
            let before = book.side(side);
            let after = book.matched(taker, quantity).side(side);
            &&& forall|r: Price| #[trigger]
                before.contains_key(r) && better(side, p, r) ==> after.contains_key(r)
                    && after[r] == before[r]
            &&& before.contains_key(p)
            &&& 0 <= k < before[p].len()
            &&& after[p].len() == before[p].len() - k
            &&& after[p][0].order_id == before[p][k].order_id
            &&& after[p][0].remaining <= before[p][k].remaining
            &&& forall|i: int|
                0 < i < after[p].len() ==> #[trigger] after[p][i] == before[p][i + k]
        }),
{
    let side = opposite(taker.side);
    let before = book.side(side);
    let after = book.matched(taker, quantity).side(side);
    let q = book.queue_for(taker.side);
    let residue = book.sweep(taker, quantity).residue;
    let m = gone(q, taker, quantity as int);
    lemma_queue_sorted(before, side);
    lemma_levels_of_queue(before, side);
    lemma_sweep_met(q, taker, quantity as int);
    lemma_residue_is_suffix(q, taker, quantity as int);
    let left = choose|i: int| 0 <= i < residue.len() && (#[trigger] residue[i]).price == p;
    assert(residue[left].price == q.skip(m)[left].price);
    assert(q[m + left].price == p);
    // The first quote that is left may be partly filled; the others are as before.
    let tail = q.skip(m + 1);
    assert(residue =~= seq![residue[0]] + tail);
    assert(q.skip(m) =~= seq![q[m]] + tail);
    assert(residue[0].price == q[m].price);
    assert forall|r: Price| #[trigger] before.contains_key(r) && better(side, p, r) implies
        after.contains_key(r) && after[r] == before[r] by {
        lemma_filter_split(q.take(m), residue[0], tail, r);
        lemma_filter_split(q.take(m), q[m], tail, r);
        assert(q =~= q.take(m) + (seq![q[m]] + tail));
        assert forall|j: int| 0 <= j < m implies (#[trigger] q.take(m)[j]).price != r by {
            assert(!better(side, q[m + left].price, q[j].price));
        }
        assert(q[m].price != r) by {
            assert(!better(side, q[m + left].price, q[m].price));
        }
        lemma_filter_none(q.take(m), r);
        let at_r = |x: Quote| x.price == r;
        assert(q.filter(at_r) =~= tail.filter(at_r));
        assert(residue.filter(at_r) =~= tail.filter(at_r));
        assert(levels_of(q).contains_key(r));
        let j = choose|j: int| 0 <= j < q.len() && (#[trigger] q[j]).price == r;
        assert(j > m) by {
            if j < m {
                assert(q.take(m)[j].price == r);
            }
        }
        assert(residue[j - m] == q[j]);
        assert(levels_of(residue).contains_key(r));
    }
    let at_p = |x: Quote| x.price == p;
    lemma_filter_split(q.take(m), residue[0], tail, p);
    lemma_filter_split(q.take(m), q[m], tail, p);
    assert(q =~= q.take(m) + (seq![q[m]] + tail));
    assert(levels_of(q).contains_key(p)) by {
        assert(q[m + left].price == p);
    }
    assert(levels_of(residue).contains_key(p));
    let k = q.take(m).filter(at_p).len() as int;
    if q[m].price == p {
        assert(residue.filter(at_p) =~= seq![residue[0]] + tail.filter(at_p));
        assert(q.filter(at_p) =~= q.take(m).filter(at_p) + (seq![q[m]] + tail.filter(at_p)));
    } else {
        assert(residue.filter(at_p) =~= tail.filter(at_p));
        assert(q.filter(at_p) =~= q.take(m).filter(at_p) + tail.filter(at_p));
        tail.lemma_filter_contains(at_p, left - 1);
    }
    k
}

/// Self-trade prevention. A taker trades with no order of its own user; those that
/// it meets are canceled, in the order in which it meets them.
pub proof fn law_no_self_trade(book: BookView, taker: Taker, quantity: Quantity)
    ensures
        ({
            let q = book.queue_for(taker.side);
            let swept = book.sweep(taker, quantity);
            let n = met(q, taker, quantity as int);
            &&& swept.canceled == of_own(q.take(n), taker).map_values(
                |x: Quote| x.order.order_id,
            )
            &&& forall|k: int|
                #![trigger swept.fills[k]]
                0 <= k < swept.fills.len() ==> exists|i: int|
                    0 <= i < n && fill_matches(swept.fills[k], #[trigger] q[i]) && !taker.owns(
                        q[i],
                    )
        }),
{
    let q = book.queue_for(taker.side);
    let swept = book.sweep(taker, quantity);
    lemma_sweep_met(q, taker, quantity as int);
    let n = met(q, taker, quantity as int);
    let is_other = |x: Quote| !taker.owns(x);
    let others = of_others(q.take(n), taker);
    assert forall|k: int| #![trigger swept.fills[k]] 0 <= k < swept.fills.len() implies exists|
        i: int,
    |
        0 <= i < n && fill_matches(swept.fills[k], #[trigger] q[i]) && !taker.owns(q[i]) by {
        assert(fill_matches(swept.fills[k], others[k]));
        let i = lemma_filter_source(q.take(n), is_other, k);
        assert(q[i] == others[k]);
    }
}

/// A taker trades only at prices that its limit and its protection admit, and
/// always at the price of the resting order.
pub proof fn law_trades_at_admitted_prices(book: BookView, taker: Taker, quantity: Quantity)
    ensures
        forall|k: int|
            0 <= k < book.sweep(taker, quantity).fills.len() ==> taker.admits(
                (#[trigger] book.sweep(taker, quantity).fills[k]).price,
            ),
{
    law_no_self_trade(book, taker, quantity);
    let q = book.queue_for(taker.side);
    lemma_sweep_met(q, taker, quantity as int);
    let fills = book.sweep(taker, quantity).fills;
    let n = met(q, taker, quantity as int);
    assert forall|k: int| 0 <= k < fills.len() implies taker.admits(
        (#[trigger] fills[k]).price,
    ) by {
        let i = choose|i: int|
            0 <= i < n && fill_matches(fills[k], #[trigger] q[i]) && !taker.owns(q[i]);
        assert(taker.admits(q[i].price));
    }
}

/// A taker stops only when it is done or when no order that it could trade with is
/// left: if it is not filled, no price that remains on the other side is admitted.
pub proof fn law_takers_exhaust_what_they_admit(book: BookView, taker: Taker, quantity: Quantity)
    requires
        book.tidy(),
        book.sweep(taker, quantity).unfilled > 0,
    ensures
        forall|p: Price| #[trigger]
            book.matched(taker, quantity).side(opposite(taker.side)).contains_key(p)
                ==> !taker.admits(p),
{
    let side = opposite(taker.side);
    let q = book.queue_for(taker.side);
    let residue = book.sweep(taker, quantity).residue;
    lemma_sweep_met(q, taker, quantity as int);
    lemma_queue_sorted(book.side(side), side);
    let n = met(q, taker, quantity as int);
    assert forall|p: Price| #[trigger]
        book.matched(taker, quantity).side(side).contains_key(p) implies !taker.admits(p) by {
        assert(levels_of(residue).contains_key(p));
        let i = choose|i: int| 0 <= i < residue.len() && (#[trigger] residue[i]).price == p;
        assert(residue[i] == q[n + i]);
        assert(!better(side, q[n + i].price, q[n].price));
    }
}

/// A fill-or-kill check that passes is kept: an order that the depth of the book
/// covers is filled in full, and one that it does not cover is not.
pub proof fn law_depth_decides_full_fill(book: BookView, taker: Taker, quantity: Quantity)
    ensures
        book.sweep(taker, quantity).unfilled == 0 <==> depth(book.queue_for(taker.side), taker)
            >= quantity,
{
    lemma_sweep_unfilled(book.queue_for(taker.side), taker, quantity as int);
}

/// Leaving the taker's own orders out can only lower what is on offer, so a check
/// against all orders may refuse early.
pub proof fn law_own_orders_never_add_depth(q: Seq<Quote>, taker: Taker)
    ensures
        depth(q, taker) <= gross_depth(q, taker),
    decreases q.len(),
{
    if q.len() > 0 {
        law_own_orders_never_add_depth(q.drop_first(), taker);
    }
}

// ---------------------------------------------------------------------------
// Resting orders and their index
// ---------------------------------------------------------------------------

/// An order rests on the book.
pub open spec fn rests(book: BookView, side: Side, p: Price, i: int) -> bool {
    book.side(side).contains_key(p) && 0 <= i < book.side(side)[p].len()
}

/// The id of an order that rests on the book.
pub open spec fn id_at(book: BookView, side: Side, p: Price, i: int) -> OrderId {
    book.side(side)[p][i].order_id
}

/// No resting order has this id.
pub open spec fn unused(book: BookView, order_id: OrderId) -> bool {
    forall|side: Side, p: Price, i: int|
        #![trigger id_at(book, side, p, i)]
        rests(book, side, p, i) ==> id_at(book, side, p, i) != order_id
}

/// The index knows where every resting order is and holds nothing else, and no two
/// orders share an id.
pub open spec fn indexed(book: BookView) -> bool {
    &&& book.entries_lead()
    &&& forall|side: Side, p: Price, i: int|
        #![trigger id_at(book, side, p, i)]
        rests(book, side, p, i) ==> book.index.contains_key(id_at(book, side, p, i))
            && book.index[id_at(book, side, p, i)] == (side, p)
    &&& forall|side: Side, p: Price, i: int, j: int|
        #![trigger id_at(book, side, p, i), id_at(book, side, p, j)]
        rests(book, side, p, i) && rests(book, side, p, j) && i != j ==> id_at(book, side, p, i)
            != id_at(book, side, p, j)
}

/// Where an order with an id rests, the index may lead to it.
proof fn lemma_leads(book: BookView, order_id: OrderId, i: int)
    requires
        book.index.contains_key(order_id),
        ({
            let (side, p) = book.index[order_id];
            rests(book, side, p, i) && id_at(book, side, p, i) == order_id
        }),
    ensures
        book.can_cancel(order_id),
{
    let (side, p) = book.index[order_id];
    lemma_some_position(book.side(side)[p], order_id, i);
}

/// Where the index leads to.
proof fn lemma_leads_to(book: BookView, order_id: OrderId) -> (i: int)
    requires
        book.can_cancel(order_id),
    ensures
        ({
            let (side, p) = book.index[order_id];
            rests(book, side, p, i) && id_at(book, side, p, i) == order_id
        }),
{
    let (side, p) = book.index[order_id];
    let orders = orders_at(book.side(side), p);
    let i = position(orders, order_id)->0;
    assert(is_first_with_id(orders, order_id, i));
    i
}

/// Resting an order leaves no entry of the index without an order.
pub(crate) proof fn lemma_rest_leads(
    book: BookView,
    side: Side,
    price: Price,
    order: RestingOrder,
)
    requires
        book.entries_lead(),
    ensures
        book.rest(side, price, order).entries_lead(),
{
    let after = book.rest(side, price, order);
    assert forall|id: OrderId| #[trigger] after.index.contains_key(id) implies after.can_cancel(
        id,
    ) by {
        if id == order.order_id {
            lemma_leads(after, id, after.side(side)[price].len() - 1);
        } else {
            assert(book.index.contains_key(id));
            let i = lemma_leads_to(book, id);
            lemma_leads(after, id, i);
        }
    }
}

/// Canceling an order leaves no entry of the index without an order.
pub(crate) proof fn lemma_cancel_leads(book: BookView, order_id: OrderId)
    requires
        book.entries_lead(),
    ensures
        book.cancel(order_id).entries_lead(),
{
    let after = book.cancel(order_id);
    assert forall|id: OrderId| #[trigger] after.index.contains_key(id) implies after.can_cancel(
        id,
    ) by {
        assert(book.index.contains_key(id));
        let i = lemma_leads_to(book, id);
        if book.can_cancel(order_id) && book.index[id] == book.index[order_id] {
            let (side, p) = book.index[order_id];
            let orders = orders_at(book.side(side), p);
            let at = position(orders, order_id)->0;
            assert(is_first_with_id(orders, order_id, at));
            let j = if i < at {
                i
            } else {
                i - 1
            };
            assert(orders.remove(at)[j] == orders[i]);
            lemma_leads(after, id, j);
        } else {
            lemma_leads(after, id, i);
        }
    }
}

/// Matching leaves no entry of the index without an order.
pub(crate) proof fn lemma_matched_leads(book: BookView, taker: Taker, quantity: Quantity)
    requires
        book.tidy(),
        book.entries_lead(),
    ensures
        book.matched(taker, quantity).entries_lead(),
{
    let taken = book.taken(taker, quantity);
    let after = book.matched(taker, quantity);
    let opp = opposite(taker.side);
    let levels = book.side(opp);
    let q = book.queue_for(taker.side);
    let swept = book.sweep(taker, quantity);
    let n = met(q, taker, quantity as int);
    let m = gone(q, taker, quantity as int);
    lemma_levels_of_queue(levels, opp);
    lemma_sweep_met(q, taker, quantity as int);
    lemma_residue_is_suffix(q, taker, quantity as int);
    assert forall|id: OrderId| #[trigger] after.index.contains_key(id) implies after.can_cancel(
        id,
    ) by {
        assert(book.index.contains_key(id));
        let (side, p) = book.index[id];
        let j = lemma_leads_to(book, id);
        if trades_with(swept.fills, id) {
            assert(taken.can_cancel(id));
        } else if side != opp {
            lemma_leads(after, id, j);
        } else {
            let at_p = |x: Quote| x.price == p;
            assert(levels_of(q).contains_key(p));
            let i = lemma_filter_source(q, at_p, j);
            assert(q[i].order == levels[p][j]);
            if i < m {
                assert(q.take(m)[i] == q[i] && q.take(n)[i] == q[i]);
                if taker.owns(q[i]) {
                    let is_own = |x: Quote| taker.owns(x);
                    q.take(m).lemma_filter_contains(is_own, i);
                    let own = of_own(q.take(m), taker);
                    let c = choose|c: int| 0 <= c < own.len() && own[c] == q[i];
                    assert(swept.canceled[c] == id);
                    assert(swept.canceled.to_set().contains(id));
                } else {
                    let is_other = |x: Quote| !taker.owns(x);
                    q.take(n).lemma_filter_contains(is_other, i);
                    let others = of_others(q.take(n), taker);
                    let k = choose|k: int| 0 <= k < others.len() && others[k] == q[i];
                    assert(fill_matches(swept.fills[k], others[k]));
                }
                assert(false);
            }
            let x = swept.residue[i - m];
            assert(x.price == p && x.order.order_id == id) by {
                assert(q.skip(m)[i - m] == q[i]);
            }
            swept.residue.lemma_filter_contains(at_p, i - m);
            let left = swept.residue.filter(at_p);
            let k = choose|k: int| 0 <= k < left.len() && left[k] == x;
            assert(levels_of(swept.residue).contains_key(p));
            assert(after.side(opp)[p][k] == x.order);
            lemma_leads(after, id, k);
        }
    }
}

/// The index does not outlive orders: every entry leads to an order, and resting,
/// canceling and matching keep it so. An order that is filled or canceled leaves no
/// entry behind.
pub proof fn law_index_entries_lead_to_orders(
    book: BookView,
    side: Side,
    price: Price,
    order: RestingOrder,
    order_id: OrderId,
    taker: Taker,
    quantity: Quantity,
)
    requires
        book.tidy(),
        book.entries_lead(),
    ensures
        book.rest(side, price, order).entries_lead(),
        book.cancel(order_id).entries_lead(),
        book.matched(taker, quantity).entries_lead(),
{
    lemma_rest_leads(book, side, price, order);
    lemma_cancel_leads(book, order_id);
    lemma_matched_leads(book, taker, quantity);
}

/// Forgetting orders that are used up changes no answer: what can be canceled is what
/// could be canceled if the index kept them.
pub proof fn law_clean_up_changes_no_answer(
    book: BookView,
    taker: Taker,
    quantity: Quantity,
    order_id: OrderId,
)
    ensures
        book.matched(taker, quantity).can_cancel(order_id) == book.taken(
            taker,
            quantity,
        ).can_cancel(order_id),
{
}

/// Where the index is in order, it has an entry for an id if and only if an order with
/// this id rests.
pub proof fn law_index_is_exact(book: BookView, order_id: OrderId)
    requires
        indexed(book),
    ensures
        book.index.contains_key(order_id) <==> !unused(book, order_id),
{
    if book.index.contains_key(order_id) {
        let i = lemma_leads_to(book, order_id);
        let (side, p) = book.index[order_id];
        assert(id_at(book, side, p, i) == order_id);
    }
}

/// An order whose id is not in use can be put on the book and stays indexed.
pub(crate) proof fn lemma_rest_indexed(
    book: BookView,
    side: Side,
    price: Price,
    order: RestingOrder,
)
    requires
        indexed(book),
        unused(book, order.order_id),
    ensures
        indexed(book.rest(side, price, order)),
{
    let after = book.rest(side, price, order);
    lemma_rest_leads(book, side, price, order);
    assert forall|s: Side, p: Price, i: int| #![trigger id_at(after, s, p, i)] rests(
        after,
        s,
        p,
        i,
    ) implies after.index.contains_key(id_at(after, s, p, i)) && after.index[id_at(after, s, p, i)]
        == (s, p) by {
        if rests(book, s, p, i) {
            assert(id_at(after, s, p, i) == id_at(book, s, p, i));
        }
    }
    assert forall|s: Side, p: Price, i: int, j: int|
        #![trigger id_at(after, s, p, i), id_at(after, s, p, j)]
        rests(after, s, p, i) && rests(after, s, p, j) && i != j implies id_at(after, s, p, i)
        != id_at(after, s, p, j) by {
        if rests(book, s, p, i) {
            assert(id_at(after, s, p, i) == id_at(book, s, p, i));
        }
        if rests(book, s, p, j) {
            assert(id_at(after, s, p, j) == id_at(book, s, p, j));
        }
    }
}

/// Canceling keeps the other orders indexed.
pub(crate) proof fn lemma_cancel_indexed(book: BookView, order_id: OrderId)
    requires
        indexed(book),
    ensures
        indexed(book.cancel(order_id)),
        unused(book.cancel(order_id), order_id),
        forall|id: OrderId| #[trigger] unused(book, id) ==> unused(book.cancel(order_id), id),
{
    let after = book.cancel(order_id);
    lemma_cancel_leads(book, order_id);
    // Where an order of the new book was before.
    let was = |s: Side, p: Price, i: int| -> int {
        if book.can_cancel(order_id) && book.index[order_id] == (s, p) && i >= position(
            orders_at(book.side(s), p),
            order_id,
        )->0 {
            i + 1
        } else {
            i
        }
    };
    assert forall|s: Side, p: Price, i: int| #![trigger id_at(after, s, p, i)] rests(
        after,
        s,
        p,
        i,
    ) implies rests(book, s, p, was(s, p, i)) && id_at(after, s, p, i) == id_at(
        book,
        s,
        p,
        was(s, p, i),
    ) && id_at(after, s, p, i) != order_id by {
        let j = was(s, p, i);
        if book.can_cancel(order_id) {
            let (side, price) = book.index[order_id];
            let orders = orders_at(book.side(side), price);
            let at = position(orders, order_id)->0;
            assert(is_first_with_id(orders, order_id, at));
            assert(rests(book, side, price, at));
            assert(id_at(book, side, price, at) == order_id);
            if (s, p) == (side, price) {
                assert(after.side(s)[p] == orders.remove(at));
            }
            assert(rests(book, s, p, j));
            assert(id_at(after, s, p, i) == id_at(book, s, p, j));
        } else {
            assert(rests(book, s, p, j));
            assert(id_at(after, s, p, i) == id_at(book, s, p, j));
            if id_at(book, s, p, j) == order_id {
                assert(book.index[order_id] == (s, p));
                lemma_some_position(orders_at(book.side(s), p), order_id, j);
            }
        }
    }
    assert forall|s: Side, p: Price, i: int, j: int|
        #![trigger id_at(after, s, p, i), id_at(after, s, p, j)]
        rests(after, s, p, i) && rests(after, s, p, j) && i != j implies id_at(after, s, p, i)
        != id_at(after, s, p, j) by {
        assert(was(s, p, i) != was(s, p, j));
        assert(id_at(after, s, p, i) == id_at(book, s, p, was(s, p, i)));
        assert(id_at(after, s, p, j) == id_at(book, s, p, was(s, p, j)));
    }
}

/// An id that occurs in a queue has a first place there.
pub(crate) proof fn lemma_some_position(orders: Seq<RestingOrder>, order_id: OrderId, i: int)
    requires
        0 <= i < orders.len(),
        orders[i].order_id == order_id,
    ensures
        position(orders, order_id) is Some,
    decreases i,
{
    if is_first_with_id(orders, order_id, i) {
    } else {
        let j = choose|j: int| 0 <= j < i && (#[trigger] orders[j]).order_id == order_id;
        lemma_some_position(orders, order_id, j);
    }
}

/// Matching keeps the orders that are left indexed, and frees the ids of those that
/// are gone.
pub(crate) proof fn lemma_matched_indexed(book: BookView, taker: Taker, quantity: Quantity)
    requires
        book.tidy(),
        indexed(book),
    ensures
        indexed(book.matched(taker, quantity)),
        forall|order_id: OrderId| #[trigger]
            unused(book, order_id) ==> unused(book.matched(taker, quantity), order_id),
        forall|i: int|
            0 <= i < gone(book.queue_for(taker.side), taker, quantity as int) ==> unused(
                book.matched(taker, quantity),
                (#[trigger] book.queue_for(taker.side)[i]).order.order_id,
            ),
{
    let taken = book.taken(taker, quantity);
    let after = book.matched(taker, quantity);
    let opp = opposite(taker.side);
    let q = book.queue_for(taker.side);
    let swept = book.sweep(taker, quantity);
    lemma_residue_is_suffix(q, taker, quantity as int);
    let n = gone(q, taker, quantity as int);
    lemma_matched_leads(book, taker, quantity);
    // Where an order of the new book was before.
    let shift = |s: Side, p: Price| -> int {
        if s == opp {
            book.side(s)[p].len() - after.side(s)[p].len()
        } else {
            0
        }
    };
    assert forall|s: Side, p: Price, i: int| #![trigger id_at(after, s, p, i)] rests(
        after,
        s,
        p,
        i,
    ) implies rests(book, s, p, i + shift(s, p)) && id_at(after, s, p, i) == id_at(
        book,
        s,
        p,
        i + shift(s, p),
    ) && shift(s, p) >= 0 by {
        if s == opp {
            let k = lemma_level_suffix(book.side(opp), opp, taker, quantity as int, p);
            assert(after.side(s)[p][i].order_id == book.side(s)[p][i + k].order_id);
        }
    }
    // The ids of orders that are gone are not in use any more.
    assert forall|c: int| 0 <= c < n implies unused(
        after,
        (#[trigger] q[c]).order.order_id,
    ) by {
        let id = q[c].order.order_id;
        let j = lemma_gone_stood_before(book.side(opp), opp, taker, quantity as int, c);
        let r = q[c].price;
        assert(rests(book, opp, r, j));
        assert(id_at(book, opp, r, j) == id);
        assert forall|s: Side, p: Price, i: int| #![trigger id_at(after, s, p, i)] rests(
            after,
            s,
            p,
            i,
        ) implies id_at(after, s, p, i) != id by {
            let was = i + shift(s, p);
            assert(id_at(after, s, p, i) == id_at(book, s, p, was));
            if id_at(book, s, p, was) == id {
                assert((s, p) == (opp, r));
                assert(was != j);
            }
        }
    }
    assert forall|s: Side, p: Price, i: int| #![trigger id_at(after, s, p, i)] rests(
        after,
        s,
        p,
        i,
    ) implies after.index.contains_key(id_at(after, s, p, i)) && after.index[id_at(after, s, p, i)]
        == (s, p) by {
        let id = id_at(after, s, p, i);
        assert(rests(book, s, p, i + shift(s, p)));
        if swept.canceled.contains(id) {
            let c = choose|c: int| 0 <= c < swept.canceled.len() && swept.canceled[c] == id;
            let is_own = |x: Quote| taker.owns(x);
            let at = lemma_filter_source(q.take(n), is_own, c);
            assert(q[at].order.order_id == id);
            assert(unused(after, id));
        }
        assert(!swept.canceled.to_set().contains(id));
        assert(taken.index[id] == (s, p));
        lemma_leads(taken, id, i);
    }
    assert forall|s: Side, p: Price, i: int, j: int|
        #![trigger id_at(after, s, p, i), id_at(after, s, p, j)]
        rests(after, s, p, i) && rests(after, s, p, j) && i != j implies id_at(after, s, p, i)
        != id_at(after, s, p, j) by {
        assert(id_at(after, s, p, i) == id_at(book, s, p, i + shift(s, p)));
        assert(id_at(after, s, p, j) == id_at(book, s, p, j + shift(s, p)));
    }
    assert forall|order_id: OrderId| #[trigger] unused(book, order_id) implies unused(
        after,
        order_id,
    ) by {
        assert forall|s: Side, p: Price, i: int| #![trigger id_at(after, s, p, i)] rests(
            after,
            s,
            p,
            i,
        ) implies id_at(after, s, p, i) != order_id by {
            assert(id_at(after, s, p, i) == id_at(book, s, p, i + shift(s, p)));
        }
    }
}

/// Every listed price keeps an order: resting, canceling and matching leave no empty
/// price level behind.
pub proof fn law_levels_stay_tidy(
    book: BookView,
    side: Side,
    price: Price,
    order: RestingOrder,
    order_id: OrderId,
    taker: Taker,
    quantity: Quantity,
)
    requires
        book.tidy(),
    ensures
        book.rest(side, price, order).tidy(),
        book.cancel(order_id).tidy(),
        book.matched(taker, quantity).tidy(),
{
    lemma_levels_of_tidy(book.sweep(taker, quantity).residue);
}

/// Canceling undoes resting: an order whose id nobody at its price has can be
/// canceled at once, and both sides of the book are then as before.
pub proof fn law_cancel_undoes_rest(
    book: BookView,
    side: Side,
    price: Price,
    order: RestingOrder,
)
    requires
        book.tidy(),
        position(orders_at(book.side(side), price), order.order_id) is None,
    ensures
        book.rest(side, price, order).can_cancel(order.order_id),
        book.rest(side, price, order).cancel(order.order_id) == (BookView {
            index: book.index.remove(order.order_id),
            ..book
        }),
{
    let rested = book.rest(side, price, order);
    let before = orders_at(book.side(side), price);
    let orders = orders_at(rested.side(side), price);
    let last = before.len() as int;
    assert(orders =~= before.push(order));
    assert forall|j: int| 0 <= j < last implies (#[trigger] orders[j]).order_id
        != order.order_id by {
        if before[j].order_id == order.order_id {
            lemma_some_position(before, order.order_id, j);
        }
    }
    lemma_position_is(orders, order.order_id, last);
    assert(orders.remove(last) =~= before);
    let after = rested.cancel(order.order_id);
    assert(after.side(side) =~= book.side(side));
    assert(after.index =~= book.index.remove(order.order_id));
}

/// An order can be canceled once only, and a cancel that finds nothing leaves both
/// sides of the book alone.
pub proof fn law_cancel_is_final(book: BookView, order_id: OrderId)
    ensures
        !book.cancel(order_id).can_cancel(order_id),
        !book.can_cancel(order_id) ==> book.cancel(order_id).bids == book.bids && book.cancel(
            order_id,
        ).asks == book.asks,
{
}

/// An order that rests can be canceled, and canceling takes this one order off the
/// book and no other.
pub proof fn law_resting_orders_can_be_canceled(book: BookView, side: Side, p: Price, i: int)
    requires
        indexed(book),
        rests(book, side, p, i),
    ensures
        book.can_cancel(id_at(book, side, p, i)),
        book.cancel(id_at(book, side, p, i)) == (BookView {
            index: book.index.remove(id_at(book, side, p, i)),
            ..book.with_side(
                side,
                with_orders_at(book.side(side), p, book.side(side)[p].remove(i)),
            )
        }),
{
    let id = id_at(book, side, p, i);
    let orders = book.side(side)[p];
    assert forall|j: int| 0 <= j < i implies (#[trigger] orders[j]).order_id != id by {
        assert(rests(book, side, p, j));
        assert(id_at(book, side, p, j) != id);
    }
    lemma_position_is(orders, id, i);
}

/// An id that no resting order has cannot be canceled.
pub proof fn law_unused_ids_cannot_be_canceled(book: BookView, order_id: OrderId)
    requires
        unused(book, order_id),
    ensures
        !book.can_cancel(order_id),
{
    if book.can_cancel(order_id) {
        let (side, price) = book.index[order_id];
        let orders = orders_at(book.side(side), price);
        let i = position(orders, order_id)->0;
        assert(is_first_with_id(orders, order_id, i));
        assert(rests(book, side, price, i));
        assert(id_at(book, side, price, i) == order_id);
    }
}

/// An order that a taker has used up, or has canceled as its own, is off the book: it
/// cannot be canceled any more, and the index has forgotten it.
pub proof fn law_orders_that_are_gone_cannot_be_canceled(
    book: BookView,
    taker: Taker,
    quantity: Quantity,
    i: int,
)
    requires
        book.tidy(),
        indexed(book),
        0 <= i < gone(book.queue_for(taker.side), taker, quantity as int),
    ensures
        unused(
            book.matched(taker, quantity),
            book.queue_for(taker.side)[i].order.order_id,
        ),
        !book.matched(taker, quantity).can_cancel(book.queue_for(taker.side)[i].order.order_id),
        !book.matched(taker, quantity).index.contains_key(
            book.queue_for(taker.side)[i].order.order_id,
        ),
{
    lemma_matched_indexed(book, taker, quantity);
    let id = book.queue_for(taker.side)[i].order.order_id;
    law_unused_ids_cannot_be_canceled(book.matched(taker, quantity), id);
}

// ---------------------------------------------------------------------------
// Crossing
// ---------------------------------------------------------------------------

/// Every bid is below every ask.
pub open spec fn uncrossed(book: BookView) -> bool {
    forall|b: Price, a: Price| #[trigger]
        book.bids.contains_key(b) && #[trigger] book.asks.contains_key(a) ==> b < a
}

/// A taker lists no price that was not listed before.
pub(crate) proof fn lemma_matched_prices(book: BookView, taker: Taker, quantity: Quantity, p: Price)
    requires
        book.tidy(),
        book.matched(taker, quantity).side(opposite(taker.side)).contains_key(p),
    ensures
        book.side(opposite(taker.side)).contains_key(p),
{
    let side = opposite(taker.side);
    let k = lemma_level_suffix(book.side(side), side, taker, quantity as int, p);
}

/// Every resting order has something left to trade.
pub open spec fn nonzero(book: BookView) -> bool {
    forall|side: Side, p: Price, i: int| #[trigger]
        rests(book, side, p, i) ==> book.side(side)[p][i].remaining > 0
}

/// Where every quote is worth something, so is every trade and every quote that is left.
proof fn lemma_sweep_nonzero(q: Seq<Quote>, taker: Taker, quantity: int)
    requires
        0 <= quantity <= Quantity::MAX,
        forall|i: int| 0 <= i < q.len() ==> (#[trigger] q[i]).order.remaining > 0,
    ensures
        forall|k: int|
            0 <= k < sweep(q, taker, quantity).fills.len() ==> (#[trigger] sweep(
                q,
                taker,
                quantity,
            ).fills[k]).quantity > 0,
        forall|k: int|
            0 <= k < sweep(q, taker, quantity).residue.len() ==> (#[trigger] sweep(
                q,
                taker,
                quantity,
            ).residue[k]).order.remaining > 0,
    decreases q.len(),
{
    let whole = sweep(q, taker, quantity);
    let tail = q.drop_first();
    if taker.stops(q, quantity) {
        assert(whole.fills.len() == 0 && whole.residue == q);
    } else if taker.owns(q[0]) {
        let next = sweep(tail, taker, quantity);
        lemma_sweep_nonzero(tail, taker, quantity);
        assert(whole.fills == next.fills && whole.residue == next.residue);
    } else if quantity < q[0].order.remaining {
        assert(whole.fills =~= seq![fill_of(q[0], quantity)]);
        assert(whole.fills[0].quantity > 0);
        assert(whole.residue =~= seq![reduced(q[0], quantity)] + tail);
        assert forall|k: int| 0 <= k < whole.residue.len() implies (
        #[trigger] whole.residue[k]).order.remaining > 0 by {
            if k > 0 {
                assert(whole.residue[k] == q[k]);
            }
        }
    } else {
        let next = sweep(tail, taker, quantity - q[0].order.remaining);
        lemma_sweep_nonzero(tail, taker, quantity - q[0].order.remaining);
        assert(whole.residue == next.residue);
        assert forall|k: int| 0 <= k < whole.fills.len() implies (
        #[trigger] whole.fills[k]).quantity > 0 by {
            if k > 0 {
                assert(whole.fills[k] == next.fills[k - 1]);
            }
        }
    }
}

/// No trade is empty, and matching leaves no empty order behind.
pub proof fn law_trades_are_not_empty(book: BookView, taker: Taker, quantity: Quantity)
    requires
        book.tidy(),
        nonzero(book),
    ensures
        forall|k: int|
            0 <= k < book.sweep(taker, quantity).fills.len() ==> (#[trigger] book.sweep(
                taker,
                quantity,
            ).fills[k]).quantity > 0,
        nonzero(book.matched(taker, quantity)),
{
    let side = opposite(taker.side);
    let q = book.queue_for(taker.side);
    let after = book.matched(taker, quantity);
    let residue = book.sweep(taker, quantity).residue;
    assert forall|i: int| 0 <= i < q.len() implies (#[trigger] q[i]).order.remaining > 0 by {
        lemma_queue_members(book.side(side), side, i);
        let orders = book.side(side)[q[i].price];
        let j = choose|j: int| 0 <= j < orders.len() && orders[j] == q[i].order;
        assert(rests(book, side, q[i].price, j));
    }
    lemma_sweep_nonzero(q, taker, quantity as int);
    assert forall|s: Side, p: Price, i: int| #[trigger] rests(after, s, p, i) implies after.side(
        s,
    )[p][i].remaining > 0 by {
        if s == side {
            let at_p = |x: Quote| x.price == p;
            let k = lemma_filter_source(residue, at_p, i);
            assert(after.side(s)[p][i] == residue[k].order);
        } else {
            assert(rests(book, s, p, i));
        }
    }
}

} // verus!
