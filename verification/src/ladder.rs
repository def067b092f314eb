//! One side of a book as a map from prices to levels, and what a taker does to it.

use crate::domain::{OrderId, Price, Quantity, Side};
use crate::model::{
    better, depth, fill_of, gross_depth, is_best, levels_of, opposite, orders_at, position, queue,
    quotes, reduced, sum_remaining, sweep, tidy, with_orders_at, Levels, Quote, Sweep, Taker,
};
use crate::orderbook::{Fill, MatchOutcome, OrderBook, PriceLevel, RestingOrder};
use crate::queue_lemmas::{
    lemma_levels_of_queue, lemma_position_is, lemma_queue_empty, lemma_queue_front,
    lemma_sum_first, lemma_sum_remove,
};
use std::collections::btree_map::Iter;
use std::collections::{BTreeMap, VecDeque};
use vstd::prelude::*;
use vstd::std_specs::btree::increasing_seq;
use vstd::std_specs::iter::IteratorSpec;

verus! {

/// The orders at each price of a ladder.
pub open spec fn ladder_levels(ladder: Map<Price, PriceLevel>) -> Levels {
    ladder.map_values(|level: PriceLevel| level.orders@)
}

/// Every level has an order, and its cached total is the quantity of its orders.
pub open spec fn ladder_wf(ladder: Map<Price, PriceLevel>) -> bool {
    &&& ladder.dom().finite()
    &&& forall|p: Price| #[trigger] ladder.contains_key(p) ==> ladder[p].wf()
}

/// A well-formed ladder lists no price without an order.
pub proof fn lemma_ladder_tidy(ladder: Map<Price, PriceLevel>)
    requires
        ladder_wf(ladder),
    ensures
        tidy(ladder_levels(ladder)),
        ladder_levels(ladder).dom() == ladder.dom(),
{
    assert(ladder_levels(ladder).dom() =~= ladder.dom());
    assert forall|p: Price| #[trigger]
        ladder_levels(ladder).contains_key(p) implies ladder_levels(ladder)[p].len() > 0 by {
        assert(ladder.contains_key(p));
    }
}

/// The next item of an iterator.
fn next<I: Iterator>(it: &mut I) -> (item: Option<I::Item>)
    requires
        IteratorSpec::obeys_prophetic_iter_laws(&*old(it)),
        IteratorSpec::decrease(&*old(it)) is Some,
    ensures
        IteratorSpec::obeys_prophetic_iter_laws(&*final(it)),
        IteratorSpec::decrease(&*final(it)) is Some,
        match item {
            Some(x) => {
                &&& IteratorSpec::remaining(&*old(it)).len() > 0
                &&& x == IteratorSpec::remaining(&*old(it)).first()
                &&& IteratorSpec::remaining(&*final(it)) == IteratorSpec::remaining(
                    &*old(it),
                ).drop_first()
                &&& IteratorSpec::decrease(&*old(it))->0 > IteratorSpec::decrease(&*final(it))->0
            },
            None => IteratorSpec::remaining(&*old(it)).len() == 0,
        },
{
    it.next()
}

/// The next item of an iterator from its end.
fn next_back<I: DoubleEndedIterator>(it: &mut I) -> (item: Option<I::Item>)
    requires
        IteratorSpec::obeys_prophetic_iter_laws(&*old(it)),
        IteratorSpec::decrease(&*old(it)) is Some,
    ensures
        IteratorSpec::obeys_prophetic_iter_laws(&*final(it)),
        IteratorSpec::decrease(&*final(it)) is Some,
        match item {
            Some(x) => {
                &&& IteratorSpec::remaining(&*old(it)).len() > 0
                &&& x == IteratorSpec::remaining(&*old(it)).last()
                &&& IteratorSpec::remaining(&*final(it)) == IteratorSpec::remaining(
                    &*old(it),
                ).drop_last()
                &&& IteratorSpec::decrease(&*old(it))->0 > IteratorSpec::decrease(&*final(it))->0
            },
            None => IteratorSpec::remaining(&*old(it)).len() == 0,
        },
{
    it.next_back()
}

/// The entries of a ladder in ascending order of price.
pub open spec fn ascending(
    entries: Seq<(&Price, &PriceLevel)>,
    ladder: Map<Price, PriceLevel>,
) -> bool {
    &&& forall|i: int, j: int|
        0 <= i < j < entries.len() ==> *(#[trigger] entries[i]).0 < *(#[trigger] entries[j]).0
    &&& forall|i: int|
        0 <= i < entries.len() ==> ladder.contains_key(*(#[trigger] entries[i]).0)
            && ladder[*entries[i].0] == *entries[i].1
    &&& forall|p: Price| #[trigger]
        ladder.contains_key(p) ==> exists|i: int|
            0 <= i < entries.len() && *(#[trigger] entries[i]).0 == p
}

/// Prices that increase in the order of their type increase as numbers.
proof fn lemma_increasing(keys: Seq<Price>)
    requires
        increasing_seq(keys),
    ensures
        forall|i: int, j: int| 0 <= i < j < keys.len() ==> keys[i] < keys[j],
{
    assert forall|i: int, j: int| 0 <= i < j < keys.len() implies keys[i] < keys[j] by {
        assert(vstd::std_specs::cmp::OrdSpec::cmp_spec(&keys[i], &keys[j]) is Less);
    }
}

/// All the entries of a ladder.
fn entries(ladder: &BTreeMap<Price, PriceLevel>) -> (it: Iter<'_, Price, PriceLevel>)
    ensures
        IteratorSpec::obeys_prophetic_iter_laws(&it),
        IteratorSpec::decrease(&it) is Some,
        ascending(IteratorSpec::remaining(&it), ladder@),
{
    let it = ladder.iter();
    proof {
        let s = it.remaining();
        let keys = s.map_values(|kv: (&Price, &PriceLevel)| *kv.0);
        lemma_increasing(keys);
        assert forall|i: int, j: int| 0 <= i < j < s.len() implies *(#[trigger] s[i]).0 < *(
        #[trigger] s[j]).0 by {
            assert(keys[i] < keys[j]);
        }
        assert forall|p: Price| #[trigger] ladder@.contains_key(p) implies exists|i: int|
            0 <= i < s.len() && *(#[trigger] s[i]).0 == p by {
            assert(s.contains((&p, &ladder@[p])));
            let i = choose|i: int| 0 <= i < s.len() && s[i] == (&p, &ladder@[p]);
            assert(*s[i].0 == p);
        }
    }
    it
}

/// The next level in priority order.
fn next_level<'a>(it: &mut Iter<'a, Price, PriceLevel>, side: Side) -> (item: Option<
    (&'a Price, &'a PriceLevel),
>)
    requires
        IteratorSpec::obeys_prophetic_iter_laws(&*old(it)),
        IteratorSpec::decrease(&*old(it)) is Some,
    ensures
        IteratorSpec::obeys_prophetic_iter_laws(&*final(it)),
        IteratorSpec::decrease(&*final(it)) is Some,
        match item {
            Some(x) => {
                &&& IteratorSpec::remaining(&*old(it)).len() > 0
                &&& x == first_entry(IteratorSpec::remaining(&*old(it)), side)
                &&& IteratorSpec::remaining(&*final(it)) == other_entries(
                    IteratorSpec::remaining(&*old(it)),
                    side,
                )
                &&& IteratorSpec::decrease(&*old(it))->0 > IteratorSpec::decrease(&*final(it))->0
            },
            None => IteratorSpec::remaining(&*old(it)).len() == 0,
        },
{
    match side {
        Side::Buy => next_back(it),
        Side::Sell => next(it),
    }
}

/// The first of the ascending entries in priority order: bids are met from the highest.
pub open spec fn first_entry<T>(entries: Seq<T>, side: Side) -> T {
    match side {
        Side::Buy => entries.last(),
        Side::Sell => entries.first(),
    }
}

/// The entries that come after it.
pub open spec fn other_entries<T>(entries: Seq<T>, side: Side) -> Seq<T> {
    match side {
        Side::Buy => entries.drop_last(),
        Side::Sell => entries.drop_first(),
    }
}

/// The first of the ascending entries in priority order holds the best price.
proof fn lemma_first_entry_best(
    entries: Seq<(&Price, &PriceLevel)>,
    ladder: Map<Price, PriceLevel>,
    side: Side,
)
    requires
        ascending(entries, ladder),
        entries.len() > 0,
    ensures
        is_best(ladder_levels(ladder), side, *first_entry(entries, side).0),
        ladder[*first_entry(entries, side).0] == *first_entry(entries, side).1,
        ascending(other_entries(entries, side), ladder.remove(*first_entry(entries, side).0)),
{
    let levels = ladder_levels(ladder);
    let k = match side {
        Side::Buy => entries.len() - 1,
        Side::Sell => 0,
    };
    let p = *entries[k].0;
    assert(first_entry(entries, side) == entries[k]);
    assert(levels.contains_key(p));
    assert forall|q: Price| levels.contains_key(q) implies !better(side, q, p) by {
        assert(ladder.contains_key(q));
        let i = choose|i: int| 0 <= i < entries.len() && *(#[trigger] entries[i]).0 == q;
    }
    let rest = other_entries(entries, side);
    let offset = match side {
        Side::Buy => 0int,
        Side::Sell => 1int,
    };
    assert(forall|i: int| 0 <= i < rest.len() ==> #[trigger] rest[i] == entries[i + offset]);
    assert forall|q: Price| #[trigger] ladder.remove(p).contains_key(q) implies exists|i: int|
        0 <= i < rest.len() && *(#[trigger] rest[i]).0 == q by {
        assert(ladder.contains_key(q));
        let i = choose|i: int| 0 <= i < entries.len() && *(#[trigger] entries[i]).0 == q;
        assert(*rest[i - offset].0 == q);
    }
}

/// The best price of a ladder.
pub(crate) fn best_price(ladder: &BTreeMap<Price, PriceLevel>, side: Side) -> (price: Option<Price>)
    ensures
        match price {
            Some(p) => is_best(ladder_levels(ladder@), side, p),
            None => ladder@.dom().is_empty(),
        },
{
    let mut it = entries(ladder);
    let ghost s = it.remaining();
    match next_level(&mut it, side) {
        Some((price, _)) => {
            proof {
                lemma_first_entry_best(s, ladder@, side);
            }
            Some(*price)
        },
        None => {
            assert forall|p: Price| !ladder@.dom().contains(p) by {
                if ladder@.contains_key(p) {
                    let i = choose|i: int| 0 <= i < s.len() && *(#[trigger] s[i]).0 == p;
                }
            }
            None
        },
    }
}

impl Taker {
    /// Whether the taker may trade at this price.
    pub(crate) fn may_trade_at(&self, price: Price) -> (b: bool)
        ensures
            b == self.admits(price),
    {
        if !self.is_market && !OrderBook::price_crosses(self.side, self.limit_price, price) {
            return false;
        }
        match self.protection {
            Some(bound) => OrderBook::price_crosses(self.side, bound, price),
            None => true,
        }
    }
}

/// Sweeping the quotes of one level and then `tail`, by the first order of the level.
proof fn lemma_sweep_step(
    price: Price,
    orders: Seq<RestingOrder>,
    tail: Seq<Quote>,
    taker: Taker,
    quantity: int,
)
    requires
        orders.len() > 0,
        quantity > 0,
        taker.admits(price),
    ensures
        ({
            let first = Quote { price, order: orders[0] };
            let whole = sweep(quotes(price, orders) + tail, taker, quantity);
            let others = quotes(price, orders.drop_first()) + tail;
            if taker.owns(first) {
                let next = sweep(others, taker, quantity);
                whole == (Sweep { canceled: seq![orders[0].order_id] + next.canceled, ..next })
            } else if quantity < orders[0].remaining {
                let kept = RestingOrder {
                    remaining: (orders[0].remaining - quantity) as Quantity,
                    ..orders[0]
                };
                whole == (Sweep {
                    fills: seq![fill_of(first, quantity)],
                    canceled: Seq::empty(),
                    unfilled: 0,
                    residue: quotes(price, seq![kept] + orders.drop_first()) + tail,
                })
            } else {
                let traded = orders[0].remaining as int;
                let next = sweep(others, taker, quantity - traded);
                whole == (Sweep { fills: seq![fill_of(first, traded)] + next.fills, ..next })
            }
        }),
{
    let whole = quotes(price, orders) + tail;
    assert(whole[0] == (Quote { price, order: orders[0] }));
    assert(whole.drop_first() =~= quotes(price, orders.drop_first()) + tail);
    let kept = RestingOrder {
        remaining: (orders[0].remaining - quantity) as Quantity,
        ..orders[0]
    };
    assert(seq![reduced(whole[0], quantity)] + whole.drop_first() =~= quotes(
        price,
        seq![kept] + orders.drop_first(),
    ) + tail);
}

/// What has been done so far, followed by a sweep of what is still to be done.
pub open spec fn resumed(
    fills: Seq<Fill>,
    canceled: Seq<OrderId>,
    rest: Seq<Quote>,
    taker: Taker,
    quantity: Quantity,
) -> Sweep {
    let next = sweep(rest, taker, quantity as int);
    Sweep { fills: fills + next.fills, canceled: canceled + next.canceled, ..next }
}

/// A taker matches against one level, at a price that it admits.
fn match_level(
    level: &mut PriceLevel,
    price: Price,
    taker: &Taker,
    quantity: Quantity,
    fills: &mut Vec<Fill>,
    stp_canceled: &mut Vec<OrderId>,
    Ghost(tail): Ghost<Seq<Quote>>,
) -> (remaining: Quantity)
    requires
        old(level).total == sum_remaining(old(level).orders@),
        taker.admits(price),
    ensures
        final(level).total == sum_remaining(final(level).orders@),
        remaining == 0 || final(level).orders@.len() == 0,
        resumed(
            final(fills)@,
            final(stp_canceled)@,
            quotes(price, final(level).orders@) + tail,
            *taker,
            remaining,
        ) == resumed(
            old(fills)@,
            old(stp_canceled)@,
            quotes(price, old(level).orders@) + tail,
            *taker,
            quantity,
        ),
{
    let ghost whole = resumed(
        fills@,
        stp_canceled@,
        quotes(price, level.orders@) + tail,
        *taker,
        quantity,
    );
    let mut remaining: Quantity = quantity;
    while remaining > 0 && level.orders.len() > 0
        invariant
            level.total == sum_remaining(level.orders@),
            taker.admits(price),
            whole == resumed(
                fills@,
                stp_canceled@,
                quotes(price, level.orders@) + tail,
                *taker,
                remaining,
            ),
        decreases level.orders@.len(), remaining,
    {
        let ghost orders = level.orders@;
        let ghost fills_before = fills@;
        let ghost canceled_before = stp_canceled@;
        proof {
            lemma_sweep_step(price, orders, tail, *taker, remaining as int);
            lemma_sum_first(orders);
        }
        if let Some(mut maker) = level.orders.pop_front() {
            assert(level.orders@ =~= orders.drop_first());
            if maker.user_id == taker.user_id {
                level.total = level.total - maker.remaining;
                stp_canceled.push(maker.order_id);
                assert(canceled_before + (seq![maker.order_id] + sweep(
                    quotes(price, level.orders@) + tail,
                    *taker,
                    remaining as int,
                ).canceled) =~= stp_canceled@ + sweep(
                    quotes(price, level.orders@) + tail,
                    *taker,
                    remaining as int,
                ).canceled);
            } else {
                let traded = if remaining < maker.remaining {
                    remaining
                } else {
                    maker.remaining
                };
                let ghost wanted = remaining as int;
                level.total = level.total - traded;
                remaining = remaining - traded;
                fills.push(Fill { maker_order_id: maker.order_id, price, quantity: traded });
                maker.remaining = maker.remaining - traded;
                if maker.remaining > 0 {
                    level.orders.push_front(maker);
                    proof {
                        lemma_sum_first(level.orders@);
                        assert(level.orders@.drop_first() =~= orders.drop_first());
                    }
                }
                assert(fills_before + (seq![
                    Fill { maker_order_id: orders[0].order_id, price, quantity: traded },
                ] + sweep(
                    quotes(price, level.orders@) + tail,
                    *taker,
                    remaining as int,
                ).fills) =~= fills@ + sweep(
                    quotes(price, level.orders@) + tail,
                    *taker,
                    remaining as int,
                ).fills);
            }
        }
    }
    remaining
}

/// A taker matches against a ladder.
pub(crate) fn match_ladder(
    ladder: &mut BTreeMap<Price, PriceLevel>,
    taker: &Taker,
    quantity: Quantity,
) -> (outcome: MatchOutcome)
    requires
        ladder_wf(old(ladder)@),
    ensures
        ladder_wf(final(ladder)@),
        ({
            let side = opposite(taker.side);
            let swept = sweep(
                queue(ladder_levels(old(ladder)@), side),
                *taker,
                quantity as int,
            );
            &&& outcome.remaining == swept.unfilled
            &&& outcome.fills@ == swept.fills
            &&& outcome.stp_canceled@ == swept.canceled
            &&& ladder_levels(final(ladder)@) == levels_of(swept.residue)
        }),
{
    let side = taker.side.opposite();
    let mut remaining: Quantity = quantity;
    let mut fills: Vec<Fill> = Vec::new();
    let mut stp_canceled: Vec<OrderId> = Vec::new();
    let ghost whole = sweep(queue(ladder_levels(ladder@), side), *taker, quantity as int);
    assert(fills@ + whole.fills =~= whole.fills);
    assert(stp_canceled@ + whole.canceled =~= whole.canceled);
    while remaining > 0
        invariant
            side == opposite(taker.side),
            ladder_wf(ladder@),
            whole == resumed(
                fills@,
                stp_canceled@,
                queue(ladder_levels(ladder@), side),
                *taker,
                remaining,
            ),
        ensures
            taker.stops(queue(ladder_levels(ladder@), side), remaining as int),
        decreases
            (if remaining > 0 {
                ladder@.dom().len() + 1
            } else {
                0
            }),
    {
        let ghost levels = ladder_levels(ladder@);
        proof {
            lemma_ladder_tidy(ladder@);
        }
        let price = match best_price(ladder, side) {
            Some(price) => price,
            None => {
                proof {
                    lemma_queue_empty(levels, side);
                }
                break;
            },
        };
        proof {
            lemma_queue_front(levels, side, price);
            assert(levels.contains_key(price));
        }
        if !taker.may_trade_at(price) {
            assert(queue(levels, side)[0] == (Quote { price, order: levels[price][0] }));
            break;
        }
        let ghost tail = queue(levels.remove(price), side);
        let ghost before = ladder@;
        if let Some(mut level) = ladder.remove(&price) {
            assert(ladder_levels(ladder@) =~= levels.remove(price));
            remaining = match_level(
                &mut level,
                price,
                taker,
                remaining,
                &mut fills,
                &mut stp_canceled,
                Ghost(tail),
            );
            if level.orders.len() > 0 {
                let ghost orders = level.orders@;
                ladder.insert(price, level);
                proof {
                    let after = ladder_levels(ladder@);
                    lemma_ladder_tidy(ladder@);
                    assert(after =~= levels.remove(price).insert(price, orders));
                    assert forall|q: Price| after.contains_key(q) implies !better(
                        side,
                        q,
                        price,
                    ) by {
                        assert(q == price || levels.contains_key(q));
                    }
                    assert(is_best(after, side, price));
                    lemma_queue_front(after, side, price);
                    assert(after.remove(price) =~= levels.remove(price));
                }
            } else {
                assert(quotes(price, level.orders@) + tail =~= tail);
            }
        }
    }
    proof {
        lemma_ladder_tidy(ladder@);
        lemma_levels_of_queue(ladder_levels(ladder@), side);
        assert(fills@ + Seq::<Fill>::empty() =~= fills@);
        assert(stp_canceled@ + Seq::<OrderId>::empty() =~= stp_canceled@);
    }
    MatchOutcome { remaining, fills, stp_canceled }
}

/// The quantity that users other than the taker's offer in a queue of orders.
pub open spec fn sum_of_others(orders: Seq<RestingOrder>, user_id: u64) -> nat
    decreases orders.len(),
{
    if orders.len() == 0 {
        0
    } else {
        let first: nat = if orders[0].user_id == user_id {
            0
        } else {
            orders[0].remaining as nat
        };
        first + sum_of_others(orders.drop_first(), user_id)
    }
}

/// Both depths of the quotes of one admitted level and then `tail`.
proof fn lemma_depth_front(
    price: Price,
    orders: Seq<RestingOrder>,
    tail: Seq<Quote>,
    taker: Taker,
)
    requires
        taker.admits(price),
    ensures
        depth(quotes(price, orders) + tail, taker) == sum_of_others(orders, taker.user_id) + depth(
            tail,
            taker,
        ),
        gross_depth(quotes(price, orders) + tail, taker) == sum_remaining(orders) + gross_depth(
            tail,
            taker,
        ),
    decreases orders.len(),
{
    let whole = quotes(price, orders) + tail;
    if orders.len() == 0 {
        assert(whole =~= tail);
    } else {
        lemma_depth_front(price, orders.drop_first(), tail, taker);
        lemma_sum_first(orders);
        assert(whole.drop_first() =~= quotes(price, orders.drop_first()) + tail);
        assert(whole[0] == (Quote { price, order: orders[0] }));
    }
}

/// One step of a walk over the levels of a ladder in priority order, of which the
/// levels `left` are still to be visited.
proof fn lemma_walk_step(
    entries: Seq<(&Price, &PriceLevel)>,
    left: Map<Price, PriceLevel>,
    taker: Taker,
)
    requires
        ladder_wf(left),
        ascending(entries, left),
        entries.len() > 0,
    ensures
        ({
            let side = opposite(taker.side);
            let (price, level) = first_entry(entries, side);
            let others = left.remove(*price);
            &&& level.wf()
            &&& ladder_wf(others)
            &&& ascending(other_entries(entries, side), others)
            &&& if taker.admits(*price) {
                &&& depth(queue(ladder_levels(left), side), taker) == sum_of_others(
                    level.orders@,
                    taker.user_id,
                ) + depth(queue(ladder_levels(others), side), taker)
                &&& gross_depth(queue(ladder_levels(left), side), taker) == level.total
                    + gross_depth(queue(ladder_levels(others), side), taker)
            } else {
                &&& depth(queue(ladder_levels(left), side), taker) == 0
                &&& gross_depth(queue(ladder_levels(left), side), taker) == 0
            }
        }),
{
    let side = opposite(taker.side);
    let (price, level) = first_entry(entries, side);
    let levels = ladder_levels(left);
    let others = left.remove(*price);
    lemma_first_entry_best(entries, left, side);
    assert(left.contains_key(*price));
    lemma_ladder_tidy(left);
    lemma_queue_front(levels, side, *price);
    assert(ladder_levels(others) =~= levels.remove(*price));
    if taker.admits(*price) {
        lemma_depth_front(*price, level.orders@, queue(ladder_levels(others), side), taker);
    } else {
        assert(queue(levels, side)[0] == (Quote { price: *price, order: level.orders@[0] }));
    }
}

/// The walk over the levels of a ladder is over.
proof fn lemma_walk_end(
    entries: Seq<(&Price, &PriceLevel)>,
    left: Map<Price, PriceLevel>,
    taker: Taker,
)
    requires
        ascending(entries, left),
        entries.len() == 0,
    ensures
        depth(queue(ladder_levels(left), opposite(taker.side)), taker) == 0,
        gross_depth(queue(ladder_levels(left), opposite(taker.side)), taker) == 0,
{
    assert forall|p: Price| !ladder_levels(left).dom().contains(p) by {
        if left.contains_key(p) {
            let i = choose|i: int| 0 <= i < entries.len() && *(#[trigger] entries[i]).0 == p;
        }
    }
    lemma_queue_empty(ladder_levels(left), opposite(taker.side));
}

/// Whether the cached totals of the levels that the taker admits reach `quantity`.
/// The taker's own orders count, so this is an upper bound.
pub(crate) fn totals_reach(
    ladder: &BTreeMap<Price, PriceLevel>,
    taker: &Taker,
    quantity: Quantity,
) -> (b: bool)
    requires
        ladder_wf(ladder@),
    ensures
        b == (gross_depth(queue(ladder_levels(ladder@), opposite(taker.side)), *taker)
            >= quantity),
{
    let side = taker.side.opposite();
    let ghost goal = gross_depth(queue(ladder_levels(ladder@), side), *taker);
    let ghost mut left = ladder@;
    let ghost mut seen: nat = 0;
    let mut upper: Quantity = 0;
    let mut it = entries(ladder);
    loop
        invariant_except_break
            side == opposite(taker.side),
            IteratorSpec::obeys_prophetic_iter_laws(&it),
            IteratorSpec::decrease(&it) is Some,
            ascending(IteratorSpec::remaining(&it), left),
            ladder_wf(left),
            goal == seen + gross_depth(queue(ladder_levels(left), side), *taker),
        invariant
            goal == gross_depth(queue(ladder_levels(ladder@), opposite(taker.side)), *taker),
            upper == if seen <= Quantity::MAX {
                seen
            } else {
                Quantity::MAX as nat
            },
        ensures
            goal == seen,
        decreases IteratorSpec::decrease(&it)->0,
    {
        let ghost remaining = it.remaining();
        match next_level(&mut it, side) {
            Some((price, level)) => {
                proof {
                    lemma_walk_step(remaining, left, *taker);
                }
                if !taker.may_trade_at(*price) {
                    break;
                }
                proof {
                    left = left.remove(*price);
                }
                upper = upper.saturating_add(level.total);
                proof {
                    seen = seen + level.total as nat;
                }
                if upper >= quantity {
                    return true;
                }
            },
            None => {
                proof {
                    lemma_walk_end(remaining, left, *taker);
                }
                break;
            },
        }
    }
    upper >= quantity
}

/// How much of `quantity` the taker could trade: orders of its own do not count.
pub(crate) fn fillable(
    ladder: &BTreeMap<Price, PriceLevel>,
    taker: &Taker,
    quantity: Quantity,
) -> (available: Quantity)
    requires
        ladder_wf(ladder@),
    ensures
        ({
            let available_depth = depth(
                queue(ladder_levels(ladder@), opposite(taker.side)),
                *taker,
            );
            available == if available_depth >= quantity {
                quantity as nat
            } else {
                available_depth
            }
        }),
{
    let side = taker.side.opposite();
    let ghost goal = depth(queue(ladder_levels(ladder@), side), *taker);
    let ghost mut left = ladder@;
    let mut available: Quantity = 0;
    if quantity == 0 {
        return 0;
    }
    let mut it = entries(ladder);
    loop
        invariant_except_break
            side == opposite(taker.side),
            IteratorSpec::obeys_prophetic_iter_laws(&it),
            IteratorSpec::decrease(&it) is Some,
            ascending(IteratorSpec::remaining(&it), left),
            ladder_wf(left),
            goal == available + depth(queue(ladder_levels(left), side), *taker),
        invariant
            goal == depth(queue(ladder_levels(ladder@), opposite(taker.side)), *taker),
            available < quantity,
        ensures
            goal == available,
        decreases IteratorSpec::decrease(&it)->0,
    {
        let ghost remaining = it.remaining();
        match next_level(&mut it, side) {
            Some((price, level)) => {
                proof {
                    lemma_walk_step(remaining, left, *taker);
                }
                if !taker.may_trade_at(*price) {
                    break;
                }
                proof {
                    left = left.remove(*price);
                }
                let ghost rest = depth(queue(ladder_levels(left), side), *taker);
                let mut i: usize = 0;
                assert(level.orders@.skip(0) =~= level.orders@);
                while i < level.orders.len()
                    invariant
                        goal == depth(
                            queue(ladder_levels(ladder@), opposite(taker.side)),
                            *taker,
                        ),
                        i <= level.orders@.len(),
                        available < quantity,
                        goal == available + sum_of_others(
                            level.orders@.skip(i as int),
                            taker.user_id,
                        ) + rest,
                    decreases level.orders@.len() - i,
                {
                    let order = &level.orders[i];
                    assert(level.orders@.skip(i as int).drop_first() =~= level.orders@.skip(i + 1));
                    if order.user_id != taker.user_id {
                        available = available.saturating_add(order.remaining);
                        if available >= quantity {
                            return quantity;
                        }
                    }
                    i = i + 1;
                }
            },
            None => {
                proof {
                    lemma_walk_end(remaining, left, *taker);
                }
                break;
            },
        }
    }
    available
}

/// An order is put at the end of its price level.
pub(crate) fn rest_on_ladder(
    ladder: &mut BTreeMap<Price, PriceLevel>,
    price: Price,
    order: RestingOrder,
)
    requires
        ladder_wf(old(ladder)@),
        sum_remaining(orders_at(ladder_levels(old(ladder)@), price)) + order.remaining
            <= Quantity::MAX,
    ensures
        ladder_wf(final(ladder)@),
        ladder_levels(final(ladder)@) == ladder_levels(old(ladder)@).insert(
            price,
            orders_at(ladder_levels(old(ladder)@), price).push(order),
        ),
{
    let ghost levels = ladder_levels(ladder@);
    let mut level = match ladder.remove(&price) {
        Some(level) => level,
        None => PriceLevel::default(),
    };
    let ghost orders = level.orders@;
    assert(orders =~= orders_at(levels, price));
    level.total = level.total + order.remaining;
    level.orders.push_back(order);
    assert(level.orders@.drop_last() =~= orders);
    ladder.insert(price, level);
    assert(ladder_levels(ladder@) =~= levels.insert(price, orders.push(order)));
}

/// Finds the first order with this id.
pub(crate) fn find_order(orders: &VecDeque<RestingOrder>, order_id: OrderId) -> (place:
    Option<usize>)
    ensures
        match place {
            Some(i) => position(orders@, order_id) == Some(i as int) && i < orders@.len(),
            None => position(orders@, order_id) is None,
        },
{
    let mut i: usize = 0;
    while i < orders.len()
        invariant
            i <= orders@.len(),
            forall|j: int| 0 <= j < i ==> (#[trigger] orders@[j]).order_id != order_id,
        decreases orders@.len() - i,
    {
        if orders[i].order_id == order_id {
            proof {
                lemma_position_is(orders@, order_id, i as int);
            }
            return Some(i);
        }
        i = i + 1;
    }
    None
}

/// The first order with this id is taken off its price level.
pub(crate) fn cancel_on_ladder(
    ladder: &mut BTreeMap<Price, PriceLevel>,
    price: Price,
    order_id: OrderId,
) -> (found: bool)
    requires
        ladder_wf(old(ladder)@),
    ensures
        ladder_wf(final(ladder)@),
        ({
            let levels = ladder_levels(old(ladder)@);
            let orders = orders_at(levels, price);
            match position(orders, order_id) {
                Some(i) => {
                    &&& found
                    &&& ladder_levels(final(ladder)@) == with_orders_at(
                        levels,
                        price,
                        orders.remove(i),
                    )
                },
                None => !found && ladder_levels(final(ladder)@) == levels,
            }
        }),
{
    let ghost levels = ladder_levels(ladder@);
    let place = match ladder.get(&price) {
        Some(level) => find_order(&level.orders, order_id),
        None => None,
    };
    if let Some(i) = place {
        if let Some(mut level) = ladder.remove(&price) {
            let ghost orders = level.orders@;
            proof {
                lemma_sum_remove(orders, i as int);
            }
            if let Some(removed) = level.orders.remove(i) {
                level.total = level.total - removed.remaining;
            }
            assert(ladder_levels(ladder@) =~= levels.remove(price));
            if level.orders.len() > 0 {
                ladder.insert(price, level);
                assert(ladder_levels(ladder@) =~= levels.insert(price, level.orders@));
            }
        }
        true
    } else {
        false
    }
}

} // verus!
