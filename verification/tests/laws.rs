//! The laws of the book and of the engine, on concrete values.

use matching_engine::domain::{
    Command, Event, NewOrder, OrderId, OrderType, Price, Quantity, Sequenced, Side,
};
use matching_engine::engine::Engine;
use matching_engine::orderbook::{MatchOutcome, OrderBook};

const TAKER: u64 = 2;

fn filled(outcome: &MatchOutcome) -> Quantity {
    outcome.fills.iter().map(|f| f.quantity).sum()
}

fn makers(outcome: &MatchOutcome) -> Vec<OrderId> {
    outcome.fills.iter().map(|f| f.maker_order_id).collect()
}

/// Asks of user 1 at 100 (ids 1 and 2) and 101 (id 3), and one of the taker at 100 (id 4).
fn asks() -> OrderBook {
    let mut b = OrderBook::new("X");
    b.rest(3, 1, Side::Sell, 101, 7);
    b.rest(1, 1, Side::Sell, 100, 5);
    b.rest(4, TAKER, Side::Sell, 100, 11);
    b.rest(2, 1, Side::Sell, 100, 6);
    b
}

#[test]
fn quantity_is_conserved() {
    for qty in 0..30 {
        let outcome = asks().match_order(Side::Buy, 101, qty, false, None, TAKER);
        assert_eq!(filled(&outcome) + outcome.remaining, qty);
    }
}

#[test]
fn price_comes_before_time() {
    let outcome = asks().match_order(Side::Buy, 101, 18, false, None, TAKER);
    assert_eq!(makers(&outcome), vec![1, 2, 3]);
    let prices: Vec<Price> = outcome.fills.iter().map(|f| f.price).collect();
    assert_eq!(prices, vec![100, 100, 101]);
    let quantities: Vec<Quantity> = outcome.fills.iter().map(|f| f.quantity).collect();
    assert_eq!(quantities, vec![5, 6, 7]);
}

#[test]
fn lower_priority_is_untouched() {
    let mut b = asks();
    b.match_order(Side::Buy, 101, 6, false, None, TAKER);
    let left = |b: &OrderBook, price: Price| -> Vec<(OrderId, Quantity)> {
        b.level(Side::Sell, price).unwrap().orders.iter().map(|o| (o.order_id, o.remaining)).collect()
    };
    assert_eq!(left(&b, 100), vec![(2, 5)]);
    assert_eq!(left(&b, 101), vec![(3, 7)]);
    let mut b = asks();
    b.match_order(Side::Buy, 101, 2, false, None, TAKER);
    assert_eq!(left(&b, 100), vec![(1, 3), (4, 11), (2, 6)]);
    assert_eq!(left(&b, 101), vec![(3, 7)]);
}

#[test]
fn bids_are_met_from_the_highest() {
    let mut b = OrderBook::new("X");
    b.rest(1, 1, Side::Buy, 99, 1);
    b.rest(2, 1, Side::Buy, 101, 1);
    b.rest(3, 1, Side::Buy, 100, 1);
    let outcome = b.match_order(Side::Sell, 99, 3, false, None, TAKER);
    assert_eq!(makers(&outcome), vec![2, 3, 1]);
}

#[test]
fn own_orders_are_canceled_when_met() {
    let outcome = asks().match_order(Side::Buy, 101, 6, false, None, TAKER);
    assert_eq!(makers(&outcome), vec![1, 2]);
    assert_eq!(outcome.stp_canceled, vec![4]);
    // An own order behind the last trade is not met.
    let outcome = asks().match_order(Side::Buy, 101, 5, false, None, TAKER);
    assert_eq!(makers(&outcome), vec![1]);
    assert!(outcome.stp_canceled.is_empty());
}

#[test]
fn trades_respect_limit_and_protection() {
    let outcome = asks().match_order(Side::Buy, 100, 30, false, None, TAKER);
    assert!(outcome.fills.iter().all(|f| f.price <= 100));
    assert_eq!(outcome.remaining, 19);
    let outcome = asks().match_order(Side::Buy, 0, 30, true, Some(100), TAKER);
    assert!(outcome.fills.iter().all(|f| f.price <= 100));
    assert_eq!(outcome.remaining, 19);
    let outcome = asks().match_order(Side::Buy, 0, 30, true, None, TAKER);
    assert_eq!(outcome.remaining, 12);
}

#[test]
fn takers_exhaust_what_they_admit() {
    let mut b = asks();
    let outcome = b.match_order(Side::Buy, 100, 30, false, None, TAKER);
    assert!(outcome.remaining > 0);
    assert_eq!(b.best_ask(), Some(101));
    assert!(!b.would_cross(Side::Buy, 100));
}

#[test]
fn depth_decides_full_fill() {
    for qty in 0..30 {
        for price in 99..103 {
            let full = asks().can_fill_fully(Side::Buy, price, qty, TAKER);
            let outcome = asks().match_order(Side::Buy, price, qty, false, None, TAKER);
            assert_eq!(full, outcome.remaining == 0);
        }
    }
}

#[test]
fn own_orders_never_add_depth() {
    // 18 of others and 11 of the taker.
    assert!(asks().can_fill_fully(Side::Buy, 101, 18, TAKER));
    assert!(!asks().can_fill_fully(Side::Buy, 101, 19, TAKER));
    assert!(asks().can_fill_fully(Side::Buy, 101, 29, 3));
    assert_eq!(asks().fillable_quantity(Side::Buy, 101, 100, TAKER), 18);
    assert_eq!(asks().fillable_quantity(Side::Buy, 101, 100, 3), 29);
    assert_eq!(asks().fillable_quantity(Side::Buy, 100, 7, 3), 7);
}

#[test]
fn empty_levels_are_dropped() {
    let mut b = asks();
    b.cancel(3);
    assert!(b.level(Side::Sell, 101).is_none());
    b.match_order(Side::Buy, 100, 11, false, None, TAKER);
    assert!(b.level(Side::Sell, 100).is_none());
    assert_eq!(b.best_ask(), None);
}

#[test]
fn cancel_undoes_rest() {
    let mut b = asks();
    b.rest(9, 1, Side::Sell, 100, 3);
    b.rest(10, 1, Side::Buy, 90, 3);
    assert!(b.cancel(9));
    assert!(b.cancel(10));
    let level = b.level(Side::Sell, 100).unwrap();
    assert_eq!(level.total, 22);
    let ids: Vec<OrderId> = level.orders.iter().map(|o| o.order_id).collect();
    assert_eq!(ids, vec![1, 4, 2]);
    assert!(b.level(Side::Buy, 90).is_none());
}

#[test]
fn an_order_is_canceled_once() {
    let mut b = asks();
    assert!(b.cancel(1));
    assert!(!b.cancel(1));
    assert!(!b.cancel(77));
    assert_eq!(b.level(Side::Sell, 100).unwrap().total, 17);
}

#[test]
fn canceling_takes_one_order_only() {
    let mut b = asks();
    assert!(b.cancel(4));
    let level = b.level(Side::Sell, 100).unwrap();
    let ids: Vec<OrderId> = level.orders.iter().map(|o| o.order_id).collect();
    assert_eq!(ids, vec![1, 2]);
    assert_eq!(b.level(Side::Sell, 101).unwrap().total, 7);
}

#[test]
fn orders_that_are_gone_cannot_be_canceled() {
    let mut b = asks();
    let outcome = b.match_order(Side::Buy, 101, 8, false, None, TAKER);
    assert_eq!(makers(&outcome), vec![1, 2]);
    assert!(!b.cancel(1));
    assert!(!b.cancel(4));
    // Order 2 was filled in part and still rests.
    assert_eq!(b.level(Side::Sell, 100).unwrap().total, 3);
    assert!(b.cancel(2));
}

#[test]
fn no_trade_is_empty() {
    for qty in 0..30 {
        let outcome = asks().match_order(Side::Buy, 101, qty, false, None, TAKER);
        assert!(outcome.fills.iter().all(|f| f.quantity > 0));
    }
}

fn order(id: u64, user: u64, side: Side, ot: OrderType, price: Price, quantity: Quantity) -> Command {
    Command::NewOrder(NewOrder {
        order_id: id,
        symbol: "X".to_string(),
        side,
        order_type: ot,
        price,
        quantity,
        user_id: user,
    })
}

fn at(seq: u64, cmd: Command) -> Sequenced {
    Sequenced { seq, ts: 1000 + seq, cmd }
}

fn traded(events: &[Event]) -> Quantity {
    events.iter().map(|e| match e {
        Event::Trade { quantity, .. } => *quantity,
        _ => 0,
    }).sum()
}

fn left_over(events: &[Event]) -> Quantity {
    events.iter().map(|e| match e {
        Event::Resting { remaining, .. } => *remaining,
        Event::Killed { unfilled, .. } => *unfilled,
        _ => 0,
    }).sum()
}

fn text(events: &[Event]) -> String {
    format!("{events:?}")
}

const TYPES: [OrderType; 5] = [
    OrderType::Limit,
    OrderType::Market,
    OrderType::Ioc,
    OrderType::Fok,
    OrderType::PostOnly,
];

/// A fixed mix of commands of all kinds, with an id of its own for each order.
fn log(n: u64) -> Vec<Sequenced> {
    let mut x: u64 = 12345;
    let mut out = Vec::new();
    for seq in 1..=n {
        x = x.wrapping_mul(6364136223846793005).wrapping_add(1442695040888963407);
        let r = x >> 33;
        let side = if r % 2 == 0 { Side::Buy } else { Side::Sell };
        let cmd = if r % 7 == 0 {
            Command::Cancel { order_id: 1 + (r / 7) % seq }
        } else {
            let ot = if r % 3 == 0 { TYPES[((r / 3) % 5) as usize] } else { OrderType::Limit };
            order(seq, 1 + (r / 5) % 4, side, ot, 90 + (r / 11) % 20, (r / 13) % 9)
        };
        out.push(at(seq, cmd));
    }
    out
}

#[test]
fn every_order_is_acknowledged() {
    let mut e = Engine::new("X", 500);
    for s in log(2000) {
        let events = e.handle(&s);
        if let Command::NewOrder(o) = &s.cmd {
            assert!(events.len() >= 2);
            match &events[0] {
                Event::Accepted { order_id, seq } => {
                    assert_eq!((*order_id, *seq), (o.order_id, s.seq));
                }
                other => panic!("{other:?}"),
            }
            assert!(events[1..].iter().all(|e| !matches!(e, Event::Accepted { .. })));
        }
    }
}

#[test]
fn zero_quantity_changes_nothing() {
    for ot in TYPES {
        let mut e = Engine::new("X", 500);
        e.handle(&at(1, order(1, 1, Side::Sell, OrderType::Limit, 100, 5)));
        let events = e.handle(&at(2, order(2, 2, Side::Buy, ot, 100, 0)));
        assert_eq!(events.len(), 2);
        match &events[1] {
            Event::Rejected { order_id: 2, reason } => {
                assert_eq!(reason, "quantity must be positive");
            }
            other => panic!("{other:?}"),
        }
        assert_eq!(e.book().level(Side::Sell, 100).unwrap().total, 5);
        assert_eq!(e.book().best_bid(), None);
    }
}

#[test]
fn post_only_never_takes() {
    let mut e = Engine::new("X", 500);
    e.handle(&at(1, order(1, 1, Side::Sell, OrderType::Limit, 100, 5)));
    let events = e.handle(&at(2, order(2, 1, Side::Buy, OrderType::PostOnly, 100, 5)));
    match &events[1] {
        Event::Rejected { order_id: 2, reason } => assert_eq!(reason, "post-only would take"),
        other => panic!("{other:?}"),
    }
    assert_eq!(e.book().best_bid(), None);
    let events = e.handle(&at(3, order(3, 1, Side::Buy, OrderType::PostOnly, 99, 5)));
    assert!(matches!(
        events[1],
        Event::Resting { order_id: 3, side: Side::Buy, price: 99, remaining: 5 }
    ));
    assert_eq!(e.book().level(Side::Sell, 100).unwrap().total, 5);
}

#[test]
fn takers_never_rest() {
    for ot in [OrderType::Market, OrderType::Ioc, OrderType::Fok] {
        let mut e = Engine::new("X", 500);
        e.handle(&at(1, order(1, 1, Side::Sell, OrderType::Limit, 100, 5)));
        let events = e.handle(&at(2, order(2, 2, Side::Buy, ot, 100, 8)));
        assert!(events.iter().all(|e| !matches!(e, Event::Resting { .. })));
        assert_eq!(e.book().best_bid(), None);
        match events.last().unwrap() {
            Event::Killed { order_id: 2, unfilled, reason } => {
                if ot == OrderType::Fok {
                    assert_eq!((*unfilled, reason.as_str()), (8, "FOK cannot fill"));
                } else {
                    assert_eq!((*unfilled, reason.as_str()), (3, "remainder canceled"));
                }
            }
            other => panic!("{other:?}"),
        }
    }
}

#[test]
fn fill_or_kill_excludes_own_orders() {
    let mut e = Engine::new("X", 500);
    e.handle(&at(1, order(1, 1, Side::Sell, OrderType::Limit, 100, 5)));
    e.handle(&at(2, order(2, 2, Side::Sell, OrderType::Limit, 100, 5)));
    let events = e.handle(&at(3, order(3, 2, Side::Buy, OrderType::Fok, 100, 6)));
    assert_eq!(traded(&events), 0);
    assert_eq!(left_over(&events), 6);
    assert_eq!(e.book().level(Side::Sell, 100).unwrap().total, 10);
    let events = e.handle(&at(4, order(4, 3, Side::Buy, OrderType::Fok, 100, 10)));
    assert_eq!(traded(&events), 10);
    assert_eq!(left_over(&events), 0);
}

#[test]
fn no_quantity_is_lost() {
    let mut e = Engine::new("X", 500);
    for s in log(2000) {
        let events = e.handle(&s);
        if let Command::NewOrder(o) = &s.cmd {
            let accounted = traded(&events) + left_over(&events);
            if matches!(events.last().unwrap(), Event::Rejected { .. }) {
                assert_eq!(accounted, 0);
            } else {
                assert_eq!(accounted, o.quantity);
            }
        }
    }
}

#[test]
fn trades_are_stamped() {
    let mut e = Engine::new("X", 500);
    e.handle(&at(1, order(1, 1, Side::Sell, OrderType::Limit, 100, 5)));
    let events = e.handle(&at(2, order(2, 2, Side::Buy, OrderType::Limit, 105, 3)));
    match &events[1] {
        Event::Trade {
            seq,
            ts,
            symbol,
            taker_order_id,
            maker_order_id,
            taker_side,
            price,
            quantity,
        } => {
            assert_eq!((*seq, *ts, symbol.as_str()), (2, 1002, "X"));
            assert_eq!((*taker_order_id, *maker_order_id), (2, 1));
            assert_eq!(*taker_side, Side::Buy);
            assert_eq!((*price, *quantity), (100, 3));
        }
        other => panic!("{other:?}"),
    }
    assert_eq!(events.len(), 2);
}

#[test]
fn cancellations_come_before_trades() {
    let mut e = Engine::new("X", 500);
    e.handle(&at(1, order(1, 1, Side::Sell, OrderType::Limit, 100, 5)));
    e.handle(&at(2, order(2, 2, Side::Sell, OrderType::Limit, 100, 5)));
    let events = e.handle(&at(3, order(3, 2, Side::Buy, OrderType::Limit, 100, 7)));
    assert!(matches!(events[0], Event::Accepted { order_id: 3, .. }));
    assert!(matches!(events[1], Event::Canceled { order_id: 2 }));
    assert!(matches!(events[2], Event::Trade { maker_order_id: 1, quantity: 5, .. }));
    assert!(matches!(events[3], Event::Resting { order_id: 3, remaining: 2, .. }));
    assert_eq!(events.len(), 4);
}

#[test]
fn market_protection_is_exact() {
    // 333 basis points of 1001 are 33.3333, which is cut to 33.
    let run = |side: Side, prices: &[Price]| -> Vec<Price> {
        let mut e = Engine::new("X", 333);
        let mut seq = 0;
        for p in prices {
            seq += 1;
            e.handle(&at(seq, order(seq, 1, side.opposite(), OrderType::Limit, *p, 1)));
        }
        let events = e.handle(&at(99, order(99, 2, side, OrderType::Market, 0, 10)));
        events.iter().filter_map(|e| match e {
            Event::Trade { price, .. } => Some(*price),
            _ => None,
        }).collect()
    };
    assert_eq!(run(Side::Buy, &[1035, 1034, 1001]), vec![1001, 1034]);
    assert_eq!(run(Side::Sell, &[967, 968, 1001]), vec![1001, 968]);
    assert!(run(Side::Buy, &[]).is_empty());
}

#[test]
fn protection_below_zero_stops_at_zero() {
    // More than the whole: a seller may go down to zero.
    let mut e = Engine::new("X", 20_000);
    e.handle(&at(1, order(1, 1, Side::Buy, OrderType::Limit, 100, 1)));
    e.handle(&at(2, order(2, 1, Side::Buy, OrderType::Limit, 0, 1)));
    let events = e.handle(&at(3, order(3, 2, Side::Sell, OrderType::Market, 0, 2)));
    assert_eq!(traded(&events), 2);
}

#[test]
fn limit_orders_take_what_they_can() {
    let mut e = Engine::new("X", 500);
    e.handle(&at(1, order(1, 1, Side::Sell, OrderType::Limit, 100, 5)));
    e.handle(&at(2, order(2, 1, Side::Sell, OrderType::Limit, 103, 5)));
    e.handle(&at(3, order(3, 2, Side::Buy, OrderType::Limit, 102, 9)));
    assert_eq!(e.book().best_bid(), Some(102));
    assert_eq!(e.book().best_ask(), Some(103));
    assert!(!e.book().would_cross(Side::Buy, 102));
}

#[test]
fn orders_that_rest_can_be_canceled() {
    let mut e = Engine::new("X", 500);
    e.handle(&at(1, order(1, 1, Side::Sell, OrderType::Limit, 100, 5)));
    let events = e.handle(&at(2, Command::Cancel { order_id: 1 }));
    assert_eq!(events.len(), 1);
    assert!(matches!(events[0], Event::Canceled { order_id: 1 }));
    let events = e.handle(&at(3, Command::Cancel { order_id: 1 }));
    match &events[0] {
        Event::Rejected { order_id: 1, reason } => assert_eq!(reason, "order not found"),
        other => panic!("{other:?}"),
    }
    assert_eq!(events.len(), 1);
}

#[test]
fn bids_stay_below_asks() {
    let mut e = Engine::new("X", 500);
    for s in log(3000) {
        e.handle(&s);
        if let (Some(bid), Some(ask)) = (e.book().best_bid(), e.book().best_ask()) {
            assert!(bid < ask);
        }
        for price in 90..110 {
            for side in [Side::Buy, Side::Sell] {
                if let Some(level) = e.book().level(side, price) {
                    assert!(!level.orders.is_empty());
                    assert!(level.orders.iter().all(|o| o.remaining > 0));
                    let sum: Quantity = level.orders.iter().map(|o| o.remaining).sum();
                    assert_eq!(sum, level.total);
                }
            }
        }
    }
}

#[test]
fn distinct_ids_stay_indexed() {
    let mut e = Engine::new("X", 500);
    for s in log(1000) {
        e.handle(&s);
    }
    let mut ids = Vec::new();
    for price in 90..110 {
        for side in [Side::Buy, Side::Sell] {
            if let Some(level) = e.book().level(side, price) {
                ids.extend(level.orders.iter().map(|o| o.order_id));
            }
        }
    }
    assert!(!ids.is_empty());
    for id in ids {
        let events = e.handle(&at(5000, Command::Cancel { order_id: id }));
        assert!(matches!(events[0], Event::Canceled { order_id } if order_id == id));
    }
    assert_eq!(e.book().best_bid(), None);
    assert_eq!(e.book().best_ask(), None);
}

#[test]
fn replay_gives_the_same_events() {
    let commands = log(1500);
    let mut first = Engine::new("X", 500);
    let events: Vec<String> = commands.iter().map(|s| text(&first.handle(s))).collect();
    // A second engine replays half of the log and goes on.
    let mut second = Engine::new("X", 500);
    let (half, rest) = commands.split_at(700);
    for s in half {
        second.handle(s);
    }
    for (i, s) in rest.iter().enumerate() {
        assert_eq!(text(&second.handle(s)), events[700 + i]);
    }
}

#[test]
fn stamps_are_only_reported() {
    let mut first = Engine::new("X", 500);
    let mut second = Engine::new("X", 500);
    for s in log(1000) {
        let a = first.handle(&s);
        let b = second.handle(&Sequenced { seq: s.seq + 77, ts: 5, cmd: s.cmd.clone() });
        assert_eq!(a.len(), b.len());
        assert_eq!(traded(&a), traded(&b));
        assert_eq!(left_over(&a), left_over(&b));
        assert_eq!(first.book().best_bid(), second.book().best_bid());
        assert_eq!(first.book().best_ask(), second.book().best_ask());
    }
}

#[test]
fn sums_that_do_not_fit_are_refused() {
    let mut e = Engine::new("X", 500);
    let first = at(1, order(1, 1, Side::Sell, OrderType::Limit, 100, u64::MAX - 5));
    assert!(e.can_handle(&first));
    e.handle(&first);
    for ot in [OrderType::Limit, OrderType::PostOnly] {
        assert!(e.can_handle(&at(2, order(2, 1, Side::Sell, ot, 100, 5))));
        assert!(!e.can_handle(&at(2, order(2, 1, Side::Sell, ot, 100, 6))));
        assert!(e.can_handle(&at(2, order(2, 1, Side::Sell, ot, 101, u64::MAX))));
    }
    // What trades at once needs no room.
    e.handle(&at(2, order(2, 2, Side::Buy, OrderType::Limit, 90, 3)));
    assert!(e.can_handle(&at(3, order(3, 1, Side::Sell, OrderType::Limit, 100, 5))));
    assert!(e.can_handle(&at(4, order(4, 2, Side::Buy, OrderType::Limit, 100, u64::MAX))));
    assert!(e.can_handle(&at(5, order(5, 2, Side::Buy, OrderType::Ioc, 100, u64::MAX))));
    assert!(e.can_handle(&at(6, Command::Cancel { order_id: 1 })));
}

#[test]
fn protection_needs_no_room() {
    // The product of price and basis points is far beyond 64 bits; the bound is not.
    let buy = |ask: Price, bps: u64, beyond: Price| -> Quantity {
        let mut e = Engine::new("X", bps);
        e.handle(&at(1, order(1, 1, Side::Sell, OrderType::Limit, ask, 1)));
        e.handle(&at(2, order(2, 1, Side::Sell, OrderType::Limit, beyond, 1)));
        let market = at(3, order(3, 2, Side::Buy, OrderType::Market, 0, 2));
        assert!(e.can_handle(&market));
        traded(&e.handle(&market))
    };
    let best = 100_000_000_000_000_000;
    assert_eq!(buy(best, 500, 105_000_000_000_000_000), 2);
    assert_eq!(buy(best, 500, 105_000_000_000_000_001), 1);
    // A bound beyond the highest price stops there.
    assert_eq!(buy(u64::MAX - 1, 1, u64::MAX), 2);
    assert_eq!(buy(1, u64::MAX, u64::MAX), 1);
    assert_eq!(buy(u64::MAX / 2, u64::MAX, u64::MAX), 2);

    let sell = |bid: Price, bps: u64, beyond: Price| -> Quantity {
        let mut e = Engine::new("X", bps);
        e.handle(&at(1, order(1, 1, Side::Buy, OrderType::Limit, bid, 1)));
        e.handle(&at(2, order(2, 1, Side::Buy, OrderType::Limit, beyond, 1)));
        let market = at(3, order(3, 2, Side::Sell, OrderType::Market, 0, 2));
        assert!(e.can_handle(&market));
        traded(&e.handle(&market))
    };
    assert_eq!(sell(best, 500, 95_000_000_000_000_000), 2);
    assert_eq!(sell(best, 500, 94_999_999_999_999_999), 1);
    assert_eq!(sell(u64::MAX, u64::MAX, 0), 2);
}

#[test]
fn market_orders_ignore_their_price() {
    for (side, price) in [(Side::Buy, 0), (Side::Buy, u64::MAX), (Side::Sell, 0), (Side::Sell, 7)] {
        let answer = |price: Price| -> String {
            let mut e = Engine::new("X", 500);
            for i in 1..=5 {
                e.handle(&at(i, order(i, i % 2, Side::Sell, OrderType::Limit, 100 + i, 2)));
                e.handle(&at(10 + i, order(10 + i, i % 2, Side::Buy, OrderType::Limit, 100 - i, 2)));
            }
            let events = e.handle(&at(20, order(20, 1, side, OrderType::Market, price, 5)));
            format!("{events:?} {:?} {:?}", e.book().best_bid(), e.book().best_ask())
        };
        assert_eq!(answer(price), answer(100));
    }
}

#[test]
fn clean_up_changes_no_answer() {
    // Two orders share an id at one price: the second can still be canceled.
    let mut b = OrderBook::new("X");
    b.rest(1, 1, Side::Sell, 100, 5);
    b.rest(1, 1, Side::Sell, 100, 6);
    b.match_order(Side::Buy, 100, 5, false, None, TAKER);
    assert!(b.cancel(1));
    assert!(!b.cancel(1));
    assert_eq!(b.best_ask(), None);
    // They share an id at two prices: the index knows the one that came last.
    let mut b = OrderBook::new("X");
    b.rest(1, 1, Side::Sell, 100, 5);
    b.rest(1, 1, Side::Sell, 101, 6);
    b.match_order(Side::Buy, 100, 5, false, None, TAKER);
    assert!(b.cancel(1));
    assert_eq!(b.best_ask(), None);
    // An order that is filled in part keeps its entry.
    let mut b = OrderBook::new("X");
    b.rest(1, 1, Side::Sell, 100, 5);
    b.match_order(Side::Buy, 100, 3, false, None, TAKER);
    assert!(b.cancel(1));
    // An id can be used again once its order is filled.
    let mut b = OrderBook::new("X");
    b.rest(1, 1, Side::Sell, 100, 5);
    b.match_order(Side::Buy, 100, 5, false, None, TAKER);
    assert!(!b.cancel(1));
    b.rest(1, 1, Side::Buy, 90, 5);
    assert!(b.cancel(1));
}
