//! The engine: commands in, events out.

use matching_engine::domain::{
    Command, Event, NewOrder, OrderId, OrderType, Price, Quantity, Sequenced, Side,
};
use matching_engine::engine::Engine;

fn seq(cmd: Command, n: u64) -> Sequenced {
    Sequenced { seq: n, ts: n, cmd }
}

fn order_u(id: OrderId, user: u64, side: Side, ot: OrderType, price: Price, qty: Quantity) -> Command {
    Command::NewOrder(NewOrder {
        order_id: id,
        symbol: "X".into(),
        side,
        order_type: ot,
        price,
        quantity: qty,
        user_id: user,
    })
}

/// Orders of user 1; takers that are to trade belong to user 2.
fn order(id: OrderId, side: Side, ot: OrderType, price: Price, qty: Quantity) -> Command {
    order_u(id, 1, side, ot, price, qty)
}

fn traded_qty(events: &[Event]) -> Quantity {
    events.iter().filter_map(|e| match e {
        Event::Trade { quantity, .. } => Some(*quantity),
        _ => None,
    }).sum()
}

#[test]
fn limit_rests_when_no_match() {
    let mut e = Engine::new("X", 500);
    let ev = e.handle(&seq(order(1, Side::Buy, OrderType::Limit, 100, 10), 1));
    assert!(matches!(ev[0], Event::Accepted { order_id: 1, seq: 1 }));
    assert!(ev.iter().any(|e| matches!(e, Event::Resting { order_id: 1, .. })));
}

#[test]
fn limit_trades_at_maker_price() {
    let mut e = Engine::new("X", 500);
    e.handle(&seq(order(1, Side::Sell, OrderType::Limit, 100, 10), 1));
    let ev = e.handle(&seq(order_u(2, 2, Side::Buy, OrderType::Limit, 105, 4), 2));
    let trade = ev.iter().find(|e| matches!(e, Event::Trade { .. })).unwrap();
    if let Event::Trade { price, quantity, maker_order_id, taker_order_id, .. } = trade {
        assert_eq!(*price, 100);
        assert_eq!(*quantity, 4);
        assert_eq!(*maker_order_id, 1);
        assert_eq!(*taker_order_id, 2);
    }
}

#[test]
fn post_only_rejected_when_crosses() {
    let mut e = Engine::new("X", 500);
    e.handle(&seq(order(1, Side::Sell, OrderType::Limit, 100, 10), 1));
    let ev = e.handle(&seq(order(2, Side::Buy, OrderType::PostOnly, 100, 5), 2));
    assert!(ev.iter().any(|e| matches!(e, Event::Rejected { .. })));
    assert!(!ev.iter().any(|e| matches!(e, Event::Resting { .. })));
}

#[test]
fn post_only_rests_when_no_cross() {
    let mut e = Engine::new("X", 500);
    e.handle(&seq(order(1, Side::Sell, OrderType::Limit, 100, 10), 1));
    let ev = e.handle(&seq(order(2, Side::Buy, OrderType::PostOnly, 99, 5), 2));
    assert!(ev.iter().any(|e| matches!(e, Event::Resting { .. })));
}

#[test]
fn fok_killed_when_insufficient_liquidity() {
    let mut e = Engine::new("X", 500);
    e.handle(&seq(order(1, Side::Sell, OrderType::Limit, 100, 3), 1));
    let ev = e.handle(&seq(order_u(2, 2, Side::Buy, OrderType::Fok, 100, 5), 2));
    assert!(ev.iter().any(|e| matches!(e, Event::Killed { .. })));
    assert_eq!(traded_qty(&ev), 0);
}

#[test]
fn fok_fills_when_enough() {
    let mut e = Engine::new("X", 500);
    e.handle(&seq(order(1, Side::Sell, OrderType::Limit, 100, 5), 1));
    let ev = e.handle(&seq(order_u(2, 2, Side::Buy, OrderType::Fok, 100, 5), 2));
    assert_eq!(traded_qty(&ev), 5);
    assert!(!ev.iter().any(|e| matches!(e, Event::Killed { .. })));
}

#[test]
fn ioc_partial_fill_kills_remainder() {
    let mut e = Engine::new("X", 500);
    e.handle(&seq(order(1, Side::Sell, OrderType::Limit, 100, 3), 1));
    let ev = e.handle(&seq(order_u(2, 2, Side::Buy, OrderType::Ioc, 100, 5), 2));
    assert_eq!(traded_qty(&ev), 3);
    assert!(ev.iter().any(|e| matches!(e, Event::Killed { unfilled: 2, .. })));
}

#[test]
fn engine_market_order_respects_protection() {
    let mut e = Engine::new("X", 500);
    e.handle(&seq(order(1, Side::Sell, OrderType::Limit, 100, 5), 1));
    e.handle(&seq(order(2, Side::Sell, OrderType::Limit, 110, 5), 2));
    let ev = e.handle(&seq(order_u(3, 2, Side::Buy, OrderType::Market, 0, 10), 3));
    assert_eq!(traded_qty(&ev), 5);
    assert!(ev.iter().any(|e| matches!(e, Event::Killed { unfilled: 5, .. })));
}

#[test]
fn cancel_existing_order() {
    let mut e = Engine::new("X", 500);
    e.handle(&seq(order(1, Side::Buy, OrderType::Limit, 100, 5), 1));
    let ev = e.handle(&seq(Command::Cancel { order_id: 1 }, 2));
    assert!(matches!(ev[0], Event::Canceled { order_id: 1 }));
}

#[test]
fn cancel_missing_order_rejected() {
    let mut e = Engine::new("X", 500);
    let ev = e.handle(&seq(Command::Cancel { order_id: 99 }, 1));
    assert!(matches!(ev[0], Event::Rejected { .. }));
}

// An order without quantity.

#[test]
fn zero_qty_order_rejected() {
    let mut e = Engine::new("X", 500);
    let ev = e.handle(&seq(order(1, Side::Buy, OrderType::Limit, 100, 0), 1));
    assert!(matches!(ev[0], Event::Accepted { order_id: 1, .. }));
    assert!(matches!(ev[1], Event::Rejected { order_id: 1, .. }));

    assert!(!ev.iter().any(|e| matches!(e, Event::Resting { .. })));
    assert_eq!(traded_qty(&ev), 0);
}

// Self-trade prevention.

#[test]
fn self_trade_prevention_cancels_resting_maker() {
    let mut e = Engine::new("X", 500);
    e.handle(&seq(order_u(1, 7, Side::Sell, OrderType::Limit, 100, 5), 1));
    let ev = e.handle(&seq(order_u(2, 7, Side::Buy, OrderType::Limit, 100, 5), 2));
    assert!(!ev.iter().any(|e| matches!(e, Event::Trade { .. })));
    assert!(ev.iter().any(|e| matches!(e, Event::Canceled { order_id: 1 })));

    assert!(ev.iter().any(|e| matches!(e, Event::Resting { order_id: 2, remaining: 5, .. })));
}

#[test]
fn self_trade_ioc_taker_killed_after_cancel() {
    let mut e = Engine::new("X", 500);
    e.handle(&seq(order_u(1, 7, Side::Sell, OrderType::Limit, 100, 5), 1));
    let ev = e.handle(&seq(order_u(2, 7, Side::Buy, OrderType::Ioc, 100, 5), 2));
    assert!(ev.iter().any(|e| matches!(e, Event::Canceled { order_id: 1 })));
    assert_eq!(traded_qty(&ev), 0);
    assert!(ev.iter().any(|e| matches!(e, Event::Killed { unfilled: 5, .. })));
}

#[test]
fn engine_self_trade_skips_own_fills_other() {
    let mut e = Engine::new("X", 500);
    e.handle(&seq(order_u(1, 7, Side::Sell, OrderType::Limit, 100, 5), 1));
    e.handle(&seq(order_u(2, 9, Side::Sell, OrderType::Limit, 100, 5), 2));
    let ev = e.handle(&seq(order_u(3, 7, Side::Buy, OrderType::Limit, 100, 5), 3));
    assert!(ev.iter().any(|e| matches!(e, Event::Canceled { order_id: 1 })));
    assert_eq!(traded_qty(&ev), 5);
    let trade = ev.iter().find(|e| matches!(e, Event::Trade { .. })).unwrap();
    if let Event::Trade { maker_order_id, .. } = trade {
        assert_eq!(*maker_order_id, 2);
    }
}

// Edge cases.

#[test]
fn market_order_on_empty_book_killed() {
    let mut e = Engine::new("X", 500);
    let ev = e.handle(&seq(order(1, Side::Buy, OrderType::Market, 0, 5), 1));
    assert!(ev.iter().any(|e| matches!(e, Event::Killed { unfilled: 5, .. })));
}

#[test]
fn fok_does_not_mutate_book_on_kill() {
    let mut e = Engine::new("X", 500);
    e.handle(&seq(order(1, Side::Sell, OrderType::Limit, 100, 3), 1));
    e.handle(&seq(order_u(2, 2, Side::Buy, OrderType::Fok, 100, 5), 2));
    let ev = e.handle(&seq(order_u(3, 2, Side::Buy, OrderType::Ioc, 100, 3), 3));
    assert_eq!(traded_qty(&ev), 3);
}

#[test]
fn trade_events_carry_taker_seq_and_ts() {
    let mut e = Engine::new("X", 500);
    e.handle(&seq(order(1, Side::Sell, OrderType::Limit, 100, 5), 1));
    e.handle(&seq(order(2, Side::Sell, OrderType::Limit, 101, 5), 2));
    let ev = e.handle(&seq(order_u(3, 2, Side::Buy, OrderType::Limit, 101, 8), 99));
    for t in ev.iter().filter(|e| matches!(e, Event::Trade { .. })) {
        if let Event::Trade { seq, ts, .. } = t {
            assert_eq!(*seq, 99);
            assert_eq!(*ts, 99);
        }
    }
}

#[test]
fn limit_partial_fill_then_rest_remainder() {
    let mut e = Engine::new("X", 500);
    e.handle(&seq(order(1, Side::Sell, OrderType::Limit, 100, 3), 1));
    let ev = e.handle(&seq(order_u(2, 2, Side::Buy, OrderType::Limit, 100, 10), 2));
    assert_eq!(traded_qty(&ev), 3);
    let resting = ev.iter().find(|e| matches!(e, Event::Resting { .. })).unwrap();
    if let Event::Resting { remaining, .. } = resting {
        assert_eq!(*remaining, 7);
    }
    assert!(!ev.iter().any(|e| matches!(e, Event::Killed { .. })));
}
