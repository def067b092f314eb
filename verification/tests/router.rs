//! Sequencing and routing.

use matching_engine::domain::{Command, NewOrder, OrderType, Side};
use matching_engine::router::{Request, Router};

fn order(id: u64, symbol: &str) -> Request {
    Request::NewOrder(NewOrder {
        order_id: id,
        symbol: symbol.to_string(),
        side: Side::Buy,
        order_type: OrderType::Limit,
        price: 100,
        quantity: 1,
        user_id: 1,
    })
}

fn cancel(id: u64, symbol: &str) -> Request {
    Request::Cancel { order_id: id, symbol: symbol.to_string() }
}

fn router(symbols: &[&str]) -> Router {
    Router::new(symbols.iter().map(|s| s.to_string()).collect())
}

#[test]
fn numbers_have_no_gaps() {
    let mut r = router(&["A", "B"]);
    let mut stamps = Vec::new();
    for (i, s) in ["A", "B", "A", "?", "A", "B"].iter().enumerate() {
        if let Some(routed) = r.route(order(i as u64, s), 0) {
            stamps.push((routed.route, routed.shard_seq, routed.sequenced.seq));
        }
    }
    assert_eq!(stamps, vec![(0, 1, 1), (1, 1, 2), (0, 2, 3), (0, 3, 4), (1, 2, 5)]);
}

#[test]
fn unknown_symbols_use_up_no_number() {
    let mut r = router(&["A"]);
    assert!(r.route(order(1, "B"), 0).is_none());
    assert!(r.route(cancel(1, ""), 0).is_none());
    let routed = r.route(order(2, "A"), 0).unwrap();
    assert_eq!((routed.shard_seq, routed.sequenced.seq), (1, 1));
}

#[test]
fn commands_keep_their_contents() {
    let mut r = router(&["A", "B"]);
    let routed = r.route(order(7, "B"), 1234).unwrap();
    assert_eq!(routed.route, 1);
    assert_eq!(routed.sequenced.ts, 1234);
    match routed.sequenced.cmd {
        Command::NewOrder(o) => {
            assert_eq!(o.order_id, 7);
            assert_eq!(o.symbol, "B");
            assert_eq!(o.price, 100);
        }
        other => panic!("{other:?}"),
    }
    let routed = r.route(cancel(7, "A"), 1235).unwrap();
    assert_eq!(routed.route, 0);
    assert!(matches!(routed.sequenced.cmd, Command::Cancel { order_id: 7 }));
}

#[test]
fn requests_name_their_symbol() {
    assert_eq!(order(1, "A").symbol(), "A");
    assert_eq!(cancel(1, "B").symbol(), "B");
    assert!(matches!(cancel(9, "B").into_command(), Command::Cancel { order_id: 9 }));
}

#[test]
fn fresh_counters_are_not_used_up() {
    let r = router(&["A"]);
    assert!(r.can_route(&order(1, "A")));
    assert!(r.can_route(&order(1, "B")));
}

#[test]
fn a_symbol_listed_twice_goes_to_its_last_place() {
    let mut r = router(&["A", "B", "A"]);
    assert_eq!(r.route(order(1, "A"), 0).unwrap().route, 2);
    assert_eq!(r.route(order(2, "A"), 0).unwrap().shard_seq, 2);
}
