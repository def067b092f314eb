//! The whole path of a request: routed, sequenced, handled by the engine of its
//! symbol, and published under a topic.

use matching_engine::config::{Config, EngineConfig, MqConfig};
use matching_engine::domain::{Event, NewOrder, OrderType, Side};
use matching_engine::engine::Engine;
use matching_engine::mq::topic_for;
use matching_engine::router::{Request, Router};

const SYMBOL: &str = "BTC/USD";

fn order(id: u64, user: u64, side: Side, order_type: OrderType, price: u64, quantity: u64) -> NewOrder {
    NewOrder {
        order_id: id,
        symbol: SYMBOL.to_string(),
        side,
        order_type,
        price,
        quantity,
        user_id: user,
    }
}

fn limit(id: u64, user: u64, side: Side, price: u64, quantity: u64) -> NewOrder {
    order(id, user, side, OrderType::Limit, price, quantity)
}

struct Harness {
    config: Config,
    router: Router,
    engines: Vec<Engine>,
    clock: u64,
    book: Vec<Event>,
    trades: Vec<Event>,
}

impl Harness {
    fn start() -> Self {
        let config = Config {
            mq: MqConfig {
                url: "redis://127.0.0.1:6379/".to_string(),
                inbound_stream: "orders".to_string(),
                trades_topic: "trades".to_string(),
                book_events_topic: "book".to_string(),
            },
            engine: EngineConfig {
                input_ring_capacity: 1024,
                output_ring_capacity: 4096,
                market_protection_bps: 500,
            },
            symbols: vec![SYMBOL.to_string()],
        };
        let config = config.resolve(None).unwrap();
        let engines = config
            .symbols
            .iter()
            .map(|s| Engine::new(s, config.engine.market_protection_bps))
            .collect();
        Harness {
            router: Router::new(config.symbols.clone()),
            config,
            engines,
            clock: 0,
            book: Vec::new(),
            trades: Vec::new(),
        }
    }

    fn send(&mut self, request: Request) {
        self.clock += 1;
        assert!(self.router.can_route(&request));
        let routed = match self.router.route(request, self.clock) {
            Some(routed) => routed,
            None => return,
        };
        let engine = &mut self.engines[routed.route];
        assert!(engine.can_handle(&routed.sequenced));
        for event in engine.handle(&routed.sequenced) {
            let topic = topic_for(
                &event,
                &self.config.mq.trades_topic,
                &self.config.mq.book_events_topic,
            );
            if topic == "trades" {
                self.trades.push(event);
            } else {
                assert_eq!(topic, "book");
                self.book.push(event);
            }
        }
    }

    fn new_order(&mut self, o: NewOrder) {
        self.send(Request::NewOrder(o));
    }

    fn cancel(&mut self, order_id: u64) {
        self.send(Request::Cancel { order_id, symbol: SYMBOL.to_string() });
    }

    /// All that was published since the last call, of which there must be `n` events.
    fn collect_n(&mut self, n: usize) -> Vec<Event> {
        let events = self.drain();
        assert_eq!(events.len(), n, "{events:?}");
        events
    }

    /// All that was published since the last call.
    fn drain(&mut self) -> Vec<Event> {
        let mut events = std::mem::take(&mut self.book);
        events.append(&mut self.trades);
        events
    }
}

fn trades(evs: &[Event]) -> Vec<&Event> {
    evs.iter().filter(|e| matches!(e, Event::Trade { .. })).collect()
}

fn total_traded(evs: &[Event]) -> u64 {
    evs.iter()
        .filter_map(|e| match e {
            Event::Trade { quantity, .. } => Some(*quantity),
            _ => None,
        })
        .sum()
}

fn has_accepted(evs: &[Event], id: u64) -> bool {
    evs.iter().any(|e| matches!(e, Event::Accepted { order_id, .. } if *order_id == id))
}

fn has_rejected(evs: &[Event], id: u64) -> bool {
    evs.iter().any(|e| matches!(e, Event::Rejected { order_id, .. } if *order_id == id))
}

fn has_resting(evs: &[Event], id: u64) -> bool {
    evs.iter().any(|e| matches!(e, Event::Resting { order_id, .. } if *order_id == id))
}

fn has_canceled(evs: &[Event], id: u64) -> bool {
    evs.iter().any(|e| matches!(e, Event::Canceled { order_id } if *order_id == id))
}

fn has_killed(evs: &[Event], id: u64) -> bool {
    evs.iter().any(|e| matches!(e, Event::Killed { order_id, .. } if *order_id == id))
}

#[test]
fn limit_resting_then_cross_trades() {
    let mut h = Harness::start();

    h.new_order(limit(1, 100, Side::Sell, 100, 10));
    let evs = h.collect_n(2);
    assert!(has_accepted(&evs, 1), "{evs:?}");
    assert!(has_resting(&evs, 1), "{evs:?}");

    h.new_order(limit(2, 200, Side::Buy, 105, 4));
    let evs = h.collect_n(2);
    assert!(has_accepted(&evs, 2), "{evs:?}");

    let ts = trades(&evs);
    assert_eq!(ts.len(), 1, "{evs:?}");
    if let Event::Trade { taker_order_id, maker_order_id, price, quantity, .. } = ts[0] {
        assert_eq!(*taker_order_id, 2);
        assert_eq!(*maker_order_id, 1);
        assert_eq!(*price, 100, "the price is the maker's");
        assert_eq!(*quantity, 4);
    }
}

#[test]
fn cancel_resting_order() {
    let mut h = Harness::start();

    h.new_order(limit(1, 100, Side::Sell, 100, 5));
    let evs = h.collect_n(2);
    assert!(has_resting(&evs, 1), "{evs:?}");

    h.cancel(1);
    let evs = h.collect_n(1);
    assert!(has_canceled(&evs, 1), "{evs:?}");
}

#[test]
fn cancel_unknown_rejected() {
    let mut h = Harness::start();
    h.cancel(999);
    let evs = h.collect_n(1);
    assert!(has_rejected(&evs, 999), "{evs:?}");
}

#[test]
fn post_only_rejected_when_crossing() {
    let mut h = Harness::start();

    h.new_order(limit(1, 100, Side::Sell, 100, 5));
    let _ = h.collect_n(2);

    h.new_order(order(2, 200, Side::Buy, OrderType::PostOnly, 101, 1));
    let evs = h.collect_n(2);
    assert!(has_accepted(&evs, 2), "{evs:?}");
    assert!(has_rejected(&evs, 2), "{evs:?}");
    assert!(trades(&evs).is_empty(), "{evs:?}");
}

#[test]
fn post_only_rests_when_not_crossing() {
    let mut h = Harness::start();
    h.new_order(order(1, 100, Side::Buy, OrderType::PostOnly, 100, 5));
    let evs = h.collect_n(2);
    assert!(has_resting(&evs, 1), "{evs:?}");
    assert!(!has_rejected(&evs, 1), "{evs:?}");
}

#[test]
fn fok_killed_leaves_book_intact() {
    let mut h = Harness::start();

    h.new_order(limit(1, 100, Side::Sell, 100, 5));
    let _ = h.collect_n(2);

    h.new_order(order(2, 200, Side::Buy, OrderType::Fok, 100, 10));
    let evs = h.collect_n(2);
    assert!(has_killed(&evs, 2), "{evs:?}");
    assert!(trades(&evs).is_empty(), "{evs:?}");

    // The maker still rests: a buyer of 5 trades with it.
    h.new_order(limit(3, 300, Side::Buy, 100, 5));
    let evs = h.collect_n(2);
    assert_eq!(trades(&evs).len(), 1, "{evs:?}");
}

#[test]
fn ioc_partial_then_kill() {
    let mut h = Harness::start();

    h.new_order(limit(1, 100, Side::Sell, 100, 3));
    let _ = h.collect_n(2);

    h.new_order(order(2, 200, Side::Buy, OrderType::Ioc, 100, 5));
    let evs = h.collect_n(3);
    assert!(has_accepted(&evs, 2), "{evs:?}");
    assert_eq!(total_traded(&evs), 3, "{evs:?}");
    assert!(has_killed(&evs, 2), "{evs:?}");
    assert!(!has_resting(&evs, 2), "{evs:?}");
}

#[test]
fn integration_redis_market_order_respects_protection() {
    let mut h = Harness::start();

    h.new_order(limit(1, 100, Side::Sell, 100, 5));
    h.new_order(limit(2, 100, Side::Sell, 110, 5));
    let _ = h.collect_n(4);

    // Five percent above the best ask of 100 is 105: the level at 110 is out of bounds.
    h.new_order(order(3, 200, Side::Buy, OrderType::Market, 0, 10));
    let evs = h.collect_n(3);
    assert_eq!(total_traded(&evs), 5, "{evs:?}");
    assert!(has_killed(&evs, 3), "{evs:?}");
}

#[test]
fn self_trade_prevention_cancels_resting() {
    let mut h = Harness::start();

    h.new_order(limit(1, 777, Side::Sell, 100, 5));
    let _ = h.collect_n(2);

    h.new_order(limit(2, 777, Side::Buy, 100, 5));
    let evs = h.collect_n(3);
    assert!(has_canceled(&evs, 1), "{evs:?}");
    assert!(trades(&evs).is_empty(), "{evs:?}");
    assert!(has_resting(&evs, 2), "{evs:?}");
}

#[test]
fn integration_redis_self_trade_skips_own_fills_other() {
    let mut h = Harness::start();

    h.new_order(limit(1, 7, Side::Sell, 100, 5));
    h.new_order(limit(2, 9, Side::Sell, 100, 5));
    let _ = h.collect_n(4);

    h.new_order(limit(3, 7, Side::Buy, 100, 5));
    let evs = h.collect_n(3);
    assert!(has_canceled(&evs, 1), "{evs:?}");
    let ts = trades(&evs);
    assert_eq!(ts.len(), 1, "{evs:?}");
    if let Event::Trade { maker_order_id, .. } = ts[0] {
        assert_eq!(*maker_order_id, 2, "{evs:?}");
    }
}

#[test]
fn zero_qty_accepted_then_rejected() {
    let mut h = Harness::start();

    h.new_order(limit(1, 100, Side::Buy, 100, 0));
    let evs = h.collect_n(2);
    assert!(has_accepted(&evs, 1), "{evs:?}");
    assert!(has_rejected(&evs, 1), "{evs:?}");
    assert!(trades(&evs).is_empty(), "{evs:?}");
}

#[test]
fn unknown_symbol_dropped() {
    let mut h = Harness::start();

    let bad = NewOrder {
        order_id: 1,
        symbol: "DOGE/USD".into(),
        side: Side::Buy,
        order_type: OrderType::Limit,
        price: 100,
        quantity: 5,
        user_id: 100,
    };
    h.new_order(bad);

    let evs = h.drain();
    assert!(evs.is_empty(), "{evs:?}");
}

#[test]
fn test_500_orders() {
    const N: u64 = 500;
    let mut h = Harness::start();

    // One seller that is large enough for all the buyers.
    h.new_order(limit(1, 1, Side::Sell, 100, N));
    let evs = h.collect_n(2);
    assert!(has_resting(&evs, 1), "{evs:?}");

    for i in 0..N {
        h.new_order(limit(1000 + i, 2, Side::Buy, 100, 1));
    }
    let evs = h.collect_n((N * 2) as usize);
    assert_eq!(total_traded(&evs), N);
    assert_eq!(trades(&evs).len() as u64, N);
}
