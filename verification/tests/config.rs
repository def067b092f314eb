//! The start-up checks.

use matching_engine::config::{
    default_protection_bps, Config, ConfigError, EngineConfig, MqConfig,
};

fn config(symbols: &[&str], input: usize, output: usize) -> Config {
    Config {
        mq: MqConfig {
            url: "redis://127.0.0.1/".to_string(),
            inbound_stream: "orders".to_string(),
            trades_topic: "trades".to_string(),
            book_events_topic: "book".to_string(),
        },
        engine: EngineConfig {
            input_ring_capacity: input,
            output_ring_capacity: output,
            market_protection_bps: default_protection_bps(),
        },
        symbols: symbols.iter().map(|s| s.to_string()).collect(),
    }
}

#[test]
fn default_protection_is_five_percent() {
    assert_eq!(default_protection_bps(), 500);
}

#[test]
fn valid_configuration_is_accepted() {
    assert!(config(&["BTC/USD", "ETH/USD"], 1024, 4096).validate().is_ok());
    assert!(config(&["BTC/USD"], 1, 2).validate().is_ok());
    assert!(config(&["BTC/USD"], 1 << 31, 1 << 30).validate().is_ok());
}

#[test]
fn configuration_needs_a_symbol() {
    assert!(matches!(config(&[], 1024, 4096).validate(), Err(ConfigError::NoSymbols)));
    // The symbols are checked first.
    assert!(matches!(config(&[], 3, 3).validate(), Err(ConfigError::NoSymbols)));
}

#[test]
fn input_capacity_must_be_a_power_of_two() {
    for n in [0, 3, 6, 1000, 1025, usize::MAX] {
        match config(&["X", "X"], n, n).validate() {
            Err(ConfigError::InputRingCapacity(m)) => assert_eq!(m, n),
            other => panic!("{other:?}"),
        }
    }
}

#[test]
fn output_capacity_must_be_a_power_of_two() {
    for n in [0, 3, 6, 1000, 1025, usize::MAX] {
        match config(&["X", "X"], 8, n).validate() {
            Err(ConfigError::OutputRingCapacity(m)) => assert_eq!(m, n),
            other => panic!("{other:?}"),
        }
    }
}

#[test]
fn symbols_must_be_unique() {
    match config(&["A", "B", "C", "B", "A"], 8, 8).validate() {
        Err(ConfigError::DuplicateSymbol(s)) => assert_eq!(s, "B"),
        other => panic!("{other:?}"),
    }
    assert!(config(&["A", "a", "AA"], 8, 8).validate().is_ok());
}

#[test]
fn url_can_be_overridden() {
    let resolved = config(&["A"], 8, 8).resolve(Some("redis://other/".to_string())).unwrap();
    assert_eq!(resolved.mq.url, "redis://other/");
    assert_eq!(resolved.mq.inbound_stream, "orders");
    assert_eq!(resolved.mq.trades_topic, "trades");
    assert_eq!(resolved.mq.book_events_topic, "book");
    assert_eq!(resolved.symbols, vec!["A".to_string()]);
    assert_eq!(resolved.engine.input_ring_capacity, 8);
    assert_eq!(resolved.engine.market_protection_bps, 500);

    let resolved = config(&["A"], 8, 8).resolve(None).unwrap();
    assert_eq!(resolved.mq.url, "redis://127.0.0.1/");
}

#[test]
fn misconfigured_process_does_not_start() {
    let result = config(&["A", "A"], 8, 8).resolve(Some("redis://other/".to_string()));
    assert!(matches!(result, Err(ConfigError::DuplicateSymbol(_))));
}
