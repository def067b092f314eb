//! A deterministic central limit order book matching engine, with its rules
//! stated as contracts and proved.
//!
//! * [`domain`]: commands, events and the vocabulary of orders;
//! * [`model`]: what price-time priority, matching and canceling mean;
//! * [`orderbook`]: the book itself, price levels with first-in first-out queues;
//! * [`engine`]: one command in, a batch of events out;
//! * [`router`]: sequencing commands and routing them to their engine;
//! * [`mq`]: what the message queue side decides;
//! * [`config`]: the start-up configuration and its checks;
//! * [`book_laws`] and [`engine_laws`]: what holds of the book and of the engine as a
//!   whole;
//! * [`market_laws`]: what those who trade are promised, in terms of resting orders, user
//!   ids and events.

pub mod book_laws;
pub mod config;
pub mod domain;
pub mod engine;
pub mod engine_laws;
mod ladder;
pub mod market_laws;
pub mod model;
pub mod mq;
pub mod orderbook;
mod queue_lemmas;
pub mod router;
mod sweep_lemmas;
