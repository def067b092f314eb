//! The order book: resting, canceling and matching orders.

use matching_engine::domain::{Price, Quantity, Side};
use matching_engine::orderbook::OrderBook;

/// Orders rest for user 1; takers belong to another user, so that they trade.
const TAKER: u64 = 2;

/// The cached total of a level is the sum of its orders.
fn level_total_matches(book: &OrderBook, side: Side, price: Price) -> bool {
    match book.level(side, price) {
        Some(lvl) => lvl.orders.iter().map(|o| o.remaining).sum::<Quantity>() == lvl.total,
        None => true,
    }
}

#[test]
fn empty_book_has_no_best() {
    let b = OrderBook::new("X");
    assert_eq!(b.best_bid(), None);
    assert_eq!(b.best_ask(), None);
}

#[test]
fn rest_updates_best_price() {
    let mut b = OrderBook::new("X");
    b.rest(1, 1, Side::Buy, 100, 10);
    b.rest(2, 1, Side::Buy, 101, 5);
    assert_eq!(b.best_bid(), Some(101));
    b.rest(3, 1, Side::Sell, 200, 7);
    b.rest(4, 1, Side::Sell, 199, 7);
    assert_eq!(b.best_ask(), Some(199));
}

#[test]
fn limit_buy_simple_fill() {
    let mut b = OrderBook::new("X");
    b.rest(1, 1, Side::Sell, 100, 10);
    let out = b.match_order(Side::Buy, 100, 6, false, None, TAKER);
    assert_eq!(out.remaining, 0);
    assert_eq!(out.fills.len(), 1);
    assert_eq!(out.fills[0].maker_order_id, 1);
    assert_eq!(out.fills[0].price, 100);
    assert_eq!(out.fills[0].quantity, 6);
    assert_eq!(b.best_ask(), Some(100));
}

#[test]
fn fifo_within_same_level() {
    let mut b = OrderBook::new("X");
    b.rest(1, 1, Side::Sell, 100, 5);
    b.rest(2, 1, Side::Sell, 100, 5);
    let out = b.match_order(Side::Buy, 100, 7, false, None, TAKER);
    assert_eq!(out.remaining, 0);
    assert_eq!(out.fills.len(), 2);
    assert_eq!(out.fills[0].maker_order_id, 1);
    assert_eq!(out.fills[0].quantity, 5);
    assert_eq!(out.fills[1].maker_order_id, 2);
    assert_eq!(out.fills[1].quantity, 2);
}

#[test]
fn price_priority_across_levels() {
    let mut b = OrderBook::new("X");
    b.rest(1, 1, Side::Sell, 101, 5);
    b.rest(2, 1, Side::Sell, 100, 5);
    let out = b.match_order(Side::Buy, 101, 8, false, None, TAKER);
    assert_eq!(out.remaining, 0);
    assert_eq!(out.fills[0].price, 100);
    assert_eq!(out.fills[0].quantity, 5);
    assert_eq!(out.fills[1].price, 101);
    assert_eq!(out.fills[1].quantity, 3);
}

#[test]
fn limit_does_not_cross() {
    let mut b = OrderBook::new("X");
    b.rest(1, 1, Side::Sell, 100, 5);
    let out = b.match_order(Side::Buy, 99, 5, false, None, TAKER);
    assert_eq!(out.remaining, 5);
    assert!(out.fills.is_empty());
}

#[test]
fn cancel_removes_and_clears_level() {
    let mut b = OrderBook::new("X");
    b.rest(1, 1, Side::Buy, 100, 5);
    assert!(b.cancel(1));
    assert_eq!(b.best_bid(), None);
    assert!(!b.cancel(1));
}

#[test]
fn would_cross_detects_taker() {
    let mut b = OrderBook::new("X");
    b.rest(1, 1, Side::Sell, 100, 5);
    assert!(b.would_cross(Side::Buy, 100));
    assert!(b.would_cross(Side::Buy, 101));
    assert!(!b.would_cross(Side::Buy, 99));
}

#[test]
fn can_fill_fully_checks_depth() {
    let mut b = OrderBook::new("X");
    b.rest(1, 1, Side::Sell, 100, 5);
    b.rest(2, 1, Side::Sell, 101, 5);
    assert!(b.can_fill_fully(Side::Buy, 101, 10, TAKER));
    assert!(!b.can_fill_fully(Side::Buy, 101, 11, TAKER));
    assert!(!b.can_fill_fully(Side::Buy, 100, 10, TAKER));
}

#[test]
fn market_protection_stops_matching() {
    let mut b = OrderBook::new("X");
    b.rest(1, 1, Side::Sell, 100, 5);
    b.rest(2, 1, Side::Sell, 110, 5);
    let out = b.match_order(Side::Buy, 0, 10, true, Some(105), TAKER);
    assert_eq!(out.fills.len(), 1);
    assert_eq!(out.fills[0].price, 100);
    assert_eq!(out.remaining, 5);
}

// The cached total of a level.

#[test]
fn total_stays_consistent_after_partial_fill() {
    let mut b = OrderBook::new("X");
    b.rest(1, 1, Side::Sell, 100, 10);
    b.rest(2, 1, Side::Sell, 100, 10);
    b.match_order(Side::Buy, 100, 7, false, None, TAKER);
    assert!(level_total_matches(&b, Side::Sell, 100));
}

#[test]
fn total_consistent_after_cancel_middle_order() {
    let mut b = OrderBook::new("X");
    b.rest(1, 1, Side::Buy, 100, 5);
    b.rest(2, 1, Side::Buy, 100, 7);
    b.rest(3, 1, Side::Buy, 100, 3);
    assert!(b.cancel(2));
    assert!(level_total_matches(&b, Side::Buy, 100));
    let out = b.match_order(Side::Sell, 100, 8, false, None, TAKER);
    assert_eq!(out.remaining, 0);
    assert_eq!(out.fills[0].maker_order_id, 1);
    assert_eq!(out.fills[1].maker_order_id, 3);
}

// One resting order taken by several takers.

#[test]
fn maker_consumed_across_multiple_takers() {
    let mut b = OrderBook::new("X");
    b.rest(1, 1, Side::Sell, 100, 10);
    let out1 = b.match_order(Side::Buy, 100, 3, false, None, TAKER);
    assert_eq!(out1.remaining, 0);
    assert_eq!(out1.fills[0].quantity, 3);
    let out2 = b.match_order(Side::Buy, 100, 3, false, None, TAKER);
    assert_eq!(out2.remaining, 0);
    assert_eq!(out2.fills[0].quantity, 3);
    let out3 = b.match_order(Side::Buy, 100, 10, false, None, TAKER);
    assert_eq!(out3.remaining, 6);
    assert_eq!(out3.fills[0].quantity, 4);
    assert_eq!(b.best_ask(), None);
}

// Degenerate inputs.

#[test]
fn zero_qty_match_returns_immediately() {
    let mut b = OrderBook::new("X");
    b.rest(1, 1, Side::Sell, 100, 10);
    let out = b.match_order(Side::Buy, 100, 0, false, None, TAKER);
    assert_eq!(out.remaining, 0);
    assert!(out.fills.is_empty());
    assert_eq!(b.best_ask(), Some(100));
}

#[test]
fn match_on_empty_book() {
    let mut b = OrderBook::new("X");
    let out = b.match_order(Side::Buy, 100, 5, false, None, TAKER);
    assert_eq!(out.remaining, 5);
    assert!(out.fills.is_empty());
}

#[test]
fn market_match_on_empty_book_no_panic() {
    let mut b = OrderBook::new("X");
    let out = b.match_order(Side::Buy, 0, 5, true, None, TAKER);
    assert_eq!(out.remaining, 5);
    assert!(out.fills.is_empty());
}

// Self-trade prevention.

#[test]
fn self_trade_cancels_resting_maker_no_fill() {
    let mut b = OrderBook::new("X");
    b.rest(1, 7, Side::Sell, 100, 5);
    let out = b.match_order(Side::Buy, 100, 5, false, None, 7);
    assert!(out.fills.is_empty());
    assert_eq!(out.stp_canceled, vec![1]);
    assert_eq!(out.remaining, 5);
    assert_eq!(b.best_ask(), None);
    assert!(!b.cancel(1));
}

#[test]
fn self_trade_skips_own_then_fills_others() {
    let mut b = OrderBook::new("X");
    b.rest(1, 7, Side::Sell, 100, 5);
    b.rest(2, 9, Side::Sell, 100, 5);
    let out = b.match_order(Side::Buy, 100, 5, false, None, 7);
    assert_eq!(out.stp_canceled, vec![1]);
    assert_eq!(out.fills.len(), 1);
    assert_eq!(out.fills[0].maker_order_id, 2);
    assert_eq!(out.fills[0].quantity, 5);
    assert_eq!(out.remaining, 0);
    assert!(level_total_matches(&b, Side::Sell, 100));
    assert!(!b.cancel(1));
}

#[test]
fn self_trade_excluded_from_fok_precheck() {
    let mut b = OrderBook::new("X");
    b.rest(1, 7, Side::Sell, 100, 10);
    assert!(!b.can_fill_fully(Side::Buy, 100, 5, 7));
    assert!(b.can_fill_fully(Side::Buy, 100, 5, 99));
}

// Saturation.

#[test]
fn can_fill_fully_saturates_without_overflow() {
    let mut b = OrderBook::new("X");
    b.rest(1, 1, Side::Sell, 100, u64::MAX);
    b.rest(2, 1, Side::Sell, 101, u64::MAX);
    assert!(b.can_fill_fully(Side::Buy, 101, u64::MAX, TAKER));
}

// The index.

#[test]
fn index_cleared_after_full_fill() {
    let mut b = OrderBook::new("X");
    b.rest(1, 1, Side::Sell, 100, 5);
    b.match_order(Side::Buy, 100, 5, false, None, TAKER);
    assert!(!b.cancel(1));
}
