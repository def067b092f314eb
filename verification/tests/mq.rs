//! Reading streams and choosing topics.

use matching_engine::domain::{Event, Side};
use matching_engine::mq::{topic_for, Cursor, Inbound, MqError, Outbound, StreamEntry};

fn entry(id: &str, payload: Option<&[u8]>) -> StreamEntry {
    StreamEntry { id: id.to_string(), payload: payload.map(|p| p.to_vec()) }
}

#[test]
fn cursor_starts_at_the_oldest_entry() {
    assert_eq!(Cursor::new().last_id(), "0-0");
}

#[test]
fn cursor_returns_payloads_in_order() {
    let mut cursor = Cursor::new();
    let messages = cursor.advance(&vec![
        entry("1-0", Some(b"a")),
        entry("1-1", None),
        entry("2-0", Some(b"bc")),
    ]);
    assert_eq!(messages, vec![b"a".to_vec(), b"bc".to_vec()]);
    assert_eq!(cursor.last_id(), "2-0");
}

#[test]
fn cursor_stays_on_an_empty_batch() {
    let mut cursor = Cursor::new();
    cursor.advance(&vec![entry("5-3", Some(b"x"))]);
    assert!(cursor.advance(&Vec::new()).is_empty());
    assert_eq!(cursor.last_id(), "5-3");
}

#[test]
fn cursor_moves_past_an_entry_without_payload() {
    let mut cursor = Cursor::new();
    assert!(cursor.advance(&vec![entry("7-0", None)]).is_empty());
    assert_eq!(cursor.last_id(), "7-0");
}

#[test]
fn batches_add_up() {
    let all = vec![
        entry("1-0", Some(b"a")),
        entry("2-0", None),
        entry("3-0", Some(b"b")),
        entry("4-0", Some(b"c")),
    ];
    let mut whole = Cursor::new();
    let expected = whole.advance(&all);
    for cut in 0..=all.len() {
        let mut cursor = Cursor::new();
        let mut messages = cursor.advance(&all[..cut].to_vec());
        messages.extend(cursor.advance(&all[cut..].to_vec()));
        assert_eq!(messages, expected);
        assert_eq!(cursor.last_id(), whole.last_id());
    }
}

#[test]
fn trades_have_their_own_topic() {
    let trade = Event::Trade {
        seq: 1,
        ts: 1,
        symbol: "X".to_string(),
        taker_order_id: 2,
        maker_order_id: 1,
        taker_side: Side::Buy,
        price: 100,
        quantity: 5,
    };
    assert_eq!(topic_for(&trade, "trades", "book"), "trades");
    let others = [
        Event::Accepted { order_id: 1, seq: 1 },
        Event::Rejected { order_id: 1, reason: "no".to_string() },
        Event::Resting { order_id: 1, side: Side::Buy, price: 1, remaining: 1 },
        Event::Canceled { order_id: 1 },
        Event::Killed { order_id: 1, unfilled: 1, reason: "no".to_string() },
    ];
    for event in &others {
        assert_eq!(topic_for(event, "trades", "book"), "book");
    }
}

struct Memory {
    messages: Vec<Vec<u8>>,
}

impl Inbound for Memory {
    fn poll(&mut self) -> Result<Vec<Vec<u8>>, MqError> {
        if self.messages.is_empty() {
            return Err(MqError { message: "closed".to_string() });
        }
        Ok(std::mem::take(&mut self.messages))
    }
}

impl Outbound for Memory {
    fn publish(&mut self, topic: &str, payload: &[u8]) -> Result<(), MqError> {
        self.messages.push([topic.as_bytes(), b":", payload].concat());
        Ok(())
    }
}

#[test]
fn queues_can_be_implemented() {
    let mut memory = Memory { messages: Vec::new() };
    memory.publish("t", b"1").unwrap();
    memory.publish("u", b"2").unwrap();
    assert_eq!(memory.poll().unwrap(), vec![b"t:1".to_vec(), b"u:2".to_vec()]);
    assert_eq!(memory.poll().unwrap_err().message, "closed");
}
