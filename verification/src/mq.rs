//! The message queue: what the engine asks of one, where a reader stands in a
//! stream, and which topic an event is published under.

use crate::domain::Event;
use vstd::prelude::*;

verus! {

/// The message queue could not be reached, or did not understand the request.
#[derive(Debug)]
pub struct MqError {
    pub message: String,
}

/// Where commands come from.
pub trait Inbound: Send {
    /// Waits for messages and returns those that have arrived, in order.
    fn poll(&mut self) -> Result<Vec<Vec<u8>>, MqError>;
}

/// Where events go.
pub trait Outbound: Send {
    /// Publishes a message under a topic.
    fn publish(&mut self, topic: &str, payload: &[u8]) -> Result<(), MqError>;
}

/// An entry of a stream, with its payload if it has one.
#[derive(Debug, Clone)]
pub struct StreamEntry {
    pub id: String,
    pub payload: Option<Vec<u8>>,
}

/// The contents of a [`StreamEntry`].
pub struct StreamEntryView {
    pub id: Seq<char>,
    pub payload: Option<Seq<u8>>,
}

impl View for StreamEntry {
    type V = StreamEntryView;

    open spec fn view(&self) -> StreamEntryView {
        StreamEntryView {
            id: self.id@,
            payload: match self.payload {
                Some(bytes) => Some(bytes@),
                None => None,
            },
        }
    }
}

/// The contents of several entries.
pub open spec fn entry_views(entries: Seq<StreamEntry>) -> Seq<StreamEntryView> {
    entries.map_values(|e: StreamEntry| e@)
}

/// The contents of several messages.
pub open spec fn message_views(messages: Seq<Vec<u8>>) -> Seq<Seq<u8>> {
    messages.map_values(|m: Vec<u8>| m@)
}

/// The payloads of the entries that have one, in order.
pub open spec fn payloads(entries: Seq<StreamEntryView>) -> Seq<Seq<u8>>
    decreases entries.len(),
{
    if entries.len() == 0 {
        Seq::empty()
    } else {
        let before = payloads(entries.drop_last());
        match entries.last().payload {
            Some(payload) => before.push(payload),
            None => before,
        }
    }
}

/// Where a reader that stood at `position` stands after it has read the entries: at
/// the last of them, whether or not it had a payload.
pub open spec fn position_after(position: Seq<char>, entries: Seq<StreamEntryView>) -> Seq<char> {
    if entries.len() == 0 {
        position
    } else {
        entries.last().id
    }
}

/// Where a reader stands in a stream: behind the last entry that it has read.
#[derive(Debug)]
pub struct Cursor {
    last_id: String,
}

impl View for Cursor {
    type V = Seq<char>;

    closed spec fn view(&self) -> Seq<char> {
        self.last_id@
    }
}

impl Cursor {
    /// A reader that has read nothing: it starts with the oldest entry.
    pub fn new() -> (cursor: Cursor)
        ensures
            cursor@ == "0-0"@,
    {
        Cursor { last_id: "0-0".to_owned() }
    }

    /// The id of the last entry that was read.
    pub fn last_id(&self) -> (id: &str)
        ensures
            id@ == self@,
    {
        self.last_id.as_str()
    }

    /// Reads a batch of entries: moves behind the last of them, and returns their
    /// payloads in order.
    pub fn advance(&mut self, entries: &Vec<StreamEntry>) -> (messages: Vec<Vec<u8>>)
        ensures
            final(self)@ == position_after(old(self)@, entry_views(entries@)),
            message_views(messages@) == payloads(entry_views(entries@)),
            entries@.len() == 0 ==> final(self)@ == old(self)@ && messages@.len() == 0,
            entries@.len() > 0 ==> final(self)@ == entries@.last().id@,
    {
        let ghost views = entry_views(entries@);
        let mut messages: Vec<Vec<u8>> = Vec::new();
        let mut i: usize = 0;
        while i < entries.len()
            invariant
                i <= entries@.len(),
                views == entry_views(entries@),
                self@ == position_after(old(self)@, views.take(i as int)),
                message_views(messages@) =~= payloads(views.take(i as int)),
            decreases entries@.len() - i,
        {
            let entry = &entries[i];
            let ghost so_far = messages@;
            proof {
                assert(views.take(i + 1).drop_last() =~= views.take(i as int));
                assert(views.take(i + 1).last() == entry@);
            }
            self.last_id = entry.id.clone();
            if let Some(payload) = &entry.payload {
                let message = payload.clone();
                assert(message@ =~= payload@);
                assert(message_views(so_far.push(message)) =~= message_views(so_far).push(
                    message@,
                ));
                messages.push(message);
            }
            i = i + 1;
        }
        assert(views.take(views.len() as int) =~= views);
        messages
    }
}

/// Where a batch ends makes no difference: two batches read one after the other give
/// the messages, and lead to the position, of both read as one.
pub proof fn law_batches_add_up(
    position: Seq<char>,
    first: Seq<StreamEntryView>,
    second: Seq<StreamEntryView>,
)
    ensures
        payloads(first + second) == payloads(first) + payloads(second),
        position_after(position, first + second) == position_after(
            position_after(position, first),
            second,
        ),
    decreases second.len(),
{
    if second.len() == 0 {
        assert(first + second =~= first);
        assert(payloads(first) + payloads(second) =~= payloads(first));
    } else {
        law_batches_add_up(position, first, second.drop_last());
        assert((first + second).drop_last() =~= first + second.drop_last());
        assert(payloads(first + second) =~= payloads(first) + payloads(second));
    }
}

/// What one entry gives: its payload as a message, if it has one, and its id as the new
/// position. Together with the way batches add up this says what any batch gives.
pub proof fn law_one_entry(position: Seq<char>, entry: StreamEntry)
    ensures
        payloads(Seq::empty()) == Seq::<Seq<u8>>::empty(),
        position_after(position, Seq::empty()) == position,
        payloads(entry_views(seq![entry])) == match entry.payload {
            Some(payload) => seq![payload@],
            None => Seq::empty(),
        },
        position_after(position, entry_views(seq![entry])) == entry.id@,
{
    let views = entry_views(seq![entry]);
    assert(views.drop_last() =~= Seq::empty());
    assert(payloads(views.drop_last()) == Seq::<Seq<u8>>::empty());
    assert(payloads(views) =~= match entry.payload {
        Some(payload) => seq![payload@],
        None => Seq::empty(),
    });
}

/// The views of entries and of messages come one for each, in order, and entries of two
/// batches are the entries of both.
pub proof fn law_views_are_faithful(
    first: Seq<StreamEntry>,
    second: Seq<StreamEntry>,
    messages: Seq<Vec<u8>>,
    i: int,
)
    ensures
        entry_views(first + second) == entry_views(first) + entry_views(second),
        message_views(messages).len() == messages.len(),
        0 <= i < messages.len() ==> message_views(messages)[i] == messages[i]@,
{
    assert(entry_views(first + second) =~= entry_views(first) + entry_views(second));
}

/// The topic that an event is published under: trades under their own, all other
/// events under the book's.
pub fn topic_for<'a>(event: &Event, trades_topic: &'a str, book_events_topic: &'a str) -> (topic:
    &'a str)
    ensures
        topic@ == if event is Trade {
            trades_topic@
        } else {
            book_events_topic@
        },
{
    match event {
        Event::Trade { .. } => trades_topic,
        _ => book_events_topic,
    }
}

} // verus!
