//! Sequencing and routing: each command that arrives is stamped with its place in
//! the order of all commands and sent to the engine of its symbol.

use crate::domain::{Command, NewOrder, OrderId, Sequence, Sequenced, Timestamp};
use vstd::prelude::*;

verus! {

/// A command as it arrives: it names the symbol that it is for.
#[derive(Debug, Clone)]
pub enum Request {
    NewOrder(NewOrder),
    Cancel { order_id: OrderId, symbol: String },
}

impl Request {
    /// The symbol that the request is for.
    pub open spec fn target(self) -> Seq<char> {
        match self {
            Request::NewOrder(order) => order.symbol@,
            Request::Cancel { symbol, .. } => symbol@,
        }
    }

    /// What the engine of the symbol is told.
    pub open spec fn command(self) -> Command {
        match self {
            Request::NewOrder(order) => Command::NewOrder(order),
            Request::Cancel { order_id, .. } => Command::Cancel { order_id },
        }
    }

    /// The symbol that the request is for.
    pub fn symbol(&self) -> (symbol: &String)
        ensures
            symbol@ == self.target(),
    {
        match self {
            Request::NewOrder(order) => &order.symbol,
            Request::Cancel { symbol, .. } => symbol,
        }
    }

    /// What the engine of the symbol is told.
    pub fn into_command(self) -> (command: Command)
        ensures
            command == self.command(),
    {
        match self {
            Request::NewOrder(order) => Command::NewOrder(order),
            Request::Cancel { order_id, .. } => Command::Cancel { order_id },
        }
    }
}

/// A command that was stamped, and the engine that it goes to.
#[derive(Debug)]
pub struct Routed {
    /// The place of the symbol in the list of symbols.
    pub route: usize,
    /// The place of the command among those for its symbol, from 1 without gaps.
    pub shard_seq: Sequence,
    pub sequenced: Sequenced,
}

/// What the router decides about a request.
pub struct Stamp {
    pub route: int,
    pub shard_seq: Sequence,
    pub seq: Sequence,
}

/// The state of a router.
#[verifier::ext_equal]
pub struct RouterView {
    pub symbols: Seq<Seq<char>>,
    /// The number that the next command gets.
    pub next_seq: Sequence,
    /// For each symbol the number that its next command gets.
    pub next_shard_seqs: Seq<Sequence>,
}

/// `i` is the last place where the symbol is listed.
pub open spec fn is_last_place(symbols: Seq<Seq<char>>, symbol: Seq<char>, i: int) -> bool {
    &&& 0 <= i < symbols.len()
    &&& symbols[i] == symbol
    &&& forall|j: int| i < j < symbols.len() ==> #[trigger] symbols[j] != symbol
}

impl RouterView {
    /// A router that has seen no command.
    pub open spec fn new(symbols: Seq<Seq<char>>) -> RouterView {
        RouterView {
            symbols,
            next_seq: 1,
            next_shard_seqs: Seq::new(symbols.len(), |i: int| 1),
        }
    }

    /// Each symbol has a counter.
    pub open spec fn wf(self) -> bool {
        self.next_shard_seqs.len() == self.symbols.len()
    }

    /// Where commands for a symbol go, if the symbol is listed.
    pub open spec fn route_of(self, symbol: Seq<char>) -> Option<int> {
        if exists|i: int| is_last_place(self.symbols, symbol, i) {
            Some(choose|i: int| is_last_place(self.symbols, symbol, i))
        } else {
            None
        }
    }

    /// The counter of the symbol is not used up.
    pub open spec fn has_number_for(self, symbol: Seq<char>) -> bool {
        match self.route_of(symbol) {
            Some(i) => self.next_shard_seqs[i] < Sequence::MAX,
            None => true,
        }
    }

    /// What a command for the symbol does: it is stamped and both its counters move on,
    /// or it is dropped and nothing changes.
    pub open spec fn step(self, symbol: Seq<char>) -> (RouterView, Option<Stamp>) {
        match self.route_of(symbol) {
            Some(i) => (
                RouterView {
                    next_seq: if self.next_seq == Sequence::MAX {
                        0
                    } else {
                        (self.next_seq + 1) as Sequence
                    },
                    next_shard_seqs: self.next_shard_seqs.update(
                        i,
                        (self.next_shard_seqs[i] + 1) as Sequence,
                    ),
                    ..self
                },
                Some(
                    Stamp { route: i, shard_seq: self.next_shard_seqs[i], seq: self.next_seq },
                ),
            ),
            None => (self, None),
        }
    }
}

/// Stamps commands and says which engine each goes to.
#[derive(Debug)]
pub struct Router {
    symbols: Vec<String>,
    next_seq: Sequence,
    next_shard_seqs: Vec<Sequence>,
}

impl View for Router {
    type V = RouterView;

    closed spec fn view(&self) -> RouterView {
        RouterView {
            symbols: self.symbols@.map_values(|s: String| s@),
            next_seq: self.next_seq,
            next_shard_seqs: self.next_shard_seqs@,
        }
    }
}

impl Router {
    /// Each symbol has a counter.
    pub closed spec fn wf(self) -> bool {
        self@.wf()
    }

    /// A router for these symbols. Sequence numbers start at 1.
    pub fn new(symbols: Vec<String>) -> (router: Router)
        ensures
            router.wf(),
            router@ == RouterView::new(symbols@.map_values(|s: String| s@)),
    {
        let mut next_shard_seqs: Vec<Sequence> = Vec::new();
        let mut i: usize = 0;
        while i < symbols.len()
            invariant
                i <= symbols@.len(),
                next_shard_seqs@ =~= Seq::new(i as nat, |k: int| 1),
            decreases symbols@.len() - i,
        {
            next_shard_seqs.push(1);
            i = i + 1;
        }
        Router { symbols, next_seq: 1, next_shard_seqs }
    }

    /// The place in the list of the symbol, if it is listed.
    fn place_of(&self, symbol: &String) -> (place: Option<usize>)
        requires
            self.wf(),
        ensures
            place matches Some(i) ==> i < self@.symbols.len() && self@.route_of(symbol@) == Some(
                i as int,
            ),
            place is None ==> self@.route_of(symbol@) is None,
    {
        let ghost symbols = self@.symbols;
        let mut i: usize = self.symbols.len();
        while i > 0
            invariant
                i <= self.symbols@.len(),
                symbols == self@.symbols,
                symbols.len() == self.symbols@.len(),
                forall|j: int| i <= j < symbols.len() ==> #[trigger] symbols[j] != symbol@,
            decreases i,
        {
            i = i - 1;
            assert(symbols[i as int] == self.symbols@[i as int]@);
            if self.symbols[i] == *symbol {
                proof {
                    lemma_route_is(self@, symbol@, i as int);
                }
                return Some(i);
            }
        }
        None
    }

    /// Whether the counter of the request's symbol is not used up.
    pub fn can_route(&self, request: &Request) -> (b: bool)
        requires
            self.wf(),
        ensures
            b == self@.has_number_for(request.target()),
    {
        match self.place_of(request.symbol()) {
            Some(i) => self.next_shard_seqs[i] < Sequence::MAX,
            None => true,
        }
    }

    /// Stamps a request with its sequence numbers and the time. A request for a symbol
    /// that is not listed is dropped and uses up no number.
    pub fn route(&mut self, request: Request, ts: Timestamp) -> (routed: Option<Routed>)
        requires
            old(self).wf(),
            old(self)@.has_number_for(request.target()),
        ensures
            final(self).wf(),
            final(self)@ == old(self)@.step(request.target()).0,
            match old(self)@.step(request.target()).1 {
                Some(stamp) => routed matches Some(r) && {
                    &&& r.route == stamp.route
                    &&& r.route < old(self)@.symbols.len()
                    &&& r.shard_seq == stamp.shard_seq
                    &&& r.sequenced == (Sequenced {
                        seq: stamp.seq,
                        ts,
                        cmd: request.command(),
                    })
                },
                None => routed is None,
            },
    {
        let route = match self.place_of(request.symbol()) {
            Some(route) => route,
            None => return None,
        };
        let shard_seq = self.next_shard_seqs[route];
        let seq = self.next_seq;
        self.next_shard_seqs.set(route, shard_seq + 1);
        self.next_seq = self.next_seq.wrapping_add(1);
        let sequenced = Sequenced { seq, ts, cmd: request.into_command() };
        Some(Routed { route, shard_seq, sequenced })
    }
}

/// The last place of a symbol is where it is routed.
proof fn lemma_route_is(router: RouterView, symbol: Seq<char>, i: int)
    requires
        is_last_place(router.symbols, symbol, i),
    ensures
        router.route_of(symbol) == Some(i),
{
    let chosen = choose|k: int| is_last_place(router.symbols, symbol, k);
    assert(is_last_place(router.symbols, symbol, chosen));
    assert(!(chosen < i) && !(i < chosen));
}

/// The state after commands for these symbols, and their stamps; those that are
/// dropped have none.
pub open spec fn route_all(router: RouterView, targets: Seq<Seq<char>>) -> (RouterView, Seq<Stamp>)
    decreases targets.len(),
{
    if targets.len() == 0 {
        (router, Seq::empty())
    } else {
        let (before, stamps) = route_all(router, targets.drop_last());
        let (after, stamp) = before.step(targets.last());
        match stamp {
            Some(stamp) => (after, stamps.push(stamp)),
            None => (after, stamps),
        }
    }
}

/// A command for a symbol that is not listed is dropped: it uses up no number.
pub proof fn law_unknown_symbols_are_dropped(router: RouterView, symbol: Seq<char>)
    requires
        !router.symbols.contains(symbol),
    ensures
        router.step(symbol) == (router, None::<Stamp>),
        router.has_number_for(symbol),
{
    if router.route_of(symbol) is Some {
        let i = choose|i: int| is_last_place(router.symbols, symbol, i);
        assert(router.symbols[i] == symbol);
    }
}

/// A command for a symbol that is listed is routed to a place of that symbol.
pub proof fn law_listed_symbols_are_routed(router: RouterView, symbol: Seq<char>, i: int)
    requires
        0 <= i < router.symbols.len(),
        router.symbols[i] == symbol,
    ensures
        router.step(symbol).1 matches Some(stamp) && 0 <= stamp.route < router.symbols.len()
            && router.symbols[stamp.route] == symbol && (router.symbols.no_duplicates()
            ==> stamp.route == i),
    decreases router.symbols.len() - i,
{
    if is_last_place(router.symbols, symbol, i) {
        lemma_route_is(router, symbol, i);
    } else {
        let j = choose|j: int|
            i < j < router.symbols.len() && #[trigger] router.symbols[j] == symbol;
        law_listed_symbols_are_routed(router, symbol, j);
    }
}

/// The stamps of one route.
pub open spec fn stamps_of(stamps: Seq<Stamp>, route: int) -> Seq<Stamp> {
    stamps.filter(|s: Stamp| s.route == route)
}

/// The commands that are routed are numbered without gaps in the order in which they
/// arrive, and so are those of each symbol, for as long as the counters last.
pub proof fn law_numbers_have_no_gaps(router: RouterView, targets: Seq<Seq<char>>, route: int)
    requires
        router.wf(),
        0 <= route < router.symbols.len(),
        router.next_seq + targets.len() <= Sequence::MAX,
        router.next_shard_seqs[route] + targets.len() <= Sequence::MAX,
    ensures
        ({
            let (after, stamps) = route_all(router, targets);
            &&& forall|i: int|
                0 <= i < stamps.len() ==> (#[trigger] stamps[i]).seq == router.next_seq + i
            &&& forall|i: int|
                0 <= i < stamps_of(stamps, route).len() ==> (#[trigger] stamps_of(
                    stamps,
                    route,
                )[i]).shard_seq == router.next_shard_seqs[route] + i
            &&& after.next_seq == router.next_seq + stamps.len()
            &&& after.next_shard_seqs[route] == router.next_shard_seqs[route] + stamps_of(
                stamps,
                route,
            ).len()
            &&& stamps_of(stamps, route).len() <= stamps.len() <= targets.len()
            &&& after.wf()
            &&& after.symbols == router.symbols
        }),
    decreases targets.len(),
{
    reveal(Seq::filter);
    if targets.len() > 0 {
        law_numbers_have_no_gaps(router, targets.drop_last(), route);
        let (before, stamps) = route_all(router, targets.drop_last());
        let (after, stamp) = before.step(targets.last());
        if let Some(stamp) = stamp {
            assert(stamps.push(stamp).drop_last() =~= stamps);
            if before.route_of(targets.last()) is Some {
                let i = choose|i: int| is_last_place(before.symbols, targets.last(), i);
                assert(is_last_place(before.symbols, targets.last(), i));
            }
        }
    }
}

/// A request is for the symbol that it names, and becomes the command that it carries.
pub proof fn law_requests_keep_their_contents(request: Request)
    ensures
        match request {
            Request::NewOrder(order) => {
                &&& request.target() == order.symbol@
                &&& request.command() == Command::NewOrder(order)
            },
            Request::Cancel { order_id, symbol } => {
                &&& request.target() == symbol@
                &&& request.command() == (Command::Cancel { order_id })
            },
        },
{
}

/// A new router numbers from 1, over all symbols and for each of them.
pub proof fn law_numbers_start_at_one(symbols: Seq<Seq<char>>)
    ensures
        RouterView::new(symbols).symbols == symbols,
        RouterView::new(symbols).next_seq == 1,
        RouterView::new(symbols).next_shard_seqs.len() == symbols.len(),
        forall|i: int|
            0 <= i < symbols.len() ==> #[trigger] RouterView::new(symbols).next_shard_seqs[i] == 1,
{
}

/// What routing does to the counters. A command for the symbol at `i`, which is not listed
/// again behind it, goes there. It gets the next number of all and the next number of its
/// symbol, and both counters move on by one; the counter of all starts over when it is
/// used up. The counters of other symbols and the list of symbols stay as they are.
pub proof fn law_routing_moves_two_counters(router: RouterView, symbol: Seq<char>, i: int)
    requires
        router.wf(),
        0 <= i < router.symbols.len(),
        router.symbols[i] == symbol,
        forall|j: int| i < j < router.symbols.len() ==> #[trigger] router.symbols[j] != symbol,
    ensures
        router.has_number_for(symbol) <==> router.next_shard_seqs[i] < u64::MAX,
        ({
            let (after, stamp) = router.step(symbol);
            &&& stamp == Some(
                Stamp {
                    route: i,
                    shard_seq: router.next_shard_seqs[i],
                    seq: router.next_seq,
                },
            )
            &&& router.next_seq < u64::MAX ==> after.next_seq == router.next_seq + 1
            &&& router.next_seq == u64::MAX ==> after.next_seq == 0
            &&& router.next_shard_seqs[i] < u64::MAX ==> after.next_shard_seqs[i]
                == router.next_shard_seqs[i] + 1
            &&& after.next_shard_seqs.len() == router.next_shard_seqs.len()
            &&& forall|j: int|
                0 <= j < router.symbols.len() && j != i ==> #[trigger] after.next_shard_seqs[j]
                    == router.next_shard_seqs[j]
            &&& after.symbols == router.symbols
        }),
{
    assert(is_last_place(router.symbols, symbol, i));
    lemma_route_is(router, symbol, i);
}

} // verus!
