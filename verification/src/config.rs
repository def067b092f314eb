//! The start-up configuration. An engine that is misconfigured does not start.

use vstd::arithmetic::power::pow;
use vstd::arithmetic::power2::{is_pow2, is_pow2_equiv};
use vstd::prelude::*;

verus! {

/// What the process is started with.
#[derive(Debug, Clone)]
pub struct Config {
    pub mq: MqConfig,
    pub engine: EngineConfig,
    /// The symbols that are traded, for example "BTC/USD". Each gets its own engine.
    pub symbols: Vec<String>,
}

/// Where the message queue is and what its streams are called.
#[derive(Debug, Clone)]
pub struct MqConfig {
    /// Where to connect, for example "redis://127.0.0.1/".
    pub url: String,
    /// The stream that orders come in on.
    pub inbound_stream: String,
    /// The topic of trades, read by clearing.
    pub trades_topic: String,
    /// The topic of all other events, read by market data.
    pub book_events_topic: String,
}

/// The sizes of the queues, and how far market orders may go.
#[derive(Debug, Clone, Copy)]
pub struct EngineConfig {
    /// How many commands each engine's input queue holds.
    pub input_ring_capacity: usize,
    /// How many batches of events each output queue holds.
    pub output_ring_capacity: usize,
    /// Market protection in basis points: 500 is five percent.
    pub market_protection_bps: u64,
}

/// What is wrong with a configuration.
#[derive(Debug)]
pub enum ConfigError {
    /// There is no symbol.
    NoSymbols,
    /// The capacity of the input queues is not a power of two.
    InputRingCapacity(usize),
    /// The capacity of the output queues is not a power of two.
    OutputRingCapacity(usize),
    /// A symbol is listed twice.
    DuplicateSymbol(String),
}

/// The contents of an [`MqConfig`].
pub struct MqConfigView {
    pub url: Seq<char>,
    pub inbound_stream: Seq<char>,
    pub trades_topic: Seq<char>,
    pub book_events_topic: Seq<char>,
}

/// The contents of a [`Config`].
pub struct ConfigView {
    pub mq: MqConfigView,
    pub engine: EngineConfig,
    pub symbols: Seq<Seq<char>>,
}

impl View for MqConfig {
    type V = MqConfigView;

    open spec fn view(&self) -> MqConfigView {
        MqConfigView {
            url: self.url@,
            inbound_stream: self.inbound_stream@,
            trades_topic: self.trades_topic@,
            book_events_topic: self.book_events_topic@,
        }
    }
}

impl View for Config {
    type V = ConfigView;

    open spec fn view(&self) -> ConfigView {
        ConfigView {
            mq: self.mq@,
            engine: self.engine,
            symbols: self.symbols@.map_values(|s: String| s@),
        }
    }
}

/// The symbol at `i` was listed before.
pub open spec fn repeats(symbols: Seq<Seq<char>>, i: int) -> bool {
    exists|j: int| 0 <= j < i && #[trigger] symbols[j] == symbols[i]
}

/// The symbol at `i` is the first that was listed before.
pub open spec fn is_first_repeat(symbols: Seq<Seq<char>>, i: int) -> bool {
    &&& 0 <= i < symbols.len()
    &&& repeats(symbols, i)
    &&& forall|k: int| 0 <= k < i ==> !#[trigger] repeats(symbols, k)
}

impl ConfigView {
    /// There is a symbol, both capacities are powers of two, and no symbol is listed
    /// twice.
    pub open spec fn valid(self) -> bool {
        &&& self.symbols.len() > 0
        &&& is_pow2(self.engine.input_ring_capacity as int)
        &&& is_pow2(self.engine.output_ring_capacity as int)
        &&& self.symbols.no_duplicates()
    }

    /// This is the first thing that is wrong, in the order: symbols, input capacity,
    /// output capacity, duplicates.
    pub open spec fn fails_with(self, error: ConfigError) -> bool {
        let has_symbols = self.symbols.len() > 0;
        let input_fits = is_pow2(self.engine.input_ring_capacity as int);
        let output_fits = is_pow2(self.engine.output_ring_capacity as int);
        match error {
            ConfigError::NoSymbols => !has_symbols,
            ConfigError::InputRingCapacity(n) => {
                &&& has_symbols
                &&& !input_fits
                &&& n == self.engine.input_ring_capacity
            },
            ConfigError::OutputRingCapacity(n) => {
                &&& has_symbols
                &&& input_fits
                &&& !output_fits
                &&& n == self.engine.output_ring_capacity
            },
            ConfigError::DuplicateSymbol(s) => {
                &&& has_symbols
                &&& input_fits
                &&& output_fits
                &&& exists|i: int|
                    is_first_repeat(self.symbols, i) && s@ == #[trigger] self.symbols[i]
            },
        }
    }

    /// The configuration with the address of the message queue replaced, if another
    /// is given.
    pub open spec fn with_url(self, url: Option<String>) -> ConfigView {
        match url {
            Some(url) => ConfigView { mq: MqConfigView { url: url@, ..self.mq }, ..self },
            None => self,
        }
    }
}

/// The market protection of a configuration that gives none: five percent.
pub fn default_protection_bps() -> (bps: u64)
    ensures
        bps == 500,
{
    500
}

/// Whether `n` is a power of two.
fn is_power_of_two(n: usize) -> (b: bool)
    ensures
        b == is_pow2(n as int),
{
    proof {
        reveal(is_pow2);
    }
    if n == 0 {
        return false;
    }
    let mut rest: usize = n;
    while rest % 2 == 0
        invariant
            rest > 0,
            is_pow2(n as int) == is_pow2(rest as int),
        decreases rest,
    {
        proof {
            reveal(is_pow2);
        }
        rest = rest / 2;
    }
    rest == 1
}

impl Config {
    /// The configuration that the process runs with: the address of the message queue
    /// is replaced by `mq_url`, if that is given, and the result is checked.
    pub fn resolve(self, mq_url: Option<String>) -> (result: Result<Config, ConfigError>)
        ensures
            match result {
                Ok(config) => config@ == self@.with_url(mq_url) && config@.valid(),
                Err(error) => self@.with_url(mq_url).fails_with(error),
            },
            result is Ok <==> self@.valid(),
            result matches Err(error) ==> self@.fails_with(error),
            result matches Ok(config) ==> {
                &&& config.symbols == self.symbols
                &&& config.engine == self.engine
                &&& config.mq.url@ == match mq_url {
                    Some(url) => url@,
                    None => self.mq.url@,
                }
                &&& config.mq.inbound_stream == self.mq.inbound_stream
                &&& config.mq.trades_topic == self.mq.trades_topic
                &&& config.mq.book_events_topic == self.mq.book_events_topic
            },
    {
        let mut config = self;
        if let Some(url) = mq_url {
            config.mq.url = url;
        }
        match config.validate() {
            Ok(()) => Ok(config),
            Err(error) => Err(error),
        }
    }

    /// Checks the configuration and reports the first thing that is wrong with it.
    pub fn validate(&self) -> (result: Result<(), ConfigError>)
        ensures
            match result {
                Ok(()) => self@.valid(),
                Err(error) => self@.fails_with(error),
            },
    {
        if self.symbols.len() == 0 {
            return Err(ConfigError::NoSymbols);
        }
        if !is_power_of_two(self.engine.input_ring_capacity) {
            return Err(ConfigError::InputRingCapacity(self.engine.input_ring_capacity));
        }
        if !is_power_of_two(self.engine.output_ring_capacity) {
            return Err(ConfigError::OutputRingCapacity(self.engine.output_ring_capacity));
        }
        let ghost symbols = self@.symbols;
        let mut i: usize = 0;
        while i < self.symbols.len()
            invariant
                i <= self.symbols@.len(),
                self.symbols@.len() > 0,
                symbols == self@.symbols,
                is_pow2(self.engine.input_ring_capacity as int),
                is_pow2(self.engine.output_ring_capacity as int),
                forall|k: int| 0 <= k < i ==> !#[trigger] repeats(symbols, k),
            decreases self.symbols@.len() - i,
        {
            if self.is_listed_before(i) {
                assert(is_first_repeat(symbols, i as int));
                assert(self.symbols@[i as int]@ == symbols[i as int]);
                return Err(ConfigError::DuplicateSymbol(self.symbols[i].clone()));
            }
            i = i + 1;
        }
        proof {
            assert forall|a: int, b: int|
                0 <= a < symbols.len() && 0 <= b < symbols.len() && a != b implies symbols[a]
                != symbols[b] by {
                assert(!repeats(symbols, a) && !repeats(symbols, b));
            }
        }
        Ok(())
    }

    /// Whether the symbol at `i` was listed before.
    fn is_listed_before(&self, i: usize) -> (b: bool)
        requires
            i < self.symbols@.len(),
        ensures
            b == repeats(self@.symbols, i as int),
    {
        let ghost symbols = self@.symbols;
        let mut j: usize = 0;
        while j < i
            invariant
                j <= i < self.symbols@.len(),
                symbols == self@.symbols,
                forall|k: int| 0 <= k < j ==> #[trigger] symbols[k] != symbols[i as int],
            decreases i - j,
        {
            if self.symbols[j] == self.symbols[i] {
                assert(symbols[j as int] == symbols[i as int]);
                return true;
            }
            j = j + 1;
        }
        false
    }
}

/// `n` is two to some power.
pub open spec fn two_to_some_power(n: usize) -> bool {
    exists|e: nat| #[trigger] pow(2, e) == n
}

/// What is asked of a configuration: at least one symbol, no symbol twice, and capacities
/// that are powers of two. If it falls short, the error names the first of these that
/// fails: the symbols, the input capacity, the output capacity, and then the first symbol
/// that was listed before.
pub proof fn law_what_is_asked_of_a_configuration(config: Config, error: ConfigError)
    ensures
        ({
            let symbols = config.symbols@;
            let input = config.engine.input_ring_capacity;
            let output = config.engine.output_ring_capacity;
            &&& config@.valid() <==> {
                &&& symbols.len() > 0
                &&& two_to_some_power(input)
                &&& two_to_some_power(output)
                &&& forall|i: int, j: int|
                    0 <= i < j < symbols.len() ==> (#[trigger] symbols[i])@ != (
                    #[trigger] symbols[j])@
            }
            &&& config@.fails_with(error) <==> match error {
                ConfigError::NoSymbols => symbols.len() == 0,
                ConfigError::InputRingCapacity(n) => {
                    &&& symbols.len() > 0
                    &&& !two_to_some_power(input)
                    &&& n == input
                },
                ConfigError::OutputRingCapacity(n) => {
                    &&& symbols.len() > 0
                    &&& two_to_some_power(input)
                    &&& !two_to_some_power(output)
                    &&& n == output
                },
                ConfigError::DuplicateSymbol(s) => {
                    &&& two_to_some_power(input)
                    &&& two_to_some_power(output)
                    &&& exists|i: int, j: int|
                        {
                            &&& 0 <= j < i < symbols.len()
                            &&& (#[trigger] symbols[i])@ == s@
                            &&& (#[trigger] symbols[j])@ == s@
                            &&& forall|a: int, b: int|
                                0 <= a < b < i ==> (#[trigger] symbols[a])@ != (
                                #[trigger] symbols[b])@
                        }
                },
            }
        }),
{
    let symbols = config.symbols@;
    let views = config@.symbols;
    is_pow2_equiv(config.engine.input_ring_capacity as int);
    is_pow2_equiv(config.engine.output_ring_capacity as int);
    assert forall|i: int, j: int| 0 <= i < j < symbols.len() implies ((#[trigger] symbols[i])@ == (
    #[trigger] symbols[j])@) == (views[i] == views[j]) by {}
    if config@.valid() {
        assert forall|i: int, j: int| 0 <= i < j < symbols.len() implies (#[trigger] symbols[i])@
            != (#[trigger] symbols[j])@ by {
            assert(views[i] != views[j]);
        }
    }
    if let ConfigError::DuplicateSymbol(s) = error {
        if config@.fails_with(error) {
            let i = choose|i: int| is_first_repeat(views, i) && s@ == #[trigger] views[i];
            let j = choose|j: int| 0 <= j < i && #[trigger] views[j] == views[i];
            assert(symbols[i]@ == s@ && symbols[j]@ == s@);
            assert forall|a: int, b: int| 0 <= a < b < i implies (#[trigger] symbols[a])@ != (
            #[trigger] symbols[b])@ by {
                assert(!repeats(views, b));
                assert(views[a] != views[b]);
            }
        }
        if exists|i: int, j: int|
            {
                &&& 0 <= j < i < symbols.len()
                &&& (#[trigger] symbols[i])@ == s@
                &&& (#[trigger] symbols[j])@ == s@
                &&& forall|a: int, b: int|
                    0 <= a < b < i ==> (#[trigger] symbols[a])@ != (#[trigger] symbols[b])@
            } {
            let (i, j) = choose|i: int, j: int|
                {
                    &&& 0 <= j < i < symbols.len()
                    &&& (#[trigger] symbols[i])@ == s@
                    &&& (#[trigger] symbols[j])@ == s@
                    &&& forall|a: int, b: int|
                        0 <= a < b < i ==> (#[trigger] symbols[a])@ != (#[trigger] symbols[b])@
                };
            assert(views[j] == views[i]);
            assert forall|k: int| 0 <= k < i implies !#[trigger] repeats(views, k) by {
                if repeats(views, k) {
                    let a = choose|a: int| 0 <= a < k && #[trigger] views[a] == views[k];
                    assert(symbols[a]@ != symbols[k]@);
                }
            }
            assert(is_first_repeat(views, i) && s@ == views[i]);
        }
    }
}

} // verus!
