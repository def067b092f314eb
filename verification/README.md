# Matching engine

A deterministic central limit order book matching engine. Its rules are stated as
Verus contracts and proved: price-time priority, the five order types (limit, market,
immediate-or-cancel, fill-or-kill, post-only), self-trade prevention by canceling the
resting order, and market protection in basis points.

The library only matches. Accounts, risk checks, clearing and market data are other
services, which it reaches through a message queue.

## Layout

| Path                 | What it holds                                                     |
|----------------------|-------------------------------------------------------------------|
| `src/domain.rs`      | Commands, events and the types they are made of                   |
| `src/model.rs`       | What a book is and what a taker does to it, as mathematics        |
| `src/orderbook.rs`   | The order book: levels, the cancel index, matching                |
| `src/ladder.rs`      | One side of the book                                              |
| `src/engine.rs`      | The engine of one symbol: a command in, a batch of events out     |
| `src/router.rs`      | Sequence numbers, and which engine a request goes to              |
| `src/mq.rs`          | What a message queue must offer, stream positions and topics      |
| `src/config.rs`      | The configuration and its start-up checks                         |
| `src/book_laws.rs`   | Laws of the book                                                  |
| `src/engine_laws.rs` | Laws of the engine: of each command, and of every run             |
| `tests/`             | Tests of the library from outside                                 |
| `app/`               | The process: Redis streams, JSON, threads and channels            |

## How the contracts are built

A book is viewed as two maps from prices to queues of orders, and an index from order
ids to places. `queue` lists one side in price-time priority and `sweep` says what a
taker does to such a list. `OrderBook::match_order` is proved to do exactly that, and
`Engine::handle` to take exactly the step `EngineView::step` and to report its events.

The total of a price level is a 64-bit number. `Engine::can_handle` says whether the
total still fits once a command has put its order on the book, which `Engine::handle`
requires.

## Configuration

```toml
symbols = ["BTC/USD", "ETH/USD"]

[mq]
url               = "redis://127.0.0.1/"   # the MQ_URL environment variable overrides it
inbound_stream    = "orders"
trades_topic      = "trades"
book_events_topic = "book"

[engine]
input_ring_capacity   = 1024   # a power of two
output_ring_capacity  = 4096   # a power of two
market_protection_bps = 500    # five percent, which is also the default
```
