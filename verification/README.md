# exchange

A limit-order-book exchange core, written in Verus and verified.

## Layout

- `src/` — the verified library.
  - `types.rs`, `symbol.rs`, `orders.rs`, `error.rs`: prices, quantities, sides, markets,
    orders and order requests.
  - `slab_orders.rs`, `trade_list.rs`: the slab that holds a level's orders and the small
    vector that collects trades, reached through a few trusted wrappers.
  - `level.rs`: a price level, a first-in-first-out queue of orders over a slab.
  - `book_model.rs`: the mathematical model of a book (both sides, best price first, and
    the per-price tallies), every book operation as a function on it, and the laws proved
    about them: matching leaves the book at rest, makes trades of positive quantities and
    fills each order by exactly its trades, a cancellation takes out exactly one order, a
    fill-and-kill order never rests, adding then cancelling a resting order gives the sides
    back.
  - `orderbook.rs`: the matching book, proved against the model, with tests of whether an
    add, a modification or a cancellation keeps every tally in range.
  - `commands.rs`, `events.rs`: the commands the engine takes and the events it publishes,
    with the event ring's sending end and the log records of events, and when the daily
    good-for-day prune next runs.
  - `risk_engine.rs`, `account.rs`: accounts, holdings and the risk engine's checks,
    reservations, releases and settlements, with their conservation laws.
  - `exchange.rs`: the exchange, which runs each command against its market's book and the
    risk engine and publishes what happened; its contract states the outcome for every
    behavior of the event ring, and a law states that each market numbers its events one
    by one and that a command touches no other market.
  - `signed_orders.rs`: a plainer order model with signed prices and a book over it that
    keeps no tallies.
- `tests/` — tests of the library on concrete values.
- `app/` — the process around the library: serde and error derives on copies of the wire
  types, the disruptor rings, the Kafka client, background workers and the HTTP routes.
