# pg_machida

A central limit order book matching engine, verified with Verus.

- `src/decimal.rs`: the engine's decimals (`Dec`, a 96-bit mantissa and a
  scale) and the `rust_decimal` operations on them, each with what it
  returns.
- `src/book.rs`: tick arrays of aggregate quantity, FIFO price levels and the
  order book, modelled by `BookView`; insertion, cancellation, best prices
  and depth.
- `src/matching.rs`: the matching loop with price-time priority, self-trade
  prevention, fill-or-kill and immediate-or-cancel orders. Its outcome is
  given by `match_outcome`, a spec-level run of the loop.
- `src/engine.rs`: many instruments, each with its own book; validation of
  tick and lot sizes, circuit breakers, cancellation, mass cancellation and
  queries, modelled by `EngineView`.
- `src/persistence.rs`: rebuilding an engine from stored instruments and
  resting orders; rebuilding from an engine's own instruments and resting
  orders gives back every book.
- `src/priority.rs`: price-time priority. A book of whole-lot orders is
  consistent when its tick counters count the lots of its levels, its best
  ticks are its best occupied levels and every resting order is indexed
  where it rests; on such a book the best prices and the depth report the
  levels, and inserting, cancelling and matching keep it consistent (and
  matching keeps it uncrossed when the book's ticks fit a signed 64-bit
  number and the order's price, in hundredths, fits a `usize`).
- `src/reload.rs`: reloading a consistent book's resting orders in time
  order into an empty book restores every level in FIFO order.
- `src/naming.rs`: every order resting on an instrument's book names that
  instrument, and every engine operation keeps it so.
- `src/participant.rs`: mass cancellation on a consistent book cancels
  exactly the participant's resting orders and returns their number.
- `src/types.rs`, `src/error.rs`, `src/text.rs`: orders, trades, errors and
  their text forms, including the SQL string literals the extension writes.
- `app/`: the PostgreSQL extension around the engine (SQL functions, the
  engine singleton, conversions from and to floating point).
