# cc_order_book_sim

A price-time priority limit order book and a price-level book for replaying
LOBSTER exchange messages, written in Verus.

## Layout

- `src/order.rs` — `Order`, `Side`, `OrderType`, `Price` (integer ticks), `OrderId`.
- `src/events.rs` — `BookEvent`: `Accepted`, `Rejected`, `Canceled`, `Trade`.
- `src/level.rs` — `PriceLevel`: the orders at one price, oldest first, and their total.
- `src/book.rs` — `OrderBook` and its matching engine. `submit` and `cancel` are
  specified exactly by `submit_result` and `cancel_result` over the book's view
  (orders per level per side, and the index).
- `src/laws.rs` — properties across operations and runs of them: the book
  never crosses, quantity is conserved, resting orders keep their side, price
  and quantity, the index stays consistent, cancel removes the order and undoes
  a submit that only rested, canceling every resting order empties the book.
- `src/keys.rs` — ordered key lookups on `BTreeMap` (the only trusted code).
- `src/feed/random.rs` — the seeded random-walk order feed: orders within ten
  ticks of a mid that steps by at most one tick per order; `take` gives the
  next `n` orders at once.
- `src/feed/lobster.rs` — LOBSTER message rows and the events they stand for.
- `src/text.rs` — comma splitting, trimming and `i64` parsing as std does them.
- `src/replay.rs` — `LobsterBook`, snapshot seeding and read-back, snapshot
  row parsing, and one step of the replay check; a deeper snapshot extends a
  shallower one, and a book seeded from its own snapshot is the same book.
- `app/main.rs` — the `replay <messages.csv> <orderbook.csv> <depth>` command:
  file and CSV reading, and the loop that feeds `replay_step`.
- `tests/` — scenarios and fixed-seed runs of the book's properties.

Prices key the books' maps by their tick value (`i64`).
