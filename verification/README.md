# cex_core

The verified core of a centralized exchange, written in Verus. Every function
under `src/` carries a contract that Verus proves; `app/` is the plain Rust
server around it (HTTP handlers, PostgreSQL, WebSocket, metrics).

## Layout

- `decimal.rs` — the exact decimal type shared by every module, with the
  `rust_decimal` operations it relies on stated as trusted contracts.
- `types.rs`, `order_book.rs`, `quantity.rs`, `book_laws.rs` — orders,
  trades and the price-time priority limit order book: adding, cancelling,
  matching (best price first, oldest first within a price, execution at the
  maker's price, self-trade prevention) and depth snapshots. `match_order`
  is proved to conserve quantity when the taker and the makers it trades
  with lie on one common decimal grid (scale at most 28), never to fill an order of the
  taker's own user, and to keep an uncrossed book uncrossed unless matching
  stopped at such an order.
- `engine.rs` — one book per symbol, created on the first order.
- `ledger.rs`, `ledger_laws.rs` — free and locked balances with the
  reservations of open orders; reserving, cancelling, settling fills,
  deposits, withdrawals and transfers between assets, with laws for
  cancel-after-reserve, for a transfer moving exactly its amount, for conservation of
  holdings when a trade settles, and for every locked balance staying equal
  to what the open reservations hold; those laws are stated for the inputs
  on which the decimal arithmetic involved is exact.
- `trading.rs` — placing an order across the engine and the ledger
  (reserve, match, give the reservation back on a refused match, settle
  each trade) and cancelling one (leave the book, release the funds).
- `proof_check.rs`, `solvency.rs` — checking a Merkle-sum-tree membership
  proof (the hash functions are passed in) and the pure parts of the
  solvency endpoints.
- `order_entry.rs`, `wallet.rs`, `market_data.rs`, `auth.rs`, `admin.rs`,
  `api_error.rs`, `persistence.rs`, `text.rs` — the request checks and
  answers of the HTTP endpoints, and the plan of database writes for each
  persisted event.
- `tests/` — the scenarios, run against the compiled library.
