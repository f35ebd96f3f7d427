# trading_engine

A price-time-priority limit order book and matching engine with account risk checks,
snapshot and command-log recovery, verified with Verus.

- `src/` — the verified library.
  - `types.rs`, `events.rs`: orders, commands, events.
  - `book.rs`: the order book (slab-backed FIFO levels in `BTreeMap`s, an order index);
    `book_model.rs`: its abstract model (`BookModel`) and the matching rules.
  - `risk.rs`: account balances, reservations, settlement.
  - `engine.rs`, `engine_model.rs`: one book per instrument, live orders and accounts.
  - `persistence.rs`: recovery from a snapshot and a command log; `gateway.rs`: requests.
  - `collections.rs`: the trusted specifications of the `slab` and `BTreeMap` calls.
  - `book_laws.rs`, `arrival_order.rs`, `risk_laws.rs`, `engine_laws.rs`, `recovery_laws.rs`,
    `reservation_laws.rs`, `balance_laws.rs`, `restart_laws.rs`: proved properties
    (uncrossed books, quantity accounting, no trade-through, price-time priority,
    conservation of cash and quantity, reserved balances equal to what live orders hold,
    engine consistency, deterministic export, exact recovery, restart from a snapshot and
    the later log records).
- `tests/` — executable tests of the library.
- `app/` — the program: the engine task (tokio), the TCP JSON-lines gateway, the files of
  the command log and snapshot, and serializable copies of the library's types.
