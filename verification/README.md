# autoshare

A payment-splitting registry: creators make groups, give them members with
basis-point shares (10 000 = the whole amount), and distribute token amounts
among the members. Every non-final member gets its share rounded down; the
last member gets the rounding dust, so payouts add up to exactly the amount.

Layout:

- `src/base/utils.rs` — share arithmetic (`calculate_share`,
  `validate_percentages`, `distribute_amounts`) and the laws of a split.
- `src/base/validators.rs` — input checks used by the contract.
- `src/base/types.rs`, `src/base/errors.rs` — the data and the errors.
- `src/ledger.rs` — the registry as a mathematical ledger, what each
  operation does to it, and the laws that relate the operations.
- `src/contract.rs` — `AutoShareContract`, the registry state and its
  operations, proved against `src/ledger.rs`.
- `app/` — the Soroban contract: authorisation, storage, token transfers and
  events around the library.
- `tests/` — scenario and property tests.
