# evaporchain-execution

The transaction-execution core of EvaporChain, written in Verus: every
function in `src/` carries a `requires`/`ensures` contract that Verus proves.

## Layout

- `src/` — the verified library.
  - `ledger` — transparent transfers, refunds, object creation deposits,
    validator staking and delegation.
  - `block` — per-transaction bookkeeping of a block (gas bound, fees burned
    on failure, revert on failure), key rotation, blob checks, end-of-block
    planning.
  - `partition`, `overlay` — conflict-free partitioning for parallel
    execution (connected components of "shares a state key") and the
    per-partition state overlay with its ordered write-back.
  - `gas` — the gas schedules and gas-priority ordering.
  - `governance`, `decimal` — proposals, votes, quorum and timelock,
    parameter validation (including the `[0, 1]` decimal check).
  - `rewards` — block rewards, fee distribution, staker payouts.
  - `privacy` — shield / unshield / private-transfer admission and pool
    accounting; cryptographic verdicts come in as inputs.
  - `temporal` — deferred transactions and energy watchers.
  - `operations`, `contracts`, `crossshard` — multisig, user operations,
    contract upgrades, storage rent, contract/script admission and
    cross-shard message receipts.
  - `cache` — the bounded execution cache.
  - `hashing`, `text`, `ordering` — BLAKE3 digests, byte-level text helpers
    and stable descending orders.
- `tests/` — ordinary Rust tests of the library.
- `app/` — host-side companions: error types with `Display`, and the
  floating-point parallelism ratio.

What is not here: the executors' block loops themselves (reading and
writing the state store, calling the contract, script, privacy, decay and
fee engines, running partitions on threads). They stand on the chain's
state-store, type and engine crates; the library supplies every decision
those loops make, each step taking and returning plain values.

The library's only trusted item is `hashing::blake3_hash`, which calls
`blake3::hash`; its result is named `blake3_digest` and nothing more is
assumed of it.
