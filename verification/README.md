# tornado_vault

A fixed-denomination vault program for Solana, verified with Verus.

Deposits put a 32-byte commitment into a ring of slots kept in a program
account; a withdrawal that names a stored commitment clears its slot and
releases one denomination of lamports.

* `src/lib.rs` — the current account layout (`store`, 569 bytes), deposit,
  withdrawal, packing and instruction processing, each with its contract
  over `StoreModel`.
* `src/entrypoint.rs` — the earlier layout (ten secrets with per-slot `u32`
  balances, 401 bytes) and its instruction processing.
* `src/codec.rs` — big-endian values of commitments, concatenation of
  fixed-width records, and the little-endian reads and writes done through
  `byteorder`.
* `src/laws.rs` — round trips of packing and unpacking, and how deposits and
  withdrawals of one commitment relate, over any run of other operations.
* `app/` — the Solana glue: accounts, lamport transfers, the `Pack` traits
  and the program entrypoint.
