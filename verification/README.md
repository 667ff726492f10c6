# fpoc

A Fair Proof-of-Contribution node: miners are rewarded per epoch for their
shares, their loyalty and their bonded collateral, with Argon2id as the
proof of work.

- `src/` is the library, verified with Verus: targets and their share and
  prefilter derivations, the 120-byte header encoding and the Argon2id
  cache, wallets and addresses, transactions (encoding, signing,
  verification, validation, fees), bonds, shares and aggregates, the share
  pool, slashing proofs, the DDoS guard, peer and sync state, and the chain
  decisions of the node (genesis, mining, checkpoints, state roots).
  Calls into the cryptographic crates sit behind the wrappers of
  `src/crypto.rs`, whose contracts are trusted.
- `tests/` runs the library on concrete values.
- `app/` is the program around it: configuration, the RocksDB store, the
  TCP network, the HTTP interface, the main loop, and the parts that
  compute in floating point (loyalty, contribution scores, rates).
