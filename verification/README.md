# pswap_sync

Follows partial-swap (PSWAP) orders, accounts, notes and transactions of a Miden client as it syncs
with a node. The library is written in Verus: every function states in its contract what it returns,
and the contracts are proved.

- `src/primitives`, `src/asset`, `src/account`, `src/note`, `src/block`, `src/mmr`: the values that
  the rest works on, and the calls into the protocol's own crates.
- `src/encoding`: the byte and text forms of identifiers and words.
- `src/sorted_map`: a map that is kept sorted.
- `src/rpc`: notes as a node sends them.
- `src/pswap`: the lineage of an order, the rounds that a sync reveals of it, what is stored of it,
  and its reclaim.
- `src/sync`: the steps of a sync: what to fetch, how answers are validated, in which order
  transactions were executed, how accounts are reconciled, how notes are voted on, how the partial
  range of blocks is advanced, and what becomes of pending transactions.
- `app`: the traits through which a client reaches a node and a store, the asynchronous sync over
  them, and a SQLite store for lineages.
- `tests`: tests of the library against the protocol's crates.

Contracts that rest on the protocol's crates do so through small functions that make the calls for
one step and convert between types; the comment above each says what is claimed of the calls.
