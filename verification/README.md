# message_dedup

Message deduplication for the partitions of a replicated log, written in Verus:
every function in `src/` states what it does and is proved to do it.

- `policy`, `user_headers`, `key`, `hash`, `wire`: from a message's raw user
  headers to its 128-bit dedup key.
- `index`, `index_model`: the per-partition index of committed and pending keys,
  and the model its contracts speak of.
- `batch`: the primary's decision on a batch, and folding batches into the index.
- `laws`, `partition_laws`: what holds of the index over a log, and of a
  partition over a run. No key comes twice within the window, no message is
  lost, and replicas that committed the same log decide alike.
- `metadata`, `responses`, `accounts`, `stats`, `options_catalog`, `dispatch`:
  reads answered from committed metadata.
- `campaign`, `audit`: fuzz campaigns against a replicated group.

`app/` holds what surrounds the library: the record codec, the wire codec and
the simulated group, each behind a trait.

The trusted items are the XXH3 hash of `twox-hash`, lossy UTF-8 decoding of the
standard library, and the seeded generator of `rand_xoshiro` with the ranges
`rand` draws from it.
