# xor_redis

An xor filter over strings, verified with Verus, and the Redis module that
serves it.

- `src/hashing.rs`: the integer hash functions (MurmurHash3 finalizer,
  splitmix64, rotation, multiply-shift range reduction, fingerprint).
- `src/keys.rs`: deduplication of the key list.
- `src/counting.rs`: counting and xor-folding a predicate over `0..n`, the
  model of a slot's summary.
- `src/peel.rs`: the peeling phase: per-slot summaries, singleton queues, and
  the record of peeled keys, with their invariants.
- `src/xor.rs`: the filter, `Xor::populate` and `Xor::contains`, and the
  laws of built filters.
- `src/reorder.rs`: the order of the entries does not change what
  `populate` decides.
- `app/`: the Redis module (native type and commands).

`Xor::populate` is proved to return a filter that answers yes for every entry
it was built from, to fail only on an empty list or when none of its attempts
finds the keys peelable, and to pick the first attempt that does; its table
is stated exactly, as the one the queue-by-queue peeling of that attempt
fills in.
