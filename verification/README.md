# cache_proj

A bucketed in-memory cache whose entries live in fixed-size cache lines, verified with Verus.

- `src/cache/`: the hashed cache. A key is hashed with murmur3; the low bits of the hash pick
  a bucket, its two top bytes are the in-bucket key and all sixteen bytes the key reminder.
  Each bucket is a chain of seven-slot cache lines; a line keeps four inline value bytes per
  slot and a byte store for ids, key reminders and whole values. Freed lines are kept in a
  roaring bitmap.
- `src/cache/bucket_laws.rs`: what a read finds, and a delete takes out, after a put of a new
  key into one bucket.
- `src/bucket.rs`, `src/cl.rs`, `src/cl_store.rs`: the single-bucket layout with `u32` inline
  values.
- `src/performance/`: the synthetic load's key layout, key range, the writing of a batch of
  vectors, the steps of an append (batches, progress and report decisions), and the check of
  what its reads return.
- `src/bits.rs`, `src/bytes.rs`, `src/free_set.rs`: bit-level facts, byte comparison, and the
  trusted contracts of the roaring bitmap calls.
- `app/`: the demo program and the timed load harness around the library.

The laws of the library (what a read gives back after a write, what a delete leaves, how
lines are allocated and reused) are public proof functions next to the operations they speak
of.
