# synap_server

The data structures and rules of the Synap data server, written in Verus:
each public function carries a contract over a mathematical model of its
type, and Verus proves the code against it.

- `src/` is the verified library: the key-value store (`kv_store`, modelled
  in `kv_model`), bitmaps, sets, HyperLogLog sketches, partitioned topics,
  consumer groups, streams, queues, transactions, caches (LRU, LFU, ARC),
  users, API keys, ACLs and permissions, cluster and migration bookkeeping.
  Calls into outside crates (compression, hashing, encodings, UUIDs, random
  numbers) and the clock stand behind small trusted wrappers whose
  contracts say what the crate documents.
- `app/` is the unverified shell around it: background workers, file I/O,
  serde copies of library types, and the parts that compute with floating
  point (geospatial distances, sorted-set scores, cardinality estimates).
- `tests/` runs the library with the real outside crates linked.
