# executor

A verified library for executing blocks of transactions against a tainting key-value state,
either sequentially or split among worker threads that each own the keys they touch.

- `src/` is the library, written in Verus and verified: the state with its taints, the storage
  helpers and codecs, the balances and staking modules, the runtimes (sequential and
  concurrent), transactions and pools, the distributers that assign transactions to workers
  (round robin, connected components of the transaction/key graph, storage aware), the
  decisions of the master and of the workers while a block is authored, and data sets for
  benchmarks. Laws that relate several operations are public proof functions named `law_*`.
- `tests/` exercises the library on concrete values.
- `app/` is the program around it: threads, channels, logging, timing and the benchmarks that
  write CSV files.

Two data structures differ from the obvious standard ones, so that their contracts can be
proved:

- The state is a `KeyedMap`, a vector of key and entry pairs with no key twice, rather than a
  `HashMap` behind a lock. vstd specifies `HashMap` only for keys whose hashing it knows, not for
  the byte strings that are the state's keys; it gives no order in which to walk the map, which
  dumping and comparing states need; and it does not specify locks. Locking is left to the
  program, which holds the whole state behind one lock.
- The connected-components distributer keeps its graph, labels and per-worker loads in vectors
  indexed by position, rather than in `BTreeMap`s keyed by transaction, key and worker id. The
  worker ids are sorted first, so the order in which the original walks its maps is kept.
