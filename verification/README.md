# tests-sharder

Splits a list of tests into time-balanced shards, and proves it.

Each test has an identifier and a duration. A shard may hold the target
time, or the longest test's time when that is longer. Tests are placed
longest first, each into the shard with the least time left that still has
room for it; the number of shards starts at the total time divided by the
capacity, rounded up, and a shard is added only when no shard has room.
Full shards come first in the output, then the others by time left.

## Layout

- `src/` is the library, verified with Verus:
  - `test_case.rs`: the `Test` type and the order of tests;
  - `plan.rs`: the placement as a mathematical function (`planned_shards`);
  - `sharder.rs`: `shard_tests`, with a verified merge sort and a
    `BTreeSet` of packed keys, proved to return `planned_shards`;
  - `sharder/reference.rs`: a simpler `shard_tests` over a `BTreeMap`,
    proved to return the same shards;
  - `laws.rs`: properties of every plan (capacity, fullest first, no empty
    shard, tests longest first within a shard, enough shards);
  - `order.rs`, `lookup.rs`: sorted sequences, and ordered lookups in std's
    B-tree collections.
- `app/main.rs` is the command line: it reads JSONL tests from a file or
  stdin and writes one JSONL line per shard.
- `tests/` runs the library on concrete inputs.

```sh
tests-sharder --target-ms 60000 tests.jsonl > shards.jsonl
```
