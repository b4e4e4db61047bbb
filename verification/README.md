# valkey_timeseries

A verified core for time series on a key-value server: the chunks that hold samples, the
compactions that are made from a series, the inverted index from labels to series, and the
queries over both.

`src/` is the library. Everything in it is checked by Verus. Values are the bits of IEEE numbers;
arithmetic on them is handed in by the caller.

* `chunks/`, `series/`: samples, series, compaction rules and policies.
* `postings/`: the inverted index of one database.
* `index/`: what goes on around the indexes: loading, saving, sweeping, slots that move, searching
  labels, statistics.
* `range/`, `querier.rs`, `multi_del.rs`: queries over many series.
* `bytes.rs`, `text.rs`, `encoding.rs`, `regexp.rs`, `text_map.rs`, `rank_heap.rs`: the ground the
  rest stands on. What other crates are trusted to do is stated where it is declared.

`app/` is ordinary Rust around the library: floating-point aggregators and scores, the state of the
process, and the loops that talk to the server. `tests/` runs the library from outside.
