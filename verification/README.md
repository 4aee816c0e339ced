# ondadb

The logic of an embedded key/value storage engine built on log-structured
merge trees, written in Verus: every function in `src/` carries a contract,
and Verus proves that its body keeps it.

## Layout

- `src/` is the library. It computes on plain values: bytes, integers, strings
  and its own types.
  - The catalog: `manifest`, `edit_codec`, `edit_write`, `edit_read`,
    `edit_trip`, `catalog`, `manifest_edit`.
  - Memtables: `memtable`, `skip_shard`, `memtable_arena`, `mem_heap`,
    `mem_iter`.
  - Tables: `sst_entry`, `sst_block`, `sst_build`, `sst_index`, `sst_tree`,
    `sst_aux`, `sst_format`, `sst_writer`, `sst_reader`, `sst_run`,
    `sst_cursor`, `sst_iter`, `sst_open`, `sst_table`.
  - Deletions of ranges: `range_tombstone`.
  - Transactions: `prepared`, `wal_gen`, `span_index`, `snapshot`,
    `snapshot_read`.
  - Parts and tiers: `parts`, `bottom_level`, `part_attach`, `part_move`,
    `move_run`, `storage`, `range_lock`.
  - Counters and shared caches: `perf`, `read_profile`, `read_resources`.
- `app/` is ordinary Rust around the library: files, locks, threads and clocks.
- `tests/` runs the library.

## How contracts are stated

Each type has a view, and contracts speak of views: a memtable is a map from
places (a key and a sequence number) to what was written there, a block is the
sequence of its entries, a catalog is the sequence of its column families. What
is written to disk is stated byte for byte (the `*_wire` functions), what is
read is stated as a parser (the `parse_*` functions), and the `*_round_trip`
laws say that the second gives back the first.

Where an operation alternates between decisions and work on files, the
decisions are a state machine here, and `app/` does the work: `MoveRun` moves a
part to another tier, `SstIterator` walks a table and asks for the blocks it
needs, `TreeWrite` and `TreeLoad` lay an index out as a tree and read it back.

What is taken on trust is what other crates compute: the hashes of
`xxhash-rust` and `sha2`, and the skip list of `crossbeam-skiplist`; and, of the
standard library, its UTF-8 decoder. Each such item says in its documentation
what is believed of it.
