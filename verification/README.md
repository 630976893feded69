# CrustyDB

A relational storage and query core whose behaviour is proved with Verus: slotted
pages and heap files, a B+Tree index with duplicate and composite keys, the
operators that keep indexes in step with their tables, and a cost-based optimizer.

- `src/common`: fields and their order, rows and their stored form, schemas, logical
  and physical plans.
- `src/heapstore`: a page as a sequence of slots, the pool of pages, heap files and
  the walk over their values.
- `src/index`: the stored entries of a node, what a page of a tree holds, the tree as
  a mathematical object, how many pages an insertion takes, how the tree grows, and
  the index manager.
- `src/queryexe`: the index scan, the update and the delete operator.
  `consistency.rs` states that an index mirrors its table whatever is inserted,
  updated or deleted, and that a lookup finds exactly the rows a scan would.
- `src/optimizer`: the memo, the choice of the cheapest candidate, and what a cost is
  made of. `cascades_optimizer.rs` states that what is chosen is a physical form of
  the query.
- `app`: what cannot be stated there: serde records of the catalog, costs in floating
  point, logging.
- `tests`: the library on concrete values.

Two outside crates are called from the library. `serde_cbor` writes and reads the
records that rows and index entries are stored as (`src/common/record.rs`), and
`dashmap` holds the handles of the live indexes (`src/index/index_manager.rs`). What
is taken on trust of each call stands above it.
