//! CrustyDB: a slotted-page storage engine, a B+Tree index, the operators that
//! keep indexes in step with their tables, and a cost-based optimizer.
//!
//! * `common`: fields, rows, schemas, query plans.
//! * `heapstore`: pages with slots, the pool that holds them, heap files.
//! * `index`: B+Trees over the pages of a container, and their manager.
//! * `queryexe`: lookups, updates and deletions, and what holds between a
//!   table and its indexes.
//! * `optimizer`: the memo of candidate plans and the choice of the cheapest.
pub mod common;
pub mod heapstore;
pub mod index;
pub mod optimizer;
pub mod queryexe;
