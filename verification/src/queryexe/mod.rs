//! Query execution: operators that pull rows from one another.
pub mod consistency;
pub mod delete;
pub mod index_scan;
pub mod maintenance;
pub mod managers;
pub mod op_iterator;
pub mod update;
