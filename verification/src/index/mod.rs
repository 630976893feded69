//! B+Tree indexes on slotted pages.
pub mod codec;
pub mod grow;
pub mod index_manager;
pub mod model;
pub mod need;
pub mod node;
pub mod tree;
