//! The cost-based optimizer.
pub mod answers;
pub mod cardinality_cost_model;
pub mod cascades_optimizer;
pub mod cost;
pub mod memo;
