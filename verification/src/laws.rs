//! What holds of a node as a whole. Each law is a proof function: its parameters are the inputs
//! of the law, and its `ensures` states it.
pub mod cache;
pub mod delivery;
pub mod effects;
pub mod links;
pub mod queue;
pub mod recovery;
pub mod start;
pub mod tuning;
