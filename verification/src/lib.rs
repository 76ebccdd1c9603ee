//! Query-routing core for a driver of a token-ring partitioned, replicated
//! database cluster.
//!
//! For each outgoing statement the driver must decide, in what order, which
//! cluster nodes to contact. This crate holds the routing-plan abstraction,
//! the policy traits that produce plans, concrete token-aware and round-robin
//! policies, the composition mechanism that layers simple policies on top of
//! topology-aware ones, and the frame-level encoding of a prepare request.

pub mod cluster;
pub mod frame;
pub mod load_balancing;
pub mod node;
pub mod plan;
pub mod policies;
pub mod routing;
