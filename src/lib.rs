//! Cluster nodes for a line-oriented request/reply protocol: a replicated
//! broadcast set and a replicated grow-only counter, kept in step by an
//! anti-entropy gossip engine over a star-shaped peer layout.
pub mod convergence;
pub mod count_node;
pub mod echo_node;
pub mod fact;
pub mod fact_store;
pub mod gossip;
pub mod msg;
pub mod peer_view;
mod random;
pub mod replica;
