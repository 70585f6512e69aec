//! The gossip broadcast workload: values handed to any node of the cluster
//! spread to every node by periodic exchanges of set differences between
//! neighbours.

pub mod cluster;
pub mod convergence;
pub mod effects;
pub mod node;
pub mod payload;
pub mod state;
pub mod theorems;
