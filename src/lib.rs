//! Control-plane core of a fleet-orchestration engine: an inventory of hosts and
//! groups with variable resolution, and the task reconciliation protocol.

pub mod vars;
pub mod graph;
pub mod model;
pub mod inventory;
pub mod connection;
pub mod tasks;
pub mod echo;
pub mod loader;
