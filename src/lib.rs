//! Watching the network connections of a running process.
//!
//! The library holds the decisions of the watch loop: reading a process's
//! remote endpoints out of the system's connection listings (`proc_net`,
//! `lsof`), telling new endpoints from known ones and applying the policy
//! (`monitor`), caching reverse lookups (`cache`), and counting connections
//! per address and domain (`stats`). Reading files, running commands, the
//! reverse lookups themselves and the clock belong to the caller, which hands
//! their results in as plain values.

pub mod cache;
pub mod endpoint;
pub mod lsof;
pub mod monitor;
pub mod proc_net;
pub mod spinner;
pub mod split;
pub mod stats;
pub mod tally;
pub mod text;
