//! A filesystem in memory: files, directories, links and devices.
pub mod lists;
pub mod state;
pub mod create;
pub mod subtree;
pub mod link;
pub mod volume;
pub mod file;
pub mod laws;
pub mod node_laws;
