//! Compressed read-only volumes (SquashFS).
pub mod lz4;
pub mod lz4_laws;
pub mod types;
pub mod xattrs;
pub mod metadata;
pub mod volume;
pub mod dir_laws;
pub mod read_laws;
pub mod node_laws;
