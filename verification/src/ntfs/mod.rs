//! NTFS volumes: the master file table, attributes, directories and file data.
pub mod types;
pub mod names;
pub mod runs;
pub mod attributes;
pub mod index_laws;
pub mod io;
pub mod volume;
pub mod data_laws;
pub mod parse_laws;
pub mod write_laws;
