//! A read-only filesystem that shows the kernel and its processes.
pub mod render;
pub mod paths;
pub mod fs;
pub mod laws;
