//! A read-only filesystem that shows the services of the kernel.
pub mod registry;
pub mod render;
pub mod fs;
pub mod laws;
