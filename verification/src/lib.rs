//! Kernel filesystem library.
use vstd::prelude::*;

pub mod block;
pub mod bytes;
pub mod error;
pub mod failing;
pub mod filesystem;
pub mod iso9660;
pub mod layout;
pub mod lock_timing;
pub mod luks2;
pub mod ntfs;
pub mod order;
pub mod partition;
pub mod path;
pub mod pipe;
pub mod procfs;
pub mod servicefs;
pub mod simplefs;
pub mod spelling;
pub mod squashfs;
pub mod synthetic;
pub mod text;
pub mod text_laws;
pub mod tmpfs;
pub mod vfs;

verus! {
} // verus!
