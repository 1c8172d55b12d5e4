//! CD-ROM volumes (ISO 9660) with Rock Ridge, Joliet and El Torito, read-only.
pub mod susp;
pub mod records;
pub mod descriptors;
pub mod volume;
pub mod record_laws;
pub mod volume_laws;
pub mod attribute_laws;
