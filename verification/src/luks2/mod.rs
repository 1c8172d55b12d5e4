//! Volumes encrypted in the second version of the LUKS on-disk format.
pub mod base64;
pub mod json;
pub mod params;
pub mod open;
pub mod json_laws;
pub mod open_laws;
