//! SimpleFs: a small writable filesystem with mirrored metadata.
pub mod constants;
pub mod types;
pub mod name_laws;
pub mod names;
pub mod superblock;
pub mod tables;
pub mod encode;
pub mod xattr_table;
pub mod validate;
pub mod extents;
pub mod state;
pub mod undo;
pub mod tree;
pub mod tree_steps;
pub mod locked;
pub mod writes;
pub mod xattr;
pub mod image_places;
pub mod image_read_back;
pub mod image_sound;
pub mod image_twins;
pub mod image_bytes;
pub mod image_order_laws;
pub mod image_tree;
pub mod inode_slots;
pub mod reach;
pub mod refusal_laws;
pub mod release;
pub mod layout_laws;
pub mod lookup;
pub mod volume;
pub mod commit;
pub mod mount;
pub mod open;
pub mod open_laws;
pub mod outcome_laws;
pub mod path_laws;
pub mod place_laws;
pub mod tree_laws;
pub mod crash_laws;
pub mod create;
pub mod create_file;
pub mod remove;
pub mod symlink;
pub mod rename;
pub mod settle;
pub mod sharing;
pub mod ops;
pub mod transaction;
pub mod remove_tree;
pub mod file_read;
pub mod resize;
pub mod file_write;
pub mod file_ops;
pub mod file_laws;
pub mod mount_laws;
pub mod move_laws;
pub mod health;
pub mod repair;
pub mod check;
pub mod check_laws;
pub mod image_nodes;
pub mod image_order;
pub mod image_build;
pub mod image;
pub mod image_laws;
pub mod clear_laws;
pub mod create_laws;
pub mod staging;
pub mod staging_laws;
pub mod version_laws;
pub mod rollback_laws;
pub mod symlink_laws;
pub mod follow_laws;
pub mod fs_volume;
pub mod compression;
pub mod dedup;
