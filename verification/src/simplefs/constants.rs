//! Geometry of the SimpleFs on-disk layout.
use vstd::prelude::*;

verus! {

/// First eight bytes of every superblock: `ADAFS1` and two zero bytes.
pub const MAGIC: [u8; 8] = [0x41, 0x44, 0x41, 0x46, 0x53, 0x31, 0, 0];

pub const PRIMARY_SUPERBLOCK_BLOCK: u32 = 0;

pub const SECONDARY_SUPERBLOCK_BLOCK: u32 = 1;

pub const SUPERBLOCK_LABEL_OFFSET: usize = 64;

pub const SUPERBLOCK_LABEL_LEN: usize = 32;

pub const SUPERBLOCK_VERSION_OFFSET: usize = 8;

pub const SUPERBLOCK_BLOCK_SIZE_OFFSET: usize = 12;

pub const SUPERBLOCK_INODE_COUNT_OFFSET: usize = 16;

pub const SUPERBLOCK_DIRENT_COUNT_OFFSET: usize = 20;

pub const SUPERBLOCK_ACTIVE_INODE_TABLE_OFFSET: usize = 24;

pub const SUPERBLOCK_ACTIVE_DIRENT_TABLE_OFFSET: usize = 28;

pub const SUPERBLOCK_DATA_BLOCK_START_OFFSET: usize = 32;

pub const SUPERBLOCK_SHADOW_INODE_TABLE_OFFSET: usize = 36;

pub const SUPERBLOCK_SHADOW_DIRENT_TABLE_OFFSET: usize = 40;

pub const SUPERBLOCK_INODE_TABLE_BLOCKS_OFFSET: usize = 44;

pub const SUPERBLOCK_DIRENT_TABLE_BLOCKS_OFFSET: usize = 48;

pub const SUPERBLOCK_GENERATION_OFFSET: usize = 52;

pub const SUPERBLOCK_CHECKSUM_OFFSET: usize = 56;

/// Target generation of a commit that was under way, or zero.
pub const SUPERBLOCK_PENDING_COMMIT_OFFSET: usize = 96;

pub const SUPERBLOCK_ACTIVE_XATTR_TABLE_OFFSET: usize = 100;

pub const SUPERBLOCK_SHADOW_XATTR_TABLE_OFFSET: usize = 104;

pub const SUPERBLOCK_XATTR_TABLE_BLOCKS_OFFSET: usize = 108;

pub const SUPERBLOCK_XATTR_COUNT_OFFSET: usize = 112;

/// One past the last superblock byte that carries a field.
pub const SUPERBLOCK_FIELDS_END: usize = 116;

pub const INODE_SIZE: usize = 32;

pub const DIRENT_SIZE: usize = 64;

pub const INODE_KIND_OFFSET: usize = 0;

pub const INODE_FLAGS_OFFSET: usize = 1;

pub const INODE_MODE_OFFSET: usize = 2;

pub const INODE_ENTRY_START_OFFSET: usize = 4;

pub const INODE_ENTRY_COUNT_OFFSET: usize = 8;

pub const INODE_DATA_BLOCK_OFFSET: usize = 12;

pub const INODE_BLOCK_COUNT_OFFSET: usize = 16;

pub const INODE_SIZE_FIELD_OFFSET: usize = 20;

pub const INODE_OWNER_UID_OFFSET: usize = 24;

pub const INODE_OWNER_GID_OFFSET: usize = 28;

/// The first format keeps a content checksum where later ones keep the group.
pub const INODE_CHECKSUM_OFFSET: usize = 28;

pub const DIRENT_INODE_INDEX_OFFSET: usize = 0;

pub const DIRENT_KIND_OFFSET: usize = 4;

pub const DIRENT_NAME_LEN_OFFSET: usize = 5;

pub const DIRENT_NAME_OFFSET: usize = 8;

/// Longest directory entry name in bytes.
pub const DIRENT_NAME_MAX: usize = 56;

/// Blocks a new file starts with.
pub const INITIAL_FILE_BLOCKS: u32 = 1;

pub const INODE_FLAG_DELETED: u8 = 1;

pub const INODE_FLAG_COMPRESSED: u8 = 2;

pub const INODE_FLAG_DEDUPED: u8 = 4;

/// Logical bytes covered by one compressed chunk.
pub const COMPRESSED_CHUNK_SIZE: usize = 4096;

/// `SMCP` when stored little-endian.
pub const COMPRESSED_MAGIC: u32 = 0x5043_4D53;

pub const XATTR_NAME_MAX: usize = 64;

pub const XATTR_VALUE_MAX: usize = 256;

pub const XATTR_NAME_OFFSET: usize = 16;

pub const XATTR_VALUE_OFFSET: usize = 80;

pub const XATTR_RECORD_SIZE: usize = 336;

pub const XATTR_STATUS_LIVE: u32 = 0;

pub const XATTR_STATUS_DELETED: u32 = 1;

/// Longest symlink target that fits inside the inode itself.
pub const MAX_INLINE_SYMLINK_LEN: usize = 12;

/// Symlinks followed before resolution gives up.
pub const MAX_SYMLINK_DEPTH: usize = 8;

} // verus!
