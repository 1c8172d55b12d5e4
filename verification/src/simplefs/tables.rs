//! The inode, directory entry and attribute tables.
use vstd::prelude::*;
use vstd::string::*;
use vstd::utf8::encode_utf8;

use crate::block::{BlockDevice, device_read, read_vec};
use crate::bytes::{get_u32, read_u16, read_u32, u16_at, u32_at};
use crate::error::{Error, Result};
use crate::simplefs::constants::{DIRENT_INODE_INDEX_OFFSET, DIRENT_KIND_OFFSET, DIRENT_NAME_LEN_OFFSET, DIRENT_NAME_MAX, DIRENT_NAME_OFFSET, DIRENT_SIZE, INODE_BLOCK_COUNT_OFFSET, INODE_CHECKSUM_OFFSET, INODE_DATA_BLOCK_OFFSET, INODE_ENTRY_COUNT_OFFSET, INODE_ENTRY_START_OFFSET, INODE_FLAGS_OFFSET, INODE_FLAG_COMPRESSED, INODE_FLAG_DEDUPED, INODE_FLAG_DELETED, INODE_MODE_OFFSET, INODE_OWNER_GID_OFFSET, INODE_OWNER_UID_OFFSET, INODE_SIZE, INODE_SIZE_FIELD_OFFSET};
use crate::simplefs::names::block_span;
use crate::simplefs::types::{DirEntryView, OnDiskDirEntry, OnDiskInode, OnDiskPersistentSecurityDescriptor, SimpleFsFormatVersion, entry_views};
use crate::text::{from_utf8_lossy, utf8_lossy};
use crate::vfs::NodeKind;

verus! {

/// Code that stands for a kind of node on disk.
pub open spec fn kind_code(kind: NodeKind) -> u8 {
    match kind {
        NodeKind::Directory => 1,
        NodeKind::File => 2,
        NodeKind::Device => 3,
        NodeKind::Symlink => 4,
    }
}

/// The kind of node a code stands for.
pub open spec fn kind_of_code(value: u8) -> core::result::Result<NodeKind, Error> {
    if value == 1 {
        Ok(NodeKind::Directory)
    } else if value == 2 {
        Ok(NodeKind::File)
    } else if value == 3 {
        Ok(NodeKind::Device)
    } else if value == 4 {
        Ok(NodeKind::Symlink)
    } else {
        Err(Error::InvalidArgument)
    }
}

pub fn encode_kind(kind: NodeKind) -> (r: u8)
    ensures
        r == kind_code(kind),
        kind_of_code(r) == Ok::<NodeKind, Error>(kind),
{
    match kind {
        NodeKind::Directory => 1,
        NodeKind::File => 2,
        NodeKind::Device => 3,
        NodeKind::Symlink => 4,
    }
}

pub fn decode_kind(value: u8) -> (r: Result<NodeKind>)
    ensures
        r == kind_of_code(value),
{
    match value {
        1 => Ok(NodeKind::Directory),
        2 => Ok(NodeKind::File),
        3 => Ok(NodeKind::Device),
        4 => Ok(NodeKind::Symlink),
        _ => Err(Error::InvalidArgument),
    }
}

/// Bytes of the whole blocks that hold `n` bytes.
pub open spec fn padded(n: int) -> int {
    block_span(n) * 512
}

/// Bytes of the whole blocks that hold `n` bytes, when memory can hold them.
pub fn padded_len(n: u64) -> (r: Result<usize>)
    requires
        n <= 0x1_0000_0000_0000,
    ensures
        r == (if padded(n as int) <= usize::MAX {
            Ok::<usize, Error>(padded(n as int) as usize)
        } else {
            Err(Error::InvalidArgument)
        }),
{
    let total: u64 = (n + 511) / 512 * 512;
    if total > usize::MAX as u64 {
        return Err(Error::InvalidArgument);
    }
    Ok(total as usize)
}

/// The whole blocks holding `n` bytes that start at block `table_block`.
pub open spec fn table_bytes<D: BlockDevice>(device: D, table_block: int, n: int) -> core::result::Result<
    Seq<u8>,
    Error,
> {
    if padded(n) > usize::MAX {
        Err(Error::InvalidArgument)
    } else {
        device_read(device, table_block, padded(n))
    }
}

/// Reads the whole blocks holding `n` bytes that start at block `table_block`.
pub fn read_table<D: BlockDevice>(device: &D, table_block: u32, n: u64) -> (r: Result<Vec<u8>>)
    requires
        n <= 0x1_0000_0000_0000,
    ensures
        match r {
            Ok(v) => table_bytes(*device, table_block as int, n as int) == Ok::<Seq<u8>, Error>(v@)
                && v@.len() == padded(n as int) && v@.len() >= n,
            Err(e) => table_bytes(*device, table_block as int, n as int) == Err::<Seq<u8>, Error>(
                e,
            ),
        },
{
    let len = padded_len(n)?;
    read_vec(device, table_block as u64, len)
}

// ── Inodes ──

/// The security descriptor stored in the inode at `base`.
pub open spec fn security_at(
    s: Seq<u8>,
    base: int,
    version: SimpleFsFormatVersion,
) -> Option<OnDiskPersistentSecurityDescriptor> {
    if version.stores_security() {
        Some(
            OnDiskPersistentSecurityDescriptor {
                owner_uid: u32_at(s, base + INODE_OWNER_UID_OFFSET),
                owner_gid: u32_at(s, base + INODE_OWNER_GID_OFFSET),
                mode: u16_at(s, base + INODE_MODE_OFFSET),
            },
        )
    } else {
        None
    }
}

/// The inode stored at `base`, whose kind code is known.
pub open spec fn inode_at(s: Seq<u8>, base: int, version: SimpleFsFormatVersion) -> OnDiskInode {
    OnDiskInode {
        kind: kind_of_code(s[base])->Ok_0,
        deleted: s[base + INODE_FLAGS_OFFSET] & INODE_FLAG_DELETED != 0,
        entry_start: u32_at(s, base + INODE_ENTRY_START_OFFSET),
        entry_count: u32_at(s, base + INODE_ENTRY_COUNT_OFFSET),
        data_block: u32_at(s, base + INODE_DATA_BLOCK_OFFSET),
        block_count: u32_at(s, base + INODE_BLOCK_COUNT_OFFSET),
        size: u32_at(s, base + INODE_SIZE_FIELD_OFFSET),
        persistent_security: security_at(s, base, version),
        data_checksum: if version.stores_security() {
            0
        } else {
            u32_at(s, base + INODE_CHECKSUM_OFFSET)
        },
        compressed: s[base + INODE_FLAGS_OFFSET] & INODE_FLAG_COMPRESSED != 0,
        deduped: s[base + INODE_FLAGS_OFFSET] & INODE_FLAG_DEDUPED != 0,
    }
}

/// The first `count` inodes of a table; refused when one has an unknown kind.
pub open spec fn inodes_in(
    s: Seq<u8>,
    version: SimpleFsFormatVersion,
    count: nat,
) -> core::result::Result<Seq<OnDiskInode>, Error> {
    if forall|i: int| 0 <= i < count ==> (#[trigger] kind_of_code(s[i * 32])) is Ok {
        Ok(Seq::new(count, |i: int| inode_at(s, i * 32, version)))
    } else {
        Err(Error::InvalidArgument)
    }
}

/// The inodes a table on a device holds.
pub open spec fn stored_inodes<D: BlockDevice>(
    device: D,
    version: SimpleFsFormatVersion,
    table_block: int,
    count: nat,
) -> core::result::Result<Seq<OnDiskInode>, Error> {
    match table_bytes(device, table_block, count as int * 32) {
        Ok(s) => inodes_in(s, version, count),
        Err(e) => Err(e),
    }
}

/// The security descriptor stored in the inode at `base`.
pub fn read_inode_persistent_security_descriptor(
    bytes: &[u8],
    format_version: SimpleFsFormatVersion,
    base: usize,
) -> (r: Result<Option<OnDiskPersistentSecurityDescriptor>>)
    requires
        base + 32 <= usize::MAX,
    ensures
        r == (if !format_version.stores_security() {
            Ok::<Option<OnDiskPersistentSecurityDescriptor>, Error>(None)
        } else if base + 32 <= bytes@.len() {
            Ok(security_at(bytes@, base as int, format_version))
        } else {
            Err(Error::InvalidArgument)
        }),
{
    match format_version.persistent_security_descriptor_layout() {
        None => Ok(None),
        Some(layout) => {
            let owner_uid = read_u32(bytes, base + layout.owner_uid_offset)?;
            let owner_gid = read_u32(bytes, base + layout.owner_gid_offset)?;
            let mode = read_u16(bytes, base + layout.mode_offset)?;
            Ok(Some(OnDiskPersistentSecurityDescriptor { owner_uid, owner_gid, mode }))
        },
    }
}

/// Decodes the first `count` inodes of a table.
pub fn decode_inodes(buffer: &[u8], format_version: SimpleFsFormatVersion, count: usize) -> (r:
    Result<Vec<OnDiskInode>>)
    requires
        count * 32 <= buffer@.len(),
    ensures
        match r {
            Ok(v) => inodes_in(buffer@, format_version, count as nat) == Ok::<
                Seq<OnDiskInode>,
                Error,
            >(v@),
            Err(e) => inodes_in(buffer@, format_version, count as nat) == Err::<
                Seq<OnDiskInode>,
                Error,
            >(e),
        },
{
    let _len: usize = buffer.len();
    let mut inodes: Vec<OnDiskInode> = Vec::new();
    let mut index: usize = 0;
    while index < count
        invariant
            index <= count,
            count * 32 <= buffer@.len(),
            _len == buffer@.len(),
            inodes@ == Seq::new(index as nat, |i: int| inode_at(buffer@, i * 32, format_version)),
            forall|i: int| 0 <= i < index ==> (#[trigger] kind_of_code(buffer@[i * 32])) is Ok,
        decreases count - index,
    {
        let base: usize = index * INODE_SIZE;
        let kind = match decode_kind(buffer[base]) {
            Ok(kind) => kind,
            Err(e) => {
                assert(kind_of_code(buffer@[index * 32]) is Err);
                return Err(e);
            },
        };
        let flags: u8 = buffer[base + INODE_FLAGS_OFFSET];
        let persistent_security = read_inode_persistent_security_descriptor(
            buffer,
            format_version,
            base,
        )?;
        let data_checksum: u32 = if format_version.persistent_security_descriptor_layout().is_some() {
            0
        } else {
            get_u32(buffer, base + INODE_CHECKSUM_OFFSET)
        };
        let inode = OnDiskInode {
            kind,
            deleted: flags & INODE_FLAG_DELETED != 0,
            entry_start: get_u32(buffer, base + INODE_ENTRY_START_OFFSET),
            entry_count: get_u32(buffer, base + INODE_ENTRY_COUNT_OFFSET),
            data_block: get_u32(buffer, base + INODE_DATA_BLOCK_OFFSET),
            block_count: get_u32(buffer, base + INODE_BLOCK_COUNT_OFFSET),
            size: get_u32(buffer, base + INODE_SIZE_FIELD_OFFSET),
            persistent_security,
            data_checksum,
            compressed: flags & INODE_FLAG_COMPRESSED != 0,
            deduped: flags & INODE_FLAG_DEDUPED != 0,
        };
        assert(inode == inode_at(buffer@, index * 32, format_version));
        inodes.push(inode);
        index = index + 1;
    }
    Ok(inodes)
}

/// Reads and decodes the inode table that starts at `table_block`.
pub fn read_inodes<D: BlockDevice>(
    device: &D,
    format_version: SimpleFsFormatVersion,
    table_block: u32,
    count: u32,
) -> (r: Result<Vec<OnDiskInode>>)
    ensures
        match r {
            Ok(v) => stored_inodes(*device, format_version, table_block as int, count as nat) == Ok::<
                Seq<OnDiskInode>,
                Error,
            >(v@),
            Err(e) => stored_inodes(*device, format_version, table_block as int, count as nat)
                == Err::<Seq<OnDiskInode>, Error>(e),
        },
{
    let buffer = read_table(device, table_block, count as u64 * 32)?;
    decode_inodes(buffer.as_slice(), format_version, count as usize)
}

// ── Directory entries ──

/// The directory entry stored at `base`.
pub open spec fn dirent_at(s: Seq<u8>, base: int) -> core::result::Result<DirEntryView, Error> {
    if kind_of_code(s[base + DIRENT_KIND_OFFSET]) is Err || s[base + DIRENT_NAME_LEN_OFFSET]
        > DIRENT_NAME_MAX {
        Err(Error::InvalidArgument)
    } else {
        Ok(
            DirEntryView {
                inode_index: u32_at(s, base),
                kind: kind_of_code(s[base + DIRENT_KIND_OFFSET])->Ok_0,
                name: utf8_lossy(
                    s.subrange(
                        base + DIRENT_NAME_OFFSET,
                        base + DIRENT_NAME_OFFSET + s[base + DIRENT_NAME_LEN_OFFSET],
                    ),
                ),
            },
        )
    }
}

/// The first `count` entries of a table; refused when one is malformed.
pub open spec fn dirents_in(s: Seq<u8>, count: nat) -> core::result::Result<
    Seq<DirEntryView>,
    Error,
> {
    if forall|i: int| 0 <= i < count ==> (#[trigger] dirent_at(s, i * 64)) is Ok {
        Ok(Seq::new(count, |i: int| dirent_at(s, i * 64)->Ok_0))
    } else {
        Err(Error::InvalidArgument)
    }
}

/// The directory entries a table on a device holds.
pub open spec fn stored_dirents<D: BlockDevice>(
    device: D,
    table_block: int,
    count: nat,
) -> core::result::Result<Seq<DirEntryView>, Error> {
    match table_bytes(device, table_block, count as int * 64) {
        Ok(s) => dirents_in(s, count),
        Err(e) => Err(e),
    }
}

/// Decodes the first `count` entries of a table.
pub fn decode_dir_entries(buffer: &[u8], count: usize) -> (r: Result<Vec<OnDiskDirEntry>>)
    requires
        count * 64 <= buffer@.len(),
    ensures
        match r {
            Ok(v) => dirents_in(buffer@, count as nat) == Ok::<Seq<DirEntryView>, Error>(
                entry_views(v@),
            ),
            Err(e) => dirents_in(buffer@, count as nat) == Err::<Seq<DirEntryView>, Error>(e),
        },
{
    let _len: usize = buffer.len();
    let mut entries: Vec<OnDiskDirEntry> = Vec::new();
    let mut index: usize = 0;
    while index < count
        invariant
            index <= count,
            count * 64 <= buffer@.len(),
            _len == buffer@.len(),
            entry_views(entries@) == Seq::new(
                index as nat,
                |i: int| dirent_at(buffer@, i * 64)->Ok_0,
            ),
            forall|i: int| 0 <= i < index ==> (#[trigger] dirent_at(buffer@, i * 64)) is Ok,
        decreases count - index,
    {
        let base: usize = index * DIRENT_SIZE;
        let ghost here = dirent_at(buffer@, index * 64);
        let inode_index = get_u32(buffer, base + DIRENT_INODE_INDEX_OFFSET);
        let kind = match decode_kind(buffer[base + DIRENT_KIND_OFFSET]) {
            Ok(kind) => kind,
            Err(e) => {
                assert(here is Err);
                return Err(e);
            },
        };
        let name_len: usize = buffer[base + DIRENT_NAME_LEN_OFFSET] as usize;
        if name_len > DIRENT_NAME_MAX {
            assert(here is Err);
            return Err(Error::InvalidArgument);
        }
        let name_start: usize = base + DIRENT_NAME_OFFSET;
        let name = from_utf8_lossy(
            vstd::slice::slice_subrange(buffer, name_start, name_start + name_len),
        );
        let ghost before = entry_views(entries@);
        entries.push(OnDiskDirEntry { inode_index, kind, name });
        assert(here is Ok);
        assert(entry_views(entries@) == before.push(here->Ok_0));
        index = index + 1;
    }
    Ok(entries)
}

/// Reads and decodes the entry table that starts at `table_block`.
pub fn read_dir_entries<D: BlockDevice>(device: &D, table_block: u32, count: u32) -> (r: Result<
    Vec<OnDiskDirEntry>,
>)
    ensures
        match r {
            Ok(v) => stored_dirents(*device, table_block as int, count as nat) == Ok::<
                Seq<DirEntryView>,
                Error,
            >(entry_views(v@)),
            Err(e) => stored_dirents(*device, table_block as int, count as nat) == Err::<
                Seq<DirEntryView>,
                Error,
            >(e),
        },
{
    let buffer = read_table(device, table_block, count as u64 * 64)?;
    decode_dir_entries(buffer.as_slice(), count as usize)
}

} // verus!
