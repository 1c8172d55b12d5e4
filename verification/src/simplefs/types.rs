//! Format versions, on-disk records and health summaries.
use vstd::prelude::*;

use crate::block::BLOCK_SIZE;
use crate::error::{Error, Result};
use crate::simplefs::constants::{DIRENT_SIZE, INODE_MODE_OFFSET, INODE_OWNER_GID_OFFSET, INODE_OWNER_UID_OFFSET, INODE_SIZE, XATTR_RECORD_SIZE};
use crate::vfs::{NodeKind, SecurityDescriptor, VolumeCheckReport};

verus! {

/// Revision of the on-disk format.
#[derive(Debug, Clone, Copy, PartialEq, Eq, Structural)]
pub enum SimpleFsFormatVersion {
    V2,
    /// Adds stored security descriptors and the pending-commit marker.
    V3PersistentSecurityDescriptors,
    /// Adds a stored attribute table and data-reduction flags.
    V4PersistentSecurityDescriptorsWithXattrs,
}

/// Who may mount a volume.
#[derive(Debug, Clone, Copy, PartialEq, Eq, Structural)]
pub enum SimpleFsRuntimeMountPolicy {
    Public,
}

impl SimpleFsRuntimeMountPolicy {
    /// Whether the policy lets a volume of this format be mounted.
    pub fn supports_format(
        self,
        format_version: SimpleFsFormatVersion,
        device_read_only: bool,
    ) -> (r: bool)
        ensures
            r,
    {
        match self {
            SimpleFsRuntimeMountPolicy::Public => format_version.supports_runtime_mount(
                device_read_only,
            ),
        }
    }
}

/// Where an inode stores its security descriptor.
#[derive(Debug, Clone, Copy, PartialEq, Eq, Structural)]
pub struct PersistentSecurityDescriptorLayout {
    pub mode_offset: usize,
    pub owner_uid_offset: usize,
    pub owner_gid_offset: usize,
}

/// A security descriptor as stored in an inode.
#[derive(Debug, Clone, Copy, PartialEq, Eq, Structural)]
pub struct OnDiskPersistentSecurityDescriptor {
    pub owner_uid: u32,
    pub owner_gid: u32,
    pub mode: u16,
}

impl OnDiskPersistentSecurityDescriptor {
    pub open spec fn spec_security_descriptor(self) -> SecurityDescriptor {
        SecurityDescriptor {
            owner_uid: self.owner_uid,
            owner_gid: self.owner_gid,
            mode: self.mode,
        }
    }

    pub fn security_descriptor(self) -> (r: SecurityDescriptor)
        ensures
            r == self.spec_security_descriptor(),
    {
        SecurityDescriptor::new(self.owner_uid, self.owner_gid, self.mode)
    }
}

impl SimpleFsFormatVersion {
    /// Version number stored in the superblock.
    pub open spec fn spec_on_disk_value(self) -> u32 {
        match self {
            SimpleFsFormatVersion::V2 => 2,
            SimpleFsFormatVersion::V3PersistentSecurityDescriptors => 3,
            SimpleFsFormatVersion::V4PersistentSecurityDescriptorsWithXattrs => 4,
        }
    }

    /// Whether inodes carry a security descriptor and superblocks a commit marker.
    pub open spec fn stores_security(self) -> bool {
        !(self is V2)
    }

    /// Whether the volume carries an attribute table.
    pub open spec fn stores_xattrs(self) -> bool {
        self is V4PersistentSecurityDescriptorsWithXattrs
    }

    pub fn on_disk_value(self) -> (r: u32)
        ensures
            r == self.spec_on_disk_value(),
    {
        match self {
            SimpleFsFormatVersion::V2 => 2,
            SimpleFsFormatVersion::V3PersistentSecurityDescriptors => 3,
            SimpleFsFormatVersion::V4PersistentSecurityDescriptorsWithXattrs => 4,
        }
    }

    /// Where inodes of this format keep their security descriptor, if they do.
    pub fn persistent_security_descriptor_layout(self) -> (r: Option<
        PersistentSecurityDescriptorLayout,
    >)
        ensures
            r == (if self.stores_security() {
                Some(
                    PersistentSecurityDescriptorLayout {
                        mode_offset: INODE_MODE_OFFSET,
                        owner_uid_offset: INODE_OWNER_UID_OFFSET,
                        owner_gid_offset: INODE_OWNER_GID_OFFSET,
                    },
                )
            } else {
                None
            }),
    {
        match self {
            SimpleFsFormatVersion::V2 => None,
            SimpleFsFormatVersion::V3PersistentSecurityDescriptors
            | SimpleFsFormatVersion::V4PersistentSecurityDescriptorsWithXattrs => Some(
                PersistentSecurityDescriptorLayout {
                    mode_offset: INODE_MODE_OFFSET,
                    owner_uid_offset: INODE_OWNER_UID_OFFSET,
                    owner_gid_offset: INODE_OWNER_GID_OFFSET,
                },
            ),
        }
    }

    /// Every known format can be mounted, writable or not: a commit that was cut
    /// short leaves the active tables untouched.
    pub fn supports_runtime_mount(self, _device_read_only: bool) -> (r: bool)
        ensures
            r,
    {
        match self {
            SimpleFsFormatVersion::V2 => true,
            SimpleFsFormatVersion::V3PersistentSecurityDescriptors
            | SimpleFsFormatVersion::V4PersistentSecurityDescriptorsWithXattrs => true,
        }
    }

    pub fn supports_persistent_xattrs(self) -> (r: bool)
        ensures
            r == self.stores_xattrs(),
    {
        matches!(self, SimpleFsFormatVersion::V4PersistentSecurityDescriptorsWithXattrs)
    }

    pub fn ensure_runtime_mount_supported(
        self,
        device_read_only: bool,
        mount_policy: SimpleFsRuntimeMountPolicy,
    ) -> (r: Result<()>)
        ensures
            r is Ok,
    {
        if mount_policy.supports_format(self, device_read_only) {
            Ok(())
        } else {
            Err(Error::Unsupported)
        }
    }

    /// Inodes that a table of `table_blocks` blocks holds.
    pub fn inode_capacity(self, table_blocks: u32) -> (r: u64)
        ensures
            r == table_blocks * 16,
    {
        table_blocks as u64 * 512 / 32
    }

    /// Directory entries that a table of `table_blocks` blocks holds.
    pub fn dirent_capacity(self, table_blocks: u32) -> (r: u64)
        ensures
            r == table_blocks * 8,
    {
        table_blocks as u64 * 512 / 64
    }

    /// Attribute records that a table of `table_blocks` blocks holds.
    pub fn xattr_capacity(self, table_blocks: u32) -> (r: u64)
        ensures
            r == table_blocks * 512 / 336,
    {
        table_blocks as u64 * 512 / 336
    }

    /// Bytes that `count` inodes occupy.
    pub fn inode_table_bytes(self, count: usize) -> (r: Result<usize>)
        ensures
            r == scaled(count, INODE_SIZE),
    {
        match count.checked_mul(INODE_SIZE) {
            Some(n) => Ok(n),
            None => Err(Error::InvalidArgument),
        }
    }

    /// Bytes that `count` directory entries occupy.
    pub fn dirent_table_bytes(self, count: usize) -> (r: Result<usize>)
        ensures
            r == scaled(count, DIRENT_SIZE),
    {
        match count.checked_mul(DIRENT_SIZE) {
            Some(n) => Ok(n),
            None => Err(Error::InvalidArgument),
        }
    }

    /// Bytes that `count` attribute records occupy.
    pub fn xattr_table_bytes(self, count: usize) -> (r: Result<usize>)
        ensures
            r == scaled(count, XATTR_RECORD_SIZE),
    {
        match count.checked_mul(XATTR_RECORD_SIZE) {
            Some(n) => Ok(n),
            None => Err(Error::InvalidArgument),
        }
    }

    /// Byte offset of inode `index` in a table that starts at block `table_block`.
    pub fn inode_table_entry_offset(self, table_block: usize, index: usize) -> (r: Result<usize>)
        ensures
            r == entry_offset(table_block, index, INODE_SIZE),
    {
        table_entry_offset(table_block, index, INODE_SIZE)
    }

    /// Byte offset of entry `index` in a table that starts at block `table_block`.
    pub fn dirent_table_entry_offset(self, table_block: usize, index: usize) -> (r: Result<usize>)
        ensures
            r == entry_offset(table_block, index, DIRENT_SIZE),
    {
        table_entry_offset(table_block, index, DIRENT_SIZE)
    }

    /// Byte offset of record `index` in a table that starts at block `table_block`.
    pub fn xattr_table_entry_offset(self, table_block: usize, index: usize) -> (r: Result<usize>)
        ensures
            r == entry_offset(table_block, index, XATTR_RECORD_SIZE),
    {
        table_entry_offset(table_block, index, XATTR_RECORD_SIZE)
    }

    /// The format with this version number.
    pub open spec fn spec_parse_supported(raw: u32) -> core::result::Result<Self, Error> {
        if raw == 2 {
            Ok(SimpleFsFormatVersion::V2)
        } else if raw == 3 {
            Ok(SimpleFsFormatVersion::V3PersistentSecurityDescriptors)
        } else if raw == 4 {
            Ok(SimpleFsFormatVersion::V4PersistentSecurityDescriptorsWithXattrs)
        } else {
            Err(Error::Unsupported)
        }
    }

    pub fn parse_supported(raw: u32) -> (r: Result<Self>)
        ensures
            r == Self::spec_parse_supported(raw),
    {
        if raw == SimpleFsFormatVersion::V2.on_disk_value() {
            return Ok(SimpleFsFormatVersion::V2);
        }
        if raw == SimpleFsFormatVersion::V3PersistentSecurityDescriptors.on_disk_value() {
            return Ok(SimpleFsFormatVersion::V3PersistentSecurityDescriptors);
        }
        if raw == SimpleFsFormatVersion::V4PersistentSecurityDescriptorsWithXattrs.on_disk_value() {
            return Ok(SimpleFsFormatVersion::V4PersistentSecurityDescriptorsWithXattrs);
        }
        Err(Error::Unsupported)
    }
}

/// `count * unit`, when it fits a machine word.
pub open spec fn scaled(count: usize, unit: usize) -> core::result::Result<usize, Error> {
    if count * unit <= usize::MAX {
        Ok((count * unit) as usize)
    } else {
        Err(Error::InvalidArgument)
    }
}

/// Byte offset of record `index` in a table of `unit`-sized records.
pub open spec fn entry_offset(table_block: usize, index: usize, unit: usize) -> core::result::Result<
    usize,
    Error,
> {
    if table_block * BLOCK_SIZE + index * unit <= usize::MAX {
        Ok((table_block * BLOCK_SIZE + index * unit) as usize)
    } else {
        Err(Error::InvalidArgument)
    }
}

fn table_entry_offset(table_block: usize, index: usize, unit: usize) -> (r: Result<usize>)
    ensures
        r == entry_offset(table_block, index, unit),
{
    proof {
        assert(0 <= index * unit) by (nonlinear_arith);
    }
    let base: usize = match table_block.checked_mul(BLOCK_SIZE) {
        Some(n) => n,
        None => {
            return Err(Error::InvalidArgument);
        },
    };
    let offset: usize = match index.checked_mul(unit) {
        Some(n) => n,
        None => {
            return Err(Error::InvalidArgument);
        },
    };
    match base.checked_add(offset) {
        Some(n) => Ok(n),
        None => Err(Error::InvalidArgument),
    }
}

/// A superblock's contents.
#[derive(Debug, Clone, Copy, PartialEq, Eq, Structural)]
pub struct ParsedSuperblock {
    pub format_version: SimpleFsFormatVersion,
    pub record: SuperblockRecord,
}

/// An inode as the volume stores it.
#[derive(Debug, Clone, Copy, PartialEq, Eq, Structural)]
pub struct OnDiskInode {
    pub kind: NodeKind,
    pub deleted: bool,
    /// Directories: first entry in the entry table. Short symlinks: target bytes 0..4.
    pub entry_start: u32,
    /// Directories: number of entries. Short symlinks: target bytes 4..8.
    pub entry_count: u32,
    /// First data block. Short symlinks: target bytes 8..12.
    pub data_block: u32,
    pub block_count: u32,
    pub size: u32,
    pub persistent_security: Option<OnDiskPersistentSecurityDescriptor>,
    /// Checksum over the file's content; zero when none was computed.
    pub data_checksum: u32,
    pub compressed: bool,
    pub deduped: bool,
}

impl OnDiskInode {
    pub open spec fn spec_runtime_security_descriptor(self) -> Option<SecurityDescriptor> {
        match self.persistent_security {
            Some(persistent) => Some(persistent.spec_security_descriptor()),
            None => None,
        }
    }

    /// The descriptor the inode carries, if any.
    pub fn runtime_security_descriptor(self) -> (r: Option<SecurityDescriptor>)
        ensures
            r == self.spec_runtime_security_descriptor(),
    {
        match self.persistent_security {
            Some(persistent) => Some(persistent.security_descriptor()),
            None => None,
        }
    }
}

/// A directory entry as the volume stores it.
#[derive(Debug)]
pub struct OnDiskDirEntry {
    pub inode_index: u32,
    pub kind: NodeKind,
    pub name: String,
}

/// What a directory entry says.
pub struct DirEntryView {
    pub inode_index: u32,
    pub kind: NodeKind,
    pub name: Seq<char>,
}

impl View for OnDiskDirEntry {
    type V = DirEntryView;

    open spec fn view(&self) -> DirEntryView {
        DirEntryView { inode_index: self.inode_index, kind: self.kind, name: self.name@ }
    }
}

/// What a list of directory entries says.
pub open spec fn entry_views(v: Seq<OnDiskDirEntry>) -> Seq<DirEntryView> {
    Seq::new(v.len(), |i: int| v[i]@)
}

/// A fixed-size attribute record.
#[derive(Debug, Clone, Copy)]
pub struct XattrRecord {
    /// Inode the attribute belongs to.
    pub inode_index: u32,
    pub name_len: u32,
    pub value_len: u32,
    /// `XATTR_STATUS_LIVE` or `XATTR_STATUS_DELETED`.
    pub status: u32,
    pub name: [u8; 64],
    pub value: [u8; 256],
}

/// What an attribute record says.
pub struct XattrView {
    pub inode_index: u32,
    pub name_len: u32,
    pub value_len: u32,
    pub status: u32,
    pub name: Seq<u8>,
    pub value: Seq<u8>,
}

impl View for XattrRecord {
    type V = XattrView;

    open spec fn view(&self) -> XattrView {
        XattrView {
            inode_index: self.inode_index,
            name_len: self.name_len,
            value_len: self.value_len,
            status: self.status,
            name: self.name@,
            value: self.value@,
        }
    }
}

/// What a list of attribute records says.
pub open spec fn xattr_views(v: Seq<XattrRecord>) -> Seq<XattrView> {
    Seq::new(v.len(), |i: int| v[i]@)
}

/// A directory entry together with the live inode it names.
#[derive(Debug, Clone, Copy, PartialEq, Eq, Structural)]
pub struct ResolvedChildEntry {
    pub entry_index: usize,
    pub inode_index: usize,
    pub inode: OnDiskInode,
}

/// Table positions and counters held in a superblock.
#[derive(Debug, Clone, Copy, PartialEq, Eq, Structural)]
pub struct SuperblockRecord {
    pub inode_count: u32,
    pub dirent_count: u32,
    pub active_inode_table_block: u32,
    pub active_dirent_table_block: u32,
    pub shadow_inode_table_block: u32,
    pub shadow_dirent_table_block: u32,
    pub inode_table_blocks: u32,
    pub dirent_table_blocks: u32,
    pub data_block_start: u32,
    pub generation: u32,
    /// Target generation of a commit that was under way, or zero.
    pub pending_commit: u32,
    pub active_xattr_table_block: u32,
    pub shadow_xattr_table_block: u32,
    pub xattr_table_blocks: u32,
    pub xattr_count: u32,
}

/// Which of the redundant metadata copies agree with the mounted state.
#[derive(Debug, Clone, Copy, PartialEq, Eq, Structural)]
pub struct RuntimeHealthSnapshot {
    pub primary_superblock_matches: bool,
    pub secondary_superblock_matches: bool,
    pub active_metadata_matches: bool,
    pub shadow_metadata_matches: bool,
}

/// One for a copy that disagrees, zero otherwise.
pub open spec fn mismatch(matches: bool) -> nat {
    if matches {
        0
    } else {
        1
    }
}

impl RuntimeHealthSnapshot {
    /// Copies that disagree with the mounted state.
    pub open spec fn issues(self) -> nat {
        mismatch(self.primary_superblock_matches) + mismatch(self.secondary_superblock_matches)
            + mismatch(self.active_metadata_matches) + mismatch(self.shadow_metadata_matches)
    }

    pub fn issue_count(self) -> (r: usize)
        ensures
            r == self.issues(),
    {
        let a: usize = if self.primary_superblock_matches { 0 } else { 1 };
        let b: usize = if self.secondary_superblock_matches { 0 } else { 1 };
        let c: usize = if self.active_metadata_matches { 0 } else { 1 };
        let d: usize = if self.shadow_metadata_matches { 0 } else { 1 };
        a + b + c + d
    }

    pub fn is_clean(self) -> (r: bool)
        ensures
            r == (self.issues() == 0),
    {
        self.issue_count() == 0
    }

    /// Report of a check that found the metadata copies in agreement.
    pub fn report(
        self,
        orphan_data_blocks: usize,
        checksum_failures: usize,
        staging_orphans_cleaned: usize,
        orphan_blocks_cleaned: usize,
        interrupted_commits: usize,
    ) -> (r: VolumeCheckReport)
        requires
            4 + orphan_data_blocks + checksum_failures <= usize::MAX,
        ensures
            r == (VolumeCheckReport {
                issues_detected: (self.issues() + orphan_data_blocks + checksum_failures) as usize,
                repairs_applied: 0,
                orphan_data_blocks,
                checksum_failures,
                staging_orphans_cleaned,
                orphan_blocks_cleaned,
                interrupted_commits,
            }),
    {
        VolumeCheckReport {
            issues_detected: self.issue_count() + orphan_data_blocks + checksum_failures,
            repairs_applied: 0,
            orphan_data_blocks,
            checksum_failures,
            staging_orphans_cleaned,
            orphan_blocks_cleaned,
            interrupted_commits,
        }
    }

    /// Report of a check whose repair left the copies as `repaired` says.
    pub fn repaired_report(
        self,
        repaired: Self,
        orphan_data_blocks: usize,
        checksum_failures: usize,
        staging_orphans_cleaned: usize,
        orphan_blocks_cleaned: usize,
        interrupted_commits: usize,
    ) -> (r: VolumeCheckReport)
        requires
            4 + orphan_data_blocks + checksum_failures <= usize::MAX,
        ensures
            r == (VolumeCheckReport {
                issues_detected: (self.issues() + orphan_data_blocks + checksum_failures) as usize,
                repairs_applied: (if self.issues() >= repaired.issues() {
                    self.issues() - repaired.issues()
                } else {
                    0
                }) as usize,
                orphan_data_blocks,
                checksum_failures,
                staging_orphans_cleaned,
                orphan_blocks_cleaned,
                interrupted_commits,
            }),
    {
        let before: usize = self.issue_count();
        let after: usize = repaired.issue_count();
        VolumeCheckReport {
            issues_detected: before + orphan_data_blocks + checksum_failures,
            repairs_applied: if before >= after {
                before - after
            } else {
                0
            },
            orphan_data_blocks,
            checksum_failures,
            staging_orphans_cleaned,
            orphan_blocks_cleaned,
            interrupted_commits,
        }
    }
}

/// The serialized metadata tables of a mounted volume.
pub struct RuntimeMetadataImage {
    pub inode_table: Vec<u8>,
    pub dirent_table: Vec<u8>,
    /// Empty for formats without an attribute table.
    pub xattr_table: Vec<u8>,
}

} // verus!
