//! Comparing a mounted volume with what its device holds.
use vstd::prelude::*;
use vstd::string::*;

use crate::block::{BlockDevice, DeviceHealth, device_read, read_vec};
use crate::bytes::{bytes_eq, copy_range};
use crate::error::Error;
use crate::simplefs::constants::{PRIMARY_SUPERBLOCK_BLOCK, SECONDARY_SUPERBLOCK_BLOCK};
use crate::simplefs::file_read::{compute_data_checksum, data_checksum};
use crate::simplefs::settle::lemma_shape_fits;
use crate::simplefs::state::TableSlot;
use crate::simplefs::superblock::{read_superblock_record, stored_superblock};
use crate::simplefs::types::{OnDiskInode, ParsedSuperblock, RuntimeHealthSnapshot, RuntimeMetadataImage, SimpleFsFormatVersion, SuperblockRecord};
use crate::simplefs::validate::{count_unreferenced_data_blocks, extent_ok, find_high_water, high_water, orphans_below};
use crate::simplefs::volume::SimpleFs;
use crate::text::str_eq;
use crate::vfs::NodeKind;

verus! {

/// Whether a superblock on a device carries exactly a label, a format and a record.
pub open spec fn superblock_is<D: BlockDevice>(
    device: D,
    block: int,
    label: Seq<char>,
    version: SimpleFsFormatVersion,
    record: SuperblockRecord,
) -> bool {
    stored_superblock(device, block) == Ok::<(Seq<char>, ParsedSuperblock), Error>(
        (label, ParsedSuperblock { format_version: version, record }),
    )
}

/// Whether a device holds `data` from block `lba` on.
pub open spec fn device_holds<D: BlockDevice>(device: D, lba: int, data: Seq<u8>) -> bool {
    device_read(device, lba, data.len() as int) == Ok::<Seq<u8>, Error>(data)
}

/// Whether a slot on a device holds exactly these tables.
pub open spec fn slot_is<D: BlockDevice>(
    device: D,
    slot: TableSlot,
    inode_table: Seq<u8>,
    dirent_table: Seq<u8>,
    xattr_table: Seq<u8>,
) -> bool {
    &&& device_holds(device, slot.inode_block as int, inode_table)
    &&& device_holds(device, slot.dirent_block as int, dirent_table)
    &&& xattr_table.len() > 0 ==> device_holds(device, slot.xattr_block as int, xattr_table)
}

/// How the copies on a device compare with a mounted volume whose tables are given.
pub open spec fn health_with<D: BlockDevice>(
    fs: SimpleFs<D>,
    inode_table: Seq<u8>,
    dirent_table: Seq<u8>,
    xattr_table: Seq<u8>,
) -> RuntimeHealthSnapshot {
    let g = fs.geometry;
    let record = g.record_of(fs.state.tree(), fs.state.rest());
    RuntimeHealthSnapshot {
        primary_superblock_matches: superblock_is(
            fs.device,
            0,
            g.label@,
            g.format_version,
            record,
        ),
        secondary_superblock_matches: superblock_is(
            fs.device,
            1,
            g.label@,
            g.format_version,
            record,
        ),
        active_metadata_matches: slot_is(
            fs.device,
            fs.state.active,
            inode_table,
            dirent_table,
            xattr_table,
        ),
        shadow_metadata_matches: slot_is(
            fs.device,
            fs.state.shadow,
            inode_table,
            dirent_table,
            xattr_table,
        ),
    }
}

/// Whether a snapshot is how the copies on a device compare with a mounted volume.
pub open spec fn is_health<D: BlockDevice>(fs: SimpleFs<D>, h: RuntimeHealthSnapshot) -> bool {
    exists|inode_table: Seq<u8>, dirent_table: Seq<u8>, xattr_table: Seq<u8>|
        #![trigger health_with(fs, inode_table, dirent_table, xattr_table)]
        fs.geometry.is_inode_table(inode_table, fs.state.tree()) && fs.geometry.is_dirent_table(
            dirent_table,
            fs.state.tree(),
        ) && fs.geometry.is_xattr_table(xattr_table, fs.state.tree()) && h == health_with(
            fs,
            inode_table,
            dirent_table,
            xattr_table,
        )
}

/// Whether a device holds `data` from block `lba` on.
fn holds<D: BlockDevice>(device: &D, lba: u32, data: &Vec<u8>) -> (r: bool)
    ensures
        r == device_holds(*device, lba as int, data@),
{
    match read_vec(device, lba as u64, data.len()) {
        Ok(actual) => bytes_eq(actual.as_slice(), data.as_slice()),
        Err(_) => false,
    }
}

/// Whether a slot on a device holds exactly the expected tables.
pub fn metadata_slot_matches<D: BlockDevice>(
    device: &D,
    slot: TableSlot,
    expected: &RuntimeMetadataImage,
) -> (r: bool)
    ensures
        r == slot_is(
            *device,
            slot,
            expected.inode_table@,
            expected.dirent_table@,
            expected.xattr_table@,
        ),
{
    if !holds(device, slot.inode_block, &expected.inode_table) {
        return false;
    }
    if !holds(device, slot.dirent_block, &expected.dirent_table) {
        return false;
    }
    expected.xattr_table.len() == 0 || holds(device, slot.xattr_block, &expected.xattr_table)
}

/// Whether the contents of an inode do not fit its checksum, or cannot be read.
pub open spec fn checksum_fails<D: BlockDevice>(device: D, inode: OnDiskInode) -> bool {
    &&& has_checksum(inode)
    &&& inode.block_count > 0
    &&& match device_read(device, inode.data_block as int, inode.block_count * 512) {
        _ if inode.block_count * 512 > usize::MAX => true,
        Err(_) => true,
        Ok(data) => data_checksum(data.take(inode.size as int)) != inode.data_checksum,
    }
}

/// Whether an inode is a file with contents and a checksum of them.
pub open spec fn has_checksum(inode: OnDiskInode) -> bool {
    &&& !inode.deleted
    &&& inode.kind == NodeKind::File
    &&& inode.size > 0
    &&& inode.data_checksum != 0
}

/// The number of inodes whose contents do not fit their checksum.
pub open spec fn checksum_failures<D: BlockDevice>(device: D, inodes: Seq<OnDiskInode>) -> nat
    decreases inodes.len(),
{
    if inodes.len() == 0 {
        0
    } else {
        checksum_failures(device, inodes.drop_last()) + (if checksum_fails(device, inodes.last()) {
            1nat
        } else {
            0
        })
    }
}

/// The number of inodes with a checksum.
pub open spec fn checksums_kept(inodes: Seq<OnDiskInode>) -> nat
    decreases inodes.len(),
{
    if inodes.len() == 0 {
        0
    } else {
        checksums_kept(inodes.drop_last()) + (if has_checksum(inodes.last()) {
            1nat
        } else {
            0
        })
    }
}

/// Whether a superblock on a device announces a commit.
pub open spec fn commit_pending<D: BlockDevice>(device: D, block: int) -> bool {
    stored_superblock(device, block) matches Ok((_, parsed)) && parsed.record.pending_commit != 0
}

fn inode_checksum_fails<D: BlockDevice>(device: &D, inode: OnDiskInode) -> (r: bool)
    requires
        inode.size <= inode.block_count * 512,
    ensures
        r == checksum_fails(*device, inode),
{
    if inode.deleted || !matches!(inode.kind, NodeKind::File) || inode.size == 0
        || inode.data_checksum == 0 || inode.block_count == 0 {
        return false;
    }
    let span: u64 = inode.block_count as u64 * 512;
    if span > usize::MAX as u64 {
        return true;
    }
    match read_vec(device, inode.data_block as u64, span as usize) {
        Ok(data) => {
            let contents = copy_range(data.as_slice(), 0, inode.size as usize);
            assert(contents@ =~= data@.take(inode.size as int));
            compute_data_checksum(contents.as_slice()) != inode.data_checksum
        },
        Err(_) => true,
    }
}

impl<D: BlockDevice> SimpleFs<D> {
    /// Whether a superblock on the device carries the mounted volume's record.
    pub fn superblock_matches_expected(&self, block_index: u32, expected: SuperblockRecord) -> (r: bool)
        ensures
            r == superblock_is(
                self.device,
                block_index as int,
                self.geometry.label@,
                self.geometry.format_version,
                expected,
            ),
    {
        match read_superblock_record(&self.device, block_index) {
            Ok((label, parsed)) => str_eq(label.as_str(), self.geometry.label.as_str())
                && parsed.format_version == self.geometry.format_version && parsed.record
                == expected,
            Err(_) => false,
        }
    }

    /// Compares every copy of the metadata on the device with the mounted volume.
    pub fn inspect_runtime_health(&self) -> (r: RuntimeHealthSnapshot)
        requires
            self.wf(),
        ensures
            is_health(*self, r),
    {
        let ghost t = self.state.tree();
        proof {
            lemma_shape_fits(t, self.geometry, (self.device.image().len() / 512) as int);
            assert(t.entries.len() == self.state.dir_entries@.len());
            assert(t.xattrs.len() == self.state.xattrs@.len());
        }
        let expected = self.geometry.runtime_superblock_record(&self.state);
        let image = self.geometry.runtime_metadata_image(&self.state);
        let r = RuntimeHealthSnapshot {
            primary_superblock_matches: self.superblock_matches_expected(
                PRIMARY_SUPERBLOCK_BLOCK,
                expected,
            ),
            secondary_superblock_matches: self.superblock_matches_expected(
                SECONDARY_SUPERBLOCK_BLOCK,
                expected,
            ),
            active_metadata_matches: metadata_slot_matches(
                &self.device,
                self.state.active,
                &image,
            ),
            shadow_metadata_matches: metadata_slot_matches(
                &self.device,
                self.state.shadow,
                &image,
            ),
        };
        assert(r == health_with(*self, image.inode_table@, image.dirent_table@, image.xattr_table@));
        r
    }

    /// Counts the files whose contents do not fit their checksum.
    pub fn count_checksum_failures_locked(&self) -> (r: usize)
        requires
            self.wf(),
        ensures
            r == checksum_failures(self.device, self.state.tree().inodes),
            r <= self.state.tree().inodes.len(),
    {
        let ghost inodes = self.state.tree().inodes;
        let mut failures: usize = 0;
        let mut k: usize = 0;
        while k < self.state.inodes.len()
            invariant
                self.wf(),
                inodes == self.state.tree().inodes,
                k <= self.state.inodes@.len(),
                failures <= k,
                failures == checksum_failures(self.device, inodes.take(k as int)),
            decreases self.state.inodes@.len() - k,
        {
            assert(inodes.take(k + 1).drop_last() =~= inodes.take(k as int));
            assert(inodes.take(k + 1).last() == inodes[k as int]);
            let inode = self.state.inodes[k];
            proof {
                assert(extent_ok(
                    inodes[k as int],
                    self.geometry.data_block_start as int,
                    (self.device.image().len() / 512) as int,
                ));
            }
            if !inode.deleted && matches!(inode.kind, NodeKind::File)
                && inode_checksum_fails(&self.device, inode) {
                failures = failures + 1;
            }
            k = k + 1;
        }
        assert(inodes.take(k as int) =~= inodes);
        failures
    }

    /// Holds every stored checksum against the contents: how many files have one, and
    /// how many of those fail.
    pub fn check_data_integrity(&self) -> (r: (usize, usize))
        requires
            self.wf(),
        ensures
            r.0 == checksums_kept(self.state.tree().inodes),
            r.1 == checksum_failures(self.device, self.state.tree().inodes),
    {
        let ghost inodes = self.state.tree().inodes;
        let mut checked: usize = 0;
        let mut k: usize = 0;
        while k < self.state.inodes.len()
            invariant
                inodes == self.state.tree().inodes,
                k <= self.state.inodes@.len(),
                checked <= k,
                checked == checksums_kept(inodes.take(k as int)),
            decreases self.state.inodes@.len() - k,
        {
            assert(inodes.take(k + 1).drop_last() =~= inodes.take(k as int));
            assert(inodes.take(k + 1).last() == inodes[k as int]);
            let inode = self.state.inodes[k];
            if !inode.deleted && matches!(inode.kind, NodeKind::File) && inode.size != 0
                && inode.data_checksum != 0 {
                checked = checked + 1;
            }
            k = k + 1;
        }
        assert(inodes.take(k as int) =~= inodes);
        (checked, self.count_checksum_failures_locked())
    }

    /// Counts the superblocks that announce a commit that was never published.
    pub fn count_pending_commit_on_disk(&self) -> (r: usize)
        ensures
            r == (if commit_pending(self.device, 0) {
                1int
            } else {
                0
            }) + (if commit_pending(self.device, 1) {
                1int
            } else {
                0
            }),
    {
        let mut count: usize = 0;
        match read_superblock_record(&self.device, PRIMARY_SUPERBLOCK_BLOCK) {
            Ok((_label, parsed)) => {
                if parsed.record.pending_commit != 0 {
                    count = count + 1;
                }
            },
            Err(_) => {},
        }
        match read_superblock_record(&self.device, SECONDARY_SUPERBLOCK_BLOCK) {
            Ok((_label, parsed)) => {
                if parsed.record.pending_commit != 0 {
                    count = count + 1;
                }
            },
            Err(_) => {},
        }
        count
    }

    /// Whether the numbers of a check of this volume fit in a word of this machine.
    pub open spec fn countable(&self) -> bool {
        high_water(self.state.tree().inodes, self.geometry.data_block_start as int)
            + self.state.tree().inodes.len() + 4 <= usize::MAX
    }

    /// Whether the numbers of a check of this volume fit in a word of this machine.
    pub fn is_countable(&self) -> (r: bool)
        ensures
            r == self.countable(),
    {
        let high: u64 = find_high_water(
            self.state.inodes.as_slice(),
            self.geometry.data_block_start,
        );
        let count: usize = self.state.inodes.len();
        high as u128 + count as u128 + 4 <= usize::MAX as u128
    }

    /// Counts the data blocks that no inode in use claims, below the highest one
    /// that is claimed.
    pub fn count_orphan_data_blocks(&self) -> (r: usize)
        requires
            high_water(self.state.tree().inodes, self.geometry.data_block_start as int)
                <= usize::MAX,
        ensures
            r == orphans_below(
                self.state.tree().inodes,
                self.geometry.data_block_start as int,
                (self.device.image().len() / 512) as int,
                high_water(self.state.tree().inodes, self.geometry.data_block_start as int),
            ),
            r <= high_water(self.state.tree().inodes, self.geometry.data_block_start as int)
                - self.geometry.data_block_start,
    {
        count_unreferenced_data_blocks(
            self.geometry.data_block_start,
            self.device.block_count(),
            self.state.inodes.as_slice(),
        )
    }

    /// Condition the device reports.
    pub fn device_health(&self) -> (r: DeviceHealth)
        ensures
            r == self.device.health(),
    {
        self.device.device_health()
    }
}

} // verus!
