//! A mounted volume: its device, and the two-phase commit of its metadata.
use vstd::prelude::*;
use vstd::string::*;

use crate::block::{BLOCK_SIZE, BlockDevice, DeviceHealth, device_read, read_vec, span_fits};
use crate::bytes::{put, zero_vec, zeros};
use crate::error::{Error, Result};
use crate::simplefs::encode::{dirents_written, inodes_written, names_fit, write_runtime_dir_entry_table, write_runtime_inode_table};
use crate::simplefs::state::{RestView, SimpleFsState, TableSlot, TreeView};
use crate::simplefs::superblock::{is_superblock, write_superblock};
use crate::simplefs::tree::VolumeGeometry;
use crate::simplefs::types::{RuntimeMetadataImage, SuperblockRecord};
use crate::simplefs::writes::{WriteView, cut_off};
use crate::simplefs::xattr_table::{write_runtime_xattr_table, xattrs_written};

verus! {

/// A mounted SimpleFs volume.
pub struct SimpleFs<D: BlockDevice> {
    pub geometry: VolumeGeometry,
    pub device: D,
    pub state: SimpleFsState,
}

/// Whether a geometry's capacities follow from its table sizes, and memory can
/// hold its tables.
pub open spec fn geometry_ok(g: VolumeGeometry) -> bool {
    &&& g.inode_table_blocks * 512 <= usize::MAX
    &&& g.dirent_table_blocks * 512 <= usize::MAX
    &&& g.xattr_table_blocks * 512 <= usize::MAX
    &&& g.inode_capacity * 32 <= g.inode_table_blocks * 512
    &&& g.dirent_capacity * 64 <= g.dirent_table_blocks * 512
    &&& g.xattr_capacity * 336 <= g.xattr_table_blocks * 512
    &&& g.data_block_start <= g.block_limit <= 0x1_0000_0000
}

/// What a device yields to a volume: nothing once it has failed.
pub open spec fn volume_read<D: BlockDevice>(device: D, lba: int, len: int) -> core::result::Result<
    Seq<u8>,
    Error,
> {
    if device.health() == DeviceHealth::Failed {
        Err(Error::DeviceError)
    } else {
        device_read(device, lba, len)
    }
}

/// The error a volume's write ends in, if any.
pub open spec fn volume_write_fault<D: BlockDevice>(device: D, lba: int, data: Seq<u8>) -> Option<
    Error,
> {
    if device.health() == DeviceHealth::Failed {
        Some(Error::DeviceError)
    } else {
        device.write_fault(lba, data)
    }
}

/// Whether two images agree outside `from..to`.
pub open spec fn same_outside(a: Seq<u8>, b: Seq<u8>, from: int, to: int) -> bool {
    &&& a.len() == b.len()
    &&& forall|i: int| #![trigger b[i]] 0 <= i < a.len() && !(from <= i < to) ==> b[i] == a[i]
}

/// Whether a device stayed the same machine: size, write protection, and its
/// reliability if it had it.
pub open spec fn same_device<D: BlockDevice>(a: D, b: D) -> bool {
    &&& a.image().len() == b.image().len()
    &&& a.write_protected() == b.write_protected()
    &&& a.reliable() ==> b.reliable() && b.health() == a.health()
}

/// Reads `len` bytes from block `lba` on, unless the device has failed.
pub fn cached_read_blocks<D: BlockDevice>(device: &D, lba: u64, len: usize) -> (r: Result<Vec<u8>>)
    ensures
        match r {
            Ok(v) => volume_read(*device, lba as int, len as int) == Ok::<Seq<u8>, Error>(v@)
                && v@.len() == len,
            Err(e) => volume_read(*device, lba as int, len as int) == Err::<Seq<u8>, Error>(e),
        },
{
    if matches!(device.device_health(), DeviceHealth::Failed) {
        return Err(Error::DeviceError);
    }
    read_vec(device, lba, len)
}

/// Writes whole blocks from block `lba` on, unless the device has failed.
pub fn write_blocks_cached<D: BlockDevice>(device: &mut D, lba: u64, data: &[u8]) -> (r: Result<()>)
    ensures
        same_device(*old(device), *final(device)),
        old(device).health() == DeviceHealth::Failed ==> r is Err && *final(device) == *old(device),
        match volume_write_fault(*old(device), lba as int, data@) {
            Some(e) => r == Err::<(), Error>(e) && same_outside(
                old(device).image(),
                final(device).image(),
                lba * 512,
                lba * 512 + data@.len(),
            ),
            None => r is Ok && span_fits(
                old(device).image().len(),
                lba as int,
                data@.len() as int,
            ) && final(device).image() == put(old(device).image(), lba * 512, data@),
        },
{
    if matches!(device.device_health(), DeviceHealth::Failed) {
        return Err(Error::DeviceError);
    }
    device.write_blocks(lba, data)
}

impl VolumeGeometry {
    /// The superblock record that describes the metadata as it is mounted.
    pub open spec fn record_of(self, t: TreeView, r: RestView) -> SuperblockRecord {
        SuperblockRecord {
            inode_count: t.inodes.len() as u32,
            dirent_count: t.entries.len() as u32,
            active_inode_table_block: r.active.inode_block,
            active_dirent_table_block: r.active.dirent_block,
            shadow_inode_table_block: r.shadow.inode_block,
            shadow_dirent_table_block: r.shadow.dirent_block,
            inode_table_blocks: self.inode_table_blocks,
            dirent_table_blocks: self.dirent_table_blocks,
            data_block_start: self.data_block_start,
            generation: r.generation,
            pending_commit: 0,
            active_xattr_table_block: r.active.xattr_block,
            shadow_xattr_table_block: r.shadow.xattr_block,
            xattr_table_blocks: self.xattr_table_blocks,
            xattr_count: t.xattrs.len() as u32,
        }
    }

    /// The record that publishes the shadow tables as generation `generation`.
    pub open spec fn published_record(
        self,
        t: TreeView,
        r: RestView,
        generation: u32,
    ) -> SuperblockRecord {
        SuperblockRecord {
            active_inode_table_block: r.shadow.inode_block,
            active_dirent_table_block: r.shadow.dirent_block,
            shadow_inode_table_block: r.active.inode_block,
            shadow_dirent_table_block: r.active.dirent_block,
            active_xattr_table_block: r.shadow.xattr_block,
            shadow_xattr_table_block: r.active.xattr_block,
            generation,
            ..self.record_of(t, r)
        }
    }

    pub fn runtime_superblock_record(&self, state: &SimpleFsState) -> (r: SuperblockRecord)
        requires
            state.inodes@.len() <= u32::MAX,
            state.dir_entries@.len() <= u32::MAX,
            state.xattrs@.len() <= u32::MAX,
        ensures
            r == self.record_of(state.tree(), state.rest()),
    {
        SuperblockRecord {
            inode_count: state.inodes.len() as u32,
            dirent_count: state.dir_entries.len() as u32,
            active_inode_table_block: state.active.inode_block,
            active_dirent_table_block: state.active.dirent_block,
            shadow_inode_table_block: state.shadow.inode_block,
            shadow_dirent_table_block: state.shadow.dirent_block,
            inode_table_blocks: self.inode_table_blocks,
            dirent_table_blocks: self.dirent_table_blocks,
            data_block_start: self.data_block_start,
            generation: state.generation,
            pending_commit: 0,
            active_xattr_table_block: state.active.xattr_block,
            shadow_xattr_table_block: state.shadow.xattr_block,
            xattr_table_blocks: self.xattr_table_blocks,
            xattr_count: state.xattrs.len() as u32,
        }
    }

    /// Whether the tree's tables fit their slots and its names fit their records.
    pub open spec fn tables_fit(self, t: TreeView) -> bool {
        &&& t.inodes.len() <= self.inode_capacity
        &&& t.entries.len() <= self.dirent_capacity
        &&& t.xattrs.len() <= self.xattr_capacity
        &&& names_fit(t.entries)
    }

    /// Whether `s` is the inode table of a tree.
    pub open spec fn is_inode_table(self, s: Seq<u8>, t: TreeView) -> bool {
        inodes_written(
            zeros((self.inode_table_blocks * 512) as nat),
            s,
            0,
            t.inodes,
            self.format_version,
        )
    }

    /// Whether `s` is the entry table of a tree.
    pub open spec fn is_dirent_table(self, s: Seq<u8>, t: TreeView) -> bool {
        dirents_written(zeros((self.dirent_table_blocks * 512) as nat), s, 0, t.entries)
    }

    /// Whether `s` is the attribute table of a tree: empty where the format has none.
    pub open spec fn is_xattr_table(self, s: Seq<u8>, t: TreeView) -> bool {
        if self.format_version.stores_xattrs() {
            xattrs_written(zeros((self.xattr_table_blocks * 512) as nat), s, 0, t.xattrs)
        } else {
            s.len() == 0
        }
    }

    /// The serialized tables of a mounted volume.
    pub fn runtime_metadata_image(&self, state: &SimpleFsState) -> (r: RuntimeMetadataImage)
        requires
            geometry_ok(*self),
            self.tables_fit(state.tree()),
        ensures
            self.is_inode_table(r.inode_table@, state.tree()),
            self.is_dirent_table(r.dirent_table@, state.tree()),
            self.is_xattr_table(r.xattr_table@, state.tree()),
    {
        let mut inode_table = zero_vec(self.inode_table_blocks as usize * BLOCK_SIZE);
        let _r = write_runtime_inode_table(
            inode_table.as_mut_slice(),
            self.format_version,
            0,
            state.inodes.as_slice(),
        );
        let mut dirent_table = zero_vec(self.dirent_table_blocks as usize * BLOCK_SIZE);
        assert(state.tree().entries.len() == state.dir_entries@.len());
        let _r = write_runtime_dir_entry_table(
            dirent_table.as_mut_slice(),
            self.format_version,
            0,
            state.dir_entries.as_slice(),
        );
        let xattr_table = if self.format_version.supports_persistent_xattrs() {
            let mut table = zero_vec(self.xattr_table_blocks as usize * BLOCK_SIZE);
            assert(state.tree().xattrs.len() == state.xattrs@.len());
            let _r = write_runtime_xattr_table(
                table.as_mut_slice(),
                self.format_version,
                0,
                state.xattrs.as_slice(),
            );
            table
        } else {
            Vec::new()
        };
        RuntimeMetadataImage { inode_table, dirent_table, xattr_table }
    }

    /// A superblock of this volume carrying `record`.
    pub fn superblock_bytes(&self, record: SuperblockRecord) -> (r: Vec<u8>)
        ensures
            is_superblock(r@, self.label@, self.format_version, record),
    {
        let mut block = zero_vec(BLOCK_SIZE);
        write_superblock(
            block.as_mut_slice(),
            self.label.as_str(),
            self.format_version,
            record,
        );
        block
    }
}

/// The image after both superblocks were overwritten with `sb`, the mirror first.
pub open spec fn mirrored(image: Seq<u8>, sb: Seq<u8>) -> Seq<u8> {
    put(put(image, 512, sb), 0, sb)
}

/// The image after the tables were written to a slot.
pub open spec fn tables_stored(
    image: Seq<u8>,
    slot: TableSlot,
    inode_table: Seq<u8>,
    dirent_table: Seq<u8>,
    xattr_table: Seq<u8>,
) -> Seq<u8> {
    put(
        put(put(image, slot.inode_block * 512, inode_table), slot.dirent_block * 512, dirent_table),
        slot.xattr_block * 512,
        xattr_table,
    )
}

/// The bytes that a commit writes: the mark, the tables, and the superblock that publishes
/// them.
pub struct CommitParts {
    pub pending: Seq<u8>,
    pub inode_table: Seq<u8>,
    pub dirent_table: Seq<u8>,
    pub xattr_table: Seq<u8>,
    pub publish: Seq<u8>,
}

/// Whether bytes are the tables of a tree and the superblock that publishes them.
pub open spec fn commit_parts(g: VolumeGeometry, t: TreeView, r: RestView, p: CommitParts) -> bool {
    &&& g.is_inode_table(p.inode_table, t)
    &&& g.is_dirent_table(p.dirent_table, t)
    &&& g.is_xattr_table(p.xattr_table, t)
    &&& is_superblock(
        p.publish,
        g.label@,
        g.format_version,
        g.published_record(t, r, (r.generation + 1) as u32),
    )
}

/// Whether `after` is `before` with a tree committed: written to the shadow slot, and
/// published in both superblocks.
pub open spec fn committed(
    before: Seq<u8>,
    after: Seq<u8>,
    g: VolumeGeometry,
    t: TreeView,
    r: RestView,
) -> bool {
    exists|p: CommitParts| #[trigger] commit_steps(before, after, g, t, r, p)
}

/// What a commit leaves on the device.
pub open spec fn commit_steps(
    before: Seq<u8>,
    after: Seq<u8>,
    g: VolumeGeometry,
    t: TreeView,
    r: RestView,
    p: CommitParts,
) -> bool {
    &&& commit_parts(g, t, r, p)
    &&& after == mirrored(
        tables_stored(before, r.shadow, p.inode_table, p.dirent_table, p.xattr_table),
        p.publish,
    )
}

/// Whether `s` is the superblock that marks a commit as pending: that of the tree which is
/// still the committed one, with nothing but the coming generation noted.
pub open spec fn is_pending_mark(s: Seq<u8>, g: VolumeGeometry, base: TreeView, r: RestView) -> bool {
    is_superblock(
        s,
        g.label@,
        g.format_version,
        (SuperblockRecord { pending_commit: (r.generation + 1) as u32, ..g.record_of(base, r) }),
    )
}

/// The writes of a commit, in order: the mark in the mirror and in the main superblock where
/// the format has it, the tables to the shadow slot, and the publishing superblock, again
/// the mirror first.
pub open spec fn commit_writes(g: VolumeGeometry, r: RestView, p: CommitParts) -> Seq<WriteView> {
    let marks = if g.format_version.stores_security() {
        seq![(512int, p.pending), (0int, p.pending)]
    } else {
        seq![]
    };
    let tables = seq![
        (r.shadow.inode_block * 512, p.inode_table),
        (r.shadow.dirent_block * 512, p.dirent_table),
    ];
    let attributes = if g.format_version.stores_xattrs() {
        seq![(r.shadow.xattr_block * 512, p.xattr_table)]
    } else {
        seq![]
    };
    marks + tables + attributes + seq![(512int, p.publish), (0int, p.publish)]
}

/// Whether `after` is `before` with the commit of a tree begun and cut off by a write that
/// failed; `base` is the tree that was committed before.
pub open spec fn commit_cut_off(
    before: Seq<u8>,
    after: Seq<u8>,
    g: VolumeGeometry,
    base: TreeView,
    t: TreeView,
    r: RestView,
) -> bool {
    exists|p: CommitParts, k: int| #[trigger]
        cut_off(before, after, commit_writes(g, r, p), k) && commit_parts(g, t, r, p)
            && is_pending_mark(p.pending, g, base, r)
}

/// Whether a failed commit left the device as it was, or was cut off by a write that failed.
pub open spec fn commit_failed(
    before: Seq<u8>,
    after: Seq<u8>,
    g: VolumeGeometry,
    base: TreeView,
    t: TreeView,
    r: RestView,
) -> bool {
    after == before || commit_cut_off(before, after, g, base, t, r)
}

/// Whether byte `i` lies in a superblock or in a slot's tables.
pub open spec fn in_metadata_slot(i: int, slot: TableSlot, g: VolumeGeometry) -> bool {
    ||| 0 <= i < 1024
    ||| slot.inode_block * 512 <= i < slot.inode_block * 512 + g.inode_table_blocks * 512
    ||| slot.dirent_block * 512 <= i < slot.dirent_block * 512 + g.dirent_table_blocks * 512
    ||| g.format_version.stores_xattrs() && slot.xattr_block * 512 <= i < slot.xattr_block * 512
        + g.xattr_table_blocks * 512
}

/// Whether two images agree outside the superblocks and a slot's tables.
pub open spec fn slot_differs_only(
    a: Seq<u8>,
    b: Seq<u8>,
    slot: TableSlot,
    g: VolumeGeometry,
) -> bool {
    &&& a.len() == b.len()
    &&& forall|i: int|
        #![trigger b[i]]
        0 <= i < a.len() && !in_metadata_slot(i, slot, g) ==> b[i] == a[i]
}

/// Whether a slot's tables and the superblocks lie on the device.
pub open spec fn slot_on_device(slot: TableSlot, g: VolumeGeometry, device_len: nat) -> bool {
    &&& 1024 <= device_len
    &&& slot.inode_block * 512 + g.inode_table_blocks * 512 <= device_len
    &&& slot.dirent_block * 512 + g.dirent_table_blocks * 512 <= device_len
    &&& g.format_version.stores_xattrs() ==> slot.xattr_block * 512 + g.xattr_table_blocks * 512
        <= device_len
}

/// The metadata beside the tree after a commit.
pub open spec fn rest_committed(r: RestView) -> RestView {
    RestView {
        active: r.shadow,
        shadow: r.active,
        generation: (r.generation + 1) as u32,
        needs_shadow_sync: false,
        ..r
    }
}

} // verus!
