//! Rebuilding the mounted state and opening a volume.
use vstd::prelude::*;
use vstd::string::*;

use crate::block::BlockDevice;
use crate::error::{Error, Result};
use crate::simplefs::extents::{free_is_rest, rebuild_free_data_extents};
use crate::simplefs::mount::{LoadedView, first_loadable, lemma_cover_exists, lemma_ref_exists, lemma_two_covers, lemma_two_refs, load_current_runtime_state, loadable, mount_order, mountable};
use crate::simplefs::state::{RestView, SimpleFsState, TableSlot, TreeView, UndoLog};
use crate::simplefs::superblock::record_valid;
use crate::simplefs::tables::table_bytes;
use crate::simplefs::tree::{VolumeGeometry, entry_linked, shape_ok, slices_apart, slots_distinct};
use crate::simplefs::types::{DirEntryView, OnDiskDirEntry, OnDiskInode, ParsedSuperblock, SimpleFsRuntimeMountPolicy, SuperblockRecord, XattrRecord, XattrView, entry_views, xattr_views};
use crate::simplefs::validate::{cover_count, covers, entry_ok, extent_ok, live_dir, metadata_valid, owns_extent, ref_count, slice_end};
use crate::simplefs::volume::{SimpleFs, geometry_ok};
use crate::simplefs::xattr_table::{read_xattr_records, stored_xattrs, xattr_run};
use crate::vfs::NodeKind;

verus! {

/// Whether the maps are sound so far: whoever has a position has it from an entry
/// that names it, in a directory that holds the entry.
spec fn maps_sound(
    inodes: Seq<OnDiskInode>,
    entries: Seq<DirEntryView>,
    parents: Seq<Option<usize>>,
    positions: Seq<Option<usize>>,
) -> bool {
    &&& parents.len() == inodes.len()
    &&& positions.len() == inodes.len()
    &&& forall|c: int|
        #![trigger positions[c]]
        0 <= c < inodes.len() ==> {
            &&& positions[c] is Some == parents[c] is Some
            &&& positions[c] matches Some(d) ==> {
                &&& d < entries.len()
                &&& entries[d as int].inode_index == c
                &&& parents[c]->0 < inodes.len()
                &&& covers(inodes[parents[c]->0 as int], d as int)
            }
        }
}

/// Rebuilds for each inode the directory it lies in and the entry that names it.
fn rebuild_links(inodes: &Vec<OnDiskInode>, dir_entries: &Vec<OnDiskDirEntry>) -> (r: (
    Vec<Option<usize>>,
    Vec<Option<usize>>,
))
    requires
        inodes@.len() <= u32::MAX,
        forall|i: int|
            #![trigger inodes@[i]]
            0 <= i < inodes@.len() && live_dir(inodes@[i]) ==> slice_end(inodes@[i])
                <= dir_entries@.len(),
        forall|d: int|
            #![trigger entry_views(dir_entries@)[d]]
            0 <= d < dir_entries@.len() ==> entry_views(dir_entries@)[d].inode_index
                < inodes@.len(),
    ensures
        maps_sound(inodes@, entry_views(dir_entries@), r.0@, r.1@),
        forall|d: int, p: int|
            #![trigger entry_views(dir_entries@)[d], inodes@[p]]
            0 <= d < dir_entries@.len() && 0 <= p < inodes@.len() && covers(inodes@[p], d)
                ==> r.1@[entry_views(dir_entries@)[d].inode_index as int] is Some,
{
    let ghost entries = entry_views(dir_entries@);
    let count: usize = inodes.len();
    let mut parents: Vec<Option<usize>> = Vec::new();
    let mut positions: Vec<Option<usize>> = Vec::new();
    let mut i: usize = 0;
    while i < count
        invariant
            i <= count,
            parents@ == Seq::new(i as nat, |k: int| None::<usize>),
            positions@ == Seq::new(i as nat, |k: int| None::<usize>),
        decreases count - i,
    {
        parents.push(None);
        positions.push(None);
        i = i + 1;
    }
    let mut p: usize = 0;
    while p < count
        invariant
            p <= count,
            count == inodes@.len(),
            entries == entry_views(dir_entries@),
            forall|i: int|
                #![trigger inodes@[i]]
                0 <= i < inodes@.len() && live_dir(inodes@[i]) ==> slice_end(inodes@[i])
                    <= dir_entries@.len(),
            forall|d: int|
                #![trigger entries[d]]
                0 <= d < entries.len() ==> entries[d].inode_index < inodes@.len(),
            maps_sound(inodes@, entries, parents@, positions@),
            forall|d: int, q: int|
                #![trigger entries[d], inodes@[q]]
                0 <= d < entries.len() && 0 <= q < p && covers(inodes@[q], d)
                    ==> positions@[entries[d].inode_index as int] is Some,
        decreases count - p,
    {
        let inode = inodes[p];
        if matches!(inode.kind, NodeKind::Directory) && !inode.deleted {
            assert(live_dir(inodes@[p as int]));
            let _total: usize = dir_entries.len();
            let end: usize = (inode.entry_start as u64 + inode.entry_count as u64) as usize;
            let mut d: usize = inode.entry_start as usize;
            while d < end
                invariant
                    p < count,
                    count == inodes@.len(),
                    inode == inodes@[p as int],
                    live_dir(inode),
                    inode.entry_start <= d <= end <= dir_entries@.len(),
                    end == slice_end(inode),
                    entries == entry_views(dir_entries@),
                    forall|e: int|
                        #![trigger entries[e]]
                        0 <= e < entries.len() ==> entries[e].inode_index < inodes@.len(),
                    maps_sound(inodes@, entries, parents@, positions@),
                    forall|e: int, q: int|
                        #![trigger entries[e], inodes@[q]]
                        0 <= e < entries.len() && 0 <= q < p && covers(inodes@[q], e)
                            ==> positions@[entries[e].inode_index as int] is Some,
                    forall|e: int|
                        #![trigger entries[e]]
                        inode.entry_start <= e < d
                            ==> positions@[entries[e].inode_index as int] is Some,
                decreases end - d,
            {
                assert(entries[d as int] == dir_entries@[d as int]@);
                let child: usize = dir_entries[d].inode_index as usize;
                assert(covers(inodes@[p as int], d as int));
                let ghost before = positions@;
                parents[child] = Some(p);
                positions[child] = Some(d);
                assert forall|c: int|
                    #![trigger positions@[c]]
                    0 <= c < inodes@.len() && c != child implies positions@[c] == before[c] by {
                }
                d = d + 1;
            }
        }
        assert forall|e: int, q: int|
            #![trigger entries[e], inodes@[q]]
            0 <= e < entries.len() && 0 <= q < p + 1 && covers(
                inodes@[q],
                e,
            ) implies positions@[entries[e].inode_index as int] is Some by {
            if q == p {
                assert(live_dir(inode));
            }
        }
        p = p + 1;
    }
    (parents, positions)
}

/// The deleted inodes past the root, in order.
pub open spec fn deleted_slots(inodes: Seq<OnDiskInode>) -> Seq<usize>
    decreases inodes.len(),
{
    if inodes.len() <= 1 {
        Seq::empty()
    } else if inodes.last().deleted {
        deleted_slots(inodes.drop_last()).push((inodes.len() - 1) as usize)
    } else {
        deleted_slots(inodes.drop_last())
    }
}

/// The directories in use, in order.
pub open spec fn live_dirs(inodes: Seq<OnDiskInode>) -> Seq<usize>
    decreases inodes.len(),
{
    if inodes.len() == 0 {
        Seq::empty()
    } else if live_dir(inodes.last()) {
        live_dirs(inodes.drop_last()).push((inodes.len() - 1) as usize)
    } else {
        live_dirs(inodes.drop_last())
    }
}

fn collect_deleted(inodes: &Vec<OnDiskInode>) -> (r: Vec<usize>)
    ensures
        r@ == deleted_slots(inodes@),
{
    let mut out: Vec<usize> = Vec::new();
    let mut i: usize = 0;
    while i < inodes.len()
        invariant
            i <= inodes@.len(),
            out@ == deleted_slots(inodes@.take(i as int)),
        decreases inodes@.len() - i,
    {
        assert(inodes@.take(i + 1).drop_last() =~= inodes@.take(i as int));
        assert(inodes@.take(i + 1).last() == inodes@[i as int]);
        if i > 0 && inodes[i].deleted {
            out.push(i);
        }
        i = i + 1;
    }
    assert(inodes@.take(i as int) =~= inodes@);
    out
}

/// Rebuilds the list of directories in use.
pub fn rebuild_dir_inode_indices(inodes: &Vec<OnDiskInode>) -> (r: Vec<usize>)
    ensures
        r@ == live_dirs(inodes@),
{
    let mut out: Vec<usize> = Vec::new();
    let mut i: usize = 0;
    while i < inodes.len()
        invariant
            i <= inodes@.len(),
            out@ == live_dirs(inodes@.take(i as int)),
        decreases inodes@.len() - i,
    {
        assert(inodes@.take(i + 1).drop_last() =~= inodes@.take(i as int));
        assert(inodes@.take(i + 1).last() == inodes@[i as int]);
        if matches!(inodes[i].kind, NodeKind::Directory) && !inodes[i].deleted {
            out.push(i);
        }
        i = i + 1;
    }
    assert(inodes@.take(i as int) =~= inodes@);
    out
}

proof fn lemma_deleted_slots(inodes: Seq<OnDiskInode>)
    requires
        inodes.len() <= u32::MAX,
    ensures
        slots_distinct(deleted_slots(inodes)),
        forall|k: int|
            #![trigger deleted_slots(inodes)[k]]
            0 <= k < deleted_slots(inodes).len() ==> 0 < deleted_slots(inodes)[k] < inodes.len()
                && inodes[deleted_slots(inodes)[k] as int].deleted,
    decreases inodes.len(),
{
    if inodes.len() > 1 {
        lemma_deleted_slots(inodes.drop_last());
        let rest = deleted_slots(inodes.drop_last());
        let all = deleted_slots(inodes);
        assert forall|k: int| #![trigger all[k]] 0 <= k < all.len() implies 0 < all[k]
            < inodes.len() && inodes[all[k] as int].deleted by {
            if k < rest.len() {
                assert(all[k] == rest[k]);
            }
        }
        assert forall|a: int, b: int| #![trigger all[a], all[b]] 0 <= a < b
            < all.len() implies all[a] != all[b] by {
            assert(all[a] == rest[a]);
            if b < rest.len() {
                assert(all[b] == rest[b]);
            }
        }
    }
}

proof fn lemma_live_dirs(inodes: Seq<OnDiskInode>)
    requires
        inodes.len() <= u32::MAX,
    ensures
        slots_distinct(live_dirs(inodes)),
        forall|k: int|
            #![trigger live_dirs(inodes)[k]]
            0 <= k < live_dirs(inodes).len() ==> live_dirs(inodes)[k] < inodes.len() && live_dir(
                inodes[live_dirs(inodes)[k] as int],
            ),
        forall|i: int|
            #![trigger inodes[i]]
            0 <= i < inodes.len() && live_dir(inodes[i]) ==> live_dirs(inodes).contains(
                i as usize,
            ),
    decreases inodes.len(),
{
    if inodes.len() > 0 {
        let before = inodes.drop_last();
        lemma_live_dirs(before);
        let rest = live_dirs(before);
        let all = live_dirs(inodes);
        assert forall|k: int| #![trigger all[k]] 0 <= k < all.len() implies all[k] < inodes.len()
            && live_dir(inodes[all[k] as int]) by {
            if k < rest.len() {
                assert(all[k] == rest[k]);
                assert(before[rest[k] as int] == inodes[rest[k] as int]);
            }
        }
        assert forall|a: int, b: int| #![trigger all[a], all[b]] 0 <= a < b
            < all.len() implies all[a] != all[b] by {
            assert(all[a] == rest[a]);
            if b < rest.len() {
                assert(all[b] == rest[b]);
            }
        }
        assert forall|i: int| #![trigger inodes[i]] 0 <= i < inodes.len() && live_dir(
            inodes[i],
        ) implies all.contains(i as usize) by {
            if i < inodes.len() - 1 {
                assert(before[i] == inodes[i]);
                assert(rest.contains(i as usize));
                let k = choose|k: int| 0 <= k < rest.len() && rest[k] == i as usize;
                assert(all[k] == i as usize);
            } else {
                assert(all[rest.len() as int] == i as usize);
            }
        }
    }
}

/// The rebuilt maps of sound metadata link every entry and every inode.
proof fn lemma_rebuilt_shape(t: TreeView, g: VolumeGeometry, blocks: int)
    requires
        metadata_valid(
            t.inodes,
            t.entries,
            g.data_block_start as int,
            blocks,
            g.case_sensitive,
        ),
        t.inodes.len() <= g.inode_capacity,
        t.entries.len() <= g.dirent_capacity,
        maps_sound(t.inodes, t.entries, t.parents, t.positions),
        forall|d: int, p: int|
            #![trigger t.entries[d], t.inodes[p]]
            0 <= d < t.entries.len() && 0 <= p < t.inodes.len() && covers(t.inodes[p], d)
                ==> t.positions[t.entries[d].inode_index as int] is Some,
        t.dirs == live_dirs(t.inodes),
        t.free_slots == deleted_slots(t.inodes),
    ensures
        shape_ok(t, g, blocks, None),
{
    lemma_live_dirs(t.inodes);
    lemma_deleted_slots(t.inodes);
    assert forall|i: int, j: int|
        #![trigger t.inodes[i], t.inodes[j]]
        0 <= i < j < t.inodes.len() implies slices_apart(t.inodes[i], t.inodes[j]) by {
        let a = t.inodes[i];
        let b = t.inodes[j];
        if live_dir(a) && live_dir(b) && slice_end(a) > b.entry_start && slice_end(b)
            > a.entry_start && a.entry_count > 0 && b.entry_count > 0 {
            let d = if a.entry_start >= b.entry_start {
                a.entry_start as int
            } else {
                b.entry_start as int
            };
            assert(covers(a, d) && covers(b, d));
            lemma_two_covers(t.inodes, d, i, j);
            assert(cover_count(t.inodes, d) == 1);
        }
    }
    assert forall|d: int| #![trigger t.entries[d]] 0 <= d < t.entries.len() implies entry_linked(
        t,
        d,
    ) by {
        assert(entry_ok(t.entries[d], t.inodes));
        let c = t.entries[d].inode_index as int;
        assert(cover_count(t.inodes, d) == 1);
        let p = lemma_cover_exists(t.inodes, d);
        assert(covers(t.inodes[p], d));
        assert(t.positions[c] is Some);
        let e = t.positions[c]->0 as int;
        assert(t.entries[e].inode_index == c);
        assert(ref_count(t.entries, c) == 1);
        if e < d {
            lemma_two_refs(t.entries, c, e, d);
        } else if d < e {
            lemma_two_refs(t.entries, c, d, e);
        }
    }
    assert forall|i: int| #![trigger t.positions[i]] 0 <= i < t.inodes.len() implies if i == 0
        || t.inodes[i].deleted {
        t.positions[i] is None && t.parents[i] is None
    } else {
        &&& t.positions[i] is Some
        &&& t.positions[i]->0 < t.entries.len()
        &&& t.entries[t.positions[i]->0 as int].inode_index == i
    } by {
        if i == 0 || t.inodes[i].deleted {
            if t.positions[i] is Some {
                let d = t.positions[i]->0 as int;
                assert(entry_ok(t.entries[d], t.inodes));
            }
        } else {
            assert(ref_count(t.entries, i) == 1);
            let d = lemma_ref_exists(t.entries, i);
            assert(entry_linked(t, d));
        }
    }
}

/// The smaller of two numbers, as a 32-bit value.
fn clamp_u32(n: u64) -> (r: u32)
    ensures
        r == (if n <= u32::MAX {
            n as int
        } else {
            u32::MAX as int
        }),
{
    if n <= u32::MAX as u64 {
        n as u32
    } else {
        u32::MAX
    }
}

/// `n`, or the largest 32-bit value where it is larger.
pub open spec fn clamped(n: int) -> int {
    if n <= u32::MAX {
        n
    } else {
        u32::MAX as int
    }
}

/// First block past those that may be handed out: an inode names its blocks with
/// 32 bits, and there is nothing to hand out where the data area starts past the
/// end of the device.
pub open spec fn block_limit_of(blocks: int, data_start: int) -> int {
    let reach = if blocks <= 0x1_0000_0000 {
        blocks
    } else {
        0x1_0000_0000
    };
    if reach < data_start {
        data_start
    } else {
        reach
    }
}

/// Whether a geometry is the one a superblock describes.
pub open spec fn geometry_of(g: VolumeGeometry, v: LoadedView, case_sensitive: bool, blocks: int) -> bool {
    let r = v.parsed.record;
    &&& g.label@ == v.label
    &&& g.format_version == v.parsed.format_version
    &&& g.case_sensitive == case_sensitive
    &&& g.inode_table_blocks == r.inode_table_blocks
    &&& g.dirent_table_blocks == r.dirent_table_blocks
    &&& g.xattr_table_blocks == r.xattr_table_blocks
    &&& g.data_block_start == r.data_block_start
    &&& g.block_limit == block_limit_of(blocks, r.data_block_start as int)
    &&& g.inode_capacity == clamped(r.inode_table_blocks * 16)
    &&& g.dirent_capacity == clamped(r.dirent_table_blocks * 8)
    &&& g.xattr_capacity == clamped(r.xattr_table_blocks * 512 / 336)
}

/// Whether memory can hold tables of this size.
pub open spec fn tables_addressable(r: SuperblockRecord) -> bool {
    &&& r.inode_table_blocks * 512 <= usize::MAX
    &&& r.dirent_table_blocks * 512 <= usize::MAX
    &&& r.xattr_table_blocks * 512 <= usize::MAX
}

/// The attribute records a mount loads: none where the format stores none.
pub open spec fn mounted_xattrs<D: BlockDevice>(device: D, v: LoadedView) -> core::result::Result<
    Seq<XattrView>,
    Error,
> {
    if v.parsed.format_version.stores_xattrs() {
        stored_xattrs(
            device,
            v.parsed.record.active_xattr_table_block as int,
            clamped(v.parsed.record.xattr_table_blocks * 512 / 336) as nat,
        )
    } else {
        Ok(Seq::empty())
    }
}

/// What opening a device comes to, up to the maps that are rebuilt.
pub open spec fn open_outcome<D: BlockDevice>(device: D, case_sensitive: bool) -> core::result::Result<
    (LoadedView, Seq<XattrView>),
    Error,
> {
    match mountable(device, case_sensitive) {
        Err(e) => Err(e),
        Ok(v) => if !tables_addressable(v.parsed.record) {
            Err(Error::InvalidArgument)
        } else {
            match mounted_xattrs(device, v) {
                Err(e) => Err(e),
                Ok(xattrs) => Ok((v, xattrs)),
            }
        },
    }
}

impl<D: BlockDevice> SimpleFs<D> {
    /// What holds of a mounted volume between operations.
    pub open spec fn wf(&self) -> bool {
        let t = self.state.tree();
        let blocks = (self.device.image().len() / 512) as int;
        &&& geometry_ok(self.geometry)
        &&& shape_ok(t, self.geometry, blocks, None)
        &&& free_is_rest(
            t.free,
            t.inodes,
            self.geometry.data_block_start as int,
            self.geometry.block_limit as int,
        )
        &&& t.xattrs.len() <= self.geometry.xattr_capacity
        &&& self.geometry.block_limit == block_limit_of(
            blocks,
            self.geometry.data_block_start as int,
        )
        &&& self.runtime_valid()
    }

    /// Mounts a device.
    pub fn open(device: D, case_sensitive: bool) -> (r: Result<SimpleFs<D>>)
        ensures
            match r {
                Ok(fs) => {
                    let o = open_outcome(device, case_sensitive);
                    let v = o->Ok_0.0;
                    let rec = v.parsed.record;
                    &&& o is Ok
                    &&& fs.device == device
                    &&& fs.wf()
                    &&& geometry_of(
                        fs.geometry,
                        v,
                        case_sensitive,
                        (device.image().len() / 512) as int,
                    )
                    &&& fs.state.tree().inodes == v.inodes
                    &&& fs.state.tree().entries == v.entries
                    &&& fs.state.tree().xattrs == o->Ok_0.1
                    &&& fs.state.rest() == (RestView {
                        active: TableSlot {
                            inode_block: rec.active_inode_table_block,
                            dirent_block: rec.active_dirent_table_block,
                            xattr_block: rec.active_xattr_table_block,
                        },
                        shadow: TableSlot {
                            inode_block: rec.shadow_inode_table_block,
                            dirent_block: rec.shadow_dirent_table_block,
                            xattr_block: rec.shadow_xattr_table_block,
                        },
                        generation: rec.generation,
                        needs_shadow_sync: true,
                        staging: Seq::empty(),
                        handles: Seq::empty(),
                    })
                },
                Err(e) => open_outcome(device, case_sensitive) == Err::<
                    (LoadedView, Seq<XattrView>),
                    Error,
                >(e),
            },
    {
        Self::open_with_runtime_policy(device, case_sensitive, SimpleFsRuntimeMountPolicy::Public)
    }

    /// Mounts a device under a policy.
    #[verifier::rlimit(40)]
    pub fn open_with_runtime_policy(
        device: D,
        case_sensitive: bool,
        mount_policy: SimpleFsRuntimeMountPolicy,
    ) -> (r: Result<SimpleFs<D>>)
        ensures
            match r {
                Ok(fs) => {
                    let o = open_outcome(device, case_sensitive);
                    let v = o->Ok_0.0;
                    let rec = v.parsed.record;
                    &&& o is Ok
                    &&& fs.device == device
                    &&& fs.wf()
                    &&& geometry_of(
                        fs.geometry,
                        v,
                        case_sensitive,
                        (device.image().len() / 512) as int,
                    )
                    &&& fs.state.tree().inodes == v.inodes
                    &&& fs.state.tree().entries == v.entries
                    &&& fs.state.tree().xattrs == o->Ok_0.1
                    &&& fs.state.rest() == (RestView {
                        active: TableSlot {
                            inode_block: rec.active_inode_table_block,
                            dirent_block: rec.active_dirent_table_block,
                            xattr_block: rec.active_xattr_table_block,
                        },
                        shadow: TableSlot {
                            inode_block: rec.shadow_inode_table_block,
                            dirent_block: rec.shadow_dirent_table_block,
                            xattr_block: rec.shadow_xattr_table_block,
                        },
                        generation: rec.generation,
                        needs_shadow_sync: true,
                        staging: Seq::empty(),
                        handles: Seq::empty(),
                    })
                },
                Err(e) => open_outcome(device, case_sensitive) == Err::<
                    (LoadedView, Seq<XattrView>),
                    Error,
                >(e),
            },
    {
        let (label, parsed, inodes, dir_entries) = load_current_runtime_state(
            &device,
            case_sensitive,
            mount_policy,
        )?;
        let ghost v = LoadedView {
            label: label@,
            parsed,
            inodes: inodes@,
            entries: entry_views(dir_entries@),
        };
        proof {
            lemma_mountable_sound(device, mount_order(device), case_sensitive, false);
        }
        let record = parsed.record;
        let format_version = parsed.format_version;
        if record.inode_table_blocks as u64 * 512 > usize::MAX as u64
            || record.dirent_table_blocks as u64 * 512 > usize::MAX as u64
            || record.xattr_table_blocks as u64 * 512 > usize::MAX as u64 {
            return Err(Error::InvalidArgument);
        }
        let inode_capacity = clamp_u32(format_version.inode_capacity(record.inode_table_blocks));
        let dirent_capacity = clamp_u32(format_version.dirent_capacity(record.dirent_table_blocks));
        let xattr_capacity = clamp_u32(format_version.xattr_capacity(record.xattr_table_blocks));
        let xattrs: Vec<XattrRecord> = if format_version.supports_persistent_xattrs() {
            read_xattr_records(&device, record.active_xattr_table_block, xattr_capacity as u64)?
        } else {
            Vec::new()
        };
        assert(mounted_xattrs(device, v) == Ok::<Seq<XattrView>, Error>(xattr_views(xattrs@))) by {
            if !format_version.stores_xattrs() {
                assert(xattr_views(xattrs@) =~= Seq::empty());
            }
        }
        let blocks: u64 = device.block_count();
        let reach: u64 = if blocks <= 0x1_0000_0000 {
            blocks
        } else {
            0x1_0000_0000
        };
        let block_limit: u64 = if reach < record.data_block_start as u64 {
            record.data_block_start as u64
        } else {
            reach
        };
        let geometry = VolumeGeometry {
            label,
            format_version,
            case_sensitive,
            inode_table_blocks: record.inode_table_blocks,
            dirent_table_blocks: record.dirent_table_blocks,
            xattr_table_blocks: record.xattr_table_blocks,
            data_block_start: record.data_block_start,
            block_limit,
            inode_capacity,
            dirent_capacity,
            xattr_capacity,
        };
        proof {
            assert(metadata_valid(
                v.inodes,
                v.entries,
                record.data_block_start as int,
                blocks as int,
                case_sensitive,
            ));
            assert forall|d: int|
                #![trigger entry_views(dir_entries@)[d]]
                0 <= d < dir_entries@.len() implies entry_views(dir_entries@)[d].inode_index
                < inodes@.len() by {
                assert(entry_ok(v.entries[d], v.inodes));
            }
        }
        let (parent_of, inode_to_entry_index) = rebuild_links(&inodes, &dir_entries);
        let free_inode_slots = collect_deleted(&inodes);
        let dir_inode_indices = rebuild_dir_inode_indices(&inodes);
        proof {
            assert forall|i: int|
                #![trigger inodes@[i]]
                0 <= i < inodes@.len() && owns_extent(inodes@[i]) implies record.data_block_start
                <= inodes@[i].data_block by {
                assert(extent_ok(v.inodes[i], record.data_block_start as int, blocks as int));
            }
        }
        let free_data_extents = rebuild_free_data_extents(
            inodes.as_slice(),
            record.data_block_start as u64,
            block_limit,
        );
        let state = SimpleFsState {
            inodes,
            dir_entries,
            active: TableSlot {
                inode_block: record.active_inode_table_block,
                dirent_block: record.active_dirent_table_block,
                xattr_block: record.active_xattr_table_block,
            },
            shadow: TableSlot {
                inode_block: record.shadow_inode_table_block,
                dirent_block: record.shadow_dirent_table_block,
                xattr_block: record.shadow_xattr_table_block,
            },
            generation: record.generation,
            inode_table_dirty: false,
            dirent_table_dirty: false,
            xattr_table_dirty: false,
            needs_shadow_sync: true,
            staging_roots: Vec::new(),
            free_inode_slots,
            parent_of,
            inode_to_entry_index,
            free_data_extents,
            dir_inode_indices,
            xattrs,
            open_handles: Vec::new(),
            undo: UndoLog::empty(),
        };
        let fs = SimpleFs { geometry, device, state };
        proof {
            let t = fs.state.tree();
            assert(fs.state.rest().staging =~= Seq::<Seq<char>>::empty());
            lemma_rebuilt_shape(t, geometry, blocks as int);
            lemma_xattr_run_len(fs.device, v, t.xattrs);
            assert(record_valid(geometry.record_of(t, fs.state.rest())));
        }
        Ok(fs)
    }
}

/// Whatever is mounted fits its tables, lies on a sound layout and is sound.
proof fn lemma_mountable_sound<D: BlockDevice>(
    device: D,
    candidates: Seq<(Seq<char>, ParsedSuperblock)>,
    case_sensitive: bool,
    saw_unsupported: bool,
)
    requires
        forall|k: int|
            #![trigger candidates[k]]
            0 <= k < candidates.len() ==> record_valid(candidates[k].1.record),
    ensures
        first_loadable(device, candidates, case_sensitive, saw_unsupported) matches Ok(v) ==> {
            let r = v.parsed.record;
            &&& record_valid(r)
            &&& v.inodes.len() == r.inode_count
            &&& v.entries.len() == r.dirent_count
            &&& r.inode_count <= r.inode_table_blocks * 16
            &&& r.dirent_count <= r.dirent_table_blocks * 8
            &&& metadata_valid(
                v.inodes,
                v.entries,
                r.data_block_start as int,
                (device.image().len() / 512) as int,
                case_sensitive,
            )
        },
    decreases candidates.len(),
{
    if candidates.len() > 0 {
        assert(record_valid(candidates[0].1.record));
        match loadable(device, candidates[0].1, case_sensitive) {
            Ok(_) => {},
            Err(e) => {
                let rest = candidates.skip(1);
                assert forall|k: int|
                    #![trigger rest[k]]
                    0 <= k < rest.len() implies record_valid(rest[k].1.record) by {
                    assert(rest[k] == candidates[k + 1]);
                }
                lemma_mountable_sound(
                    device,
                    rest,
                    case_sensitive,
                    saw_unsupported || e == Error::Unsupported,
                );
            },
        }
    }
}

proof fn lemma_run_len(s: Seq<u8>, k: int, capacity: int)
    requires
        k <= capacity,
    ensures
        xattr_run(s, k, capacity).len() <= capacity - k,
    decreases capacity - k,
{
    if k < capacity {
        lemma_run_len(s, k + 1, capacity);
    }
}

proof fn lemma_xattr_run_len<D: BlockDevice>(device: D, v: LoadedView, xattrs: Seq<XattrView>)
    requires
        mounted_xattrs(device, v) == Ok::<Seq<XattrView>, Error>(xattrs),
    ensures
        xattrs.len() <= clamped(v.parsed.record.xattr_table_blocks * 512 / 336),
{
    let capacity = clamped(v.parsed.record.xattr_table_blocks * 512 / 336);
    if v.parsed.format_version.stores_xattrs() {
        let b = table_bytes(
            device,
            v.parsed.record.active_xattr_table_block as int,
            capacity * 336,
        );
        lemma_run_len(b->Ok_0, 0, capacity);
    }
}

} // verus!
