//! Mounting: picking a superblock, loading its tables, and rebuilding the maps.
use vstd::prelude::*;
use vstd::string::*;

use crate::block::BlockDevice;
use crate::error::{Error, Result};
use crate::simplefs::constants::{PRIMARY_SUPERBLOCK_BLOCK, SECONDARY_SUPERBLOCK_BLOCK};
use crate::simplefs::reach::all_reached;
use crate::simplefs::state::TreeView;
use crate::simplefs::superblock::{read_superblock_record, stored_superblock};
use crate::simplefs::tables::{read_dir_entries, read_inodes, stored_dirents, stored_inodes};
use crate::simplefs::tree::{VolumeGeometry, entry_linked, shape_ok, slices_apart};
use crate::simplefs::types::{DirEntryView, OnDiskDirEntry, OnDiskInode, ParsedSuperblock, SimpleFsRuntimeMountPolicy, entry_views};
use crate::simplefs::validate::{cover_count, covers, entry_ok, metadata_valid, ref_count, slice_end, validate_loaded_metadata};
use crate::vfs::NodeKind;

verus! {

/// The tables a superblock points to, if they can be loaded and are sound.
pub open spec fn loadable<D: BlockDevice>(
    device: D,
    parsed: ParsedSuperblock,
    case_sensitive: bool,
) -> core::result::Result<(Seq<OnDiskInode>, Seq<DirEntryView>), Error> {
    let r = parsed.record;
    if r.inode_count > r.inode_table_blocks * 16 || r.dirent_count > r.dirent_table_blocks * 8 {
        Err(Error::InvalidArgument)
    } else {
        match stored_inodes(
            device,
            parsed.format_version,
            r.active_inode_table_block as int,
            r.inode_count as nat,
        ) {
            Err(e) => Err(e),
            Ok(inodes) => match stored_dirents(
                device,
                r.active_dirent_table_block as int,
                r.dirent_count as nat,
            ) {
                Err(e) => Err(e),
                Ok(entries) => if metadata_valid(
                    inodes,
                    entries,
                    r.data_block_start as int,
                    (device.image().len() / 512) as int,
                    case_sensitive,
                ) {
                    Ok((inodes, entries))
                } else {
                    Err(Error::InvalidArgument)
                },
            },
        }
    }
}

/// What a mount starts from.
pub struct LoadedView {
    pub label: Seq<char>,
    pub parsed: ParsedSuperblock,
    pub inodes: Seq<OnDiskInode>,
    pub entries: Seq<DirEntryView>,
}

/// The readable superblocks in the order a mount tries them: the newer first, the
/// main one where both are equally new.
pub open spec fn mount_order<D: BlockDevice>(device: D) -> Seq<(Seq<char>, ParsedSuperblock)> {
    let main = stored_superblock(device, 0);
    let mirror = stored_superblock(device, 1);
    match (main, mirror) {
        (Ok(a), Ok(b)) => if b.1.record.generation > a.1.record.generation {
            seq![b, a]
        } else {
            seq![a, b]
        },
        (Ok(a), Err(_)) => seq![a],
        (Err(_), Ok(b)) => seq![b],
        (Err(_), Err(_)) => Seq::empty(),
    }
}

/// The first superblock whose tables load; where none does, the volume is
/// unsupported if a candidate said so, and malformed otherwise.
pub open spec fn first_loadable<D: BlockDevice>(
    device: D,
    candidates: Seq<(Seq<char>, ParsedSuperblock)>,
    case_sensitive: bool,
    saw_unsupported: bool,
) -> core::result::Result<LoadedView, Error>
    decreases candidates.len(),
{
    if candidates.len() == 0 {
        Err(
            if saw_unsupported {
                Error::Unsupported
            } else {
                Error::InvalidArgument
            },
        )
    } else {
        match loadable(device, candidates[0].1, case_sensitive) {
            Ok((inodes, entries)) => Ok(
                LoadedView { label: candidates[0].0, parsed: candidates[0].1, inodes, entries },
            ),
            Err(e) => first_loadable(
                device,
                candidates.skip(1),
                case_sensitive,
                saw_unsupported || e == Error::Unsupported,
            ),
        }
    }
}

/// What a mount of a device starts from.
pub open spec fn mountable<D: BlockDevice>(device: D, case_sensitive: bool) -> core::result::Result<
    LoadedView,
    Error,
> {
    first_loadable(device, mount_order(device), case_sensitive, false)
}

/// The label and contents of superblocks.
pub open spec fn candidate_views(v: Seq<(String, ParsedSuperblock)>) -> Seq<
    (Seq<char>, ParsedSuperblock),
> {
    Seq::new(v.len(), |i: int| (v[i].0@, v[i].1))
}

/// The readable superblocks, in the order a mount tries them.
pub fn readable_superblock_candidates<D: BlockDevice>(device: &D) -> (r: Vec<
    (String, ParsedSuperblock),
>)
    ensures
        candidate_views(r@) == mount_order(*device),
{
    let main = read_superblock_record(device, PRIMARY_SUPERBLOCK_BLOCK);
    let mirror = read_superblock_record(device, SECONDARY_SUPERBLOCK_BLOCK);
    let mut out: Vec<(String, ParsedSuperblock)> = Vec::new();
    match main {
        Ok(a) => {
            match mirror {
                Ok(b) => {
                    if b.1.record.generation > a.1.record.generation {
                        out.push(b);
                        out.push(a);
                    } else {
                        out.push(a);
                        out.push(b);
                    }
                },
                Err(_) => {
                    out.push(a);
                },
            }
        },
        Err(_) => {
            match mirror {
                Ok(b) => {
                    out.push(b);
                },
                Err(_) => {},
            }
        },
    }
    assert(candidate_views(out@) =~= mount_order(*device));
    out
}

/// Loads and checks the tables a superblock points to.
pub fn load_runtime_state_from_superblock<D: BlockDevice>(
    device: &D,
    parsed_superblock: ParsedSuperblock,
    case_sensitive: bool,
    mount_policy: SimpleFsRuntimeMountPolicy,
) -> (r: Result<(Vec<OnDiskInode>, Vec<OnDiskDirEntry>)>)
    ensures
        match r {
            Ok((inodes, entries)) => loadable(*device, parsed_superblock, case_sensitive) == Ok::<
                (Seq<OnDiskInode>, Seq<DirEntryView>),
                Error,
            >((inodes@, entry_views(entries@))),
            Err(e) => loadable(*device, parsed_superblock, case_sensitive) == Err::<
                (Seq<OnDiskInode>, Seq<DirEntryView>),
                Error,
            >(e),
        },
{
    let format_version = parsed_superblock.format_version;
    format_version.ensure_runtime_mount_supported(device.is_read_only(), mount_policy)?;
    let superblock = parsed_superblock.record;
    let inode_capacity = format_version.inode_capacity(superblock.inode_table_blocks);
    let dirent_capacity = format_version.dirent_capacity(superblock.dirent_table_blocks);
    if superblock.inode_count as u64 > inode_capacity || superblock.dirent_count as u64
        > dirent_capacity {
        return Err(Error::InvalidArgument);
    }
    let inodes = read_inodes(
        device,
        format_version,
        superblock.active_inode_table_block,
        superblock.inode_count,
    )?;
    let dir_entries = read_dir_entries(
        device,
        superblock.active_dirent_table_block,
        superblock.dirent_count,
    )?;
    validate_loaded_metadata(
        inodes.as_slice(),
        dir_entries.as_slice(),
        superblock.data_block_start,
        device.block_count(),
        case_sensitive,
    )?;
    Ok((inodes, dir_entries))
}

/// Loads the newest superblock whose tables are sound.
pub fn load_current_runtime_state<D: BlockDevice>(
    device: &D,
    case_sensitive: bool,
    mount_policy: SimpleFsRuntimeMountPolicy,
) -> (r: Result<(String, ParsedSuperblock, Vec<OnDiskInode>, Vec<OnDiskDirEntry>)>)
    ensures
        match r {
            Ok((label, parsed, inodes, entries)) => mountable(*device, case_sensitive) == Ok::<
                LoadedView,
                Error,
            >(
                LoadedView {
                    label: label@,
                    parsed,
                    inodes: inodes@,
                    entries: entry_views(entries@),
                },
            ),
            Err(e) => mountable(*device, case_sensitive) == Err::<LoadedView, Error>(e),
        },
{
    let candidates = readable_superblock_candidates(device);
    let ghost all = candidate_views(candidates@);
    let mut saw_unsupported: bool = false;
    let mut k: usize = 0;
    assert(all.skip(0) =~= all);
    while k < candidates.len()
        invariant
            k <= candidates@.len(),
            all == candidate_views(candidates@),
            mountable(*device, case_sensitive) == first_loadable(
                *device,
                all.skip(k as int),
                case_sensitive,
                saw_unsupported,
            ),
        decreases candidates@.len() - k,
    {
        let parsed = candidates[k].1;
        proof {
            let rest = all.skip(k as int);
            assert(rest[0] == (candidates@[k as int].0@, candidates@[k as int].1));
            assert(rest.skip(1) =~= all.skip(k + 1));
        }
        match load_runtime_state_from_superblock(device, parsed, case_sensitive, mount_policy) {
            Ok((inodes, dir_entries)) => {
                return Ok((candidates[k].0.clone(), parsed, inodes, dir_entries));
            },
            Err(Error::Unsupported) => {
                saw_unsupported = true;
            },
            Err(_) => {},
        }
        k = k + 1;
    }
    assert(all.skip(k as int).len() == 0);
    if saw_unsupported {
        Err(Error::Unsupported)
    } else {
        Err(Error::InvalidArgument)
    }
}

// ── Counting lemmas ──

/// Two directories that hold an entry count twice.
pub proof fn lemma_two_covers(inodes: Seq<OnDiskInode>, d: int, i: int, j: int)
    requires
        0 <= i < j < inodes.len(),
        covers(inodes[i], d),
        covers(inodes[j], d),
    ensures
        cover_count(inodes, d) >= 2,
    decreases inodes.len(),
{
    if j < inodes.len() - 1 {
        lemma_two_covers(inodes.drop_last(), d, i, j);
    } else {
        lemma_one_cover(inodes.drop_last(), d, i);
    }
}

pub proof fn lemma_one_cover(inodes: Seq<OnDiskInode>, d: int, i: int)
    requires
        0 <= i < inodes.len(),
        covers(inodes[i], d),
    ensures
        cover_count(inodes, d) >= 1,
    decreases inodes.len(),
{
    if i < inodes.len() - 1 {
        lemma_one_cover(inodes.drop_last(), d, i);
    }
}

pub proof fn lemma_cover_exists(inodes: Seq<OnDiskInode>, d: int) -> (i: int)
    requires
        cover_count(inodes, d) >= 1,
    ensures
        0 <= i < inodes.len(),
        covers(inodes[i], d),
    decreases inodes.len(),
{
    if covers(inodes.last(), d) {
        inodes.len() - 1
    } else {
        lemma_cover_exists(inodes.drop_last(), d)
    }
}

/// No directory that holds an entry counts nothing.
pub proof fn lemma_no_cover(inodes: Seq<OnDiskInode>, d: int)
    requires
        forall|i: int| #![trigger inodes[i]] 0 <= i < inodes.len() ==> !covers(inodes[i], d),
    ensures
        cover_count(inodes, d) == 0,
    decreases inodes.len(),
{
    if inodes.len() > 0 {
        assert(!covers(inodes[inodes.len() - 1], d));
        assert forall|i: int| #![trigger inodes.drop_last()[i]] 0 <= i
            < inodes.drop_last().len() implies !covers(inodes.drop_last()[i], d) by {
            assert(inodes.drop_last()[i] == inodes[i]);
        }
        lemma_no_cover(inodes.drop_last(), d);
    }
}

/// Exactly one directory that holds an entry counts once.
pub proof fn lemma_sole_cover(inodes: Seq<OnDiskInode>, d: int, p: int)
    requires
        0 <= p < inodes.len(),
        covers(inodes[p], d),
        forall|i: int|
            #![trigger inodes[i]]
            0 <= i < inodes.len() && i != p ==> !covers(inodes[i], d),
    ensures
        cover_count(inodes, d) == 1,
    decreases inodes.len(),
{
    let rest = inodes.drop_last();
    assert forall|i: int| #![trigger rest[i]] 0 <= i < rest.len() implies rest[i] == inodes[i] by {
    }
    if p < inodes.len() - 1 {
        assert(!covers(inodes[inodes.len() - 1], d));
        lemma_sole_cover(rest, d, p);
    } else {
        lemma_no_cover(rest, d);
    }
}

pub proof fn lemma_two_refs(entries: Seq<DirEntryView>, c: int, a: int, b: int)
    requires
        0 <= a < b < entries.len(),
        entries[a].inode_index == c,
        entries[b].inode_index == c,
    ensures
        ref_count(entries, c) >= 2,
    decreases entries.len(),
{
    if b < entries.len() - 1 {
        lemma_two_refs(entries.drop_last(), c, a, b);
    } else {
        lemma_one_ref(entries.drop_last(), c, a);
    }
}

pub proof fn lemma_one_ref(entries: Seq<DirEntryView>, c: int, a: int)
    requires
        0 <= a < entries.len(),
        entries[a].inode_index == c,
    ensures
        ref_count(entries, c) >= 1,
    decreases entries.len(),
{
    if a < entries.len() - 1 {
        lemma_one_ref(entries.drop_last(), c, a);
    }
}

pub proof fn lemma_ref_exists(entries: Seq<DirEntryView>, c: int) -> (d: int)
    requires
        ref_count(entries, c) >= 1,
    ensures
        0 <= d < entries.len(),
        entries[d].inode_index == c,
    decreases entries.len(),
{
    if entries.last().inode_index == c {
        entries.len() - 1
    } else {
        lemma_ref_exists(entries.drop_last(), c)
    }
}

pub proof fn lemma_no_ref(entries: Seq<DirEntryView>, c: int)
    requires
        forall|d: int|
            #![trigger entries[d]]
            0 <= d < entries.len() ==> entries[d].inode_index != c,
    ensures
        ref_count(entries, c) == 0,
    decreases entries.len(),
{
    if entries.len() > 0 {
        assert(entries[entries.len() - 1].inode_index != c);
        assert forall|d: int| #![trigger entries.drop_last()[d]] 0 <= d
            < entries.drop_last().len() implies entries.drop_last()[d].inode_index != c by {
            assert(entries.drop_last()[d] == entries[d]);
        }
        lemma_no_ref(entries.drop_last(), c);
    }
}

pub proof fn lemma_sole_ref(entries: Seq<DirEntryView>, c: int, d: int)
    requires
        0 <= d < entries.len(),
        entries[d].inode_index == c,
        forall|e: int|
            #![trigger entries[e]]
            0 <= e < entries.len() && e != d ==> entries[e].inode_index != c,
    ensures
        ref_count(entries, c) == 1,
    decreases entries.len(),
{
    let rest = entries.drop_last();
    assert forall|e: int| #![trigger rest[e]] 0 <= e < rest.len() implies rest[e] == entries[e] by {
    }
    if d < entries.len() - 1 {
        assert(entries[entries.len() - 1].inode_index != c);
        lemma_sole_ref(rest, c, d);
    } else {
        lemma_no_ref(rest, c);
    }
}

/// A sound tree that is all reached from its root could be mounted again, as long as the
/// slices of deleted directories still lie in the entry table.
pub proof fn law_sound_tree_is_mountable(t: TreeView, g: VolumeGeometry, blocks: int)
    requires
        shape_ok(t, g, blocks, None),
        forall|i: int|
            #![trigger t.inodes[i]]
            0 <= i < t.inodes.len() && t.inodes[i].kind == NodeKind::Directory
                && t.inodes[i].deleted ==> slice_end(t.inodes[i]) <= t.entries.len(),
        all_reached(t.inodes, t.entries),
    ensures
        metadata_valid(
            t.inodes,
            t.entries,
            g.data_block_start as int,
            blocks,
            g.case_sensitive,
        ),
{
    assert forall|d: int|
        #![trigger cover_count(t.inodes, d)]
        0 <= d < t.entries.len() implies cover_count(t.inodes, d) == 1 by {
        assert(entry_linked(t, d));
        let p = t.parents[t.entries[d].inode_index as int]->0 as int;
        assert forall|i: int|
            #![trigger t.inodes[i]]
            0 <= i < t.inodes.len() && i != p implies !covers(t.inodes[i], d) by {
            if i < p {
                assert(slices_apart(t.inodes[i], t.inodes[p]));
            } else {
                assert(slices_apart(t.inodes[p], t.inodes[i]));
            }
        }
        lemma_sole_cover(t.inodes, d, p);
    }
    assert forall|i: int|
        #![trigger ref_count(t.entries, i)]
        1 <= i < t.inodes.len() && !t.inodes[i].deleted implies ref_count(t.entries, i) == 1 by {
        let d = t.positions[i]->0 as int;
        assert(t.positions[i] is Some);
        assert forall|e: int|
            #![trigger t.entries[e]]
            0 <= e < t.entries.len() && e != d implies t.entries[e].inode_index != i by {
            assert(entry_linked(t, e));
        }
        lemma_sole_ref(t.entries, i, d);
    }
    assert forall|d: int| #![trigger t.entries[d]] 0 <= d < t.entries.len() implies entry_ok(
        t.entries[d],
        t.inodes,
    ) by {
        assert(entry_linked(t, d));
    }
}

} // verus!
