//! The shape of a mounted tree, and the primitive steps that change it.
use vstd::prelude::*;
use vstd::string::*;

use crate::error::Error;
use crate::simplefs::names::{name_ok, same_name};
use crate::simplefs::state::TreeView;
use crate::simplefs::types::{DirEntryView, OnDiskInode, SimpleFsFormatVersion};
use crate::simplefs::validate::{covers, entry_ok, extent_ok, extents_apart, live_dir, slice_end, slice_names_distinct};

verus! {

/// What stays fixed while a volume is mounted.
pub struct VolumeGeometry {
    pub label: String,
    pub format_version: SimpleFsFormatVersion,
    pub case_sensitive: bool,
    pub inode_table_blocks: u32,
    pub dirent_table_blocks: u32,
    pub xattr_table_blocks: u32,
    pub data_block_start: u32,
    /// First block past those that may be handed out.
    pub block_limit: u64,
    /// Inodes each inode table holds.
    pub inode_capacity: u32,
    /// Entries each entry table holds.
    pub dirent_capacity: u32,
    /// Records each attribute table holds.
    pub xattr_capacity: u32,
}

/// Whether two directories have no entry in common.
pub open spec fn slices_apart(a: OnDiskInode, b: OnDiskInode) -> bool {
    live_dir(a) && live_dir(b) ==> {
        ||| slice_end(a) <= b.entry_start
        ||| slice_end(b) <= a.entry_start
        ||| a.entry_count == 0
        ||| b.entry_count == 0
    }
}

/// Whether every entry names a sound inode, and that inode knows its entry and
/// the directory the entry lies in.
pub open spec fn entries_linked(t: TreeView) -> bool {
    forall|d: int| #![trigger t.entries[d]] 0 <= d < t.entries.len() ==> entry_linked(t, d)
}

/// Whether exactly the live inodes but the root and `orphan` have an entry.
pub open spec fn inodes_linked(t: TreeView, orphan: Option<usize>) -> bool {
    forall|i: int|
        #![trigger t.positions[i]]
        0 <= i < t.inodes.len() ==> if i == 0 || t.inodes[i].deleted || orphan == Some(i as usize) {
            t.positions[i] is None && t.parents[i] is None
        } else {
            &&& t.positions[i] is Some
            &&& t.positions[i]->0 < t.entries.len()
            &&& t.entries[t.positions[i]->0 as int].inode_index == i
        }
}

/// Whether a list of slots names each of its inodes once.
pub open spec fn slots_distinct(s: Seq<usize>) -> bool {
    forall|a: int, b: int| #![trigger s[a], s[b]] 0 <= a < b < s.len() ==> s[a] != s[b]
}

/// Whether the list of directories is exactly the directories in use.
pub open spec fn dirs_listed(t: TreeView) -> bool {
    &&& slots_distinct(t.dirs)
    &&& forall|k: int|
        #![trigger t.dirs[k]]
        0 <= k < t.dirs.len() ==> t.dirs[k] < t.inodes.len() && live_dir(
            t.inodes[t.dirs[k] as int],
        )
    &&& forall|i: int|
        #![trigger t.inodes[i]]
        0 <= i < t.inodes.len() && live_dir(t.inodes[i]) ==> t.dirs.contains(i as usize)
}

/// Whether the reusable slots are deleted inodes, each listed once.
pub open spec fn free_slots_ok(t: TreeView) -> bool {
    &&& slots_distinct(t.free_slots)
    &&& forall|k: int|
        #![trigger t.free_slots[k]]
        0 <= k < t.free_slots.len() ==> 0 < t.free_slots[k] < t.inodes.len()
            && t.inodes[t.free_slots[k] as int].deleted
}

/// Whether every directory in use has a sound slice.
pub open spec fn slices_ok(t: TreeView, case_sensitive: bool) -> bool {
    forall|i: int|
        #![trigger t.inodes[i]]
        0 <= i < t.inodes.len() && live_dir(t.inodes[i]) ==> slice_end(t.inodes[i])
            <= t.entries.len() && slice_names_distinct(
            t.entries,
            t.inodes[i].entry_start as int,
            slice_end(t.inodes[i]),
            case_sensitive,
        )
}

/// Whether no two directories share an entry.
pub open spec fn all_slices_apart(inodes: Seq<OnDiskInode>) -> bool {
    forall|i: int, j: int|
        #![trigger inodes[i], inodes[j]]
        0 <= i < j < inodes.len() ==> slices_apart(inodes[i], inodes[j])
}

/// Whether every extent is in bounds and no two share a block.
pub open spec fn all_extents_ok(inodes: Seq<OnDiskInode>, data_start: int, device_blocks: int) -> bool {
    &&& forall|i: int|
        #![trigger inodes[i]]
        0 <= i < inodes.len() ==> extent_ok(inodes[i], data_start, device_blocks)
    &&& forall|i: int, j: int|
        #![trigger inodes[i], inodes[j]]
        0 <= i < j < inodes.len() ==> extents_apart(inodes[i], inodes[j])
}

/// Whether the per-inode maps have one value per inode, and the root is a
/// directory in use.
pub open spec fn maps_ok(t: TreeView, g: VolumeGeometry) -> bool {
    &&& 0 < t.inodes.len() <= g.inode_capacity
    &&& t.entries.len() <= g.dirent_capacity
    &&& t.parents.len() == t.inodes.len()
    &&& t.positions.len() == t.inodes.len()
    &&& live_dir(t.inodes[0])
}

/// Whether a tree is sound, except that the live inode `orphan` has no entry.
pub open spec fn shape_ok(
    t: TreeView,
    g: VolumeGeometry,
    device_blocks: int,
    orphan: Option<usize>,
) -> bool {
    &&& maps_ok(t, g)
    &&& slices_ok(t, g.case_sensitive)
    &&& all_slices_apart(t.inodes)
    &&& entries_linked(t)
    &&& inodes_linked(t, orphan)
    &&& all_extents_ok(t.inodes, g.data_block_start as int, device_blocks)
    &&& dirs_listed(t)
    &&& free_slots_ok(t)
    &&& orphan matches Some(c) ==> 0 < c < t.inodes.len() && !t.inodes[c as int].deleted
}

// ── Inserting an entry ──

/// A position after one was inserted at `at`.
pub open spec fn pushed_up(p: Option<usize>, at: int) -> Option<usize> {
    match p {
        Some(d) => if d >= at {
            Some((d + 1) as usize)
        } else {
            p
        },
        None => None,
    }
}

/// The inodes after directory `parent` gained an entry at `at`.
pub open spec fn inodes_after_insert(
    inodes: Seq<OnDiskInode>,
    parent: int,
    at: int,
) -> Seq<OnDiskInode> {
    Seq::new(
        inodes.len(),
        |i: int|
            {
                let inode = inodes[i];
                if i == parent {
                    OnDiskInode { entry_count: (inode.entry_count + 1) as u32, ..inode }
                } else if live_dir(inode) && inode.entry_start >= at {
                    OnDiskInode { entry_start: (inode.entry_start + 1) as u32, ..inode }
                } else {
                    inode
                }
            },
    )
}

/// The tree after directory `parent` gained `entry` as its last one.
pub open spec fn after_insert(t: TreeView, parent: int, entry: DirEntryView) -> TreeView {
    let at = slice_end(t.inodes[parent]);
    let child = entry.inode_index as int;
    TreeView {
        inodes: inodes_after_insert(t.inodes, parent, at),
        entries: t.entries.insert(at, entry),
        parents: t.parents.update(child, Some(parent as usize)),
        positions: Seq::new(
            t.positions.len(),
            |i: int| pushed_up(t.positions[i], at),
        ).update(child, Some(at as usize)),
        ..t
    }
}

/// Whether a directory's place in the entry table lies inside another's slice.
pub open spec fn place_taken(inodes: Seq<OnDiskInode>, parent: int) -> bool {
    let at = slice_end(inodes[parent]);
    exists|i: int|
        #![trigger inodes[i]]
        0 <= i < inodes.len() && i != parent && live_dir(inodes[i]) && inodes[i].entry_start < at
            < slice_end(inodes[i])
}

/// What adding an entry to a directory comes to.
pub open spec fn insert_outcome(t: TreeView, g: VolumeGeometry, parent: int) -> core::result::Result<
    (),
    Error,
> {
    if t.entries.len() >= g.dirent_capacity {
        Err(Error::OutOfMemory)
    } else if parent >= t.inodes.len() {
        Err(Error::InternalError)
    } else if !live_dir(t.inodes[parent]) {
        Err(Error::InvalidArgument)
    } else if place_taken(t.inodes, parent) {
        Err(Error::InternalError)
    } else {
        Ok(())
    }
}

proof fn lemma_insert_slices(t: TreeView, g: VolumeGeometry, parent: int, entry: DirEntryView)
    requires
        maps_ok(t, g),
        slices_ok(t, g.case_sensitive),
        all_slices_apart(t.inodes),
        t.entries.len() < g.dirent_capacity,
        0 <= parent < t.inodes.len(),
        live_dir(t.inodes[parent]),
        !place_taken(t.inodes, parent),
        forall|d: int|
            #![trigger t.entries[d]]
            t.inodes[parent].entry_start <= d < slice_end(t.inodes[parent]) ==> !same_name(
                t.entries[d].name,
                entry.name,
                g.case_sensitive,
            ),
    ensures
        slices_ok(after_insert(t, parent, entry), g.case_sensitive),
        all_slices_apart(after_insert(t, parent, entry).inodes),
{
    let n = after_insert(t, parent, entry);
    let at = slice_end(t.inodes[parent]);
    assert forall|i: int| #![trigger n.inodes[i]] 0 <= i < n.inodes.len() && live_dir(
        n.inodes[i],
    ) implies slice_end(n.inodes[i]) <= n.entries.len() && slice_names_distinct(
        n.entries,
        n.inodes[i].entry_start as int,
        slice_end(n.inodes[i]),
        g.case_sensitive,
    ) by {
        let old_inode = t.inodes[i];
        assert(live_dir(old_inode));
        let from = n.inodes[i].entry_start as int;
        let to = slice_end(n.inodes[i]);
        assert forall|a: int, b: int| #![trigger n.entries[a], n.entries[b]] from <= a < b
            < to implies !same_name(n.entries[a].name, n.entries[b].name, g.case_sensitive) by {
            if i == parent {
                if b < at {
                    assert(n.entries[a] == t.entries[a] && n.entries[b] == t.entries[b]);
                } else {
                    assert(n.entries[a] == t.entries[a] && n.entries[b] == entry);
                }
            } else if old_inode.entry_start >= at {
                assert(n.entries[a] == t.entries[a - 1] && n.entries[b] == t.entries[b - 1]);
            } else {
                assert(to <= at) by {
                    if to > at {
                        assert(place_taken(t.inodes, parent));
                    }
                }
                assert(n.entries[a] == t.entries[a] && n.entries[b] == t.entries[b]);
            }
        }
    }
    assert forall|i: int, j: int|
        #![trigger n.inodes[i], n.inodes[j]]
        0 <= i < j < n.inodes.len() implies slices_apart(n.inodes[i], n.inodes[j]) by {
        assert(slices_apart(t.inodes[i], t.inodes[j]));
        if live_dir(t.inodes[i]) && live_dir(t.inodes[j]) {
            if i != parent && t.inodes[i].entry_start < at && slice_end(t.inodes[i]) > at {
                assert(place_taken(t.inodes, parent));
            }
            if j != parent && t.inodes[j].entry_start < at && slice_end(t.inodes[j]) > at {
                assert(place_taken(t.inodes, parent));
            }
        }
    }
}

/// Whether entry `d` is linked both ways.
pub open spec fn entry_linked(t: TreeView, d: int) -> bool {
    let c = t.entries[d].inode_index as int;
    &&& entry_ok(t.entries[d], t.inodes)
    &&& t.positions[c] == Some(d as usize)
    &&& t.parents[c] is Some
    &&& t.parents[c]->0 < t.inodes.len()
    &&& covers(t.inodes[t.parents[c]->0 as int], d)
}

proof fn lemma_insert_link_entry(
    t: TreeView,
    g: VolumeGeometry,
    parent: int,
    entry: DirEntryView,
    d: int,
)
    requires
        maps_ok(t, g),
        entries_linked(t),
        inodes_linked(t, Some(entry.inode_index as usize)),
        all_slices_apart(t.inodes),
        slice_end(t.inodes[parent]) <= t.entries.len() < g.dirent_capacity,
        0 < entry.inode_index < t.inodes.len(),
        !t.inodes[entry.inode_index as int].deleted,
        0 <= parent < t.inodes.len(),
        live_dir(t.inodes[parent]),
        !place_taken(t.inodes, parent),
        name_ok(entry.name),
        entry.kind == t.inodes[entry.inode_index as int].kind,
        0 <= d <= t.entries.len(),
    ensures
        entry_linked(after_insert(t, parent, entry), d),
{
    let n = after_insert(t, parent, entry);
    let at = slice_end(t.inodes[parent]);
    let child = entry.inode_index as int;
    if d == at {
        assert(n.entries[d] == entry);
        assert(n.inodes[child].deleted == t.inodes[child].deleted);
        assert(n.inodes[child].kind == t.inodes[child].kind);
    } else {
        let e = if d < at {
            d
        } else {
            d - 1
        };
        assert(n.entries[d] == t.entries[e]);
        let c = t.entries[e].inode_index as int;
        assert(entry_ok(t.entries[e], t.inodes));
        assert(t.positions[c] == Some(e as usize));
        assert(t.positions[child] is None);
        assert(c != child);
        assert(n.inodes[c].deleted == t.inodes[c].deleted);
        assert(n.inodes[c].kind == t.inodes[c].kind);
        let p = t.parents[c]->0 as int;
        assert(covers(t.inodes[p], e));
        assert(n.parents[c] == t.parents[c]);
        if p != parent {
            if p < parent {
                assert(slices_apart(t.inodes[p], t.inodes[parent]));
            } else {
                assert(slices_apart(t.inodes[parent], t.inodes[p]));
            }
            if t.inodes[p].entry_start < at && slice_end(t.inodes[p]) > at {
                assert(place_taken(t.inodes, parent));
            }
        }
        assert(covers(n.inodes[p], d));
    }
}

proof fn lemma_insert_link_inode(
    t: TreeView,
    g: VolumeGeometry,
    parent: int,
    entry: DirEntryView,
    i: int,
)
    requires
        maps_ok(t, g),
        inodes_linked(t, Some(entry.inode_index as usize)),
        slice_end(t.inodes[parent]) <= t.entries.len() < g.dirent_capacity,
        0 < entry.inode_index < t.inodes.len(),
        !t.inodes[entry.inode_index as int].deleted,
        0 <= parent < t.inodes.len(),
        0 <= i < t.inodes.len(),
    ensures
        ({
            let n = after_insert(t, parent, entry);
            if i == 0 || n.inodes[i].deleted {
                n.positions[i] is None && n.parents[i] is None
            } else {
                &&& n.positions[i] is Some
                &&& n.positions[i]->0 < n.entries.len()
                &&& n.entries[n.positions[i]->0 as int].inode_index == i
            }
        }),
{
    let n = after_insert(t, parent, entry);
    let at = slice_end(t.inodes[parent]);
    let child = entry.inode_index as int;
    assert(n.inodes[i].deleted == t.inodes[i].deleted);
    if i == child {
        assert(n.entries[at] == entry);
    } else {
        assert(n.positions[i] == pushed_up(t.positions[i], at));
        if !(i == 0 || t.inodes[i].deleted) {
            let e = t.positions[i]->0 as int;
            assert(t.entries[e].inode_index == i);
            if e >= at {
                assert(n.entries[e + 1] == t.entries[e]);
            } else {
                assert(n.entries[e] == t.entries[e]);
            }
        }
    }
}

proof fn lemma_insert_links(
    t: TreeView,
    g: VolumeGeometry,
    blocks: int,
    parent: int,
    entry: DirEntryView,
)
    requires
        shape_ok(t, g, blocks, Some(entry.inode_index as usize)),
        t.entries.len() < g.dirent_capacity,
        0 <= parent < t.inodes.len(),
        live_dir(t.inodes[parent]),
        !place_taken(t.inodes, parent),
        name_ok(entry.name),
        entry.kind == t.inodes[entry.inode_index as int].kind,
    ensures
        entries_linked(after_insert(t, parent, entry)),
        inodes_linked(after_insert(t, parent, entry), None),
{
    let n = after_insert(t, parent, entry);
    assert forall|d: int| #![trigger n.entries[d]] 0 <= d < n.entries.len() implies entry_linked(
        n,
        d,
    ) by {
        lemma_insert_link_entry(t, g, parent, entry, d);
    }
    assert forall|i: int| #![trigger n.positions[i]] 0 <= i < n.inodes.len() implies if i == 0
        || n.inodes[i].deleted {
        n.positions[i] is None && n.parents[i] is None
    } else {
        &&& n.positions[i] is Some
        &&& n.positions[i]->0 < n.entries.len()
        &&& n.entries[n.positions[i]->0 as int].inode_index == i
    } by {
        lemma_insert_link_inode(t, g, parent, entry, i);
    }
}

/// Adding an entry for an inode that has none keeps the tree sound.
pub proof fn lemma_insert_shape(t: TreeView, g: VolumeGeometry, blocks: int, parent: int, entry: DirEntryView)
    requires
        shape_ok(t, g, blocks, Some(entry.inode_index as usize)),
        t.entries.len() < g.dirent_capacity,
        0 <= parent < t.inodes.len(),
        live_dir(t.inodes[parent]),
        !place_taken(t.inodes, parent),
        name_ok(entry.name),
        entry.kind == t.inodes[entry.inode_index as int].kind,
        forall|d: int|
            #![trigger t.entries[d]]
            t.inodes[parent].entry_start <= d < slice_end(t.inodes[parent]) ==> !same_name(
                t.entries[d].name,
                entry.name,
                g.case_sensitive,
            ),
    ensures
        shape_ok(after_insert(t, parent, entry), g, blocks, None),
{
    let n = after_insert(t, parent, entry);
    lemma_insert_slices(t, g, parent, entry);
    lemma_insert_links(t, g, blocks, parent, entry);
    assert forall|i: int, j: int|
        #![trigger n.inodes[i], n.inodes[j]]
        0 <= i < j < n.inodes.len() implies extents_apart(n.inodes[i], n.inodes[j]) by {
        assert(extents_apart(t.inodes[i], t.inodes[j]));
    }
    assert forall|i: int|
        #![trigger n.inodes[i]]
        0 <= i < n.inodes.len() implies extent_ok(
        n.inodes[i],
        g.data_block_start as int,
        blocks,
    ) by {
        assert(extent_ok(t.inodes[i], g.data_block_start as int, blocks));
    }
    assert forall|i: int|
        #![trigger n.inodes[i]]
        0 <= i < n.inodes.len() && live_dir(n.inodes[i]) implies n.dirs.contains(i as usize) by {
        assert(live_dir(t.inodes[i]));
    }
}

// ── Removing an entry ──

/// A position after the one at `d` was removed.
pub open spec fn pulled_down(p: Option<usize>, d: int) -> Option<usize> {
    match p {
        Some(e) => if e > d {
            Some((e - 1) as usize)
        } else {
            p
        },
        None => None,
    }
}

/// The inodes after directory `parent` lost the entry at `d`.
pub open spec fn inodes_after_remove(
    inodes: Seq<OnDiskInode>,
    parent: int,
    d: int,
) -> Seq<OnDiskInode> {
    Seq::new(
        inodes.len(),
        |i: int|
            {
                let inode = inodes[i];
                if i == parent {
                    OnDiskInode { entry_count: (inode.entry_count - 1) as u32, ..inode }
                } else if live_dir(inode) && inode.entry_start > d {
                    OnDiskInode { entry_start: (inode.entry_start - 1) as u32, ..inode }
                } else {
                    inode
                }
            },
    )
}

/// The tree after directory `parent` lost its entry `d`.
pub open spec fn after_remove(t: TreeView, parent: int, d: int) -> TreeView {
    let child = t.entries[d].inode_index as int;
    TreeView {
        inodes: inodes_after_remove(t.inodes, parent, d),
        entries: t.entries.remove(d),
        parents: t.parents.update(child, None),
        positions: Seq::new(
            t.positions.len(),
            |i: int| pulled_down(t.positions[i], d),
        ).update(child, None),
        ..t
    }
}

proof fn lemma_remove_slices(t: TreeView, g: VolumeGeometry, parent: int, d: int)
    requires
        maps_ok(t, g),
        slices_ok(t, g.case_sensitive),
        all_slices_apart(t.inodes),
        0 <= parent < t.inodes.len(),
        covers(t.inodes[parent], d),
    ensures
        slices_ok(after_remove(t, parent, d), g.case_sensitive),
        all_slices_apart(after_remove(t, parent, d).inodes),
{
    let n = after_remove(t, parent, d);
    assert(slice_end(t.inodes[parent]) <= t.entries.len());
    assert forall|i: int| #![trigger n.inodes[i]] 0 <= i < n.inodes.len() && live_dir(
        n.inodes[i],
    ) implies slice_end(n.inodes[i]) <= n.entries.len() && slice_names_distinct(
        n.entries,
        n.inodes[i].entry_start as int,
        slice_end(n.inodes[i]),
        g.case_sensitive,
    ) by {
        let o = t.inodes[i];
        assert(live_dir(o));
        if i < parent {
            assert(slices_apart(t.inodes[i], t.inodes[parent]));
        } else if i > parent {
            assert(slices_apart(t.inodes[parent], t.inodes[i]));
        }
        let from = n.inodes[i].entry_start as int;
        let to = slice_end(n.inodes[i]);
        assert forall|a: int, b: int| #![trigger n.entries[a], n.entries[b]] from <= a < b
            < to implies !same_name(n.entries[a].name, n.entries[b].name, g.case_sensitive) by {
            let a0 = if a < d {
                a
            } else {
                a + 1
            };
            let b0 = if b < d {
                b
            } else {
                b + 1
            };
            assert(n.entries[a] == t.entries[a0] && n.entries[b] == t.entries[b0]);
            assert(o.entry_start <= a0 < b0 < slice_end(o));
        }
    }
    assert forall|i: int, j: int|
        #![trigger n.inodes[i], n.inodes[j]]
        0 <= i < j < n.inodes.len() implies slices_apart(n.inodes[i], n.inodes[j]) by {
        assert(slices_apart(t.inodes[i], t.inodes[j]));
        if live_dir(t.inodes[i]) && live_dir(t.inodes[j]) {
            if i < parent {
                assert(slices_apart(t.inodes[i], t.inodes[parent]));
            } else if i > parent {
                assert(slices_apart(t.inodes[parent], t.inodes[i]));
            }
            if j < parent {
                assert(slices_apart(t.inodes[j], t.inodes[parent]));
            } else if j > parent {
                assert(slices_apart(t.inodes[parent], t.inodes[j]));
            }
        }
    }
}

proof fn lemma_remove_link_entry(t: TreeView, g: VolumeGeometry, parent: int, d: int, e: int)
    requires
        maps_ok(t, g),
        entries_linked(t),
        all_slices_apart(t.inodes),
        slices_ok(t, g.case_sensitive),
        0 <= parent < t.inodes.len(),
        covers(t.inodes[parent], d),
        0 <= e < t.entries.len() - 1,
    ensures
        entry_linked(after_remove(t, parent, d), e),
{
    let n = after_remove(t, parent, d);
    assert(slice_end(t.inodes[parent]) <= t.entries.len());
    let o = if e < d {
        e
    } else {
        e + 1
    };
    assert(n.entries[e] == t.entries[o]);
    let c = t.entries[o].inode_index as int;
    let child = t.entries[d].inode_index as int;
    assert(entry_linked(t, o));
    assert(entry_linked(t, d));
    assert(c != child);
    let p = t.parents[c]->0 as int;
    assert(n.parents[c] == t.parents[c]);
    assert(n.inodes[c].deleted == t.inodes[c].deleted && n.inodes[c].kind == t.inodes[c].kind);
    if p < parent {
        assert(slices_apart(t.inodes[p], t.inodes[parent]));
    } else if p > parent {
        assert(slices_apart(t.inodes[parent], t.inodes[p]));
    }
    assert(covers(n.inodes[p], e));
}

proof fn lemma_remove_link_inode(t: TreeView, g: VolumeGeometry, parent: int, d: int, i: int)
    requires
        maps_ok(t, g),
        entries_linked(t),
        inodes_linked(t, None),
        slices_ok(t, g.case_sensitive),
        0 <= parent < t.inodes.len(),
        covers(t.inodes[parent], d),
        0 <= i < t.inodes.len(),
    ensures
        ({
            let n = after_remove(t, parent, d);
            if i == 0 || n.inodes[i].deleted || i == t.entries[d].inode_index {
                n.positions[i] is None && n.parents[i] is None
            } else {
                &&& n.positions[i] is Some
                &&& n.positions[i]->0 < n.entries.len()
                &&& n.entries[n.positions[i]->0 as int].inode_index == i
            }
        }),
{
    let n = after_remove(t, parent, d);
    assert(slice_end(t.inodes[parent]) <= t.entries.len());
    let child = t.entries[d].inode_index as int;
    assert(entry_linked(t, d));
    assert(n.inodes[i].deleted == t.inodes[i].deleted);
    if i != child {
        assert(n.positions[i] == pulled_down(t.positions[i], d));
        if !(i == 0 || t.inodes[i].deleted) {
            let e = t.positions[i]->0 as int;
            assert(t.entries[e].inode_index == i);
            if e > d {
                assert(n.entries[e - 1] == t.entries[e]);
            } else {
                assert(n.entries[e] == t.entries[e]);
            }
        }
    }
}

/// Removing an entry keeps the tree sound but for the inode that it named.
pub proof fn lemma_remove_shape(t: TreeView, g: VolumeGeometry, blocks: int, parent: int, d: int)
    requires
        shape_ok(t, g, blocks, None),
        0 <= parent < t.inodes.len(),
        covers(t.inodes[parent], d),
    ensures
        shape_ok(
            after_remove(t, parent, d),
            g,
            blocks,
            Some(t.entries[d].inode_index as usize),
        ),
{
    let n = after_remove(t, parent, d);
    let child = t.entries[d].inode_index as usize;
    assert(slice_end(t.inodes[parent]) <= t.entries.len());
    assert(entry_linked(t, d));
    lemma_remove_slices(t, g, parent, d);
    assert forall|e: int| #![trigger n.entries[e]] 0 <= e < n.entries.len() implies entry_linked(
        n,
        e,
    ) by {
        lemma_remove_link_entry(t, g, parent, d, e);
    }
    assert forall|i: int| #![trigger n.positions[i]] 0 <= i < n.inodes.len() implies if i == 0
        || n.inodes[i].deleted || Some(child) == Some(i as usize) {
        n.positions[i] is None && n.parents[i] is None
    } else {
        &&& n.positions[i] is Some
        &&& n.positions[i]->0 < n.entries.len()
        &&& n.entries[n.positions[i]->0 as int].inode_index == i
    } by {
        lemma_remove_link_inode(t, g, parent, d, i);
    }
    assert forall|i: int, j: int|
        #![trigger n.inodes[i], n.inodes[j]]
        0 <= i < j < n.inodes.len() implies extents_apart(n.inodes[i], n.inodes[j]) by {
        assert(extents_apart(t.inodes[i], t.inodes[j]));
    }
    assert forall|i: int|
        #![trigger n.inodes[i]]
        0 <= i < n.inodes.len() implies extent_ok(
        n.inodes[i],
        g.data_block_start as int,
        blocks,
    ) by {
        assert(extent_ok(t.inodes[i], g.data_block_start as int, blocks));
    }
    assert forall|i: int|
        #![trigger n.inodes[i]]
        0 <= i < n.inodes.len() && live_dir(n.inodes[i]) implies n.dirs.contains(i as usize) by {
        assert(live_dir(t.inodes[i]));
    }
}

} // verus!
