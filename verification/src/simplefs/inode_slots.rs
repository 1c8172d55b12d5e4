//! Handing out inodes and data blocks, and taking them back.
use vstd::prelude::*;

use crate::error::{Error, Result};
use crate::simplefs::state::{SimpleFsState, TreeView, inode_covered, lemma_replay_past_cut, lemma_replayed_len, undo_kept, undo_ok};
use crate::simplefs::tree::{VolumeGeometry, dirs_listed, entry_linked, free_slots_ok, maps_ok, shape_ok, slices_apart};
use crate::simplefs::tree_steps::{has_way_back, lemma_kept_trans, lemma_kept_way_back, step_frame};
use crate::simplefs::types::OnDiskInode;
use crate::simplefs::undo::only_undo_differs;
use crate::simplefs::validate::{extent_ok, extents_apart, live_dir, slice_end, slice_names_distinct};
use crate::vfs::NodeKind;

verus! {

// ── Inode slots ──

/// The slot the next inode goes to.
pub open spec fn alloc_index(t: TreeView) -> int {
    if t.free_slots.len() > 0 {
        t.free_slots.last() as int
    } else {
        t.inodes.len() as int
    }
}

/// Whether there is a slot for another inode.
pub open spec fn slot_available(t: TreeView, g: VolumeGeometry) -> bool {
    t.free_slots.len() > 0 || t.inodes.len() < g.inode_capacity
}

/// The tree after `inode` was put in the next slot.
pub open spec fn after_alloc(t: TreeView, inode: OnDiskInode) -> TreeView {
    let i = alloc_index(t);
    let dirs = if inode.kind == NodeKind::Directory {
        t.dirs.push(i as usize)
    } else {
        t.dirs
    };
    if t.free_slots.len() > 0 {
        TreeView {
            inodes: t.inodes.update(i, inode),
            free_slots: t.free_slots.drop_last(),
            dirs,
            ..t
        }
    } else {
        TreeView {
            inodes: t.inodes.push(inode),
            parents: t.parents.push(None),
            positions: t.positions.push(None),
            dirs,
            ..t
        }
    }
}

/// Whether an inode fits a tree: it is in use, an empty directory at the end of
/// the entry table if it is a directory, and its extent is sound and apart from
/// all others.
pub open spec fn inode_fits(t: TreeView, g: VolumeGeometry, blocks: int, inode: OnDiskInode) -> bool {
    &&& !inode.deleted
    &&& inode.kind == NodeKind::Directory ==> inode.entry_start == t.entries.len()
        && inode.entry_count == 0
    &&& extent_ok(inode, g.data_block_start as int, blocks)
    &&& forall|i: int|
        #![trigger t.inodes[i]]
        0 <= i < t.inodes.len() ==> extents_apart(t.inodes[i], inode)
}

/// Handing out a slot keeps the tree sound but for the new inode's missing entry.
pub proof fn lemma_alloc_shape(t: TreeView, g: VolumeGeometry, blocks: int, inode: OnDiskInode)
    requires
        shape_ok(t, g, blocks, None),
        slot_available(t, g),
        inode_fits(t, g, blocks, inode),
    ensures
        shape_ok(after_alloc(t, inode), g, blocks, Some(alloc_index(t) as usize)),
        0 < alloc_index(t) < after_alloc(t, inode).inodes.len(),
        after_alloc(t, inode).inodes[alloc_index(t)] == inode,
{
    let n = after_alloc(t, inode);
    let x = alloc_index(t);
    if t.free_slots.len() > 0 {
        assert(t.free_slots[t.free_slots.len() - 1] == x);
        assert(t.inodes[x].deleted);
    }
    assert(t.positions.len() == t.inodes.len());
    assert forall|i: int| #![trigger n.inodes[i]] 0 <= i < n.inodes.len() && live_dir(
        n.inodes[i],
    ) implies slice_end(n.inodes[i]) <= n.entries.len() && slice_names_distinct(
        n.entries,
        n.inodes[i].entry_start as int,
        slice_end(n.inodes[i]),
        g.case_sensitive,
    ) by {
        if i != x {
            assert(n.inodes[i] == t.inodes[i]);
        }
    }
    assert forall|i: int, j: int|
        #![trigger n.inodes[i], n.inodes[j]]
        0 <= i < j < n.inodes.len() implies slices_apart(n.inodes[i], n.inodes[j])
        && extents_apart(n.inodes[i], n.inodes[j]) by {
        if i != x && j != x {
            assert(n.inodes[i] == t.inodes[i] && n.inodes[j] == t.inodes[j]);
            assert(slices_apart(t.inodes[i], t.inodes[j]));
            assert(extents_apart(t.inodes[i], t.inodes[j]));
        } else if j == x {
            assert(n.inodes[i] == t.inodes[i]);
            assert(extents_apart(t.inodes[i], inode));
        } else {
            assert(n.inodes[j] == t.inodes[j]);
            assert(extents_apart(t.inodes[j], inode));
        }
    }
    assert forall|i: int| #![trigger n.inodes[i]] 0 <= i < n.inodes.len() implies extent_ok(
        n.inodes[i],
        g.data_block_start as int,
        blocks,
    ) by {
        if i != x {
            assert(n.inodes[i] == t.inodes[i]);
            assert(extent_ok(t.inodes[i], g.data_block_start as int, blocks));
        }
    }
    assert forall|d: int| #![trigger n.entries[d]] 0 <= d < n.entries.len() implies entry_linked(
        n,
        d,
    ) by {
        assert(entry_linked(t, d));
        let c = t.entries[d].inode_index as int;
        assert(c != x) by {
            assert(t.positions[c] is Some);
        }
        assert(n.inodes[c] == t.inodes[c]);
        let p = t.parents[c]->0 as int;
        assert(live_dir(t.inodes[p]));
        assert(p != x);
        assert(n.inodes[p] == t.inodes[p]);
    }
    assert forall|i: int| #![trigger n.positions[i]] 0 <= i < n.inodes.len() implies if i == 0
        || n.inodes[i].deleted || Some(x as usize) == Some(i as usize) {
        n.positions[i] is None && n.parents[i] is None
    } else {
        &&& n.positions[i] is Some
        &&& n.positions[i]->0 < n.entries.len()
        &&& n.entries[n.positions[i]->0 as int].inode_index == i
    } by {
        if i < t.inodes.len() {
            assert(n.positions[i] == t.positions[i] && n.parents[i] == t.parents[i]);
            if i != x {
                assert(n.inodes[i] == t.inodes[i]);
            }
        }
    }
    assert(dirs_listed(n)) by {
        assert forall|k: int| #![trigger n.dirs[k]] 0 <= k < n.dirs.len() implies n.dirs[k]
            < n.inodes.len() && live_dir(n.inodes[n.dirs[k] as int]) by {
            if k < t.dirs.len() {
                assert(n.dirs[k] == t.dirs[k]);
                assert(live_dir(t.inodes[t.dirs[k] as int]));
                assert(t.dirs[k] != x);
                assert(n.inodes[t.dirs[k] as int] == t.inodes[t.dirs[k] as int]);
            }
        }
        assert forall|a: int, b: int| #![trigger n.dirs[a], n.dirs[b]] 0 <= a < b
            < n.dirs.len() implies n.dirs[a] != n.dirs[b] by {
            assert(n.dirs[a] == t.dirs[a]);
            if b < t.dirs.len() {
                assert(n.dirs[b] == t.dirs[b]);
            } else {
                assert(live_dir(t.inodes[t.dirs[a] as int]));
            }
        }
        assert forall|i: int|
            #![trigger n.inodes[i]]
            0 <= i < n.inodes.len() && live_dir(n.inodes[i]) implies n.dirs.contains(
            i as usize,
        ) by {
            if i == x {
                assert(n.dirs[t.dirs.len() as int] == x as usize);
            } else {
                assert(n.inodes[i] == t.inodes[i]);
                assert(t.dirs.contains(i as usize));
                let k = choose|k: int| 0 <= k < t.dirs.len() && t.dirs[k] == i as usize;
                assert(n.dirs[k] == i as usize);
            }
        }
    }
    assert(free_slots_ok(n)) by {
        assert forall|k: int| #![trigger n.free_slots[k]] 0 <= k < n.free_slots.len() implies 0
            < n.free_slots[k] < n.inodes.len() && n.inodes[n.free_slots[k] as int].deleted by {
            assert(n.free_slots[k] == t.free_slots[k]);
            if t.free_slots.len() > 0 {
                assert(t.free_slots[k] != t.free_slots[t.free_slots.len() - 1]);
            }
        }
        assert forall|a: int, b: int| #![trigger n.free_slots[a], n.free_slots[b]] 0 <= a < b
            < n.free_slots.len() implies n.free_slots[a] != n.free_slots[b] by {
            assert(t.free_slots[a] != t.free_slots[b]);
        }
    }
}

impl SimpleFsState {
    fn push_dir_index(&mut self, index: usize)
        requires
            old(self).undo@.dirs is Some,
            old(self).undo@.all_entries is Some ==> inode_covered(old(self).undo@, index as int),
        ensures
            final(self).tree() == (TreeView {
                dirs: old(self).tree().dirs.push(index),
                ..old(self).tree()
            }),
            final(self).undo == old(self).undo,
            step_frame(*old(self), *final(self)),
            undo_kept(*old(self), *final(self)),
    {
        self.dir_inode_indices.push(index);
        proof {
            let u = self.undo@;
            assert forall|base: TreeView|
                #![trigger undo_ok(self.tree(), self.undo@, base)]
                undo_ok(old(self).tree(), u, base) implies undo_ok(self.tree(), u, base) by {
                let t = self.tree();
                if u.all_entries is Some {
                    assert forall|k: int|
                        #![trigger t.dirs[k]]
                        0 <= k < t.dirs.len() implies inode_covered(u, t.dirs[k] as int) by {
                        if k < old(self).tree().dirs.len() {
                            assert(t.dirs[k] == old(self).tree().dirs[k]);
                        }
                    }
                }
            }
        }
    }

    fn push_inode(&mut self, inode: OnDiskInode)
        requires
            old(self).undo@.inodes_len is Some,
        ensures
            final(self).tree() == (TreeView {
                inodes: old(self).tree().inodes.push(inode),
                parents: old(self).tree().parents.push(None),
                positions: old(self).tree().positions.push(None),
                ..old(self).tree()
            }),
            final(self).undo == old(self).undo,
            step_frame(*old(self), *final(self)),
            undo_kept(*old(self), *final(self)),
    {
        self.inodes.push(inode);
        self.parent_of.push(None);
        self.inode_to_entry_index.push(None);
        self.inode_table_dirty = true;
        proof {
            let u = self.undo@;
            let before = old(self).tree();
            let after = self.tree();
            assert forall|base: TreeView|
                #![trigger undo_ok(self.tree(), self.undo@, base)]
                undo_ok(old(self).tree(), u, base) implies undo_ok(self.tree(), u, base) by {
                let n = u.inodes_len->0 as int;
                lemma_replayed_len(u.inodes, before.inodes);
                lemma_replayed_len(u.inodes, after.inodes);
                assert(before.inodes.take(n) =~= after.inodes.take(n));
                lemma_replay_past_cut(u.inodes, before.inodes, after.inodes, n);
                assert(before.parents.take(n) =~= after.parents.take(n));
                assert(before.positions.take(n) =~= after.positions.take(n));
            }
        }
    }

    fn pop_free_slot(&mut self) -> (r: usize)
        requires
            old(self).undo@.free_slots is Some,
            old(self).free_inode_slots@.len() > 0,
        ensures
            r == old(self).tree().free_slots.last(),
            final(self).tree() == (TreeView {
                free_slots: old(self).tree().free_slots.drop_last(),
                ..old(self).tree()
            }),
            final(self).undo == old(self).undo,
            step_frame(*old(self), *final(self)),
            undo_kept(*old(self), *final(self)),
    {
        let last: usize = self.free_inode_slots.len() - 1;
        let r = self.free_inode_slots[last];
        self.free_inode_slots.truncate(last);
        assert(self.tree().free_slots =~= old(self).tree().free_slots.drop_last());
        r
    }
}

impl VolumeGeometry {
    /// Whether there is a slot for another inode.
    pub fn has_available_inode_slot(&self, state: &SimpleFsState) -> (r: bool)
        ensures
            r == slot_available(state.tree(), *self),
    {
        state.free_inode_slots.len() > 0 || state.inodes.len() < self.inode_capacity as usize
    }

    /// Puts `inode` in the next slot, a reused one if there is any.
    pub fn allocate_inode_slot(&self, state: &mut SimpleFsState, inode: OnDiskInode) -> (r: Result<
        usize,
    >)
        requires
            maps_ok(old(state).tree(), *self),
            free_slots_ok(old(state).tree()),
            has_way_back(*old(state)),
        ensures
            slot_available(old(state).tree(), *self) ==> r == Ok::<usize, Error>(
                alloc_index(old(state).tree()) as usize,
            ) && final(state).tree() == after_alloc(old(state).tree(), inode)
                && alloc_index(old(state).tree()) <= u32::MAX,
            !slot_available(old(state).tree(), *self) ==> r == Err::<usize, Error>(
                Error::OutOfMemory,
            ) && only_undo_differs(*old(state), *final(state)),
            step_frame(*old(state), *final(state)),
            undo_kept(*old(state), *final(state)),
            has_way_back(*final(state)),
    {
        let ghost t = old(state).tree();
        state.save_free_slots_for_undo();
        let ghost s1 = *state;
        state.save_dir_indices_for_undo();
        let ghost s2 = *state;
        proof {
            lemma_kept_trans(*old(state), s1, s2);
            lemma_kept_way_back(*old(state), s2);
        }
        let is_dir: bool = matches!(inode.kind, NodeKind::Directory);
        let index: usize;
        if state.free_inode_slots.len() > 0 {
            assert(t.free_slots[t.free_slots.len() - 1] < t.inodes.len());
            index = state.pop_free_slot();
            let ghost s3 = *state;
            state.save_inode_for_undo(index);
            let ghost s4 = *state;
            state.put_inode(index, inode);
            state.inode_table_dirty = true;
            proof {
                lemma_kept_trans(*old(state), s2, s3);
                lemma_kept_trans(*old(state), s3, s4);
                lemma_kept_trans(*old(state), s4, *state);
            }
        } else {
            if state.inodes.len() >= self.inode_capacity as usize {
                return Err(Error::OutOfMemory);
            }
            proof {
                let base = choose|base: TreeView| undo_ok(s2.tree(), s2.undo@, base);
                assert(undo_ok(s2.tree(), s2.undo@, base));
            }
            state.save_inodes_len_for_undo();
            let ghost s3 = *state;
            index = state.inodes.len();
            proof {
                lemma_kept_trans(*old(state), s2, s3);
                lemma_kept_way_back(*old(state), s3);
                let base = choose|base: TreeView| undo_ok(s3.tree(), s3.undo@, base);
                assert(undo_ok(s3.tree(), s3.undo@, base));
            }
            state.push_inode(inode);
            proof {
                lemma_kept_trans(*old(state), s3, *state);
            }
        }
        let ghost s5 = *state;
        if is_dir {
            state.push_dir_index(index);
            proof {
                lemma_kept_trans(*old(state), s5, *state);
            }
        }
        proof {
            lemma_kept_way_back(*old(state), *state);
            assert(state.tree() =~= after_alloc(t, inode));
        }
        Ok(index)
    }
}

} // verus!
