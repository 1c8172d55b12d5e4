//! Taking inodes and data blocks back.
use vstd::prelude::*;

use crate::simplefs::extents::{free_is_rest, in_run, is_free, is_owned, list_ok, mark_extent_allocated, mark_extent_free, run_starts_at};
use crate::simplefs::state::{SimpleFsState, TreeView, inode_covered, undo_kept, undo_ok};
use crate::simplefs::tree::{VolumeGeometry, dirs_listed, entry_linked, free_slots_ok, shape_ok, slices_apart, slots_distinct};
use crate::simplefs::tree_steps::{lemma_kept_trans, step_frame};
use crate::simplefs::types::OnDiskInode;
use crate::simplefs::validate::{covers, extent_end, extent_ok, extents_apart, live_dir, owns_extent, slice_end, slice_names_distinct};
use crate::simplefs::xattr::xattrs_cleared;
use crate::vfs::NodeKind;

verus! {

/// `s` without `i`.
pub open spec fn without(s: Seq<usize>, i: usize) -> Seq<usize> {
    if s.contains(i) {
        s.remove(s.index_of(i))
    } else {
        s
    }
}

/// What is left of an inode after its removal.
pub open spec fn tombstone(inode: OnDiskInode) -> OnDiskInode {
    OnDiskInode {
        deleted: true,
        entry_start: 0,
        entry_count: 0,
        data_block: 0,
        block_count: 0,
        size: 0,
        persistent_security: None,
        ..inode
    }
}

/// The tree after inode `i` was removed, its data blocks aside. Its slot may be
/// reused unless a handle still refers to it.
pub open spec fn after_delete(t: TreeView, i: int, handles: Seq<usize>) -> TreeView {
    TreeView {
        inodes: t.inodes.update(i, tombstone(t.inodes[i])),
        free_slots: if handles.contains(i as usize) {
            t.free_slots
        } else {
            t.free_slots.push(i as usize)
        },
        dirs: without(t.dirs, i as usize),
        xattrs: xattrs_cleared(t.xattrs, i),
        ..t
    }
}

/// Removing an inode that has no entry makes the tree sound again.
pub proof fn lemma_delete_shape(
    t: TreeView,
    g: VolumeGeometry,
    blocks: int,
    i: int,
    handles: Seq<usize>,
)
    requires
        0 <= i <= usize::MAX,
        shape_ok(t, g, blocks, Some(i as usize)),
        t.inodes[i].kind == NodeKind::Directory ==> t.inodes[i].entry_count == 0,
    ensures
        shape_ok(after_delete(t, i, handles), g, blocks, None),
{
    let n = after_delete(t, i, handles);
    assert(t.positions[i] is None);
    assert forall|k: int| #![trigger n.inodes[k]] 0 <= k < n.inodes.len() && live_dir(
        n.inodes[k],
    ) implies slice_end(n.inodes[k]) <= n.entries.len() && slice_names_distinct(
        n.entries,
        n.inodes[k].entry_start as int,
        slice_end(n.inodes[k]),
        g.case_sensitive,
    ) by {
        assert(n.inodes[k] == t.inodes[k]);
    }
    assert forall|a: int, b: int|
        #![trigger n.inodes[a], n.inodes[b]]
        0 <= a < b < n.inodes.len() implies slices_apart(n.inodes[a], n.inodes[b])
        && extents_apart(n.inodes[a], n.inodes[b]) by {
        assert(slices_apart(t.inodes[a], t.inodes[b]));
        assert(extents_apart(t.inodes[a], t.inodes[b]));
    }
    assert forall|k: int| #![trigger n.inodes[k]] 0 <= k < n.inodes.len() implies extent_ok(
        n.inodes[k],
        g.data_block_start as int,
        blocks,
    ) by {
        assert(extent_ok(t.inodes[k], g.data_block_start as int, blocks));
    }
    assert forall|d: int| #![trigger n.entries[d]] 0 <= d < n.entries.len() implies entry_linked(
        n,
        d,
    ) by {
        assert(entry_linked(t, d));
        let c = t.entries[d].inode_index as int;
        assert(c != i);
        let p = t.parents[c]->0 as int;
        assert(p != i) by {
            if p == i {
                assert(covers(t.inodes[i], d));
            }
        }
    }
    assert forall|k: int| #![trigger n.positions[k]] 0 <= k < n.inodes.len() implies if k == 0
        || n.inodes[k].deleted {
        n.positions[k] is None && n.parents[k] is None
    } else {
        &&& n.positions[k] is Some
        &&& n.positions[k]->0 < n.entries.len()
        &&& n.entries[n.positions[k]->0 as int].inode_index == k
    } by {
        assert(n.positions[k] == t.positions[k]);
    }
    lemma_delete_lists(t, i, handles);
}

proof fn lemma_delete_lists(t: TreeView, i: int, handles: Seq<usize>)
    requires
        dirs_listed(t),
        free_slots_ok(t),
        0 < i < t.inodes.len() <= u32::MAX,
        !t.inodes[i].deleted,
    ensures
        dirs_listed(after_delete(t, i, handles)),
        free_slots_ok(after_delete(t, i, handles)),
{
    let n = after_delete(t, i, handles);
    let x = i as usize;
    if t.dirs.contains(x) {
        let p = t.dirs.index_of(x);
        assert(t.dirs[p] == x);
        assert forall|k: int| #![trigger n.dirs[k]] 0 <= k < n.dirs.len() implies n.dirs[k]
            < n.inodes.len() && live_dir(n.inodes[n.dirs[k] as int]) by {
            let o = if k < p {
                k
            } else {
                k + 1
            };
            assert(n.dirs[k] == t.dirs[o]);
            assert(t.dirs[o] != t.dirs[p]);
        }
        assert forall|a: int, b: int| #![trigger n.dirs[a], n.dirs[b]] 0 <= a < b
            < n.dirs.len() implies n.dirs[a] != n.dirs[b] by {
            let a0 = if a < p {
                a
            } else {
                a + 1
            };
            let b0 = if b < p {
                b
            } else {
                b + 1
            };
            assert(n.dirs[a] == t.dirs[a0] && n.dirs[b] == t.dirs[b0]);
        }
        assert forall|k: int| #![trigger n.inodes[k]] 0 <= k < n.inodes.len() && live_dir(
            n.inodes[k],
        ) implies n.dirs.contains(k as usize) by {
            assert(n.inodes[k] == t.inodes[k]);
            assert(t.dirs.contains(k as usize));
            let o = choose|o: int| 0 <= o < t.dirs.len() && t.dirs[o] == k as usize;
            assert(o != p);
            let m = if o < p {
                o
            } else {
                o - 1
            };
            assert(n.dirs[m] == t.dirs[o]);
        }
    } else {
        assert forall|k: int| #![trigger n.dirs[k]] 0 <= k < n.dirs.len() implies n.dirs[k]
            < n.inodes.len() && live_dir(n.inodes[n.dirs[k] as int]) by {
            assert(t.dirs[k] == n.dirs[k]);
            assert(t.dirs.contains(t.dirs[k]));
        }
        assert forall|k: int| #![trigger n.inodes[k]] 0 <= k < n.inodes.len() && live_dir(
            n.inodes[k],
        ) implies n.dirs.contains(k as usize) by {
            assert(n.inodes[k] == t.inodes[k]);
        }
    }
    assert forall|k: int| #![trigger n.free_slots[k]] 0 <= k < n.free_slots.len() implies 0
        < n.free_slots[k] < n.inodes.len() && n.inodes[n.free_slots[k] as int].deleted by {
        if k < t.free_slots.len() {
            assert(n.free_slots[k] == t.free_slots[k]);
        }
    }
    assert forall|a: int, b: int| #![trigger n.free_slots[a], n.free_slots[b]] 0 <= a < b
        < n.free_slots.len() implies n.free_slots[a] != n.free_slots[b] by {
        assert(n.free_slots[a] == t.free_slots[a]);
        if b < t.free_slots.len() {
            assert(n.free_slots[b] == t.free_slots[b]);
        }
    }
}

/// Whether a list of inodes holds `index`.
fn contains_index(v: &Vec<usize>, index: usize) -> (r: bool)
    ensures
        r == v@.contains(index),
{
    let mut k: usize = 0;
    while k < v.len()
        invariant
            k <= v@.len(),
            forall|j: int| 0 <= j < k ==> v@[j] != index,
        decreases v@.len() - k,
    {
        if v[k] == index {
            assert(v@[k as int] == index);
            return true;
        }
        k = k + 1;
    }
    false
}

/// Takes `index` out of a list that holds it at most once.
fn remove_index(v: &mut Vec<usize>, index: usize)
    requires
        slots_distinct(old(v)@),
    ensures
        final(v)@ == without(old(v)@, index),
{
    let mut k: usize = 0;
    while k < v.len()
        invariant
            k <= v@.len(),
            v@ == old(v)@,
            slots_distinct(v@),
            forall|j: int| 0 <= j < k ==> v@[j] != index,
        decreases v@.len() - k,
    {
        if v[k] == index {
            proof {
                assert(v@[k as int] == index);
                assert(v@.contains(index));
                let p = v@.index_of(index);
                assert(v@[p] == index);
                assert(p == k);
            }
            let _gone = v.remove(k);
            return;
        }
        k = k + 1;
    }
}

impl SimpleFsState {
    fn drop_dir_index(&mut self, index: usize)
        requires
            old(self).undo@.dirs is Some,
            slots_distinct(old(self).dir_inode_indices@),
        ensures
            final(self).tree() == (TreeView {
                dirs: without(old(self).tree().dirs, index),
                ..old(self).tree()
            }),
            final(self).undo == old(self).undo,
            step_frame(*old(self), *final(self)),
            undo_kept(*old(self), *final(self)),
    {
        remove_index(&mut self.dir_inode_indices, index);
        proof {
            let u = self.undo@;
            assert forall|base: TreeView|
                #![trigger undo_ok(self.tree(), self.undo@, base)]
                undo_ok(old(self).tree(), u, base) implies undo_ok(self.tree(), u, base) by {
                let t = self.tree();
                let o = old(self).tree();
                if u.all_entries is Some {
                    assert forall|k: int|
                        #![trigger t.dirs[k]]
                        0 <= k < t.dirs.len() implies inode_covered(u, t.dirs[k] as int) by {
                        if o.dirs.contains(index) {
                            let p = o.dirs.index_of(index);
                            let m = if k < p {
                                k
                            } else {
                                k + 1
                            };
                            assert(t.dirs[k] == o.dirs[m]);
                        } else {
                            assert(t.dirs[k] == o.dirs[k]);
                        }
                    }
                }
            }
        }
    }

    fn push_free_slot(&mut self, index: usize)
        requires
            old(self).undo@.free_slots is Some,
        ensures
            final(self).tree() == (TreeView {
                free_slots: old(self).tree().free_slots.push(index),
                ..old(self).tree()
            }),
            final(self).undo == old(self).undo,
            step_frame(*old(self), *final(self)),
            undo_kept(*old(self), *final(self)),
    {
        self.free_inode_slots.push(index);
    }
}

impl VolumeGeometry {
    /// Takes `count` blocks from the front of the free run that starts at `start`.
    pub fn take_blocks(&self, state: &mut SimpleFsState, start: u64, count: u64)
        requires
            list_ok(
                old(state).tree().free,
                self.data_block_start as int,
                self.block_limit as int,
            ),
            run_starts_at(old(state).tree().free, start as int, count as int),
        ensures
            final(state).tree() == (TreeView { free: final(state).tree().free, ..old(state).tree() }),
            list_ok(
                final(state).tree().free,
                self.data_block_start as int,
                self.block_limit as int,
            ),
            forall|b: int|
                #![trigger is_free(final(state).tree().free, b)]
                is_free(final(state).tree().free, b) == (is_free(old(state).tree().free, b) && !(
                start <= b < start + count)),
            final(state).rest() == old(state).rest(),
            final(state).inode_table_dirty == old(state).inode_table_dirty,
            final(state).dirent_table_dirty == old(state).dirent_table_dirty,
            final(state).xattr_table_dirty == old(state).xattr_table_dirty,
            undo_kept(*old(state), *final(state)),
    {
        state.save_free_extents_for_undo();
        let ghost mid = *state;
        mark_extent_allocated(
            &mut state.free_data_extents,
            start,
            count,
            self.data_block_start as u64,
            self.block_limit,
        );
        proof {
            lemma_kept_trans(*old(state), mid, *state);
        }
    }

    /// Returns blocks to the free list.
    pub fn give_blocks(&self, state: &mut SimpleFsState, start: u64, count: u64)
        requires
            list_ok(
                old(state).tree().free,
                self.data_block_start as int,
                self.block_limit as int,
            ),
            start + count <= u64::MAX,
            forall|b: int| start <= b < start + count ==> !is_free(old(state).tree().free, b),
        ensures
            final(state).tree() == (TreeView { free: final(state).tree().free, ..old(state).tree() }),
            list_ok(
                final(state).tree().free,
                self.data_block_start as int,
                self.block_limit as int,
            ),
            forall|b: int|
                #![trigger is_free(final(state).tree().free, b)]
                is_free(final(state).tree().free, b) == (is_free(old(state).tree().free, b) || (
                start <= b < start + count && self.data_block_start <= b < self.block_limit)),
            final(state).rest() == old(state).rest(),
            final(state).inode_table_dirty == old(state).inode_table_dirty,
            final(state).dirent_table_dirty == old(state).dirent_table_dirty,
            final(state).xattr_table_dirty == old(state).xattr_table_dirty,
            undo_kept(*old(state), *final(state)),
    {
        state.save_free_extents_for_undo();
        let ghost mid = *state;
        mark_extent_free(
            &mut state.free_data_extents,
            start,
            count,
            self.data_block_start as u64,
            self.block_limit,
        );
        proof {
            lemma_kept_trans(*old(state), mid, *state);
        }
    }

    /// Removes an inode that no entry names any more: its slot becomes reusable
    /// unless a handle is open on it, its attributes go, and its data blocks
    /// return to the free list.
    pub fn delete_inode_locked(&self, state: &mut SimpleFsState, index: usize)
        requires
            0 < index < old(state).inodes@.len(),
            slots_distinct(old(state).dir_inode_indices@),
            free_is_rest(
                old(state).tree().free,
                old(state).tree().inodes,
                self.data_block_start as int,
                self.block_limit as int,
            ),
            !old(state).inodes@[index as int].deleted,
        ensures
            final(state).tree() == (TreeView {
                free: final(state).tree().free,
                ..after_delete(old(state).tree(), index as int, old(state).rest().handles)
            }),
            list_ok(
                final(state).tree().free,
                self.data_block_start as int,
                self.block_limit as int,
            ),
            forall|b: int|
                #![trigger is_free(final(state).tree().free, b)]
                is_free(final(state).tree().free, b) == (is_free(old(state).tree().free, b) || (
                owns_extent(old(state).inodes@[index as int])
                    && old(state).inodes@[index as int].data_block <= b < extent_end(
                    old(state).inodes@[index as int],
                ) && self.data_block_start <= b < self.block_limit)),
            final(state).rest() == old(state).rest(),
            undo_kept(*old(state), *final(state)),
    {
        let ghost t = old(state).tree();
        let inode = state.inodes[index];
        let mut dead = inode;
        dead.deleted = true;
        dead.entry_start = 0;
        dead.entry_count = 0;
        dead.data_block = 0;
        dead.block_count = 0;
        dead.size = 0;
        dead.persistent_security = None;
        state.set_inode(index, dead);
        let ghost s1 = *state;
        state.save_free_slots_for_undo();
        let ghost s2 = *state;
        state.save_dir_indices_for_undo();
        let ghost s3 = *state;
        proof {
            lemma_kept_trans(*old(state), s1, s2);
            lemma_kept_trans(*old(state), s2, s3);
            assert(s3.tree().dirs == t.dirs);
        }
        state.drop_dir_index(index);
        let ghost s4 = *state;
        if !contains_index(&state.open_handles, index) {
            state.push_free_slot(index);
        }
        let ghost s5 = *state;
        state.inode_table_dirty = true;
        proof {
            lemma_kept_trans(*old(state), s3, s4);
            lemma_kept_trans(*old(state), s4, s5);
            assert(state.rest().handles == old(state).rest().handles);
        }
        let ghost s6 = *state;
        assert(s6.tree() == s5.tree());
        state.mark_inode_xattrs_deleted(index);
        let ghost s7 = *state;
        proof {
            lemma_kept_trans(*old(state), s6, s7);
            assert(s7.tree() =~= after_delete(t, index as int, old(state).rest().handles));
        }
        if !matches!(inode.kind, NodeKind::Directory) && inode.block_count > 0 {
            proof {
                assert forall|b: int| inode.data_block <= b < inode.data_block
                    + inode.block_count implies !is_free(state.tree().free, b) by {
                    assert(t.inodes[index as int] == inode);
                    assert(is_owned(t.inodes, b));
                    if is_free(t.free, b) {
                        let k = choose|k: int|
                            #![trigger t.free[k]]
                            0 <= k < t.free.len() && in_run(t.free[k], b);
                        assert(self.data_block_start <= b < self.block_limit);
                    }
                }
            }
            self.give_blocks(state, inode.data_block as u64, inode.block_count as u64);
            proof {
                lemma_kept_trans(*old(state), s7, *state);
            }
        }
    }
}

} // verus!
