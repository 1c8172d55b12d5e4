//! Adding and removing directory entries, and handing out inodes.
use vstd::prelude::*;
use vstd::string::*;

use crate::error::{Error, Result};
use crate::simplefs::state::{SimpleFsState, TreeView, inode_covered, undo_kept, undo_ok};
use crate::simplefs::tree::{VolumeGeometry, after_insert, after_remove, insert_outcome};
use crate::simplefs::tree_steps::{has_way_back, indexed, lemma_kept_trans, lemma_kept_way_back, place_is_taken, rest_kept, step_frame};
use crate::simplefs::types::OnDiskDirEntry;
use crate::simplefs::undo::only_undo_differs;
use crate::simplefs::validate::{covers, live_dir, slice_end};
use crate::vfs::NodeKind;

verus! {

/// Inserts an entry into a table that the log has recorded.
fn insert_raw(state: &mut SimpleFsState, at: usize, entry: OnDiskDirEntry)
    requires
        at <= old(state).dir_entries@.len(),
        old(state).undo@.all_entries is Some,
    ensures
        final(state).tree() == (TreeView {
            entries: old(state).tree().entries.insert(at as int, entry@),
            ..old(state).tree()
        }),
        final(state).undo == old(state).undo,
        rest_kept(*old(state), *final(state)),
        final(state).inode_table_dirty == old(state).inode_table_dirty,
        final(state).dirent_table_dirty,
        final(state).xattr_table_dirty == old(state).xattr_table_dirty,
        undo_kept(*old(state), *final(state)),
{
    state.dir_entries.insert(at, entry);
    state.dirent_table_dirty = true;
    assert(state.tree().entries =~= old(state).tree().entries.insert(at as int, entry@));
}

/// Removes an entry from a table that the log has recorded.
fn remove_raw(state: &mut SimpleFsState, d: usize) -> (removed: OnDiskDirEntry)
    requires
        d < old(state).dir_entries@.len(),
        old(state).undo@.all_entries is Some,
    ensures
        removed@ == old(state).tree().entries[d as int],
        final(state).tree() == (TreeView {
            entries: old(state).tree().entries.remove(d as int),
            ..old(state).tree()
        }),
        final(state).undo == old(state).undo,
        rest_kept(*old(state), *final(state)),
        final(state).inode_table_dirty == old(state).inode_table_dirty,
        final(state).dirent_table_dirty,
        final(state).xattr_table_dirty == old(state).xattr_table_dirty,
        undo_kept(*old(state), *final(state)),
{
    let removed = state.dir_entries.remove(d);
    state.dirent_table_dirty = true;
    assert(state.tree().entries =~= old(state).tree().entries.remove(d as int));
    removed
}

proof fn lemma_dirs_covered(s: SimpleFsState)
    requires
        has_way_back(s),
        s.undo@.all_entries is Some,
    ensures
        forall|k: int|
            #![trigger s.dir_inode_indices@[k]]
            0 <= k < s.dir_inode_indices@.len() ==> inode_covered(
                s.undo@,
                s.dir_inode_indices@[k] as int,
            ),
        s.undo@.all_positions is Some,
{
    let base = choose|base: TreeView| undo_ok(s.tree(), s.undo@, base);
    assert forall|k: int|
        #![trigger s.dir_inode_indices@[k]]
        0 <= k < s.dir_inode_indices@.len() implies inode_covered(
        s.undo@,
        s.dir_inode_indices@[k] as int,
    ) by {
        assert(s.tree().dirs[k] == s.dir_inode_indices@[k]);
    }
}

impl VolumeGeometry {
    /// Adds `entry` as the last one of a directory, keeping every slice and both
    /// reverse maps in step.
    pub fn insert_dir_entry_locked(
        &self,
        state: &mut SimpleFsState,
        parent_index: usize,
        entry: OnDiskDirEntry,
    ) -> (r: Result<()>)
        requires
            indexed(old(state).tree(), *self),
            has_way_back(*old(state)),
            entry.inode_index < old(state).inodes@.len(),
        ensures
            r == insert_outcome(old(state).tree(), *self, parent_index as int),
            r is Ok ==> final(state).tree() == after_insert(
                old(state).tree(),
                parent_index as int,
                entry@,
            ),
            r is Err ==> only_undo_differs(*old(state), *final(state)),
            step_frame(*old(state), *final(state)),
            undo_kept(*old(state), *final(state)),
            has_way_back(*final(state)),
    {
        proof {
            let base = choose|base: TreeView|
                undo_ok(old(state).tree(), old(state).undo@, base);
            assert(undo_ok(old(state).tree(), old(state).undo@, base));
            assert forall|k: int|
                #![trigger state.dir_inode_indices@[k]]
                0 <= k < state.dir_inode_indices@.len() implies state.dir_inode_indices@[k]
                < state.inodes@.len() by {
                assert(state.tree().dirs[k] < state.inodes@.len());
            }
        }
        state.save_all_dirents_and_dir_inodes_for_undo();
        let ghost saved = *state;
        proof {
            lemma_kept_way_back(*old(state), saved);
        }
        if state.dir_entries.len() >= self.dirent_capacity as usize {
            return Err(Error::OutOfMemory);
        }
        if parent_index >= state.inodes.len() {
            return Err(Error::InternalError);
        }
        let parent = state.inodes[parent_index];
        if !matches!(parent.kind, NodeKind::Directory) || parent.deleted {
            return Err(Error::InvalidArgument);
        }
        let ghost t = old(state).tree();
        assert(t.inodes[parent_index as int] == parent);
        assert(slice_end(parent) <= t.entries.len());
        let at: usize = (parent.entry_start as u64 + parent.entry_count as u64) as usize;
        if place_is_taken(state, parent_index, at) {
            return Err(Error::InternalError);
        }
        let child: usize = entry.inode_index as usize;
        proof {
            lemma_dirs_covered(saved);
        }
        insert_raw(state, at, entry);
        let ghost s1 = *state;
        state.set_parent(child, Some(parent_index));
        let ghost s2 = *state;
        proof {
            assert forall|i: int|
                #![trigger state.inode_to_entry_index@[i]]
                0 <= i < state.inode_to_entry_index@.len() implies (
            state.inode_to_entry_index@[i] matches Some(d) ==> d < usize::MAX) by {
                assert(t.positions[i] == state.inode_to_entry_index@[i]);
            }
        }
        state.push_positions_up(at, child);
        let ghost s3 = *state;
        proof {
            assert(s3.tree().dirs == t.dirs);
            assert forall|i: int|
                #![trigger state.inodes@[i]]
                0 <= i < state.inodes@.len() && live_dir(state.inodes@[i]) implies slice_end(
                state.inodes@[i],
            ) < u32::MAX by {
                assert(live_dir(t.inodes[i]));
            }
            assert forall|k: int|
                #![trigger s3.dir_inode_indices@[k]]
                0 <= k < s3.dir_inode_indices@.len() implies inode_covered(
                s3.undo@,
                s3.dir_inode_indices@[k] as int,
            ) by {
                assert(inode_covered(saved.undo@, saved.dir_inode_indices@[k] as int));
            }
        }
        state.push_slices_up(parent_index, at);
        let ghost s4 = *state;
        state.inode_table_dirty = true;
        proof {
            lemma_kept_trans(*old(state), saved, s1);
            lemma_kept_trans(*old(state), s1, s2);
            lemma_kept_trans(*old(state), s2, s3);
            lemma_kept_trans(*old(state), s3, s4);
            assert(state.tree() == s4.tree());
            lemma_kept_way_back(*old(state), *state);
            assert(state.tree() =~= after_insert(t, parent_index as int, entry@));
        }
        Ok(())
    }

    /// Takes entry `entry_index` from a directory, keeping every slice and both
    /// reverse maps in step.
    pub fn remove_dir_entry_locked(
        &self,
        state: &mut SimpleFsState,
        parent_index: usize,
        entry_index: usize,
    ) -> (r: Result<OnDiskDirEntry>)
        requires
            indexed(old(state).tree(), *self),
            has_way_back(*old(state)),
            forall|d: int|
                #![trigger old(state).tree().entries[d]]
                0 <= d < old(state).tree().entries.len() ==> old(
                    state,
                ).tree().entries[d].inode_index < old(state).inodes@.len(),
        ensures
            match r {
                Ok(removed) => {
                    &&& parent_index < old(state).inodes@.len()
                    &&& covers(old(state).inodes@[parent_index as int], entry_index as int)
                    &&& removed@ == old(state).tree().entries[entry_index as int]
                    &&& final(state).tree() == after_remove(
                        old(state).tree(),
                        parent_index as int,
                        entry_index as int,
                    )
                },
                Err(e) => {
                    &&& only_undo_differs(*old(state), *final(state))
                    &&& e == (if parent_index >= old(state).inodes@.len() {
                        Error::InternalError
                    } else if !live_dir(old(state).inodes@[parent_index as int]) {
                        Error::InvalidArgument
                    } else {
                        Error::InternalError
                    })
                    &&& !(parent_index < old(state).inodes@.len() && covers(
                        old(state).inodes@[parent_index as int],
                        entry_index as int,
                    ))
                },
            },
            step_frame(*old(state), *final(state)),
            undo_kept(*old(state), *final(state)),
            has_way_back(*final(state)),
    {
        proof {
            let base = choose|base: TreeView|
                undo_ok(old(state).tree(), old(state).undo@, base);
            assert(undo_ok(old(state).tree(), old(state).undo@, base));
            assert forall|k: int|
                #![trigger state.dir_inode_indices@[k]]
                0 <= k < state.dir_inode_indices@.len() implies state.dir_inode_indices@[k]
                < state.inodes@.len() by {
                assert(state.tree().dirs[k] < state.inodes@.len());
            }
        }
        state.save_all_dirents_and_dir_inodes_for_undo();
        let ghost saved = *state;
        proof {
            lemma_kept_way_back(*old(state), saved);
        }
        if parent_index >= state.inodes.len() {
            return Err(Error::InternalError);
        }
        let parent = state.inodes[parent_index];
        if !matches!(parent.kind, NodeKind::Directory) || parent.deleted {
            return Err(Error::InvalidArgument);
        }
        let ghost t = old(state).tree();
        assert(t.inodes[parent_index as int] == parent);
        assert(slice_end(parent) <= t.entries.len());
        let end: u64 = parent.entry_start as u64 + parent.entry_count as u64;
        if (entry_index as u64) < parent.entry_start as u64 || entry_index as u64 >= end {
            return Err(Error::InternalError);
        }
        proof {
            lemma_dirs_covered(saved);
            assert(t.entries[entry_index as int].inode_index < t.inodes.len());
            assert(saved.tree().entries.len() == t.entries.len());
        }
        let removed = remove_raw(state, entry_index);
        let ghost s1 = *state;
        let child: usize = removed.inode_index as usize;
        assert(removed@.inode_index == removed.inode_index);
        state.set_parent(child, None);
        let ghost s2 = *state;
        state.pull_positions_down(entry_index, child);
        let ghost s3 = *state;
        proof {
            assert forall|k: int|
                #![trigger s3.dir_inode_indices@[k]]
                0 <= k < s3.dir_inode_indices@.len() implies inode_covered(
                s3.undo@,
                s3.dir_inode_indices@[k] as int,
            ) by {
                assert(inode_covered(saved.undo@, saved.dir_inode_indices@[k] as int));
            }
        }
        state.pull_slices_down(parent_index, entry_index);
        proof {
            lemma_kept_trans(*old(state), saved, s1);
            lemma_kept_trans(*old(state), s1, s2);
            lemma_kept_trans(*old(state), s2, s3);
            lemma_kept_trans(*old(state), s3, *state);
            lemma_kept_way_back(*old(state), *state);
            assert(state.tree() =~= after_remove(t, parent_index as int, entry_index as int));
        }
        Ok(removed)
    }
}

} // verus!
