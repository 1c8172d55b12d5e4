//! Executable steps on a mounted tree: each changes one thing and can be undone.
use vstd::prelude::*;
use vstd::string::*;

use crate::simplefs::state::{SimpleFsState, TreeView, cut, inode_covered, lemma_inode_change_undone, lemma_replay_covered, logged, undo_kept, undo_ok};
use crate::simplefs::tree::{VolumeGeometry, dirs_listed, inodes_after_insert, inodes_after_remove, maps_ok, place_taken, pulled_down, pushed_up, shape_ok, slices_ok};
use crate::simplefs::types::{DirEntryView, OnDiskInode};
use crate::simplefs::validate::{covers, live_dir, slice_end};

verus! {

/// Whether the log leads back somewhere.
pub open spec fn has_way_back(s: SimpleFsState) -> bool {
    exists|base: TreeView| undo_ok(s.tree(), s.undo@, base)
}

/// Whether nothing but the tree, its log and the dirty flags differs.
pub open spec fn rest_kept(a: SimpleFsState, b: SimpleFsState) -> bool {
    a.rest() == b.rest()
}

/// What a step needs to know of the tree to index it safely.
pub open spec fn indexed(t: TreeView, g: VolumeGeometry) -> bool {
    &&& maps_ok(t, g)
    &&& slices_ok(t, g.case_sensitive)
    &&& dirs_listed(t)
    &&& forall|i: int|
        #![trigger t.positions[i]]
        0 <= i < t.positions.len() ==> (t.positions[i] matches Some(d) ==> d < t.entries.len())
}

pub proof fn lemma_shape_indexed(
    t: TreeView,
    g: VolumeGeometry,
    blocks: int,
    orphan: Option<usize>,
)
    requires
        shape_ok(t, g, blocks, orphan),
    ensures
        indexed(t, g),
{
}

pub proof fn lemma_kept_way_back(a: SimpleFsState, b: SimpleFsState)
    requires
        has_way_back(a),
        undo_kept(a, b),
    ensures
        has_way_back(b),
{
    let base = choose|base: TreeView| undo_ok(a.tree(), a.undo@, base);
    assert(undo_ok(b.tree(), b.undo@, base));
}

pub proof fn lemma_kept_trans(a: SimpleFsState, b: SimpleFsState, c: SimpleFsState)
    requires
        undo_kept(a, b),
        undo_kept(b, c),
    ensures
        undo_kept(a, c),
{
    assert forall|base: TreeView|
        #![trigger undo_ok(c.tree(), c.undo@, base)]
        undo_ok(a.tree(), a.undo@, base) implies undo_ok(c.tree(), c.undo@, base) by {
        assert(undo_ok(b.tree(), b.undo@, base));
    }
}

impl SimpleFsState {
    /// Overwrites an inode that the log covers.
    pub fn put_inode(&mut self, index: usize, inode: OnDiskInode)
        requires
            index < old(self).inodes@.len(),
            inode_covered(old(self).undo@, index as int),
        ensures
            final(self).tree() == (TreeView {
                inodes: old(self).tree().inodes.update(index as int, inode),
                ..old(self).tree()
            }),
            final(self).undo == old(self).undo,
            rest_kept(*old(self), *final(self)),
            final(self).inode_table_dirty == old(self).inode_table_dirty,
            final(self).dirent_table_dirty == old(self).dirent_table_dirty,
            final(self).xattr_table_dirty == old(self).xattr_table_dirty,
            undo_kept(*old(self), *final(self)),
    {
        self.inodes[index] = inode;
        proof {
            let u = self.undo@;
            assert forall|base: TreeView|
                #![trigger undo_ok(self.tree(), self.undo@, base)]
                undo_ok(old(self).tree(), u, base) implies undo_ok(self.tree(), u, base) by {
                lemma_inode_change_undone(old(self).tree(), u, index as int, inode);
            }
        }
    }

    /// Overwrites a parent that the log covers.
    pub fn put_parent(&mut self, index: usize, value: Option<usize>)
        requires
            index < old(self).parent_of@.len(),
            logged(old(self).undo@.parents, index as int),
        ensures
            final(self).tree() == (TreeView {
                parents: old(self).tree().parents.update(index as int, value),
                ..old(self).tree()
            }),
            final(self).undo == old(self).undo,
            rest_kept(*old(self), *final(self)),
            final(self).inode_table_dirty == old(self).inode_table_dirty,
            final(self).dirent_table_dirty == old(self).dirent_table_dirty,
            final(self).xattr_table_dirty == old(self).xattr_table_dirty,
            undo_kept(*old(self), *final(self)),
    {
        self.parent_of[index] = value;
        proof {
            let u = self.undo@;
            assert forall|base: TreeView|
                #![trigger undo_ok(self.tree(), self.undo@, base)]
                undo_ok(old(self).tree(), u, base) implies undo_ok(self.tree(), u, base) by {
                let before = cut(old(self).parent_of@, u.inodes_len);
                let after = cut(self.parent_of@, u.inodes_len);
                if index < before.len() {
                    assert(after =~= before.update(index as int, value));
                    lemma_replay_covered(u.parents, before, index as int, value);
                } else {
                    assert(after =~= before);
                }
            }
        }
    }

    /// Saves and overwrites an inode.
    pub fn set_inode(&mut self, index: usize, inode: OnDiskInode)
        requires
            index < old(self).inodes@.len(),
        ensures
            final(self).tree() == (TreeView {
                inodes: old(self).tree().inodes.update(index as int, inode),
                ..old(self).tree()
            }),
            rest_kept(*old(self), *final(self)),
            final(self).inode_table_dirty == old(self).inode_table_dirty,
            final(self).dirent_table_dirty == old(self).dirent_table_dirty,
            final(self).xattr_table_dirty == old(self).xattr_table_dirty,
            undo_kept(*old(self), *final(self)),
    {
        self.save_inode_for_undo(index);
        let ghost mid = *self;
        self.put_inode(index, inode);
        proof {
            lemma_kept_trans(*old(self), mid, *self);
        }
    }

    /// Saves and overwrites the parent of an inode.
    pub fn set_parent(&mut self, index: usize, value: Option<usize>)
        requires
            index < old(self).parent_of@.len(),
        ensures
            final(self).tree() == (TreeView {
                parents: old(self).tree().parents.update(index as int, value),
                ..old(self).tree()
            }),
            rest_kept(*old(self), *final(self)),
            final(self).inode_table_dirty == old(self).inode_table_dirty,
            final(self).dirent_table_dirty == old(self).dirent_table_dirty,
            final(self).xattr_table_dirty == old(self).xattr_table_dirty,
            final(self).undo@.all_entries == old(self).undo@.all_entries,
            final(self).undo@.all_positions == old(self).undo@.all_positions,
            final(self).undo@.inodes_len == old(self).undo@.inodes_len,
            final(self).undo@.inodes == old(self).undo@.inodes,
            undo_kept(*old(self), *final(self)),
    {
        self.save_parent_of_for_undo(index);
        let ghost mid = *self;
        self.put_parent(index, value);
        proof {
            lemma_kept_trans(*old(self), mid, *self);
        }
    }

    /// Renames an entry in place.
    pub fn rename_entry(&mut self, index: usize, name: &str)
        requires
            index < old(self).dir_entries@.len(),
        ensures
            final(self).tree() == (TreeView {
                entries: old(self).tree().entries.update(
                    index as int,
                    (DirEntryView { name: name@, ..old(self).tree().entries[index as int] }),
                ),
                ..old(self).tree()
            }),
            rest_kept(*old(self), *final(self)),
            final(self).inode_table_dirty == old(self).inode_table_dirty,
            final(self).dirent_table_dirty == old(self).dirent_table_dirty,
            final(self).xattr_table_dirty == old(self).xattr_table_dirty,
            undo_kept(*old(self), *final(self)),
    {
        self.save_dirent_for_undo(index);
        let ghost mid = *self;
        assert(mid.tree().entries.len() == old(self).tree().entries.len());
        self.dir_entries[index].name = name.to_owned();
        proof {
            let u = self.undo@;
            let view = self.dir_entries@[index as int]@;
            assert(self.tree().entries =~= mid.tree().entries.update(index as int, view));
            assert(old(self).tree().entries[index as int] == old(self).dir_entries@[index as int]@);
            assert forall|base: TreeView|
                #![trigger undo_ok(self.tree(), self.undo@, base)]
                undo_ok(mid.tree(), u, base) implies undo_ok(self.tree(), u, base) by {
                if u.all_entries is None {
                    lemma_replay_covered(u.entries, mid.tree().entries, index as int, view);
                }
            }
            lemma_kept_trans(*old(self), mid, *self);
        }
    }
}

/// Whether only the inode and entry flags, besides tree and log, may differ.
pub open spec fn step_frame(a: SimpleFsState, b: SimpleFsState) -> bool {
    &&& a.rest() == b.rest()
    &&& a.xattr_table_dirty == b.xattr_table_dirty
}

/// Whether a directory other than `parent` has `at` strictly inside its slice.
pub fn place_is_taken(state: &SimpleFsState, parent: usize, at: usize) -> (r: bool)
    requires
        dirs_listed(state.tree()),
        parent < state.inodes@.len(),
        at == slice_end(state.inodes@[parent as int]),
    ensures
        r == place_taken(state.inodes@, parent as int),
{
    let total: usize = state.inodes.len();
    let mut k: usize = 0;
    while k < state.dir_inode_indices.len()
        invariant
            total == state.inodes@.len(),
            k <= state.dir_inode_indices@.len(),
            dirs_listed(state.tree()),
            parent < state.inodes@.len(),
            at == slice_end(state.inodes@[parent as int]),
            forall|j: int|
                #![trigger state.dir_inode_indices@[j]]
                0 <= j < k ==> ({
                    let i = state.dir_inode_indices@[j] as int;
                    i == parent || !(state.inodes@[i].entry_start < at < slice_end(
                        state.inodes@[i],
                    ))
                }),
        decreases state.dir_inode_indices@.len() - k,
    {
        assert(state.tree().dirs[k as int] < state.inodes@.len());
        let dir: usize = state.dir_inode_indices[k];
        let inode = state.inodes[dir];
        if dir != parent && (inode.entry_start as u64) < at as u64 && (at as u64)
            < inode.entry_start as u64 + inode.entry_count as u64 {
            assert(live_dir(state.inodes@[dir as int]));
            return true;
        }
        k = k + 1;
    }
    assert forall|i: int| #![trigger state.inodes@[i]] 0 <= i < state.inodes@.len() && i != parent
        && live_dir(state.inodes@[i]) implies !(state.inodes@[i].entry_start < at < slice_end(
        state.inodes@[i],
    )) by {
        let t = state.tree();
        assert(live_dir(t.inodes[i]));
        assert(t.dirs.contains(i as usize));
        let j = choose|j: int| 0 <= j < t.dirs.len() && t.dirs[j] == i as usize;
        assert(state.dir_inode_indices@[j] == i as usize);
    }
    false
}

impl SimpleFsState {
    /// Moves every recorded position at or past `at` up by one, then records
    /// `child` there.
    pub fn push_positions_up(&mut self, at: usize, child: usize)
        requires
            old(self).undo@.all_positions is Some,
            child < old(self).inode_to_entry_index@.len(),
            forall|i: int|
                #![trigger old(self).inode_to_entry_index@[i]]
                0 <= i < old(self).inode_to_entry_index@.len() ==> (
                old(self).inode_to_entry_index@[i] matches Some(d) ==> d < usize::MAX),
        ensures
            final(self).tree() == (TreeView {
                positions: Seq::new(
                    old(self).tree().positions.len(),
                    |i: int| pushed_up(old(self).tree().positions[i], at as int),
                ).update(child as int, Some(at)),
                ..old(self).tree()
            }),
            final(self).undo == old(self).undo,
            rest_kept(*old(self), *final(self)),
            final(self).inode_table_dirty == old(self).inode_table_dirty,
            final(self).dirent_table_dirty == old(self).dirent_table_dirty,
            final(self).xattr_table_dirty == old(self).xattr_table_dirty,
            undo_kept(*old(self), *final(self)),
    {
        let ghost p0 = self.inode_to_entry_index@;
        let mut i: usize = 0;
        while i < self.inode_to_entry_index.len()
            invariant
                i <= self.inode_to_entry_index@.len(),
                self.inode_to_entry_index@.len() == p0.len(),
                p0 == old(self).inode_to_entry_index@,
                forall|j: int|
                    #![trigger p0[j]]
                    0 <= j < p0.len() ==> (p0[j] matches Some(d) ==> d < usize::MAX),
                forall|j: int|
                    #![trigger self.inode_to_entry_index@[j]]
                    0 <= j < p0.len() ==> self.inode_to_entry_index@[j] == if j < i {
                        pushed_up(p0[j], at as int)
                    } else {
                        p0[j]
                    },
                self.tree() == (TreeView {
                    positions: self.inode_to_entry_index@,
                    ..old(self).tree()
                }),
                self.undo == old(self).undo,
                rest_kept(*old(self), *self),
                self.inode_table_dirty == old(self).inode_table_dirty,
                self.dirent_table_dirty == old(self).dirent_table_dirty,
                self.xattr_table_dirty == old(self).xattr_table_dirty,
            decreases self.inode_to_entry_index@.len() - i,
        {
            assert(p0[i as int] == self.inode_to_entry_index@[i as int]);
            match self.inode_to_entry_index[i] {
                Some(d) => {
                    if d >= at {
                        self.inode_to_entry_index[i] = Some(d + 1);
                    }
                },
                None => {},
            }
            i = i + 1;
        }
        self.inode_to_entry_index[child] = Some(at);
        assert(self.tree().positions =~= Seq::new(
            p0.len(),
            |i: int| pushed_up(p0[i], at as int),
        ).update(child as int, Some(at)));
    }

    /// Moves every recorded position past `d` down by one, then forgets `child`.
    pub fn pull_positions_down(&mut self, d: usize, child: usize)
        requires
            old(self).undo@.all_positions is Some,
            child < old(self).inode_to_entry_index@.len(),
        ensures
            final(self).tree() == (TreeView {
                positions: Seq::new(
                    old(self).tree().positions.len(),
                    |i: int| pulled_down(old(self).tree().positions[i], d as int),
                ).update(child as int, None),
                ..old(self).tree()
            }),
            final(self).undo == old(self).undo,
            rest_kept(*old(self), *final(self)),
            final(self).inode_table_dirty == old(self).inode_table_dirty,
            final(self).dirent_table_dirty == old(self).dirent_table_dirty,
            final(self).xattr_table_dirty == old(self).xattr_table_dirty,
            undo_kept(*old(self), *final(self)),
    {
        let ghost p0 = self.inode_to_entry_index@;
        let mut i: usize = 0;
        while i < self.inode_to_entry_index.len()
            invariant
                i <= self.inode_to_entry_index@.len(),
                self.inode_to_entry_index@.len() == p0.len(),
                p0 == old(self).inode_to_entry_index@,
                forall|j: int|
                    #![trigger self.inode_to_entry_index@[j]]
                    0 <= j < p0.len() ==> self.inode_to_entry_index@[j] == if j < i {
                        pulled_down(p0[j], d as int)
                    } else {
                        p0[j]
                    },
                self.tree() == (TreeView {
                    positions: self.inode_to_entry_index@,
                    ..old(self).tree()
                }),
                self.undo == old(self).undo,
                rest_kept(*old(self), *self),
                self.inode_table_dirty == old(self).inode_table_dirty,
                self.dirent_table_dirty == old(self).dirent_table_dirty,
                self.xattr_table_dirty == old(self).xattr_table_dirty,
            decreases self.inode_to_entry_index@.len() - i,
        {
            match self.inode_to_entry_index[i] {
                Some(e) => {
                    if e > d {
                        self.inode_to_entry_index[i] = Some(e - 1);
                    }
                },
                None => {},
            }
            i = i + 1;
        }
        self.inode_to_entry_index[child] = None;
        assert(self.tree().positions =~= Seq::new(
            p0.len(),
            |i: int| pulled_down(p0[i], d as int),
        ).update(child as int, None));
    }

    /// Gives directory `parent` one entry more at `at` and moves later slices up.
    pub fn push_slices_up(&mut self, parent: usize, at: usize)
        requires
            dirs_listed(old(self).tree()),
            parent < old(self).inodes@.len(),
            live_dir(old(self).inodes@[parent as int]),
            forall|i: int|
                #![trigger old(self).inodes@[i]]
                0 <= i < old(self).inodes@.len() && live_dir(old(self).inodes@[i]) ==> slice_end(
                    old(self).inodes@[i],
                ) < u32::MAX,
            forall|k: int|
                #![trigger old(self).dir_inode_indices@[k]]
                0 <= k < old(self).dir_inode_indices@.len() ==> inode_covered(
                    old(self).undo@,
                    old(self).dir_inode_indices@[k] as int,
                ),
        ensures
            final(self).tree() == (TreeView {
                inodes: inodes_after_insert(old(self).tree().inodes, parent as int, at as int),
                ..old(self).tree()
            }),
            final(self).undo == old(self).undo,
            rest_kept(*old(self), *final(self)),
            final(self).inode_table_dirty == old(self).inode_table_dirty,
            final(self).dirent_table_dirty == old(self).dirent_table_dirty,
            final(self).xattr_table_dirty == old(self).xattr_table_dirty,
            undo_kept(*old(self), *final(self)),
    {
        let ghost t0 = self.tree();
        let ghost goal = inodes_after_insert(t0.inodes, parent as int, at as int);
        let total: usize = self.inodes.len();
        let mut k: usize = 0;
        while k < self.dir_inode_indices.len()
            invariant
                total == t0.inodes.len(),
                k <= self.dir_inode_indices@.len(),
                t0 == old(self).tree(),
                goal == inodes_after_insert(t0.inodes, parent as int, at as int),
                dirs_listed(t0),
                parent < t0.inodes.len(),
                forall|i: int|
                    #![trigger t0.inodes[i]]
                    0 <= i < t0.inodes.len() && live_dir(t0.inodes[i]) ==> slice_end(t0.inodes[i])
                        < u32::MAX,
                forall|j: int|
                    #![trigger t0.dirs[j]]
                    0 <= j < t0.dirs.len() ==> inode_covered(old(self).undo@, t0.dirs[j] as int),
                self.tree() == (TreeView { inodes: self.inodes@, ..t0 }),
                self.inodes@.len() == t0.inodes.len(),
                forall|j: int|
                    #![trigger t0.dirs[j]]
                    0 <= j < t0.dirs.len() ==> self.inodes@[t0.dirs[j] as int] == if j < k {
                        goal[t0.dirs[j] as int]
                    } else {
                        t0.inodes[t0.dirs[j] as int]
                    },
                forall|i: int|
                    #![trigger self.inodes@[i]]
                    0 <= i < t0.inodes.len() && !t0.dirs.contains(i as usize) ==> self.inodes@[i]
                        == t0.inodes[i],
                self.undo == old(self).undo,
                rest_kept(*old(self), *self),
                self.inode_table_dirty == old(self).inode_table_dirty,
                self.dirent_table_dirty == old(self).dirent_table_dirty,
                self.xattr_table_dirty == old(self).xattr_table_dirty,
                undo_kept(*old(self), *self),
            decreases self.dir_inode_indices@.len() - k,
        {
            let ghost mid = *self;
            assert(self.dir_inode_indices@ == t0.dirs);
            let dir: usize = self.dir_inode_indices[k];
            assert(t0.dirs[k as int] == dir);
            assert(live_dir(t0.inodes[dir as int]));
            let mut inode = self.inodes[dir];
            assert(inode == t0.inodes[dir as int]);
            if dir == parent {
                inode.entry_count = inode.entry_count + 1;
                self.put_inode(dir, inode);
            } else if inode.entry_start as u64 >= at as u64 {
                inode.entry_start = inode.entry_start + 1;
                self.put_inode(dir, inode);
            }
            proof {
                assert(inode == goal[dir as int]);
                lemma_kept_trans(*old(self), mid, *self);
                assert forall|j: int|
                    #![trigger t0.dirs[j]]
                    0 <= j < t0.dirs.len() implies self.inodes@[t0.dirs[j] as int] == if j < k + 1 {
                    goal[t0.dirs[j] as int]
                } else {
                    t0.inodes[t0.dirs[j] as int]
                } by {
                    if j != k {
                        assert(t0.dirs[j] != t0.dirs[k as int]);
                    }
                }
            }
            k = k + 1;
        }
        assert(self.inodes@ =~= goal) by {
            assert forall|i: int| 0 <= i < goal.len() implies self.inodes@[i] == goal[i] by {
                if t0.dirs.contains(i as usize) {
                    let j = choose|j: int| 0 <= j < t0.dirs.len() && t0.dirs[j] == i as usize;
                    assert(t0.dirs[j] == i as usize);
                } else {
                    assert(!live_dir(t0.inodes[i]));
                }
            }
        }
    }

    /// Takes one entry at `d` from directory `parent` and moves later slices down.
    pub fn pull_slices_down(&mut self, parent: usize, d: usize)
        requires
            dirs_listed(old(self).tree()),
            parent < old(self).inodes@.len(),
            covers(old(self).inodes@[parent as int], d as int),
            forall|k: int|
                #![trigger old(self).dir_inode_indices@[k]]
                0 <= k < old(self).dir_inode_indices@.len() ==> inode_covered(
                    old(self).undo@,
                    old(self).dir_inode_indices@[k] as int,
                ),
        ensures
            final(self).tree() == (TreeView {
                inodes: inodes_after_remove(old(self).tree().inodes, parent as int, d as int),
                ..old(self).tree()
            }),
            final(self).undo == old(self).undo,
            rest_kept(*old(self), *final(self)),
            final(self).inode_table_dirty == old(self).inode_table_dirty,
            final(self).dirent_table_dirty == old(self).dirent_table_dirty,
            final(self).xattr_table_dirty == old(self).xattr_table_dirty,
            undo_kept(*old(self), *final(self)),
    {
        let ghost t0 = self.tree();
        let ghost goal = inodes_after_remove(t0.inodes, parent as int, d as int);
        let total: usize = self.inodes.len();
        let mut k: usize = 0;
        while k < self.dir_inode_indices.len()
            invariant
                total == t0.inodes.len(),
                k <= self.dir_inode_indices@.len(),
                t0 == old(self).tree(),
                goal == inodes_after_remove(t0.inodes, parent as int, d as int),
                dirs_listed(t0),
                parent < t0.inodes.len(),
                covers(t0.inodes[parent as int], d as int),
                forall|j: int|
                    #![trigger t0.dirs[j]]
                    0 <= j < t0.dirs.len() ==> inode_covered(old(self).undo@, t0.dirs[j] as int),
                self.tree() == (TreeView { inodes: self.inodes@, ..t0 }),
                self.inodes@.len() == t0.inodes.len(),
                forall|j: int|
                    #![trigger t0.dirs[j]]
                    0 <= j < t0.dirs.len() ==> self.inodes@[t0.dirs[j] as int] == if j < k {
                        goal[t0.dirs[j] as int]
                    } else {
                        t0.inodes[t0.dirs[j] as int]
                    },
                forall|i: int|
                    #![trigger self.inodes@[i]]
                    0 <= i < t0.inodes.len() && !t0.dirs.contains(i as usize) ==> self.inodes@[i]
                        == t0.inodes[i],
                self.undo == old(self).undo,
                rest_kept(*old(self), *self),
                self.inode_table_dirty == old(self).inode_table_dirty,
                self.dirent_table_dirty == old(self).dirent_table_dirty,
                self.xattr_table_dirty == old(self).xattr_table_dirty,
                undo_kept(*old(self), *self),
            decreases self.dir_inode_indices@.len() - k,
        {
            let ghost mid = *self;
            assert(self.dir_inode_indices@ == t0.dirs);
            let dir: usize = self.dir_inode_indices[k];
            assert(t0.dirs[k as int] == dir);
            assert(live_dir(t0.inodes[dir as int]));
            let mut inode = self.inodes[dir];
            assert(inode == t0.inodes[dir as int]);
            if dir == parent {
                inode.entry_count = inode.entry_count - 1;
                self.put_inode(dir, inode);
            } else if inode.entry_start as u64 > d as u64 {
                inode.entry_start = inode.entry_start - 1;
                self.put_inode(dir, inode);
            }
            proof {
                assert(inode == goal[dir as int]);
                lemma_kept_trans(*old(self), mid, *self);
                assert forall|j: int|
                    #![trigger t0.dirs[j]]
                    0 <= j < t0.dirs.len() implies self.inodes@[t0.dirs[j] as int] == if j < k + 1 {
                    goal[t0.dirs[j] as int]
                } else {
                    t0.inodes[t0.dirs[j] as int]
                } by {
                    if j != k {
                        assert(t0.dirs[j] != t0.dirs[k as int]);
                    }
                }
            }
            k = k + 1;
        }
        assert(self.inodes@ =~= goal) by {
            assert forall|i: int| 0 <= i < goal.len() implies self.inodes@[i] == goal[i] by {
                if t0.dirs.contains(i as usize) {
                    let j = choose|j: int| 0 <= j < t0.dirs.len() && t0.dirs[j] == i as usize;
                    assert(t0.dirs[j] == i as usize);
                } else {
                    assert(!live_dir(t0.inodes[i]));
                }
            }
        }
    }
}

} // verus!
