//! Removing a node with everything below it.
use vstd::prelude::*;
use vstd::string::*;

use crate::block::BlockDevice;
use crate::error::{Error, Result};
use crate::simplefs::lookup::{child_entry, lookup};
use crate::simplefs::names::{base_name, base_text, is_root, parent_path};
use crate::simplefs::ops::{below_root, refused, taken_back};
use crate::simplefs::release::tombstone;
use crate::simplefs::remove::after_unlink;
use crate::simplefs::rename::parent_dir;
use crate::simplefs::settle::{same_nodes, settled};
use crate::simplefs::state::{SimpleFsState, TreeView, undo_kept};
use crate::simplefs::tree::{VolumeGeometry, after_remove, entry_linked, shape_ok};
use crate::simplefs::tree_steps::lemma_kept_trans;
use crate::simplefs::types::OnDiskInode;
use crate::simplefs::validate::{live_dir, slice_end};
use crate::simplefs::volume::SimpleFs;
use crate::vfs::NodeKind;

verus! {

/// The node that goes first when a node is removed with everything below it: the
/// last entry of the last entry, as far down as there are entries.
pub open spec fn last_leaf(t: TreeView, c: int, fuel: nat) -> core::result::Result<int, Error>
    decreases fuel,
{
    if t.inodes[c].kind != NodeKind::Directory || t.inodes[c].entry_count == 0 {
        Ok(c)
    } else if fuel == 0 {
        Err(Error::InternalError)
    } else {
        last_leaf(
            t,
            t.entries[slice_end(t.inodes[c]) - 1].inode_index as int,
            (fuel - 1) as nat,
        )
    }
}

/// The tree after the first node of a removal went.
pub open spec fn leaf_removed(t: TreeView, leaf: int, handles: Seq<usize>) -> TreeView {
    after_unlink(t, t.parents[leaf]->0 as int, t.positions[leaf]->0 as int, handles)
}

/// The tree after node `c` was removed with everything below it, leaf by leaf.
pub open spec fn subtree_removed(t: TreeView, c: int, handles: Seq<usize>, steps: nat) ->
    core::result::Result<TreeView, Error>
    decreases steps,
{
    match last_leaf(t, c, t.inodes.len()) {
        Err(e) => Err(e),
        Ok(leaf) => if steps == 0 {
            Err(Error::InternalError)
        } else if leaf == c {
            Ok(leaf_removed(t, leaf, handles))
        } else {
            subtree_removed(leaf_removed(t, leaf, handles), c, handles, (steps - 1) as nat)
        },
    }
}

/// The node that a recursive removal is about, or why it is refused.
pub open spec fn subtree_plan(t: TreeView, g: VolumeGeometry, path: Seq<char>) ->
    core::result::Result<int, Error> {
    match lookup(t, path, g.case_sensitive) {
        Err(e) => Err(e),
        Ok(_) => match parent_dir(t, g, path) {
            Err(e) => Err(e),
            Ok(p) => match child_entry(t, p, base_text(path), g.case_sensitive) {
                Err(e) => Err(e),
                Ok(d) => Ok(t.entries[d].inode_index as int),
            },
        },
    }
}

/// The number of inodes in use.
pub open spec fn live_count(inodes: Seq<OnDiskInode>) -> nat
    decreases inodes.len(),
{
    if inodes.len() == 0 {
        0
    } else {
        live_count(inodes.drop_last()) + (if inodes.last().deleted {
            0nat
        } else {
            1
        })
    }
}

proof fn lemma_live_count_same(a: Seq<OnDiskInode>, b: Seq<OnDiskInode>)
    requires
        a.len() == b.len(),
        forall|i: int| #![trigger b[i]] 0 <= i < a.len() ==> a[i].deleted == b[i].deleted,
    ensures
        live_count(a) == live_count(b),
    decreases a.len(),
{
    if a.len() > 0 {
        assert(a.last().deleted == b.last().deleted);
        assert forall|i: int|
            #![trigger b.drop_last()[i]]
            0 <= i < a.drop_last().len() implies a.drop_last()[i].deleted
            == b.drop_last()[i].deleted by {
            assert(a.drop_last()[i] == a[i] && b.drop_last()[i] == b[i]);
            assert(b[i].deleted == a[i].deleted);
        }
        lemma_live_count_same(a.drop_last(), b.drop_last());
    }
}

proof fn lemma_live_count_update(a: Seq<OnDiskInode>, i: int, dead: OnDiskInode)
    requires
        0 <= i < a.len(),
        !a[i].deleted,
        dead.deleted,
    ensures
        live_count(a.update(i, dead)) + 1 == live_count(a),
    decreases a.len(),
{
    let b = a.update(i, dead);
    if i == a.len() - 1 {
        assert(b.drop_last() =~= a.drop_last());
    } else {
        assert(b.drop_last() =~= a.drop_last().update(i, dead));
        assert(a.drop_last()[i] == a[i]);
        lemma_live_count_update(a.drop_last(), i, dead);
        assert(b.last() == a.last());
    }
}

proof fn lemma_live_count_bound(a: Seq<OnDiskInode>)
    ensures
        live_count(a) <= a.len(),
    decreases a.len(),
{
    if a.len() > 0 {
        lemma_live_count_bound(a.drop_last());
    }
}

/// Taking a node out leaves one inode less in use, and as many slots.
proof fn lemma_unlink_count(t: TreeView, parent: int, d: int, handles: Seq<usize>)
    requires
        0 <= t.entries[d].inode_index < t.inodes.len(),
        !t.inodes[t.entries[d].inode_index as int].deleted,
    ensures
        live_count(after_unlink(t, parent, d, handles).inodes) + 1 == live_count(t.inodes),
        after_unlink(t, parent, d, handles).inodes.len() == t.inodes.len(),
{
    let m = after_remove(t, parent, d);
    let c = t.entries[d].inode_index as int;
    lemma_live_count_same(t.inodes, m.inodes);
    lemma_live_count_update(m.inodes, c, tombstone(m.inodes[c]));
}

impl VolumeGeometry {
    /// The node that goes first when node `start` is removed with all below it.
    fn find_last_leaf(&self, state: &SimpleFsState, start: usize, Ghost(blocks): Ghost<int>) -> (r:
        Result<usize>)
        requires
            shape_ok(state.tree(), *self, blocks, None),
            start < state.tree().inodes.len(),
            !state.tree().inodes[start as int].deleted,
        ensures
            match r {
                Ok(i) => last_leaf(state.tree(), start as int, state.tree().inodes.len()) == Ok::<
                    int,
                    Error,
                >(i as int) && i < state.tree().inodes.len() && !state.tree().inodes[i as int].deleted
                    && (state.tree().inodes[i as int].kind == NodeKind::Directory
                    ==> state.tree().inodes[i as int].entry_count == 0) && (i == 0 ==> start == 0),
                Err(e) => last_leaf(state.tree(), start as int, state.tree().inodes.len()) == Err::<
                    int,
                    Error,
                >(e),
            },
    {
        let ghost t = state.tree();
        let mut current: usize = start;
        let mut fuel: usize = state.inodes.len();
        loop
            invariant
                t == state.tree(),
                shape_ok(t, *self, blocks, None),
                current < t.inodes.len(),
                !t.inodes[current as int].deleted,
                current == 0 ==> start == 0,
                last_leaf(t, start as int, t.inodes.len()) == last_leaf(
                    t,
                    current as int,
                    fuel as nat,
                ),
            decreases fuel,
        {
            let inode = state.inodes[current];
            assert(inode == t.inodes[current as int]);
            if !matches!(inode.kind, NodeKind::Directory) || inode.entry_count == 0 {
                return Ok(current);
            }
            if fuel == 0 {
                return Err(Error::InternalError);
            }
            let last: usize = (inode.entry_start as u64 + inode.entry_count as u64 - 1) as usize;
            assert(live_dir(t.inodes[current as int]));
            assert(slice_end(t.inodes[current as int]) <= t.entries.len());
            assert(t.entries.len() == state.dir_entries@.len());
            assert(entry_linked(t, last as int));
            current = state.dir_entries[last].inode_index as usize;
            assert(current == t.entries[last as int].inode_index);
            fuel = fuel - 1;
        }
    }
}

impl<D: BlockDevice> SimpleFs<D> {
    /// Takes node `target` out of the tree, and everything below it.
    fn remove_subtree(&mut self, target: usize) -> (r: Result<()>)
        requires
            old(self).txn_ok(),
            0 < target < old(self).state.tree().inodes.len(),
            !old(self).state.tree().inodes[target as int].deleted,
        ensures
            final(self).geometry == old(self).geometry,
            final(self).device == old(self).device,
            undo_kept(old(self).state, final(self).state),
            final(self).state.rest() == old(self).state.rest(),
            final(self).txn_ok(),
            match subtree_removed(
                old(self).state.tree(),
                target as int,
                old(self).state.rest().handles,
                live_count(old(self).state.tree().inodes),
            ) {
                Ok(n) => r is Ok && same_nodes(n, final(self).state.tree()),
                Err(e) => r == Err::<(), Error>(e),
            },
    {
        let ghost blocks = (self.device.image().len() / 512) as int;
        let ghost handles = self.state.rest().handles;
        let ghost mut t = self.state.tree();
        loop
            invariant
                self.txn_ok(),
                self.geometry == old(self).geometry,
                self.device == old(self).device,
                undo_kept(old(self).state, self.state),
                self.state.rest() == old(self).state.rest(),
                handles == old(self).state.rest().handles,
                blocks == (self.device.image().len() / 512) as int,
                0 < target < self.state.tree().inodes.len(),
                !self.state.tree().inodes[target as int].deleted,
                same_nodes(t, self.state.tree()),
                subtree_removed(
                    old(self).state.tree(),
                    target as int,
                    handles,
                    live_count(old(self).state.tree().inodes),
                ) == subtree_removed(t, target as int, handles, live_count(t.inodes)),
            decreases live_count(self.state.tree().inodes),
        {
            let ghost now = self.state.tree();
            let ghost before = self.state;
            let leaf = match self.geometry.find_last_leaf(&self.state, target, Ghost(blocks)) {
                Ok(leaf) => leaf,
                Err(error) => {
                    proof {
                        lemma_last_leaf_nodes(t, now, target as int, t.inodes.len());
                    }
                    return Err(error);
                },
            };
            proof {
                lemma_last_leaf_nodes(t, now, target as int, t.inodes.len());
                assert(now.positions[leaf as int] is Some);
                assert(now.entries[now.positions[leaf as int]->0 as int].inode_index == leaf);
                assert(entry_linked(now, now.positions[leaf as int]->0 as int));
                assert(self.state.parent_of@[leaf as int] == now.parents[leaf as int]);
                assert(self.state.inode_to_entry_index@[leaf as int]
                    == now.positions[leaf as int]);
            }
            let (parent, d) = match (self.state.parent_of[leaf], self.state.inode_to_entry_index[leaf]) {
                (Some(parent), Some(d)) => (parent, d),
                _ => {
                    return Err(Error::InternalError);
                },
            };
            proof {
                lemma_unlink_count(now, parent as int, d as int, handles);
                lemma_unlink_count(t, parent as int, d as int, handles);
            }
            self.unlink_entry(parent, d)?;
            proof {
                lemma_kept_trans(old(self).state, before, self.state);
            }
            if leaf == target {
                return Ok(());
            }
            proof {
                t = leaf_removed(t, leaf as int, handles);
                assert(self.state.tree().inodes[target as int].deleted
                    == now.inodes[target as int].deleted);
            }
        }
    }

    /// Removes a node with everything below it within a transaction.
    pub fn remove_path_recursive_locked(&mut self, path: &str) -> (r: Result<()>)
        requires
            old(self).txn_ok(),
        ensures
            final(self).geometry == old(self).geometry,
            final(self).device == old(self).device,
            undo_kept(old(self).state, final(self).state),
            final(self).state.rest() == old(self).state.rest(),
            final(self).txn_ok(),
            match recursive_removal(*old(self), path@) {
                Ok(n) => r is Ok && same_nodes(n, final(self).state.tree()),
                Err(e) => r == Err::<(), Error>(e),
            },
    {
        let ghost t = self.state.tree();
        let ghost blocks = (self.device.image().len() / 512) as int;
        let _index = self.geometry.lookup_index_locked(&self.state, path)?;
        let parent = match parent_path(path) {
            Some(p) => p,
            None => {
                return Err(Error::InvalidArgument);
            },
        };
        let parent_index = self.geometry.lookup_index_locked(&self.state, parent.as_str())?;
        let resolved = self.geometry.resolve_live_child_dirent_locked(
            &self.state,
            parent_index,
            base_name(path),
        )?;
        assert(entry_linked(t, resolved.entry_index as int));
        self.remove_subtree(resolved.inode_index)
    }

    /// Removes a node with everything below it.
    pub fn remove_path_recursive(&mut self, path: &str) -> (r: Result<()>)
        requires
            old(self).wf(),
        ensures
            final(self).wf(),
            recursive_removal_outcome(*old(self), *final(self), path@, r),
    {
        proof {
            reveal(recursive_removal_outcome);
        }
        if self.device.is_read_only() {
            return Err(Error::PermissionDenied);
        }
        if path.is_empty() || is_root(path) {
            return Err(Error::InvalidArgument);
        }
        let ghost a = *self;
        self.begin();
        let outcome = self.remove_path_recursive_locked(path);
        self.settle(outcome, Ghost(a))
    }
}

/// The tree after a recursive removal, or why it is refused.
pub open spec fn recursive_removal<D: BlockDevice>(fs: SimpleFs<D>, path: Seq<char>) ->
    core::result::Result<TreeView, Error> {
    let t = fs.state.tree();
    match subtree_plan(t, fs.geometry, path) {
        Err(e) => Err(e),
        Ok(c) => subtree_removed(t, c, fs.state.rest().handles, live_count(t.inodes)),
    }
}

/// What removing a node with everything below it does, and what it answers.
#[verifier::opaque]
pub open spec fn recursive_removal_outcome<D: BlockDevice>(
    a: SimpleFs<D>,
    b: SimpleFs<D>,
    path: Seq<char>,
    r: core::result::Result<(), Error>,
) -> bool {
    if a.device.write_protected() {
        refused(a, b, r, Error::PermissionDenied)
    } else if !below_root(path) {
        refused(a, b, r, Error::InvalidArgument)
    } else {
        match recursive_removal(a, path) {
            Err(e) => taken_back(a, b, r, e),
            Ok(n) => settled(a, a.device.image(), n, b, r),
        }
    }
}

/// The free list plays no part in which node goes first.
proof fn lemma_last_leaf_nodes(a: TreeView, b: TreeView, c: int, fuel: nat)
    requires
        same_nodes(a, b),
    ensures
        last_leaf(a, c, fuel) == last_leaf(b, c, fuel),
    decreases fuel,
{
    if fuel > 0 {
        lemma_last_leaf_nodes(
            a,
            b,
            a.entries[slice_end(a.inodes[c]) - 1].inode_index as int,
            (fuel - 1) as nat,
        );
    }
}

} // verus!
