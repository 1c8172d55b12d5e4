//! Removing nodes, and changing the descriptor of one.
use vstd::prelude::*;
use vstd::string::*;

use crate::block::BlockDevice;
use crate::error::{Error, Result};
use crate::simplefs::create::lemma_lookup_live;
use crate::simplefs::extents::{free_is_rest, is_free, is_owned, list_ok};
use crate::simplefs::lookup::{child_entry, lookup};
use crate::simplefs::names::{base_name, base_text, is_root, parent_path, parent_text, root_path};
use crate::simplefs::release::{after_delete, lemma_delete_shape, tombstone};
use crate::simplefs::state::{TreeView, undo_kept};
use crate::simplefs::tree::{VolumeGeometry, after_insert, after_remove, dirs_listed, entry_linked, free_slots_ok, lemma_remove_shape, shape_ok, slices_apart, slots_distinct};
use crate::simplefs::tree_steps::{lemma_kept_trans, lemma_kept_way_back, lemma_shape_indexed};
use crate::simplefs::types::{DirEntryView, OnDiskInode, OnDiskPersistentSecurityDescriptor};
use crate::simplefs::validate::{covers, extent_end, extent_ok, extents_apart, live_dir, owns_extent, slice_end, slice_names_distinct};
use crate::simplefs::volume::SimpleFs;
use crate::vfs::{MAX_PERMISSION_MODE, NodeKind, SecurityDescriptor};

verus! {

/// The directory and entry that removing `path` is about, or why it is refused.
pub open spec fn remove_plan(t: TreeView, g: VolumeGeometry, path: Seq<char>) -> core::result::Result<
    (int, int),
    Error,
> {
    if path.len() == 0 || path == root_path() {
        Err(Error::InvalidArgument)
    } else {
        match lookup(t, parent_text(path)->0, g.case_sensitive) {
            Err(e) => Err(e),
            Ok(p) => if p >= t.inodes.len() {
                Err(Error::InternalError)
            } else if !live_dir(t.inodes[p]) {
                Err(Error::InvalidArgument)
            } else {
                match child_entry(t, p, base_text(path), g.case_sensitive) {
                    Err(e) => Err(e),
                    Ok(d) => {
                        let inode = t.inodes[t.entries[d].inode_index as int];
                        if inode.kind == NodeKind::Directory && inode.entry_count != 0 {
                            Err(Error::Busy)
                        } else {
                            Ok((p, d))
                        }
                    },
                }
            },
        }
    }
}

/// The tree after the node behind entry `d` was removed, its data blocks aside.
pub open spec fn after_unlink(t: TreeView, parent: int, d: int, handles: Seq<usize>) -> TreeView {
    after_delete(after_remove(t, parent, d), t.entries[d].inode_index as int, handles)
}

/// Removing an entry changes no block's owner.
pub proof fn lemma_remove_owner(t: TreeView, parent: int, d: int, b: int)
    ensures
        is_owned(after_remove(t, parent, d).inodes, b) == is_owned(t.inodes, b),
{
    let n = after_remove(t, parent, d);
    if is_owned(t.inodes, b) {
        let i = choose|i: int|
            #![trigger t.inodes[i]]
            0 <= i < t.inodes.len() && owns_extent(t.inodes[i]) && t.inodes[i].data_block <= b
                < extent_end(t.inodes[i]);
        assert(owns_extent(n.inodes[i]) && n.inodes[i].data_block == t.inodes[i].data_block);
    }
    if is_owned(n.inodes, b) {
        let i = choose|i: int|
            #![trigger n.inodes[i]]
            0 <= i < n.inodes.len() && owns_extent(n.inodes[i]) && n.inodes[i].data_block <= b
                < extent_end(n.inodes[i]);
        assert(owns_extent(t.inodes[i]) && n.inodes[i].data_block == t.inodes[i].data_block);
    }
}

/// Adding an entry changes no block's owner.
pub proof fn lemma_insert_owner(t: TreeView, parent: int, entry: DirEntryView, b: int)
    ensures
        is_owned(after_insert(t, parent, entry).inodes, b) == is_owned(t.inodes, b),
{
    let n = after_insert(t, parent, entry);
    if is_owned(t.inodes, b) {
        let i = choose|i: int|
            #![trigger t.inodes[i]]
            0 <= i < t.inodes.len() && owns_extent(t.inodes[i]) && t.inodes[i].data_block <= b
                < extent_end(t.inodes[i]);
        assert(owns_extent(n.inodes[i]) && n.inodes[i].data_block == t.inodes[i].data_block);
    }
    if is_owned(n.inodes, b) {
        let i = choose|i: int|
            #![trigger n.inodes[i]]
            0 <= i < n.inodes.len() && owns_extent(n.inodes[i]) && n.inodes[i].data_block <= b
                < extent_end(n.inodes[i]);
        assert(owns_extent(t.inodes[i]) && n.inodes[i].data_block == t.inodes[i].data_block);
    }
}

/// Once an inode's blocks were returned, the free list is again what the inodes
/// leave.
pub proof fn lemma_given_rest(
    t: TreeView,
    n: TreeView,
    g: VolumeGeometry,
    x: int,
    dead: OnDiskInode,
)
    requires
        0 <= x < t.inodes.len(),
        free_is_rest(t.free, t.inodes, g.data_block_start as int, g.block_limit as int),
        forall|i: int, j: int|
            #![trigger t.inodes[i], t.inodes[j]]
            0 <= i < j < t.inodes.len() ==> extents_apart(t.inodes[i], t.inodes[j]),
        !owns_extent(dead),
        n.inodes == t.inodes.update(x, dead),
        list_ok(n.free, g.data_block_start as int, g.block_limit as int),
        forall|b: int|
            #![trigger is_free(n.free, b)]
            is_free(n.free, b) == (is_free(t.free, b) || (owns_extent(t.inodes[x])
                && t.inodes[x].data_block <= b < extent_end(t.inodes[x]) && g.data_block_start <= b
                < g.block_limit)),
    ensures
        free_is_rest(n.free, n.inodes, g.data_block_start as int, g.block_limit as int),
{
    assert forall|b: int|
        #![trigger is_free(n.free, b)]
        g.data_block_start <= b < g.block_limit implies is_free(n.free, b) == !is_owned(
        n.inodes,
        b,
    ) by {
        assert(is_free(t.free, b) == !is_owned(t.inodes, b));
        let mine = owns_extent(t.inodes[x]) && t.inodes[x].data_block <= b < extent_end(
            t.inodes[x],
        );
        if is_owned(n.inodes, b) {
            let i = choose|i: int|
                #![trigger n.inodes[i]]
                0 <= i < n.inodes.len() && owns_extent(n.inodes[i]) && n.inodes[i].data_block <= b
                    < extent_end(n.inodes[i]);
            assert(i != x);
            assert(t.inodes[i] == n.inodes[i]);
            if mine {
                if i < x {
                    assert(extents_apart(t.inodes[i], t.inodes[x]));
                } else {
                    assert(extents_apart(t.inodes[x], t.inodes[i]));
                }
            }
        }
        if is_owned(t.inodes, b) && !mine {
            let i = choose|i: int|
                #![trigger t.inodes[i]]
                0 <= i < t.inodes.len() && owns_extent(t.inodes[i]) && t.inodes[i].data_block <= b
                    < extent_end(t.inodes[i]);
            assert(n.inodes[i] == t.inodes[i]);
        }
    }
}

impl<D: BlockDevice> SimpleFs<D> {
    /// Takes the node behind entry `d` of a directory out of the tree.
    pub fn unlink_entry(&mut self, parent: usize, d: usize) -> (r: Result<()>)
        requires
            old(self).txn_ok(),
            parent < old(self).state.tree().inodes.len(),
            covers(old(self).state.tree().inodes[parent as int], d as int),
            ({
                let inode = old(self).state.tree().inodes[old(
                    self,
                ).state.tree().entries[d as int].inode_index as int];
                inode.kind == NodeKind::Directory ==> inode.entry_count == 0
            }),
        ensures
            r is Ok,
            final(self).geometry == old(self).geometry,
            final(self).device == old(self).device,
            final(self).txn_ok(),
            undo_kept(old(self).state, final(self).state),
            final(self).state.rest() == old(self).state.rest(),
            final(self).state.tree() == (TreeView {
                free: final(self).state.tree().free,
                ..after_unlink(
                    old(self).state.tree(),
                    parent as int,
                    d as int,
                    old(self).state.rest().handles,
                )
            }),
    {
        let ghost t = self.state.tree();
        let ghost g = self.geometry;
        let ghost blocks = (self.device.image().len() / 512) as int;
        proof {
            lemma_shape_indexed(t, g, blocks, None);
            assert(slice_end(t.inodes[parent as int]) <= t.entries.len());
            assert(entry_linked(t, d as int));
            assert forall|e: int|
                #![trigger t.entries[e]]
                0 <= e < t.entries.len() implies t.entries[e].inode_index < t.inodes.len() by {
                assert(entry_linked(t, e));
            }
            lemma_remove_shape(t, g, blocks, parent as int, d as int);
        }
        let removed = self.geometry.remove_dir_entry_locked(&mut self.state, parent, d)?;
        let ghost mid = self.state;
        let ghost m = mid.tree();
        let child: usize = removed.inode_index as usize;
        assert(removed@.inode_index == removed.inode_index);
        proof {
            assert forall|b: int|
                #![trigger is_free(m.free, b)]
                g.data_block_start <= b < g.block_limit implies is_free(m.free, b) == !is_owned(
                m.inodes,
                b,
            ) by {
                assert(is_free(t.free, b) == !is_owned(t.inodes, b));
                lemma_remove_owner(t, parent as int, d as int, b);
            }
            assert(slots_distinct(m.dirs));
            assert(m.inodes[child as int].kind == t.inodes[child as int].kind);
            assert(t.inodes[child as int].kind == NodeKind::Directory ==> child != parent) by {
                if child == parent && t.inodes[child as int].kind == NodeKind::Directory {
                    assert(covers(t.inodes[child as int], d as int));
                }
            }
            lemma_delete_shape(m, g, blocks, child as int, mid.rest().handles);
        }
        self.geometry.delete_inode_locked(&mut self.state, child);
        proof {
            lemma_kept_trans(old(self).state, mid, self.state);
            lemma_kept_way_back(old(self).state, self.state);
            lemma_given_rest(
                m,
                self.state.tree(),
                g,
                child as int,
                tombstone(m.inodes[child as int]),
            );
            assert(self.state.tree().xattrs.len() == t.xattrs.len());
            lemma_shape_ignores_free(
                after_delete(m, child as int, mid.rest().handles),
                self.state.tree(),
                g,
                blocks,
                None,
            );
        }
        Ok(())
    }

    /// Removes a file, a symlink or an empty directory within a transaction.
    pub fn remove_path_locked(&mut self, path: &str) -> (r: Result<()>)
        requires
            old(self).txn_ok(),
        ensures
            final(self).geometry == old(self).geometry,
            final(self).device == old(self).device,
            final(self).txn_ok(),
            undo_kept(old(self).state, final(self).state),
            final(self).state.rest() == old(self).state.rest(),
            match remove_plan(old(self).state.tree(), old(self).geometry, path@) {
                Ok((parent, d)) => {
                    &&& r is Ok
                    &&& final(self).state.tree() == (TreeView {
                        free: final(self).state.tree().free,
                        ..after_unlink(
                            old(self).state.tree(),
                            parent,
                            d,
                            old(self).state.rest().handles,
                        )
                    })
                },
                Err(e) => r == Err::<(), Error>(e) && *final(self) == *old(self),
            },
    {
        if path.is_empty() || is_root(path) {
            return Err(Error::InvalidArgument);
        }
        let parent = match parent_path(path) {
            Some(p) => p,
            None => {
                return Err(Error::InvalidArgument);
            },
        };
        let parent_index = self.geometry.lookup_index_locked(&self.state, parent.as_str())?;
        if parent_index >= self.state.inodes.len() {
            return Err(Error::InternalError);
        }
        let parent_inode = self.state.inodes[parent_index];
        if !matches!(parent_inode.kind, NodeKind::Directory) || parent_inode.deleted {
            return Err(Error::InvalidArgument);
        }
        let resolved = self.geometry.resolve_live_child_dirent_locked(
            &self.state,
            parent_index,
            base_name(path),
        )?;
        if matches!(resolved.inode.kind, NodeKind::Directory) && resolved.inode.entry_count != 0 {
            return Err(Error::Busy);
        }
        self.unlink_entry(parent_index, resolved.entry_index)
    }

    /// Replaces the stored descriptor of a node within a transaction.
    pub fn update_security_descriptor_locked(
        &mut self,
        path: &str,
        security: SecurityDescriptor,
    ) -> (r: Result<()>)
        requires
            old(self).txn_ok(),
        ensures
            final(self).geometry == old(self).geometry,
            final(self).device == old(self).device,
            final(self).txn_ok(),
            undo_kept(old(self).state, final(self).state),
            final(self).state.rest() == old(self).state.rest(),
            match lookup(old(self).state.tree(), path@, old(self).geometry.case_sensitive) {
                _ if !old(self).geometry.format_version.stores_security() => r == Err::<(), Error>(
                    Error::Unsupported,
                ) && *final(self) == *old(self),
                _ if security.mode > MAX_PERMISSION_MODE => r == Err::<(), Error>(
                    Error::InvalidArgument,
                ) && *final(self) == *old(self),
                Err(e) => r == Err::<(), Error>(e) && *final(self) == *old(self),
                Ok(i) => {
                    &&& r is Ok
                    &&& final(self).state.tree() == (TreeView {
                        inodes: old(self).state.tree().inodes.update(
                            i,
                            OnDiskInode {
                                persistent_security: Some(
                                    OnDiskPersistentSecurityDescriptor {
                                        owner_uid: security.owner_uid,
                                        owner_gid: security.owner_gid,
                                        mode: security.mode,
                                    },
                                ),
                                ..old(self).state.tree().inodes[i]
                            },
                        ),
                        ..old(self).state.tree()
                    })
                },
            },
    {
        if self.geometry.format_version.persistent_security_descriptor_layout().is_none() {
            return Err(Error::Unsupported);
        }
        if security.mode > MAX_PERMISSION_MODE {
            return Err(Error::InvalidArgument);
        }
        let ghost t = self.state.tree();
        let ghost g = self.geometry;
        let ghost blocks = (self.device.image().len() / 512) as int;
        let index = self.geometry.lookup_index_locked(&self.state, path)?;
        proof {
            lemma_lookup_live(t, g, blocks, path@);
        }
        let mut inode = self.state.inodes[index];
        inode.persistent_security = Some(
            OnDiskPersistentSecurityDescriptor {
                owner_uid: security.owner_uid,
                owner_gid: security.owner_gid,
                mode: security.mode,
            },
        );
        self.state.set_inode(index, inode);
        let ghost mid = self.state;
        self.state.inode_table_dirty = true;
        proof {
            assert(self.state.tree() == mid.tree());
            lemma_kept_way_back(old(self).state, self.state);
            lemma_relabel_shape(t, self.state.tree(), g, blocks, index as int);
        }
        Ok(())
    }
}

/// The free list plays no part in a tree's shape.
pub proof fn lemma_shape_ignores_free(
    t: TreeView,
    n: TreeView,
    g: VolumeGeometry,
    blocks: int,
    orphan: Option<usize>,
)
    requires
        shape_ok(t, g, blocks, orphan),
        n == (TreeView { free: n.free, ..t }),
    ensures
        shape_ok(n, g, blocks, orphan),
{
    assert(n.inodes == t.inodes && n.entries == t.entries && n.parents == t.parents && n.positions
        == t.positions && n.dirs == t.dirs && n.free_slots == t.free_slots);
    assert forall|d: int| #![trigger n.entries[d]] 0 <= d < n.entries.len() implies entry_linked(
        n,
        d,
    ) by {
        assert(entry_linked(t, d));
    }
}

/// Whether two inodes differ in neither kind, place nor extent.
pub open spec fn same_place(a: OnDiskInode, b: OnDiskInode) -> bool {
    &&& a.kind == b.kind
    &&& a.deleted == b.deleted
    &&& a.entry_start == b.entry_start
    &&& a.entry_count == b.entry_count
    &&& a.data_block == b.data_block
    &&& a.block_count == b.block_count
}

/// Changing an inode in nothing but its descriptor, size or checksum keeps the
/// tree sound and the free list right.
pub proof fn lemma_relabel_shape(t: TreeView, n: TreeView, g: VolumeGeometry, blocks: int, x: int)
    requires
        shape_ok(t, g, blocks, None),
        free_is_rest(t.free, t.inodes, g.data_block_start as int, g.block_limit as int),
        0 <= x < t.inodes.len(),
        n == (TreeView { inodes: n.inodes, ..t }),
        n.inodes.len() == t.inodes.len(),
        forall|i: int|
            #![trigger n.inodes[i]]
            0 <= i < t.inodes.len() && i != x ==> n.inodes[i] == t.inodes[i],
        same_place(t.inodes[x], n.inodes[x]),
        extent_ok(n.inodes[x], g.data_block_start as int, blocks),
    ensures
        shape_ok(n, g, blocks, None),
        free_is_rest(n.free, n.inodes, g.data_block_start as int, g.block_limit as int),
{
    assert forall|i: int| #![trigger n.inodes[i]] 0 <= i < n.inodes.len() implies same_place(
        t.inodes[i],
        n.inodes[i],
    ) && extent_ok(n.inodes[i], g.data_block_start as int, blocks) by {
        if i != x {
            assert(extent_ok(t.inodes[i], g.data_block_start as int, blocks));
        }
    }
    assert forall|i: int| #![trigger n.inodes[i]] 0 <= i < n.inodes.len() && live_dir(
        n.inodes[i],
    ) implies slice_end(n.inodes[i]) <= n.entries.len() && slice_names_distinct(
        n.entries,
        n.inodes[i].entry_start as int,
        slice_end(n.inodes[i]),
        g.case_sensitive,
    ) by {
        assert(live_dir(t.inodes[i]));
    }
    assert forall|i: int, j: int|
        #![trigger n.inodes[i], n.inodes[j]]
        0 <= i < j < n.inodes.len() implies slices_apart(n.inodes[i], n.inodes[j])
        && extents_apart(n.inodes[i], n.inodes[j]) by {
        assert(slices_apart(t.inodes[i], t.inodes[j]));
        assert(extents_apart(t.inodes[i], t.inodes[j]));
    }
    assert forall|d: int| #![trigger n.entries[d]] 0 <= d < n.entries.len() implies entry_linked(
        n,
        d,
    ) by {
        assert(entry_linked(t, d));
        let c = t.entries[d].inode_index as int;
        assert(same_place(t.inodes[c], n.inodes[c]));
        let p = t.parents[c]->0 as int;
        assert(same_place(t.inodes[p], n.inodes[p]));
    }
    assert forall|i: int| #![trigger n.positions[i]] 0 <= i < n.inodes.len() implies if i == 0
        || n.inodes[i].deleted {
        n.positions[i] is None && n.parents[i] is None
    } else {
        &&& n.positions[i] is Some
        &&& n.positions[i]->0 < n.entries.len()
        &&& n.entries[n.positions[i]->0 as int].inode_index == i
    } by {
        assert(same_place(t.inodes[i], n.inodes[i]));
        assert(n.positions[i] == t.positions[i]);
    }
    assert(dirs_listed(n)) by {
        assert forall|k: int| #![trigger n.dirs[k]] 0 <= k < n.dirs.len() implies n.dirs[k]
            < n.inodes.len() && live_dir(n.inodes[n.dirs[k] as int]) by {
            assert(live_dir(t.inodes[t.dirs[k] as int]));
            assert(same_place(t.inodes[t.dirs[k] as int], n.inodes[t.dirs[k] as int]));
        }
        assert forall|i: int| #![trigger n.inodes[i]] 0 <= i < n.inodes.len() && live_dir(
            n.inodes[i],
        ) implies n.dirs.contains(i as usize) by {
            assert(live_dir(t.inodes[i]));
        }
    }
    assert(free_slots_ok(n)) by {
        assert forall|k: int| #![trigger n.free_slots[k]] 0 <= k < n.free_slots.len() implies 0
            < n.free_slots[k] < n.inodes.len() && n.inodes[n.free_slots[k] as int].deleted by {
            assert(t.inodes[t.free_slots[k] as int].deleted);
            assert(same_place(
                t.inodes[t.free_slots[k] as int],
                n.inodes[t.free_slots[k] as int],
            ));
        }
    }
    assert forall|b: int|
        #![trigger is_free(n.free, b)]
        g.data_block_start <= b < g.block_limit implies is_free(n.free, b) == !is_owned(
        n.inodes,
        b,
    ) by {
        assert(is_free(t.free, b) == !is_owned(t.inodes, b));
        if is_owned(t.inodes, b) {
            let i = choose|i: int|
                #![trigger t.inodes[i]]
                0 <= i < t.inodes.len() && owns_extent(t.inodes[i]) && t.inodes[i].data_block <= b
                    < extent_end(t.inodes[i]);
            assert(same_place(t.inodes[i], n.inodes[i]));
        }
        if is_owned(n.inodes, b) {
            let i = choose|i: int|
                #![trigger n.inodes[i]]
                0 <= i < n.inodes.len() && owns_extent(n.inodes[i]) && n.inodes[i].data_block <= b
                    < extent_end(n.inodes[i]);
            assert(same_place(t.inodes[i], n.inodes[i]));
        }
    }
}

} // verus!
