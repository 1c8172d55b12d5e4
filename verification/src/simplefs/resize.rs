//! Giving a file another extent.
use vstd::prelude::*;

use crate::block::BlockDevice;
use crate::simplefs::create_file::lemma_free_run;
use crate::simplefs::extents::{free_is_rest, is_free, is_owned, list_ok, run_starts_at};
use crate::simplefs::open::block_limit_of;
use crate::simplefs::reach::lemma_all_reached_same;
use crate::simplefs::remove::lemma_shape_ignores_free;
use crate::simplefs::settle::{same_nodes, tree_valid};
use crate::simplefs::state::{TreeView, undo_kept};
use crate::simplefs::tree::{VolumeGeometry, dirs_listed, entry_linked, free_slots_ok, shape_ok, slices_apart};
use crate::simplefs::tree_steps::{lemma_kept_trans, lemma_kept_way_back};
use crate::simplefs::types::OnDiskInode;
use crate::simplefs::validate::{cover_count, dirs_ok, entry_ok, extent_end, extent_ok, extents_apart, live_dir, owns_extent, ref_count, slice_end, slice_names_distinct};
use crate::simplefs::volume::{SimpleFs, geometry_ok};
use crate::vfs::NodeKind;

verus! {

/// Whether two inodes differ in nothing but contents and their place on the device.
pub open spec fn same_node(a: OnDiskInode, b: OnDiskInode) -> bool {
    &&& a.kind == b.kind
    &&& a.deleted == b.deleted
    &&& a.entry_start == b.entry_start
    &&& a.entry_count == b.entry_count
}

/// The tree with inode `x` replaced.
pub open spec fn resized(t: TreeView, x: int, inode: OnDiskInode) -> TreeView {
    TreeView { inodes: t.inodes.update(x, inode), ..t }
}

/// Whether block `b` belongs to an inode's extent.
pub open spec fn owns_block(inode: OnDiskInode, b: int) -> bool {
    owns_extent(inode) && inode.data_block <= b < extent_end(inode)
}

/// Whether an extent keeps clear of every inode but `x`.
pub open spec fn clear_of_others(inodes: Seq<OnDiskInode>, x: int, inode: OnDiskInode) -> bool {
    forall|i: int|
        #![trigger inodes[i]]
        0 <= i < inodes.len() && i != x ==> extents_apart(inodes[i], inode)
}

/// Replacing an extent by a sound one that nothing else uses keeps the tree sound.
pub proof fn lemma_resize_shape(t: TreeView, g: VolumeGeometry, blocks: int, x: int, inode: OnDiskInode)
    requires
        shape_ok(t, g, blocks, None),
        0 <= x < t.inodes.len(),
        same_node(t.inodes[x], inode),
        extent_ok(inode, g.data_block_start as int, blocks),
        clear_of_others(t.inodes, x, inode),
    ensures
        shape_ok(resized(t, x, inode), g, blocks, None),
{
    let n = resized(t, x, inode);
    assert forall|i: int| #![trigger n.inodes[i]] 0 <= i < n.inodes.len() implies same_node(
        t.inodes[i],
        n.inodes[i],
    ) && extent_ok(n.inodes[i], g.data_block_start as int, blocks) by {
        if i != x {
            assert(extent_ok(t.inodes[i], g.data_block_start as int, blocks));
        }
    }
    assert forall|i: int| #![trigger n.inodes[i]] 0 <= i < n.inodes.len() && live_dir(
        n.inodes[i],
    ) implies slice_end(n.inodes[i]) <= n.entries.len() && slice_names_distinct(
        n.entries,
        n.inodes[i].entry_start as int,
        slice_end(n.inodes[i]),
        g.case_sensitive,
    ) by {
        assert(live_dir(t.inodes[i]));
    }
    assert forall|i: int, j: int|
        #![trigger n.inodes[i], n.inodes[j]]
        0 <= i < j < n.inodes.len() implies slices_apart(n.inodes[i], n.inodes[j])
        && extents_apart(n.inodes[i], n.inodes[j]) by {
        assert(slices_apart(t.inodes[i], t.inodes[j]));
        assert(extents_apart(t.inodes[i], t.inodes[j]));
        assert(same_node(t.inodes[i], n.inodes[i]) && same_node(t.inodes[j], n.inodes[j]));
    }
    assert forall|d: int| #![trigger n.entries[d]] 0 <= d < n.entries.len() implies entry_linked(
        n,
        d,
    ) by {
        assert(entry_linked(t, d));
        let c = t.entries[d].inode_index as int;
        assert(same_node(t.inodes[c], n.inodes[c]));
        let p = t.parents[c]->0 as int;
        assert(same_node(t.inodes[p], n.inodes[p]));
    }
    assert forall|i: int| #![trigger n.positions[i]] 0 <= i < n.inodes.len() implies if i == 0
        || n.inodes[i].deleted {
        n.positions[i] is None && n.parents[i] is None
    } else {
        &&& n.positions[i] is Some
        &&& n.positions[i]->0 < n.entries.len()
        &&& n.entries[n.positions[i]->0 as int].inode_index == i
    } by {
        assert(same_node(t.inodes[i], n.inodes[i]));
        assert(n.positions[i] == t.positions[i]);
    }
    assert(dirs_listed(n)) by {
        assert forall|k: int|
            #![trigger n.dirs[k]]
            0 <= k < n.dirs.len() implies n.dirs[k] < n.inodes.len() && live_dir(
            n.inodes[n.dirs[k] as int],
        ) by {
            assert(t.dirs[k] < t.inodes.len());
            assert(same_node(t.inodes[t.dirs[k] as int], n.inodes[t.dirs[k] as int]));
        }
        assert forall|i: int|
            #![trigger n.inodes[i]]
            0 <= i < n.inodes.len() && live_dir(n.inodes[i]) implies n.dirs.contains(
            i as usize,
        ) by {
            assert(live_dir(t.inodes[i]));
        }
    }
    assert(free_slots_ok(n)) by {
        assert forall|k: int|
            #![trigger n.free_slots[k]]
            0 <= k < n.free_slots.len() implies n.free_slots[k] < n.inodes.len()
            && n.inodes[n.free_slots[k] as int].deleted by {
            assert(t.inodes[t.free_slots[k] as int].deleted);
            assert(same_node(
                t.inodes[t.free_slots[k] as int],
                n.inodes[t.free_slots[k] as int],
            ));
        }
    }
}

pub proof fn lemma_cover_count_resized(a: Seq<OnDiskInode>, b: Seq<OnDiskInode>, d: int)
    requires
        a.len() == b.len(),
        forall|i: int| #![trigger b[i]] 0 <= i < a.len() ==> same_node(a[i], b[i]),
    ensures
        cover_count(a, d) == cover_count(b, d),
    decreases a.len(),
{
    if a.len() > 0 {
        assert(same_node(a.last(), b.last()));
        assert forall|i: int|
            #![trigger b.drop_last()[i]]
            0 <= i < a.drop_last().len() implies same_node(a.drop_last()[i], b.drop_last()[i]) by {
            assert(same_node(a[i], b[i]));
        }
        lemma_cover_count_resized(a.drop_last(), b.drop_last(), d);
    }
}

/// Replacing an extent by a sound one that nothing else uses keeps a tree
/// mountable.
pub proof fn lemma_resize_valid<D: BlockDevice>(fs: SimpleFs<D>, x: int, inode: OnDiskInode)
    requires
        tree_valid(fs, fs.state.tree()),
        0 <= x < fs.state.tree().inodes.len(),
        same_node(fs.state.tree().inodes[x], inode),
        extent_ok(
            inode,
            fs.geometry.data_block_start as int,
            (fs.device.image().len() / 512) as int,
        ),
        clear_of_others(fs.state.tree().inodes, x, inode),
    ensures
        tree_valid(fs, resized(fs.state.tree(), x, inode)),
{
    let t = fs.state.tree();
    let n = resized(t, x, inode);
    let start = fs.geometry.data_block_start as int;
    let blocks = (fs.device.image().len() / 512) as int;
    assert forall|i: int| #![trigger n.inodes[i]] 0 <= i < n.inodes.len() implies same_node(
        t.inodes[i],
        n.inodes[i],
    ) && extent_ok(n.inodes[i], start, blocks) by {
        if i != x {
            assert(extent_ok(t.inodes[i], start, blocks));
        }
    }
    assert(same_node(t.inodes[0], n.inodes[0]));
    assert(dirs_ok(n.inodes, n.entries, fs.geometry.case_sensitive));
    assert forall|i: int, j: int|
        #![trigger n.inodes[i], n.inodes[j]]
        0 <= i < j < n.inodes.len() implies extents_apart(n.inodes[i], n.inodes[j]) by {
        assert(extents_apart(t.inodes[i], t.inodes[j]));
    }
    assert forall|d: int|
        #![trigger cover_count(n.inodes, d)]
        0 <= d < n.entries.len() implies cover_count(n.inodes, d) == 1 by {
        assert(cover_count(t.inodes, d) == 1);
        lemma_cover_count_resized(t.inodes, n.inodes, d);
    }
    assert forall|d: int| #![trigger n.entries[d]] 0 <= d < n.entries.len() implies entry_ok(
        n.entries[d],
        n.inodes,
    ) by {
        assert(entry_ok(t.entries[d], t.inodes));
        assert(same_node(
            t.inodes[t.entries[d].inode_index as int],
            n.inodes[t.entries[d].inode_index as int],
        ));
    }
    assert forall|i: int|
        #![trigger ref_count(n.entries, i)]
        1 <= i < n.inodes.len() && !n.inodes[i].deleted implies ref_count(n.entries, i) == 1 by {
        assert(same_node(t.inodes[i], n.inodes[i]));
        assert(ref_count(t.entries, i) == 1);
    }
    lemma_all_reached_same(t.inodes, n.inodes, t.entries);
}

/// Where a free list gives up one extent for another, it is again what the inodes
/// leave.
proof fn lemma_replaced_rest(t: TreeView, n: TreeView, lo: int, hi: int, x: int, inode: OnDiskInode)
    requires
        free_is_rest(t.free, t.inodes, lo, hi),
        0 <= x < t.inodes.len(),
        n.inodes == t.inodes.update(x, inode),
        list_ok(n.free, lo, hi),
        clear_of_others(t.inodes, x, inode),
        clear_of_others(t.inodes, x, t.inodes[x]),
        forall|b: int|
            #![trigger is_free(n.free, b)]
            lo <= b < hi ==> is_free(n.free, b) == ((is_free(t.free, b) || owns_block(
                t.inodes[x],
                b,
            )) && !owns_block(inode, b)),
    ensures
        free_is_rest(n.free, n.inodes, lo, hi),
{
    let old_inode = t.inodes[x];
    assert forall|b: int| #![trigger is_free(n.free, b)] lo <= b < hi implies is_free(n.free, b)
        == !is_owned(n.inodes, b) by {
        assert(is_free(t.free, b) == !is_owned(t.inodes, b));
        if is_owned(n.inodes, b) {
            let i = choose|i: int|
                #![trigger n.inodes[i]]
                0 <= i < n.inodes.len() && owns_extent(n.inodes[i]) && n.inodes[i].data_block <= b
                    < extent_end(n.inodes[i]);
            if i != x {
                assert(n.inodes[i] == t.inodes[i]);
                assert(is_owned(t.inodes, b));
                assert(extents_apart(t.inodes[i], old_inode));
            } else {
                assert(owns_block(inode, b));
            }
        } else {
            if owns_block(inode, b) {
                assert(n.inodes[x] == inode);
                assert(is_owned(n.inodes, b));
            }
            if is_owned(t.inodes, b) {
                let i = choose|i: int|
                    #![trigger t.inodes[i]]
                    0 <= i < t.inodes.len() && owns_extent(t.inodes[i]) && t.inodes[i].data_block
                        <= b < extent_end(t.inodes[i]);
                if i != x {
                    assert(n.inodes[i] == t.inodes[i]);
                    assert(is_owned(n.inodes, b));
                }
                assert(owns_block(old_inode, b));
            }
        }
    }
}

/// Whether an extent grows at its end into free blocks.
pub open spec fn grows(t: TreeView, a: OnDiskInode, b: OnDiskInode) -> bool {
    &&& a.block_count > 0
    &&& b.data_block == a.data_block
    &&& b.block_count > a.block_count
    &&& run_starts_at(t.free, extent_end(a), b.block_count - a.block_count)
}

/// Whether an extent moves to free blocks.
pub open spec fn moves(t: TreeView, b: OnDiskInode) -> bool {
    b.block_count > 0 && run_starts_at(t.free, b.data_block as int, b.block_count as int)
}

/// Whether an extent gives up blocks at its end, if any.
pub open spec fn shrinks(a: OnDiskInode, b: OnDiskInode) -> bool {
    b.block_count <= a.block_count && (b.block_count == 0 || b.data_block == a.data_block)
}

/// An extent that grows, moves or shrinks keeps clear of all others.
pub proof fn lemma_clear(t: TreeView, g: VolumeGeometry, blocks: int, x: int, inode: OnDiskInode)
    requires
        shape_ok(t, g, blocks, None),
        geometry_ok(g),
        free_is_rest(t.free, t.inodes, g.data_block_start as int, g.block_limit as int),
        g.block_limit == block_limit_of(blocks, g.data_block_start as int),
        0 <= x < t.inodes.len(),
        same_node(t.inodes[x], inode),
        grows(t, t.inodes[x], inode) || moves(t, inode) || shrinks(t.inodes[x], inode),
    ensures
        clear_of_others(t.inodes, x, inode),
        clear_of_others(t.inodes, x, t.inodes[x]),
        moves(t, inode) && !shrinks(t.inodes[x], inode) && !grows(t, t.inodes[x], inode) ==>
            forall|b: int| owns_block(inode, b) ==> is_free(t.free, b) && !owns_block(
            t.inodes[x],
            b,
        ),
        grows(t, t.inodes[x], inode) ==> extent_end(inode) <= g.block_limit && g.block_limit
            <= blocks,
        moves(t, inode) ==> extent_end(inode) <= g.block_limit && g.block_limit <= blocks
            && g.data_block_start <= inode.data_block,
{
    let a = t.inodes[x];
    assert forall|i: int| #![trigger t.inodes[i]] 0 <= i < t.inodes.len() && i != x implies extents_apart(
        t.inodes[i],
        a,
    ) by {
        if i < x {
            assert(extents_apart(t.inodes[i], t.inodes[x]));
        } else {
            assert(extents_apart(t.inodes[x], t.inodes[i]));
        }
    }
    if moves(t, inode) {
        lemma_free_run(t, g, blocks, inode.data_block as int, inode.block_count as int);
        assert forall|b: int| owns_block(inode, b) implies is_free(t.free, b) && !owns_block(
            a,
            b,
        ) by {
            assert(is_free(t.free, b) && !is_owned(t.inodes, b));
        }
        assert forall|i: int|
            #![trigger t.inodes[i]]
            0 <= i < t.inodes.len() && i != x implies extents_apart(t.inodes[i], inode) by {
            assert(owns_extent(t.inodes[i]) ==> extent_end(t.inodes[i]) <= inode.data_block
                || extent_end(inode) <= t.inodes[i].data_block);
        }
    } else if grows(t, a, inode) {
        let from = extent_end(a);
        let extra = inode.block_count - a.block_count;
        lemma_free_run(t, g, blocks, from, extra);
        assert forall|i: int|
            #![trigger t.inodes[i]]
            0 <= i < t.inodes.len() && i != x implies extents_apart(t.inodes[i], inode) by {
            assert(extents_apart(t.inodes[i], a));
            if owns_extent(inode) {
                assert(owns_extent(t.inodes[i]) ==> extent_end(t.inodes[i]) <= from || from
                    + extra <= t.inodes[i].data_block);
            }
        }
    } else {
        assert forall|i: int|
            #![trigger t.inodes[i]]
            0 <= i < t.inodes.len() && i != x implies extents_apart(t.inodes[i], inode) by {
            assert(extents_apart(t.inodes[i], a));
        }
    }
}

impl<D: BlockDevice> SimpleFs<D> {
    /// Replaces a file's inode within a transaction, and keeps the free list right.
    pub fn replace_inode(&mut self, index: usize, inode: OnDiskInode)
        requires
            old(self).txn_ok(),
            index < old(self).state.tree().inodes.len(),
            same_node(old(self).state.tree().inodes[index as int], inode),
            !inode.deleted,
            inode.kind != NodeKind::Directory,
            extent_ok(
                inode,
                old(self).geometry.data_block_start as int,
                (old(self).device.image().len() / 512) as int,
            ),
            grows(
                old(self).state.tree(),
                old(self).state.tree().inodes[index as int],
                inode,
            ) || moves(old(self).state.tree(), inode) || shrinks(
                old(self).state.tree().inodes[index as int],
                inode,
            ),
        ensures
            final(self).txn_ok(),
            final(self).geometry == old(self).geometry,
            final(self).device == old(self).device,
            final(self).state.rest() == old(self).state.rest(),
            undo_kept(old(self).state, final(self).state),
            same_nodes(
                resized(old(self).state.tree(), index as int, inode),
                final(self).state.tree(),
            ),
    {
        let ghost t = self.state.tree();
        let ghost g = self.geometry;
        let ghost blocks = (self.device.image().len() / 512) as int;
        let old_inode = self.state.inodes[index];
        assert(old_inode == t.inodes[index as int]);
        proof {
            lemma_clear(t, g, blocks, index as int, inode);
            lemma_resize_shape(t, g, blocks, index as int, inode);
            assert(extent_ok(old_inode, g.data_block_start as int, blocks));
        }
        self.state.set_inode(index, inode);
        let ghost mid = self.state;
        assert(mid.tree() == resized(t, index as int, inode));
        let start: u64 = old_inode.data_block as u64;
        let count: u64 = old_inode.block_count as u64;
        let new_start: u64 = inode.data_block as u64;
        let new_count: u64 = inode.block_count as u64;
        if new_count <= count && (new_count == 0 || new_start == start) {
            proof {
                assert forall|b: int|
                    start + new_count <= b < start + count implies !is_free(t.free, b) by {
                    if g.data_block_start <= b < g.block_limit {
                        assert(owns_block(old_inode, b));
                        assert(is_owned(t.inodes, b));
                    }
                }
            }
            self.geometry.give_blocks(&mut self.state, start + new_count, count - new_count);
        } else if count > 0 && new_start == start {
            assert(grows(t, old_inode, inode) || moves(t, inode));
            assert(grows(t, old_inode, inode)) by {
                if moves(t, inode) && !grows(t, old_inode, inode) {
                    assert(owns_block(inode, new_start as int));
                    assert(owns_block(old_inode, new_start as int));
                }
            }
            self.geometry.take_blocks(&mut self.state, start + count, new_count - count);
        } else {
            self.geometry.take_blocks(&mut self.state, new_start, new_count);
            let ghost taken = self.state;
            proof {
                assert forall|b: int| start <= b < start + count implies !is_free(
                    taken.tree().free,
                    b,
                ) by {
                    if g.data_block_start <= b < g.block_limit {
                        assert(owns_block(old_inode, b));
                        assert(is_owned(t.inodes, b));
                    }
                    assert(is_free(taken.tree().free, b) ==> is_free(t.free, b));
                }
            }
            self.geometry.give_blocks(&mut self.state, start, count);
            proof {
                lemma_kept_trans(mid, taken, self.state);
            }
        }
        proof {
            let n = self.state.tree();
            lemma_kept_trans(old(self).state, mid, self.state);
            lemma_kept_way_back(old(self).state, self.state);
            lemma_shape_ignores_free(mid.tree(), n, g, blocks, None);
            lemma_replaced_rest(
                t,
                n,
                g.data_block_start as int,
                g.block_limit as int,
                index as int,
                inode,
            );
        }
    }
}

} // verus!
