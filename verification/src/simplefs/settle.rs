//! Ending a transaction: make it durable, or take it back.
use vstd::prelude::*;

use crate::block::BlockDevice;
use crate::error::{Error, Result};
use crate::simplefs::commit::writable;
use crate::simplefs::names::name_ok;
use crate::simplefs::state::{RestView, TreeView, undo_ok};
use crate::simplefs::superblock::record_valid;
use crate::simplefs::tree::{VolumeGeometry, entry_linked, shape_ok};
use crate::simplefs::validate::metadata_valid;
use crate::simplefs::volume::{SimpleFs, commit_failed, committed, rest_committed, same_device, slot_differs_only, slot_on_device};

verus! {

/// Whether two trees agree in everything but the list of free blocks.
pub open spec fn same_nodes(a: TreeView, b: TreeView) -> bool {
    b == (TreeView { free: b.free, ..a })
}

/// Whether a tree could be mounted from a volume of this size.
pub open spec fn tree_valid<D: BlockDevice>(fs: SimpleFs<D>, t: TreeView) -> bool {
    metadata_valid(
        t.inodes,
        t.entries,
        fs.geometry.data_block_start as int,
        (fs.device.image().len() / 512) as int,
        fs.geometry.case_sensitive,
    )
}

/// Whether nothing about the device or the generation stands in a commit's way.
pub open spec fn commit_owed<D: BlockDevice>(fs: SimpleFs<D>) -> bool {
    &&& fs.state.generation < u32::MAX
    &&& writable(fs.device)
    &&& slot_on_device(fs.state.shadow, fs.geometry, fs.device.image().len())
}

/// Whether nothing a mounted volume shows has changed: only the device's spare
/// metadata may have been written to.
pub open spec fn unchanged<D: BlockDevice>(a: SimpleFs<D>, b: SimpleFs<D>) -> bool {
    &&& b.geometry == a.geometry
    &&& b.state.tree() == a.state.tree()
    &&& b.state.rest() == a.state.rest()
    &&& same_device(a.device, b.device)
}

/// How a transaction ends that brought the tree of `a` to `n` and the device's
/// data to `data`: committed, or taken back as a whole. A commit that failed left its
/// writes up to the one that failed.
pub open spec fn settled<D: BlockDevice, T>(
    a: SimpleFs<D>,
    data: Seq<u8>,
    n: TreeView,
    b: SimpleFs<D>,
    r: core::result::Result<T, Error>,
) -> bool {
    &&& b.geometry == a.geometry
    &&& same_device(a.device, b.device)
    &&& slot_differs_only(data, b.device.image(), a.state.shadow, a.geometry)
    &&& match r {
        Ok(_) => {
            &&& tree_valid(a, n)
            &&& a.state.generation < u32::MAX
            &&& same_nodes(n, b.state.tree())
            &&& b.state.rest() == rest_committed(a.state.rest())
            &&& committed(data, b.device.image(), a.geometry, b.state.tree(), a.state.rest())
        },
        Err(e) => {
            &&& unchanged(a, b)
            &&& commit_failed(
                data,
                b.device.image(),
                a.geometry,
                a.state.tree(),
                n,
                a.state.rest(),
            )
            &&& !tree_valid(a, n) ==> e == Error::InternalError
            &&& tree_valid(a, n) && a.state.generation == u32::MAX ==> e == Error::InvalidArgument
        },
    }
    &&& tree_valid(a, n) && commit_owed(a) ==> r is Ok
}

/// The record's layout is as sound after a commit as before it.
pub proof fn lemma_layout_swaps(g: VolumeGeometry, t: TreeView, n: TreeView, r: RestView)
    requires
        record_valid(g.record_of(t, r)),
    ensures
        record_valid(g.record_of(n, r)),
        record_valid(g.record_of(n, rest_committed(r))),
{
}

/// Names of a sound tree fit their records.
pub proof fn lemma_shape_fits(t: TreeView, g: VolumeGeometry, blocks: int)
    requires
        shape_ok(t, g, blocks, None),
        t.xattrs.len() <= g.xattr_capacity,
    ensures
        g.tables_fit(t),
{
    assert forall|d: int| #![trigger t.entries[d]] 0 <= d < t.entries.len() implies name_ok(
        t.entries[d].name,
    ) by {
        assert(entry_linked(t, d));
    }
}

impl<D: BlockDevice> SimpleFs<D> {
    /// Ends a transaction: takes it back where a step failed, commits it otherwise.
    pub fn settle<T>(&mut self, outcome: Result<T>, Ghost(a): Ghost<SimpleFs<D>>) -> (r: Result<T>)
        requires
            a.wf(),
            old(self).geometry == a.geometry,
            old(self).state.rest() == a.state.rest(),
            same_device(a.device, old(self).device),
            undo_ok(old(self).state.tree(), old(self).state.undo@, a.state.tree()),
            outcome is Ok ==> old(self).txn_ok(),
        ensures
            final(self).wf(),
            match outcome {
                Err(e) => {
                    &&& r == Err::<T, Error>(e)
                    &&& final(self).device == old(self).device
                    &&& unchanged(a, *final(self))
                },
                Ok(v) => {
                    &&& r matches Ok(w) ==> w == v
                    &&& settled(
                        a,
                        old(self).device.image(),
                        old(self).state.tree(),
                        *final(self),
                        r,
                    )
                },
            },
    {
        let value = match outcome {
            Ok(value) => value,
            Err(error) => {
                self.state.rollback_undo();
                return Err(error);
            },
        };
        let ghost t = self.state.tree();
        let ghost blocks = (self.device.image().len() / 512) as int;
        proof {
            lemma_shape_fits(t, self.geometry, blocks);
            lemma_layout_swaps(a.geometry, a.state.tree(), t, a.state.rest());
            assert(self.runtime_valid() == tree_valid(a, t));
        }
        match self.finish_commit() {
            Ok(()) => Ok(value),
            Err(error) => Err(error),
        }
    }
}

} // verus!
