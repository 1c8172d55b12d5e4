//! Changing file contents.
use vstd::prelude::*;

use crate::block::BlockDevice;
use crate::bytes::{put, zero_vec, zeros};
use crate::error::{Error, Result};
use crate::simplefs::commit::writable;
use crate::simplefs::create::{best_start, find_free_run};
use crate::simplefs::create_file::lemma_free_run;
use crate::simplefs::extents::{Extent, best_fit, is_owned, run_starts_at};
use crate::simplefs::names::block_span;
use crate::simplefs::ops::refused;
use crate::simplefs::resize::{grows, lemma_clear, lemma_resize_valid, moves, resized, same_node, shrinks};
use crate::simplefs::settle::{commit_owed, same_nodes, unchanged};
use crate::simplefs::state::TreeView;
use crate::simplefs::types::OnDiskInode;
use crate::simplefs::validate::{extent_end, extent_ok};
use crate::simplefs::volume::{SimpleFs, cached_read_blocks, commit_failed, committed, in_metadata_slot, rest_committed, same_device, same_outside, slot_differs_only, write_blocks_cached};
use crate::vfs::NodeKind;

verus! {

/// How changing one file ends. On success the inode is `inode`, the device's data is
/// `data` and the change is committed; on failure the tree is as it was, and beside
/// spare metadata only bytes `lo..hi` of the device may differ: either no commit was begun,
/// or the device holds `data` and the writes of a commit up to one that failed. The latter
/// holds of a device that fails no transfer, unless it is as it was.
pub open spec fn file_settled<D: BlockDevice, T>(
    a: SimpleFs<D>,
    b: SimpleFs<D>,
    x: int,
    inode: OnDiskInode,
    data: Seq<u8>,
    lo: int,
    hi: int,
    r: core::result::Result<T, Error>,
) -> bool {
    &&& b.geometry == a.geometry
    &&& same_device(a.device, b.device)
    &&& match r {
        Ok(_) => {
            &&& a.state.generation < u32::MAX
            &&& same_nodes(resized(a.state.tree(), x, inode), b.state.tree())
            &&& b.state.rest() == rest_committed(a.state.rest())
            &&& committed(data, b.device.image(), a.geometry, b.state.tree(), a.state.rest())
            &&& slot_differs_only(data, b.device.image(), a.state.shadow, a.geometry)
        },
        Err(_) => {
            &&& unchanged(a, b)
            &&& forall|i: int|
                #![trigger b.device.image()[i]]
                0 <= i < a.device.image().len() && !(lo <= i < hi) && !in_metadata_slot(
                    i,
                    a.state.shadow,
                    a.geometry,
                ) ==> b.device.image()[i] == a.device.image()[i]
            &&& same_outside(a.device.image(), b.device.image(), lo, hi) || file_cut_off(
                a,
                b,
                x,
                inode,
                data,
            )
            &&& steady(a.device) ==> b.device.image() == a.device.image() || file_cut_off(
                a,
                b,
                x,
                inode,
                data,
            )
        },
    }
}

/// Whether a change to one file failed in its commit, with its data written.
pub open spec fn file_cut_off<D: BlockDevice>(
    a: SimpleFs<D>,
    b: SimpleFs<D>,
    x: int,
    inode: OnDiskInode,
    data: Seq<u8>,
) -> bool {
    &&& slot_differs_only(data, b.device.image(), a.state.shadow, a.geometry)
    &&& commit_failed(
        data,
        b.device.image(),
        a.geometry,
        a.state.tree(),
        resized(a.state.tree(), x, inode),
        a.state.rest(),
    )
}

/// Whether a device takes writes, and fails none that it has room for as long as it has not
/// failed for good.
pub open spec fn steady<D: BlockDevice>(device: D) -> bool {
    device.reliable() && !device.write_protected()
}

/// Where a file of `inode` finds room for `required` blocks: at its end where the
/// blocks after it are free, else in the smallest free run that is large enough.
pub open spec fn grow_place(t: TreeView, device_blocks: int, inode: OnDiskInode, required: int) ->
    core::result::Result<int, Error> {
    if inode.block_count > 0 && run_starts_at(
        t.free,
        extent_end(inode),
        required - inode.block_count,
    ) && inode.data_block + required <= device_blocks {
        Ok(inode.data_block as int)
    } else {
        match best_start(t.free, required) {
            Some(start) => Ok(start),
            None => Err(Error::OutOfMemory),
        }
    }
}

/// The blocks a file owns, as an image holds them.
pub open spec fn held_blocks(image: Seq<u8>, inode: OnDiskInode) -> Seq<u8> {
    if inode.block_count == 0 {
        Seq::empty()
    } else {
        image.subrange(inode.data_block * 512, extent_end(inode) * 512)
    }
}

/// The device's data after a file got `required` blocks from `start` on: its blocks
/// as they were, and zeros after them.
pub open spec fn grown_data(image: Seq<u8>, inode: OnDiskInode, start: int, required: int) -> Seq<
    u8,
> {
    let extra = zeros(((required - inode.block_count) * 512) as nat);
    if inode.block_count > 0 && start == inode.data_block {
        put(image, extent_end(inode) * 512, extra)
    } else {
        put(image, start * 512, held_blocks(image, inode) + extra)
    }
}

/// Why the contents of inode `x` cannot be changed, if they cannot.
pub open spec fn file_fault(t: TreeView, x: int) -> Option<Error> {
    if x >= t.inodes.len() {
        Some(Error::InternalError)
    } else if t.inodes[x].deleted {
        Some(Error::NotFound)
    } else if t.inodes[x].kind != NodeKind::File {
        Some(Error::InvalidArgument)
    } else {
        None
    }
}

/// What making room for `len` bytes in a file does, and what it answers.
pub open spec fn capacity_step<D: BlockDevice>(
    a: SimpleFs<D>,
    b: SimpleFs<D>,
    x: int,
    len: int,
    r: core::result::Result<OnDiskInode, Error>,
) -> bool {
    let t = a.state.tree();
    let inode = t.inodes[x];
    let required = block_span(len);
    match file_fault(t, x) {
        Some(e) => refused(a, b, r, e),
        None => if required <= inode.block_count {
            r == Ok::<OnDiskInode, Error>(inode) && b == a
        } else if required * 512 > usize::MAX {
            refused(a, b, r, Error::OutOfMemory)
        } else {
            match grow_place(t, (a.device.image().len() / 512) as int, inode, required) {
                Err(e) => refused(a, b, r, e),
                Ok(start) => {
                    let grown = OnDiskInode {
                        data_block: start as u32,
                        block_count: required as u32,
                        ..inode
                    };
                    &&& r matches Ok(i) ==> i == grown
                    &&& file_settled(
                        a,
                        b,
                        x,
                        grown,
                        grown_data(a.device.image(), inode, start, required),
                        if inode.block_count > 0 && start == inode.data_block {
                            extent_end(inode) * 512
                        } else {
                            start * 512
                        },
                        (start + required) * 512,
                        r,
                    )
                    &&& commit_owed(a) ==> r is Ok
                },
            }
        },
    }
}

/// Whether a run starts at `start` and has room for `count` blocks.
fn has_run_at(list: &Vec<Extent>, start: u64, count: u64) -> (r: bool)
    ensures
        r == run_starts_at(list@, start as int, count as int),
{
    let mut k: usize = 0;
    while k < list.len()
        invariant
            k <= list@.len(),
            forall|j: int|
                #![trigger list@[j]]
                0 <= j < k ==> !(list@[j].start == start && list@[j].count >= count),
        decreases list@.len() - k,
    {
        if list[k].start == start && list[k].count >= count {
            assert(list@[k as int].start == start);
            return true;
        }
        k = k + 1;
    }
    false
}

impl<D: BlockDevice> SimpleFs<D> {
    /// Where a file finds room for `required` blocks.
    pub fn find_free_data_block_span(&self, inode: OnDiskInode, required: u64) -> (r: Result<u64>)
        requires
            self.wf(),
            required > inode.block_count,
        ensures
            match r {
                Ok(start) => grow_place(
                    self.state.tree(),
                    (self.device.image().len() / 512) as int,
                    inode,
                    required as int,
                ) == Ok::<int, Error>(start as int),
                Err(e) => grow_place(
                    self.state.tree(),
                    (self.device.image().len() / 512) as int,
                    inode,
                    required as int,
                ) == Err::<int, Error>(e),
            },
    {
        assert(self.state.tree().free == self.state.free_data_extents@);
        let start: u64 = inode.data_block as u64;
        let count: u64 = inode.block_count as u64;
        let total: u64 = self.device.block_count();
        if count > 0 && has_run_at(&self.state.free_data_extents, start + count, required - count)
            && required <= total && start <= total - required {
            return Ok(start);
        }
        find_free_run(&self.state.free_data_extents, required)
    }
}

/// Whether a volume differs from `a` in nothing but what its device holds.
pub open spec fn only_device_differs<D: BlockDevice>(a: SimpleFs<D>, b: SimpleFs<D>) -> bool {
    b.geometry == a.geometry && b.state == a.state && same_device(a.device, b.device)
}

/// Whether inode `x` of a mounted volume may become `inode`.
pub open spec fn replaceable<D: BlockDevice>(fs: SimpleFs<D>, x: int, inode: OnDiskInode) -> bool {
    let t = fs.state.tree();
    &&& 0 <= x < t.inodes.len()
    &&& same_node(t.inodes[x], inode)
    &&& !inode.deleted
    &&& inode.kind != NodeKind::Directory
    &&& extent_ok(
        inode,
        fs.geometry.data_block_start as int,
        (fs.device.image().len() / 512) as int,
    )
    &&& grows(t, t.inodes[x], inode) || moves(t, inode) || shrinks(t.inodes[x], inode)
}

impl<D: BlockDevice> SimpleFs<D> {
    /// Commits a file's new inode once its data is on the device.
    pub fn commit_file(&mut self, index: usize, inode: OnDiskInode, Ghost(a): Ghost<SimpleFs<D>>) -> (r:
        Result<()>)
        requires
            a.wf(),
            only_device_differs(a, *old(self)),
            replaceable(a, index as int, inode),
        ensures
            final(self).wf(),
            final(self).geometry == a.geometry,
            same_device(a.device, final(self).device),
            slot_differs_only(
                old(self).device.image(),
                final(self).device.image(),
                a.state.shadow,
                a.geometry,
            ),
            r is Ok ==> {
                &&& a.state.generation < u32::MAX
                &&& same_nodes(resized(a.state.tree(), index as int, inode), final(self).state.tree())
                &&& final(self).state.rest() == rest_committed(a.state.rest())
                &&& committed(
                    old(self).device.image(),
                    final(self).device.image(),
                    a.geometry,
                    final(self).state.tree(),
                    a.state.rest(),
                )
            },
            r is Err ==> unchanged(a, *final(self)) && file_cut_off(
                a,
                *final(self),
                index as int,
                inode,
                old(self).device.image(),
            ),
            commit_owed(a) ==> r is Ok,
    {
        proof {
            let t = a.state.tree();
            let blocks = (a.device.image().len() / 512) as int;
            lemma_clear(t, a.geometry, blocks, index as int, inode);
            lemma_resize_valid(a, index as int, inode);
        }
        self.begin();
        self.replace_inode(index, inode);
        self.settle(Ok(()), Ghost(a))
    }

    /// Puts a file's blocks where they are to be, with zeros after them.
    fn write_grown(&mut self, inode: OnDiskInode, start: u64, required: u64) -> (r: Result<()>)
        requires
            inode.block_count < required,
            start + required <= old(self).device.image().len() / 512,
            inode.block_count > 0 ==> extent_end(inode) <= old(self).device.image().len() / 512,
            required * 512 <= usize::MAX,
        ensures
            only_device_differs(*old(self), *final(self)),
            r is Ok ==> final(self).device.image() == grown_data(
                old(self).device.image(),
                inode,
                start as int,
                required as int,
            ),
            r is Err ==> same_outside(
                old(self).device.image(),
                final(self).device.image(),
                if inode.block_count > 0 && start == inode.data_block {
                    extent_end(inode) * 512
                } else {
                    start * 512
                },
                (start + required) * 512,
            ),
            r is Err && steady(old(self).device) ==> final(self).device.image() == old(
                self,
            ).device.image(),
            writable(old(self).device) ==> r is Ok,
    {
        let current: u64 = inode.block_count as u64;
        if current > 0 && start == inode.data_block as u64 {
            let zeroed = zero_vec(((required - current) * 512) as usize);
            let end: u64 = start + current;
            proof {
                if writable(self.device) {
                    self.device.lemma_reliable_write(end as int, zeroed@);
                }
            }
            write_blocks_cached(&mut self.device, end, zeroed.as_slice())
        } else {
            let mut relocated: Vec<u8> = Vec::new();
            if current > 0 {
                proof {
                    if writable(self.device) {
                        self.device.lemma_reliable_read(inode.data_block as int, current * 512);
                    }
                }
                relocated = cached_read_blocks(
                    &self.device,
                    inode.data_block as u64,
                    (current * 512) as usize,
                )?;
            }
            assert(relocated@ =~= held_blocks(self.device.image(), inode));
            let mut rest = zero_vec(((required - current) * 512) as usize);
            relocated.append(&mut rest);
            proof {
                if writable(self.device) {
                    self.device.lemma_reliable_write(start as int, relocated@);
                }
            }
            write_blocks_cached(&mut self.device, start, relocated.as_slice())
        }
    }

    /// Makes room for `required_len` bytes in a file.
    pub fn ensure_file_capacity(&mut self, inode_index: usize, required_len: u64) -> (r: Result<
        OnDiskInode,
    >)
        requires
            old(self).wf(),
            required_len <= u32::MAX,
        ensures
            final(self).wf(),
            capacity_step(*old(self), *final(self), inode_index as int, required_len as int, r),
    {
        let ghost a = *self;
        let ghost t = self.state.tree();
        let ghost g = self.geometry;
        let ghost blocks = (self.device.image().len() / 512) as int;
        if inode_index >= self.state.inodes.len() {
            return Err(Error::InternalError);
        }
        let inode = self.state.inodes[inode_index];
        if inode.deleted {
            return Err(Error::NotFound);
        }
        if !matches!(inode.kind, NodeKind::File) {
            return Err(Error::InvalidArgument);
        }
        assert(inode == t.inodes[inode_index as int]);
        let current: u64 = inode.block_count as u64;
        let required: u64 = (required_len + 511) / 512;
        if required <= current {
            return Ok(inode);
        }
        if required * 512 > usize::MAX as u64 {
            return Err(Error::OutOfMemory);
        }
        let start: u64 = self.find_free_data_block_span(inode, required)?;
        proof {
            assert(extent_ok(inode, g.data_block_start as int, blocks));
            if !(inode.block_count > 0 && run_starts_at(
                t.free,
                extent_end(inode),
                required - inode.block_count,
            ) && inode.data_block + required <= blocks) {
                lemma_best_start(t.free, required as int);
                lemma_free_run(t, g, blocks, start as int, required as int);
            }
        }
        let mut grown = inode;
        grown.data_block = start as u32;
        grown.block_count = required as u32;
        let in_place: bool = current > 0 && start == inode.data_block as u64;
        proof {
            if in_place && !grows(t, inode, grown) {
                assert(is_owned(t.inodes, start as int));
            }
            lemma_clear(t, g, blocks, inode_index as int, grown);
        }
        assert(replaceable(a, inode_index as int, grown));
        self.write_grown(inode, start, required)?;
        match self.commit_file(inode_index, grown, Ghost(a)) {
            Ok(()) => Ok(grown),
            Err(error) => Err(error),
        }
    }
}

/// A best-fit search ends at a run that is large enough.
pub proof fn lemma_best_start(list: Seq<Extent>, required: int)
    ensures
        best_start(list, required) matches Some(s) ==> run_starts_at(list, s, required),
{
    if exists|k: int| #![trigger list[k]] best_fit(list, required, k) {
        let k = choose|k: int| #![trigger list[k]] best_fit(list, required, k);
        assert(list[k].count >= required);
    }
}

} // verus!
