//! Creating files and symlinks: nodes that may own data blocks.
use vstd::prelude::*;
use vstd::string::*;
use vstd::utf8::encode_utf8;

use crate::block::{BLOCK_SIZE, BlockDevice};
use crate::bytes::{get_u32, put, u32_at, write_bytes, zero_vec, zeros};
use crate::error::{Error, Result};
use crate::simplefs::constants::{INITIAL_FILE_BLOCKS, MAX_INLINE_SYMLINK_LEN};
use crate::simplefs::create::{after_create, best_start, create_parent, find_free_run, initial_security, lemma_create_owner, lemma_create_owns, lemma_name_is_new, make_initial_security, path_nameable};
use crate::simplefs::extents::{free_is_rest, in_run, is_free, is_owned, list_ok, run_end, run_starts_at};
use crate::simplefs::inode_slots::{alloc_index, inode_fits};
use crate::simplefs::names::{base_name, base_text};
use crate::simplefs::open::block_limit_of;
use crate::simplefs::state::{TreeView, undo_kept};
use crate::simplefs::tree::{VolumeGeometry, shape_ok};
use crate::simplefs::tree_steps::{lemma_kept_trans, lemma_kept_way_back};
use crate::simplefs::types::OnDiskInode;
use crate::simplefs::validate::{extent_end, owns_extent};
use crate::simplefs::volume::{SimpleFs, geometry_ok, same_device, same_outside, volume_write_fault, write_blocks_cached};
use crate::vfs::{DEFAULT_FILE_MODE, NodeKind, SecurityDescriptor};

verus! {

/// A new file's inode.
pub open spec fn new_file_inode(
    t: TreeView,
    g: VolumeGeometry,
    parent: int,
    security: Option<SecurityDescriptor>,
    block: int,
) -> OnDiskInode {
    OnDiskInode {
        kind: NodeKind::File,
        deleted: false,
        entry_start: 0,
        entry_count: 0,
        data_block: block as u32,
        block_count: INITIAL_FILE_BLOCKS,
        size: 0,
        persistent_security: initial_security(
            g.format_version,
            t.inodes[parent],
            security,
            DEFAULT_FILE_MODE,
        ),
        data_checksum: 0,
        compressed: false,
        deduped: false,
    }
}

/// What creating a file comes to before anything is written: its parent and its
/// first block, or why not.
pub open spec fn create_file_plan(
    t: TreeView,
    g: VolumeGeometry,
    path: Seq<char>,
) -> core::result::Result<(int, int), Error> {
    match create_parent(t, g, path) {
        Err(e) => Err(e),
        Ok(p) => match best_start(t.free, INITIAL_FILE_BLOCKS as int) {
            None => Err(Error::OutOfMemory),
            Some(b) => Ok((p, b)),
        },
    }
}

/// The target bytes of a short symlink, padded to the room an inode has for them.
pub open spec fn inline_target(target: Seq<u8>) -> Seq<u8> {
    target + zeros((MAX_INLINE_SYMLINK_LEN - target.len()) as nat)
}

/// A new symlink's inode. Short targets live in the inode, longer ones in `block`.
pub open spec fn new_symlink_inode(
    t: TreeView,
    g: VolumeGeometry,
    parent: int,
    target: Seq<u8>,
    block: int,
) -> OnDiskInode {
    let short = target.len() <= MAX_INLINE_SYMLINK_LEN;
    let packed = inline_target(target);
    OnDiskInode {
        kind: NodeKind::Symlink,
        deleted: false,
        entry_start: if short {
            u32_at(packed, 0)
        } else {
            0
        },
        entry_count: if short {
            u32_at(packed, 4)
        } else {
            0
        },
        data_block: if short {
            u32_at(packed, 8)
        } else {
            block as u32
        },
        block_count: if short {
            0
        } else {
            1
        },
        size: target.len() as u32,
        persistent_security: initial_security(
            g.format_version,
            t.inodes[parent],
            None,
            DEFAULT_FILE_MODE,
        ),
        data_checksum: 0,
        compressed: false,
        deduped: false,
    }
}

/// What creating a symlink comes to before anything is written: its parent and,
/// for a long target, its block.
pub open spec fn create_symlink_plan(
    t: TreeView,
    g: VolumeGeometry,
    target: Seq<u8>,
    path: Seq<char>,
) -> core::result::Result<(int, int), Error> {
    match create_parent(t, g, path) {
        Err(e) => Err(e),
        Ok(p) => if target.len() <= MAX_INLINE_SYMLINK_LEN {
            Ok((p, 0))
        } else {
            match best_start(t.free, 1) {
                None => Err(Error::OutOfMemory),
                Some(b) => Ok((p, b)),
            }
        },
    }
}

/// A free run lies in the data area, and no inode owns a block of it.
pub proof fn lemma_free_run(
    t: TreeView,
    g: VolumeGeometry,
    blocks: int,
    start: int,
    count: int,
)
    requires
        shape_ok(t, g, blocks, None),
        free_is_rest(t.free, t.inodes, g.data_block_start as int, g.block_limit as int),
        g.block_limit == block_limit_of(blocks, g.data_block_start as int),
        geometry_ok(g),
        run_starts_at(t.free, start, count),
        count > 0,
    ensures
        g.data_block_start <= start,
        start + count <= g.block_limit <= blocks,
        start + count <= 0x1_0000_0000,
        forall|b: int| start <= b < start + count ==> is_free(t.free, b) && !is_owned(t.inodes, b),
        forall|i: int|
            #![trigger t.inodes[i]]
            0 <= i < t.inodes.len() && owns_extent(t.inodes[i]) ==> extent_end(t.inodes[i])
                <= start || start + count <= t.inodes[i].data_block,
{
    let k = choose|k: int|
        #![trigger t.free[k]]
        0 <= k < t.free.len() && t.free[k].start == start && t.free[k].count >= count;
    assert(run_end(t.free[k]) <= g.block_limit);
    assert forall|b: int| start <= b < start + count implies is_free(t.free, b) && !is_owned(
        t.inodes,
        b,
    ) by {
        assert(in_run(t.free[k], b));
    }
    assert forall|i: int|
        #![trigger t.inodes[i]]
        0 <= i < t.inodes.len() && owns_extent(t.inodes[i]) implies extent_end(t.inodes[i])
        <= start || start + count <= t.inodes[i].data_block by {
        let inode = t.inodes[i];
        if extent_end(inode) > start && start + count > inode.data_block {
            let b = if inode.data_block >= start {
                inode.data_block as int
            } else {
                start
            };
            assert(is_owned(t.inodes, b));
        }
    }
}

impl<D: BlockDevice> SimpleFs<D> {
    /// Creates a file within a transaction: takes a block, clears it, and puts the
    /// node in place.
    pub fn create_file_locked(&mut self, path: &str, security: Option<SecurityDescriptor>) -> (r:
        Result<usize>)
        requires
            old(self).txn_ok(),
            path_nameable(path@),
        ensures
            final(self).geometry == old(self).geometry,
            same_device(old(self).device, final(self).device),
            final(self).txn_ok(),
            undo_kept(old(self).state, final(self).state),
            final(self).state.rest() == old(self).state.rest(),
            match create_file_plan(old(self).state.tree(), old(self).geometry, path@) {
                Err(e) => r == Err::<usize, Error>(e) && *final(self) == *old(self),
                Ok((parent, block)) => match volume_write_fault(
                    old(self).device,
                    block,
                    zeros(512),
                ) {
                    Some(e) => r == Err::<usize, Error>(e) && final(self).state == old(self).state
                        && same_outside(
                        old(self).device.image(),
                        final(self).device.image(),
                        block * 512,
                        block * 512 + 512,
                    ),
                    None => {
                        &&& r == Ok::<usize, Error>(alloc_index(old(self).state.tree()) as usize)
                        &&& final(self).device.image() == put(
                            old(self).device.image(),
                            block * 512,
                            zeros(512),
                        )
                        &&& final(self).state.tree() == (TreeView {
                            free: final(self).state.tree().free,
                            ..after_create(
                                old(self).state.tree(),
                                parent,
                                new_file_inode(
                                    old(self).state.tree(),
                                    old(self).geometry,
                                    parent,
                                    security,
                                    block,
                                ),
                                base_text(path@),
                            )
                        })
                    },
                },
            },
    {
        let ghost blocks = (self.device.image().len() / 512) as int;
        let ghost t = self.state.tree();
        let ghost g = self.geometry;
        let parent_index = self.geometry.find_create_parent(&self.state, Ghost(blocks), path)?;
        proof {
            lemma_name_is_new(t, g, blocks, path@, parent_index as int);
        }
        let parent_inode = self.state.inodes[parent_index];
        let block = find_free_run(&self.state.free_data_extents, INITIAL_FILE_BLOCKS as u64)?;
        proof {
            lemma_free_run(t, g, blocks, block as int, 1);
        }
        let zeroed = zero_vec(BLOCK_SIZE);
        write_blocks_cached(&mut self.device, block, zeroed.as_slice())?;
        let inode = OnDiskInode {
            kind: NodeKind::File,
            deleted: false,
            entry_start: 0,
            entry_count: 0,
            data_block: block as u32,
            block_count: INITIAL_FILE_BLOCKS,
            size: 0,
            persistent_security: make_initial_security(
                self.geometry.format_version,
                parent_inode,
                security,
                DEFAULT_FILE_MODE,
            ),
            data_checksum: 0,
            compressed: false,
            deduped: false,
        };
        assert(inode_fits(t, g, blocks, inode));
        let index = self.geometry.add_node(
            &mut self.state,
            Ghost(blocks),
            parent_index,
            inode,
            base_name(path),
        )?;
        let ghost mid = self.state;
        self.geometry.take_blocks(&mut self.state, block, INITIAL_FILE_BLOCKS as u64);
        proof {
            lemma_kept_trans(old(self).state, mid, self.state);
            lemma_kept_way_back(old(self).state, self.state);
            lemma_taken_rest(t, mid.tree(), self.state.tree(), g, blocks, parent_index as int, inode, base_text(path@));
            assert(self.state.tree().inodes == mid.tree().inodes);
        }
        Ok(index)
    }

    /// Creates a symlink within a transaction.
    pub fn create_symlink_locked(&mut self, target: &str, path: &str) -> (r: Result<usize>)
        requires
            old(self).txn_ok(),
            path_nameable(path@),
            target@.len() > 0,
            create_symlink_plan(
                old(self).state.tree(),
                old(self).geometry,
                encode_utf8(target@),
                path@,
            ) is Ok ==> encode_utf8(target@).len() <= 512,
        ensures
            final(self).geometry == old(self).geometry,
            same_device(old(self).device, final(self).device),
            final(self).txn_ok(),
            undo_kept(old(self).state, final(self).state),
            final(self).state.rest() == old(self).state.rest(),
            match create_symlink_plan(
                old(self).state.tree(),
                old(self).geometry,
                encode_utf8(target@),
                path@,
            ) {
                Err(e) => r == Err::<usize, Error>(e) && *final(self) == *old(self),
                Ok((parent, block)) => {
                    let bytes = encode_utf8(target@);
                    let long = bytes.len() > MAX_INLINE_SYMLINK_LEN;
                    let data = bytes + zeros((512 - bytes.len()) as nat);
                    if long && volume_write_fault(old(self).device, block, data) is Some {
                        &&& r == Err::<usize, Error>(
                            volume_write_fault(old(self).device, block, data)->0,
                        )
                        &&& final(self).state == old(self).state
                        &&& same_outside(
                            old(self).device.image(),
                            final(self).device.image(),
                            block * 512,
                            block * 512 + 512,
                        )
                    } else {
                        &&& r == Ok::<usize, Error>(alloc_index(old(self).state.tree()) as usize)
                        &&& final(self).device.image() == if long {
                            put(old(self).device.image(), block * 512, data)
                        } else {
                            old(self).device.image()
                        }
                        &&& final(self).state.tree() == (TreeView {
                            free: final(self).state.tree().free,
                            ..after_create(
                                old(self).state.tree(),
                                parent,
                                new_symlink_inode(
                                    old(self).state.tree(),
                                    old(self).geometry,
                                    parent,
                                    bytes,
                                    block,
                                ),
                                base_text(path@),
                            )
                        })
                    }
                },
            },
    {
        let ghost blocks = (self.device.image().len() / 512) as int;
        let ghost t = self.state.tree();
        let ghost g = self.geometry;
        let bytes = target.as_bytes();
        let parent_index = self.geometry.find_create_parent(&self.state, Ghost(blocks), path)?;
        proof {
            lemma_name_is_new(t, g, blocks, path@, parent_index as int);
        }
        let parent_inode = self.state.inodes[parent_index];
        let persistent_security = make_initial_security(
            self.geometry.format_version,
            parent_inode,
            None,
            DEFAULT_FILE_MODE,
        );
        let len: usize = bytes.len();
        if len <= MAX_INLINE_SYMLINK_LEN {
            let mut packed = zero_vec(MAX_INLINE_SYMLINK_LEN);
            write_bytes(packed.as_mut_slice(), 0, bytes);
            assert(packed@ =~= inline_target(bytes@));
            let inode = OnDiskInode {
                kind: NodeKind::Symlink,
                deleted: false,
                entry_start: get_u32(packed.as_slice(), 0),
                entry_count: get_u32(packed.as_slice(), 4),
                data_block: get_u32(packed.as_slice(), 8),
                block_count: 0,
                size: len as u32,
                persistent_security,
                data_checksum: 0,
                compressed: false,
                deduped: false,
            };
            assert(inode_fits(t, g, blocks, inode));
            let index = self.geometry.add_node(
                &mut self.state,
                Ghost(blocks),
                parent_index,
                inode,
                base_name(path),
            )?;
            proof {
                lemma_create_owns(t, parent_index as int, inode, base_text(path@));
                assert(self.state.tree() =~= (TreeView {
                    free: self.state.tree().free,
                    ..after_create(t, parent_index as int, inode, base_text(path@))
                }));
            }
            return Ok(index);
        }
        let block = find_free_run(&self.state.free_data_extents, 1)?;
        proof {
            lemma_free_run(t, g, blocks, block as int, 1);
        }
        let mut data = zero_vec(BLOCK_SIZE);
        write_bytes(data.as_mut_slice(), 0, bytes);
        assert(data@ =~= bytes@ + zeros((512 - bytes@.len()) as nat));
        write_blocks_cached(&mut self.device, block, data.as_slice())?;
        let inode = OnDiskInode {
            kind: NodeKind::Symlink,
            deleted: false,
            entry_start: 0,
            entry_count: 0,
            data_block: block as u32,
            block_count: 1,
            size: len as u32,
            persistent_security,
            data_checksum: 0,
            compressed: false,
            deduped: false,
        };
        assert(inode_fits(t, g, blocks, inode));
        let index = self.geometry.add_node(
            &mut self.state,
            Ghost(blocks),
            parent_index,
            inode,
            base_name(path),
        )?;
        let ghost mid = self.state;
        self.geometry.take_blocks(&mut self.state, block, 1);
        proof {
            lemma_kept_trans(old(self).state, mid, self.state);
            lemma_kept_way_back(old(self).state, self.state);
            lemma_taken_rest(t, mid.tree(), self.state.tree(), g, blocks, parent_index as int, inode, base_text(path@));
            assert(self.state.tree().inodes == mid.tree().inodes);
        }
        Ok(index)
    }
}

/// After a node was created on free blocks and the blocks were taken, the free
/// list is again what the inodes leave.
proof fn lemma_taken_rest(
    t: TreeView,
    mid: TreeView,
    n: TreeView,
    g: VolumeGeometry,
    blocks: int,
    parent: int,
    inode: OnDiskInode,
    name: Seq<char>,
)
    requires
        shape_ok(t, g, blocks, None),
        free_is_rest(t.free, t.inodes, g.data_block_start as int, g.block_limit as int),
        owns_extent(inode),
        mid == after_create(t, parent, inode, name),
        n == (TreeView { free: n.free, ..mid }),
        list_ok(n.free, g.data_block_start as int, g.block_limit as int),
        forall|b: int|
            #![trigger is_free(n.free, b)]
            is_free(n.free, b) == (is_free(mid.free, b) && !(inode.data_block <= b < extent_end(
                inode,
            ))),
    ensures
        free_is_rest(n.free, n.inodes, g.data_block_start as int, g.block_limit as int),
{
    if t.free_slots.len() > 0 {
        assert(t.inodes[t.free_slots[t.free_slots.len() - 1] as int].deleted);
    }
    assert forall|b: int|
        #![trigger is_free(n.free, b)]
        g.data_block_start <= b < g.block_limit implies is_free(n.free, b) == !is_owned(
        n.inodes,
        b,
    ) by {
        assert(is_free(t.free, b) == !is_owned(t.inodes, b));
        lemma_create_owner(t, parent, inode, name, b);
    }
}

} // verus!
