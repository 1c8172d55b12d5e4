//! Symlinks read back.
use vstd::prelude::*;
use vstd::utf8::*;

use crate::block::{BlockDevice, DeviceHealth};
use crate::bytes::{put, zeros};
use crate::error::Error;
use crate::simplefs::constants::MAX_INLINE_SYMLINK_LEN;
use crate::simplefs::create::{after_create, lemma_name_is_new};
use crate::simplefs::create_file::{create_symlink_plan, lemma_free_run, new_symlink_inode};
use crate::simplefs::file_laws::{lemma_metadata_below, xattrs_before_data};
use crate::simplefs::file_write::lemma_best_start;
use crate::simplefs::inode_slots::{after_alloc, alloc_index, slot_available};
use crate::simplefs::names::base_text;
use crate::simplefs::ops::symlink_creation;
use crate::simplefs::state::TreeView;
use crate::simplefs::symlink::symlink_target;
use crate::simplefs::tree::{VolumeGeometry, shape_ok};
use crate::simplefs::types::OnDiskInode;
use crate::simplefs::validate::live_dir;
use crate::simplefs::volume::SimpleFs;
use crate::vfs::NodeKind;

verus! {

/// A symlink's inode stays as it was made when its entry is added.
proof fn lemma_symlink_inode(
    t: TreeView,
    g: VolumeGeometry,
    blocks: int,
    parent: int,
    inode: OnDiskInode,
    name: Seq<char>,
)
    requires
        shape_ok(t, g, blocks, None),
        slot_available(t, g),
        0 <= parent < t.inodes.len(),
        live_dir(t.inodes[parent]),
        inode.kind == NodeKind::Symlink,
    ensures
        after_create(t, parent, inode, name).inodes[alloc_index(t)] == inode,
{
    let x = alloc_index(t);
    if t.free_slots.len() > 0 {
        assert(t.free_slots[t.free_slots.len() - 1] == x);
        assert(t.inodes[x].deleted);
    }
    assert(after_alloc(t, inode).inodes[x] == inode);
    assert(x != parent);
}

/// A long target that was stored in a block is read back from it, where the device fails no
/// transfer.
pub proof fn law_long_symlink_reads_back<D: BlockDevice>(
    a: SimpleFs<D>,
    b: SimpleFs<D>,
    target: Seq<char>,
    path: Seq<char>,
    index: usize,
)
    requires
        a.wf(),
        xattrs_before_data(a),
        a.device.reliable(),
        a.device.health() != DeviceHealth::Failed,
        MAX_INLINE_SYMLINK_LEN < encode_utf8(target).len() <= 512,
        symlink_creation(a, b, target, path, Ok::<usize, Error>(index)),
    ensures
        symlink_target(b.device, b.state.tree().inodes[index as int]) == Ok::<Seq<u8>, Error>(
            encode_utf8(target),
        ),
{
    let t = a.state.tree();
    let g = a.geometry;
    let blocks = (a.device.image().len() / 512) as int;
    let bytes = encode_utf8(target);
    let data = bytes + zeros((512 - bytes.len()) as nat);
    let (parent, block) = create_symlink_plan(t, g, bytes, path)->Ok_0;
    lemma_name_is_new(t, g, blocks, path, parent);
    lemma_best_start(t.free, 1);
    lemma_free_run(t, g, blocks, block, 1);
    let inode = new_symlink_inode(t, g, parent, bytes, block);
    lemma_symlink_inode(t, g, blocks, parent, inode, base_text(path));
    assert(b.state.tree().inodes[index as int] == inode);
    let stored = put(a.device.image(), block * 512, data);
    let image = b.device.image();
    assert(block * 512 + 512 <= image.len());
    assert forall|i: int| 0 <= i < 512 implies image[block * 512 + i] == data[i] by {
        lemma_metadata_below(a, block * 512 + i);
        assert(image[block * 512 + i] == stored[block * 512 + i]);
    }
    b.device.lemma_reliable_read(block, 512);
    let held = image.subrange(block * 512, block * 512 + 512);
    assert(held =~= data);
    assert(held.take(bytes.len() as int) =~= bytes);
}

} // verus!
