//! Which copy of the metadata a mount takes, and what it makes of it.
use vstd::prelude::*;

use crate::block::BlockDevice;
use crate::error::Error;
use crate::simplefs::inode_slots::{after_alloc, alloc_index};
use crate::simplefs::layout_laws::{law_inode_table_is_read_from_the_disk, spells_inode};
use crate::simplefs::mount::{LoadedView, first_loadable, loadable, mount_order, mountable};
use crate::simplefs::open::{deleted_slots, geometry_of};
use crate::simplefs::state::TreeView;
use crate::simplefs::superblock::stored_superblock;
use crate::simplefs::tree::VolumeGeometry;
use crate::simplefs::types::{OnDiskInode, ParsedSuperblock};
use crate::simplefs::validate::metadata_valid;

verus! {

/// Of two superblocks that can be read the one with the higher generation is mounted where its
/// tables load, and the first one where the generations are the same.
pub proof fn law_newest_copy_is_mounted<D: BlockDevice>(
    device: D,
    cs: bool,
    a: (Seq<char>, ParsedSuperblock),
    b: (Seq<char>, ParsedSuperblock),
)
    requires
        stored_superblock(device, 0) == Ok::<(Seq<char>, ParsedSuperblock), Error>(a),
        stored_superblock(device, 1) == Ok::<(Seq<char>, ParsedSuperblock), Error>(b),
    ensures
        b.1.record.generation <= a.1.record.generation && loadable(device, a.1, cs) is Ok ==> (
        mountable(device, cs) matches Ok(v) && v.label == a.0 && v.parsed == a.1),
        b.1.record.generation > a.1.record.generation && loadable(device, b.1, cs) is Ok ==> (
        mountable(device, cs) matches Ok(v) && v.label == b.0 && v.parsed == b.1),
        b.1.record.generation <= a.1.record.generation && loadable(device, a.1, cs) is Err
            && loadable(device, b.1, cs) is Ok ==> (mountable(device, cs) matches Ok(v) && v.label
            == b.0 && v.parsed == b.1),
        b.1.record.generation > a.1.record.generation && loadable(device, b.1, cs) is Err
            && loadable(device, a.1, cs) is Ok ==> (mountable(device, cs) matches Ok(v) && v.label
            == a.0 && v.parsed == a.1),
        loadable(device, a.1, cs) is Err && loadable(device, b.1, cs) is Err ==> mountable(
            device,
            cs,
        ) is Err,
{
    reveal_with_fuel(first_loadable, 3);
    let order = mount_order(device);
    assert(order.len() == 2);
    assert(order.skip(1)[0] == order[1]);
    assert(order.skip(1).skip(1) =~= Seq::empty());
}

/// Where one superblock cannot be read the other one is mounted, and where neither can nothing
/// is.
pub proof fn law_single_copy_is_mounted<D: BlockDevice>(
    device: D,
    cs: bool,
    a: (Seq<char>, ParsedSuperblock),
)
    requires
        loadable(device, a.1, cs) is Ok,
    ensures
        stored_superblock(device, 0) == Ok::<(Seq<char>, ParsedSuperblock), Error>(a)
            && stored_superblock(device, 1) is Err ==> (mountable(device, cs) matches Ok(v)
            && v.label == a.0 && v.parsed == a.1),
        stored_superblock(device, 1) == Ok::<(Seq<char>, ParsedSuperblock), Error>(a)
            && stored_superblock(device, 0) is Err ==> (mountable(device, cs) matches Ok(v)
            && v.label == a.0 && v.parsed == a.1),
        stored_superblock(device, 0) is Err && stored_superblock(device, 1) is Err ==> mountable(
            device,
            cs,
        ) is Err,
{
}

/// What is mounted is read from the active tables that its superblock names, all of it.
pub proof fn law_active_tables_are_mounted<D: BlockDevice>(
    device: D,
    parsed: ParsedSuperblock,
    cs: bool,
    k: int,
    inode: OnDiskInode,
)
    requires
        loadable(device, parsed, cs) is Ok,
        0 <= k < parsed.record.inode_count,
        spells_inode(
            device.image(),
            parsed.record.active_inode_table_block * 512 + 32 * k,
            inode,
            parsed.format_version,
        ),
    ensures
        ({
            let (inodes, entries) = loadable(device, parsed, cs)->Ok_0;
            &&& inodes.len() == parsed.record.inode_count
            &&& entries.len() == parsed.record.dirent_count
            &&& inodes[k].kind == inode.kind && inodes[k].deleted == inode.deleted
            &&& inodes[k].entry_start == inode.entry_start && inodes[k].entry_count
                == inode.entry_count
            &&& inodes[k].data_block == inode.data_block && inodes[k].block_count
                == inode.block_count
            &&& inodes[k].size == inode.size
            &&& metadata_valid(
                inodes,
                entries,
                parsed.record.data_block_start as int,
                (device.image().len() / 512) as int,
                cs,
            )
        }),
{
    law_inode_table_is_read_from_the_disk(
        device,
        parsed.format_version,
        parsed.record.active_inode_table_block as int,
        parsed.record.inode_count as nat,
        k,
        inode,
    );
}

/// A volume has room for sixteen inodes and eight entries in each block of their tables, and
/// for as many attributes of 336 bytes as its attribute table holds.
pub proof fn law_room_of_a_volume(g: VolumeGeometry, v: LoadedView, cs: bool, blocks: int)
    requires
        geometry_of(g, v, cs, blocks),
        v.parsed.record.inode_table_blocks * 512 <= 0xFFFF_FFFF,
        v.parsed.record.dirent_table_blocks * 512 <= 0xFFFF_FFFF,
        v.parsed.record.xattr_table_blocks * 512 <= 0xFFFF_FFFF,
    ensures
        g.inode_capacity * 32 == v.parsed.record.inode_table_blocks * 512,
        g.dirent_capacity * 64 == v.parsed.record.dirent_table_blocks * 512,
        g.xattr_capacity * 336 <= v.parsed.record.xattr_table_blocks * 512 < (g.xattr_capacity + 1)
            * 336,
        g.case_sensitive == cs,
        g.label@ == v.label,
{
}

/// The slots that a mount hands out again are those of the deleted inodes, but never the
/// root's.
pub proof fn law_deleted_slots_are_free(inodes: Seq<OnDiskInode>)
    requires
        inodes.len() <= usize::MAX,
    ensures
        forall|i: int|
            #![trigger inodes[i]]
            1 <= i < inodes.len() ==> (inodes[i].deleted <==> deleted_slots(inodes).contains(
                i as usize,
            )),
        forall|j: int|
            #![trigger deleted_slots(inodes)[j]]
            0 <= j < deleted_slots(inodes).len() ==> 1 <= deleted_slots(inodes)[j] < inodes.len(),
    decreases inodes.len(),
{
    if inodes.len() > 1 {
        let front = inodes.drop_last();
        law_deleted_slots_are_free(front);
        let before = deleted_slots(front);
        let all = deleted_slots(inodes);
        let n = (inodes.len() - 1) as usize;
        assert forall|i: int|
            #![trigger inodes[i]]
            1 <= i < inodes.len() implies (inodes[i].deleted <==> all.contains(i as usize)) by {
            if i < n {
                assert(front[i] == inodes[i]);
                if before.contains(i as usize) {
                    let j = choose|j: int| 0 <= j < before.len() && before[j] == i as usize;
                    assert(all[j] == i as usize);
                }
                if all.contains(i as usize) {
                    let j = choose|j: int| 0 <= j < all.len() && all[j] == i as usize;
                    if j < before.len() {
                        assert(before[j] == i as usize);
                    }
                }
            } else {
                if inodes[i].deleted {
                    assert(all[all.len() - 1] == n);
                }
                if all.contains(n) {
                    let j = choose|j: int| 0 <= j < all.len() && all[j] == n;
                    if j < before.len() {
                        assert(before[j] == n);
                    }
                }
            }
        }
        assert forall|j: int| #![trigger all[j]] 0 <= j < all.len() implies 1 <= all[j]
            < inodes.len() by {
            if j < before.len() {
                assert(all[j] == before[j]);
            }
        }
    }
}

/// A new inode takes the slot of a deleted one, or a new one behind all others; every other
/// inode stays as it is.
pub proof fn law_new_inode_takes_a_free_slot(t: TreeView, inode: OnDiskInode, j: int)
    requires
        t.free_slots.len() > 0 ==> t.free_slots.last() < t.inodes.len(),
        0 <= j < t.inodes.len(),
    ensures
        ({
            let i = alloc_index(t);
            let n = after_alloc(t, inode);
            &&& t.free_slots.len() > 0 ==> t.free_slots.contains(i as usize) && n.inodes.len()
                == t.inodes.len()
            &&& t.free_slots.len() == 0 ==> i == t.inodes.len() && n.inodes.len() == t.inodes.len()
                + 1
            &&& n.inodes[i] == inode
            &&& j != i ==> n.inodes[j] == t.inodes[j]
            &&& n.entries == t.entries
        }),
{
    if t.free_slots.len() > 0 {
        assert(t.free_slots[t.free_slots.len() - 1] == t.free_slots.last());
    }
}

} // verus!
