//! Where room is found, and in what order a directory is listed.
use vstd::prelude::*;

use crate::block::BlockDevice;
use crate::error::Error;
use crate::simplefs::create::best_start;
use crate::simplefs::extents::{Extent, best_fit, in_run, is_free, run_starts_at};
use crate::simplefs::file_write::grow_place;
use crate::simplefs::fs_volume::{listed_entry, shows_entry};
use crate::simplefs::lookup::lookup;
use crate::simplefs::state::TreeView;
use crate::simplefs::types::OnDiskInode;
use crate::simplefs::validate::extent_end;
use crate::simplefs::volume::SimpleFs;
use crate::vfs::{DirectoryEntry, NodeKind};

verus! {

/// Room for blocks is found wherever some free run is large enough; the run is the smallest of
/// those, and every block of the room is free.
pub proof fn law_smallest_run_is_taken(list: Seq<Extent>, required: int, j: int, b: int)
    requires
        required > 0,
        0 <= j < list.len(),
        list[j].count >= required,
        forall|i: int, k: int|
            #![trigger list[i], list[k]]
            0 <= i < k < list.len() ==> list[i].start + list[i].count < list[k].start,
    ensures
        best_start(list, required) matches Some(start) && (start <= b < start + required
            ==> is_free(list, b)) && exists|k: int|
            #![trigger list[k]]
            0 <= k < list.len() && list[k].start == start && required <= list[k].count
                <= list[j].count,
{
    lemma_some_best(list, required, j);
    let k = choose|k: int| #![trigger list[k]] best_fit(list, required, k);
    assert(best_fit(list, required, k));
    let start = best_start(list, required)->0;
    assert(list[k].start == start);
    if start <= b < start + required {
        assert(in_run(list[k], b));
    }
}

proof fn lemma_some_best(list: Seq<Extent>, required: int, j: int)
    requires
        0 <= j < list.len(),
        list[j].count >= required,
    ensures
        exists|k: int| #![trigger list[k]] best_fit(list, required, k),
    decreases list[j].count, j,
{
    if !best_fit(list, required, j) {
        let i = choose|i: int|
            #![trigger list[i]]
            0 <= i < list.len() && list[i].count >= required && !(list[j].count < list[i].count || (
            list[j].count == list[i].count && j <= i));
        lemma_some_best(list, required, i);
    }
}

/// Where no free run is large enough there is no room.
pub proof fn law_no_room_without_a_run(list: Seq<Extent>, required: int)
    requires
        forall|k: int| #![trigger list[k]] 0 <= k < list.len() ==> list[k].count < required,
    ensures
        best_start(list, required) is None,
{
}

/// A file that grows gets blocks of its own or free ones, and none of another file.
pub proof fn law_grown_file_takes_free_blocks(
    t: TreeView,
    blocks: int,
    inode: OnDiskInode,
    required: int,
    b: int,
)
    requires
        inode.block_count < required,
        grow_place(t, blocks, inode, required) matches Ok(start) && start <= b < start + required,
    ensures
        is_free(t.free, b) || (inode.block_count > 0 && inode.data_block <= b < inode.data_block
            + inode.block_count),
{
    let start = grow_place(t, blocks, inode, required)->Ok_0;
    if inode.block_count > 0 && run_starts_at(
        t.free,
        extent_end(inode),
        required - inode.block_count,
    ) && inode.data_block + required <= blocks {
        if b >= extent_end(inode) {
            let k = choose|k: int|
                #![trigger t.free[k]]
                0 <= k < t.free.len() && t.free[k].start == extent_end(inode) && t.free[k].count
                    >= required - inode.block_count;
            assert(in_run(t.free[k], b));
        }
    } else {
        let k = choose|k: int| #![trigger t.free[k]] best_fit(t.free, required, k);
        assert(best_fit(t.free, required, k));
        assert(in_run(t.free[k], b));
    }
}

/// A directory is listed entry by entry, in the order of its part of the entry table, each one
/// under its number, and with nothing behind the last.
pub proof fn law_directory_is_listed_in_order<D: BlockDevice>(
    fs: SimpleFs<D>,
    path: Seq<char>,
    q: int,
    index: int,
)
    requires
        lookup(fs.state.tree(), path, fs.geometry.case_sensitive) == Ok::<int, Error>(q),
        0 <= q < fs.state.tree().inodes.len(),
        fs.state.tree().inodes[q].kind == NodeKind::Directory,
        fs.state.tree().inodes[q].entry_start + fs.state.tree().inodes[q].entry_count
            <= fs.state.tree().entries.len(),
        0 <= index,
    ensures
        ({
            let t = fs.state.tree();
            let entries = t.entries.subrange(
                t.inodes[q].entry_start as int,
                t.inodes[q].entry_start + t.inodes[q].entry_count,
            );
            &&& index < entries.len() ==> (listed_entry(fs, path, index) matches Ok(d)
                && t.entries[d] == entries[index])
            &&& index >= entries.len() ==> listed_entry(fs, path, index) == Err::<int, Error>(
                Error::NotFound,
            )
        }),
{
}

/// A listed entry shows its own name, and the kind, the size and the rights of the node that
/// it names.
pub proof fn law_listed_entry_shows_its_node(e: DirectoryEntry, t: TreeView, d: int)
    requires
        shows_entry(e, t, d),
    ensures
        ({
            let inode = t.inodes[t.entries[d].inode_index as int];
            &&& e.name@ == t.entries[d].name
            &&& e.kind == inode.kind
            &&& inode.kind == NodeKind::Directory ==> e.size == inode.entry_count
            &&& inode.kind != NodeKind::Directory ==> e.size == inode.size
        }),
{
}

} // verus!
