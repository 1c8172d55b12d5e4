//! What makes loaded metadata sound, and which data blocks nothing refers to.
use vstd::prelude::*;
use vstd::string::*;

use crate::error::{Error, Result};
use crate::simplefs::names::{name_ok, names_match, same_name, validate_dir_entry_name};
use crate::simplefs::reach::{all_reached, inodes_are_reached};
use crate::simplefs::types::{DirEntryView, OnDiskDirEntry, OnDiskInode, entry_views};
use crate::vfs::NodeKind;

verus! {

/// Whether an inode is a directory in use.
pub open spec fn live_dir(inode: OnDiskInode) -> bool {
    inode.kind == NodeKind::Directory && !inode.deleted
}

/// First entry past a directory's slice of the entry table.
pub open spec fn slice_end(inode: OnDiskInode) -> int {
    inode.entry_start + inode.entry_count
}

/// Whether entry `d` lies in the slice of a directory in use.
pub open spec fn covers(inode: OnDiskInode, d: int) -> bool {
    live_dir(inode) && inode.entry_start <= d < slice_end(inode)
}

/// First block past an inode's extent.
pub open spec fn extent_end(inode: OnDiskInode) -> int {
    inode.data_block + inode.block_count
}

/// Whether an inode in use owns data blocks.
pub open spec fn owns_extent(inode: OnDiskInode) -> bool {
    inode.kind != NodeKind::Directory && !inode.deleted && inode.block_count > 0
}

/// Whether an inode other than a directory has a sound extent.
pub open spec fn extent_ok(inode: OnDiskInode, data_start: int, device_blocks: int) -> bool {
    inode.kind == NodeKind::Directory || inode.deleted || if inode.block_count == 0 {
        inode.size == 0 || inode.kind == NodeKind::Symlink
    } else {
        &&& data_start <= inode.data_block
        &&& extent_end(inode) <= device_blocks
        &&& inode.size <= inode.block_count * 512
    }
}

/// Whether two inodes never share a data block.
pub open spec fn extents_apart(a: OnDiskInode, b: OnDiskInode) -> bool {
    owns_extent(a) && owns_extent(b) ==> extent_end(a) <= b.data_block || extent_end(b)
        <= a.data_block
}

/// Directories in use whose slice holds entry `d`.
pub open spec fn cover_count(inodes: Seq<OnDiskInode>, d: int) -> nat
    decreases inodes.len(),
{
    if inodes.len() == 0 {
        0
    } else {
        cover_count(inodes.drop_last(), d) + if covers(inodes.last(), d) {
            1nat
        } else {
            0nat
        }
    }
}

/// Entries that name inode `i`.
pub open spec fn ref_count(entries: Seq<DirEntryView>, i: int) -> nat
    decreases entries.len(),
{
    if entries.len() == 0 {
        0
    } else {
        ref_count(entries.drop_last(), i) + if entries.last().inode_index == i {
            1nat
        } else {
            0nat
        }
    }
}

/// Whether no two names in a directory's slice denote the same entry.
pub open spec fn slice_names_distinct(
    entries: Seq<DirEntryView>,
    from: int,
    to: int,
    case_sensitive: bool,
) -> bool {
    forall|a: int, b: int|
        #![trigger entries[a], entries[b]]
        from <= a < b < to ==> !same_name(entries[a].name, entries[b].name, case_sensitive)
}

/// Whether an entry has a usable name and names a live inode of its own kind.
pub open spec fn entry_ok(entry: DirEntryView, inodes: Seq<OnDiskInode>) -> bool {
    &&& name_ok(entry.name)
    &&& 0 < entry.inode_index < inodes.len()
    &&& !inodes[entry.inode_index as int].deleted
    &&& inodes[entry.inode_index as int].kind == entry.kind
}

/// Whether every directory's slice lies in the entry table, and no directory in
/// use holds one name twice.
pub open spec fn dirs_ok(
    inodes: Seq<OnDiskInode>,
    entries: Seq<DirEntryView>,
    case_sensitive: bool,
) -> bool {
    forall|i: int|
        #![trigger inodes[i]]
        0 <= i < inodes.len() && inodes[i].kind == NodeKind::Directory ==> {
            &&& slice_end(inodes[i]) <= entries.len()
            &&& !inodes[i].deleted ==> slice_names_distinct(
                entries,
                inodes[i].entry_start as int,
                slice_end(inodes[i]),
                case_sensitive,
            )
        }
}

/// Whether metadata describes a rooted tree: directories own disjoint slices that
/// together make up the entry table, every live inode but the root is named by
/// exactly one entry and reached from the root, and live extents are in bounds and apart.
pub open spec fn metadata_valid(
    inodes: Seq<OnDiskInode>,
    entries: Seq<DirEntryView>,
    data_start: int,
    device_blocks: int,
    case_sensitive: bool,
) -> bool {
    &&& inodes.len() > 0
    &&& live_dir(inodes[0])
    &&& dirs_ok(inodes, entries, case_sensitive)
    &&& forall|i: int|
        #![trigger inodes[i]]
        0 <= i < inodes.len() ==> extent_ok(inodes[i], data_start, device_blocks)
    &&& forall|i: int, j: int|
        #![trigger inodes[i], inodes[j]]
        0 <= i < j < inodes.len() ==> extents_apart(inodes[i], inodes[j])
    &&& forall|d: int|
        #![trigger cover_count(inodes, d)]
        0 <= d < entries.len() ==> cover_count(inodes, d) == 1
    &&& forall|d: int|
        #![trigger entries[d]]
        0 <= d < entries.len() ==> entry_ok(entries[d], inodes)
    &&& forall|i: int|
        #![trigger ref_count(entries, i)]
        1 <= i < inodes.len() && !inodes[i].deleted ==> ref_count(entries, i) == 1
    &&& all_reached(inodes, entries)
}

pub proof fn lemma_cover_count_bound(inodes: Seq<OnDiskInode>, d: int)
    ensures
        cover_count(inodes, d) <= inodes.len(),
    decreases inodes.len(),
{
    if inodes.len() > 0 {
        lemma_cover_count_bound(inodes.drop_last(), d);
    }
}

pub proof fn lemma_ref_count_bound(entries: Seq<DirEntryView>, i: int)
    ensures
        ref_count(entries, i) <= entries.len(),
    decreases entries.len(),
{
    if entries.len() > 0 {
        lemma_ref_count_bound(entries.drop_last(), i);
    }
}

fn slice_names_are_distinct(
    dir_entries: &[OnDiskDirEntry],
    from: usize,
    to: usize,
    case_sensitive: bool,
) -> (r: bool)
    requires
        from <= to <= dir_entries@.len(),
    ensures
        r == slice_names_distinct(
            entry_views(dir_entries@),
            from as int,
            to as int,
            case_sensitive,
        ),
{
    let ghost entries = entry_views(dir_entries@);
    let mut left: usize = from;
    while left < to
        invariant
            from <= left <= to <= dir_entries@.len(),
            entries == entry_views(dir_entries@),
            forall|a: int, b: int|
                #![trigger entries[a], entries[b]]
                from <= a < left && a < b < to ==> !same_name(
                    entries[a].name,
                    entries[b].name,
                    case_sensitive,
                ),
        decreases to - left,
    {
        let mut right: usize = left + 1;
        while right < to
            invariant
                from <= left < right <= to <= dir_entries@.len(),
                entries == entry_views(dir_entries@),
                forall|b: int|
                    #![trigger entries[b]]
                    left < b < right ==> !same_name(
                        entries[left as int].name,
                        entries[b].name,
                        case_sensitive,
                    ),
            decreases to - right,
        {
            assert(entries[left as int].name == dir_entries@[left as int].name@);
            assert(entries[right as int].name == dir_entries@[right as int].name@);
            if names_match(
                dir_entries[left].name.as_str(),
                dir_entries[right].name.as_str(),
                case_sensitive,
            ) {
                return false;
            }
            right = right + 1;
        }
        left = left + 1;
    }
    true
}

fn directories_are_sound(
    inodes: &[OnDiskInode],
    dir_entries: &[OnDiskDirEntry],
    case_sensitive: bool,
) -> (r: bool)
    ensures
        r == dirs_ok(inodes@, entry_views(dir_entries@), case_sensitive),
{
    let n: usize = dir_entries.len();
    let mut index: usize = 0;
    while index < inodes.len()
        invariant
            index <= inodes@.len(),
            n == dir_entries@.len(),
            dirs_ok(inodes@.take(index as int), entry_views(dir_entries@), case_sensitive),
        decreases inodes@.len() - index,
    {
        let inode = inodes[index];
        assert(inodes@.take(index + 1)[index as int] == inode);
        if matches!(inode.kind, NodeKind::Directory) {
            let end: u64 = inode.entry_start as u64 + inode.entry_count as u64;
            if end > n as u64 {
                assert(inodes@[index as int] == inode);
                return false;
            }
            if !inode.deleted && !slice_names_are_distinct(
                dir_entries,
                inode.entry_start as usize,
                end as usize,
                case_sensitive,
            ) {
                assert(inodes@[index as int] == inode);
                return false;
            }
        }
        assert forall|i: int|
            #![trigger inodes@.take(index + 1)[i]]
            0 <= i < index implies inodes@.take(index + 1)[i] == inodes@.take(index as int)[i] by {
        }
        index = index + 1;
    }
    assert(inodes@.take(index as int) == inodes@);
    true
}

fn extents_are_sound(inodes: &[OnDiskInode], data_start: u32, device_blocks: u64) -> (r: bool)
    ensures
        r == (forall|i: int|
            #![trigger inodes@[i]]
            0 <= i < inodes@.len() ==> extent_ok(
                inodes@[i],
                data_start as int,
                device_blocks as int,
            )),
{
    let mut index: usize = 0;
    while index < inodes.len()
        invariant
            index <= inodes@.len(),
            forall|i: int|
                #![trigger inodes@[i]]
                0 <= i < index ==> extent_ok(inodes@[i], data_start as int, device_blocks as int),
        decreases inodes@.len() - index,
    {
        let inode = inodes[index];
        if !matches!(inode.kind, NodeKind::Directory) && !inode.deleted {
            if inode.block_count == 0 {
                if inode.size != 0 && !matches!(inode.kind, NodeKind::Symlink) {
                    return false;
                }
            } else {
                let end: u64 = inode.data_block as u64 + inode.block_count as u64;
                if inode.data_block < data_start || end > device_blocks {
                    return false;
                }
                if inode.size as u64 > inode.block_count as u64 * 512 {
                    return false;
                }
            }
        }
        index = index + 1;
    }
    true
}

fn extents_are_apart(inodes: &[OnDiskInode]) -> (r: bool)
    ensures
        r == (forall|i: int, j: int|
            #![trigger inodes@[i], inodes@[j]]
            0 <= i < j < inodes@.len() ==> extents_apart(inodes@[i], inodes@[j])),
{
    let mut j: usize = 0;
    while j < inodes.len()
        invariant
            j <= inodes@.len(),
            forall|a: int, b: int|
                #![trigger inodes@[a], inodes@[b]]
                0 <= a < b < j ==> extents_apart(inodes@[a], inodes@[b]),
        decreases inodes@.len() - j,
    {
        let right = inodes[j];
        if !matches!(right.kind, NodeKind::Directory) && !right.deleted && right.block_count > 0 {
            let right_end: u64 = right.data_block as u64 + right.block_count as u64;
            let mut i: usize = 0;
            while i < j
                invariant
                    i <= j < inodes@.len(),
                    right == inodes@[j as int],
                    owns_extent(right),
                    right_end == extent_end(right),
                    forall|a: int|
                        #![trigger inodes@[a]]
                        0 <= a < i ==> extents_apart(inodes@[a], right),
                decreases j - i,
            {
                let left = inodes[i];
                if !matches!(left.kind, NodeKind::Directory) && !left.deleted && left.block_count
                    > 0 {
                    let left_end: u64 = left.data_block as u64 + left.block_count as u64;
                    if left_end > right.data_block as u64 && right_end > left.data_block as u64 {
                        assert(!extents_apart(inodes@[i as int], inodes@[j as int]));
                        return false;
                    }
                }
                i = i + 1;
            }
        }
        j = j + 1;
    }
    true
}

fn entries_are_covered_once(inodes: &[OnDiskInode], count: usize) -> (r: bool)
    requires
        forall|i: int|
            #![trigger inodes@[i]]
            0 <= i < inodes@.len() && live_dir(inodes@[i]) ==> slice_end(inodes@[i]) <= count,
    ensures
        r == (forall|d: int|
            #![trigger cover_count(inodes@, d)]
            0 <= d < count ==> cover_count(inodes@, d) == 1),
{
    let mut coverage: Vec<usize> = vec![0usize; count];
    let total: usize = inodes.len();
    let mut index: usize = 0;
    while index < inodes.len()
        invariant
            index <= inodes@.len(),
            total == inodes@.len(),
            coverage@.len() == count,
            forall|i: int|
                #![trigger inodes@[i]]
                0 <= i < inodes@.len() && live_dir(inodes@[i]) ==> slice_end(inodes@[i]) <= count,
            forall|d: int|
                #![trigger coverage@[d]]
                0 <= d < count ==> coverage@[d] == cover_count(inodes@.take(index as int), d),
        decreases inodes@.len() - index,
    {
        let inode = inodes[index];
        let ghost prior = inodes@.take(index as int);
        let ghost next = inodes@.take(index + 1);
        assert(next.drop_last() == prior);
        assert(next.last() == inode);
        assert(inodes@[index as int] == inode);
        if matches!(inode.kind, NodeKind::Directory) && !inode.deleted {
            let end: usize = (inode.entry_start as u64 + inode.entry_count as u64) as usize;
            let mut d: usize = inode.entry_start as usize;
            while d < end
                invariant
                    inode.entry_start <= d <= end <= count,
                    end == slice_end(inode),
                    live_dir(inode),
                    coverage@.len() == count,
                    index < total,
                    next.drop_last() == prior,
                    next.last() == inode,
                    prior.len() == index,
                    next.len() == index + 1,
                    forall|e: int|
                        #![trigger coverage@[e]]
                        0 <= e < count ==> coverage@[e] == if inode.entry_start <= e < d {
                            cover_count(next, e)
                        } else {
                            cover_count(prior, e)
                        },
                decreases end - d,
            {
                proof {
                    lemma_cover_count_bound(prior, d as int);
                }
                coverage[d] = coverage[d] + 1;
                d = d + 1;
            }
        }
        index = index + 1;
    }
    assert(inodes@.take(index as int) == inodes@);
    let mut d: usize = 0;
    while d < count
        invariant
            d <= count,
            coverage@.len() == count,
            forall|e: int|
                #![trigger coverage@[e]]
                0 <= e < count ==> coverage@[e] == cover_count(inodes@, e),
            forall|e: int|
                #![trigger cover_count(inodes@, e)]
                0 <= e < d ==> cover_count(inodes@, e) == 1,
        decreases count - d,
    {
        assert(coverage@[d as int] == cover_count(inodes@, d as int));
        if coverage[d] != 1 {
            return false;
        }
        d = d + 1;
    }
    true
}

fn entries_are_sound(inodes: &[OnDiskInode], dir_entries: &[OnDiskDirEntry]) -> (r: bool)
    ensures
        r == (forall|d: int|
            #![trigger entry_views(dir_entries@)[d]]
            0 <= d < dir_entries@.len() ==> entry_ok(entry_views(dir_entries@)[d], inodes@)),
{
    let ghost entries = entry_views(dir_entries@);
    let mut d: usize = 0;
    while d < dir_entries.len()
        invariant
            d <= dir_entries@.len(),
            entries == entry_views(dir_entries@),
            forall|e: int| #![trigger entries[e]] 0 <= e < d ==> entry_ok(entries[e], inodes@),
        decreases dir_entries@.len() - d,
    {
        let entry = &dir_entries[d];
        assert(entries[d as int] == entry@);
        if validate_dir_entry_name(entry.name.as_str()).is_err() {
            return false;
        }
        let child: usize = entry.inode_index as usize;
        if child == 0 || child >= inodes.len() || inodes[child].deleted || inodes[child].kind
            != entry.kind {
            return false;
        }
        d = d + 1;
    }
    true
}

fn inodes_have_one_parent(inodes: &[OnDiskInode], dir_entries: &[OnDiskDirEntry]) -> (r: bool)
    requires
        forall|d: int|
            #![trigger entry_views(dir_entries@)[d]]
            0 <= d < dir_entries@.len() ==> entry_views(dir_entries@)[d].inode_index
                < inodes@.len(),
    ensures
        r == (forall|i: int|
            #![trigger ref_count(entry_views(dir_entries@), i)]
            1 <= i < inodes@.len() && !inodes@[i].deleted ==> ref_count(
                entry_views(dir_entries@),
                i,
            ) == 1),
{
    let ghost entries = entry_views(dir_entries@);
    let total: usize = dir_entries.len();
    let count: usize = inodes.len();
    let mut refs: Vec<usize> = vec![0usize; count];
    let mut d: usize = 0;
    while d < dir_entries.len()
        invariant
            d <= dir_entries@.len(),
            total == dir_entries@.len(),
            count == inodes@.len(),
            refs@.len() == count,
            entries == entry_views(dir_entries@),
            forall|e: int|
                #![trigger entries[e]]
                0 <= e < dir_entries@.len() ==> entries[e].inode_index < count,
            forall|i: int|
                #![trigger refs@[i]]
                0 <= i < count ==> refs@[i] == ref_count(entries.take(d as int), i),
        decreases dir_entries@.len() - d,
    {
        assert(entries[d as int] == dir_entries@[d as int]@);
        assert(entries.take(d + 1).drop_last() == entries.take(d as int));
        assert(entries.take(d + 1).last() == entries[d as int]);
        let child: usize = dir_entries[d].inode_index as usize;
        proof {
            lemma_ref_count_bound(entries.take(d as int), child as int);
        }
        refs[child] = refs[child] + 1;
        d = d + 1;
    }
    assert(entries.take(d as int) == entries);
    let mut i: usize = 1;
    while i < count
        invariant
            1 <= i,
            entries == entry_views(dir_entries@),
            count == inodes@.len(),
            refs@.len() == count,
            forall|k: int|
                #![trigger refs@[k]]
                0 <= k < count ==> refs@[k] == ref_count(entries, k),
            forall|k: int|
                #![trigger ref_count(entries, k)]
                1 <= k < i && k < count && !inodes@[k].deleted ==> ref_count(entries, k) == 1,
        decreases count - i,
    {
        assert(refs@[i as int] == ref_count(entries, i as int));
        if !inodes[i].deleted && refs[i] != 1 {
            return false;
        }
        i = i + 1;
    }
    true
}

/// Accepts exactly the metadata that describes a sound tree.
pub fn validate_loaded_metadata(
    inodes: &[OnDiskInode],
    dir_entries: &[OnDiskDirEntry],
    data_block_start: u32,
    device_block_count: u64,
    case_sensitive: bool,
) -> (r: Result<()>)
    ensures
        r == (if metadata_valid(
            inodes@,
            entry_views(dir_entries@),
            data_block_start as int,
            device_block_count as int,
            case_sensitive,
        ) {
            Ok::<(), Error>(())
        } else {
            Err(Error::InvalidArgument)
        }),
{
    if inodes.len() == 0 || inodes[0].deleted || !matches!(inodes[0].kind, NodeKind::Directory) {
        return Err(Error::InvalidArgument);
    }
    if !directories_are_sound(inodes, dir_entries, case_sensitive) || !extents_are_sound(
        inodes,
        data_block_start,
        device_block_count,
    ) || !extents_are_apart(inodes) {
        return Err(Error::InvalidArgument);
    }
    if !entries_are_covered_once(inodes, dir_entries.len()) || !entries_are_sound(
        inodes,
        dir_entries,
    ) || !inodes_have_one_parent(inodes, dir_entries) {
        return Err(Error::InvalidArgument);
    }
    proof {
        let entries = entry_views(dir_entries@);
        assert forall|d: int| #![trigger entries[d]] 0 <= d < dir_entries@.len() implies entries[d].inode_index
            < inodes@.len() by {
            assert(entry_ok(entries[d], inodes@));
        }
    }
    if !inodes_are_reached(inodes, dir_entries) {
        return Err(Error::InvalidArgument);
    }
    Ok(())
}

// ── Data blocks nothing refers to ──

/// Whether an inode in use claims data blocks.
pub open spec fn in_use(inode: OnDiskInode) -> bool {
    !inode.deleted && inode.block_count > 0
}

/// One past the highest block an inode in use claims, and at least `data_start`.
pub open spec fn high_water(inodes: Seq<OnDiskInode>, data_start: int) -> int
    decreases inodes.len(),
{
    if inodes.len() == 0 {
        data_start
    } else {
        let below = high_water(inodes.drop_last(), data_start);
        if in_use(inodes.last()) && extent_end(inodes.last()) > below {
            extent_end(inodes.last())
        } else {
            below
        }
    }
}

/// Whether a well-placed extent in use holds block `b`.
pub open spec fn holds_block(inode: OnDiskInode, b: int, data_start: int, total: int) -> bool {
    &&& in_use(inode)
    &&& data_start <= inode.data_block
    &&& extent_end(inode) <= total
    &&& inode.data_block <= b < extent_end(inode)
}

/// Whether some well-placed extent in use holds block `b`.
pub open spec fn block_referenced(
    inodes: Seq<OnDiskInode>,
    b: int,
    data_start: int,
    total: int,
) -> bool {
    exists|i: int|
        #![trigger inodes[i]]
        0 <= i < inodes.len() && holds_block(inodes[i], b, data_start, total)
}

/// Blocks below `to` in the data area that no extent in use holds.
pub open spec fn orphans_below(
    inodes: Seq<OnDiskInode>,
    data_start: int,
    total: int,
    to: int,
) -> nat
    decreases to - data_start,
{
    if to <= data_start {
        0
    } else {
        orphans_below(inodes, data_start, total, to - 1) + if block_referenced(
            inodes,
            to - 1,
            data_start,
            total,
        ) {
            0nat
        } else {
            1nat
        }
    }
}

/// Finds the high-water mark.
pub fn find_high_water(inodes: &[OnDiskInode], data_start: u32) -> (high: u64)
    ensures
        high == high_water(inodes@, data_start as int),
        data_start <= high <= 0x2_0000_0000,
{
    let mut high: u64 = data_start as u64;
    let mut i: usize = 0;
    while i < inodes.len()
        invariant
            i <= inodes@.len(),
            high == high_water(inodes@.take(i as int), data_start as int),
            data_start <= high <= 0x2_0000_0000,
        decreases inodes@.len() - i,
    {
        assert(inodes@.take(i + 1).drop_last() == inodes@.take(i as int));
        assert(inodes@.take(i + 1).last() == inodes@[i as int]);
        let inode = inodes[i];
        if !inode.deleted && inode.block_count > 0 {
            let end: u64 = inode.data_block as u64 + inode.block_count as u64;
            if end > high {
                high = end;
            }
        }
        i = i + 1;
    }
    assert(inodes@.take(i as int) == inodes@);
    high
}

/// Which blocks from `data_start` up to the high-water mark are referenced.
pub fn referenced_blocks(inodes: &[OnDiskInode], data_start: u32, total_blocks: u64) -> (r: Vec<
    bool,
>)
    requires
        high_water(inodes@, data_start as int) - data_start <= usize::MAX,
    ensures
        r@.len() == high_water(inodes@, data_start as int) - data_start,
        forall|k: int|
            #![trigger r@[k]]
            0 <= k < r@.len() ==> r@[k] == block_referenced(
                inodes@,
                data_start + k,
                data_start as int,
                total_blocks as int,
            ),
{
    let high: u64 = find_high_water(inodes, data_start);
    let scan: usize = (high - data_start as u64) as usize;
    let mut referenced: Vec<bool> = vec![false; scan];
    let mut i: usize = 0;
    while i < inodes.len()
        invariant
            i <= inodes@.len(),
            referenced@.len() == scan,
            high == high_water(inodes@, data_start as int),
            scan == high - data_start,
            forall|k: int|
                #![trigger referenced@[k]]
                0 <= k < scan ==> referenced@[k] == block_referenced(
                    inodes@.take(i as int),
                    data_start + k,
                    data_start as int,
                    total_blocks as int,
                ),
        decreases inodes@.len() - i,
    {
        let inode = inodes[i];
        let ghost prior = inodes@.take(i as int);
        let ghost next = inodes@.take(i + 1);
        assert forall|b: int| #![trigger block_referenced(next, b, data_start as int, total_blocks as int)] block_referenced(next, b, data_start as int, total_blocks as int) == (
        block_referenced(prior, b, data_start as int, total_blocks as int) || holds_block(
            inode,
            b,
            data_start as int,
            total_blocks as int,
        )) by {
            assert(next[i as int] == inode);
            if block_referenced(prior, b, data_start as int, total_blocks as int) {
                let w = choose|w: int|
                    #![trigger prior[w]]
                    0 <= w < prior.len() && holds_block(
                        prior[w],
                        b,
                        data_start as int,
                        total_blocks as int,
                    );
                assert(next[w] == prior[w]);
            }
            if block_referenced(next, b, data_start as int, total_blocks as int) {
                let w = choose|w: int|
                    #![trigger next[w]]
                    0 <= w < next.len() && holds_block(
                        next[w],
                        b,
                        data_start as int,
                        total_blocks as int,
                    );
                if w < i {
                    assert(prior[w] == next[w]);
                }
            }
        }
        let end: u64 = inode.data_block as u64 + inode.block_count as u64;
        if !inode.deleted && inode.block_count > 0 && inode.data_block >= data_start && end
            <= total_blocks {
            proof {
                lemma_high_water_bounds(inodes@, data_start as int, i as int);
            }
            let from: usize = (inode.data_block - data_start) as usize;
            let to: usize = (end - data_start as u64) as usize;
            let mut k: usize = from;
            while k < to
                invariant
                    from <= k <= to <= scan,
                    referenced@.len() == scan,
                    from == inode.data_block - data_start,
                    to == extent_end(inode) - data_start,
                    holds_block(inode, inode.data_block as int, data_start as int, total_blocks as int),
                    forall|m: int|
                        #![trigger referenced@[m]]
                        0 <= m < scan ==> referenced@[m] == (block_referenced(
                            prior,
                            data_start + m,
                            data_start as int,
                            total_blocks as int,
                        ) || from <= m < k),
                decreases to - k,
            {
                referenced[k] = true;
                k = k + 1;
            }
        }
        i = i + 1;
    }
    assert(inodes@.take(i as int) == inodes@);
    referenced
}

/// Every extent in use ends at or below the high-water mark.
pub proof fn lemma_high_water_bounds(inodes: Seq<OnDiskInode>, data_start: int, i: int)
    requires
        0 <= i < inodes.len(),
        in_use(inodes[i]),
    ensures
        extent_end(inodes[i]) <= high_water(inodes, data_start),
        data_start <= high_water(inodes, data_start),
    decreases inodes.len(),
{
    if i < inodes.len() - 1 {
        lemma_high_water_bounds(inodes.drop_last(), data_start, i);
    } else {
        lemma_high_water_floor(inodes.drop_last(), data_start);
    }
}

pub proof fn lemma_high_water_floor(inodes: Seq<OnDiskInode>, data_start: int)
    ensures
        data_start <= high_water(inodes, data_start),
    decreases inodes.len(),
{
    if inodes.len() > 0 {
        lemma_high_water_floor(inodes.drop_last(), data_start);
    }
}

/// Blocks below the high-water mark that no extent in use holds.
pub fn count_unreferenced_data_blocks(
    data_start: u32,
    total_blocks: u64,
    inodes: &[OnDiskInode],
) -> (r: usize)
    requires
        high_water(inodes@, data_start as int) - data_start <= usize::MAX,
    ensures
        r == orphans_below(
            inodes@,
            data_start as int,
            total_blocks as int,
            high_water(inodes@, data_start as int),
        ),
        r <= high_water(inodes@, data_start as int) - data_start,
{
    let referenced = referenced_blocks(inodes, data_start, total_blocks);
    let mut count: usize = 0;
    let mut k: usize = 0;
    while k < referenced.len()
        invariant
            k <= referenced@.len(),
            count <= k,
            count == orphans_below(
                inodes@,
                data_start as int,
                total_blocks as int,
                data_start + k,
            ),
            forall|m: int|
                #![trigger referenced@[m]]
                0 <= m < referenced@.len() ==> referenced@[m] == block_referenced(
                    inodes@,
                    data_start + m,
                    data_start as int,
                    total_blocks as int,
                ),
        decreases referenced@.len() - k,
    {
        if !referenced[k] {
            count = count + 1;
        }
        k = k + 1;
    }
    count
}

} // verus!
