//! What operations on a volume come to, in terms of what goes in.
use vstd::prelude::*;

use crate::block::BlockDevice;
use crate::bytes::lemma_le32_of_u32_at;
use crate::error::{Error, Result};
use crate::simplefs::check_laws::law_held_block_is_not_lost;
use crate::simplefs::create_file::new_file_inode;
use crate::simplefs::dedup::{PooledExtent, without_extent};
use crate::simplefs::file_read::{data_checksum, read_count, read_is_corrupt, read_outcome};
use crate::simplefs::fs_volume::{followed_metadata, without_one};
use crate::simplefs::lookup::lookup;
use crate::simplefs::names::block_span;
use crate::simplefs::open::live_dirs;
use crate::simplefs::ops::{described, file_creation, removal_outcome, rename_outcome, security_update};
use crate::simplefs::repair::{staged_paths, staged_under, zeroing};
use crate::simplefs::state::TreeView;
use crate::simplefs::symlink::{follow, packed_target, symlink_target};
use crate::simplefs::tree::VolumeGeometry;
use crate::simplefs::types::{OnDiskInode, SimpleFsFormatVersion, XattrView};
use crate::simplefs::validate::live_dir;
use crate::simplefs::volume::SimpleFs;
use crate::simplefs::xattr::xattrs_listed;
use crate::spelling::{law_four_bytes, spells};
use crate::vfs::{NodeKind, SecurityDescriptor};

verus! {

// ── Reading ──

/// A read gives, byte for byte, what the disk holds from the file's first block and the offset
/// on, as much as was asked for and is there, and leaves the rest of the buffer.
pub proof fn law_read_takes_the_bytes_of_the_disk<D: BlockDevice>(
    fs: SimpleFs<D>,
    x: int,
    offset: int,
    before: Seq<u8>,
    after: Seq<u8>,
    n: usize,
    i: int,
)
    requires
        0 <= x < fs.state.tree().inodes.len(),
        0 <= offset < fs.state.tree().inodes[x].size,
        read_outcome(fs, x, offset, before, after, Ok::<usize, Error>(n)),
        before.len() <= 0xFFFF_FFFF,
        0 <= i < before.len(),
    ensures
        ({
            let inode = fs.state.tree().inodes[x];
            let at = inode.data_block * 512 + offset;
            &&& after.len() == before.len()
            &&& n == before.len() || offset + n == inode.size
            &&& n <= before.len() && offset + n <= inode.size
            &&& i < n ==> after[i] == fs.device.image()[at + i]
            &&& i >= n ==> after[i] == before[i]
            &&& !inode.deleted && inode.kind != NodeKind::Directory
        }),
{
    let inode = fs.state.tree().inodes[x];
    let count = read_count(inode, offset, before.len() as int);
    let first = offset / 512;
    let end = block_span(offset + count);
    fs.device.lemma_read_fits(inode.data_block + first, (end - first) * 512);
    let start = (inode.data_block + first) * 512;
    let blocks = fs.device.image().subrange(start, start + (end - first) * 512);
    let from = offset % 512;
    assert(start + from == inode.data_block * 512 + offset);
    let part = blocks.subrange(from, from + count);
    if i < count {
        assert(part[i] == blocks[from + i]);
        assert(blocks[from + i] == fs.device.image()[start + from + i]);
    }
}

/// A read of a whole file is refused where the file has a checksum and the bytes of the disk
/// have another one.
pub proof fn law_damaged_file_is_not_read<D: BlockDevice>(
    fs: SimpleFs<D>,
    x: int,
    before: Seq<u8>,
    after: Seq<u8>,
    r: Result<usize>,
)
    requires
        0 <= x < fs.state.tree().inodes.len(),
        read_outcome(fs, x, 0, before, after, r),
        ({
            let inode = fs.state.tree().inodes[x];
            let at = inode.data_block * 512;
            &&& 0 < inode.size <= before.len()
            &&& inode.data_checksum != 0
            &&& at + inode.size <= fs.device.image().len()
            &&& data_checksum(fs.device.image().subrange(at, at + inode.size))
                != inode.data_checksum
        }),
    ensures
        r is Err,
{
    let inode = fs.state.tree().inodes[x];
    if r is Ok {
        let count = read_count(inode, 0, before.len() as int);
        let end = block_span(count);
        fs.device.lemma_read_fits(inode.data_block as int, end * 512);
        let start = inode.data_block * 512;
        let blocks = fs.device.image().subrange(start, start + end * 512);
        assert(blocks.take(inode.size as int) =~= fs.device.image().subrange(
            start,
            start + inode.size,
        ));
        assert(read_is_corrupt(inode, 0, count, blocks));
    }
}

// ── Creating and changing ──

/// A new file is empty, in use, has one block of its own, and the owner, group and mode that
/// were asked for, where the format stores them.
pub proof fn law_new_file_is_empty(
    t: TreeView,
    g: VolumeGeometry,
    parent: int,
    s: SecurityDescriptor,
    block: u32,
)
    ensures
        ({
            let i = new_file_inode(t, g, parent, Some(s), block as int);
            &&& i.kind == NodeKind::File && !i.deleted
            &&& i.size == 0 && i.data_block == block && i.block_count == 1
            &&& i.data_checksum == 0 && !i.compressed && !i.deduped
            &&& g.format_version == SimpleFsFormatVersion::V2 ==> i.persistent_security is None
            &&& g.format_version != SimpleFsFormatVersion::V2 ==> (
            i.persistent_security matches Some(d) && d.owner_uid == s.owner_uid && d.owner_gid
                == s.owner_gid && d.mode == s.mode)
        }),
{
}

/// A new file that no rights were asked for belongs to whom its directory belongs.
pub proof fn law_new_file_takes_its_owner_from_its_directory(
    t: TreeView,
    g: VolumeGeometry,
    parent: int,
    block: u32,
)
    requires
        g.format_version != SimpleFsFormatVersion::V2,
        t.inodes[parent].persistent_security is Some,
    ensures
        ({
            let d = t.inodes[parent].persistent_security->0;
            new_file_inode(t, g, parent, None, block as int).persistent_security matches Some(n)
                && n.owner_uid == d.owner_uid && n.owner_gid == d.owner_gid
        }),
{
}

/// New rights are those of the one node, field by field; the node is otherwise as it was, and
/// so is every other one.
pub proof fn law_rights_are_replaced(t: TreeView, i: int, s: SecurityDescriptor, j: int)
    requires
        0 <= i < t.inodes.len(),
        0 <= j < t.inodes.len(),
        i != j,
    ensures
        ({
            let n = described(t, i, s);
            let (x, y) = (t.inodes[i], n.inodes[i]);
            &&& y.persistent_security matches Some(d) && d.owner_uid == s.owner_uid && d.owner_gid
                == s.owner_gid && d.mode == s.mode
            &&& y.kind == x.kind && y.deleted == x.deleted && y.size == x.size
            &&& y.data_block == x.data_block && y.block_count == x.block_count
            &&& y.entry_start == x.entry_start && y.entry_count == x.entry_count
            &&& n.inodes[j] == t.inodes[j]
            &&& n.entries == t.entries && n.xattrs == t.xattrs && n.free == t.free
        }),
{
}

/// Nothing is created, renamed, removed or given other rights on a device that takes no
/// writes.
pub proof fn law_protected_device_stays_as_it_is<D: BlockDevice>(
    a: SimpleFs<D>,
    b: SimpleFs<D>,
    path: Seq<char>,
    other: Seq<char>,
    s: SecurityDescriptor,
    r: Result<usize>,
    done: Result<()>,
)
    requires
        a.device.write_protected(),
    ensures
        file_creation(a, b, path, None, r) ==> r == Err::<usize, Error>(Error::PermissionDenied)
            && b.device.image() == a.device.image() && b.state.tree() == a.state.tree(),
        rename_outcome(a, b, path, other, done) ==> done == Err::<(), Error>(
            Error::PermissionDenied,
        ) && b.device.image() == a.device.image() && b.state.tree() == a.state.tree(),
        removal_outcome(a, b, path, done) ==> done == Err::<(), Error>(Error::PermissionDenied)
            && b.device.image() == a.device.image() && b.state.tree() == a.state.tree(),
        security_update(a, b, path, s, done) ==> done == Err::<(), Error>(Error::PermissionDenied)
            && b.device.image() == a.device.image() && b.state.tree() == a.state.tree(),
{
    reveal(rename_outcome);
}

/// Where links are followed the attributes shown are those of the node at the end.
pub proof fn law_attributes_behind_links<D: BlockDevice>(fs: SimpleFs<D>, path: Seq<char>, i: int)
    requires
        follow(fs.state.tree(), fs.device, path, 0, fs.geometry.case_sensitive) == Ok::<int, Error>(
            i,
        ),
        0 <= i < fs.state.tree().inodes.len(),
        !fs.state.tree().inodes[i].deleted,
    ensures
        followed_metadata(fs, path) matches Ok(m) && m.kind == fs.state.tree().inodes[i].kind && (
        m.kind != NodeKind::Directory ==> m.size == fs.state.tree().inodes[i].size),
{
}

// ── Lists ──

/// How often a number occurs.
pub open spec fn occurrences(s: Seq<usize>, v: usize) -> int
    decreases s.len(),
{
    if s.len() == 0 {
        0
    } else {
        occurrences(s.drop_last(), v) + if s.last() == v {
            1int
        } else {
            0int
        }
    }
}

/// Closing a handle takes one handle of that node away, if there is any, and none of another.
pub proof fn law_one_handle_less(handles: Seq<usize>, index: usize, other: usize)
    requires
        other != index,
    ensures
        occurrences(without_one(handles, index), other) == occurrences(handles, other),
        occurrences(handles, index) > 0 ==> occurrences(without_one(handles, index), index)
            == occurrences(handles, index) - 1,
        occurrences(handles, index) <= 0 ==> occurrences(without_one(handles, index), index)
            == occurrences(handles, index),
        occurrences(handles, index) >= 0,
    decreases handles.len(),
{
    if handles.len() > 0 {
        law_one_handle_less(handles.drop_last(), index, other);
        if handles.last() != index {
            let front = without_one(handles.drop_last(), index);
            assert(front.push(handles.last()).drop_last() =~= front);
        }
    }
}

/// The attributes of a node are listed in the order of their records, each with its name and
/// its value, and no others are.
pub proof fn law_attributes_are_listed_one_by_one(xs: Seq<XattrView>, x: XattrView, i: int)
    requires
        x.name.len() == 64,
        x.value.len() == 256,
        x.name_len <= 64,
        x.value_len <= 256,
    ensures
        xattrs_listed(seq![], i) == Seq::<(Seq<u8>, Seq<u8>)>::empty(),
        x.status == 0 && x.inode_index == i ==> xattrs_listed(xs.push(x), i) == xattrs_listed(
            xs,
            i,
        ).push((x.name.subrange(0, x.name_len as int), x.value.subrange(0, x.value_len as int))),
        x.status != 0 || x.inode_index != i ==> xattrs_listed(xs.push(x), i) == xattrs_listed(
            xs,
            i,
        ),
{
    assert(xs.push(x).drop_last() =~= xs);
    assert(xs.push(x).last() == x);
    assert(x.name.take(x.name_len as int) =~= x.name.subrange(0, x.name_len as int));
    assert(x.value.take(x.value_len as int) =~= x.value.subrange(0, x.value_len as int));
}

/// An extent that leaves the pool is gone from it, and every other one stays.
pub proof fn law_extent_leaves_the_pool(
    extents: Seq<PooledExtent>,
    data_block: u32,
    block_count: u32,
    e: PooledExtent,
)
    ensures
        without_extent(extents, data_block, block_count).contains(e) <==> extents.contains(e) && !(
        e.data_block == data_block && e.block_count == block_count),
    decreases extents.len(),
{
    let all = without_extent(extents, data_block, block_count);
    if extents.len() > 0 {
        let front = extents.drop_last();
        let rest = without_extent(front, data_block, block_count);
        law_extent_leaves_the_pool(front, data_block, block_count, e);
        if extents.contains(e) {
            let k = choose|k: int| 0 <= k < extents.len() && extents[k] == e;
            if k < front.len() {
                assert(front[k] == e);
                assert(front.contains(e));
            } else {
                assert(e == extents.last());
            }
        }
        if front.contains(e) {
            let k = choose|k: int| 0 <= k < front.len() && front[k] == e;
            assert(extents[k] == e);
        }
        assert(extents[extents.len() - 1] == extents.last());
        if rest.contains(e) {
            let k = choose|k: int| 0 <= k < rest.len() && rest[k] == e;
            assert(all[k] == e);
        }
        if all.contains(e) {
            let k = choose|k: int| 0 <= k < all.len() && all[k] == e;
            if k < rest.len() {
                assert(rest[k] == e);
            }
        }
        if !(extents.last().data_block == data_block && extents.last().block_count == block_count) {
            assert(all[all.len() - 1] == extents.last());
        }
    }
}

/// The directories that a mount keeps a list of are the ones in use, every one of them.
pub proof fn law_directories_in_use_are_kept(inodes: Seq<OnDiskInode>, i: int)
    requires
        inodes.len() <= usize::MAX,
        0 <= i < inodes.len(),
    ensures
        live_dirs(inodes).contains(i as usize) <==> inodes[i].kind == NodeKind::Directory
            && !inodes[i].deleted,
{
    lemma_live_dirs(inodes, i);
}

proof fn lemma_live_dirs(inodes: Seq<OnDiskInode>, i: int)
    requires
        inodes.len() <= usize::MAX,
        0 <= i <= usize::MAX,
    ensures
        live_dirs(inodes).contains(i as usize) <==> i < inodes.len() && inodes[i].kind
            == NodeKind::Directory && !inodes[i].deleted,
    decreases inodes.len(),
{
    let all = live_dirs(inodes);
    if inodes.len() > 0 {
        let front = inodes.drop_last();
        let before = live_dirs(front);
        lemma_live_dirs(front, i);
        if i < front.len() {
            assert(front[i] == inodes[i]);
        }
        if before.contains(i as usize) {
            let k = choose|k: int| 0 <= k < before.len() && before[k] == i as usize;
            assert(all[k] == i as usize);
        }
        if all.contains(i as usize) {
            let k = choose|k: int| 0 <= k < all.len() && all[k] == i as usize;
            if k < before.len() {
                assert(before[k] == i as usize);
            }
        }
        if live_dir(inodes.last()) {
            assert(all[all.len() - 1] == (inodes.len() - 1) as usize);
        }
    }
}

// ── Targets of links ──

/// A short target is what the twelve bytes of the entry and block fields of its inode hold; a
/// longer one is the bytes of the disk from its block on.
pub proof fn law_link_target_is_read_from_its_place<D: BlockDevice>(
    device: D,
    inode: OnDiskInode,
    raw: Seq<u8>,
)
    requires
        inode.size > 0,
        raw.len() == 12,
        spells(raw, 0, inode.entry_start as int, 4),
        spells(raw, 4, inode.entry_count as int, 4),
        spells(raw, 8, inode.data_block as int, 4),
    ensures
        inode.block_count == 0 && inode.size <= 12 ==> symlink_target(device, inode) == Ok::<
            Seq<u8>,
            Error,
        >(raw.subrange(0, inode.size as int)),
        inode.block_count > 0 && inode.size <= 512 && symlink_target(device, inode) is Ok ==> ({
            let at = inode.data_block * 512;
            &&& at + inode.size <= device.image().len()
            &&& symlink_target(device, inode)->Ok_0 == device.image().subrange(
                at,
                at + inode.size,
            )
        }),
{
    if inode.block_count == 0 {
        lemma_le32_of_u32_at(raw, 0);
        lemma_le32_of_u32_at(raw, 4);
        lemma_le32_of_u32_at(raw, 8);
        law_four_bytes(raw, 0, inode.entry_start);
        law_four_bytes(raw, 4, inode.entry_count);
        law_four_bytes(raw, 8, inode.data_block);
        assert(packed_target(inode) =~= raw);
        if inode.size <= 12 {
            assert(packed_target(inode).take(inode.size as int) =~= raw.subrange(
                0,
                inode.size as int,
            ));
        }
    } else if inode.size <= 512 && symlink_target(device, inode) is Ok {
        let at = inode.data_block * 512;
        device.lemma_read_fits(inode.data_block as int, 512);
        let data = device.image().subrange(at, at + 512);
        assert(data.take(inode.size as int) =~= device.image().subrange(at, at + inode.size));
    }
}

// ── Staging directories ──

/// What a check clears out of a staging directory is every entry of it, by its own path.
pub proof fn law_staged_paths_are_those_of_the_entries(
    t: TreeView,
    g: VolumeGeometry,
    root: Seq<char>,
    i: int,
    k: int,
)
    requires
        lookup(t, root, g.case_sensitive) == Ok::<int, Error>(i),
        t.inodes[i].kind == NodeKind::Directory,
        0 <= k < t.inodes[i].entry_count,
    ensures
        staged_under(t, g, root).len() == t.inodes[i].entry_count,
        staged_under(t, g, root)[k] == root + seq!['/'] + t.entries[t.inodes[i].entry_start
            + k].name,
{
    reveal_strlit("/");
    assert("/"@ =~= seq!['/']);
}

/// The paths of several staging directories are those of each, one directory after the other.
pub proof fn law_staged_paths_of_every_directory(
    t: TreeView,
    g: VolumeGeometry,
    roots: Seq<Seq<char>>,
    root: Seq<char>,
)
    ensures
        staged_paths(t, g, seq![]).len() == 0,
        staged_paths(t, g, roots.push(root)) == staged_paths(t, g, roots) + staged_under(
            t,
            g,
            root,
        ),
{
    assert(roots.push(root).drop_last() =~= roots);
    assert(roots.push(root).last() == root);
}

/// Clearing lost blocks leaves every byte that a node in use holds.
pub proof fn law_clearing_keeps_what_is_held<D: BlockDevice>(
    a: SimpleFs<D>,
    b: SimpleFs<D>,
    inodes: Seq<OnDiskInode>,
    zeroed: nat,
    x: int,
    i: int,
)
    requires
        zeroing(a, b, inodes, zeroed),
        0 <= x < inodes.len(),
        !inodes[x].deleted,
        a.geometry.data_block_start <= inodes[x].data_block,
        (inodes[x].data_block + inodes[x].block_count) * 512 <= a.device.image().len(),
        inodes[x].data_block * 512 <= i < (inodes[x].data_block + inodes[x].block_count) * 512,
    ensures
        b.device.image()[i] == a.device.image()[i],
{
    let start = a.geometry.data_block_start as int;
    let total = (a.device.image().len() / 512) as int;
    assert(inodes[x].data_block + inodes[x].block_count <= total);
    law_held_block_is_not_lost(inodes, i / 512, start, total, x);
}

} // verus!
