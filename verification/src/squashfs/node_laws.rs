//! What nodes show, and where their attributes are found.
use vstd::prelude::*;

use crate::block::{BlockDevice, law_bytes_are_those_of_the_image};
use crate::error::{Error, Result};
use crate::path::{canonical, canonical_part, lemma_segments_of_rooted, rooted};
use crate::spelling::{law_eight_bytes, law_four_bytes, spells};
use crate::squashfs::metadata::{chain_from, inode_table_of, squashfs_superblock_of};
use crate::squashfs::types::{DirInode, FileInode, InodeView, Superblock, squashfs_superblock_in};
use crate::squashfs::volume::{SquashfsVolume, last_name, shown};
use crate::squashfs::xattrs::{squashfs_xattrs_from, xattr_index_at};
use crate::vfs::NodeKind;

verus! {

/// A listing shows a directory and a link without a size, and a file with its own.
pub proof fn law_nodes_are_shown(d: DirInode, f: FileInode, n: int)
    ensures
        shown(Some((InodeView::Directory(d), n))) == (NodeKind::Directory, 0usize),
        shown(Some((InodeView::File(f), n))).0 == NodeKind::File,
        f.file_size <= 0xFFFF_FFFF ==> shown(Some((InodeView::File(f), n))).1 == f.file_size,
{
}

/// The last component of a path is the name that a node goes by, and the root goes by a slash.
pub proof fn law_node_goes_by_its_last_name(parts: Seq<Seq<char>>, name: Seq<char>)
    requires
        canonical(parts),
        canonical_part(name),
    ensures
        last_name(rooted(parts.push(name))) == name,
        last_name(seq!['/']) == seq!['/'],
{
    assert forall|k: int| #![trigger parts.push(name)[k]] 0 <= k < parts.push(name).len() implies canonical_part(
        parts.push(name)[k],
    ) by {
        if k < parts.len() {
            assert(parts.push(name)[k] == parts[k]);
        }
    }
    lemma_segments_of_rooted(parts.push(name));
    let none = Seq::<Seq<char>>::empty();
    lemma_segments_of_rooted(none);
    assert(parts.push(name).last() == name);
}

/// The attribute index of an extended directory stands in bytes 16 to 19 of its inode, and that
/// of an extended link behind its target.
pub proof fn law_attribute_index_is_read(table: Seq<u8>, at: int, index: u32, len: u32)
    requires
        0 <= at,
    ensures
        at + 24 <= table.len() && spells(table, at + 16, index as int, 4) ==> xattr_index_at(
            table,
            at,
            8,
        ) == Some((index, 24int)),
        at + 14 + len <= table.len() && spells(table, at + 6, len as int, 4) && spells(
            table,
            at + 10 + len,
            index as int,
            4,
        ) ==> xattr_index_at(table, at, 10) == Some((index, 14int + len)),
{
    if spells(table, at + 16, index as int, 4) {
        law_four_bytes(table, at + 16, index);
    }
    if spells(table, at + 6, len as int, 4) {
        law_four_bytes(table, at + 6, len);
        if spells(table, at + 10 + len, index as int, 4) {
            law_four_bytes(table, at + 10 + len, index);
        }
    }
}

/// The entry of an index in the attribute table is the sixteen bytes behind the entries before
/// it: where the attributes are, how many and how long they are.
pub proof fn law_attribute_entry_is_read<D: BlockDevice, Z: Fn(&[u8], usize) -> Result<Vec<u8>>>(
    v: SquashfsVolume<D, Z>,
    index: u32,
    table: Seq<u8>,
    place: u64,
    count: u32,
    size: u32,
)
    requires
        chain_from(
            v.device,
            v.zstd,
            v.sb.compression,
            v.sb.xattr_id_table_start as int,
            seq![],
            Some((v.sb.inode_count + 1) * 16),
        ) == Ok::<Seq<u8>, Error>(table),
        16 * index + 16 <= table.len(),
        spells(table, 16 * index, place as int, 8),
        spells(table, 16 * index + 8, count as int, 4),
        spells(table, 16 * index + 12, size as int, 4),
    ensures
        v.xattr_id(index) == Some((place, count, size)),
{
    law_eight_bytes(table, 16 * index, place);
    law_four_bytes(table, 16 * index + 8, count);
    law_four_bytes(table, 16 * index + 12, size);
}

/// The superblock is read from the first 96 bytes of the disk, and the inodes from the blocks
/// behind it.
pub proof fn law_superblock_is_that_of_the_disk<
    D: BlockDevice,
    Z: Fn(&[u8], usize) -> Result<Vec<u8>>,
>(device: D, z: Z, sb: Superblock)
    requires
        squashfs_superblock_of(device) == Ok::<Superblock, Error>(sb),
    ensures
        device.image().len() >= 96,
        squashfs_superblock_in(device.image().subrange(0, 96)) == Some(sb),
        inode_table_of(device, z, sb) == chain_from(device, z, sb.compression, 96, seq![], None),
{
    law_bytes_are_those_of_the_image(device, 0, 96);
}

/// The attributes of an extended inode are those in the chain that its entry of the attribute
/// table points at, as many as the entry says; an inode of another type has none.
pub proof fn law_attributes_of_an_inode<D: BlockDevice, Z: Fn(&[u8], usize) -> Result<Vec<u8>>>(
    v: SquashfsVolume<D, Z>,
    at: u32,
    index: u32,
    n: int,
    place: u64,
    count: u32,
    size: u32,
    data: Seq<u8>,
)
    requires
        at < v.inodes@.len(),
        v.sb.xattr_id_table_start > 0,
        v.inodes@[at as int] >= 8 ==> xattr_index_at(v.inodes@, at as int, v.inodes@[at as int])
            == Some((index, n)),
        index != 0xFFFF_FFFF,
        v.xattr_id(index) == Some((place, count, size)),
        place != 0xFFFF_FFFF_FFFF_FFFF,
        chain_from(v.device, v.zstd, v.sb.compression, place as int, seq![], Some(size as int))
            == Ok::<Seq<u8>, Error>(data),
    ensures
        v.inodes@[at as int] < 8 ==> v.xattrs_of(at).len() == 0,
        v.inodes@[at as int] >= 8 && count > 0 ==> v.xattrs_of(at) == squashfs_xattrs_from(
            data,
            0,
            count as int,
        ),
        count == 0 ==> v.xattrs_of(at).len() == 0,
{
}

} // verus!
