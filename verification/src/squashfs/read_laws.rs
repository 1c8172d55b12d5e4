//! What is read from a compressed volume, said from the writer's side.
use vstd::prelude::*;

use crate::block::{BlockDevice, bytes_at, law_bytes_are_those_of_the_image};
use crate::bytes::u16_at;
use crate::error::{Error, Result};
use crate::iso9660::volume_laws::lemma_segments_join;
use crate::path::{nonempty, segments};
use crate::simplefs::path_laws::lemma_split_join;
use crate::spelling::{has_at, law_eight_bytes, law_four_bytes, law_two_bytes, lemma_between, lemma_low_first, lemma_part_at, lemma_spelled_at, low_first, spells};
use crate::squashfs::lz4::lz4_decoded;
use crate::squashfs::metadata::{chain_from, data_place, entries_of_dir, file_block, found_bytes, header_len, metadata_block, squashfs_read};
use crate::squashfs::types::{DirEntryView, DirInode, FileInode, FragmentEntry, InodeView, Superblock, dir_entries_from, group_entries, inode_at, name_end, squashfs_superblock_in};
use crate::squashfs::volume::{SquashfsVolume, dir_entry_named};
use crate::squashfs::xattrs::{squashfs_xattrs_from, xattr_prefix};
use crate::text::{split_on, utf8_lossy};

verus! {

/// The superblock's numbers are read from where they are written.
pub proof fn law_superblock_is_read(buf: Seq<u8>, sb: Superblock)
    requires
        buf.len() >= 96,
        spells(buf, 0, 0x7371_7368, 4),
        sb.magic == 0x7371_7368,
        spells(buf, 4, sb.inode_count as int, 4),
        spells(buf, 12, sb.block_size as int, 4),
        spells(buf, 20, sb.compression as int, 2),
        spells(buf, 24, sb.bytes_used as int, 8),
        spells(buf, 32, sb.fragment_entry_count as int, 4),
        spells(buf, 48, sb.id_table_start as int, 8),
        spells(buf, 56, sb.xattr_id_table_start as int, 8),
        spells(buf, 68, sb.root_inode_offset as int, 4),
    ensures
        squashfs_superblock_in(buf) == Some(sb),
{
    law_four_bytes(buf, 0, 0x7371_7368);
    law_four_bytes(buf, 4, sb.inode_count);
    law_four_bytes(buf, 12, sb.block_size);
    law_two_bytes(buf, 20, sb.compression);
    law_eight_bytes(buf, 24, sb.bytes_used);
    law_four_bytes(buf, 32, sb.fragment_entry_count);
    law_eight_bytes(buf, 48, sb.id_table_start);
    law_eight_bytes(buf, 56, sb.xattr_id_table_start);
    law_four_bytes(buf, 68, sb.root_inode_offset);
}

/// A buffer with another magic number holds no superblock.
pub proof fn law_other_magic_is_refused(buf: Seq<u8>, magic: u32)
    requires
        spells(buf, 0, magic as int, 4),
        magic != 0x7371_7368,
    ensures
        squashfs_superblock_in(buf) is None,
{
    law_four_bytes(buf, 0, magic);
}

/// A directory's inode gives its links, the length of its listing, where that lies and the
/// directory above.
pub proof fn law_directory_inode_is_read(
    table: Seq<u8>,
    at: int,
    nlink: u32,
    size: u32,
    start: u32,
    parent: u32,
)
    requires
        0 <= at,
        at + 20 <= table.len(),
        table[at] == 1,
        spells(table, at + 4, nlink as int, 4),
        spells(table, at + 8, size as int, 4),
        spells(table, at + 12, start as int, 4),
        spells(table, at + 16, parent as int, 4),
    ensures
        inode_at(table, at) == Some(
            (
                InodeView::Directory(
                    DirInode { nlink, file_size: size, start_block: start, parent_inode: parent },
                ),
                20int,
            ),
        ),
{
    law_four_bytes(table, at + 4, nlink);
    law_four_bytes(table, at + 8, size);
    law_four_bytes(table, at + 12, start);
    law_four_bytes(table, at + 16, parent);
}

/// A file's inode gives its links, its length, its fragment if it has one, and its data block.
pub proof fn law_file_inode_is_read(
    table: Seq<u8>,
    at: int,
    nlink: u32,
    size: u64,
    fragment: Option<FragmentEntry>,
    start: u32,
)
    requires
        0 <= at,
        table[at] == 2,
        spells(table, at + 4, nlink as int, 4),
        spells(table, at + 8, size as int, 8),
        match fragment {
            Some(f) => at + 28 <= table.len() && f.fragment_block_index != 0xFFFF_FFFF && spells(
                table,
                at + 16,
                f.fragment_block_index as int,
                4,
            ) && spells(table, at + 20, f.fragment_offset as int, 4) && spells(
                table,
                at + 24,
                start as int,
                4,
            ),
            None => at + 24 <= table.len() && spells(table, at + 16, 0xFFFF_FFFF, 4) && spells(
                table,
                at + 20,
                start as int,
                4,
            ),
        },
    ensures
        inode_at(table, at) == Some(
            (
                InodeView::File(
                    FileInode { nlink, file_size: size, start_block: start as u64, fragments: fragment },
                ),
                if fragment is Some {
                    28int
                } else {
                    24int
                },
            ),
        ),
{
    law_four_bytes(table, at + 4, nlink);
    law_eight_bytes(table, at + 8, size);
    match fragment {
        Some(f) => {
            law_four_bytes(table, at + 16, f.fragment_block_index);
            law_four_bytes(table, at + 20, f.fragment_offset);
            law_four_bytes(table, at + 24, start);
        },
        None => {
            law_four_bytes(table, at + 16, 0xFFFF_FFFF);
            law_four_bytes(table, at + 20, start);
        },
    }
}

/// A link's inode gives its target in full.
pub proof fn law_link_inode_is_read(table: Seq<u8>, at: int, nlink: u32, target: Seq<u8>)
    requires
        0 <= at,
        table[at] == 3,
        target.len() <= u32::MAX,
        spells(table, at + 4, nlink as int, 4),
        spells(table, at + 6, target.len() as int, 4),
        has_at(table, at + 10, target),
    ensures
        inode_at(table, at) == Some((InodeView::Symlink(nlink, target), 10 + target.len() as int)),
{
    law_four_bytes(table, at + 4, nlink);
    law_four_bytes(table, at + 6, target.len() as u32);
}

// ── Listings ──

/// A name in a listing, with what type of node it is.
pub struct StoredEntry {
    pub kind: u16,
    pub name: Seq<u8>,
}

/// Names that belong to one inode.
pub struct StoredGroup {
    pub spare: Seq<u8>,
    pub inode: u32,
    pub entries: Seq<StoredEntry>,
}

pub open spec fn listed_bytes(entries: Seq<StoredEntry>) -> Seq<u8>
    decreases entries.len(),
{
    if entries.len() == 0 {
        seq![]
    } else {
        low_first(entries[0].kind as int, 2) + entries[0].name + seq![0u8] + listed_bytes(
            entries.skip(1),
        )
    }
}

#[verifier::opaque]
pub open spec fn group_bytes(g: StoredGroup) -> Seq<u8> {
    low_first(listed_bytes(g.entries).len() - 1, 2) + g.spare + low_first(g.inode as int, 4)
        + listed_bytes(g.entries)
}

pub open spec fn groups_in_turn(groups: Seq<StoredGroup>) -> Seq<u8>
    decreases groups.len(),
{
    if groups.len() == 0 {
        seq![]
    } else {
        group_bytes(groups[0]) + groups_in_turn(groups.skip(1))
    }
}

pub open spec fn storable_group(g: StoredGroup) -> bool {
    &&& g.spare.len() == 2
    &&& g.entries.len() > 0
    &&& listed_bytes(g.entries).len() <= 0x1_0000
    &&& forall|i: int|
        #![trigger g.entries[i]]
        0 <= i < g.entries.len() ==> !g.entries[i].name.contains(0)
}

pub open spec fn entries_shown(entries: Seq<StoredEntry>, inode: u32) -> Seq<DirEntryView> {
    Seq::new(
        entries.len(),
        |i: int|
            DirEntryView {
                name: utf8_lossy(entries[i].name),
                inode_offset: inode,
                entry_type: entries[i].kind,
            },
    )
}

pub open spec fn groups_shown(groups: Seq<StoredGroup>) -> Seq<DirEntryView>
    decreases groups.len(),
{
    if groups.len() == 0 {
        seq![]
    } else {
        entries_shown(groups[0].entries, groups[0].inode) + groups_shown(groups.skip(1))
    }
}

proof fn lemma_name_stops(data: Seq<u8>, i: int, stop: int, end: int)
    requires
        0 <= i <= stop < data.len(),
        data[stop] == 0,
        forall|k: int| #![trigger data[k]] i <= k < stop ==> data[k] != 0,
    ensures
        name_end(data, i, end) == stop,
    decreases stop - i,
{
    if i < stop {
        lemma_name_stops(data, i + 1, stop, end);
    }
}

proof fn lemma_entries_listed(data: Seq<u8>, at: int, entries: Seq<StoredEntry>, inode: u32)
    requires
        has_at(data, at, listed_bytes(entries)),
        forall|i: int| #![trigger entries[i]] 0 <= i < entries.len() ==> !entries[i].name.contains(0),
    ensures
        group_entries(data, at, at + listed_bytes(entries).len(), inode) == entries_shown(
            entries,
            inode,
        ),
    decreases entries.len(),
{
    let whole = listed_bytes(entries);
    let end = at + whole.len();
    if entries.len() == 0 {
        assert(group_entries(data, at, end, inode) =~= entries_shown(entries, inode));
    } else {
        let e = entries[0];
        let n = e.name.len() as int;
        let rest = entries.skip(1);
        lemma_low_first(e.kind as int, 2);
        assert(whole.len() == 3 + n + listed_bytes(rest).len());
        assert(whole.subrange(0, 2) =~= low_first(e.kind as int, 2));
        assert(whole.subrange(2, 2 + n) =~= e.name);
        assert(whole.subrange(3 + n, whole.len() as int) =~= listed_bytes(rest));
        lemma_part_at(data, at, whole, 0, low_first(e.kind as int, 2));
        lemma_part_at(data, at, whole, 2, e.name);
        lemma_part_at(data, at, whole, 3 + n, listed_bytes(rest));
        lemma_spelled_at(data, at, e.kind as int, 2);
        law_two_bytes(data, at, e.kind);
        let stop = at + 2 + n;
        assert(data[stop] == 0) by {
            assert(data.subrange(at, end)[2 + n] == whole[2 + n]);
            assert(whole[2 + n] == 0);
        }
        assert forall|k: int| #![trigger data[k]] at + 2 <= k < stop implies data[k] != 0 by {
            assert(data.subrange(at + 2, at + 2 + n)[k - at - 2] == e.name[k - at - 2]);
            assert(e.name.contains(e.name[k - at - 2]));
        }
        lemma_name_stops(data, at + 2, stop, end);
        assert forall|i: int| #![trigger rest[i]] 0 <= i < rest.len() implies !rest[i].name.contains(0) by {
            assert(rest[i] == entries[i + 1]);
        }
        lemma_entries_listed(data, stop + 1, rest, inode);
        let first = DirEntryView {
            name: utf8_lossy(e.name),
            inode_offset: inode,
            entry_type: e.kind,
        };
        assert(seq![first] + entries_shown(rest, inode) =~= entries_shown(entries, inode));
    }
}

proof fn lemma_group_parts(g: StoredGroup)
    requires
        storable_group(g),
    ensures
        ({
            let b = group_bytes(g);
            let n = listed_bytes(g.entries).len() as int;
            &&& n >= 3
            &&& b.len() == 8 + n
            &&& has_at(b, 0, low_first(n - 1, 2))
            &&& has_at(b, 4, low_first(g.inode as int, 4))
            &&& has_at(b, 8, listed_bytes(g.entries))
        }),
{
    reveal(group_bytes);
    let b = group_bytes(g);
    let n = listed_bytes(g.entries).len() as int;
    lemma_low_first(n - 1, 2);
    lemma_low_first(g.inode as int, 4);
    lemma_low_first(g.entries[0].kind as int, 2);
    assert(b.subrange(0, 2) =~= low_first(n - 1, 2));
    assert(b.subrange(4, 8) =~= low_first(g.inode as int, 4));
    assert(b.subrange(8, b.len() as int) =~= listed_bytes(g.entries));
}

proof fn lemma_groups_listed(front: Seq<u8>, groups: Seq<StoredGroup>)
    requires
        forall|i: int| #![trigger groups[i]] 0 <= i < groups.len() ==> storable_group(groups[i]),
    ensures
        dir_entries_from(front + groups_in_turn(groups), front.len() as int) == groups_shown(groups),
    decreases groups.len(),
{
    let data = front + groups_in_turn(groups);
    let at = front.len() as int;
    if groups.len() == 0 {
        assert(dir_entries_from(data, at) =~= groups_shown(groups));
    } else {
        let g = groups[0];
        let b = group_bytes(g);
        let rest = groups.skip(1);
        let n = listed_bytes(g.entries).len() as int;
        assert(storable_group(g));
        lemma_group_parts(g);
        lemma_between(front, b, groups_in_turn(rest));
        lemma_part_at(data, at, b, 0, low_first(n - 1, 2));
        lemma_part_at(data, at, b, 4, low_first(g.inode as int, 4));
        lemma_part_at(data, at, b, 8, listed_bytes(g.entries));
        lemma_spelled_at(data, at, n - 1, 2);
        lemma_spelled_at(data, at + 4, g.inode as int, 4);
        law_two_bytes(data, at, (n - 1) as u16);
        law_four_bytes(data, at + 4, g.inode);
        lemma_entries_listed(data, at + 8, g.entries, g.inode);
        assert forall|i: int| #![trigger rest[i]] 0 <= i < rest.len() implies storable_group(rest[i]) by {
            assert(rest[i] == groups[i + 1]);
        }
        lemma_groups_listed(front + b, rest);
        if rest.len() == 0 {
            assert(groups_in_turn(rest) =~= seq![]);
            assert(groups_shown(rest) =~= seq![]);
        } else {
            assert(storable_group(rest[0]));
            lemma_group_parts(rest[0]);
        }
    }
}

/// A listing shows every name that was put in, in order, with its type and its inode.
pub proof fn law_listing_shows_every_name(groups: Seq<StoredGroup>)
    requires
        forall|i: int| #![trigger groups[i]] 0 <= i < groups.len() ==> storable_group(groups[i]),
    ensures
        dir_entries_from(groups_in_turn(groups), 0) == groups_shown(groups),
{
    let none = Seq::<u8>::empty();
    assert(none + groups_in_turn(groups) =~= groups_in_turn(groups));
    lemma_groups_listed(none, groups);
}

// ── Metadata ──

/// What a block with these bytes on the disk stands for: the bytes themselves, or what LZ4
/// makes of them, up to a limit.
pub open spec fn block_says(packed: bool, bytes: Seq<u8>, limit: int) -> core::result::Result<
    Seq<u8>,
    Error,
> {
    if !packed {
        Ok(bytes)
    } else {
        match lz4_decoded(bytes, limit).fault {
            Some(e) => Err(e),
            None => Ok(lz4_decoded(bytes, limit).out),
        }
    }
}

/// Where a chain of metadata blocks is read from, each block follows the header that gives its
/// length and, in the highest bit, whether it is packed. A block of less than full length ends
/// the chain; after a full one the next follows at once. Bytes are those that the disk holds.
pub proof fn law_metadata_chain<D: BlockDevice, Z: Fn(&[u8], usize) -> Result<Vec<u8>>>(
    device: D,
    z: Z,
    off: int,
    out: Seq<u8>,
    n: int,
    packed: bool,
)
    requires
        0 <= off,
        off + 0x8001 <= u64::MAX,
        1 <= n <= 8192,
        bytes_at(device, off, 2) is Ok,
        bytes_at(device, off + 2, n) is Ok,
        spells(
            device.image(),
            off,
            if packed {
                0x8000 + n
            } else {
                n
            },
            2,
        ),
    ensures
        chain_from(device, z, 2, off, out, None) == match block_says(
            packed,
            device.image().subrange(off + 2, off + 2 + n),
            8192,
        ) {
            Err(e) => Err::<Seq<u8>, Error>(e),
            Ok(block) => if block.len() < 8192 {
                Ok(out + block)
            } else {
                chain_from(device, z, 2, off + 2 + n, out + block, None)
            },
        },
{
    let h: int = if packed {
        0x8000 + n
    } else {
        n
    };
    let image = device.image();
    law_bytes_are_those_of_the_image(device, off + 2, n);
    lemma_header(device, off, h as u16);
    let bytes = image.subrange(off + 2, off + 2 + n);
    lemma_block_says(z, h as u16, n, packed, bytes);
}

proof fn lemma_header<D: BlockDevice>(device: D, off: int, h: u16)
    requires
        0 <= off,
        bytes_at(device, off, 2) is Ok,
        spells(device.image(), off, h as int, 2),
    ensures
        off + 2 <= device.image().len(),
        u16_at(bytes_at(device, off, 2)->Ok_0, 0) == h,
{
    let image = device.image();
    law_bytes_are_those_of_the_image(device, off, 2);
    law_two_bytes(image, off, h);
    let head = image.subrange(off, off + 2);
    assert(head[0] == image[off] && head[1] == image[off + 1]);
}

proof fn lemma_block_says<Z: Fn(&[u8], usize) -> Result<Vec<u8>>>(
    z: Z,
    h: u16,
    n: int,
    packed: bool,
    bytes: Seq<u8>,
)
    requires
        h == if packed {
            0x8000 + n
        } else {
            n
        },
        1 <= n <= 8192,
        bytes.len() == n,
    ensures
        metadata_block(z, 2, h, bytes) == block_says(packed, bytes, 8192),
        header_len(h) == n,
{
}

/// A chain that is read up to a length stops once that length is there.
pub proof fn law_metadata_limit<D: BlockDevice, Z: Fn(&[u8], usize) -> Result<Vec<u8>>>(
    device: D,
    z: Z,
    compression: u16,
    off: int,
    out: Seq<u8>,
    limit: int,
)
    requires
        out.len() >= limit,
    ensures
        chain_from(device, z, compression, off, out, Some(limit)) == Ok::<Seq<u8>, Error>(out),
{
}

// ── Files ──

/// A file's bytes are those of the block that lies its number of block sizes after the
/// superblock, behind a header like that of metadata; a read at an offset gives the ones from
/// there on, as many as were asked for and are there.
pub proof fn law_file_is_read_from_its_block<D: BlockDevice, Z: Fn(&[u8], usize) -> Result<Vec<u8>>>(
    device: D,
    z: Z,
    sb: Superblock,
    file: FileInode,
    offset: int,
    before: Seq<u8>,
    after: Seq<u8>,
    n: usize,
    len: int,
    packed: bool,
)
    requires
        0 <= offset < file.file_size,
        before.len() <= usize::MAX,
        sb.compression == 2,
        0 < sb.block_size,
        0 < len < 0x8000,
        squashfs_read(device, z, sb, file, offset, before, after, Ok(n)),
        spells(
            device.image(),
            96 + file.start_block * sb.block_size,
            if packed {
                0x8000 + len
            } else {
                len
            },
            2,
        ),
    ensures
        ({
            let base = 96 + file.start_block * sb.block_size;
            let bytes = device.image().subrange(base + 2, base + 2 + len);
            match block_says(packed, bytes, sb.block_size as int) {
                Err(_) => false,
                Ok(content) => {
                    let most = if content.len() < file.file_size {
                        content.len() as int
                    } else {
                        file.file_size as int
                    };
                    &&& base + 2 + len <= device.image().len()
                    &&& n as int == if offset >= most {
                        0
                    } else if most - offset < before.len() {
                        most - offset
                    } else {
                        before.len() as int
                    }
                    &&& after.len() == before.len()
                    &&& forall|i: int| #![trigger after[i]] 0 <= i < n ==> after[i] == content[offset + i]
                    &&& forall|i: int| #![trigger after[i]] n <= i < after.len() ==> after[i] == before[i]
                },
            }
        }),
{
    lemma_file_content(device, z, sb, file, len, packed);
    let content = file_block(device, z, sb, file)->Ok_0;
    lemma_found(content, file.file_size as int, offset, before.len() as int);
}

proof fn lemma_file_content<D: BlockDevice, Z: Fn(&[u8], usize) -> Result<Vec<u8>>>(
    device: D,
    z: Z,
    sb: Superblock,
    file: FileInode,
    len: int,
    packed: bool,
)
    requires
        sb.compression == 2,
        0 < sb.block_size,
        0 < len < 0x8000,
        file_block(device, z, sb, file) is Ok,
        spells(
            device.image(),
            96 + file.start_block * sb.block_size,
            if packed {
                0x8000 + len
            } else {
                len
            },
            2,
        ),
    ensures
        ({
            let base = 96 + file.start_block * sb.block_size;
            let bytes = device.image().subrange(base + 2, base + 2 + len);
            &&& base + 2 + len <= device.image().len()
            &&& file_block(device, z, sb, file) == block_says(packed, bytes, sb.block_size as int)
        }),
{
    let h: int = if packed {
        0x8000 + len
    } else {
        len
    };
    let base = 96 + file.start_block * sb.block_size;
    assert(0 <= file.start_block * sb.block_size) by (nonlinear_arith);
    assert(base == data_place(sb, file));
    lemma_header(device, base, h as u16);
    assert(header_len(h as u16) == len);
    law_bytes_are_those_of_the_image(device, base + 2, len);
}

proof fn lemma_found(content: Seq<u8>, size: int, offset: int, wanted: int)
    requires
        0 <= offset < size,
        0 <= wanted,
    ensures
        ({
            let found = found_bytes(content, size, offset, wanted);
            let most = if content.len() < size {
                content.len() as int
            } else {
                size
            };
            &&& found.len() == if offset >= most {
                0
            } else if most - offset < wanted {
                most - offset
            } else {
                wanted
            }
            &&& forall|i: int| #![trigger found[i]] 0 <= i < found.len() ==> found[i] == content[offset + i]
        }),
{
}

/// Pieces of a file are pieces of the whole.
pub proof fn law_squashfs_pieces<D: BlockDevice, Z: Fn(&[u8], usize) -> Result<Vec<u8>>>(
    device: D,
    z: Z,
    sb: Superblock,
    file: FileInode,
    blank: Seq<u8>,
    whole: Seq<u8>,
    n: usize,
    offset: int,
    before: Seq<u8>,
    piece: Seq<u8>,
    m: usize,
)
    requires
        0 <= offset,
        0 < file.file_size <= blank.len() <= usize::MAX,
        before.len() <= usize::MAX,
        squashfs_read(device, z, sb, file, 0, blank, whole, Ok(n)),
        squashfs_read(device, z, sb, file, offset, before, piece, Ok(m)),
    ensures
        offset <= n ==> offset + m <= n && piece.take(m as int) == whole.subrange(offset, offset + m),
        offset + before.len() <= n ==> m == before.len(),
        offset >= n ==> m == 0,
{
    if offset <= n && offset < file.file_size {
        let content = file_block(device, z, sb, file)->Ok_0;
        assert(piece.take(m as int) =~= whole.subrange(offset, offset + m));
    } else if offset <= n {
        assert(piece.take(0) =~= whole.subrange(offset, offset));
    }
}

// ── Paths ──

proof fn lemma_named_entry(entries: Seq<DirEntryView>, name: Seq<char>, i: int)
    requires
        0 <= i,
    ensures
        match dir_entry_named(entries, name, i) {
            Some(k) => i <= k < entries.len() && entries[k].name == name && forall|j: int|
                #![trigger entries[j]]
                i <= j < k ==> entries[j].name != name,
            None => forall|j: int|
                #![trigger entries[j]]
                i <= j < entries.len() ==> entries[j].name != name,
        },
    decreases entries.len() - i,
{
    if i < entries.len() && entries[i].name != name {
        lemma_named_entry(entries, name, i + 1);
    }
}

/// Where a name leads from an inode.
#[verifier::opaque]
pub open spec fn one_step<D: BlockDevice, Z: Fn(&[u8], usize) -> Result<Vec<u8>>>(
    v: SquashfsVolume<D, Z>,
    at: u32,
    name: Seq<char>,
) -> core::result::Result<u32, Error> {
    match inode_at(v.inodes@, at as int) {
        None => Err(Error::InvalidArgument),
        Some((InodeView::Directory(d), _)) => match entries_of_dir(v.device, v.zstd, v.sb, d) {
            Err(e) => Err(e),
            Ok(entries) => match dir_entry_named(entries, name, 0) {
                None => Err(Error::NotFound),
                Some(k) => Ok(entries[k].inode_offset),
            },
        },
        Some(_) => Err(Error::NotFound),
    }
}

proof fn lemma_one_step<D: BlockDevice, Z: Fn(&[u8], usize) -> Result<Vec<u8>>>(
    v: SquashfsVolume<D, Z>,
    at: u32,
    parts: Seq<Seq<char>>,
    i: int,
)
    requires
        0 <= i < parts.len(),
    ensures
        v.walk(at, parts, i) == match one_step(v, at, parts[i]) {
            Err(e) => Err::<u32, Error>(e),
            Ok(x) => v.walk(x, parts, i + 1),
        },
{
    reveal(one_step);
}

proof fn lemma_walked<D: BlockDevice, Z: Fn(&[u8], usize) -> Result<Vec<u8>>>(
    v: SquashfsVolume<D, Z>,
    at: u32,
    parts: Seq<Seq<char>>,
)
    ensures
        v.walk(at, parts, parts.len() as int) == Ok::<u32, Error>(at),
{
}

proof fn lemma_walk_further<D: BlockDevice, Z: Fn(&[u8], usize) -> Result<Vec<u8>>>(
    v: SquashfsVolume<D, Z>,
    at: u32,
    parts: Seq<Seq<char>>,
    i: int,
    name: Seq<char>,
)
    requires
        0 <= i <= parts.len(),
    ensures
        v.walk(at, parts.push(name), i) == match v.walk(at, parts, i) {
            Err(e) => Err::<u32, Error>(e),
            Ok(x) => one_step(v, x, name),
        },
    decreases parts.len() - i,
{
    let all = parts.push(name);
    lemma_one_step(v, at, all, i);
    if i == parts.len() {
        assert(all[i] == name);
        lemma_walked(v, at, parts);
        match one_step(v, at, name) {
            Ok(x) => {
                lemma_walked(v, x, all);
            },
            Err(_) => {},
        }
    } else {
        assert(all[i] == parts[i]);
        lemma_one_step(v, at, parts, i);
        match one_step(v, at, parts[i]) {
            Ok(x) => {
                lemma_walk_further(v, x, parts, i + 1, name);
            },
            Err(_) => {},
        }
    }
}

/// A path one longer leads to the inode of the first entry of that name in the directory that
/// the path leads to, and to nothing where there is none.
pub proof fn law_squashfs_path_leads_to_the_entry<
    D: BlockDevice,
    Z: Fn(&[u8], usize) -> Result<Vec<u8>>,
>(
    v: SquashfsVolume<D, Z>,
    path: Seq<char>,
    at: u32,
    dir: DirInode,
    used: int,
    entries: Seq<DirEntryView>,
    name: Seq<char>,
    k: int,
)
    requires
        v.resolved(path) == Ok::<u32, Error>(at),
        inode_at(v.inodes@, at as int) == Some((InodeView::Directory(dir), used)),
        entries_of_dir(v.device, v.zstd, v.sb, dir) == Ok::<Seq<DirEntryView>, Error>(entries),
        name.len() > 0,
        !name.contains('/'),
        0 <= k <= entries.len(),
        forall|j: int| #![trigger entries[j]] 0 <= j < k ==> entries[j].name != name,
        k < entries.len() ==> entries[k].name == name,
    ensures
        v.resolved(path + seq!['/'] + name) == if k == entries.len() {
            Err::<u32, Error>(Error::NotFound)
        } else {
            Ok(entries[k].inode_offset)
        },
        v.resolved(seq!['/']) == Ok::<u32, Error>(v.sb.root_inode_offset),
{
    lemma_segments_join(path, name);
    let parts = segments(path);
    lemma_walk_further(v, v.sb.root_inode_offset, parts, 0, name);
    lemma_named_entry(entries, name, 0);
    assert(one_step(v, at, name) == if k == entries.len() {
        Err::<u32, Error>(Error::NotFound)
    } else {
        Ok(entries[k].inode_offset)
    }) by {
        reveal(one_step);
    }
    lemma_root_segments();
}

pub proof fn lemma_root_segments()
    ensures
        segments(seq!['/']) == Seq::<Seq<char>>::empty(),
{
    let e = Seq::<char>::empty();
    assert(seq!['/'] =~= e + seq!['/'] + e);
    lemma_split_join(e, e, '/');
    assert(split_on(e, '/') =~= seq![e]);
    reveal_with_fuel(nonempty, 4);
    assert(seq![e].push(e).drop_last() =~= seq![e]);
    assert(seq![e].drop_last() =~= Seq::<Seq<char>>::empty());
}

// ── Attributes ──

/// An attribute as a volume stores it, its value beside its name.
pub struct StoredAttribute {
    pub namespace: u8,
    pub flags: u8,
    pub name: Seq<u8>,
    pub value: Seq<u8>,
}

pub open spec fn attribute_bytes(a: StoredAttribute) -> Seq<u8> {
    seq![a.namespace, a.flags] + low_first(a.name.len() as int, 2) + a.name + low_first(
        a.value.len() as int,
        4,
    ) + a.value
}

pub open spec fn attributes_in_turn(list: Seq<StoredAttribute>) -> Seq<u8>
    decreases list.len(),
{
    if list.len() == 0 {
        seq![]
    } else {
        attribute_bytes(list[0]) + attributes_in_turn(list.skip(1))
    }
}

pub open spec fn storable_attribute(a: StoredAttribute) -> bool {
    a.flags % 2 == 0 && a.name.len() <= 0xffff && a.value.len() <= u32::MAX
}

/// The name of a namespace, with a dot after it.
pub open spec fn namespace_text(namespace: u8) -> Seq<u8> {
    if namespace == 0 {
        seq![117u8, 115, 101, 114, 46]
    } else if namespace == 1 {
        seq![116u8, 114, 117, 115, 116, 101, 100, 46]
    } else if namespace == 2 {
        seq![115u8, 101, 99, 117, 114, 105, 116, 121, 46]
    } else if namespace == 3 {
        seq![115u8, 121, 115, 116, 101, 109, 46]
    } else {
        seq![]
    }
}

pub open spec fn attributes_shown(list: Seq<StoredAttribute>) -> Seq<(Seq<u8>, Seq<u8>)> {
    Seq::new(
        list.len(),
        |i: int| (namespace_text(list[i].namespace) + list[i].name, list[i].value),
    )
}

proof fn lemma_attributes_read(front: Seq<u8>, list: Seq<StoredAttribute>)
    requires
        forall|i: int| #![trigger list[i]] 0 <= i < list.len() ==> storable_attribute(list[i]),
    ensures
        squashfs_xattrs_from(
            front + attributes_in_turn(list),
            front.len() as int,
            list.len() as int,
        ) == attributes_shown(list),
    decreases list.len(),
{
    let data = front + attributes_in_turn(list);
    let at = front.len() as int;
    if list.len() == 0 {
        assert(squashfs_xattrs_from(data, at, 0) =~= attributes_shown(list));
    } else {
        let a = list[0];
        let b = attribute_bytes(a);
        let rest = list.skip(1);
        let n = a.name.len() as int;
        let m = a.value.len() as int;
        assert(storable_attribute(a));
        lemma_low_first(n, 2);
        lemma_low_first(m, 4);
        assert(b.len() == 8 + n + m);
        assert(b.subrange(2, 4) =~= low_first(n, 2));
        assert(b.subrange(4, 4 + n) =~= a.name);
        assert(b.subrange(4 + n, 8 + n) =~= low_first(m, 4));
        assert(b.subrange(8 + n, b.len() as int) =~= a.value);
        lemma_between(front, b, attributes_in_turn(rest));
        lemma_part_at(data, at, b, 2, low_first(n, 2));
        lemma_part_at(data, at, b, 4, a.name);
        lemma_part_at(data, at, b, 4 + n, low_first(m, 4));
        lemma_part_at(data, at, b, 8 + n, a.value);
        lemma_spelled_at(data, at + 2, n, 2);
        lemma_spelled_at(data, at + 4 + n, m, 4);
        law_two_bytes(data, at + 2, n as u16);
        law_four_bytes(data, at + 4 + n, m as u32);
        assert(data.subrange(at, at + b.len())[0] == data[at]);
        assert(data.subrange(at, at + b.len())[1] == data[at + 1]);
        assert(xattr_prefix(a.namespace as int) =~= namespace_text(a.namespace));
        assert forall|i: int| #![trigger rest[i]] 0 <= i < rest.len() implies storable_attribute(rest[i]) by {
            assert(rest[i] == list[i + 1]);
        }
        lemma_attributes_read(front + b, rest);
        let first = (namespace_text(a.namespace) + a.name, a.value);
        assert(seq![first] + attributes_shown(rest) =~= attributes_shown(list));
    }
}

/// Every attribute that is stored is read, in order, its name after that of its namespace,
/// with its value.
pub proof fn law_attributes_are_read(list: Seq<StoredAttribute>)
    requires
        forall|i: int| #![trigger list[i]] 0 <= i < list.len() ==> storable_attribute(list[i]),
    ensures
        squashfs_xattrs_from(attributes_in_turn(list), 0, list.len() as int) == attributes_shown(
            list,
        ),
{
    let none = Seq::<u8>::empty();
    assert(none + attributes_in_turn(list) =~= attributes_in_turn(list));
    lemma_attributes_read(none, list);
}

} // verus!
