//! Where a volume keeps what it says, byte by byte.
use vstd::arithmetic::div_mod::lemma_mul_mod_noop_left;
use vstd::prelude::*;
use vstd::utf8::encode_utf8;

use crate::block::BlockDevice;
use crate::bytes::u32_at;
use crate::error::Error;
use crate::simplefs::constants::MAGIC;
use crate::simplefs::encode::{is_dirent_record, is_inode_record};
use crate::simplefs::file_read::{checksum_upto, data_checksum};
use crate::simplefs::superblock::{checksum_of, checksum_step, is_superblock, label_field, record_valid, superblock_contents};
use crate::simplefs::tables::{dirent_at, dirents_in, inode_at, padded, stored_inodes};
use crate::simplefs::types::{DirEntryView, OnDiskInode, ParsedSuperblock, SimpleFsFormatVersion, SuperblockRecord, XattrView};
use crate::simplefs::xattr_table::xattr_at;
use crate::spelling::{has_at, law_bytes_spell_what_is_read, law_four_bytes, law_two_bytes, lemma_spells_moved, spells};
use crate::vfs::NodeKind;

verus! {

// ── The superblock ──

/// Whether the fields of a superblock spell a record.
pub open spec fn spells_record(s: Seq<u8>, r: SuperblockRecord) -> bool {
    &&& spells(s, 16, r.inode_count as int, 4)
    &&& spells(s, 20, r.dirent_count as int, 4)
    &&& spells(s, 24, r.active_inode_table_block as int, 4)
    &&& spells(s, 28, r.active_dirent_table_block as int, 4)
    &&& spells(s, 32, r.data_block_start as int, 4)
    &&& spells(s, 36, r.shadow_inode_table_block as int, 4)
    &&& spells(s, 40, r.shadow_dirent_table_block as int, 4)
    &&& spells(s, 44, r.inode_table_blocks as int, 4)
    &&& spells(s, 48, r.dirent_table_blocks as int, 4)
    &&& spells(s, 52, r.generation as int, 4)
    &&& spells(s, 96, r.pending_commit as int, 4)
    &&& spells(s, 100, r.active_xattr_table_block as int, 4)
    &&& spells(s, 104, r.shadow_xattr_table_block as int, 4)
    &&& spells(s, 108, r.xattr_table_blocks as int, 4)
    &&& spells(s, 112, r.xattr_count as int, 4)
}

/// The number that stands for a format on disk.
pub open spec fn format_number(version: SimpleFsFormatVersion) -> int {
    match version {
        SimpleFsFormatVersion::V2 => 2,
        SimpleFsFormatVersion::V3PersistentSecurityDescriptors => 3,
        SimpleFsFormatVersion::V4PersistentSecurityDescriptorsWithXattrs => 4,
    }
}

/// The letters `ADAFS1` and two zeros.
pub open spec fn volume_mark() -> Seq<u8> {
    seq![0x41u8, 0x44u8, 0x41u8, 0x46u8, 0x53u8, 0x31u8, 0u8, 0u8]
}

/// A superblock is written with its mark first, then its format, its block size, every field
/// of its record and its label, each at its place. Only the first format leaves out the
/// commit that is under way.
pub proof fn law_written_superblock_is_laid_out(
    s: Seq<u8>,
    label: Seq<char>,
    version: SimpleFsFormatVersion,
    record: SuperblockRecord,
)
    requires
        is_superblock(s, label, version, record),
        version == SimpleFsFormatVersion::V2 ==> record.pending_commit == 0,
    ensures
        s.len() == 512,
        has_at(s, 0, volume_mark()),
        spells(s, 8, format_number(version), 4),
        spells(s, 12, 512, 4),
        spells_record(s, record),
        encode_utf8(label).len() <= 32 ==> has_at(s, 64, encode_utf8(label)),
        forall|i: int|
            64 + encode_utf8(label).len() <= i < 96 || 116 <= i < 512 ==> #[trigger] s[i] == 0,
{
    assert(volume_mark() =~= MAGIC@);
    assert(s.subrange(0, 8) =~= s.take(8));
    let places = seq![8int, 12, 16, 20, 24, 28, 32, 36, 40, 44, 48, 52, 96, 100, 104, 108, 112];
    assert forall|k: int| 0 <= k < places.len() implies spells(
        s,
        #[trigger] places[k],
        u32_at(s, places[k]) as int,
        4,
    ) by {
        law_bytes_spell_what_is_read(s, places[k]);
    }
    assert(places[0] == 8 && places[1] == 12 && places[2] == 16 && places[3] == 20 && places[4]
        == 24 && places[5] == 28 && places[6] == 32 && places[7] == 36 && places[8] == 40);
    assert(places[9] == 44 && places[10] == 48 && places[11] == 52 && places[12] == 96 && places[13]
        == 100 && places[14] == 104 && places[15] == 108 && places[16] == 112);
    let b = encode_utf8(label);
    let field = label_field(s);
    assert forall|i: int| 64 + b.len() <= i < 96 implies #[trigger] s[i] == 0 by {
        assert(field[i - 64] == s[i]);
    }
    if b.len() <= 32 {
        assert(s.subrange(64, 64int + b.len()) =~= b) by {
            assert forall|i: int| 0 <= i < b.len() implies s[64 + i] == b[i] by {
                assert(field[i] == s[64 + i]);
            }
        }
    }
}

/// A block with the mark, a format that is known, the block size, a soundly laid out record
/// and its checksum says that record.
pub proof fn law_superblock_is_read_as_written(
    s: Seq<u8>,
    version: SimpleFsFormatVersion,
    record: SuperblockRecord,
)
    requires
        s.len() == 512,
        has_at(s, 0, volume_mark()),
        spells(s, 8, format_number(version), 4),
        spells(s, 12, 512, 4),
        spells_record(s, record),
        spells(s, 56, checksum_of(s) as int, 4),
        record_valid(record),
        version == SimpleFsFormatVersion::V2 ==> record.pending_commit == 0,
    ensures
        superblock_contents(s) matches Ok(c) && c.1 == (ParsedSuperblock {
            format_version: version,
            record,
        }),
{
    assert(volume_mark() =~= MAGIC@);
    assert(s.subrange(0, 8) =~= s.take(8));
    law_four_bytes(s, 8, format_number(version) as u32);
    law_four_bytes(s, 12, 512);
    law_four_bytes(s, 16, record.inode_count);
    law_four_bytes(s, 20, record.dirent_count);
    law_four_bytes(s, 24, record.active_inode_table_block);
    law_four_bytes(s, 28, record.active_dirent_table_block);
    law_four_bytes(s, 32, record.data_block_start);
    law_four_bytes(s, 36, record.shadow_inode_table_block);
    law_four_bytes(s, 40, record.shadow_dirent_table_block);
    law_four_bytes(s, 44, record.inode_table_blocks);
    law_four_bytes(s, 48, record.dirent_table_blocks);
    law_four_bytes(s, 52, record.generation);
    law_four_bytes(s, 56, checksum_of(s));
    law_four_bytes(s, 96, record.pending_commit);
    law_four_bytes(s, 100, record.active_xattr_table_block);
    law_four_bytes(s, 104, record.shadow_xattr_table_block);
    law_four_bytes(s, 108, record.xattr_table_blocks);
    law_four_bytes(s, 112, record.xattr_count);
}

/// Whether a block belongs to a run of blocks.
pub open spec fn in_blocks(b: int, start: u32, count: u32) -> bool {
    start <= b < start + count
}

/// In a record that is accepted the tables of both slots, the superblocks and the data area
/// share no block, and each entry table lies directly behind its inode table.
pub proof fn law_accepted_areas_are_apart(r: SuperblockRecord, b: int)
    requires
        record_valid(r),
        0 <= b,
    ensures
        ({
            let ai = in_blocks(b, r.active_inode_table_block, r.inode_table_blocks);
            let ad = in_blocks(b, r.active_dirent_table_block, r.dirent_table_blocks);
            let si = in_blocks(b, r.shadow_inode_table_block, r.inode_table_blocks);
            let sd = in_blocks(b, r.shadow_dirent_table_block, r.dirent_table_blocks);
            &&& !(ai && ad) && !(ai && si) && !(ai && sd) && !(ad && si) && !(ad && sd) && !(si
                && sd)
            &&& b < 2 ==> !ai && !ad && !si && !sd
            &&& b >= r.data_block_start ==> !ai && !ad && !si && !sd
            &&& r.inode_table_blocks > 0
            &&& r.active_dirent_table_block == r.active_inode_table_block + r.inode_table_blocks
            &&& r.shadow_dirent_table_block == r.shadow_inode_table_block + r.inode_table_blocks
        }),
{
}

/// A record whose two slots lie one behind the other, behind the superblocks and before the
/// data, in either order and with any gaps, is accepted.
pub proof fn law_slots_in_a_row_are_accepted(r: SuperblockRecord)
    requires
        r.inode_table_blocks > 0,
        ({
            let (a, s) = (r.active_inode_table_block, r.shadow_inode_table_block);
            let n = r.inode_table_blocks + r.dirent_table_blocks;
            &&& (2 <= a && a + n <= s && s + n <= r.data_block_start) || (2 <= s && s + n <= a && a
                + n <= r.data_block_start)
            &&& r.active_dirent_table_block == a + r.inode_table_blocks
            &&& r.shadow_dirent_table_block == s + r.inode_table_blocks
        }),
    ensures
        record_valid(r),
{
}

/// The checksum of nothing is the offset basis; one more byte is mixed into it and multiplied
/// by the prime, but for the four bytes that store the checksum itself.
pub proof fn law_checksum_goes_byte_by_byte(block: Seq<u8>, byte: u8)
    ensures
        checksum_of(seq![]) == 0x811c_9dc5,
        56 <= block.len() < 60 ==> checksum_of(block.push(byte)) == checksum_of(block),
        !(56 <= block.len() < 60) ==> checksum_of(block.push(byte)) as int == ((checksum_of(block)
            ^ byte as u32) * 0x0100_0193) % 0x1_0000_0000,
{
    assert(block.push(byte).drop_last() =~= block);
    assert(block.push(byte).last() == byte);
}

proof fn lemma_step_injective(a: u32, b: u32, x: u8, y: u8)
    requires
        checksum_step(a, x) == checksum_step(b, y),
    ensures
        a == b ==> x == y,
        x == y ==> a == b,
{
    let m = 0x1_0000_0000int;
    let p = 0x0100_0193int;
    let q = 0x359c_449bint;
    let (u, v) = ((a ^ x as u32) as int, (b ^ y as u32) as int);
    lemma_mul_mod_noop_left(u * p, q, m);
    lemma_mul_mod_noop_left(v * p, q, m);
    assert(p * q == 1 + (p * q / m) * m);
    let w = p * q / m;
    assert(u * p * q == u + (u * w) * m) by (nonlinear_arith)
        requires
            p * q == 1 + w * m,
    ;
    assert(v * p * q == v + (v * w) * m) by (nonlinear_arith)
        requires
            p * q == 1 + w * m,
    ;
    assert((u * p * q) % m == u % m) by {
        vstd::arithmetic::div_mod::lemma_mod_multiples_vanish(u * w, u, m);
        assert(m * (u * w) == (u * w) * m) by (nonlinear_arith);
    }
    assert((v * p * q) % m == v % m) by {
        vstd::arithmetic::div_mod::lemma_mod_multiples_vanish(v * w, v, m);
        assert(m * (v * w) == (v * w) * m) by (nonlinear_arith);
    }
    assert(u == v);
    assert(a ^ x as u32 == b ^ y as u32);
    assert((a ^ x as u32 == b ^ y as u32) ==> ((a == b ==> x == y) && (x == y ==> a == b)))
        by (bit_vector);
}

/// Two superblocks that differ in one byte, other than in the stored checksum, have different
/// checksums.
pub proof fn law_checksum_notices_a_changed_byte(block: Seq<u8>, i: int, byte: u8)
    requires
        0 <= i < block.len(),
        !(56 <= i < 60),
        block[i] != byte,
    ensures
        checksum_of(block.update(i, byte)) != checksum_of(block),
    decreases block.len(),
{
    let other = block.update(i, byte);
    let last = block.len() - 1;
    let (x, y) = (checksum_of(block.drop_last()), checksum_of(other.drop_last()));
    if i == last {
        assert(other.drop_last() =~= block.drop_last());
        if checksum_of(other) == checksum_of(block) {
            lemma_step_injective(x, y, block.last(), other.last());
        }
    } else {
        assert(other.drop_last() =~= block.drop_last().update(i, byte));
        assert(other.last() == block.last());
        law_checksum_notices_a_changed_byte(block.drop_last(), i, byte);
        if !(56 <= last < 60) && checksum_of(other) == checksum_of(block) {
            lemma_step_injective(x, y, block.last(), other.last());
        }
    }
}

// ── Inodes ──

/// The number that stands for a kind of node on disk.
pub open spec fn kind_number(kind: NodeKind) -> int {
    match kind {
        NodeKind::Directory => 1,
        NodeKind::File => 2,
        NodeKind::Device => 3,
        NodeKind::Symlink => 4,
    }
}

/// Whether 32 bytes spell an inode.
pub open spec fn spells_inode(
    s: Seq<u8>,
    base: int,
    inode: OnDiskInode,
    version: SimpleFsFormatVersion,
) -> bool {
    &&& s[base] == kind_number(inode.kind)
    &&& s[base + 1] == if inode.deleted {
        1int
    } else {
        0int
    }
    &&& spells(s, base + 4, inode.entry_start as int, 4)
    &&& spells(s, base + 8, inode.entry_count as int, 4)
    &&& spells(s, base + 12, inode.data_block as int, 4)
    &&& spells(s, base + 16, inode.block_count as int, 4)
    &&& spells(s, base + 20, inode.size as int, 4)
    &&& version == SimpleFsFormatVersion::V2 ==> spells(s, base + 28, inode.data_checksum as int, 4)
    &&& version != SimpleFsFormatVersion::V2 ==> match inode.persistent_security {
        Some(d) => {
            &&& spells(s, base + 2, d.mode as int, 2)
            &&& spells(s, base + 24, d.owner_uid as int, 4)
            &&& spells(s, base + 28, d.owner_gid as int, 4)
        },
        None => {
            &&& spells(s, base + 2, 0, 2)
            &&& spells(s, base + 24, 0, 4)
            &&& spells(s, base + 28, 0, 4)
        },
    }
}

/// An inode is written with its kind first, then its marks, its descriptor's mode, its
/// entries, its blocks and its size, each at its place.
pub proof fn law_written_inode_is_laid_out(
    s: Seq<u8>,
    base: int,
    inode: OnDiskInode,
    version: SimpleFsFormatVersion,
)
    requires
        is_inode_record(s, base, inode, version),
    ensures
        spells_inode(s, base, inode, version),
{
    law_bytes_spell_what_is_read(s, base + 2);
    law_bytes_spell_what_is_read(s, base + 4);
    law_bytes_spell_what_is_read(s, base + 8);
    law_bytes_spell_what_is_read(s, base + 12);
    law_bytes_spell_what_is_read(s, base + 16);
    law_bytes_spell_what_is_read(s, base + 20);
    law_bytes_spell_what_is_read(s, base + 24);
    law_bytes_spell_what_is_read(s, base + 28);
}

/// An inode that is spelled out is read as it says, with no mark but the one of a deleted node.
pub proof fn law_inode_is_read_as_written(
    s: Seq<u8>,
    base: int,
    inode: OnDiskInode,
    version: SimpleFsFormatVersion,
)
    requires
        spells_inode(s, base, inode, version),
    ensures
        ({
            let i = inode_at(s, base, version);
            &&& i.kind == inode.kind && i.deleted == inode.deleted
            &&& i.entry_start == inode.entry_start && i.entry_count == inode.entry_count
            &&& i.data_block == inode.data_block && i.block_count == inode.block_count
            &&& i.size == inode.size
            &&& !i.compressed && !i.deduped
            &&& version == SimpleFsFormatVersion::V2 ==> i.data_checksum == inode.data_checksum
                && i.persistent_security is None
            &&& (version != SimpleFsFormatVersion::V2 && inode.persistent_security is Some)
                ==> i.persistent_security == inode.persistent_security && i.data_checksum == 0
        }),
{
    law_four_bytes(s, base + 4, inode.entry_start);
    law_four_bytes(s, base + 8, inode.entry_count);
    law_four_bytes(s, base + 12, inode.data_block);
    law_four_bytes(s, base + 16, inode.block_count);
    law_four_bytes(s, base + 20, inode.size);
    if version == SimpleFsFormatVersion::V2 {
        law_four_bytes(s, base + 28, inode.data_checksum);
    } else if let Some(d) = inode.persistent_security {
        law_two_bytes(s, base + 2, d.mode);
        law_four_bytes(s, base + 24, d.owner_uid);
        law_four_bytes(s, base + 28, d.owner_gid);
    }
    assert(1u8 & 1 != 0 && 1u8 & 2 == 0 && 1u8 & 4 == 0 && 0u8 & 1 == 0 && 0u8 & 2 == 0 && 0u8 & 4
        == 0) by (bit_vector);
}

/// The flags of an inode: the lowest bit marks a deleted node, the next compressed contents and
/// the next shared contents.
pub proof fn law_inode_marks(s: Seq<u8>, base: int, version: SimpleFsFormatVersion)
    ensures
        ({
            let i = inode_at(s, base, version);
            let f = s[base + 1];
            &&& i.deleted == (f as int % 2 == 1)
            &&& i.compressed == (f as int / 2 % 2 == 1)
            &&& i.deduped == (f as int / 4 % 2 == 1)
        }),
{
    let f = s[base + 1];
    assert((f & 1 != 0) == (f % 2 == 1) && (f & 2 != 0) == (f / 2 % 2 == 1) && (f & 4 != 0) == (f
        / 4 % 2 == 1)) by (bit_vector);
}

/// Every inode of a table is read, the one with number `k` from the 32 bytes behind the `k`
/// inodes before it.
pub proof fn law_inode_table_is_read_from_the_disk<D: BlockDevice>(
    device: D,
    version: SimpleFsFormatVersion,
    table_block: int,
    count: nat,
    k: int,
    inode: OnDiskInode,
)
    requires
        0 <= k < count,
        0 <= table_block,
        stored_inodes(device, version, table_block, count) is Ok,
        spells_inode(device.image(), table_block * 512 + 32 * k, inode, version),
    ensures
        ({
            let all = stored_inodes(device, version, table_block, count)->Ok_0;
            let i = all[k];
            &&& all.len() == count
            &&& i.kind == inode.kind && i.deleted == inode.deleted
            &&& i.entry_start == inode.entry_start && i.entry_count == inode.entry_count
            &&& i.data_block == inode.data_block && i.block_count == inode.block_count
            &&& i.size == inode.size
        }),
{
    let n = count as int * 32;
    device.lemma_read_fits(table_block, padded(n));
    let image = device.image();
    let at = table_block * 512;
    let s = image.subrange(at, at + padded(n));
    assert forall|j: int| 0 <= j < 32 implies s[32 * k + j] == #[trigger] image[at + 32 * k + j] by {}
    lemma_inode_moved(image, at + 32 * k, s, 32 * k, inode, version);
    law_inode_is_read_as_written(s, 32 * k, inode, version);
    assert(k * 32 == 32 * k);
}

pub proof fn lemma_inode_moved(
    a: Seq<u8>,
    from: int,
    b: Seq<u8>,
    to: int,
    inode: OnDiskInode,
    version: SimpleFsFormatVersion,
)
    requires
        spells_inode(a, from, inode, version),
        forall|j: int| 0 <= j < 32 ==> b[to + j] == #[trigger] a[from + j],
    ensures
        spells_inode(b, to, inode, version),
{
    assert(b[to + 0] == a[from + 0] && b[to + 1] == a[from + 1]);
    assert forall|o: int, v: int, n: nat|
        0 <= o && o + n <= 32 && #[trigger] spells(a, from + o, v, n) implies spells(
        b,
        to + o,
        v,
        n,
    ) by {
        assert forall|i: int| #![trigger b[to + o + i]] 0 <= i < n implies b[to + o + i] == a[from
            + o + i] by {
            assert(b[to + (o + i)] == a[from + (o + i)]);
        }
        lemma_spells_moved(a, from + o, b, to + o, v, n);
    }
}

// ── Directory entries ──

/// Whether 64 bytes spell a directory entry.
pub open spec fn spells_entry(s: Seq<u8>, base: int, e: DirEntryView) -> bool {
    let name = encode_utf8(e.name);
    &&& spells(s, base, e.inode_index as int, 4)
    &&& s[base + 4] == kind_number(e.kind)
    &&& name.len() <= 56
    &&& s[base + 5] == name.len()
    &&& has_at(s, base + 8, name)
}

/// An entry is written with its inode first, then its kind, the length of its name and the
/// name, each at its place.
pub proof fn law_written_entry_is_laid_out(s: Seq<u8>, base: int, e: DirEntryView)
    requires
        is_dirent_record(s, base, e),
        encode_utf8(e.name).len() <= 56,
        0 <= base,
        base + 64 <= s.len(),
    ensures
        spells_entry(s, base, e),
{
    law_bytes_spell_what_is_read(s, base);
}

/// An entry that is spelled out is read as it says.
pub proof fn law_entry_is_read_as_written(s: Seq<u8>, base: int, e: DirEntryView)
    requires
        spells_entry(s, base, e),
    ensures
        dirent_at(s, base) == Ok::<DirEntryView, Error>(e),
{
    broadcast use {vstd::utf8::encode_utf8_valid_utf8, vstd::utf8::encode_utf8_decode_utf8};

    law_four_bytes(s, base, e.inode_index);
}

/// Every entry of a table is read, the one with number `k` from the 64 bytes behind the `k`
/// entries before it.
pub proof fn law_entry_table_is_read(s: Seq<u8>, count: nat, k: int, e: DirEntryView)
    requires
        0 <= k < count,
        dirents_in(s, count) is Ok,
        spells_entry(s, 64 * k, e),
    ensures
        dirents_in(s, count)->Ok_0.len() == count,
        dirents_in(s, count)->Ok_0[k] == e,
{
    law_entry_is_read_as_written(s, 64 * k, e);
    assert(k * 64 == 64 * k);
}

// ── Attribute records ──

/// A written attribute record holds its inode, the lengths of its name and its value, its
/// state, the name and the value, each at its place.
pub proof fn law_attribute_record_is_laid_out(s: Seq<u8>, base: int, x: XattrView)
    requires
        xattr_at(s, base) == x,
        0 <= base,
        base + 336 <= s.len(),
    ensures
        spells(s, base, x.inode_index as int, 4),
        spells(s, base + 4, x.name_len as int, 4),
        spells(s, base + 8, x.value_len as int, 4),
        spells(s, base + 12, x.status as int, 4),
        x.name.len() == 64 && has_at(s, base + 16, x.name),
        x.value.len() == 256 && has_at(s, base + 80, x.value),
{
    law_bytes_spell_what_is_read(s, base);
    law_bytes_spell_what_is_read(s, base + 4);
    law_bytes_spell_what_is_read(s, base + 8);
    law_bytes_spell_what_is_read(s, base + 12);
    assert(s.subrange(base + 16, base + 16 + 64) =~= x.name);
    assert(s.subrange(base + 80, base + 80 + 256) =~= x.value);
}

// ── The checksum of file contents ──

/// The checksum of nothing is zero; four more bytes turn it by one bit to the left and mix
/// their word, lowest byte first, into it.
pub proof fn law_contents_checksum_goes_word_by_word(data: Seq<u8>, word: Seq<u8>)
    requires
        data.len() % 4 == 0,
        word.len() == 4,
    ensures
        data_checksum(seq![]) == 0,
        ({
            let h = data_checksum(data);
            let w = word[0] + 256 * word[1] + 0x1_0000 * word[2] + 0x100_0000 * word[3];
            let turned = h * 2 % 0x1_0000_0000 + h as int / 0x8000_0000;
            data_checksum(data + word) == (turned as u32) ^ (w as u32)
        }),
{
    let all = data + word;
    let n = (data.len() / 4) as nat;
    assert((all.len() + 3) / 4 == n + 1);
    assert((data.len() + 3) / 4 == n);
    lemma_checksum_of_front(all, data, n);
    assert(all.subrange(4 * n as int, 4 * n + 4int) =~= word);
    let h = data_checksum(data);
    let (b0, b1, b2, b3) = (word[0] as u32, word[1] as u32, word[2] as u32, word[3] as u32);
    assert(((h << 1) | (h >> 31)) == h * 2 % 0x1_0000_0000 + h / 0x8000_0000) by (bit_vector);
    assert((b0 | (b1 << 8) | (b2 << 16) | (b3 << 24)) == b0 + 256 * b1 + 0x1_0000 * b2 + 0x100_0000
        * b3) by (bit_vector)
        requires
            b0 < 256,
            b1 < 256,
            b2 < 256,
            b3 < 256,
    ;
}

proof fn lemma_checksum_of_front(all: Seq<u8>, data: Seq<u8>, words: nat)
    requires
        4 * words <= data.len() <= all.len(),
        forall|i: int| 0 <= i < data.len() ==> #[trigger] all[i] == data[i],
    ensures
        checksum_upto(all, words) == checksum_upto(data, words),
    decreases words,
{
    if words > 0 {
        lemma_checksum_of_front(all, data, (words - 1) as nat);
        let from = 4 * (words - 1);
        assert(all.subrange(from, 4 * words as int) =~= data.subrange(from, 4 * words as int));
    }
}

} // verus!
