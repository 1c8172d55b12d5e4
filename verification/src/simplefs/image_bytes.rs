//! Every byte of an image is fixed by what it holds.
use vstd::prelude::*;
use vstd::utf8::*;

use crate::bytes::{lemma_le32_of_u32_at, u16_at, u32_at, zeros};
use crate::simplefs::constants::DIRENT_NAME_MAX;
use crate::simplefs::encode::{dirent_gap, dirents_written, inode_gap, inodes_written, is_dirent_record, is_inode_record, names_fit};
use crate::simplefs::image_build::{ImagePlan, holds_plan, image_record, is_image};
use crate::simplefs::superblock::{is_superblock, label_field, lemma_checksum_ignores_itself, record_at};
use crate::simplefs::tables::security_at;
use crate::simplefs::types::{DirEntryView, OnDiskInode, SimpleFsFormatVersion, SuperblockRecord};

verus! {

/// Equal fields consist of equal bytes.
proof fn lemma_same_u32(a: Seq<u8>, b: Seq<u8>, off: int)
    requires
        0 <= off,
        off + 4 <= a.len(),
        off + 4 <= b.len(),
        u32_at(a, off) == u32_at(b, off),
    ensures
        forall|i: int| #![trigger a[i]] off <= i < off + 4 ==> a[i] == b[i],
{
    lemma_le32_of_u32_at(a, off);
    lemma_le32_of_u32_at(b, off);
    let x = a.subrange(off, off + 4);
    let y = b.subrange(off, off + 4);
    assert forall|i: int| #![trigger a[i]] off <= i < off + 4 implies a[i] == b[i] by {
        assert(x[i - off] == y[i - off]);
    }
}

/// Fields at some places are made of equal bytes where the fields are equal.
proof fn lemma_same_fields(a: Seq<u8>, b: Seq<u8>, from: int, to: int)
    requires
        0 <= from <= to,
        to <= a.len(),
        to <= b.len(),
        (to - from) % 4 == 0,
        forall|k: int|
            #![trigger u32_at(a, k)]
            from <= k < to && (k - from) % 4 == 0 ==> u32_at(a, k) == u32_at(b, k),
    ensures
        forall|i: int| #![trigger a[i]] from <= i < to ==> a[i] == b[i],
    decreases to - from,
{
    if from < to {
        assert(u32_at(a, from) == u32_at(b, from));
        lemma_same_u32(a, b, from);
        assert forall|k: int|
            #![trigger u32_at(a, k)]
            from + 4 <= k < to && (k - (from + 4)) % 4 == 0 implies u32_at(a, k) == u32_at(
            b,
            k,
        ) by {
            assert((k - from) % 4 == 0);
        }
        lemma_same_fields(a, b, from + 4, to);
    }
}

/// A superblock is fixed by what it says.
pub proof fn law_superblock_is_unique(
    a: Seq<u8>,
    b: Seq<u8>,
    label: Seq<char>,
    version: SimpleFsFormatVersion,
    record: SuperblockRecord,
)
    requires
        is_superblock(a, label, version, record),
        is_superblock(b, label, version, record),
    ensures
        a == b,
{
    assert forall|k: int|
        #![trigger u32_at(a, k)]
        8 <= k < 56 && (k - 8) % 4 == 0 implies u32_at(a, k) == u32_at(b, k) by {
        assert(record_at(a, version).inode_count == record_at(b, version).inode_count);
        assert(k == 8 || k == 12 || k == 16 || k == 20 || k == 24 || k == 28 || k == 32 || k == 36
            || k == 40 || k == 44 || k == 48 || k == 52);
    }
    lemma_same_fields(a, b, 8, 56);
    assert forall|k: int|
        #![trigger u32_at(a, k)]
        96 <= k < 116 && (k - 96) % 4 == 0 implies u32_at(a, k) == u32_at(b, k) by {
        assert(record_at(a, version).pending_commit == record_at(b, version).pending_commit);
        assert(k == 96 || k == 100 || k == 104 || k == 108 || k == 112);
    }
    lemma_same_fields(a, b, 96, 116);
    assert forall|i: int| 0 <= i < 512 && !(56 <= i < 60) implies a[i] == b[i] by {
        if i < 8 {
            assert(a.take(8)[i] == b.take(8)[i]);
        } else if 64 <= i < 96 {
            assert(label_field(a)[i - 64] == label_field(b)[i - 64]);
        }
    }
    lemma_checksum_ignores_itself(a, b);
    lemma_same_u32(a, b, 56);
    assert(a =~= b);
}

/// An inode's record is fixed by the inode, but for its gaps.
proof fn lemma_inode_bytes(
    a: Seq<u8>,
    b: Seq<u8>,
    base: int,
    inode: OnDiskInode,
    version: SimpleFsFormatVersion,
)
    requires
        0 <= base,
        base + 32 <= a.len(),
        base + 32 <= b.len(),
        is_inode_record(a, base, inode, version),
        is_inode_record(b, base, inode, version),
    ensures
        forall|i: int|
            #![trigger a[i]]
            base <= i < base + 32 && (version.stores_security() || !(2 <= i - base < 4 || 24 <= i
                - base < 28)) ==> a[i] == b[i],
{
    lemma_same_u32(a, b, base + 4);
    lemma_same_u32(a, b, base + 8);
    lemma_same_u32(a, b, base + 12);
    lemma_same_u32(a, b, base + 16);
    lemma_same_u32(a, b, base + 20);
    lemma_same_u32(a, b, base + 28);
    if version.stores_security() {
        assert(security_at(a, base, version)->0 == security_at(b, base, version)->0);
        lemma_same_u32(a, b, base + 24);
        assert(u16_at(a, base + 2) == u16_at(b, base + 2));
        assert(u16_at(a, base + 2) == a[base + 2] + 0x100 * a[base + 3]);
        assert(u16_at(b, base + 2) == b[base + 2] + 0x100 * b[base + 3]);
    }
}

/// An inode table is fixed by its inodes.
pub proof fn law_inode_table_is_unique(
    before: Seq<u8>,
    a: Seq<u8>,
    b: Seq<u8>,
    inodes: Seq<OnDiskInode>,
    version: SimpleFsFormatVersion,
)
    requires
        inodes.len() * 32 <= before.len(),
        inodes_written(before, a, 0, inodes, version),
        inodes_written(before, b, 0, inodes, version),
    ensures
        a == b,
{
    assert forall|i: int| 0 <= i < a.len() implies a[i] == b[i] by {
        let k = i / 32;
        if i < 32 * inodes.len() && !inode_gap(i, version) {
            assert(0 <= k < inodes.len());
            assert(is_inode_record(a, 0 + 32 * k, inodes[k], version));
            lemma_inode_bytes(a, b, 32 * k, inodes[k], version);
        } else {
            assert(a[i] == before[i] && b[i] == before[i]);
        }
    }
    assert(a =~= b);
}

/// A byte of an entry's record is fixed by the entry, but for the gaps.
proof fn lemma_entry_byte(a: Seq<u8>, b: Seq<u8>, base: int, entry: DirEntryView, i: int)
    requires
        0 <= base,
        base + 64 <= a.len(),
        base + 64 <= b.len(),
        encode_utf8(entry.name).len() <= DIRENT_NAME_MAX,
        is_dirent_record(a, base, entry),
        is_dirent_record(b, base, entry),
        base <= i < base + 8 + encode_utf8(entry.name).len(),
        !(6 <= i - base < 8),
    ensures
        a[i] == b[i],
{
    let len = encode_utf8(entry.name).len() as int;
    lemma_same_u32(a, b, base);
    if i - base >= 8 {
        let x = a.subrange(base + 8, base + 8 + len);
        let y = b.subrange(base + 8, base + 8 + len);
        assert(x[i - base - 8] == y[i - base - 8]);
    }
}

/// An entry table is fixed by its entries.
pub proof fn law_entry_table_is_unique(
    before: Seq<u8>,
    a: Seq<u8>,
    b: Seq<u8>,
    entries: Seq<DirEntryView>,
)
    requires
        entries.len() * 64 <= before.len(),
        names_fit(entries),
        dirents_written(before, a, 0, entries),
        dirents_written(before, b, 0, entries),
    ensures
        a == b,
{
    assert forall|i: int| 0 <= i < a.len() implies a[i] == b[i] by {
        let k = i / 64;
        if i < 64 * entries.len() && !dirent_gap(i, entries) {
            assert(0 <= k < entries.len());
            assert(is_dirent_record(a, 0 + 64 * k, entries[k]));
            assert(is_dirent_record(b, 0 + 64 * k, entries[k]));
            assert(encode_utf8(entries[k].name).len() <= DIRENT_NAME_MAX);
            lemma_entry_byte(a, b, 64 * k, entries[k], i);
        } else {
            assert(a[i] == before[i] && b[i] == before[i]);
        }
    }
    assert(a =~= b);
}

/// Whether what a plan holds fits the tables of its layout.
pub open spec fn plan_fits(plan: ImagePlan) -> bool {
    &&& plan.inodes.len() * 32 <= plan.layout.inode_blocks * 512
    &&& plan.entries.len() * 64 <= plan.layout.dirent_blocks * 512
    &&& names_fit(plan.entries)
}

/// Two images of one plan are the same, byte for byte.
pub proof fn law_image_is_unique(
    x: Seq<u8>,
    y: Seq<u8>,
    label: Seq<char>,
    version: SimpleFsFormatVersion,
    plan: ImagePlan,
    extra_blocks: int,
)
    requires
        plan_fits(plan),
        holds_plan(x, label, version, plan, extra_blocks),
        holds_plan(y, label, version, plan, extra_blocks),
    ensures
        x == y,
{
    reveal(is_image);
    let (sa, ia, da) = choose|s: Seq<u8>, i: Seq<u8>, d: Seq<u8>|
        is_image(x, label, version, plan, extra_blocks, s, i, d);
    let (sb, ib, db) = choose|s: Seq<u8>, i: Seq<u8>, d: Seq<u8>|
        is_image(y, label, version, plan, extra_blocks, s, i, d);
    let l = plan.layout;
    law_superblock_is_unique(
        sa,
        sb,
        label,
        version,
        image_record(l, version, plan.inodes.len() as int, plan.entries.len() as int),
    );
    law_inode_table_is_unique(
        zeros((l.inode_blocks * 512) as nat),
        ia,
        ib,
        plan.inodes,
        version,
    );
    law_entry_table_is_unique(zeros((l.dirent_blocks * 512) as nat), da, db, plan.entries);
}

} // verus!
