//! Writing the metadata tables, and what reading them back yields.
use vstd::prelude::*;
use vstd::string::*;
use vstd::utf8::encode_utf8;

use crate::bytes::{field_at, half_at, store_u16, store_u32, store_u8, u32_at, write_bytes, write_u32};
use crate::error::{Error, Result};
use crate::simplefs::constants::{DIRENT_INODE_INDEX_OFFSET, DIRENT_KIND_OFFSET, DIRENT_NAME_LEN_OFFSET, DIRENT_NAME_MAX, DIRENT_NAME_OFFSET, INODE_BLOCK_COUNT_OFFSET, INODE_CHECKSUM_OFFSET, INODE_DATA_BLOCK_OFFSET, INODE_ENTRY_COUNT_OFFSET, INODE_ENTRY_START_OFFSET, INODE_FLAGS_OFFSET, INODE_FLAG_DELETED, INODE_KIND_OFFSET, INODE_MODE_OFFSET, INODE_OWNER_GID_OFFSET, INODE_OWNER_UID_OFFSET, INODE_SIZE_FIELD_OFFSET};
use crate::simplefs::tables::{dirent_at, dirents_in, encode_kind, inode_at, inodes_in, kind_code, kind_of_code, security_at};
use crate::simplefs::types::{DirEntryView, OnDiskDirEntry, OnDiskInode, OnDiskPersistentSecurityDescriptor, SimpleFsFormatVersion, entry_views};

verus! {

/// Whether two buffers hold the same bytes in a range.
pub open spec fn same_range(a: Seq<u8>, b: Seq<u8>, from: int, to: int) -> bool {
    forall|i: int| #![trigger b[i]] from <= i < to ==> a[i] == b[i]
}

// ── Inodes ──

/// The flags byte of an inode.
pub open spec fn inode_flags(inode: OnDiskInode) -> u8 {
    if inode.deleted {
        INODE_FLAG_DELETED
    } else {
        0
    }
}

/// The descriptor that ends up on disk: an absent one is stored as zeros.
pub open spec fn stored_security(
    security: Option<OnDiskPersistentSecurityDescriptor>,
) -> OnDiskPersistentSecurityDescriptor {
    match security {
        Some(s) => s,
        None => OnDiskPersistentSecurityDescriptor { owner_uid: 0, owner_gid: 0, mode: 0 },
    }
}

/// Whether the bytes at `base` are the record of `inode`.
pub open spec fn is_inode_record(
    s: Seq<u8>,
    base: int,
    inode: OnDiskInode,
    version: SimpleFsFormatVersion,
) -> bool {
    &&& s[base] == kind_code(inode.kind)
    &&& s[base + INODE_FLAGS_OFFSET] == inode_flags(inode)
    &&& u32_at(s, base + INODE_ENTRY_START_OFFSET) == inode.entry_start
    &&& u32_at(s, base + INODE_ENTRY_COUNT_OFFSET) == inode.entry_count
    &&& u32_at(s, base + INODE_DATA_BLOCK_OFFSET) == inode.data_block
    &&& u32_at(s, base + INODE_BLOCK_COUNT_OFFSET) == inode.block_count
    &&& u32_at(s, base + INODE_SIZE_FIELD_OFFSET) == inode.size
    &&& version.stores_security() ==> security_at(s, base, version) == Some(
        stored_security(inode.persistent_security),
    )
    &&& !version.stores_security() ==> u32_at(s, base + INODE_CHECKSUM_OFFSET)
        == inode.data_checksum
}

/// Whether byte `o` of an inode table is part of no stored field.
pub open spec fn inode_gap(o: int, version: SimpleFsFormatVersion) -> bool {
    !version.stores_security() && (2 <= o % 32 < 4 || 24 <= o % 32 < 28)
}

/// Whether `after` is `before` with the inodes written to the table at `start`.
pub open spec fn inodes_written(
    before: Seq<u8>,
    after: Seq<u8>,
    start: int,
    inodes: Seq<OnDiskInode>,
    version: SimpleFsFormatVersion,
) -> bool {
    &&& after.len() == before.len()
    &&& forall|k: int|
        #![trigger inodes[k]]
        0 <= k < inodes.len() ==> is_inode_record(after, start + 32 * k, inodes[k], version)
    &&& forall|i: int|
        #![trigger after[i]]
        0 <= i < before.len() && (!(start <= i < start + 32 * inodes.len()) || inode_gap(
            i - start,
            version,
        )) ==> after[i] == before[i]
}

fn store_inode(
    image: &mut [u8],
    base: usize,
    inode: OnDiskInode,
    format_version: SimpleFsFormatVersion,
)
    requires
        base + 32 <= old(image)@.len(),
    ensures
        final(image)@.len() == old(image)@.len(),
        is_inode_record(final(image)@, base as int, inode, format_version),
        forall|i: int|
            #![trigger final(image)@[i]]
            0 <= i < old(image)@.len() && (!(base <= i < base + 32) || inode_gap(
                i - base,
                format_version,
            )) ==> final(image)@[i] == old(image)@[i],
{
    let _len: usize = image.len();
    store_u8(image, base + INODE_KIND_OFFSET, encode_kind(inode.kind));
    store_u8(
        image,
        base + INODE_FLAGS_OFFSET,
        if inode.deleted {
            INODE_FLAG_DELETED
        } else {
            0
        },
    );
    store_u32(image, base + INODE_ENTRY_START_OFFSET, inode.entry_start);
    store_u32(image, base + INODE_ENTRY_COUNT_OFFSET, inode.entry_count);
    store_u32(image, base + INODE_DATA_BLOCK_OFFSET, inode.data_block);
    store_u32(image, base + INODE_BLOCK_COUNT_OFFSET, inode.block_count);
    store_u32(image, base + INODE_SIZE_FIELD_OFFSET, inode.size);
    if format_version.persistent_security_descriptor_layout().is_some() {
        let (mode, owner_uid, owner_gid): (u16, u32, u32) = match inode.persistent_security {
            Some(security) => (security.mode, security.owner_uid, security.owner_gid),
            None => (0, 0, 0),
        };
        store_u16(image, base + INODE_MODE_OFFSET, mode);
        store_u32(image, base + INODE_OWNER_UID_OFFSET, owner_uid);
        store_u32(image, base + INODE_OWNER_GID_OFFSET, owner_gid);
    } else {
        store_u32(image, base + INODE_CHECKSUM_OFFSET, inode.data_checksum);
    }
    proof {
        reveal(field_at);
        reveal(half_at);
    }
}

/// Writes a mounted volume's inodes to the table at `table_block`.
pub fn write_runtime_inode_table(
    image: &mut [u8],
    format_version: SimpleFsFormatVersion,
    table_block: usize,
    inodes: &[OnDiskInode],
) -> (r: Result<()>)
    requires
        table_block * 512 + 32 * inodes@.len() <= old(image)@.len(),
    ensures
        r is Ok,
        inodes_written(
            old(image)@,
            final(image)@,
            table_block * 512,
            inodes@,
            format_version,
        ),
{
    let len: usize = image.len();
    let ghost start = table_block * 512;
    let mut index: usize = 0;
    while index < inodes.len()
        invariant
            index <= inodes@.len(),
            len == image@.len(),
            len == old(image)@.len(),
            start == table_block * 512,
            start + 32 * inodes@.len() <= len,
            inodes_written(
                old(image)@,
                image@,
                start,
                inodes@.take(index as int),
                format_version,
            ),
        decreases inodes@.len() - index,
    {
        let base: usize = format_version.inode_table_entry_offset(table_block, index)?;
        let ghost before = image@;
        store_inode(image, base, inodes[index], format_version);
        proof {
            let done = inodes@.take(index + 1);
            assert forall|k: int| #![trigger done[k]] 0 <= k < done.len() implies is_inode_record(
                image@,
                start + 32 * k,
                done[k],
                format_version,
            ) by {
                if k < index {
                    assert(inodes@.take(index as int)[k] == done[k]);
                    lemma_inode_record_local(
                        before,
                        image@,
                        start + 32 * k,
                        done[k],
                        format_version,
                    );
                }
            }
        }
        index = index + 1;
    }
    assert(inodes@.take(index as int) == inodes@);
    Ok(())
}

/// An inode record depends on its own bytes only.
pub proof fn lemma_inode_record_local(
    a: Seq<u8>,
    b: Seq<u8>,
    base: int,
    inode: OnDiskInode,
    version: SimpleFsFormatVersion,
)
    requires
        is_inode_record(a, base, inode, version),
        same_range(a, b, base, base + 32),
    ensures
        is_inode_record(b, base, inode, version),
{
}

/// An inode as a table keeps it: formats that store descriptors give every inode one
/// and keep no checksum, the others keep no descriptor, and no format keeps the marks
/// of compressed or shared contents.
pub open spec fn as_stored(inode: OnDiskInode, version: SimpleFsFormatVersion) -> OnDiskInode {
    OnDiskInode {
        persistent_security: if version.stores_security() {
            Some(stored_security(inode.persistent_security))
        } else {
            None
        },
        data_checksum: if version.stores_security() {
            0
        } else {
            inode.data_checksum
        },
        compressed: false,
        deduped: false,
        ..inode
    }
}

/// Inodes as a table keeps them.
pub open spec fn all_as_stored(inodes: Seq<OnDiskInode>, version: SimpleFsFormatVersion) -> Seq<
    OnDiskInode,
> {
    Seq::new(inodes.len(), |i: int| as_stored(inodes[i], version))
}

/// Inodes that were written to a table are read back as the table keeps them.
pub proof fn law_inode_table_round_trip(
    before: Seq<u8>,
    after: Seq<u8>,
    inodes: Seq<OnDiskInode>,
    version: SimpleFsFormatVersion,
)
    requires
        inodes_written(before, after, 0, inodes, version),
    ensures
        inodes_in(after, version, inodes.len()) == Ok::<Seq<OnDiskInode>, Error>(
            all_as_stored(inodes, version),
        ),
{
    assert(1u8 & 1u8 != 0 && 1u8 & 2u8 == 0 && 1u8 & 4u8 == 0) by (bit_vector);
    assert(0u8 & 1u8 == 0 && 0u8 & 2u8 == 0 && 0u8 & 4u8 == 0) by (bit_vector);
    assert forall|k: int| 0 <= k < inodes.len() implies (#[trigger] kind_of_code(after[k * 32]))
        is Ok && inode_at(after, k * 32, version) == as_stored(inodes[k], version) by {
        assert(is_inode_record(after, 0 + 32 * k, inodes[k], version));
    }
    assert(Seq::new(inodes.len(), |i: int| inode_at(after, i * 32, version)) =~= all_as_stored(
        inodes,
        version,
    )) by {
        assert forall|k: int| 0 <= k < inodes.len() implies inode_at(after, k * 32, version)
            == as_stored(inodes[k], version) by {
            assert(kind_of_code(after[k * 32]) is Ok);
        }
    }
}

// ── Directory entries ──

/// Whether the bytes at `base` are the record of `entry`.
pub open spec fn is_dirent_record(s: Seq<u8>, base: int, entry: DirEntryView) -> bool {
    let name = encode_utf8(entry.name);
    &&& u32_at(s, base) == entry.inode_index
    &&& s[base + DIRENT_KIND_OFFSET] == kind_code(entry.kind)
    &&& s[base + DIRENT_NAME_LEN_OFFSET] == name.len()
    &&& s.subrange(base + DIRENT_NAME_OFFSET, base + DIRENT_NAME_OFFSET + name.len()) == name
}

/// Whether every entry's name fits its record.
pub open spec fn names_fit(entries: Seq<DirEntryView>) -> bool {
    forall|k: int|
        #![trigger entries[k]]
        0 <= k < entries.len() ==> encode_utf8(entries[k].name).len() <= DIRENT_NAME_MAX
}

/// Whether byte `o` of an entry table lies outside the fields of its record.
pub open spec fn dirent_gap(o: int, entries: Seq<DirEntryView>) -> bool {
    let k = o / 64;
    6 <= o % 64 < 8 || o % 64 >= 8 + encode_utf8(entries[k].name).len()
}

/// Whether `after` is `before` with the entries written to the table at `start`.
pub open spec fn dirents_written(
    before: Seq<u8>,
    after: Seq<u8>,
    start: int,
    entries: Seq<DirEntryView>,
) -> bool {
    &&& after.len() == before.len()
    &&& forall|k: int|
        #![trigger entries[k]]
        0 <= k < entries.len() ==> is_dirent_record(after, start + 64 * k, entries[k])
    &&& forall|i: int|
        #![trigger after[i]]
        0 <= i < before.len() && (!(start <= i < start + 64 * entries.len()) || dirent_gap(
            i - start,
            entries,
        )) ==> after[i] == before[i]
}

fn store_dirent(image: &mut [u8], base: usize, entry: &OnDiskDirEntry)
    requires
        base + 64 <= old(image)@.len(),
        encode_utf8(entry.name@).len() <= DIRENT_NAME_MAX,
    ensures
        final(image)@.len() == old(image)@.len(),
        is_dirent_record(final(image)@, base as int, entry@),
        forall|i: int|
            #![trigger final(image)@[i]]
            0 <= i < old(image)@.len() && (!(base <= i < base + 64) || 6 <= i - base < 8 || i - base
                >= 8 + encode_utf8(entry.name@).len()) ==> final(image)@[i] == old(image)@[i],
{
    let _len: usize = image.len();
    write_u32(image, base + DIRENT_INODE_INDEX_OFFSET, entry.inode_index);
    image[base + DIRENT_KIND_OFFSET] = encode_kind(entry.kind);
    let name = entry.name.as_str().as_bytes();
    image[base + DIRENT_NAME_LEN_OFFSET] = name.len() as u8;
    write_bytes(image, base + DIRENT_NAME_OFFSET, name);
    proof {
        let b = base + DIRENT_NAME_OFFSET;
        assert(image@.subrange(b as int, b + name@.len()) == name@);
    }
}

/// A directory entry record depends on its own bytes only.
pub proof fn lemma_dirent_record_local(a: Seq<u8>, b: Seq<u8>, base: int, entry: DirEntryView)
    requires
        is_dirent_record(a, base, entry),
        encode_utf8(entry.name).len() <= DIRENT_NAME_MAX,
        0 <= base,
        base + 64 <= a.len(),
        a.len() == b.len(),
        same_range(a, b, base, base + 64),
    ensures
        is_dirent_record(b, base, entry),
{
    let n = base + DIRENT_NAME_OFFSET;
    let len = encode_utf8(entry.name).len();
    assert(a.subrange(n, n + len) == b.subrange(n, n + len));
}

/// Writes a mounted volume's directory entries to the table at `table_block`.
pub fn write_runtime_dir_entry_table(
    image: &mut [u8],
    format_version: SimpleFsFormatVersion,
    table_block: usize,
    dir_entries: &[OnDiskDirEntry],
) -> (r: Result<()>)
    requires
        table_block * 512 + 64 * dir_entries@.len() <= old(image)@.len(),
        names_fit(entry_views(dir_entries@)),
    ensures
        r is Ok,
        dirents_written(
            old(image)@,
            final(image)@,
            table_block * 512,
            entry_views(dir_entries@),
        ),
{
    let len: usize = image.len();
    let ghost start = table_block * 512;
    let ghost all = entry_views(dir_entries@);
    let mut index: usize = 0;
    while index < dir_entries.len()
        invariant
            index <= dir_entries@.len(),
            len == image@.len(),
            len == old(image)@.len(),
            all == entry_views(dir_entries@),
            names_fit(all),
            start == table_block * 512,
            start + 64 * dir_entries@.len() <= len,
            dirents_written(old(image)@, image@, start, all.take(index as int)),
        decreases dir_entries@.len() - index,
    {
        let base: usize = format_version.dirent_table_entry_offset(table_block, index)?;
        let ghost before = image@;
        assert(all[index as int] == dir_entries@[index as int]@);
        store_dirent(image, base, &dir_entries[index]);
        proof {
            let prior = all.take(index as int);
            let done = all.take(index + 1);
            assert forall|k: int| #![trigger done[k]] 0 <= k < done.len() implies is_dirent_record(
                image@,
                start + 64 * k,
                done[k],
            ) by {
                assert(all[k] == done[k]);
                if k < index {
                    assert(prior[k] == done[k]);
                    lemma_dirent_record_local(before, image@, start + 64 * k, done[k]);
                }
            }
            assert forall|i: int|
                #![trigger image@[i]]
                0 <= i < len && (!(start <= i < start + 64 * done.len()) || dirent_gap(
                    i - start,
                    done,
                )) implies image@[i] == old(image)@[i] by {
                let o = i - start;
                if start <= i < start + 64 * prior.len() {
                    assert(prior[o / 64] == done[o / 64]);
                    assert(dirent_gap(o, prior));
                } else if start <= i < start + 64 * done.len() {
                    assert(o / 64 == index);
                    assert(done[o / 64] == all[index as int]);
                }
                assert(before[i] == old(image)@[i]);
            }
        }
        index = index + 1;
    }
    assert(all.take(index as int) == all);
    Ok(())
}

/// Directory entries that were written to a table are read back unchanged.
pub proof fn law_dirent_table_round_trip(
    before: Seq<u8>,
    after: Seq<u8>,
    entries: Seq<DirEntryView>,
)
    requires
        dirents_written(before, after, 0, entries),
        names_fit(entries),
    ensures
        dirents_in(after, entries.len()) == Ok::<Seq<DirEntryView>, Error>(entries),
{
    broadcast use {vstd::utf8::encode_utf8_valid_utf8, vstd::utf8::encode_utf8_decode_utf8};

    assert forall|k: int| 0 <= k < entries.len() implies (#[trigger] dirent_at(after, k * 64))
        == Ok::<DirEntryView, Error>(entries[k]) by {
        assert(is_dirent_record(after, 0 + 64 * k, entries[k]));
        assert(encode_utf8(entries[k].name).len() <= DIRENT_NAME_MAX);
    }
    assert(Seq::new(entries.len(), |i: int| dirent_at(after, i * 64)->Ok_0) =~= entries);
}

} // verus!
