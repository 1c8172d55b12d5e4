//! The superblock: encoding, decoding and validation.
use vstd::prelude::*;
use vstd::string::*;
use vstd::utf8::encode_utf8;

use crate::block::{BLOCK_SIZE, BlockDevice, device_read, read_vec};
use crate::bytes::{bytes_eq, field_at, put, read_u32, store_u32, u32_at, write_bytes, zero_fill, zeros};
use crate::error::{Error, Result};
use crate::simplefs::constants::{MAGIC, SECONDARY_SUPERBLOCK_BLOCK, SUPERBLOCK_ACTIVE_DIRENT_TABLE_OFFSET, SUPERBLOCK_ACTIVE_INODE_TABLE_OFFSET, SUPERBLOCK_ACTIVE_XATTR_TABLE_OFFSET, SUPERBLOCK_BLOCK_SIZE_OFFSET, SUPERBLOCK_CHECKSUM_OFFSET, SUPERBLOCK_DATA_BLOCK_START_OFFSET, SUPERBLOCK_DIRENT_COUNT_OFFSET, SUPERBLOCK_DIRENT_TABLE_BLOCKS_OFFSET, SUPERBLOCK_FIELDS_END, SUPERBLOCK_GENERATION_OFFSET, SUPERBLOCK_INODE_COUNT_OFFSET, SUPERBLOCK_INODE_TABLE_BLOCKS_OFFSET, SUPERBLOCK_LABEL_LEN, SUPERBLOCK_LABEL_OFFSET, SUPERBLOCK_PENDING_COMMIT_OFFSET, SUPERBLOCK_SHADOW_DIRENT_TABLE_OFFSET, SUPERBLOCK_SHADOW_INODE_TABLE_OFFSET, SUPERBLOCK_SHADOW_XATTR_TABLE_OFFSET, SUPERBLOCK_VERSION_OFFSET, SUPERBLOCK_XATTR_COUNT_OFFSET, SUPERBLOCK_XATTR_TABLE_BLOCKS_OFFSET};
use crate::simplefs::types::{ParsedSuperblock, SimpleFsFormatVersion, SuperblockRecord};
use crate::text::{from_utf8_lossy, utf8_lossy};

verus! {

/// One step of the superblock checksum.
pub open spec fn checksum_step(hash: u32, byte: u8) -> u32 {
    ((((hash ^ byte as u32) as int) * 0x0100_0193) % 0x1_0000_0000) as u32
}

/// Checksum over all bytes but the four that store it.
pub open spec fn checksum_of(block: Seq<u8>) -> u32
    decreases block.len(),
{
    if block.len() == 0 {
        0x811c_9dc5
    } else {
        let before = checksum_of(block.drop_last());
        let index = block.len() - 1;
        if SUPERBLOCK_CHECKSUM_OFFSET <= index < SUPERBLOCK_CHECKSUM_OFFSET + 4 {
            before
        } else {
            checksum_step(before, block.last())
        }
    }
}

/// Checksum over all bytes but the four that store it.
pub fn superblock_checksum(block: &[u8]) -> (hash: u32)
    ensures
        hash == checksum_of(block@),
{
    let mut hash: u32 = 0x811c_9dc5;
    let mut i: usize = 0;
    while i < block.len()
        invariant
            i <= block@.len(),
            hash == checksum_of(block@.take(i as int)),
        decreases block@.len() - i,
    {
        assert(block@.take(i + 1).drop_last() == block@.take(i as int));
        assert(block@.take(i + 1).last() == block@[i as int]);
        if !(SUPERBLOCK_CHECKSUM_OFFSET <= i && i < SUPERBLOCK_CHECKSUM_OFFSET + 4) {
            hash = (hash ^ block[i] as u32).wrapping_mul(0x0100_0193);
        }
        i = i + 1;
    }
    assert(block@.take(i as int) == block@);
    hash
}

/// Two blocks that agree outside the checksum field have the same checksum.
pub proof fn lemma_checksum_ignores_itself(a: Seq<u8>, b: Seq<u8>)
    requires
        a.len() == b.len(),
        forall|i: int|
            0 <= i < a.len() && !(SUPERBLOCK_CHECKSUM_OFFSET <= i < SUPERBLOCK_CHECKSUM_OFFSET + 4)
                ==> a[i] == b[i],
    ensures
        checksum_of(a) == checksum_of(b),
    decreases a.len(),
{
    if a.len() > 0 {
        lemma_checksum_ignores_itself(a.drop_last(), b.drop_last());
    }
}

/// Bytes of the label field up to its first zero byte.
pub open spec fn label_bytes(field: Seq<u8>) -> Seq<u8>
    decreases field.len(),
{
    if field.len() == 0 || field[0] == 0 {
        Seq::empty()
    } else {
        seq![field[0]] + label_bytes(field.skip(1))
    }
}

/// The label field of a superblock.
pub open spec fn label_field(block: Seq<u8>) -> Seq<u8> {
    block.subrange(
        SUPERBLOCK_LABEL_OFFSET as int,
        SUPERBLOCK_LABEL_OFFSET + SUPERBLOCK_LABEL_LEN,
    )
}

pub proof fn lemma_label_bytes_is_take(field: Seq<u8>, k: int)
    requires
        0 <= k <= field.len(),
        forall|i: int| 0 <= i < k ==> field[i] != 0,
        k < field.len() ==> field[k] == 0,
    ensures
        label_bytes(field) == field.take(k),
    decreases k,
{
    if k > 0 {
        lemma_label_bytes_is_take(field.skip(1), k - 1);
        assert(seq![field[0]] + field.skip(1).take(k - 1) == field.take(k));
    } else {
        assert(field.take(0) == Seq::<u8>::empty());
    }
}

/// The volume label stored in a superblock.
pub fn parse_label(superblock: &[u8]) -> (label: String)
    requires
        superblock@.len() >= SUPERBLOCK_LABEL_OFFSET + SUPERBLOCK_LABEL_LEN,
    ensures
        label@ == utf8_lossy(label_bytes(label_field(superblock@))),
{
    let field = vstd::slice::slice_subrange(
        superblock,
        SUPERBLOCK_LABEL_OFFSET,
        SUPERBLOCK_LABEL_OFFSET + SUPERBLOCK_LABEL_LEN,
    );
    let mut k: usize = 0;
    while k < field.len() && field[k] != 0
        invariant
            k <= field@.len(),
            forall|i: int| 0 <= i < k ==> field@[i] != 0,
        decreases field@.len() - k,
    {
        k = k + 1;
    }
    proof {
        lemma_label_bytes_is_take(field@, k as int);
        assert(field@.subrange(0, k as int) == field@.take(k as int));
    }
    from_utf8_lossy(vstd::slice::slice_subrange(field, 0, k))
}

/// First block past a table of `blocks` blocks.
pub open spec fn table_end(start: u32, blocks: u32) -> int {
    start + blocks
}

/// Whether the tables a record describes are laid out soundly: each entry table
/// follows its inode table, the two slots and the superblocks are apart, and the
/// data area comes after both slots.
pub open spec fn record_valid(r: SuperblockRecord) -> bool {
    let active_end = table_end(r.active_dirent_table_block, r.dirent_table_blocks);
    let shadow_end = table_end(r.shadow_dirent_table_block, r.dirent_table_blocks);
    &&& r.inode_table_blocks > 0
    &&& r.active_inode_table_block > SECONDARY_SUPERBLOCK_BLOCK
    &&& r.shadow_inode_table_block > SECONDARY_SUPERBLOCK_BLOCK
    &&& r.active_dirent_table_block == table_end(r.active_inode_table_block, r.inode_table_blocks)
    &&& r.shadow_dirent_table_block == table_end(r.shadow_inode_table_block, r.inode_table_blocks)
    &&& (active_end <= r.shadow_inode_table_block || shadow_end <= r.active_inode_table_block)
    &&& active_end <= r.data_block_start
    &&& shadow_end <= r.data_block_start
}

/// Accepts exactly the records whose tables are laid out soundly.
pub fn validate_superblock_record(record: SuperblockRecord) -> (r: Result<()>)
    ensures
        r == (if record_valid(record) {
            Ok::<(), Error>(())
        } else {
            Err(Error::InvalidArgument)
        }),
{
    if record.inode_table_blocks == 0 {
        return Err(Error::InvalidArgument);
    }
    let active_inode_end: u64 = record.active_inode_table_block as u64
        + record.inode_table_blocks as u64;
    let active_dirent_end: u64 = record.active_dirent_table_block as u64
        + record.dirent_table_blocks as u64;
    let shadow_inode_end: u64 = record.shadow_inode_table_block as u64
        + record.inode_table_blocks as u64;
    let shadow_dirent_end: u64 = record.shadow_dirent_table_block as u64
        + record.dirent_table_blocks as u64;
    if record.active_inode_table_block <= SECONDARY_SUPERBLOCK_BLOCK
        || record.active_dirent_table_block as u64 != active_inode_end
        || record.shadow_inode_table_block <= SECONDARY_SUPERBLOCK_BLOCK
        || record.shadow_dirent_table_block as u64 != shadow_inode_end {
        return Err(Error::InvalidArgument);
    }
    let active_start: u64 = record.active_inode_table_block as u64;
    let shadow_start: u64 = record.shadow_inode_table_block as u64;
    if active_start < shadow_dirent_end && shadow_start < active_dirent_end {
        return Err(Error::InvalidArgument);
    }
    let data_start: u64 = record.data_block_start as u64;
    if data_start < active_dirent_end || data_start < shadow_dirent_end {
        return Err(Error::InvalidArgument);
    }
    Ok(())
}

/// The record stored in a superblock of this format.
pub open spec fn record_at(s: Seq<u8>, version: SimpleFsFormatVersion) -> SuperblockRecord {
    SuperblockRecord {
        inode_count: u32_at(s, SUPERBLOCK_INODE_COUNT_OFFSET as int),
        dirent_count: u32_at(s, SUPERBLOCK_DIRENT_COUNT_OFFSET as int),
        active_inode_table_block: u32_at(s, SUPERBLOCK_ACTIVE_INODE_TABLE_OFFSET as int),
        active_dirent_table_block: u32_at(s, SUPERBLOCK_ACTIVE_DIRENT_TABLE_OFFSET as int),
        shadow_inode_table_block: u32_at(s, SUPERBLOCK_SHADOW_INODE_TABLE_OFFSET as int),
        shadow_dirent_table_block: u32_at(s, SUPERBLOCK_SHADOW_DIRENT_TABLE_OFFSET as int),
        inode_table_blocks: u32_at(s, SUPERBLOCK_INODE_TABLE_BLOCKS_OFFSET as int),
        dirent_table_blocks: u32_at(s, SUPERBLOCK_DIRENT_TABLE_BLOCKS_OFFSET as int),
        data_block_start: u32_at(s, SUPERBLOCK_DATA_BLOCK_START_OFFSET as int),
        generation: u32_at(s, SUPERBLOCK_GENERATION_OFFSET as int),
        pending_commit: if version.stores_security() {
            u32_at(s, SUPERBLOCK_PENDING_COMMIT_OFFSET as int)
        } else {
            0
        },
        active_xattr_table_block: u32_at(s, SUPERBLOCK_ACTIVE_XATTR_TABLE_OFFSET as int),
        shadow_xattr_table_block: u32_at(s, SUPERBLOCK_SHADOW_XATTR_TABLE_OFFSET as int),
        xattr_table_blocks: u32_at(s, SUPERBLOCK_XATTR_TABLE_BLOCKS_OFFSET as int),
        xattr_count: u32_at(s, SUPERBLOCK_XATTR_COUNT_OFFSET as int),
    }
}

/// What a block says when it is read as a superblock.
pub open spec fn superblock_contents(s: Seq<u8>) -> core::result::Result<
    (Seq<char>, ParsedSuperblock),
    Error,
> {
    if s.take(8) != MAGIC@ || s.len() < 12 {
        Err(Error::InvalidArgument)
    } else {
        match SimpleFsFormatVersion::spec_parse_supported(u32_at(s, SUPERBLOCK_VERSION_OFFSET as int)) {
            Err(e) => Err(e),
            Ok(version) => if s.len() < 16 {
                Err(Error::InvalidArgument)
            } else if u32_at(s, SUPERBLOCK_BLOCK_SIZE_OFFSET as int) != BLOCK_SIZE {
                Err(Error::Unsupported)
            } else if s.len() < SUPERBLOCK_FIELDS_END || u32_at(
                s,
                SUPERBLOCK_CHECKSUM_OFFSET as int,
            ) != checksum_of(s) || !record_valid(record_at(s, version)) {
                Err(Error::InvalidArgument)
            } else {
                Ok(
                    (
                        utf8_lossy(label_bytes(label_field(s))),
                        ParsedSuperblock { format_version: version, record: record_at(s, version) },
                    ),
                )
            },
        }
    }
}

/// Decodes a superblock, refusing anything that is not one.
pub fn parse_superblock(superblock: &[u8]) -> (r: Result<(String, ParsedSuperblock)>)
    requires
        superblock@.len() >= 8,
    ensures
        match r {
            Ok((label, parsed)) => superblock_contents(superblock@) == Ok::<
                (Seq<char>, ParsedSuperblock),
                Error,
            >((label@, parsed)),
            Err(e) => superblock_contents(superblock@) == Err::<(Seq<char>, ParsedSuperblock), Error>(
                e,
            ),
        },
{
    let magic = MAGIC;
    let head = vstd::slice::slice_subrange(superblock, 0, 8);
    assert(head@ == superblock@.take(8));
    if !bytes_eq(head, magic.as_slice()) {
        return Err(Error::InvalidArgument);
    }
    let format_version = SimpleFsFormatVersion::parse_supported(
        read_u32(superblock, SUPERBLOCK_VERSION_OFFSET)?,
    )?;
    if read_u32(superblock, SUPERBLOCK_BLOCK_SIZE_OFFSET)? as usize != BLOCK_SIZE {
        return Err(Error::Unsupported);
    }
    let stored_checksum = read_u32(superblock, SUPERBLOCK_CHECKSUM_OFFSET)?;
    if stored_checksum != superblock_checksum(superblock) {
        return Err(Error::InvalidArgument);
    }
    let pending_commit: u32 = if format_version.persistent_security_descriptor_layout().is_some() {
        read_u32(superblock, SUPERBLOCK_PENDING_COMMIT_OFFSET)?
    } else {
        0
    };
    let record = SuperblockRecord {
        inode_count: read_u32(superblock, SUPERBLOCK_INODE_COUNT_OFFSET)?,
        dirent_count: read_u32(superblock, SUPERBLOCK_DIRENT_COUNT_OFFSET)?,
        active_inode_table_block: read_u32(superblock, SUPERBLOCK_ACTIVE_INODE_TABLE_OFFSET)?,
        active_dirent_table_block: read_u32(superblock, SUPERBLOCK_ACTIVE_DIRENT_TABLE_OFFSET)?,
        shadow_inode_table_block: read_u32(superblock, SUPERBLOCK_SHADOW_INODE_TABLE_OFFSET)?,
        shadow_dirent_table_block: read_u32(superblock, SUPERBLOCK_SHADOW_DIRENT_TABLE_OFFSET)?,
        inode_table_blocks: read_u32(superblock, SUPERBLOCK_INODE_TABLE_BLOCKS_OFFSET)?,
        dirent_table_blocks: read_u32(superblock, SUPERBLOCK_DIRENT_TABLE_BLOCKS_OFFSET)?,
        data_block_start: read_u32(superblock, SUPERBLOCK_DATA_BLOCK_START_OFFSET)?,
        generation: read_u32(superblock, SUPERBLOCK_GENERATION_OFFSET)?,
        pending_commit,
        active_xattr_table_block: read_u32(superblock, SUPERBLOCK_ACTIVE_XATTR_TABLE_OFFSET)?,
        shadow_xattr_table_block: read_u32(superblock, SUPERBLOCK_SHADOW_XATTR_TABLE_OFFSET)?,
        xattr_table_blocks: read_u32(superblock, SUPERBLOCK_XATTR_TABLE_BLOCKS_OFFSET)?,
        xattr_count: read_u32(superblock, SUPERBLOCK_XATTR_COUNT_OFFSET)?,
    };
    validate_superblock_record(record)?;
    Ok((parse_label(superblock), ParsedSuperblock { format_version, record }))
}

/// Reads and decodes the superblock at `block_index`.
pub fn read_superblock_record<D: BlockDevice>(device: &D, block_index: u32) -> (r: Result<
    (String, ParsedSuperblock),
>)
    ensures
        match r {
            Ok((label, parsed)) => stored_superblock(*device, block_index as int) == Ok::<
                (Seq<char>, ParsedSuperblock),
                Error,
            >((label@, parsed)),
            Err(e) => stored_superblock(*device, block_index as int) == Err::<
                (Seq<char>, ParsedSuperblock),
                Error,
            >(e),
        },
{
    let superblock = read_vec(device, block_index as u64, BLOCK_SIZE)?;
    parse_superblock(superblock.as_slice())
}

/// What the block at `block_index` says when it is read as a superblock.
pub open spec fn stored_superblock<D: BlockDevice>(
    device: D,
    block_index: int,
) -> core::result::Result<(Seq<char>, ParsedSuperblock), Error> {
    match device_read(device, block_index, BLOCK_SIZE as int) {
        Ok(s) => superblock_contents(s),
        Err(e) => Err(e),
    }
}

/// The part of a label that a superblock has room for.
pub open spec fn clipped_label(label: Seq<char>) -> Seq<u8> {
    let b = encode_utf8(label);
    if b.len() <= SUPERBLOCK_LABEL_LEN {
        b
    } else {
        b.take(SUPERBLOCK_LABEL_LEN as int)
    }
}

/// Whether `s` is the superblock of a volume, byte for byte: the magic, every
/// field at its place, the label padded with zeros, a matching checksum, and
/// zeros everywhere else.
pub open spec fn is_superblock(
    s: Seq<u8>,
    label: Seq<char>,
    version: SimpleFsFormatVersion,
    record: SuperblockRecord,
) -> bool {
    &&& s.len() == BLOCK_SIZE
    &&& s.take(8) == MAGIC@
    &&& u32_at(s, SUPERBLOCK_VERSION_OFFSET as int) == version.spec_on_disk_value()
    &&& u32_at(s, SUPERBLOCK_BLOCK_SIZE_OFFSET as int) == BLOCK_SIZE
    &&& record_at(s, version) == (SuperblockRecord {
        pending_commit: if version.stores_security() {
            record.pending_commit
        } else {
            0
        },
        ..record
    })
    &&& u32_at(s, SUPERBLOCK_CHECKSUM_OFFSET as int) == checksum_of(s)
    &&& label_field(s) == clipped_label(label) + zeros(
        (SUPERBLOCK_LABEL_LEN - clipped_label(label).len()) as nat,
    )
    &&& forall|i: int| 60 <= i < 64 ==> s[i] == 0
    &&& !version.stores_security() ==> u32_at(s, SUPERBLOCK_PENDING_COMMIT_OFFSET as int) == 0
    &&& forall|i: int| SUPERBLOCK_FIELDS_END <= i < BLOCK_SIZE ==> s[i] == 0
}

fn store_label(block: &mut [u8], label: &[u8])
    requires
        old(block)@.len() == BLOCK_SIZE,
        label@.len() <= SUPERBLOCK_LABEL_LEN,
    ensures
        final(block)@ == put(old(block)@, SUPERBLOCK_LABEL_OFFSET as int, label@),
        forall|at: int|
            #![trigger field_at(final(block)@, at)]
            0 <= at && at + 4 <= BLOCK_SIZE && (at + 4 <= SUPERBLOCK_LABEL_OFFSET
                || SUPERBLOCK_LABEL_OFFSET + SUPERBLOCK_LABEL_LEN <= at) ==> field_at(
                final(block)@,
                at,
            ) == field_at(old(block)@, at),
{
    write_bytes(block, SUPERBLOCK_LABEL_OFFSET, label);
    proof {
        reveal(field_at);
    }
}

fn store_magic(block: &mut [u8])
    requires
        old(block)@.len() == BLOCK_SIZE,
    ensures
        final(block)@ == put(zeros(BLOCK_SIZE as nat), 0, MAGIC@),
        field_at(final(block)@, SUPERBLOCK_PENDING_COMMIT_OFFSET as int) == 0,
{
    zero_fill(block);
    let magic = MAGIC;
    write_bytes(block, 0, magic.as_slice());
    proof {
        reveal(field_at);
    }
}

/// Encodes a superblock over `block`.
pub fn write_superblock(
    block: &mut [u8],
    label: &str,
    format_version: SimpleFsFormatVersion,
    record: SuperblockRecord,
)
    requires
        old(block)@.len() == BLOCK_SIZE,
    ensures
        is_superblock(final(block)@, label@, format_version, record),
{
    store_magic(block);
    store_u32(block, SUPERBLOCK_VERSION_OFFSET, format_version.on_disk_value());
    store_u32(block, SUPERBLOCK_BLOCK_SIZE_OFFSET, BLOCK_SIZE as u32);
    store_u32(block, SUPERBLOCK_INODE_COUNT_OFFSET, record.inode_count);
    store_u32(block, SUPERBLOCK_DIRENT_COUNT_OFFSET, record.dirent_count);
    store_u32(block, SUPERBLOCK_ACTIVE_INODE_TABLE_OFFSET, record.active_inode_table_block);
    store_u32(block, SUPERBLOCK_ACTIVE_DIRENT_TABLE_OFFSET, record.active_dirent_table_block);
    store_u32(block, SUPERBLOCK_DATA_BLOCK_START_OFFSET, record.data_block_start);
    store_u32(block, SUPERBLOCK_SHADOW_INODE_TABLE_OFFSET, record.shadow_inode_table_block);
    store_u32(block, SUPERBLOCK_SHADOW_DIRENT_TABLE_OFFSET, record.shadow_dirent_table_block);
    store_u32(block, SUPERBLOCK_INODE_TABLE_BLOCKS_OFFSET, record.inode_table_blocks);
    store_u32(block, SUPERBLOCK_DIRENT_TABLE_BLOCKS_OFFSET, record.dirent_table_blocks);
    store_u32(block, SUPERBLOCK_ACTIVE_XATTR_TABLE_OFFSET, record.active_xattr_table_block);
    store_u32(block, SUPERBLOCK_SHADOW_XATTR_TABLE_OFFSET, record.shadow_xattr_table_block);
    store_u32(block, SUPERBLOCK_XATTR_TABLE_BLOCKS_OFFSET, record.xattr_table_blocks);
    store_u32(block, SUPERBLOCK_XATTR_COUNT_OFFSET, record.xattr_count);
    store_u32(block, SUPERBLOCK_GENERATION_OFFSET, record.generation);
    if format_version.persistent_security_descriptor_layout().is_some() {
        store_u32(block, SUPERBLOCK_PENDING_COMMIT_OFFSET, record.pending_commit);
    }
    let bytes = label.as_bytes();
    let label_len: usize = if bytes.len() <= SUPERBLOCK_LABEL_LEN {
        bytes.len()
    } else {
        SUPERBLOCK_LABEL_LEN
    };
    let clipped = vstd::slice::slice_subrange(bytes, 0, label_len);
    assert(clipped@ == clipped_label(label@));
    let ghost fields = block@;
    store_label(block, clipped);
    let ghost unsealed = block@;
    let checksum = superblock_checksum(block);
    store_u32(block, SUPERBLOCK_CHECKSUM_OFFSET, checksum);
    proof {
        lemma_checksum_ignores_itself(unsealed, block@);
        assert(block@.take(8) == MAGIC@);
        assert(label_field(block@) == clipped_label(label@) + zeros(
            (SUPERBLOCK_LABEL_LEN - clipped_label(label@).len()) as nat,
        ));
        assert(field_at(fields, SUPERBLOCK_PENDING_COMMIT_OFFSET as int)
            == if format_version.stores_security() {
            record.pending_commit
        } else {
            0
        });
        reveal(field_at);
    }
}

/// A superblock that was encoded decodes to what was encoded, as long as its
/// tables are laid out soundly and its label fits and holds no zero byte.
pub proof fn law_superblock_round_trip(
    s: Seq<u8>,
    label: Seq<char>,
    version: SimpleFsFormatVersion,
    record: SuperblockRecord,
)
    requires
        is_superblock(s, label, version, record),
        record_valid(record),
        !version.stores_security() ==> record.pending_commit == 0,
    ensures
        superblock_contents(s) is Ok,
        superblock_contents(s)->Ok_0.1 == (ParsedSuperblock { format_version: version, record }),
        encode_utf8(label).len() <= SUPERBLOCK_LABEL_LEN && !encode_utf8(label).contains(0u8)
            ==> superblock_contents(s)->Ok_0.0 == label,
{
    broadcast use {vstd::utf8::encode_utf8_valid_utf8, vstd::utf8::encode_utf8_decode_utf8};

    if encode_utf8(label).len() <= SUPERBLOCK_LABEL_LEN && !encode_utf8(label).contains(0u8) {
        let field = label_field(s);
        let b = encode_utf8(label);
        assert forall|i: int| 0 <= i < b.len() implies field[i] != 0 by {
            assert(field[i] == b[i]);
            assert(b.contains(b[i]));
        }
        lemma_label_bytes_is_take(field, b.len() as int);
        assert(field.take(b.len() as int) == b);
    }
}

} // verus!
