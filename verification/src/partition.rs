//! Partition tables in the master boot record.
use vstd::prelude::*;

use crate::block::{BLOCK_SIZE, BlockDevice, device_read, read_vec};
use crate::bytes::{get_u32, le32, lemma_le32_round_trip, put, u32_at, write_bytes, write_u32, zero_vec, zeros};
use crate::error::{Error, Result};

verus! {

/// Number of entries in a table.
pub const MBR_PARTITION_COUNT: usize = 4;

/// Where the table begins in the first block.
pub const MBR_PARTITION_TABLE_OFFSET: usize = 446;

/// Size of an entry in bytes.
pub const MBR_PARTITION_ENTRY_SIZE: usize = 16;

/// Where the signature stands.
pub const MBR_SIGNATURE_OFFSET: usize = 510;

/// One partition.
#[derive(Debug, Clone, Copy, PartialEq, Eq, Structural)]
pub struct MbrPartitionEntry {
    pub bootable: bool,
    pub partition_type: u8,
    pub start_block: u64,
    pub block_count: u64,
}

impl MbrPartitionEntry {
    /// A partition.
    pub fn new(bootable: bool, partition_type: u8, start_block: u64, block_count: u64) -> (r: Self)
        ensures
            r == (MbrPartitionEntry { bootable, partition_type, start_block, block_count }),
    {
        Self { bootable, partition_type, start_block, block_count }
    }
}

/// The four entries of a table; an unused one is missing.
pub type MbrPartitionTable = [Option<MbrPartitionEntry>; 4];

/// Whether a block carries the signature of a table.
pub open spec fn signed(sector: Seq<u8>) -> bool {
    sector[MBR_SIGNATURE_OFFSET as int] == 0x55 && sector[MBR_SIGNATURE_OFFSET + 1] == 0xaa
}

/// The entry with a number. One is present where its boot flag or its type is not zero.
pub open spec fn mbr_entry(sector: Seq<u8>, index: int) -> Option<MbrPartitionEntry> {
    let at = MBR_PARTITION_TABLE_OFFSET + index * MBR_PARTITION_ENTRY_SIZE;
    if sector[at] == 0 && sector[at + 4] == 0 {
        None
    } else {
        Some(
            MbrPartitionEntry {
                bootable: sector[at] == 0x80,
                partition_type: sector[at + 4],
                start_block: u32_at(sector, at + 8) as u64,
                block_count: u32_at(sector, at + 12) as u64,
            },
        )
    }
}

/// The table in a block.
pub open spec fn mbr_table(sector: Seq<u8>) -> Seq<Option<MbrPartitionEntry>> {
    Seq::new(MBR_PARTITION_COUNT as nat, |k: int| mbr_entry(sector, k))
}

fn parse_entry(sector: &Vec<u8>, index: usize) -> (r: Option<MbrPartitionEntry>)
    requires
        sector@.len() == BLOCK_SIZE,
        index < MBR_PARTITION_COUNT,
    ensures
        r == mbr_entry(sector@, index as int),
{
    let at: usize = MBR_PARTITION_TABLE_OFFSET + index * MBR_PARTITION_ENTRY_SIZE;
    if sector[at] == 0 && sector[at + 4] == 0 {
        return None;
    }
    Some(
        MbrPartitionEntry {
            bootable: sector[at] == 0x80,
            partition_type: sector[at + 4],
            start_block: get_u32(sector.as_slice(), at + 8) as u64,
            block_count: get_u32(sector.as_slice(), at + 12) as u64,
        },
    )
}

/// Reads the table of a device. There is none where the device's blocks are of another
/// size, where it has no block, or where its first block is not signed.
pub fn read_mbr_partitions<D: BlockDevice>(device: &D) -> (r: Result<Option<MbrPartitionTable>>)
    ensures
        if device.block_bytes() != BLOCK_SIZE || device.image().len() < BLOCK_SIZE {
            r matches Ok(None)
        } else {
            match device_read(*device, 0, BLOCK_SIZE as int) {
                Err(e) => r matches Err(e2) && e2 == e,
                Ok(sector) => if signed(sector) {
                    r matches Ok(Some(t)) && t@ == mbr_table(sector)
                } else {
                    r matches Ok(None)
                },
            }
        },
{
    proof {
        let n = device.image().len();
        assert(BLOCK_SIZE as nat == 512nat);
        assert(n / 512nat == 0 <==> n < 512nat);
    }
    if device.block_size() != BLOCK_SIZE || device.block_count() == 0 {
        return Ok(None);
    }
    let sector = read_vec(device, 0, BLOCK_SIZE)?;
    if sector[MBR_SIGNATURE_OFFSET] != 0x55 || sector[MBR_SIGNATURE_OFFSET + 1] != 0xaa {
        return Ok(None);
    }
    let table: MbrPartitionTable = [
        parse_entry(&sector, 0),
        parse_entry(&sector, 1),
        parse_entry(&sector, 2),
        parse_entry(&sector, 3),
    ];
    assert(table@ =~= mbr_table(sector@));
    Ok(Some(table))
}

/// The bytes of an entry.
pub open spec fn entry_bytes(entry: Option<MbrPartitionEntry>) -> Seq<u8> {
    match entry {
        None => zeros(16),
        Some(e) => put(
            put(
                put(
                    put(
                        zeros(16),
                        0,
                        seq![
                            if e.bootable {
                                0x80u8
                            } else {
                                0u8
                            },
                        ],
                    ),
                    4,
                    seq![e.partition_type],
                ),
                8,
                le32(e.start_block as u32),
            ),
            12,
            le32(e.block_count as u32),
        ),
    }
}

/// Whether an entry can be written: its numbers fit in 32 bits.
pub open spec fn entry_fits(entry: Option<MbrPartitionEntry>) -> bool {
    entry matches Some(e) ==> e.start_block <= u32::MAX && e.block_count <= u32::MAX
}

/// A block with the first `n` entries of a table.
pub open spec fn with_table(
    sector: Seq<u8>,
    table: Seq<Option<MbrPartitionEntry>>,
    n: int,
) -> Seq<u8>
    decreases n,
{
    if n <= 0 {
        put(sector, 0, zeros(BLOCK_SIZE as nat))
    } else {
        put(
            with_table(sector, table, n - 1),
            MBR_PARTITION_TABLE_OFFSET + (n - 1) * MBR_PARTITION_ENTRY_SIZE,
            entry_bytes(table[n - 1]),
        )
    }
}

/// The first entry from `i` on that cannot be written.
pub open spec fn first_unfit(table: Seq<Option<MbrPartitionEntry>>, i: int) -> Option<int>
    decreases table.len() - i,
{
    if i < 0 || i >= table.len() {
        None
    } else if !entry_fits(table[i]) {
        Some(i)
    } else {
        first_unfit(table, i + 1)
    }
}

fn build_entry(entry: &MbrPartitionEntry) -> (r: Vec<u8>)
    requires
        entry_fits(Some(*entry)),
    ensures
        r@ == entry_bytes(Some(*entry)),
{
    let mut out = zero_vec(16);
    let flag: u8 = if entry.bootable {
        0x80
    } else {
        0
    };
    out.set(0, flag);
    out.set(4, entry.partition_type);
    write_u32(out.as_mut_slice(), 8, entry.start_block as u32);
    write_u32(out.as_mut_slice(), 12, entry.block_count as u32);
    assert(out@ =~= entry_bytes(Some(*entry)));
    out
}

/// Writes a table into the first block of a buffer. Where an entry cannot be written, the
/// entries before it are, and no signature.
pub fn write_mbr_partitions(sector: &mut [u8], partitions: &MbrPartitionTable) -> (r: Result<()>)
    ensures
        if old(sector)@.len() < BLOCK_SIZE {
            r == Err::<(), Error>(Error::InvalidArgument) && final(sector)@ == old(sector)@
        } else {
            match first_unfit(partitions@, 0) {
                Some(k) => r == Err::<(), Error>(Error::InvalidArgument) && final(sector)@
                    == with_table(old(sector)@, partitions@, k),
                None => r is Ok && final(sector)@ == put(
                    with_table(old(sector)@, partitions@, MBR_PARTITION_COUNT as int),
                    MBR_SIGNATURE_OFFSET as int,
                    seq![0x55u8, 0xaau8],
                ),
            }
        },
{
    if sector.len() < BLOCK_SIZE {
        return Err(Error::InvalidArgument);
    }
    let ghost start = sector@;
    let blank = zero_vec(BLOCK_SIZE);
    write_bytes(sector, 0, blank.as_slice());
    let mut index: usize = 0;
    while index < MBR_PARTITION_COUNT
        invariant
            index <= MBR_PARTITION_COUNT,
            start.len() >= BLOCK_SIZE,
            start == old(sector)@,
            sector@.len() == start.len(),
            sector@ == with_table(start, partitions@, index as int),
            first_unfit(partitions@, 0) == first_unfit(partitions@, index as int),
        decreases MBR_PARTITION_COUNT - index,
    {
        let at: usize = MBR_PARTITION_TABLE_OFFSET + index * MBR_PARTITION_ENTRY_SIZE;
        match partitions[index] {
            None => {
                let bytes = zero_vec(MBR_PARTITION_ENTRY_SIZE);
                write_bytes(sector, at, bytes.as_slice());
            },
            Some(entry) => {
                if entry.start_block > u32::MAX as u64 || entry.block_count > u32::MAX as u64 {
                    return Err(Error::InvalidArgument);
                }
                let bytes = build_entry(&entry);
                write_bytes(sector, at, bytes.as_slice());
            },
        }
        index = index + 1;
    }
    sector[MBR_SIGNATURE_OFFSET] = 0x55;
    sector[MBR_SIGNATURE_OFFSET + 1] = 0xaa;
    assert(sector@ =~= put(
        with_table(start, partitions@, MBR_PARTITION_COUNT as int),
        MBR_SIGNATURE_OFFSET as int,
        seq![0x55u8, 0xaau8],
    ));
    Ok(())
}

/// Whether an entry can be told from an unused one.
pub open spec fn entry_visible(entry: Option<MbrPartitionEntry>) -> bool {
    entry matches Some(e) ==> e.bootable || e.partition_type != 0
}

proof fn lemma_entry_in(sector: Seq<u8>, table: Seq<Option<MbrPartitionEntry>>, n: int, k: int, j: int)
    requires
        sector.len() >= BLOCK_SIZE,
        0 <= k < n <= MBR_PARTITION_COUNT,
        0 <= j < 16,
    ensures
        with_table(sector, table, n)[MBR_PARTITION_TABLE_OFFSET + k * 16 + j] == entry_bytes(
            table[k],
        )[j],
        with_table(sector, table, n).len() == sector.len(),
    decreases n,
{
    lemma_table_len(sector, table, n);
    lemma_table_len(sector, table, n - 1);
    if k < n - 1 {
        lemma_entry_in(sector, table, n - 1, k, j);
    }
}

proof fn lemma_table_len(sector: Seq<u8>, table: Seq<Option<MbrPartitionEntry>>, n: int)
    ensures
        with_table(sector, table, n).len() == sector.len(),
    decreases n,
{
    if n > 0 {
        lemma_table_len(sector, table, n - 1);
    }
}

proof fn lemma_all_fit(table: Seq<Option<MbrPartitionEntry>>, i: int, k: int)
    requires
        0 <= i <= k < table.len(),
        first_unfit(table, i) is None,
    ensures
        entry_fits(table[k]),
    decreases k - i,
{
    if i < k {
        lemma_all_fit(table, i + 1, k);
    }
}

/// A table that was written is read back as it was, where none of its entries looks like
/// an unused one.
pub proof fn law_table_round_trip(sector: Seq<u8>, table: Seq<Option<MbrPartitionEntry>>)
    requires
        sector.len() >= BLOCK_SIZE,
        table.len() == MBR_PARTITION_COUNT,
        first_unfit(table, 0) is None,
        forall|k: int| #![trigger table[k]] 0 <= k < table.len() ==> entry_visible(table[k]),
    ensures
        ({
            let block = put(
                with_table(sector, table, MBR_PARTITION_COUNT as int),
                MBR_SIGNATURE_OFFSET as int,
                seq![0x55u8, 0xaau8],
            );
            signed(block) && mbr_table(block) == table
        }),
{
    let full = with_table(sector, table, MBR_PARTITION_COUNT as int);
    let block = put(full, MBR_SIGNATURE_OFFSET as int, seq![0x55u8, 0xaau8]);
    lemma_table_len(sector, table, MBR_PARTITION_COUNT as int);
    assert forall|k: int| 0 <= k < MBR_PARTITION_COUNT implies mbr_entry(block, k) == table[k] by {
        let at = MBR_PARTITION_TABLE_OFFSET + k * 16;
        let bytes = entry_bytes(table[k]);
        assert(block.subrange(at, at + 16) =~= bytes) by {
            assert forall|j: int| 0 <= j < 16 implies block[at + j] == bytes[j] by {
                lemma_entry_in(sector, table, MBR_PARTITION_COUNT as int, k, j);
            }
        }
        assert forall|j: int| 0 <= j < 16 implies #[trigger] block[at + j] == bytes[j] by {
            assert(block.subrange(at, at + 16)[j] == block[at + j]);
        }
        assert(block[at + 0] == bytes[0]);
        assert(block[at + 4] == bytes[4]);
        lemma_all_fit(table, 0, k);
        if let Some(e) = table[k] {
            assert(entry_visible(table[k]));
            let front = zeros(16);
            lemma_le32_round_trip(front, 8, e.start_block as u32);
            lemma_le32_round_trip(front, 12, e.block_count as u32);
            assert(u32_at(bytes, 8) == u32_at(put(front, 8, le32(e.start_block as u32)), 8));
            assert(u32_at(bytes, 12) == u32_at(put(front, 12, le32(e.block_count as u32)), 12));
            assert(u32_at(block, at + 8) == u32_at(bytes, 8)) by {
                assert(block[at + 8] == bytes[8] && block[at + 9] == bytes[9] && block[at + 10]
                    == bytes[10] && block[at + 11] == bytes[11]);
            }
            assert(u32_at(block, at + 12) == u32_at(bytes, 12)) by {
                assert(block[at + 12] == bytes[12] && block[at + 13] == bytes[13] && block[at + 14]
                    == bytes[14] && block[at + 15] == bytes[15]);
            }
        }
    }
    assert(mbr_table(block) =~= table);
}

/// Sixteen bytes of a table entry: the boot flag, where the partition starts and ends in
/// cylinders, heads and sectors, which nobody reads, its type between the two, its first block
/// and its length in blocks, low bytes first.
pub open spec fn raw_entry(
    flag: u8,
    first_chs: Seq<u8>,
    partition_type: u8,
    last_chs: Seq<u8>,
    start: u32,
    count: u32,
) -> Seq<u8> {
    seq![flag] + first_chs + seq![partition_type] + last_chs + seq![
        (start % 256) as u8,
        (start / 256 % 256) as u8,
        (start / 65536 % 256) as u8,
        (start / 16777216) as u8,
    ] + seq![
        (count % 256) as u8,
        (count / 256 % 256) as u8,
        (count / 65536 % 256) as u8,
        (count / 16777216) as u8,
    ]
}

/// A first block is 446 bytes of code, four entries of sixteen bytes each and the bytes 55 and
/// AA. Whoever wrote it, an entry says whether the partition is active, what type it has,
/// where it starts and how long it is; it is unused where it has neither flag nor type.
pub proof fn law_entry_says_where_the_partition_lies(
    sector: Seq<u8>,
    k: int,
    flag: u8,
    first_chs: Seq<u8>,
    partition_type: u8,
    last_chs: Seq<u8>,
    start: u32,
    count: u32,
)
    requires
        sector.len() >= 512,
        0 <= k < 4,
        first_chs.len() == 3,
        last_chs.len() == 3,
        sector.subrange(446 + 16 * k, 462 + 16 * k) == raw_entry(
            flag,
            first_chs,
            partition_type,
            last_chs,
            start,
            count,
        ),
    ensures
        mbr_table(sector).len() == 4,
        flag == 0 && partition_type == 0 ==> mbr_table(sector)[k] is None,
        flag != 0 || partition_type != 0 ==> mbr_table(sector)[k] == Some(
            MbrPartitionEntry {
                bootable: flag == 128,
                partition_type,
                start_block: start as u64,
                block_count: count as u64,
            },
        ),
{
    let at = 446 + 16 * k;
    let raw = raw_entry(flag, first_chs, partition_type, last_chs, start, count);
    lemma_raw_entry(flag, first_chs, partition_type, last_chs, start, count);
    assert forall|j: int| 0 <= j < 16 implies #[trigger] sector[at + j] == raw[j] by {
        assert(sector.subrange(at, at + 16)[j] == sector[at + j]);
    }
    assert(sector[at + 0] == raw[0] && sector[at + 4] == raw[4]);
    assert(sector[at + 8] == raw[8] && sector[at + 9] == raw[9] && sector[at + 10] == raw[10]
        && sector[at + 11] == raw[11]);
    assert(sector[at + 12] == raw[12] && sector[at + 13] == raw[13] && sector[at + 14] == raw[14]
        && sector[at + 15] == raw[15]);
    assert(u32_at(sector, at + 8) == u32_at(raw, 8));
    assert(u32_at(sector, at + 12) == u32_at(raw, 12));
    assert(mbr_table(sector)[k] == mbr_entry(sector, k));
}

proof fn lemma_raw_entry(
    flag: u8,
    first_chs: Seq<u8>,
    partition_type: u8,
    last_chs: Seq<u8>,
    start: u32,
    count: u32,
)
    requires
        first_chs.len() == 3,
        last_chs.len() == 3,
    ensures
        ({
            let raw = raw_entry(flag, first_chs, partition_type, last_chs, start, count);
            &&& raw.len() == 16
            &&& raw[0] == flag
            &&& raw[4] == partition_type
            &&& u32_at(raw, 8) == start
            &&& u32_at(raw, 12) == count
        }),
{
    let raw = raw_entry(flag, first_chs, partition_type, last_chs, start, count);
    assert(raw.subrange(8, 12) =~= le32(start));
    assert(raw.subrange(12, 16) =~= le32(count));
    lemma_number(raw, 8, start);
    lemma_number(raw, 12, count);
}

proof fn lemma_number(s: Seq<u8>, at: int, v: u32)
    requires
        0 <= at,
        at + 4 <= s.len(),
        s.subrange(at, at + 4) == le32(v),
    ensures
        u32_at(s, at) == v,
{
    let b = s.subrange(at, at + 4);
    assert(b[0] == s[at] && b[1] == s[at + 1] && b[2] == s[at + 2] && b[3] == s[at + 3]);
}

/// A table is signed by the bytes 55 and AA at the end of its block, and by no others.
pub proof fn law_signature(sector: Seq<u8>)
    requires
        sector.len() >= 512,
    ensures
        signed(sector) <==> sector.subrange(510, 512) == seq![0x55u8, 0xaau8],
{
    if sector.subrange(510, 512) == seq![0x55u8, 0xaau8] {
        assert(sector[510] == sector.subrange(510, 512)[0]);
        assert(sector[511] == sector.subrange(510, 512)[1]);
    }
    if signed(sector) {
        assert(sector.subrange(510, 512) =~= seq![0x55u8, 0xaau8]);
    }
}

/// Writing a table puts each entry where others look for it: the bytes of the block are those
/// that any reader of such tables takes for the partitions given, and the rest of the block
/// is zeros. Bytes after the block are left alone.
pub proof fn law_written_table_is_laid_out(
    sector: Seq<u8>,
    table: Seq<Option<MbrPartitionEntry>>,
    k: int,
)
    requires
        sector.len() >= 512,
        table.len() == 4,
        first_unfit(table, 0) is None,
        0 <= k < 4,
    ensures
        ({
            let block = put(
                with_table(sector, table, MBR_PARTITION_COUNT as int),
                MBR_SIGNATURE_OFFSET as int,
                seq![0x55u8, 0xaau8],
            );
            &&& block.len() == sector.len()
            &&& block.subrange(510, 512) == seq![0x55u8, 0xaau8]
            &&& forall|i: int| #![trigger block[i]] 0 <= i < 446 ==> block[i] == 0
            &&& forall|i: int| #![trigger block[i]] 512 <= i < block.len() ==> block[i] == sector[i]
            &&& block.subrange(446 + 16 * k, 462 + 16 * k) == match table[k] {
                Some(e) => raw_entry(
                    if e.bootable {
                        128
                    } else {
                        0
                    },
                    seq![0, 0, 0],
                    e.partition_type,
                    seq![0, 0, 0],
                    e.start_block as u32,
                    e.block_count as u32,
                ),
                None => Seq::new(16, |i: int| 0u8),
            }
        }),
{
    let full = with_table(sector, table, MBR_PARTITION_COUNT as int);
    let block = put(full, MBR_SIGNATURE_OFFSET as int, seq![0x55u8, 0xaau8]);
    lemma_table_len(sector, table, MBR_PARTITION_COUNT as int);
    lemma_all_fit(table, 0, k);
    let at = 446 + 16 * k;
    assert forall|j: int| 0 <= j < 16 implies #[trigger] block[at + j] == entry_bytes(table[k])[j] by {
        lemma_entry_in(sector, table, MBR_PARTITION_COUNT as int, k, j);
    }
    assert forall|i: int| #![trigger block[i]] 0 <= i < block.len() && !(446 <= i < 512) implies block[i]
        == if i < 446 {
        0
    } else {
        sector[i]
    } by {
        lemma_outside_table(sector, table, MBR_PARTITION_COUNT as int, i);
    }
    assert(block.subrange(510, 512) =~= seq![0x55u8, 0xaau8]);
    let piece = block.subrange(at, at + 16);
    assert forall|j: int| 0 <= j < 16 implies #[trigger] piece[j] == entry_bytes(table[k])[j] by {
        assert(piece[j] == block[at + j]);
    }
    match table[k] {
        Some(e) => {
            let flag: u8 = if e.bootable {
                128
            } else {
                0
            };
            assert(piece =~= raw_entry(
                flag,
                seq![0, 0, 0],
                e.partition_type,
                seq![0, 0, 0],
                e.start_block as u32,
                e.block_count as u32,
            ));
        },
        None => {
            assert(piece =~= Seq::new(16, |i: int| 0u8));
        },
    }
}

proof fn lemma_outside_table(sector: Seq<u8>, table: Seq<Option<MbrPartitionEntry>>, n: int, i: int)
    requires
        sector.len() >= 512,
        0 <= n <= 4,
        0 <= i < sector.len(),
        !(446 <= i < 510),
    ensures
        with_table(sector, table, n)[i] == if i < 512 {
            0
        } else {
            sector[i]
        },
    decreases n,
{
    lemma_table_len(sector, table, n);
    if n > 0 {
        lemma_table_len(sector, table, n - 1);
        lemma_outside_table(sector, table, n - 1, i);
    }
}

} // verus!
