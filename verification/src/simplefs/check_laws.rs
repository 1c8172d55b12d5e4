//! What a check counts, and what pooled and compressed contents keep.
use vstd::prelude::*;

use crate::block::{BlockDevice, device_read};
use crate::bytes::{le32, u32_at};
use crate::error::Error;
use crate::simplefs::check::{check_report, interrupted_commits};
use crate::simplefs::compression::{chunk_bytes, chunk_range, chunks_len, offset_bytes, page_of, stream_of};
use crate::simplefs::constants::{COMPRESSED_MAGIC, MAGIC};
use crate::simplefs::dedup::{PooledExtent, content_hash_of, extent_holds, shareable};
use crate::simplefs::encode::is_inode_record;
use crate::simplefs::file_read::data_checksum;
use crate::simplefs::health::{checksum_failures, device_holds, health_with, is_health, superblock_is};
use crate::simplefs::layout_laws::{law_written_inode_is_laid_out, lemma_inode_moved, spells_inode, volume_mark};
use crate::simplefs::repair::is_orphan;
use crate::simplefs::superblock::stored_superblock;
use crate::simplefs::types::{OnDiskInode, RuntimeHealthSnapshot, SimpleFsFormatVersion, SuperblockRecord};
use crate::simplefs::validate::{block_referenced, extent_end, high_water, holds_block, in_use, orphans_below};
use crate::simplefs::volume::{SimpleFs, volume_read};
use crate::spelling::{has_at, law_four_bytes, lemma_spells_moved, spells};
use crate::vfs::NodeKind;

verus! {

// ── Blocks ──

/// Every node in use ends below the high-water mark, and where the mark lies above the start
/// of the data some node ends there.
pub proof fn law_high_water_is_the_highest_end(inodes: Seq<OnDiskInode>, start: int)
    ensures
        high_water(inodes, start) >= start,
        forall|i: int|
            #![trigger inodes[i]]
            0 <= i < inodes.len() && !inodes[i].deleted && inodes[i].block_count > 0
                ==> inodes[i].data_block + inodes[i].block_count <= high_water(inodes, start),
        high_water(inodes, start) > start ==> exists|i: int|
            #![trigger inodes[i]]
            0 <= i < inodes.len() && !inodes[i].deleted && inodes[i].block_count > 0
                && inodes[i].data_block + inodes[i].block_count == high_water(inodes, start),
    decreases inodes.len(),
{
    if inodes.len() > 0 {
        let d = inodes.drop_last();
        let n = inodes.len() - 1;
        law_high_water_is_the_highest_end(d, start);
        let hw = high_water(inodes, start);
        assert forall|i: int|
            #![trigger inodes[i]]
            0 <= i < inodes.len() && !inodes[i].deleted && inodes[i].block_count
                > 0 implies inodes[i].data_block + inodes[i].block_count <= hw by {
            if i < n {
                assert(d[i] == inodes[i]);
            }
        }
        if hw > start {
            if in_use(inodes[n]) && extent_end(inodes[n]) > high_water(d, start) {
                assert(extent_end(inodes[n]) == hw);
            } else {
                let i = choose|i: int|
                    #![trigger d[i]]
                    0 <= i < d.len() && !d[i].deleted && d[i].block_count > 0 && d[i].data_block
                        + d[i].block_count == high_water(d, start);
                assert(d[i] == inodes[i]);
            }
        }
    }
}

/// One block more counts as lost exactly where no node in use, placed within the data area,
/// holds it.
pub proof fn law_lost_blocks_are_counted_one_by_one(
    inodes: Seq<OnDiskInode>,
    start: int,
    total: int,
    b: int,
)
    requires
        start <= b,
    ensures
        orphans_below(inodes, start, total, start) == 0,
        ({
            let held = exists|i: int|
                #![trigger inodes[i]]
                0 <= i < inodes.len() && !inodes[i].deleted && inodes[i].data_block <= b
                    < inodes[i].data_block + inodes[i].block_count && start <= inodes[i].data_block
                    && inodes[i].data_block + inodes[i].block_count <= total;
            orphans_below(inodes, start, total, b + 1) - orphans_below(inodes, start, total, b)
                == if held {
                0int
            } else {
                1int
            }
        }),
{
    let held = exists|i: int|
        #![trigger inodes[i]]
        0 <= i < inodes.len() && !inodes[i].deleted && inodes[i].data_block <= b
            < inodes[i].data_block + inodes[i].block_count && start <= inodes[i].data_block
            && inodes[i].data_block + inodes[i].block_count <= total;
    if block_referenced(inodes, b, start, total) {
        let i = choose|i: int|
            #![trigger inodes[i]]
            0 <= i < inodes.len() && holds_block(inodes[i], b, start, total);
        assert(!inodes[i].deleted);
        assert(held);
    }
    if held {
        let i = choose|i: int|
            #![trigger inodes[i]]
            0 <= i < inodes.len() && !inodes[i].deleted && inodes[i].data_block <= b
                < inodes[i].data_block + inodes[i].block_count && start <= inodes[i].data_block
                && inodes[i].data_block + inodes[i].block_count <= total;
        assert(holds_block(inodes[i], b, start, total));
    }
}

/// A block that a node in use holds is never cleared as lost.
pub proof fn law_held_block_is_not_lost(
    inodes: Seq<OnDiskInode>,
    b: int,
    start: int,
    total: int,
    i: int,
)
    requires
        0 <= i < inodes.len(),
        !inodes[i].deleted,
        start <= inodes[i].data_block,
        inodes[i].data_block + inodes[i].block_count <= total,
        inodes[i].data_block <= b < inodes[i].data_block + inodes[i].block_count,
    ensures
        !is_orphan(inodes, b, start, total),
{
    assert(holds_block(inodes[i], b, start, total));
}

// ── Checksums ──

/// A node more counts as damaged exactly where it is a file in use with contents and a
/// checksum, and the bytes of the disk from its first block on have another checksum.
pub proof fn law_damaged_files_are_counted_one_by_one<D: BlockDevice>(
    device: D,
    inodes: Seq<OnDiskInode>,
    inode: OnDiskInode,
)
    requires
        inode.size <= inode.block_count * 512 <= 0xFFFF_FFFF,
        device_read(device, inode.data_block as int, inode.block_count * 512) is Ok,
    ensures
        checksum_failures(device, seq![]) == 0,
        ({
            let at = inode.data_block * 512;
            let damaged = !inode.deleted && inode.kind == NodeKind::File && inode.size > 0
                && inode.data_checksum != 0 && data_checksum(
                device.image().subrange(at, at + inode.size),
            ) != inode.data_checksum;
            checksum_failures(device, inodes.push(inode)) - checksum_failures(device, inodes)
                == if damaged {
                1int
            } else {
                0int
            }
        }),
{
    let at = inode.data_block * 512;
    let n = inode.block_count * 512;
    device.lemma_read_fits(inode.data_block as int, n);
    let data = device.image().subrange(at, at + n);
    assert(data.take(inode.size as int) =~= device.image().subrange(at, at + inode.size));
    assert(inodes.push(inode).drop_last() =~= inodes);
    assert(inodes.push(inode).last() == inode);
}

/// A report counts as issues each copy that disagrees, each lost block and each damaged file,
/// and as repairs the copies that agree again.
pub proof fn law_report_adds_up(
    found: RuntimeHealthSnapshot,
    left: RuntimeHealthSnapshot,
    orphans: nat,
    failures: nat,
    cleaned: nat,
    zeroed: nat,
    interrupted: nat,
)
    requires
        orphans + failures + 4 <= usize::MAX,
        cleaned <= usize::MAX,
        zeroed <= usize::MAX,
        interrupted <= usize::MAX,
    ensures
        ({
            let r = check_report(found, left, orphans, failures, cleaned, zeroed, interrupted);
            let bad = |ok: bool|
                if ok {
                    0int
                } else {
                    1int
                };
            let before = bad(found.primary_superblock_matches) + bad(
                found.secondary_superblock_matches,
            ) + bad(found.active_metadata_matches) + bad(found.shadow_metadata_matches);
            let after = bad(left.primary_superblock_matches) + bad(left.secondary_superblock_matches)
                + bad(left.active_metadata_matches) + bad(left.shadow_metadata_matches);
            &&& r.issues_detected == before + orphans + failures
            &&& after <= before ==> r.repairs_applied == before - after
            &&& r.orphan_data_blocks == orphans
            &&& r.checksum_failures == failures
            &&& r.staging_orphans_cleaned == cleaned
            &&& r.orphan_blocks_cleaned == zeroed
            &&& r.interrupted_commits == interrupted
        }),
{
}

// ── Pooled contents ──

/// The hash of nothing is the offset basis; one more byte is mixed into it and multiplied by
/// the prime.
pub proof fn law_content_hash_goes_byte_by_byte(contents: Seq<u8>, byte: u8)
    ensures
        content_hash_of(seq![]) == 0xcbf2_9ce4_8422_2325,
        content_hash_of(contents.push(byte)) as int == ((content_hash_of(contents) ^ byte as u64)
            * 0x100_0000_01b3) % 0x1_0000_0000_0000_0000,
{
    assert(contents.push(byte).drop_last() =~= contents);
    assert(contents.push(byte).last() == byte);
}

/// Contents are shared only with an extent that holds them, byte by byte, from its first block
/// on; and the extent is the first of those that the pool offers.
pub proof fn law_shared_extent_holds_the_contents<D: BlockDevice>(
    device: D,
    extents: Seq<PooledExtent>,
    hash: u64,
    contents: Seq<u8>,
    k: int,
)
    requires
        0 <= k <= extents.len(),
        shareable(device, extents, hash, contents, k) matches Ok(Some(_)),
    ensures
        ({
            let j = shareable(device, extents, hash, contents, k)->Ok_0->0;
            let at = extents[j].data_block * 512;
            &&& k <= j < extents.len()
            &&& extents[j].hash == hash
            &&& extents[j].size == contents.len()
            &&& extents[j].block_count > 0 ==> at + contents.len() <= device.image().len()
                && device.image().subrange(at, at + contents.len()) == contents
        }),
    decreases extents.len() - k,
{
    if extents[k].hash == hash && extents[k].size == contents.len() && extent_holds(
        device,
        extents[k].data_block as int,
        extents[k].block_count as int,
        contents,
    ) == Ok::<bool, Error>(true) {
        let e = extents[k];
        if e.block_count > 0 {
            let at = e.data_block * 512;
            let n = e.block_count * 512;
            device.lemma_read_fits(e.data_block as int, n);
            let data = device.image().subrange(at, at + n);
            assert(data.take(contents.len() as int) =~= device.image().subrange(
                at,
                at + contents.len(),
            ));
        }
    } else {
        law_shared_extent_holds_the_contents(device, extents, hash, contents, k + 1);
    }
}

/// Contents that an extent of the pool holds, under their hash and size, are shared where no
/// extent before it has that hash and size.
pub proof fn law_held_contents_are_shared<D: BlockDevice>(
    device: D,
    extents: Seq<PooledExtent>,
    hash: u64,
    contents: Seq<u8>,
    k: int,
    j: int,
)
    requires
        0 <= k <= j < extents.len(),
        forall|i: int|
            #![trigger extents[i]]
            k <= i < j ==> extents[i].hash != hash || extents[i].size != contents.len(),
        extents[j].hash == hash,
        extents[j].size == contents.len(),
        0 < extents[j].block_count,
        extents[j].block_count * 512 <= 0xFFFF_FFFF,
        contents.len() <= extents[j].block_count * 512,
        volume_read(device, extents[j].data_block as int, extents[j].block_count * 512) is Ok,
        has_at(device.image(), extents[j].data_block * 512, contents),
    ensures
        shareable(device, extents, hash, contents, k) == Ok::<Option<int>, Error>(Some(j)),
    decreases j - k,
{
    if k < j {
        assert(extents[k].hash != hash || extents[k].size != contents.len());
        law_held_contents_are_shared(device, extents, hash, contents, k + 1, j);
    } else {
        let e = extents[j];
        let at = e.data_block * 512;
        let n = e.block_count * 512;
        device.lemma_read_fits(e.data_block as int, n);
        let data = device.image().subrange(at, at + n);
        assert(data.take(contents.len() as int) =~= device.image().subrange(
            at,
            at + contents.len(),
        ));
    }
}

// ── Compressed contents ──

proof fn lemma_le32_spelled(v: u32)
    ensures
        spells(le32(v), 0, v as int, 4),
        le32(v).len() == 4,
{
    reveal_with_fuel(spells, 5);
    assert(v as int / 256 / 256 == v as int / 0x1_0000);
    assert(v as int / 256 / 256 / 256 == v as int / 0x100_0000);
}

/// The number of bytes of the first `k` chunks.
pub open spec fn bytes_ahead(chunks: Seq<Vec<u8>>, k: int) -> int
    decreases k,
{
    if k <= 0 {
        0
    } else {
        bytes_ahead(chunks, k - 1) + chunks[k - 1]@.len()
    }
}

proof fn lemma_bytes_ahead(chunks: Seq<Vec<u8>>, k: int)
    ensures
        bytes_ahead(chunks, k) == chunks_len(chunks, k),
        0 <= bytes_ahead(chunks, k),
        0 <= k ==> offset_bytes(chunks, k).len() == 4 * k,
        0 <= k ==> chunk_bytes(chunks, k).len() == bytes_ahead(chunks, k),
    decreases k,
{
    if k > 0 {
        lemma_bytes_ahead(chunks, k - 1);
    }
}

proof fn lemma_offset_kept(chunks: Seq<Vec<u8>>, k: int, n: int)
    requires
        0 <= k < n,
        bytes_ahead(chunks, k) <= 0xFFFF_FFFF,
    ensures
        offset_bytes(chunks, n).len() == 4 * n,
        has_at(offset_bytes(chunks, n), 4 * k, le32(bytes_ahead(chunks, k) as u32)),
    decreases n,
{
    lemma_bytes_ahead(chunks, n);
    lemma_bytes_ahead(chunks, n - 1);
    lemma_bytes_ahead(chunks, k);
    let front = offset_bytes(chunks, n - 1);
    let all = offset_bytes(chunks, n);
    let word = le32(bytes_ahead(chunks, k) as u32);
    if k < n - 1 {
        lemma_offset_kept(chunks, k, n - 1);
        assert(all.subrange(4 * k, 4 * k + 4) =~= front.subrange(4 * k, 4 * k + 4));
    } else {
        assert(all.subrange(4 * k, 4 * k + 4) =~= word);
    }
}

proof fn lemma_chunk_kept(chunks: Seq<Vec<u8>>, k: int, n: int)
    requires
        0 <= k < n,
    ensures
        has_at(chunk_bytes(chunks, n), bytes_ahead(chunks, k), chunks[k]@),
    decreases n,
{
    lemma_bytes_ahead(chunks, n);
    lemma_bytes_ahead(chunks, n - 1);
    lemma_bytes_ahead(chunks, k);
    let front = chunk_bytes(chunks, n - 1);
    let all = chunk_bytes(chunks, n);
    let at = bytes_ahead(chunks, k);
    let len = chunks[k]@.len();
    if k < n - 1 {
        lemma_chunk_kept(chunks, k, n - 1);
        assert(all.subrange(at, at + len) =~= front.subrange(at, at + len));
    } else {
        assert(all.subrange(at, at + len) =~= chunks[k]@);
    }
}

/// A compressed stream starts with the letters `SMCP` and the number of its chunks; the place
/// of every chunk follows, counted from behind the places, and then the chunks.
pub proof fn law_stream_is_laid_out(chunks: Seq<Vec<u8>>, k: int)
    requires
        0 <= k < chunks.len(),
        chunks.len() <= 0xFFFF_FFFF,
        bytes_ahead(chunks, k) <= 0xFFFF_FFFF,
    ensures
        ({
            let s = stream_of(chunks);
            let n = chunks.len() as int;
            &&& has_at(s, 0, seq![0x53u8, 0x4Du8, 0x43u8, 0x50u8])
            &&& spells(s, 4, n, 4)
            &&& spells(s, 8 + 4 * k, bytes_ahead(chunks, k), 4)
            &&& has_at(s, 8 + 4 * (n + 1) + bytes_ahead(chunks, k), chunks[k]@)
        }),
{
    let s = stream_of(chunks);
    let n = chunks.len() as int;
    let magic = le32(COMPRESSED_MAGIC);
    let count = le32(n as u32);
    let offsets = offset_bytes(chunks, n + 1);
    let body = chunk_bytes(chunks, n);
    lemma_bytes_ahead(chunks, n + 1);
    lemma_bytes_ahead(chunks, n);
    lemma_bytes_ahead(chunks, k);
    assert(magic =~= seq![0x53u8, 0x4Du8, 0x43u8, 0x50u8]);
    assert(s.subrange(0, 4) =~= magic);
    lemma_le32_spelled(n as u32);
    lemma_spells_moved(count, 0, s, 4, n, 4);
    lemma_offset_kept(chunks, k, n + 1);
    let word = le32(bytes_ahead(chunks, k) as u32);
    lemma_le32_spelled(bytes_ahead(chunks, k) as u32);
    let part = offsets.subrange(4 * k, 4 * k + 4);
    assert forall|i: int| #![trigger s[8 + 4 * k + i]] 0 <= i < 4 implies s[8 + 4 * k + i] == word[0
        + i] by {
        assert(s[8 + 4 * k + i] == offsets[4 * k + i]);
        assert(part[i] == offsets[4 * k + i]);
    }
    lemma_spells_moved(word, 0, s, 8 + 4 * k, bytes_ahead(chunks, k), 4);
    lemma_chunk_kept(chunks, k, n);
    let at = bytes_ahead(chunks, k);
    let len = chunks[k]@.len();
    let start = 8 + 4 * (n + 1);
    assert(s.subrange(start + at, start + at + len) =~= body.subrange(at, at + len));
}

/// A chunk lies in a stream between its own place and the next one's.
pub proof fn law_chunk_is_found(s: Seq<u8>, n: u32, k: int, from: u32, to: u32)
    requires
        has_at(s, 0, seq![0x53u8, 0x4Du8, 0x43u8, 0x50u8]),
        spells(s, 4, n as int, 4),
        0 <= k < n,
        spells(s, 8 + 4 * k, from as int, 4),
        spells(s, 12 + 4 * k, to as int, 4),
        from <= to,
        8 + 4 * (n + 1) + to <= s.len(),
    ensures
        chunk_range(s, k) == Ok::<(int, int), Error>(
            (8 + 4 * (n + 1) + from, 8 + 4 * (n + 1) + to),
        ),
{
    let magic = seq![0x53u8, 0x4Du8, 0x43u8, 0x50u8];
    let part = s.subrange(0, 4);
    assert(part == magic);
    assert(part[0] == s[0] && part[1] == s[1] && part[2] == s[2] && part[3] == s[3]);
    assert(u32_at(s, 0) == 0x5043_4D53);
    law_four_bytes(s, 4, n);
    law_four_bytes(s, 8 + 4 * k, from);
    law_four_bytes(s, 12 + 4 * k, to);
}

/// A page of a file holds 4096 of its bytes, and zeros behind the end.
pub proof fn law_page_holds_its_bytes(contents: Seq<u8>, i: int)
    requires
        0 <= i,
    ensures
        ({
            let page = page_of(contents, i / 4096);
            &&& page.len() == 4096
            &&& page[i % 4096] == if i < contents.len() {
                contents[i]
            } else {
                0u8
            }
        }),
{
}

// ── Copies of the metadata ──

proof fn lemma_superblock_bytes<D: BlockDevice>(
    device: D,
    block: int,
    label: Seq<char>,
    version: SimpleFsFormatVersion,
    record: SuperblockRecord,
    generation: u32,
)
    requires
        0 <= block,
        superblock_is(device, block, label, version, record),
        spells(device.image(), block * 512 + 52, generation as int, 4),
    ensures
        (block + 1) * 512 <= device.image().len(),
        has_at(device.image(), block * 512, volume_mark()),
        generation == record.generation,
{
    device.lemma_read_fits(block, 512);
    let image = device.image();
    let at = block * 512;
    let s = image.subrange(at, at + 512);
    assert(volume_mark() =~= MAGIC@);
    assert(s.take(8) =~= image.subrange(at, at + 8));
    law_four_bytes(image, at + 52, generation);
    assert(s[52] == image[at + 52] && s[53] == image[at + 53] && s[54] == image[at + 54] && s[55]
        == image[at + 55]);
    assert(u32_at(s, 52) == u32_at(image, at + 52));
}

/// A check does not take a copy of the superblock for sound that lacks its mark or that spells
/// another generation than the mounted one; the first copy lies in the first block, the other
/// one in the second.
pub proof fn law_stale_superblock_is_noticed<D: BlockDevice>(
    fs: SimpleFs<D>,
    h: RuntimeHealthSnapshot,
    first: u32,
    second: u32,
)
    requires
        is_health(fs, h),
        fs.device.image().len() >= 1024,
        spells(fs.device.image(), 52, first as int, 4),
        spells(fs.device.image(), 564, second as int, 4),
    ensures
        first != fs.state.rest().generation || !has_at(fs.device.image(), 0, volume_mark())
            ==> !h.primary_superblock_matches,
        second != fs.state.rest().generation || !has_at(fs.device.image(), 512, volume_mark())
            ==> !h.secondary_superblock_matches,
{
    let g = fs.geometry;
    let record = g.record_of(fs.state.tree(), fs.state.rest());
    if h.primary_superblock_matches {
        lemma_superblock_bytes(fs.device, 0, g.label@, g.format_version, record, first);
    }
    if h.secondary_superblock_matches {
        lemma_superblock_bytes(fs.device, 1, g.label@, g.format_version, record, second);
    }
}

/// A slot that a check finds in order spells out every inode of the mounted volume, from the
/// block on where its inode table lies.
pub proof fn law_sound_slot_spells_the_inodes<D: BlockDevice>(
    fs: SimpleFs<D>,
    h: RuntimeHealthSnapshot,
    k: int,
)
    requires
        is_health(fs, h),
        0 <= k < fs.state.tree().inodes.len(),
        32 * fs.state.tree().inodes.len() <= fs.geometry.inode_table_blocks * 512,
    ensures
        ({
            let t = fs.state.tree();
            let image = fs.device.image();
            &&& h.active_metadata_matches ==> spells_inode(
                image,
                fs.state.rest().active.inode_block * 512 + 32 * k,
                t.inodes[k],
                fs.geometry.format_version,
            )
            &&& h.shadow_metadata_matches ==> spells_inode(
                image,
                fs.state.rest().shadow.inode_block * 512 + 32 * k,
                t.inodes[k],
                fs.geometry.format_version,
            )
        }),
{
    let (it, dt, xt) = choose|it: Seq<u8>, dt: Seq<u8>, xt: Seq<u8>|
        #![trigger health_with(fs, it, dt, xt)]
        fs.geometry.is_inode_table(it, fs.state.tree()) && fs.geometry.is_dirent_table(
            dt,
            fs.state.tree(),
        ) && fs.geometry.is_xattr_table(xt, fs.state.tree()) && h == health_with(fs, it, dt, xt);
    let t = fs.state.tree();
    let v = fs.geometry.format_version;
    assert(is_inode_record(it, 0 + 32 * k, t.inodes[k], v));
    law_written_inode_is_laid_out(it, 32 * k, t.inodes[k], v);
    if h.active_metadata_matches {
        lemma_table_on_disk(fs.device, fs.state.rest().active.inode_block as int, it, k, t.inodes[k], v);
    }
    if h.shadow_metadata_matches {
        lemma_table_on_disk(fs.device, fs.state.rest().shadow.inode_block as int, it, k, t.inodes[k], v);
    }
}

proof fn lemma_table_on_disk<D: BlockDevice>(
    device: D,
    block: int,
    table: Seq<u8>,
    k: int,
    inode: OnDiskInode,
    version: SimpleFsFormatVersion,
)
    requires
        0 <= block,
        0 <= k,
        device_holds(device, block, table),
        32 * k + 32 <= table.len(),
        spells_inode(table, 32 * k, inode, version),
    ensures
        spells_inode(device.image(), block * 512 + 32 * k, inode, version),
{
    device.lemma_read_fits(block, table.len() as int);
    let image = device.image();
    let at = block * 512;
    assert(table == image.subrange(at, at + table.len()));
    assert forall|j: int| 0 <= j < 32 implies image[at + 32 * k + j] == #[trigger] table[32 * k
        + j] by {}
    lemma_inode_moved(table, 32 * k, image, at + 32 * k, inode, version);
}

/// A commit that was under way is counted once for each copy of the superblock that still says
/// so, and each copy that disagrees with the mounted volume once more.
pub proof fn law_interrupted_commits_are_counted<D: BlockDevice>(
    fs: SimpleFs<D>,
    h: RuntimeHealthSnapshot,
)
    requires
        fs.geometry.format_version != SimpleFsFormatVersion::V2,
    ensures
        ({
            let said = |block: int|
                if stored_superblock(fs.device, block) matches Ok((_, p)) && p.record.pending_commit
                    != 0 {
                    1int
                } else {
                    0int
                };
            let bad = |ok: bool|
                if ok {
                    0int
                } else {
                    1int
                };
            interrupted_commits(fs, h) == bad(h.primary_superblock_matches) + bad(
                h.secondary_superblock_matches,
            ) + said(0) + said(1)
        }),
{
}

} // verus!
