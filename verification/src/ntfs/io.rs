//! Reading and writing clusters, runs and records.
use vstd::prelude::*;

use crate::block::{BlockDevice, bytes_at, device_read, read_exact, read_vec, span_fits};
use crate::bytes::{put, u16_at, write_bytes, zero_vec, zeros};
use crate::error::{Error, Result};
use crate::ntfs::runs::DataRun;
use crate::ntfs::types::{BootSector, MftRecordHeader, NtfsInfo, boot_sector_in, header_holds, is_mft_record};
use crate::order::smaller;

verus! {

/// The boot sector of a device.
pub open spec fn boot_sector_of<D: BlockDevice>(device: D) -> core::result::Result<
    BootSector,
    Error,
> {
    match bytes_at(device, 0, 512) {
        Err(e) => Err(e),
        Ok(buf) => match boot_sector_in(buf) {
            None => Err(Error::InvalidArgument),
            Some(b) => Ok(b),
        },
    }
}

/// Reads and parses the boot sector.
pub fn read_boot_sector<D: BlockDevice>(device: &D) -> (r: Result<BootSector>)
    ensures
        r == boot_sector_of(*device),
        r matches Ok(b) ==> b.sizes_fit(),
{
    let buf = read_exact(device, 0, 512)?;
    match BootSector::parse(buf.as_slice()) {
        None => Err(Error::InvalidArgument),
        Some(b) => Ok(b),
    }
}

/// Reads `count` clusters from cluster `lcn` on, as far as the buffer goes. The largest
/// number stands for clusters that hold only zeros.
pub fn read_clusters<D: BlockDevice>(
    device: &D,
    info: &NtfsInfo,
    lcn: u64,
    count: u64,
    buf: &mut [u8],
) -> (r: Result<usize>)
    requires
        count * info.cluster_size <= u64::MAX,
        lcn != u64::MAX ==> lcn * info.cluster_size + old(buf)@.len() <= u64::MAX,
    ensures
        ({
            let n = smaller(count * info.cluster_size, old(buf)@.len() as int);
            if lcn == u64::MAX {
                r == Ok::<usize, Error>(n as usize) && final(buf)@ == put(
                    old(buf)@,
                    0,
                    zeros(n as nat),
                )
            } else {
                match bytes_at(*device, lcn * info.cluster_size, n) {
                    Err(e) => r == Err::<usize, Error>(e) && final(buf)@ == old(buf)@,
                    Ok(data) => r == Ok::<usize, Error>(n as usize) && final(buf)@ == put(
                        old(buf)@,
                        0,
                        data,
                    ),
                }
            }
        }),
{
    proof {
        assert(0 <= count * info.cluster_size) by (nonlinear_arith);
        assert(0 <= lcn * info.cluster_size) by (nonlinear_arith);
    }
    let total: u64 = count * info.cluster_size as u64;
    let n: usize = if total < buf.len() as u64 {
        total as usize
    } else {
        buf.len()
    };
    if lcn == u64::MAX {
        let zero = zero_vec(n);
        write_bytes(buf, 0, zero.as_slice());
        return Ok(n);
    }
    let data = read_exact(device, lcn * info.cluster_size as u64, n)?;
    write_bytes(buf, 0, data.as_slice());
    Ok(n)
}

/// What a read through data runs leaves: the buffer, the bytes transferred, and the
/// error it ended in, if any.
pub struct RunsRead {
    pub buf: Seq<u8>,
    pub total: int,
    pub fault: Option<Error>,
}

/// A read of the bytes from `offset` to `end` of a file through its runs, from run `k`
/// on, which starts at byte `start` of the file. A place past 64 bits is refused.
pub open spec fn runs_read<D: BlockDevice>(
    device: D,
    cluster: int,
    runs: Seq<DataRun>,
    k: int,
    start: int,
    offset: int,
    end: int,
    buf: Seq<u8>,
    total: int,
) -> RunsRead
    decreases runs.len() - k,
{
    if k >= runs.len() || start >= end {
        RunsRead { buf, total, fault: None }
    } else {
        let run_end = start + runs[k].cluster_count * cluster;
        if run_end <= offset {
            runs_read(device, cluster, runs, k + 1, run_end, offset, end, buf, total)
        } else {
            let from = if offset > start {
                offset
            } else {
                start
            };
            let n = smaller(end, run_end) - from;
            let place = runs[k].lcn * cluster + (from - start);
            let data = if runs[k].lcn < 0 {
                Ok(zeros(n as nat))
            } else if place > u64::MAX {
                Err(Error::InvalidArgument)
            } else {
                bytes_at(device, place, n)
            };
            match data {
                Err(e) => RunsRead { buf, total, fault: Some(e) },
                Ok(bytes) => runs_read(
                    device,
                    cluster,
                    runs,
                    k + 1,
                    run_end,
                    offset,
                    end,
                    put(buf, from - offset, bytes),
                    total + n,
                ),
            }
        }
    }
}

/// What a read of a file through its runs comes to.
pub open spec fn file_read<D: BlockDevice>(
    device: D,
    cluster: int,
    runs: Seq<DataRun>,
    file_size: int,
    offset: int,
    buf: Seq<u8>,
) -> RunsRead {
    if offset >= file_size || buf.len() == 0 {
        RunsRead { buf, total: 0, fault: None }
    } else {
        runs_read(
            device,
            cluster,
            runs,
            0,
            0,
            offset,
            smaller(offset + buf.len(), file_size),
            buf,
            0,
        )
    }
}

pub proof fn lemma_wide_product(a: int, b: int)
    requires
        0 <= a <= 0xffff_ffff_ffff_ffff,
        0 <= b <= 0xffff_ffff,
    ensures
        0 <= a * b <= 0xffff_ffff_ffff_ffff * 0xffff_ffff,
{
    assert(0 <= a * b <= 0xffff_ffff_ffff_ffff * 0xffff_ffff) by (nonlinear_arith)
        requires
            0 <= a <= 0xffff_ffff_ffff_ffff,
            0 <= b <= 0xffff_ffff,
    ;
}

/// Reads a byte range of a file by following its data runs. What lies in no run is not
/// transferred.
pub fn read_from_runs<D: BlockDevice>(
    device: &D,
    info: &NtfsInfo,
    runs: &[DataRun],
    file_size: u64,
    offset: u64,
    buf: &mut [u8],
) -> (r: Result<usize>)
    ensures
        ({
            let want = file_read(
                *device,
                info.cluster_size as int,
                runs@,
                file_size as int,
                offset as int,
                old(buf)@,
            );
            &&& final(buf)@ == want.buf
            &&& match want.fault {
                Some(e) => r == Err::<usize, Error>(e),
                None => r == Ok::<usize, Error>(want.total as usize),
            }
        }),
{
    if offset >= file_size || buf.len() == 0 {
        return Ok(0);
    }
    let cluster: u128 = info.cluster_size as u128;
    let wanted: u128 = offset as u128 + buf.len() as u128;
    let end: u64 = if wanted < file_size as u128 {
        wanted as u64
    } else {
        file_size
    };
    let ghost whole = file_read(
        *device,
        info.cluster_size as int,
        runs@,
        file_size as int,
        offset as int,
        buf@,
    );
    let size: usize = buf.len();
    let mut total: usize = 0;
    let mut start: u128 = 0;
    let mut reached: u64 = offset;
    let mut k: usize = 0;
    while k < runs.len() && start < end as u128
        invariant
            k <= runs@.len(),
            cluster == info.cluster_size,
            offset < end,
            end - offset <= size,
            buf@.len() == size,
            offset <= reached <= end,
            total == reached - offset,
            start <= offset ==> reached == offset,
            start > offset ==> reached == smaller(start as int, end as int),
            whole == file_read(
                *device,
                info.cluster_size as int,
                runs@,
                file_size as int,
                offset as int,
                old(buf)@,
            ),
            whole == runs_read(
                *device,
                cluster as int,
                runs@,
                k as int,
                start as int,
                offset as int,
                end as int,
                buf@,
                total as int,
            ),
        decreases runs@.len() - k,
    {
        let run = runs[k];
        proof {
            lemma_wide_product(run.cluster_count as int, cluster as int);
        }
        let run_end: u128 = start + run.cluster_count as u128 * cluster;
        if run_end <= offset as u128 {
            start = run_end;
            k = k + 1;
        } else {
            let from: u64 = if (offset as u128) > start {
                offset
            } else {
                start as u64
            };
            let to: u64 = if (end as u128) < run_end {
                end
            } else {
                run_end as u64
            };
            let n: usize = (to - from) as usize;
            let dest: usize = (from - offset) as usize;
            if run.lcn < 0 {
                let zero = zero_vec(n);
                write_bytes(buf, dest, zero.as_slice());
            } else {
                proof {
                    lemma_wide_product(run.lcn as int, cluster as int);
                }
                let place: u128 = run.lcn as u128 * cluster + (from as u128 - start);
                if place > u64::MAX as u128 {
                    return Err(Error::InvalidArgument);
                }
                match read_exact(device, place as u64, n) {
                    Err(e) => {
                        return Err(e);
                    },
                    Ok(data) => {
                        write_bytes(buf, dest, data.as_slice());
                    },
                }
            }
            total = total + n;
            reached = to;
            start = run_end;
            k = k + 1;
        }
    }
    Ok(total)
}

/// A record with the last two bytes of its first `n` sectors restored from the update
/// sequence array at `usa`, the first entry of which is the check value.
pub open spec fn fixed_upto(record: Seq<u8>, usa: int, n: int) -> Seq<u8>
    decreases n,
{
    if n <= 0 {
        record
    } else {
        let r = fixed_upto(record, usa, n - 1);
        if n * 512 <= r.len() && usa + n * 2 + 1 < r.len() {
            r.update(n * 512 - 2, r[usa + n * 2]).update(n * 512 - 1, r[usa + n * 2 + 1])
        } else {
            r
        }
    }
}

/// Restoring sectors leaves the front of the first one.
pub proof fn lemma_fixed_front(record: Seq<u8>, usa: int, n: int)
    ensures
        fixed_upto(record, usa, n).len() == record.len(),
        forall|i: int|
            #![trigger fixed_upto(record, usa, n)[i]]
            0 <= i < 510 && i < record.len() ==> fixed_upto(record, usa, n)[i] == record[i],
    decreases n,
{
    if n > 0 {
        lemma_fixed_front(record, usa, n - 1);
    }
}

proof fn lemma_fixed_len(record: Seq<u8>, usa: int, n: int)
    ensures
        fixed_upto(record, usa, n).len() == record.len(),
    decreases n,
{
    if n > 0 {
        lemma_fixed_len(record, usa, n - 1);
    }
}

fn fix_sectors(record: &mut Vec<u8>, usa: usize, count: usize)
    requires
        usa <= 0xffff,
        count <= 0xffff,
    ensures
        final(record)@ == fixed_upto(old(record)@, usa as int, count - 1),
        final(record)@.len() == old(record)@.len(),
{
    let ghost start = record@;
    let mut i: usize = 1;
    while i < count
        invariant
            usa <= 0xffff,
            1 <= i,
            count <= 0xffff,
            count >= 1 ==> i <= count,
            count == 0 ==> i == 1,
            record@ == fixed_upto(start, usa as int, i - 1),
            start == old(record)@,
        decreases count - i,
    {
        let end: usize = i * 512;
        if end <= record.len() && usa + i * 2 + 1 < record.len() {
            let ghost before = record@;
            let low: u8 = record[usa + i * 2];
            let high: u8 = record[usa + i * 2 + 1];
            record.set(end - 2, low);
            record.set(end - 1, high);
            assert(record@ =~= before.update(end - 2, before[usa + i * 2]).update(
                end - 1,
                before[usa + i * 2 + 1],
            ));
        }
        i = i + 1;
    }
    proof {
        if count == 0 {
            assert(fixed_upto(start, usa as int, -1) == start);
        }
        lemma_fixed_len(start, usa as int, count - 1);
    }
}

/// A record with its sectors restored. An array outside the record leaves it alone.
pub open spec fn fixed_record(record: Seq<u8>) -> Seq<u8> {
    let usa = u16_at(record, 4) as int;
    let count = u16_at(record, 6) as int;
    if usa + count * 2 > record.len() {
        record
    } else {
        fixed_upto(record, usa, count - 1)
    }
}

/// Restores the last two bytes of each sector of a record.
pub fn apply_usa_fixup(record: &mut Vec<u8>, header: &MftRecordHeader)
    requires
        header_holds(*header, old(record)@),
    ensures
        final(record)@ == fixed_record(old(record)@),
        final(record)@.len() == old(record)@.len(),
{
    let usa: usize = header.usa_offset as usize;
    let count: usize = header.usa_count as usize;
    if usa + count * 2 > record.len() {
        return ;
    }
    fix_sectors(record, usa, count);
}

/// Where a record of the master file table starts, in bytes.
pub open spec fn record_place(info: NtfsInfo, number: u64) -> int {
    info.bs.mft_lcn * info.cluster_size + number * info.mft_record_size
}

/// Computes where a record of the master file table starts. Nothing past 64 bits.
pub fn locate_record(info: &NtfsInfo, number: u64) -> (r: Option<u64>)
    ensures
        match r {
            Some(p) => p == record_place(*info, number),
            None => record_place(*info, number) > u64::MAX,
        },
{
    proof {
        lemma_wide_product(info.bs.mft_lcn as int, info.cluster_size as int);
        lemma_wide_product(number as int, info.mft_record_size as int);
    }
    let place: u128 = info.bs.mft_lcn as u128 * info.cluster_size as u128 + number as u128
        * info.mft_record_size as u128;
    if place > u64::MAX as u128 {
        None
    } else {
        Some(place as u64)
    }
}

/// A record of the master file table with its sectors restored. A place past 64 bits, a
/// wrong signature and an array outside the record are refused.
pub open spec fn mft_record_on<D: BlockDevice>(
    device: D,
    info: NtfsInfo,
    number: u64,
) -> core::result::Result<Seq<u8>, Error> {
    let place = record_place(info, number);
    if place > u64::MAX {
        Err(Error::InvalidArgument)
    } else {
        match bytes_at(device, place, info.mft_record_size as int) {
            Err(e) => Err(e),
            Ok(raw) => if !is_mft_record(raw) || (u16_at(raw, 6) > 1 && u16_at(raw, 4) + u16_at(
                raw,
                6,
            ) * 2 > raw.len()) {
                Err(Error::InvalidArgument)
            } else {
                Ok(fixed_upto(raw, u16_at(raw, 4) as int, u16_at(raw, 6) - 1))
            },
        }
    }
}

/// Reads a record of the master file table. The header is the one that was stored.
pub fn read_mft_record<D: BlockDevice>(device: &D, info: &NtfsInfo, record_number: u64) -> (r: Result<
    (MftRecordHeader, Vec<u8>),
>)
    ensures
        match r {
            Ok(v) => mft_record_on(*device, *info, record_number) == Ok::<Seq<u8>, Error>(v.1@) && (
            bytes_at(*device, record_place(*info, record_number), info.mft_record_size as int)
                matches Ok(raw) && header_holds(v.0, raw)),
            Err(e) => mft_record_on(*device, *info, record_number) == Err::<Seq<u8>, Error>(e),
        },
{
    let place: u64 = match locate_record(info, record_number) {
        None => {
            return Err(Error::InvalidArgument);
        },
        Some(p) => p,
    };
    let mut buf = read_exact(device, place, info.mft_record_size as usize)?;
    let header = match MftRecordHeader::parse(buf.as_slice()) {
        None => {
            return Err(Error::InvalidArgument);
        },
        Some(h) => h,
    };
    let usa: usize = header.usa_offset as usize;
    let count: usize = header.usa_count as usize;
    if count > 1 {
        if usa + count * 2 > buf.len() {
            return Err(Error::InvalidArgument);
        }
        fix_sectors(&mut buf, usa, count);
    }
    Ok((header, buf))
}

/// The first byte of the block that holds byte `at`.
pub open spec fn block_start(at: int) -> int {
    at / 512 * 512
}

/// The first byte after the blocks that hold the bytes before `end`.
pub open spec fn block_end(end: int) -> int {
    (end + 511) / 512 * 512
}

/// What storing a block does to a device, and what it answers.
pub open spec fn block_stored<D: BlockDevice>(
    a: D,
    b: D,
    lba: int,
    block: Seq<u8>,
    r: Result<()>,
) -> bool {
    &&& b.image().len() == a.image().len()
    &&& b.block_bytes() == a.block_bytes()
    &&& b.write_protected() == a.write_protected()
    &&& a.reliable() ==> b.reliable() && b.health() == a.health()
    &&& match a.write_fault(lba, block) {
        Some(e) => r == Err::<(), Error>(e) && forall|i: int|
            #![trigger b.image()[i]]
            0 <= i < a.image().len() && !(lba * 512 <= i < lba * 512 + block.len())
                ==> b.image()[i] == a.image()[i],
        None => r is Ok && b.image() == put(a.image(), lba * 512, block),
    }
}

/// How many of `total` bytes for byte `at` go into the block that byte `done` of them is for.
pub open spec fn chunk_len(at: int, total: int, done: int) -> int {
    smaller(512 - (at + done) % 512, total - done)
}

/// The block that byte `done` of `data` goes into, with the bytes that are for it. A block
/// that cannot be read is taken as zeros.
pub open spec fn chunk_block<D: BlockDevice>(device: D, at: int, data: Seq<u8>, done: int) -> Seq<
    u8,
> {
    let held = match device_read(device, (at + done) / 512, 512) {
        Ok(b) => b,
        Err(_) => zeros(512),
    };
    put(
        held,
        (at + done) % 512,
        data.subrange(done, done + chunk_len(at, data.len() as int, done)),
    )
}

/// What storing the block that byte `d` of `data` goes into does, and what is answered.
pub open spec fn chunk_stored<D: BlockDevice>(
    a: D,
    b: D,
    at: int,
    data: Seq<u8>,
    d: int,
    r: Result<()>,
) -> bool {
    block_stored(a, b, (at + d) / 512, chunk_block(a, at, data, d), r)
}

/// Whether the first `done` bytes of `data` were stored from byte `at` on, block by block.
#[verifier::opaque]
pub open spec fn partly_written<D: BlockDevice>(
    a: D,
    b: D,
    at: int,
    data: Seq<u8>,
    done: int,
) -> bool
    decreases done,
{
    if done <= 0 {
        b == a
    } else {
        exists|m: D, d: int|
            0 <= d < done && d + chunk_len(at, data.len() as int, d) == done && partly_written(
                a,
                m,
                at,
                data,
                d,
            ) && #[trigger] chunk_stored(m, b, at, data, d, Ok::<(), Error>(()))
    }
}

/// Whether storing block by block came to an end at one that the device refused with an
/// error.
#[verifier::opaque]
pub open spec fn refused_at<D: BlockDevice>(
    a: D,
    b: D,
    at: int,
    data: Seq<u8>,
    e: Error,
) -> bool {
    exists|m: D, d: int|
        0 <= d < data.len() && partly_written(a, m, at, data, d) && #[trigger] chunk_stored(
            m,
            b,
            at,
            data,
            d,
            Err::<(), Error>(e),
        )
}

/// One more block stored.
proof fn lemma_partly_written<D: BlockDevice>(
    a: D,
    m: D,
    b: D,
    at: int,
    data: Seq<u8>,
    d: int,
    r: Result<()>,
)
    requires
        0 <= d < data.len(),
        partly_written(a, m, at, data, d),
        m.write_protected() == a.write_protected(),
        m.image().len() == a.image().len(),
        chunk_stored(m, b, at, data, d, r),
    ensures
        r is Ok ==> partly_written(a, b, at, data, d + chunk_len(at, data.len() as int, d)),
        r matches Err(e) ==> refused_at(a, b, at, data, e) && device_error(a, e),
{
    match r {
        Ok(u) => {
            assert(u == ());
            reveal_with_fuel(partly_written, 2);
            let done: int = d + chunk_len(at, data.len() as int, d);
            assert(chunk_stored(m, b, at, data, d, Ok::<(), Error>(())));
            assert(d < done);
            assert(partly_written(a, b, at, data, done));
        },
        Err(e) => {
            reveal(refused_at);
            assert(m.write_fault((at + d) / 512, chunk_block(m, at, data, d)) == Some(e));
        },
    }
}

/// Whether an error is one that a device with what another one reports answers a write with.
pub open spec fn device_error<D: BlockDevice>(a: D, e: Error) -> bool {
    exists|m: D, lba: int, block: Seq<u8>|
        m.write_protected() == a.write_protected() && m.image().len() == a.image().len()
            && #[trigger] m.write_fault(lba, block) == Some(e)
}

/// What a write of `data` at byte `at` does to a device.
///
/// The blocks are stored one after the other; an error is the device's own, for the block
/// that it refused. Whatever the outcome, nothing outside the blocks it touches changes. After success
/// the bytes are there, and on a reliable device nothing else has changed. A reliable
/// device with room for the blocks succeeds.
pub open spec fn bytes_written<D: BlockDevice>(
    a: D,
    b: D,
    at: int,
    data: Seq<u8>,
    r: Result<()>,
) -> bool {
    &&& b.image().len() == a.image().len()
    &&& b.write_protected() == a.write_protected()
    &&& a.reliable() ==> b.reliable() && b.health() == a.health()
    &&& forall|i: int|
        #![trigger b.image()[i]]
        0 <= i < a.image().len() && !(block_start(at) <= i < block_end(at + data.len()))
            ==> b.image()[i] == a.image()[i]
    &&& r is Ok ==> (data.len() > 0 ==> at + data.len() <= a.image().len()) && forall|i: int|
        #![trigger b.image()[i]]
        at <= i < at + data.len() ==> b.image()[i] == data[i - at]
    &&& r is Ok && a.reliable() ==> b.image() == put(a.image(), at, data)
    &&& a.reliable() && !a.write_protected() && block_end(at + data.len()) <= a.image().len()
        ==> r is Ok
    &&& match r {
        Ok(_) => partly_written(a, b, at, data, data.len() as int),
        Err(e) => refused_at(a, b, at, data, e) && device_error(a, e),
    }
    &&& data.len() == 0 ==> r is Ok && b == a
}

/// Writes a byte range to the device. A block that is not replaced whole keeps its other
/// bytes; one that cannot be read is taken as zeros.
#[verifier::rlimit(30)]
pub fn write_device_bytes<D: BlockDevice>(device: &mut D, byte_offset: u64, data: &[u8]) -> (r: Result<
    (),
>)
    requires
        byte_offset + data@.len() <= u64::MAX,
    ensures
        bytes_written(*old(device), *final(device), byte_offset as int, data@, r),
{
    let total: usize = data.len();
    let ghost start = *device;
    let ghost first = block_start(byte_offset as int);
    let ghost last = block_end(byte_offset + total);
    let mut done: usize = 0;
    assert(put(start.image(), byte_offset as int, data@.take(0)) =~= start.image());
    proof {
        reveal(partly_written);
    }
    while done < total
        invariant
            total == data@.len(),
            done <= total,
            start == *old(device),
            first == block_start(byte_offset as int),
            last == block_end(byte_offset + total),
            byte_offset + total <= u64::MAX,
            done > 0 && done < total ==> (byte_offset + done) % 512 == 0,
            done > 0 ==> byte_offset + done <= start.image().len(),
            partly_written(start, *device, byte_offset as int, data@, done as int),
            total == 0 ==> *device == start,
            device.image().len() == start.image().len(),
            device.write_protected() == start.write_protected(),
            start.reliable() ==> device.reliable() && device.health() == start.health(),
            forall|i: int|
                #![trigger device.image()[i]]
                0 <= i < start.image().len() && !(first <= i < last) ==> device.image()[i]
                    == start.image()[i],
            forall|i: int|
                #![trigger device.image()[i]]
                byte_offset <= i < byte_offset + done ==> device.image()[i] == data@[i
                    - byte_offset],
            start.reliable() ==> device.image() == put(
                start.image(),
                byte_offset as int,
                data@.take(done as int),
            ),
        decreases total - done,
    {
        let at: u64 = byte_offset + done as u64;
        let lba: u64 = at / 512;
        let skip: usize = (at % 512) as usize;
        let n: usize = if total - done < 512 - skip {
            total - done
        } else {
            512 - skip
        };
        let ghost before = *device;
        let mut block = match read_vec(device, lba, 512) {
            Ok(b) => b,
            Err(_) => zero_vec(512),
        };
        let ghost old_block = block@;
        let chunk = vstd::slice::slice_subrange(data, done, done + n);
        write_bytes(block.as_mut_slice(), skip, chunk);
        proof {
            if before.reliable() && block_end(byte_offset + total) <= before.image().len() {
                before.lemma_reliable_read(lba as int, 512);
                if !before.write_protected() {
                    before.lemma_reliable_write(lba as int, block@);
                }
            }
            if before.reliable() && span_fits(before.image().len(), lba as int, 512) {
                before.lemma_reliable_read(lba as int, 512);
            }
        }
        let outcome = device.write_blocks(lba, block.as_slice());
        proof {
            let at0 = byte_offset as int;
            assert(chunk@ =~= data@.subrange(done as int, done + n));
            assert(n == chunk_len(at0, total as int, done as int));
            assert(block@ =~= chunk_block(before, at0, data@, done as int));
            assert(block_stored(before, *device, lba as int, block@, outcome));
            lemma_partly_written(start, before, *device, at0, data@, done as int, outcome);
        }
        outcome?;
        proof {
            let img = before.image();
            assert(device.image() == put(img, lba * 512, block@));
            assert forall|i: int|
                #![trigger device.image()[i]]
                byte_offset <= i < byte_offset + done + n implies device.image()[i] == data@[i
                - byte_offset] by {
                if i < at {
                    assert(before.image()[i] == data@[i - byte_offset]);
                } else {
                    assert(block@[i - lba * 512] == chunk@[i - at]);
                }
            }
            if start.reliable() {
                assert(old_block == img.subrange(lba * 512, lba * 512 + 512));
                assert(device.image() =~= put(
                    start.image(),
                    byte_offset as int,
                    data@.take(done + n),
                ));
            }
        }
        done = done + n;
    }
    assert(data@.take(done as int) =~= data@);
    Ok(())
}

/// Writes clusters from cluster `lcn` on, as far as the data goes. Clusters that hold
/// only zeros cannot be written.
pub fn write_clusters<D: BlockDevice>(
    device: &mut D,
    info: &NtfsInfo,
    lcn: u64,
    count: u64,
    buf: &[u8],
) -> (r: Result<usize>)
    requires
        count * info.cluster_size <= u64::MAX,
        lcn != u64::MAX ==> lcn * info.cluster_size + buf@.len() <= u64::MAX,
    ensures
        ({
            let n = smaller(count * info.cluster_size, buf@.len() as int);
            if lcn == u64::MAX {
                r == Err::<usize, Error>(Error::InvalidArgument) && *final(device) == *old(device)
            } else {
                bytes_written(
                    *old(device),
                    *final(device),
                    lcn * info.cluster_size,
                    buf@.take(n),
                    match r {
                        Ok(_) => Ok(()),
                        Err(e) => Err(e),
                    },
                ) && (r matches Ok(m) ==> m == n)
            }
        }),
{
    if lcn == u64::MAX {
        return Err(Error::InvalidArgument);
    }
    proof {
        assert(0 <= count * info.cluster_size) by (nonlinear_arith);
        assert(0 <= lcn * info.cluster_size) by (nonlinear_arith);
    }
    let total: u64 = count * info.cluster_size as u64;
    let n: usize = if total < buf.len() as u64 {
        total as usize
    } else {
        buf.len()
    };
    let part = vstd::slice::slice_subrange(buf, 0, n);
    assert(part@ =~= buf@.take(n as int));
    write_device_bytes(device, lcn * info.cluster_size as u64, part)?;
    Ok(n)
}

} // verus!
