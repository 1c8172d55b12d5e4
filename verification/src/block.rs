//! Block devices: the storage every on-disk filesystem reads and writes.
use vstd::prelude::*;

use crate::bytes::{copy_range, put, write_bytes};
use crate::error::{Error, Result};

verus! {

/// Size in bytes of the blocks that transfers are counted in.
pub const BLOCK_SIZE: usize = 512;

/// What a device reports about its own condition.
#[derive(Debug, Clone, Copy, PartialEq, Eq, Structural)]
pub enum DeviceHealth {
    Healthy,
    Degraded,
    Failed,
}

/// Whether `len` bytes from block `lba` on are whole blocks inside `total` bytes.
pub open spec fn span_fits(total: nat, lba: int, len: int) -> bool {
    0 <= lba && 0 <= len && len % (BLOCK_SIZE as int) == 0 && lba * BLOCK_SIZE + len <= total
}

/// Storage addressed in whole blocks.
///
/// A transfer is counted in blocks of `BLOCK_SIZE` bytes, whatever size the medium's own
/// blocks have; `block_size` tells that size to those that ask for it.
///
/// `image` is everything the device holds. A transfer either moves exactly the
/// requested bytes or reports the fault that the device's state decides on.
pub trait BlockDevice {
    /// Every byte on the device.
    spec fn image(&self) -> Seq<u8>;

    /// Size in bytes of the medium's own blocks.
    spec fn block_bytes(&self) -> usize;

    /// Whether writes are refused.
    spec fn write_protected(&self) -> bool;

    /// Condition the device reports.
    spec fn health(&self) -> DeviceHealth;

    /// The error a read of `len` bytes at block `lba` ends in, if any.
    spec fn read_fault(&self, lba: int, len: int) -> Option<Error>;

    /// The error a write of `data` at block `lba` ends in, if any.
    spec fn write_fault(&self, lba: int, data: Seq<u8>) -> Option<Error>;

    /// Whether the device never fails a transfer that it has room for.
    spec fn reliable(&self) -> bool;

    proof fn lemma_read_fits(&self, lba: int, len: int)
        requires
            self.read_fault(lba, len) is None,
        ensures
            span_fits(self.image().len(), lba, len),
    ;

    proof fn lemma_reliable_read(&self, lba: int, len: int)
        requires
            self.reliable(),
            span_fits(self.image().len(), lba, len),
        ensures
            self.read_fault(lba, len) is None,
    ;

    proof fn lemma_reliable_write(&self, lba: int, data: Seq<u8>)
        requires
            self.reliable(),
            !self.write_protected(),
            span_fits(self.image().len(), lba, data.len() as int),
        ensures
            self.write_fault(lba, data) is None,
    ;

    /// Size in bytes of the medium's own blocks.
    fn block_size(&self) -> (n: usize)
        ensures
            n == self.block_bytes(),
    ;

    /// Number of whole blocks of `BLOCK_SIZE` bytes on the device.
    fn block_count(&self) -> (n: u64)
        ensures
            n == self.image().len() / (BLOCK_SIZE as nat),
    ;

    /// Whether writes are refused.
    fn is_read_only(&self) -> (r: bool)
        ensures
            r == self.write_protected(),
    ;

    /// Condition the device reports.
    fn device_health(&self) -> (r: DeviceHealth)
        ensures
            r == self.health(),
    ;

    /// Fills `buffer` from block `lba` on.
    fn read_blocks(&self, lba: u64, buffer: &mut [u8]) -> (r: Result<()>)
        ensures
            final(buffer)@.len() == old(buffer)@.len(),
            match self.read_fault(lba as int, old(buffer)@.len() as int) {
                Some(e) => r == Err::<(), Error>(e),
                None => r is Ok && span_fits(
                    self.image().len(),
                    lba as int,
                    old(buffer)@.len() as int,
                ) && final(buffer)@ == self.image().subrange(
                    lba * BLOCK_SIZE,
                    lba * BLOCK_SIZE + old(buffer)@.len(),
                ),
            },
    ;

    /// Stores `data` from block `lba` on. A failed write may leave any part of
    /// the addressed range changed, and nothing outside it.
    fn write_blocks(&mut self, lba: u64, data: &[u8]) -> (r: Result<()>)
        ensures
            final(self).image().len() == old(self).image().len(),
            final(self).block_bytes() == old(self).block_bytes(),
            final(self).write_protected() == old(self).write_protected(),
            old(self).reliable() ==> final(self).reliable() && final(self).health() == old(
                self,
            ).health(),
            match old(self).write_fault(lba as int, data@) {
                Some(e) => r == Err::<(), Error>(e) && forall|i: int|
                    #![trigger final(self).image()[i]]
                    0 <= i < old(self).image().len() && !(lba * BLOCK_SIZE <= i < lba * BLOCK_SIZE
                        + data@.len()) ==> final(self).image()[i] == old(self).image()[i],
                None => r is Ok && span_fits(
                    old(self).image().len(),
                    lba as int,
                    data@.len() as int,
                ) && final(self).image() == put(old(self).image(), lba * BLOCK_SIZE, data@),
            },
    ;
}

/// What reading `len` bytes at block `lba` of a device yields.
pub open spec fn device_read<D: BlockDevice>(device: D, lba: int, len: int) -> core::result::Result<
    Seq<u8>,
    Error,
> {
    match device.read_fault(lba, len) {
        Some(e) => Err(e),
        None => Ok(device.image().subrange(lba * BLOCK_SIZE, lba * BLOCK_SIZE + len)),
    }
}

/// Reads `len` bytes from block `lba` on into a fresh buffer.
pub fn read_vec<D: BlockDevice>(device: &D, lba: u64, len: usize) -> (r: Result<Vec<u8>>)
    ensures
        match r {
            Ok(v) => device_read(*device, lba as int, len as int) == Ok::<Seq<u8>, Error>(v@)
                && v@.len() == len && span_fits(device.image().len(), lba as int, len as int)
                && v@ == device.image().subrange(lba * 512, lba * 512 + len),
            Err(e) => device_read(*device, lba as int, len as int) == Err::<Seq<u8>, Error>(e),
        },
{
    let mut buffer: Vec<u8> = vec![0u8; len];
    match device.read_blocks(lba, buffer.as_mut_slice()) {
        Ok(()) => Ok(buffer),
        Err(e) => Err(e),
    }
}

/// The `want` bytes that start `skip` bytes into `sector`, and the sector after the last
/// one read. A sector that has to be skipped into is read even if no byte is wanted.
pub open spec fn area_read<D: BlockDevice>(
    device: D,
    sector: int,
    skip: int,
    want: int,
) -> core::result::Result<(Seq<u8>, int), Error>
    decreases want + skip,
{
    if want < 0 || !(0 <= skip < 512) || want + skip == 0 {
        Ok((seq![], sector))
    } else {
        match device_read(device, sector, 512) {
            Err(e) => Err(e),
            Ok(bytes) => {
                let take = if want < 512 - skip {
                    want
                } else {
                    512 - skip
                };
                match area_read(device, sector + 1, 0, want - take) {
                    Err(e) => Err(e),
                    Ok((rest, next)) => Ok((bytes.subrange(skip, skip + take) + rest, next)),
                }
            },
        }
    }
}

/// Reads `want` bytes that start `skip` bytes into `sector`, sector by sector.
pub fn read_area<D: BlockDevice>(device: &D, sector: u64, skip: usize, want: u64) -> (r: Result<
    (Vec<u8>, u64),
>)
    requires
        skip < 512,
    ensures
        match r {
            Ok(v) => area_read(*device, sector as int, skip as int, want as int) == Ok::<
                (Seq<u8>, int),
                Error,
            >((v.0@, v.1 as int)) && v.0@.len() == want && (want > 0 ==> sector * 512 + skip + want
                <= device.image().len()),
            Err(e) => area_read(*device, sector as int, skip as int, want as int) == Err::<
                (Seq<u8>, int),
                Error,
            >(e),
        },
{
    let _blocks: u64 = device.block_count();
    let mut out: Vec<u8> = Vec::new();
    let mut at: u64 = sector;
    let mut gap: usize = skip;
    let mut left: u64 = want;
    while gap > 0 || left > 0
        invariant
            gap < 512,
            out@.len() + left == want,
            at == sector ==> gap == skip && left == want,
            at > sector ==> gap == 0 && (left > 0 ==> sector * 512 + skip + want == at * 512 + left),
            at > sector && want > 0 && left == 0 ==> sector * 512 + skip + want
                <= device.image().len(),
            at >= sector,
            device.image().len() / 512 <= u64::MAX,
            area_read(*device, sector as int, skip as int, want as int) == match area_read(
                *device,
                at as int,
                gap as int,
                left as int,
            ) {
                Ok((rest, next)) => Ok::<(Seq<u8>, int), Error>((out@ + rest, next)),
                Err(e) => Err(e),
            },
        decreases gap + left,
    {
        let bytes = read_vec(device, at, 512)?;
        let take: usize = if left < (512 - gap) as u64 {
            left as usize
        } else {
            512 - gap
        };
        let mut part = copy_range(bytes.as_slice(), gap, gap + take);
        let ghost before = out@;
        let ghost piece = part@;
        out.append(&mut part);
        proof {
            if let Ok((rest, _)) = area_read(*device, at + 1, 0, left - take) {
                assert(before + (piece + rest) =~= out@ + rest);
            }
        }
        at = at + 1;
        gap = 0;
        left = left - take as u64;
    }
    assert(out@ + Seq::<u8>::empty() =~= out@);
    Ok((out, at))
}

/// What reading `len` bytes at byte `offset` of a device yields, sector by sector.
pub open spec fn bytes_at<D: BlockDevice>(device: D, offset: int, len: int) -> core::result::Result<
    Seq<u8>,
    Error,
> {
    if len <= 0 {
        Ok(seq![])
    } else {
        match area_read(device, offset / 512, offset % 512, len) {
            Err(e) => Err(e),
            Ok((bytes, _)) => Ok(bytes),
        }
    }
}

/// Reads exactly `len` bytes at byte `offset` of a device.
pub fn read_exact<D: BlockDevice>(device: &D, offset: u64, len: usize) -> (r: Result<Vec<u8>>)
    ensures
        match r {
            Ok(v) => bytes_at(*device, offset as int, len as int) == Ok::<Seq<u8>, Error>(v@)
                && v@.len() == len && (len > 0 ==> offset + len <= device.image().len() && v@
                == device.image().subrange(offset as int, offset + len)),
            Err(e) => bytes_at(*device, offset as int, len as int) == Err::<Seq<u8>, Error>(e),
        },
{
    if len == 0 {
        let empty: Vec<u8> = Vec::new();
        assert(empty@ =~= seq![]);
        return Ok(empty);
    }
    let (bytes, _) = read_area(device, offset / 512, (offset % 512) as usize, len as u64)?;
    proof {
        law_bytes_are_those_of_the_image(*device, offset as int, len as int);
    }
    Ok(bytes)
}

/// Bytes read sector by sector from `skip` bytes into a sector on are the ones that the
/// image holds there, and the sectors read are those that hold them.
pub proof fn law_area_is_that_of_the_image<D: BlockDevice>(device: D, sector: int, skip: int, want: int)
    requires
        0 <= sector,
        0 <= skip < 512,
        0 < want,
        area_read(device, sector, skip, want) is Ok,
    ensures
        ({
            let at = sector * 512 + skip;
            let (bytes, next) = area_read(device, sector, skip, want)->Ok_0;
            &&& at + want <= device.image().len()
            &&& bytes == device.image().subrange(at, at + want)
            &&& (next - 1) * 512 < at + want <= next * 512
        }),
    decreases want,
{
    reveal_with_fuel(area_read, 2);
    device.lemma_read_fits(sector, 512);
    let take = if want < 512 - skip {
        want
    } else {
        512 - skip
    };
    let at = sector * 512 + skip;
    let block = device.image().subrange(sector * 512, sector * 512 + 512);
    if take < want {
        law_area_is_that_of_the_image(device, sector + 1, 0, want - take);
        let rest = area_read(device, sector + 1, 0, want - take)->Ok_0.0;
        assert(block.subrange(skip, skip + take) + rest =~= device.image().subrange(at, at + want));
    } else {
        assert(block.subrange(skip, skip + take) + Seq::<u8>::empty() =~= device.image().subrange(
            at,
            at + want,
        ));
    }
}

/// Bytes read at an offset are the ones that the image holds there.
pub proof fn law_bytes_are_those_of_the_image<D: BlockDevice>(device: D, offset: int, len: int)
    requires
        0 <= offset,
        0 < len,
        bytes_at(device, offset, len) is Ok,
    ensures
        offset + len <= device.image().len(),
        bytes_at(device, offset, len)->Ok_0 == device.image().subrange(offset, offset + len),
{
    law_area_is_that_of_the_image(device, offset / 512, offset % 512, len);
}

proof fn lemma_area_reads<D: BlockDevice>(device: D, sector: int, skip: int, want: int)
    requires
        device.reliable(),
        0 <= sector,
        0 <= skip < 512,
        0 <= want,
        want + skip > 0 ==> (sector * 512 + skip + want + 511) / 512 * 512 <= device.image().len(),
    ensures
        area_read(device, sector, skip, want) is Ok,
    decreases want + skip,
{
    if want + skip > 0 {
        device.lemma_reliable_read(sector, 512);
        let take = if want < 512 - skip {
            want
        } else {
            512 - skip
        };
        lemma_area_reads(device, sector + 1, 0, want - take);
    }
}

/// A device that fails no transfer gives every byte of its whole blocks.
pub proof fn law_bytes_can_be_read<D: BlockDevice>(device: D, offset: int, len: int)
    requires
        device.reliable(),
        0 <= offset,
        0 < len,
        (offset + len + 511) / 512 * 512 <= device.image().len(),
    ensures
        bytes_at(device, offset, len) is Ok,
{
    lemma_area_reads(device, offset / 512, offset % 512, len);
}

/// A device held entirely in memory.
pub struct MemoryBlockDevice {
    pub name: String,
    pub data: Vec<u8>,
    pub read_only: bool,
    pub block_size: usize,
}

impl MemoryBlockDevice {
    /// Wraps `data` as a device.
    pub fn new(name: &str, data: Vec<u8>, read_only: bool) -> (r: Self)
        ensures
            r.name@ == name@,
            r.data@ == data@,
            r.read_only == read_only,
            r.block_size == BLOCK_SIZE,
    {
        MemoryBlockDevice { name: name.to_owned(), data, read_only, block_size: BLOCK_SIZE }
    }

    /// The same device, reporting blocks of another size.
    pub fn with_block_size(self, block_size: usize) -> (r: Self)
        ensures
            r == (MemoryBlockDevice { block_size, ..self }),
    {
        MemoryBlockDevice {
            name: self.name,
            data: self.data,
            read_only: self.read_only,
            block_size,
        }
    }

    /// Whether a transfer of `len` bytes at block `lba` stays inside the device.
    fn fits(&self, lba: u64, len: usize) -> (r: bool)
        ensures
            r == span_fits(self.data@.len(), lba as int, len as int),
    {
        let total: usize = self.data.len();
        if len % BLOCK_SIZE != 0 || len > total {
            return false;
        }
        let blocks: u64 = ((total - len) / BLOCK_SIZE) as u64;
        lba <= blocks
    }
}

impl BlockDevice for MemoryBlockDevice {
    open spec fn image(&self) -> Seq<u8> {
        self.data@
    }

    open spec fn block_bytes(&self) -> usize {
        self.block_size
    }

    open spec fn write_protected(&self) -> bool {
        self.read_only
    }

    open spec fn health(&self) -> DeviceHealth {
        DeviceHealth::Healthy
    }

    open spec fn read_fault(&self, lba: int, len: int) -> Option<Error> {
        if span_fits(self.data@.len(), lba, len) {
            None
        } else {
            Some(Error::InvalidArgument)
        }
    }

    open spec fn write_fault(&self, lba: int, data: Seq<u8>) -> Option<Error> {
        if self.read_only {
            Some(Error::PermissionDenied)
        } else if span_fits(self.data@.len(), lba, data.len() as int) {
            None
        } else {
            Some(Error::InvalidArgument)
        }
    }

    open spec fn reliable(&self) -> bool {
        true
    }

    proof fn lemma_read_fits(&self, lba: int, len: int) {
    }

    proof fn lemma_reliable_read(&self, lba: int, len: int) {
    }

    proof fn lemma_reliable_write(&self, lba: int, data: Seq<u8>) {
    }

    fn block_size(&self) -> (n: usize) {
        self.block_size
    }

    fn block_count(&self) -> (n: u64) {
        (self.data.len() / BLOCK_SIZE) as u64
    }

    fn is_read_only(&self) -> (r: bool) {
        self.read_only
    }

    fn device_health(&self) -> (r: DeviceHealth) {
        DeviceHealth::Healthy
    }

    fn read_blocks(&self, lba: u64, buffer: &mut [u8]) -> (r: Result<()>) {
        let len: usize = buffer.len();
        if !self.fits(lba, len) {
            return Err(Error::InvalidArgument);
        }
        let _total: usize = self.data.len();
        let start: usize = lba as usize * BLOCK_SIZE;
        let src = vstd::slice::slice_subrange(self.data.as_slice(), start, start + len);
        write_bytes(buffer, 0, src);
        Ok(())
    }

    fn write_blocks(&mut self, lba: u64, data: &[u8]) -> (r: Result<()>) {
        if self.read_only {
            return Err(Error::PermissionDenied);
        }
        if !self.fits(lba, data.len()) {
            return Err(Error::InvalidArgument);
        }
        let _total: usize = self.data.len();
        let start: usize = lba as usize * BLOCK_SIZE;
        write_bytes(self.data.as_mut_slice(), start, data);
        Ok(())
    }
}

} // verus!
