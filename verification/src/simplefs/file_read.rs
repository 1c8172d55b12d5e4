//! Reading file contents.
use vstd::prelude::*;

use crate::block::BlockDevice;
use crate::bytes::{copy_range, put, write_bytes};
use crate::error::{Error, Result};
use crate::simplefs::names::block_span;
use crate::simplefs::types::OnDiskInode;
use crate::simplefs::volume::{SimpleFs, cached_read_blocks, volume_read};
use crate::squashfs::metadata::read_file;
use crate::vfs::NodeKind;

verus! {

/// A word rotated left by one bit.
pub open spec fn rotated(v: u32) -> u32 {
    (v << 1) | (v >> 31)
}

/// Up to four bytes as a little-endian word, missing ones read as zero.
pub open spec fn word_of(s: Seq<u8>) -> u32 {
    let byte = |i: int|
        if i < s.len() {
            s[i] as u32
        } else {
            0
        };
    byte(0) | (byte(1) << 8) | (byte(2) << 16) | (byte(3) << 24)
}

/// The checksum over the first `words` words of `data`, the last of which may be
/// cut short.
pub open spec fn checksum_upto(data: Seq<u8>, words: nat) -> u32
    decreases words,
{
    if words == 0 {
        0
    } else {
        let from = 4 * (words - 1);
        let to = if 4 * words <= data.len() {
            4 * words as int
        } else {
            data.len() as int
        };
        rotated(checksum_upto(data, (words - 1) as nat)) ^ word_of(data.subrange(from, to))
    }
}

/// The checksum over file contents. Zero also stands for a checksum that was never
/// computed.
pub open spec fn data_checksum(data: Seq<u8>) -> u32 {
    checksum_upto(data, ((data.len() + 3) / 4) as nat)
}

/// The checksum over file contents.
pub fn compute_data_checksum(data: &[u8]) -> (r: u32)
    ensures
        r == data_checksum(data@),
{
    let total: usize = data.len();
    let mut checksum: u32 = 0;
    let mut at: usize = 0;
    let ghost mut words: nat = 0;
    while at < total
        invariant
            total == data@.len(),
            at <= total,
            at == 4 * words || (at == total && words == (total + 3) / 4),
            at < total ==> at == 4 * words,
            checksum == checksum_upto(data@, words),
        decreases total - at,
    {
        let b0: u32 = data[at] as u32;
        let left: usize = total - at;
        let b1: u32 = if left > 1 {
            data[at + 1] as u32
        } else {
            0
        };
        let b2: u32 = if left > 2 {
            data[at + 2] as u32
        } else {
            0
        };
        let b3: u32 = if left > 3 {
            data[at + 3] as u32
        } else {
            0
        };
        let word: u32 = b0 | (b1 << 8) | (b2 << 16) | (b3 << 24);
        checksum = ((checksum << 1) | (checksum >> 31)) ^ word;
        proof {
            words = words + 1;
            let from = 4 * (words - 1);
            let to = if 4 * words <= data@.len() {
                4 * words as int
            } else {
                data@.len() as int
            };
            assert(word == word_of(data@.subrange(from, to)));
        }
        if left > 4 {
            at = at + 4;
        } else {
            at = total;
        }
    }
    checksum
}

/// The contents of a file as an image holds them.
pub open spec fn file_bytes(image: Seq<u8>, inode: OnDiskInode) -> Seq<u8> {
    image.subrange(inode.data_block * 512, inode.data_block * 512 + inode.size)
}

/// How many bytes a read yields.
pub open spec fn read_count(inode: OnDiskInode, offset: int, room: int) -> int {
    if offset >= inode.size {
        0
    } else if inode.size - offset < room {
        inode.size - offset
    } else {
        room
    }
}

/// The blocks a read of a file touches, as they are on the device.
pub open spec fn blocks_read<D: BlockDevice>(
    device: D,
    inode: OnDiskInode,
    offset: int,
    count: int,
) -> core::result::Result<Seq<u8>, Error> {
    let first = offset / 512;
    let end = block_span(offset + count);
    if end > inode.block_count {
        Err(Error::InternalError)
    } else if (end - first) * 512 > usize::MAX {
        Err(Error::OutOfMemory)
    } else {
        volume_read(device, inode.data_block + first, (end - first) * 512)
    }
}

/// Whether a read covers a whole file whose checksum does not fit its contents.
pub open spec fn read_is_corrupt(
    inode: OnDiskInode,
    offset: int,
    count: int,
    blocks: Seq<u8>,
) -> bool {
    &&& offset == 0
    &&& count >= inode.size
    &&& inode.data_checksum != 0
    &&& data_checksum(blocks.take(inode.size as int)) != inode.data_checksum
}

/// The outcome of reading from a file into a buffer.
pub open spec fn read_outcome<D: BlockDevice>(
    fs: SimpleFs<D>,
    inode_index: int,
    offset: int,
    before: Seq<u8>,
    after: Seq<u8>,
    r: Result<usize>,
) -> bool {
    let t = fs.state.tree();
    if inode_index >= t.inodes.len() {
        r == Err::<usize, Error>(Error::InternalError) && after == before
    } else {
        let inode = t.inodes[inode_index];
        let count = read_count(inode, offset, before.len() as int);
        if inode.deleted {
            r == Err::<usize, Error>(Error::NotFound) && after == before
        } else if inode.kind == NodeKind::Directory {
            r == Err::<usize, Error>(Error::InvalidArgument) && after == before
        } else if offset >= inode.size {
            r == Ok::<usize, Error>(0) && after == before
        } else {
            match blocks_read(fs.device, inode, offset, count) {
                Err(e) => r == Err::<usize, Error>(e) && after == before,
                Ok(blocks) => {
                    let from = offset % 512;
                    &&& after == put(before, 0, blocks.subrange(from, from + count))
                    &&& r == (if read_is_corrupt(inode, offset, count, blocks) {
                        Err::<usize, Error>(Error::DeviceError)
                    } else {
                        Ok(count as usize)
                    })
                },
            }
        }
    }
}

impl<D: BlockDevice> SimpleFs<D> {
    /// Reads file contents into `buffer`. A read of the whole file is held against
    /// the file's checksum, if it has one.
    pub fn read_file(&self, inode_index: usize, offset: u64, buffer: &mut [u8]) -> (r: Result<usize>)
        ensures
            read_outcome(
                *self,
                inode_index as int,
                offset as int,
                old(buffer)@,
                final(buffer)@,
                r,
            ),
    {
        if inode_index >= self.state.inodes.len() {
            return Err(Error::InternalError);
        }
        let inode = self.state.inodes[inode_index];
        if inode.deleted {
            return Err(Error::NotFound);
        }
        if matches!(inode.kind, NodeKind::Directory) {
            return Err(Error::InvalidArgument);
        }
        let size: u64 = inode.size as u64;
        if offset >= size {
            return Ok(0);
        }
        let room: u64 = buffer.len() as u64;
        let count: u64 = if size - offset < room {
            size - offset
        } else {
            room
        };
        let first: u64 = offset / 512;
        let end: u64 = (offset + count + 511) / 512;
        if end > inode.block_count as u64 {
            return Err(Error::InternalError);
        }
        assert(first <= end);
        let span: u64 = (end - first) * 512;
        if span > usize::MAX as u64 {
            return Err(Error::OutOfMemory);
        }
        let temp = cached_read_blocks(
            &self.device,
            inode.data_block as u64 + first,
            span as usize,
        )?;
        let from: usize = (offset % 512) as usize;
        let piece = copy_range(temp.as_slice(), from, from + count as usize);
        write_bytes(buffer, 0, piece.as_slice());
        if offset == 0 && count >= size && inode.data_checksum != 0 {
            let whole = copy_range(temp.as_slice(), 0, size as usize);
            assert(whole@ =~= temp@.take(inode.size as int));
            if compute_data_checksum(whole.as_slice()) != inode.data_checksum {
                return Err(Error::DeviceError);
            }
        }
        Ok(count as usize)
    }
}

} // verus!
