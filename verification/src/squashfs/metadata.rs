//! Blocks of metadata and file data, and how they are unpacked.
//!
//! Zstandard is the caller's: a pure function from the packed bytes and a limit on the
//! unpacked length to the unpacked bytes.
use vstd::prelude::*;

use crate::block::{BlockDevice, bytes_at, read_exact};
use crate::bytes::{copy_range, get_u16, put, u16_at, write_bytes, zero_vec};
use crate::error::{Error, Result};
use crate::squashfs::lz4::{lz4_decoded, lz4_decompress};
use crate::squashfs::types::{COMPRESSION_LZ4, COMPRESSION_ZSTD, DirEntryView, DirInode, FileInode, ParsedDirEntry, SUPERBLOCK_SIZE, Superblock, dir_entries_from, dir_entry_views, parse_dir_entries, squashfs_superblock_in};
use crate::synthetic::readable;

verus! {

/// Size of an unpacked metadata block.
pub const METADATA_BLOCK_SIZE: usize = 8192;

/// The bytes in a result.
pub open spec fn bytes_in(r: Result<Vec<u8>>) -> core::result::Result<Seq<u8>, Error> {
    match r {
        Ok(v) => Ok(v@),
        Err(e) => Err(e),
    }
}

/// Whether an unpacker can return `out` for these bytes.
pub open spec fn unpacks<Z: Fn(&[u8], usize) -> Result<Vec<u8>>>(
    z: Z,
    input: Seq<u8>,
    limit: usize,
    out: core::result::Result<Seq<u8>, Error>,
) -> bool {
    exists|i: &[u8], o: Result<Vec<u8>>|
        i@ == input && bytes_in(o) == out && #[trigger] call_ensures(z, (i, limit), o)
}

/// What an unpacker returns for these bytes.
pub open spec fn unpacked<Z: Fn(&[u8], usize) -> Result<Vec<u8>>>(
    z: Z,
    input: Seq<u8>,
    limit: usize,
) -> core::result::Result<Seq<u8>, Error> {
    choose|out: core::result::Result<Seq<u8>, Error>| unpacks(z, input, limit, out)
}

/// Whether an unpacker can be called on anything, and returns the same for the same bytes.
pub open spec fn is_unpacker<Z: Fn(&[u8], usize) -> Result<Vec<u8>>>(z: Z) -> bool {
    &&& forall|i: &[u8], n: usize| #[trigger] call_requires(z, (i, n))
    &&& forall|
        input: Seq<u8>,
        n: usize,
        a: core::result::Result<Seq<u8>, Error>,
        b: core::result::Result<Seq<u8>, Error>,
    |
        #![trigger unpacks(z, input, n, a), unpacks(z, input, n, b)]
        unpacks(z, input, n, a) && unpacks(z, input, n, b) ==> a == b
}

fn unpack<Z: Fn(&[u8], usize) -> Result<Vec<u8>>>(z: &Z, input: &[u8], limit: usize) -> (r: Result<
    Vec<u8>,
>)
    requires
        is_unpacker(*z),
    ensures
        bytes_in(r) == unpacked(*z, input@, limit),
{
    let r = z(input, limit);
    assert(unpacks(*z, input@, limit, bytes_in(r)));
    r
}

/// What a compressed block unpacks to with an algorithm, in at most `limit` bytes.
pub open spec fn block_unpacked<Z: Fn(&[u8], usize) -> Result<Vec<u8>>>(
    z: Z,
    compression: u16,
    input: Seq<u8>,
    limit: usize,
) -> core::result::Result<Seq<u8>, Error> {
    if compression == COMPRESSION_LZ4 {
        let d = lz4_decoded(input, limit as int);
        match d.fault {
            Some(e) => Err(e),
            None => Ok(d.out),
        }
    } else if compression == COMPRESSION_ZSTD {
        unpacked(z, input, limit)
    } else {
        Err(Error::Unsupported)
    }
}

/// Unpacks a compressed block.
pub fn unpack_block<Z: Fn(&[u8], usize) -> Result<Vec<u8>>>(
    z: &Z,
    compression: u16,
    input: &[u8],
    limit: usize,
) -> (r: Result<Vec<u8>>)
    requires
        is_unpacker(*z),
    ensures
        bytes_in(r) == block_unpacked(*z, compression, input@, limit),
{
    if compression == COMPRESSION_LZ4 {
        let mut out = zero_vec(limit);
        let n: usize = lz4_decompress(input, out.as_mut_slice())?;
        let part = copy_range(out.as_slice(), 0, n);
        proof {
            let d = lz4_decoded(input@, limit as int);
            assert(part@ =~= d.out);
        }
        Ok(part)
    } else if compression == COMPRESSION_ZSTD {
        unpack(z, input, limit)
    } else {
        Err(Error::Unsupported)
    }
}

/// The superblock of a device.
pub open spec fn squashfs_superblock_of<D: BlockDevice>(device: D) -> core::result::Result<
    Superblock,
    Error,
> {
    match bytes_at(device, 0, 96) {
        Err(e) => Err(e),
        Ok(buf) => match squashfs_superblock_in(buf) {
            None => Err(Error::InvalidArgument),
            Some(sb) => Ok(sb),
        },
    }
}

/// Reads and parses the superblock.
pub fn read_superblock<D: BlockDevice>(device: &D) -> (r: Result<Superblock>)
    ensures
        r == squashfs_superblock_of(*device),
{
    let buf = read_exact(device, 0, 96)?;
    match Superblock::parse(buf.as_slice()) {
        None => Err(Error::InvalidArgument),
        Some(sb) => Ok(sb),
    }
}

/// The length in a block header. The highest bit is a flag.
pub open spec fn header_len(header: u16) -> int {
    header as int % 0x8000
}

/// Whether a block header says that the block is compressed: the highest bit.
pub open spec fn header_packed(header: u16) -> bool {
    header >= 0x8000
}

/// What the metadata block with this header and these bytes holds.
pub open spec fn metadata_block<Z: Fn(&[u8], usize) -> Result<Vec<u8>>>(
    z: Z,
    compression: u16,
    header: u16,
    bytes: Seq<u8>,
) -> core::result::Result<Seq<u8>, Error> {
    if header_packed(header) {
        block_unpacked(z, compression, bytes, METADATA_BLOCK_SIZE)
    } else if bytes.len() > METADATA_BLOCK_SIZE {
        Ok(bytes.take(METADATA_BLOCK_SIZE as int))
    } else {
        Ok(bytes)
    }
}

fn read_metadata_bytes<Z: Fn(&[u8], usize) -> Result<Vec<u8>>>(
    z: &Z,
    compression: u16,
    header: u16,
    bytes: Vec<u8>,
) -> (r: Result<Vec<u8>>)
    requires
        is_unpacker(*z),
    ensures
        bytes_in(r) == metadata_block(*z, compression, header, bytes@),
{
    if header >= 0x8000 {
        unpack_block(z, compression, bytes.as_slice(), METADATA_BLOCK_SIZE)
    } else if bytes.len() > METADATA_BLOCK_SIZE {
        let head = copy_range(bytes.as_slice(), 0, METADATA_BLOCK_SIZE);
        assert(head@ =~= bytes@.take(METADATA_BLOCK_SIZE as int));
        Ok(head)
    } else {
        Ok(bytes)
    }
}

/// The chain of metadata blocks at byte `off`, appended to `out`, until `limit` bytes are
/// there. A header that cannot be read, an empty block and a block that unpacks to less than
/// full length end the chain, and so does the end of the device or of 64-bit addresses.
pub open spec fn chain_from<D: BlockDevice, Z: Fn(&[u8], usize) -> Result<Vec<u8>>>(
    device: D,
    z: Z,
    compression: u16,
    off: int,
    out: Seq<u8>,
    limit: Option<int>,
) -> core::result::Result<Seq<u8>, Error>
    decreases device.image().len() - off,
{
    let header = bytes_at(device, off, 2);
    if limit matches Some(n) && out.len() >= n {
        Ok(out)
    } else if header is Err || off + 2 > device.image().len() || off > u64::MAX - 0x8001 {
        Ok(out)
    } else {
        let h = u16_at(header->Ok_0, 0);
        let n = header_len(h);
        if n == 0 {
            Ok(out)
        } else {
            match bytes_at(device, off + 2, n) {
                Err(e) => Err(e),
                Ok(bytes) => match metadata_block(z, compression, h, bytes) {
                    Err(e) => Err(e),
                    Ok(block) => if block.len() < METADATA_BLOCK_SIZE || off + 2 + n
                        > device.image().len() {
                        Ok(out + block)
                    } else {
                        chain_from(device, z, compression, off + 2 + n, out + block, limit)
                    },
                },
            }
        }
    }
}

pub(crate) fn read_chain<D: BlockDevice, Z: Fn(&[u8], usize) -> Result<Vec<u8>>>(
    device: &D,
    z: &Z,
    compression: u16,
    start: u64,
    limit: Option<u64>,
) -> (r: Result<Vec<u8>>)
    requires
        is_unpacker(*z),
    ensures
        bytes_in(r) == chain_from(
            *device,
            *z,
            compression,
            start as int,
            seq![],
            match limit {
                Some(n) => Some(n as int),
                None => None,
            },
        ),
{
    let ghost cap: Option<int> = match limit {
        Some(n) => Some(n as int),
        None => None,
    };
    let mut out: Vec<u8> = Vec::new();
    let mut off: u64 = start;
    assert(out@ =~= seq![]);
    let ghost whole = chain_from(*device, *z, compression, start as int, seq![], cap);
    loop
        invariant
            is_unpacker(*z),
            cap == (match limit {
                Some(n) => Some(n as int),
                None => None::<int>,
            }),
            whole == chain_from(*device, *z, compression, start as int, seq![], cap),
            whole == chain_from(*device, *z, compression, off as int, out@, cap),
        decreases (if off < device.image().len() { device.image().len() - off } else { 0 }),
    {
        if let Some(n) = limit {
            if out.len() as u64 >= n {
                return Ok(out);
            }
        }
        if off > u64::MAX - 0x8001 {
            return Ok(out);
        }
        let head = match read_exact(device, off, 2) {
            Err(_) => {
                return Ok(out);
            },
            Ok(h) => h,
        };
        let header: u16 = get_u16(head.as_slice(), 0);
        let n: u16 = header % 0x8000;
        if n == 0 {
            return Ok(out);
        }
        let bytes = read_exact(device, off + 2, n as usize)?;
        let mut block = read_metadata_bytes(z, compression, header, bytes)?;
        let full = block.len() >= METADATA_BLOCK_SIZE;
        let ghost before = out@;
        let ghost piece = block@;
        out.append(&mut block);
        assert(out@ =~= before + piece);
        if !full {
            return Ok(out);
        }
        off = off + 2 + n as u64;
    }
}

/// Reads and unpacks a chain of metadata blocks until `uncompressed_size` bytes are there.
pub fn read_metadata_block<D: BlockDevice, Z: Fn(&[u8], usize) -> Result<Vec<u8>>>(
    device: &D,
    sb: &Superblock,
    zstd: &Z,
    pos: u64,
    uncompressed_size: usize,
) -> (r: Result<Vec<u8>>)
    requires
        is_unpacker(*zstd),
    ensures
        bytes_in(r) == chain_from(
            *device,
            *zstd,
            sb.compression,
            pos as int,
            seq![],
            Some(uncompressed_size as int),
        ),
{
    read_chain(device, zstd, sb.compression, pos, Some(uncompressed_size as u64))
}

/// Reads and unpacks a whole chain of metadata blocks.
pub fn read_metadata<D: BlockDevice, Z: Fn(&[u8], usize) -> Result<Vec<u8>>>(
    device: &D,
    sb: &Superblock,
    zstd: &Z,
    start_byte: u64,
) -> (r: Result<Vec<u8>>)
    requires
        is_unpacker(*zstd),
    ensures
        bytes_in(r) == chain_from(
            *device,
            *zstd,
            sb.compression,
            start_byte as int,
            seq![],
            None,
        ),
{
    read_chain(device, zstd, sb.compression, start_byte, None)
}

/// The inode table of a volume: the chain after the superblock.
pub open spec fn inode_table_of<D: BlockDevice, Z: Fn(&[u8], usize) -> Result<Vec<u8>>>(
    device: D,
    z: Z,
    sb: Superblock,
) -> core::result::Result<Seq<u8>, Error> {
    chain_from(device, z, sb.compression, 96, seq![], None)
}

/// Loads and unpacks the whole inode table.
pub fn load_inode_table<D: BlockDevice, Z: Fn(&[u8], usize) -> Result<Vec<u8>>>(
    device: &D,
    sb: &Superblock,
    zstd: &Z,
) -> (r: Result<Vec<u8>>)
    requires
        is_unpacker(*zstd),
    ensures
        bytes_in(r) == inode_table_of(*device, *zstd, *sb),
{
    read_metadata(device, sb, zstd, SUPERBLOCK_SIZE as u64)
}

/// The entries of a directory.
pub open spec fn entries_of_dir<D: BlockDevice, Z: Fn(&[u8], usize) -> Result<Vec<u8>>>(
    device: D,
    z: Z,
    sb: Superblock,
    dir: DirInode,
) -> core::result::Result<Seq<DirEntryView>, Error> {
    if dir.file_size == 0 {
        Ok(seq![])
    } else {
        match chain_from(
            device,
            z,
            sb.compression,
            96 + dir.start_block * 8192,
            seq![],
            None,
        ) {
            Err(e) => Err(e),
            Ok(data) => Ok(dir_entries_from(data, 0)),
        }
    }
}

/// Reads the entries of a directory.
pub fn read_dir_entries<D: BlockDevice, Z: Fn(&[u8], usize) -> Result<Vec<u8>>>(
    device: &D,
    sb: &Superblock,
    zstd: &Z,
    dir_inode: &DirInode,
) -> (r: Result<Vec<ParsedDirEntry>>)
    requires
        is_unpacker(*zstd),
    ensures
        match r {
            Ok(v) => entries_of_dir(*device, *zstd, *sb, *dir_inode) == Ok::<
                Seq<DirEntryView>,
                Error,
            >(dir_entry_views(v@)),
            Err(e) => entries_of_dir(*device, *zstd, *sb, *dir_inode) == Err::<
                Seq<DirEntryView>,
                Error,
            >(e),
        },
{
    if dir_inode.file_size == 0 {
        let none: Vec<ParsedDirEntry> = Vec::new();
        assert(dir_entry_views(none@) =~= seq![]);
        return Ok(none);
    }
    let data = read_metadata(device, sb, zstd, 96 + dir_inode.start_block as u64 * 8192)?;
    Ok(parse_dir_entries(data.as_slice()))
}

/// Where the data block of a file starts.
pub open spec fn data_place(sb: Superblock, file: FileInode) -> int {
    96 + file.start_block * (if sb.block_size == 0 {
        1
    } else {
        sb.block_size as int
    })
}

/// The contents of the data block of a file.
pub open spec fn file_block<D: BlockDevice, Z: Fn(&[u8], usize) -> Result<Vec<u8>>>(
    device: D,
    z: Z,
    sb: Superblock,
    file: FileInode,
) -> core::result::Result<Seq<u8>, Error> {
    let base = data_place(sb, file);
    match bytes_at(device, base, 2) {
        Err(e) => Err(e),
        Ok(head) => {
            let h = u16_at(head, 0);
            match bytes_at(device, base + 2, header_len(h)) {
                Err(e) => Err(e),
                Ok(bytes) => if header_packed(h) {
                    block_unpacked(z, sb.compression, bytes, sb.block_size as usize)
                } else {
                    Ok(bytes)
                },
            }
        },
    }
}

/// The bytes that a read of `wanted` bytes at `offset` finds: no more than the file holds,
/// no more than its block.
pub open spec fn found_bytes(content: Seq<u8>, size: int, offset: int, wanted: int) -> Seq<u8> {
    let n = readable(size, offset, wanted);
    let start = if offset < content.len() {
        offset
    } else {
        content.len() as int
    };
    let end = if start + n < content.len() {
        start + n
    } else {
        content.len() as int
    };
    content.subrange(start, end)
}

/// What a read from a file leaves in the buffer, and how much it transferred.
pub open spec fn squashfs_read<D: BlockDevice, Z: Fn(&[u8], usize) -> Result<Vec<u8>>>(
    device: D,
    z: Z,
    sb: Superblock,
    file: FileInode,
    offset: int,
    before: Seq<u8>,
    after: Seq<u8>,
    r: Result<usize>,
) -> bool {
    if offset >= file.file_size {
        r == Ok::<usize, Error>(0) && after == before
    } else {
        match file_block(device, z, sb, file) {
            Err(e) => r == Err::<usize, Error>(e) && after == before,
            Ok(content) => {
                let found = found_bytes(
                    content,
                    file.file_size as int,
                    offset,
                    before.len() as int,
                );
                r == Ok::<usize, Error>(found.len() as usize) && after == put(before, 0, found)
            },
        }
    }
}

/// Reads file data.
pub fn read_file<D: BlockDevice, Z: Fn(&[u8], usize) -> Result<Vec<u8>>>(
    device: &D,
    sb: &Superblock,
    zstd: &Z,
    file: &FileInode,
    offset: u64,
    buffer: &mut [u8],
) -> (r: Result<usize>)
    requires
        is_unpacker(*zstd),
        data_place(*sb, *file) + 0x8001 <= u64::MAX,
    ensures
        squashfs_read(
            *device,
            *zstd,
            *sb,
            *file,
            offset as int,
            old(buffer)@,
            final(buffer)@,
            r,
        ),
{
    if offset >= file.file_size {
        return Ok(0);
    }
    let available: u64 = file.file_size - offset;
    let n: usize = if (buffer.len() as u64) < available {
        buffer.len()
    } else {
        available as usize
    };
    let block_size: u64 = if sb.block_size == 0 {
        1
    } else {
        sb.block_size as u64
    };
    proof {
        assert(0 <= file.start_block * block_size) by (nonlinear_arith);
    }
    let base: u64 = 96 + file.start_block * block_size;
    let head = read_exact(device, base, 2)?;
    let header: u16 = get_u16(head.as_slice(), 0);
    let bytes = read_exact(device, base + 2, (header % 0x8000) as usize)?;
    let content = if header >= 0x8000 {
        unpack_block(zstd, sb.compression, bytes.as_slice(), sb.block_size as usize)?
    } else {
        bytes
    };
    let start: usize = if offset < content.len() as u64 {
        offset as usize
    } else {
        content.len()
    };
    let end: usize = if n < content.len() - start {
        start + n
    } else {
        content.len()
    };
    let found = copy_range(content.as_slice(), start, end);
    write_bytes(buffer, 0, found.as_slice());
    Ok(end - start)
}

} // verus!
