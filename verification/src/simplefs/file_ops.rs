//! Writing to files and changing their length.
use vstd::prelude::*;

use crate::block::{BlockDevice, DeviceHealth};
use crate::bytes::{copy_range, put, write_bytes, zero_vec, zeros};
use crate::error::{Error, Result};
use crate::simplefs::commit::writable;
use crate::simplefs::create::{best_start, find_free_run};
use crate::simplefs::create_file::lemma_free_run;
use crate::simplefs::file_laws::{contents_of, law_failed_set_len_keeps_contents, law_failed_write_keeps_contents, xattrs_before_data};
use crate::simplefs::file_read::{compute_data_checksum, data_checksum, file_bytes};
use crate::simplefs::file_write::{capacity_step, file_fault, file_settled, held_blocks, only_device_differs, replaceable, steady};
use crate::simplefs::names::block_span;
use crate::simplefs::ops::refused;
use crate::simplefs::resize::{moves, shrinks};
use crate::simplefs::settle::commit_owed;
use crate::simplefs::types::OnDiskInode;
use crate::simplefs::validate::{extent_end, extent_ok};
use crate::simplefs::volume::{SimpleFs, cached_read_blocks, same_outside, write_blocks_cached};
use crate::vfs::NodeKind;

verus! {

/// Contents after `buf` was written at `offset`: longer where the write reaches past
/// the end, and zero where it leaves a gap.
pub open spec fn overlaid(contents: Seq<u8>, offset: int, buf: Seq<u8>) -> Seq<u8> {
    let len = if offset + buf.len() > contents.len() {
        offset + buf.len()
    } else {
        contents.len() as int
    };
    Seq::new(
        len as nat,
        |i: int|
            if offset <= i < offset + buf.len() {
                buf[i - offset]
            } else if i < contents.len() {
                contents[i]
            } else {
                0u8
            },
    )
}

/// Contents cut off or filled up with zeros to `len` bytes.
pub open spec fn with_length(contents: Seq<u8>, len: int) -> Seq<u8> {
    Seq::new(
        len as nat,
        |i: int|
            if i < contents.len() {
                contents[i]
            } else {
                0u8
            },
    )
}

/// A file's inode once its contents are `contents`.
pub open spec fn holding(inode: OnDiskInode, contents: Seq<u8>) -> OnDiskInode {
    OnDiskInode {
        size: contents.len() as u32,
        data_checksum: data_checksum(contents),
        ..inode
    }
}

/// What overwriting bytes that a file already has does: all of its contents go to
/// fresh blocks, and the file then points there.
pub open spec fn overwrite_step<D: BlockDevice>(
    a: SimpleFs<D>,
    b: SimpleFs<D>,
    x: int,
    offset: int,
    buf: Seq<u8>,
    r: core::result::Result<usize, Error>,
) -> bool {
    let t = a.state.tree();
    let inode = t.inodes[x];
    let contents = overlaid(file_bytes(a.device.image(), inode), offset, buf);
    let blocks = block_span(contents.len() as int);
    if blocks * 512 > usize::MAX || inode.block_count * 512 > usize::MAX {
        refused(a, b, r, Error::OutOfMemory)
    } else {
        match best_start(t.free, blocks) {
            None => {
                &&& r is Err
                &&& b == a
                &&& writable(a.device) ==> r == Err::<usize, Error>(Error::OutOfMemory)
            },
            Some(start) => {
                &&& r matches Ok(n) ==> n == buf.len()
                &&& file_settled(
                    a,
                    b,
                    x,
                    holding(
                        OnDiskInode {
                            data_block: start as u32,
                            block_count: blocks as u32,
                            ..inode
                        },
                        contents,
                    ),
                    put(
                        a.device.image(),
                        start * 512,
                        with_length(contents, blocks * 512),
                    ),
                    start * 512,
                    (start + blocks) * 512,
                    r,
                )
                &&& commit_owed(a) ==> r is Ok
            },
        }
    }
}

/// What writing at or past a file's end does, once the file has the blocks for it.
pub open spec fn append_step<D: BlockDevice>(
    a: SimpleFs<D>,
    b: SimpleFs<D>,
    x: int,
    offset: int,
    buf: Seq<u8>,
    r: core::result::Result<usize, Error>,
) -> bool {
    let inode = a.state.tree().inodes[x];
    let base = inode.data_block * 512;
    let contents = overlaid(file_bytes(a.device.image(), inode), offset, buf);
    if inode.block_count * 512 > usize::MAX {
        refused(a, b, r, Error::OutOfMemory)
    } else {
        &&& r matches Ok(n) ==> n == buf.len()
        &&& file_settled(
            a,
            b,
            x,
            holding(inode, contents),
            put(a.device.image(), base, contents),
            base + inode.size / 512 * 512,
            extent_end(inode) * 512,
            r,
        )
        &&& commit_owed(a) ==> r is Ok
    }
}

/// What a write does, and what it answers.
pub open spec fn write_outcome<D: BlockDevice>(
    a: SimpleFs<D>,
    b: SimpleFs<D>,
    x: int,
    offset: int,
    buf: Seq<u8>,
    r: core::result::Result<usize, Error>,
) -> bool {
    let t = a.state.tree();
    if buf.len() == 0 {
        r == Ok::<usize, Error>(0) && b == a
    } else if a.device.write_protected() {
        refused(a, b, r, Error::PermissionDenied)
    } else if offset + buf.len() > u32::MAX {
        refused(a, b, r, Error::InvalidArgument)
    } else {
        match file_fault(t, x) {
            Some(e) => refused(a, b, r, e),
            None => if offset < t.inodes[x].size {
                overwrite_step(a, b, x, offset, buf, r)
            } else {
                exists|m: SimpleFs<D>, room: core::result::Result<OnDiskInode, Error>|
                    #![trigger capacity_step(a, m, x, offset + buf.len(), room)]
                    m.wf() && capacity_step(a, m, x, offset + buf.len(), room) && match room {
                        Err(e) => r == Err::<usize, Error>(e) && b == m,
                        Ok(_) => append_step(m, b, x, offset, buf, r),
                    }
            },
        }
    }
}

/// A file's inode once its length is changed: surplus blocks go, and a file without
/// blocks has no place and no checksum.
pub open spec fn relengthened(inode: OnDiskInode, contents: Seq<u8>) -> OnDiskInode {
    let blocks = block_span(contents.len() as int);
    if blocks == 0 {
        OnDiskInode { size: 0, block_count: 0, data_block: 0, data_checksum: 0, ..inode }
    } else {
        holding(OnDiskInode { block_count: blocks as u32, ..inode }, contents)
    }
}

/// What changing a file's length does, once the file has the blocks for it.
pub open spec fn length_step<D: BlockDevice>(
    a: SimpleFs<D>,
    b: SimpleFs<D>,
    x: int,
    len: int,
    r: core::result::Result<(), Error>,
) -> bool {
    let inode = a.state.tree().inodes[x];
    let base = inode.data_block * 512;
    let contents = with_length(file_bytes(a.device.image(), inode), len);
    if len == inode.size {
        r == Ok::<(), Error>(()) && b == a
    } else if inode.block_count * 512 > usize::MAX {
        refused(a, b, r, Error::OutOfMemory)
    } else {
        &&& file_settled(
            a,
            b,
            x,
            relengthened(inode, contents),
            if len > inode.size {
                put(a.device.image(), base, contents)
            } else {
                a.device.image()
            },
            base + inode.size / 512 * 512,
            extent_end(inode) * 512,
            r,
        )
        &&& commit_owed(a) ==> r is Ok
    }
}

/// What setting a file's length does, and what it answers.
pub open spec fn set_len_outcome<D: BlockDevice>(
    a: SimpleFs<D>,
    b: SimpleFs<D>,
    x: int,
    len: int,
    r: core::result::Result<(), Error>,
) -> bool {
    if a.device.write_protected() {
        refused(a, b, r, Error::PermissionDenied)
    } else if len > u32::MAX {
        refused(a, b, r, Error::InvalidArgument)
    } else {
        exists|m: SimpleFs<D>, room: core::result::Result<OnDiskInode, Error>|
            #![trigger capacity_step(a, m, x, len, room)]
            m.wf() && capacity_step(a, m, x, len, room) && match room {
                Err(e) => r == Err::<(), Error>(e) && b == m,
                Ok(_) => length_step(m, b, x, len, r),
            }
    }
}

/// An inode with blocks of its own from `start` on.
pub open spec fn unshared(inode: OnDiskInode, start: int) -> OnDiskInode {
    OnDiskInode { data_block: start as u32, deduped: false, ..inode }
}

/// What giving a node blocks of its own does: a copy of all of its blocks goes to fresh
/// ones, and the node then points there. A node without blocks, or one that is compressed,
/// never shares any.
pub open spec fn unshare_step<D: BlockDevice>(
    a: SimpleFs<D>,
    b: SimpleFs<D>,
    x: int,
    r: core::result::Result<(), Error>,
) -> bool {
    let t = a.state.tree();
    if x >= t.inodes.len() {
        refused(a, b, r, Error::InternalError)
    } else if t.inodes[x].block_count == 0 || t.inodes[x].compressed {
        r is Ok && b == a
    } else if t.inodes[x].block_count * 512 > usize::MAX {
        refused(a, b, r, Error::OutOfMemory)
    } else {
        let inode = t.inodes[x];
        match best_start(t.free, inode.block_count as int) {
            None => {
                &&& r is Err
                &&& b == a
                &&& writable(a.device) ==> r == Err::<(), Error>(Error::OutOfMemory)
            },
            Some(start) => {
                &&& file_settled(
                    a,
                    b,
                    x,
                    unshared(inode, start),
                    put(a.device.image(), start * 512, held_blocks(a.device.image(), inode)),
                    start * 512,
                    (start + inode.block_count) * 512,
                    r,
                )
                &&& commit_owed(a) ==> r is Ok
            },
        }
    }
}

/// What a sound volume's file inode is known to satisfy.
proof fn lemma_file_inode<D: BlockDevice>(fs: SimpleFs<D>, x: int)
    requires
        fs.wf(),
        file_fault(fs.state.tree(), x) is None,
        0 <= x,
    ensures
        ({
            let inode = fs.state.tree().inodes[x];
            &&& inode.size <= inode.block_count * 512
            &&& inode.block_count > 0 ==> extent_end(inode) <= fs.device.image().len() / 512
            &&& inode.block_count > 0 ==> extent_end(inode) * 512 <= fs.device.image().len()
        }),
{
    let blocks = (fs.device.image().len() / 512) as int;
    assert(extent_ok(fs.state.tree().inodes[x], fs.geometry.data_block_start as int, blocks));
}

impl<D: BlockDevice> SimpleFs<D> {
    /// Overwrites bytes of a file in its own blocks.
    fn patch_file(&mut self, inode: OnDiskInode, from: u64, data: &[u8]) -> (r: Result<()>)
        requires
            inode.block_count * 512 <= usize::MAX,
            from + data@.len() <= inode.block_count * 512,
            data@.len() > 0,
            extent_end(inode) <= old(self).device.image().len() / 512,
        ensures
            only_device_differs(*old(self), *final(self)),
            r is Ok ==> final(self).device.image() == put(
                old(self).device.image(),
                inode.data_block * 512 + from,
                data@,
            ),
            r is Err ==> same_outside(
                old(self).device.image(),
                final(self).device.image(),
                inode.data_block * 512 + from / 512 * 512,
                extent_end(inode) * 512,
            ),
            old(self).device.health() == DeviceHealth::Failed ==> r is Err && *final(self) == *old(
                self,
            ),
            r is Err && steady(old(self).device) ==> final(self).device.image() == old(
                self,
            ).device.image(),
            writable(old(self).device) ==> r is Ok,
    {
        let len: u64 = data.len() as u64;
        let first: u64 = from / 512;
        let end: u64 = (from + len + 511) / 512;
        assert(end <= inode.block_count);
        let lba: u64 = inode.data_block as u64 + first;
        let span: u64 = (end - first) * 512;
        let ghost image = self.device.image();
        proof {
            if writable(self.device) {
                self.device.lemma_reliable_read(lba as int, span as int);
            }
        }
        let mut temp = cached_read_blocks(&self.device, lba, span as usize)?;
        let ghost before = temp@;
        write_bytes(temp.as_mut_slice(), (from % 512) as usize, data);
        proof {
            if writable(self.device) {
                self.device.lemma_reliable_write(lba as int, temp@);
            }
        }
        let r = write_blocks_cached(&mut self.device, lba, temp.as_slice());
        proof {
            if r is Ok {
                assert(self.device.image() =~= put(
                    image,
                    inode.data_block * 512 + from,
                    data@,
                ));
            }
        }
        r
    }

    /// Clears bytes `start..end` of a file.
    pub fn zero_file_range(&mut self, inode: OnDiskInode, start: u64, end: u64) -> (r: Result<()>)
        requires
            inode.block_count * 512 <= usize::MAX,
            inode.block_count > 0 ==> extent_end(inode) <= old(self).device.image().len() / 512,
        ensures
            only_device_differs(*old(self), *final(self)),
            start >= end ==> r is Ok && *final(self) == *old(self),
            start < end && block_span(end as int) > inode.block_count ==> r == Err::<(), Error>(
                Error::InternalError,
            ) && *final(self) == *old(self),
            start < end && block_span(end as int) <= inode.block_count ==> {
                &&& r is Ok ==> final(self).device.image() == put(
                    old(self).device.image(),
                    inode.data_block * 512 + start,
                    zeros((end - start) as nat),
                )
                &&& r is Err ==> same_outside(
                    old(self).device.image(),
                    final(self).device.image(),
                    inode.data_block * 512 + start / 512 * 512,
                    extent_end(inode) * 512,
                )
                &&& old(self).device.health() == DeviceHealth::Failed ==> r is Err
                &&& r is Err && steady(old(self).device) ==> final(self).device.image() == old(
                    self,
                ).device.image()
                &&& writable(old(self).device) ==> r is Ok
            },
    {
        if start >= end {
            return Ok(());
        }
        if end > inode.block_count as u64 * 512 {
            return Err(Error::InternalError);
        }
        let zeroed = zero_vec((end - start) as usize);
        self.patch_file(inode, start, zeroed.as_slice())
    }

    /// All blocks of a file.
    fn read_all_blocks(&self, inode: OnDiskInode) -> (r: Result<Vec<u8>>)
        requires
            inode.block_count * 512 <= usize::MAX,
            inode.block_count > 0 ==> extent_end(inode) <= self.device.image().len() / 512,
        ensures
            r matches Ok(v) ==> v@ == held_blocks(self.device.image(), inode),
            writable(self.device) ==> r is Ok,
    {
        if inode.block_count == 0 {
            return Ok(Vec::new());
        }
        proof {
            if writable(self.device) {
                self.device.lemma_reliable_read(
                    inode.data_block as int,
                    inode.block_count * 512,
                );
            }
        }
        let v = cached_read_blocks(
            &self.device,
            inode.data_block as u64,
            (inode.block_count as u64 * 512) as usize,
        )?;
        assert(v@ =~= held_blocks(self.device.image(), inode));
        Ok(v)
    }
}

impl<D: BlockDevice> SimpleFs<D> {
    /// Moves a file's contents, changed as asked for, to fresh blocks.
    fn replace_file_contents_transactionally(
        &mut self,
        inode_index: usize,
        offset: u64,
        buffer: &[u8],
    ) -> (r: Result<usize>)
        requires
            old(self).wf(),
            file_fault(old(self).state.tree(), inode_index as int) is None,
            buffer@.len() > 0,
            offset + buffer@.len() <= u32::MAX,
            offset < old(self).state.tree().inodes[inode_index as int].size,
        ensures
            final(self).wf(),
            overwrite_step(
                *old(self),
                *final(self),
                inode_index as int,
                offset as int,
                buffer@,
                r,
            ),
    {
        let ghost a = *self;
        let ghost t = self.state.tree();
        let ghost g = self.geometry;
        let ghost blocks = (self.device.image().len() / 512) as int;
        let inode = self.state.inodes[inode_index];
        assert(inode == t.inodes[inode_index as int]);
        proof {
            lemma_file_inode(a, inode_index as int);
        }
        let size: u64 = inode.size as u64;
        let end: u64 = offset + buffer.len() as u64;
        let new_len: u64 = if end > size {
            end
        } else {
            size
        };
        let new_blocks: u64 = (new_len + 511) / 512;
        if new_blocks * 512 > usize::MAX as u64 || inode.block_count as u64 * 512
            > usize::MAX as u64 {
            return Err(Error::OutOfMemory);
        }
        let current = self.read_all_blocks(inode)?;
        let ghost old_bytes = file_bytes(a.device.image(), inode);
        let ghost contents = overlaid(old_bytes, offset as int, buffer@);
        let kept = copy_range(current.as_slice(), 0, size as usize);
        assert(kept@ =~= old_bytes);
        let mut next = zero_vec((new_blocks * 512) as usize);
        write_bytes(next.as_mut_slice(), 0, kept.as_slice());
        write_bytes(next.as_mut_slice(), offset as usize, buffer);
        assert(next@ =~= with_length(contents, new_blocks * 512));
        let fresh = copy_range(next.as_slice(), 0, new_len as usize);
        assert(fresh@ =~= contents);
        let checksum = compute_data_checksum(fresh.as_slice());
        let start = find_free_run(&self.state.free_data_extents, new_blocks)?;
        let mut replaced = inode;
        proof {
            lemma_free_run(t, g, blocks, start as int, new_blocks as int);
        }
        replaced.data_block = start as u32;
        replaced.block_count = new_blocks as u32;
        replaced.size = new_len as u32;
        replaced.data_checksum = checksum;
        proof {
            if writable(self.device) {
                self.device.lemma_reliable_write(start as int, next@);
            }
            assert(moves(t, replaced));
            assert(replaceable(a, inode_index as int, replaced));
        }
        write_blocks_cached(&mut self.device, start, next.as_slice())?;
        match self.commit_file(inode_index, replaced, Ghost(a)) {
            Ok(()) => Ok(buffer.len()),
            Err(error) => Err(error),
        }
    }

    /// Copies the blocks of a file or a symlink to fresh ones, so that a write to them
    /// reaches no other node.
    pub fn unshare_inode_extent(&mut self, inode_index: usize) -> (r: Result<()>)
        requires
            old(self).wf(),
            inode_index < old(self).state.tree().inodes.len() ==> {
                let inode = old(self).state.tree().inodes[inode_index as int];
                inode.block_count > 0 && !inode.compressed ==> !inode.deleted && inode.kind
                    != NodeKind::Directory
            },
        ensures
            final(self).wf(),
            unshare_step(*old(self), *final(self), inode_index as int, r),
    {
        let ghost a = *self;
        let ghost t = self.state.tree();
        let ghost g = self.geometry;
        let ghost blocks = (self.device.image().len() / 512) as int;
        if inode_index >= self.state.inodes.len() {
            return Err(Error::InternalError);
        }
        let inode = self.state.inodes[inode_index];
        assert(inode == t.inodes[inode_index as int]);
        if inode.block_count == 0 || inode.compressed {
            return Ok(());
        }
        if inode.block_count as u64 * 512 > usize::MAX as u64 {
            return Err(Error::OutOfMemory);
        }
        assert(extent_ok(inode, g.data_block_start as int, blocks));
        let contents = self.read_all_blocks(inode)?;
        let start = find_free_run(&self.state.free_data_extents, inode.block_count as u64)?;
        let mut moved = inode;
        proof {
            lemma_free_run(t, g, blocks, start as int, inode.block_count as int);
        }
        moved.data_block = start as u32;
        moved.deduped = false;
        proof {
            if writable(self.device) {
                self.device.lemma_reliable_write(start as int, contents@);
            }
            assert(moves(t, moved));
            assert(replaceable(a, inode_index as int, moved));
        }
        write_blocks_cached(&mut self.device, start, contents.as_slice())?;
        self.commit_file(inode_index, moved, Ghost(a))
    }

    /// Writes at or past a file's end, into blocks the file already has.
    fn append_to_file(&mut self, inode_index: usize, offset: u64, buffer: &[u8]) -> (r: Result<
        usize,
    >)
        requires
            old(self).wf(),
            file_fault(old(self).state.tree(), inode_index as int) is None,
            buffer@.len() > 0,
            offset + buffer@.len() <= u32::MAX,
            offset >= old(self).state.tree().inodes[inode_index as int].size,
            block_span(offset + buffer@.len()) <= old(
                self,
            ).state.tree().inodes[inode_index as int].block_count,
        ensures
            final(self).wf(),
            append_step(*old(self), *final(self), inode_index as int, offset as int, buffer@, r),
    {
        let ghost a = *self;
        let ghost t = self.state.tree();
        let inode = self.state.inodes[inode_index];
        assert(inode == t.inodes[inode_index as int]);
        proof {
            lemma_file_inode(a, inode_index as int);
        }
        if inode.block_count as u64 * 512 > usize::MAX as u64 {
            return Err(Error::OutOfMemory);
        }
        let size: u64 = inode.size as u64;
        let len: u64 = buffer.len() as u64;
        let ghost image = self.device.image();
        let ghost base = inode.data_block * 512;
        let ghost old_bytes = file_bytes(image, inode);
        let ghost contents = overlaid(old_bytes, offset as int, buffer@);
        self.zero_file_range(inode, size, offset)?;
        let ghost cleared = self.device.image();
        assert(cleared =~= if size < offset {
            put(image, base + size, zeros((offset - size) as nat))
        } else {
            image
        });
        let current = self.read_all_blocks(inode)?;
        let mut merged = copy_range(current.as_slice(), 0, (offset + len) as usize);
        write_bytes(merged.as_mut_slice(), offset as usize, buffer);
        assert(merged@ =~= contents);
        let checksum = compute_data_checksum(merged.as_slice());
        let ghost before = *self;
        self.patch_file(inode, offset, buffer)?;
        proof {
            assert(self.device.image() =~= put(image, base, contents));
        }
        let mut longer = inode;
        longer.size = (offset + len) as u32;
        longer.data_checksum = checksum;
        assert(shrinks(inode, longer));
        assert(replaceable(a, inode_index as int, longer));
        match self.commit_file(inode_index, longer, Ghost(a)) {
            Ok(()) => Ok(buffer.len()),
            Err(error) => Err(error),
        }
    }

    /// Writes to a file. Where the write touches bytes the file already has, all of
    /// its contents first go to fresh blocks, so that a failure never shows a mix of
    /// old and new.
    pub fn write_file(&mut self, inode_index: usize, offset: u64, buffer: &[u8]) -> (r: Result<
        usize,
    >)
        requires
            old(self).wf(),
        ensures
            final(self).wf(),
            write_outcome(*old(self), *final(self), inode_index as int, offset as int, buffer@, r),
            r is Err && inode_index < old(self).state.tree().inodes.len() && xattrs_before_data(
                *old(self),
            ) && (old(self).device.reliable() || offset < old(
                self,
            ).state.tree().inodes[inode_index as int].size) ==> contents_of(
                *final(self),
                inode_index as int,
            ) == contents_of(*old(self), inode_index as int),
    {
        let r = self.write_any(inode_index, offset, buffer);
        proof {
            if r is Err && inode_index < old(self).state.tree().inodes.len() && xattrs_before_data(
                *old(self),
            ) && (old(self).device.reliable() || offset < old(
                self,
            ).state.tree().inodes[inode_index as int].size) {
                law_failed_write_keeps_contents(
                    *old(self),
                    *self,
                    inode_index as int,
                    offset as int,
                    buffer@,
                    r,
                );
            }
        }
        r
    }

    fn write_any(&mut self, inode_index: usize, offset: u64, buffer: &[u8]) -> (r: Result<usize>)
        requires
            old(self).wf(),
        ensures
            final(self).wf(),
            write_outcome(*old(self), *final(self), inode_index as int, offset as int, buffer@, r),
    {
        let len: u64 = buffer.len() as u64;
        if len == 0 {
            return Ok(0);
        }
        if self.device.is_read_only() {
            return Err(Error::PermissionDenied);
        }
        if offset > u32::MAX as u64 || len > u32::MAX as u64 || offset + len > u32::MAX as u64 {
            return Err(Error::InvalidArgument);
        }
        if inode_index >= self.state.inodes.len() {
            return Err(Error::InternalError);
        }
        let inode = self.state.inodes[inode_index];
        if inode.deleted {
            return Err(Error::NotFound);
        }
        if !matches!(inode.kind, NodeKind::File) {
            return Err(Error::InvalidArgument);
        }
        assert(inode == self.state.tree().inodes[inode_index as int]);
        if offset < inode.size as u64 {
            return self.replace_file_contents_transactionally(inode_index, offset, buffer);
        }
        let ghost a = *self;
        let room = self.ensure_file_capacity(inode_index, offset + len);
        let ghost m = *self;
        assert(capacity_step(a, m, inode_index as int, (offset + len) as int, room));
        match room {
            Ok(_) => self.append_to_file(inode_index, offset, buffer),
            Err(error) => Err(error),
        }
    }

    /// Sets a file's length within the blocks it already has.
    fn change_length(&mut self, inode_index: usize, length: u64) -> (r: Result<()>)
        requires
            old(self).wf(),
            file_fault(old(self).state.tree(), inode_index as int) is None,
            length <= u32::MAX,
            block_span(length as int) <= old(
                self,
            ).state.tree().inodes[inode_index as int].block_count,
        ensures
            final(self).wf(),
            length_step(*old(self), *final(self), inode_index as int, length as int, r),
    {
        let ghost a = *self;
        let ghost t = self.state.tree();
        let inode = self.state.inodes[inode_index];
        assert(inode == t.inodes[inode_index as int]);
        proof {
            lemma_file_inode(a, inode_index as int);
        }
        let size: u64 = inode.size as u64;
        if length == size {
            return Ok(());
        }
        if inode.block_count as u64 * 512 > usize::MAX as u64 {
            return Err(Error::OutOfMemory);
        }
        let ghost image = self.device.image();
        let ghost base = inode.data_block * 512;
        let ghost old_bytes = file_bytes(image, inode);
        let ghost contents = with_length(old_bytes, length as int);
        self.zero_file_range(inode, size, length)?;
        assert(length > size ==> self.device.image() =~= put(image, base, contents));
        let new_blocks: u64 = (length + 511) / 512;
        let mut changed = inode;
        changed.size = length as u32;
        changed.block_count = new_blocks as u32;
        if new_blocks == 0 {
            changed.data_block = 0;
            changed.data_checksum = 0;
        } else {
            let current = self.read_all_blocks(inode)?;
            let fresh = copy_range(current.as_slice(), 0, length as usize);
            assert(fresh@ =~= contents);
            changed.data_checksum = compute_data_checksum(fresh.as_slice());
        }
        assert(contents.len() == length);
        assert(shrinks(inode, changed));
        assert(replaceable(a, inode_index as int, changed));
        self.commit_file(inode_index, changed, Ghost(a))
    }

    /// Sets a file's length: what is cut off is gone, and what is added is zero.
    pub fn set_len_file(&mut self, inode_index: usize, length: u64) -> (r: Result<()>)
        requires
            old(self).wf(),
        ensures
            final(self).wf(),
            set_len_outcome(*old(self), *final(self), inode_index as int, length as int, r),
            r is Err && inode_index < old(self).state.tree().inodes.len() && xattrs_before_data(
                *old(self),
            ) && old(self).device.reliable() ==> contents_of(*final(self), inode_index as int)
                == contents_of(*old(self), inode_index as int),
    {
        let r = self.set_any_len(inode_index, length);
        proof {
            if r is Err && inode_index < old(self).state.tree().inodes.len() && xattrs_before_data(
                *old(self),
            ) && old(self).device.reliable() {
                law_failed_set_len_keeps_contents(
                    *old(self),
                    *self,
                    inode_index as int,
                    length as int,
                    r,
                );
            }
        }
        r
    }

    fn set_any_len(&mut self, inode_index: usize, length: u64) -> (r: Result<()>)
        requires
            old(self).wf(),
        ensures
            final(self).wf(),
            set_len_outcome(*old(self), *final(self), inode_index as int, length as int, r),
    {
        if self.device.is_read_only() {
            return Err(Error::PermissionDenied);
        }
        if length > u32::MAX as u64 {
            return Err(Error::InvalidArgument);
        }
        let ghost a = *self;
        let room = self.ensure_file_capacity(inode_index, length);
        let ghost m = *self;
        assert(capacity_step(a, m, inode_index as int, length as int, room));
        match room {
            Ok(_) => self.change_length(inode_index, length),
            Err(error) => Err(error),
        }
    }
}

} // verus!
