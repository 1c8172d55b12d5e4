//! Pipes: a byte stream through a ring buffer, with a read end and a write end.
//!
//! An operation that would have to wait says so; the caller waits and tries again.
use vstd::prelude::*;

use crate::bytes::{put, write_bytes, zero_vec};
use crate::error::{Error, Result};
use crate::vfs::NodeKind;

verus! {

/// Capacity of a pipe that asks for none.
pub const DEFAULT_PIPE_CAPACITY: usize = 16384;

/// Smallest capacity that can be asked for: one page.
pub const PIPE_MIN_SIZE: usize = 4096;

/// Largest capacity that can be asked for.
pub const PIPE_MAX_SIZE: usize = 1048576;

/// Whether a size is a power-of-two number of pages between the smallest and the largest.
pub open spec fn is_pipe_size(n: int) -> bool {
    ||| n == 4096
    ||| n == 8192
    ||| n == 16384
    ||| n == 32768
    ||| n == 65536
    ||| n == 131072
    ||| n == 262144
    ||| n == 524288
    ||| n == 1048576
}

/// A size brought into the accepted range.
pub open spec fn clamped_size(n: int) -> int {
    if n < PIPE_MIN_SIZE {
        PIPE_MIN_SIZE as int
    } else if n > PIPE_MAX_SIZE {
        PIPE_MAX_SIZE as int
    } else {
        n
    }
}

/// Rounds a requested size up to a power-of-two number of pages, within the limits.
pub fn round_pipe_size(size: usize) -> (r: usize)
    ensures
        is_pipe_size(r as int),
        r >= clamped_size(size as int),
        forall|n: int| is_pipe_size(n) && n >= clamped_size(size as int) ==> r <= n,
{
    let wanted: usize = if size < PIPE_MIN_SIZE {
        PIPE_MIN_SIZE
    } else if size > PIPE_MAX_SIZE {
        PIPE_MAX_SIZE
    } else {
        size
    };
    let mut rounded: usize = PIPE_MIN_SIZE;
    while rounded < wanted
        invariant
            is_pipe_size(rounded as int),
            wanted == clamped_size(size as int),
            forall|n: int| is_pipe_size(n) && n >= wanted ==> rounded <= n,
        decreases PIPE_MAX_SIZE - rounded,
    {
        rounded = rounded * 2;
    }
    rounded
}

/// A position in a ring of `len` bytes.
pub open spec fn wrapped(pos: int, len: int) -> int {
    if pos >= len {
        pos - len
    } else {
        pos
    }
}

/// The ring buffer of a pipe.
pub struct PipeRing {
    pub buf: Vec<u8>,
    pub read_pos: usize,
    pub write_pos: usize,
    /// Number of unread bytes.
    pub byte_count: usize,
    /// Whether the write end is gone.
    pub write_closed: bool,
    /// Whether the read end is gone.
    pub read_closed: bool,
}

impl PipeRing {
    /// What holds of every ring.
    pub open spec fn wf(&self) -> bool {
        &&& self.byte_count <= self.buf@.len()
        &&& self.buf@.len() == 0 ==> self.read_pos == 0 && self.write_pos == 0
        &&& self.buf@.len() > 0 ==> self.read_pos < self.buf@.len() && self.write_pos == wrapped(
            self.read_pos + self.byte_count,
            self.buf@.len() as int,
        )
        &&& self.buf@.len() > 0 ==> self.write_pos < self.buf@.len()
    }

    /// The unread bytes, oldest first.
    pub open spec fn contents(&self) -> Seq<u8> {
        Seq::new(
            self.byte_count as nat,
            |i: int| self.buf@[wrapped(self.read_pos + i, self.buf@.len() as int)],
        )
    }

    /// The number of bytes the ring can hold.
    pub open spec fn cap(&self) -> int {
        self.buf@.len() as int
    }

    /// An empty ring.
    pub fn new(capacity: usize) -> (r: Self)
        ensures
            r.wf(),
            r.contents() == Seq::<u8>::empty(),
            r.cap() == capacity,
            !r.write_closed,
            !r.read_closed,
    {
        let r = PipeRing {
            buf: zero_vec(capacity),
            read_pos: 0,
            write_pos: 0,
            byte_count: 0,
            write_closed: false,
            read_closed: false,
        };
        assert(r.contents() =~= Seq::<u8>::empty());
        r
    }

    /// Whether there is nothing to read.
    pub fn is_empty(&self) -> (r: bool)
        ensures
            r == (self.contents().len() == 0),
    {
        self.byte_count == 0
    }

    /// Whether there is no room to write.
    pub fn is_full(&self) -> (r: bool)
        ensures
            r == (self.contents().len() == self.cap()),
    {
        self.byte_count == self.buf.len()
    }

    /// The number of unread bytes.
    pub fn available(&self) -> (r: usize)
        ensures
            r == self.contents().len(),
    {
        self.byte_count
    }

    /// The number of bytes that can still be written.
    pub fn remaining(&self) -> (r: usize)
        requires
            self.wf(),
        ensures
            r == self.cap() - self.contents().len(),
    {
        self.buf.len() - self.byte_count
    }

    /// Whether nothing but positions and bytes differ.
    pub open spec fn same_ends(&self, other: PipeRing) -> bool {
        self.write_closed == other.write_closed && self.read_closed == other.read_closed
    }

    /// Takes out as many bytes as there are, up to the length of `dst`.
    pub fn read_from(&mut self, dst: &mut [u8]) -> (n: usize)
        requires
            old(self).wf(),
        ensures
            final(self).wf(),
            n == taken(old(self).contents(), old(dst)@.len() as int).len(),
            final(dst)@ == put(
                old(dst)@,
                0,
                taken(old(self).contents(), old(dst)@.len() as int),
            ),
            final(self).contents() == old(self).contents().skip(n as int),
            final(self).cap() == old(self).cap(),
            final(self).same_ends(*old(self)),
    {
        let len: usize = self.buf.len();
        let n: usize = if dst.len() < self.byte_count {
            dst.len()
        } else {
            self.byte_count
        };
        let ghost all = self.contents();
        let ghost start = *self;
        let mut i: usize = 0;
        while i < n
            invariant
                i <= n,
                n <= start.byte_count,
                n <= dst@.len(),
                len == start.buf@.len(),
                start.wf(),
                all == start.contents(),
                self.buf == start.buf,
                self.write_pos == start.write_pos,
                self.byte_count == start.byte_count,
                self.same_ends(start),
                start == *old(self),
                len > 0 ==> self.read_pos == wrapped(start.read_pos + i, len as int) && self.read_pos
                    < len,
                len == 0 ==> self.read_pos == 0,
                dst@ == put(old(dst)@, 0, all.take(i as int)),
                dst@.len() == old(dst)@.len(),
            decreases n - i,
        {
            assert(all[i as int] == self.buf@[self.read_pos as int]);
            dst[i] = self.buf[self.read_pos];
            assert(dst@ =~= put(old(dst)@, 0, all.take(i + 1)));
            self.read_pos = if self.read_pos + 1 == len {
                0
            } else {
                self.read_pos + 1
            };
            i = i + 1;
        }
        self.byte_count = self.byte_count - n;
        proof {
            assert(self.contents() =~= all.skip(n as int));
            assert(all.take(n as int) =~= taken(all, old(dst)@.len() as int));
        }
        n
    }

    /// Puts in as many bytes as there is room for.
    pub fn write_to(&mut self, src: &[u8]) -> (n: usize)
        requires
            old(self).wf(),
        ensures
            final(self).wf(),
            n == fitting(old(self).contents(), old(self).cap(), src@).len(),
            final(self).contents() == old(self).contents() + fitting(
                old(self).contents(),
                old(self).cap(),
                src@,
            ),
            final(self).cap() == old(self).cap(),
            final(self).same_ends(*old(self)),
    {
        let len: usize = self.buf.len();
        let room: usize = len - self.byte_count;
        let n: usize = if src.len() < room {
            src.len()
        } else {
            room
        };
        let ghost start = *self;
        let ghost all = self.contents();
        let mut i: usize = 0;
        assert(all + src@.take(0) =~= all);
        while i < n
            invariant
                i <= n,
                n <= src@.len(),
                start.byte_count + n <= len,
                len == start.buf@.len(),
                self.buf@.len() == len,
                self.wf(),
                self.byte_count == start.byte_count + i,
                self.read_pos == start.read_pos,
                self.same_ends(start),
                start == *old(self),
                all == start.contents(),
                self.contents() == all + src@.take(i as int),
            decreases n - i,
        {
            let ghost before = *self;
            self.buf.set(self.write_pos, src[i]);
            self.write_pos = if self.write_pos + 1 == len {
                0
            } else {
                self.write_pos + 1
            };
            self.byte_count = self.byte_count + 1;
            proof {
                let c = self.contents();
                assert forall|k: int| 0 <= k < c.len() implies c[k] == (all + src@.take(i + 1))[k] by {
                    if k < before.byte_count {
                        assert(before.contents()[k] == (all + src@.take(i as int))[k]);
                    }
                }
                assert(c =~= all + src@.take(i + 1));
            }
            i = i + 1;
        }
        assert(src@.take(n as int) =~= fitting(all, len as int, src@));
        n
    }

    /// Changes the capacity and keeps the unread bytes. Refused where they do not fit.
    pub fn resize(&mut self, new_capacity: usize) -> (r: Result<()>)
        requires
            old(self).wf(),
        ensures
            final(self).wf(),
            final(self).contents() == old(self).contents(),
            final(self).same_ends(*old(self)),
            if new_capacity < old(self).contents().len() {
                r == Err::<(), Error>(Error::Busy) && *final(self) == *old(self)
            } else {
                r is Ok && final(self).cap() == new_capacity
            },
    {
        if new_capacity < self.byte_count {
            return Err(Error::Busy);
        }
        let ghost all = self.contents();
        let count: usize = self.byte_count;
        let mut pending = zero_vec(count);
        let _ = self.read_from(pending.as_mut_slice());
        assert(pending@ =~= all);
        let mut buf = zero_vec(new_capacity);
        write_bytes(buf.as_mut_slice(), 0, pending.as_slice());
        self.buf = buf;
        self.read_pos = 0;
        self.write_pos = if count == new_capacity {
            0
        } else {
            count
        };
        self.byte_count = count;
        assert(self.contents() =~= all);
        Ok(())
    }
}

/// The bytes that a read of up to `n` takes.
pub open spec fn taken(contents: Seq<u8>, n: int) -> Seq<u8> {
    if n < contents.len() {
        contents.take(n)
    } else {
        contents
    }
}

/// The bytes of a write that there is room for.
pub open spec fn fitting(contents: Seq<u8>, cap: int, data: Seq<u8>) -> Seq<u8> {
    if data.len() < cap - contents.len() {
        data
    } else {
        data.take(cap - contents.len())
    }
}

/// A pipe is first in, first out: once everything before it is read, a write that fits is
/// read back whole.
pub proof fn law_pipe_is_fifo(contents: Seq<u8>, cap: int, data: Seq<u8>, n: int)
    requires
        contents.len() + data.len() <= cap,
        n >= 0,
    ensures
        ({
            let after = contents + fitting(contents, cap, data);
            &&& taken(after, contents.len() as int) == contents
            &&& taken(after.skip(contents.len() as int), data.len() as int) == data
            &&& taken(after, n) + after.skip(taken(after, n).len() as int) == after
        }),
{
    let after = contents + fitting(contents, cap, data);
    assert(fitting(contents, cap, data) =~= data);
    assert(taken(after, contents.len() as int) =~= contents);
    assert(after.skip(contents.len() as int) =~= data);
    assert(taken(after, n) + after.skip(taken(after, n).len() as int) =~= after);
}

/// What became of an operation on a pipe: it is done, or it has to wait for the other end.
#[derive(Debug, Clone, Copy, PartialEq, Eq)]
pub enum Transfer {
    Done(Result<usize>),
    Wait,
}

/// The state that both ends of a pipe share.
pub struct PipeChannel {
    pub ring: PipeRing,
}

impl PipeChannel {
    /// The capacity in bytes.
    pub fn capacity(&self) -> (r: usize)
        ensures
            r == self.ring.cap(),
    {
        self.ring.buf.len()
    }

    /// Changes the capacity and keeps the unread bytes.
    pub fn resize(&mut self, new_capacity: usize) -> (r: Result<()>)
        requires
            old(self).ring.wf(),
            new_capacity > 0,
        ensures
            final(self).ring.wf(),
            final(self).ring.contents() == old(self).ring.contents(),
            final(self).ring.same_ends(old(self).ring),
            if new_capacity < old(self).ring.contents().len() {
                r == Err::<(), Error>(Error::Busy) && *final(self) == *old(self)
            } else {
                r is Ok && final(self).ring.cap() == new_capacity
            },
    {
        self.ring.resize(new_capacity)
    }
}

/// The read end of a pipe.
pub struct PipeReadEnd {
    pub nonblocking: bool,
}

/// The write end of a pipe.
pub struct PipeWriteEnd {
    pub nonblocking: bool,
}

impl PipeReadEnd {
    pub fn name(&self) -> (r: &str)
        ensures
            r@ == "pipe-read"@,
    {
        "pipe-read"
    }

    pub fn kind(&self) -> (r: NodeKind)
        ensures
            r == NodeKind::File,
    {
        NodeKind::File
    }

    /// The number of unread bytes.
    pub fn size(&self, channel: &PipeChannel) -> (r: usize)
        ensures
            r == channel.ring.contents().len(),
    {
        channel.ring.available()
    }

    pub fn pipe_capacity(&self, channel: &PipeChannel) -> (r: Option<usize>)
        ensures
            r matches Some(n) && n == channel.ring.cap(),
    {
        Some(channel.capacity())
    }

    /// Changes the capacity and keeps the unread bytes.
    pub fn set_pipe_capacity(&self, channel: &mut PipeChannel, capacity: usize) -> (r: Result<()>)
        requires
            old(channel).ring.wf(),
            capacity > 0,
        ensures
            final(channel).ring.wf(),
            final(channel).ring.contents() == old(channel).ring.contents(),
            final(channel).ring.same_ends(old(channel).ring),
            if capacity < old(channel).ring.contents().len() {
                r == Err::<(), Error>(Error::Busy) && *final(channel) == *old(channel)
            } else {
                r is Ok && final(channel).ring.cap() == capacity
            },
    {
        channel.resize(capacity)
    }

    /// Chooses whether a read that would wait reports it as busy instead.
    pub fn set_nonblocking(&mut self, nonblocking: bool) -> (r: Result<()>)
        ensures
            r is Ok,
            final(self).nonblocking == nonblocking,
    {
        self.nonblocking = nonblocking;
        Ok(())
    }

    pub fn is_nonblocking(&self) -> (r: bool)
        ensures
            r == self.nonblocking,
    {
        self.nonblocking
    }

    /// Reads what there is. With nothing there it ends if the write end is gone, and else
    /// waits, or is busy if it must not wait.
    pub fn read(&self, channel: &mut PipeChannel, _offset: u64, buffer: &mut [u8]) -> (r: Transfer)
        requires
            old(channel).ring.wf(),
        ensures
            final(channel).ring.wf(),
            final(channel).ring.cap() == old(channel).ring.cap(),
            final(channel).ring.same_ends(old(channel).ring),
            ({
                let ring = old(channel).ring;
                let all = ring.contents();
                if old(buffer)@.len() > 0 && all.len() > 0 {
                    let got = taken(all, old(buffer)@.len() as int);
                    &&& r == Transfer::Done(Ok(got.len() as usize))
                    &&& final(buffer)@ == put(old(buffer)@, 0, got)
                    &&& final(channel).ring.contents() == all.skip(got.len() as int)
                } else {
                    &&& r == if old(buffer)@.len() == 0 || ring.write_closed {
                        Transfer::Done(Ok(0))
                    } else if self.nonblocking {
                        Transfer::Done(Err(Error::Busy))
                    } else {
                        Transfer::Wait
                    }
                    &&& final(buffer)@ == old(buffer)@
                    &&& *final(channel) == *old(channel)
                }
            }),
    {
        if buffer.len() == 0 {
            return Transfer::Done(Ok(0));
        }
        if channel.ring.is_empty() {
            if channel.ring.write_closed {
                return Transfer::Done(Ok(0));
            }
            if self.nonblocking {
                return Transfer::Done(Err(Error::Busy));
            }
            return Transfer::Wait;
        }
        let n: usize = channel.ring.read_from(buffer);
        Transfer::Done(Ok(n))
    }

    /// Refused: this end only reads.
    pub fn write(&self, _offset: u64, _buffer: &[u8]) -> (r: Result<usize>)
        ensures
            r == Err::<usize, Error>(Error::PermissionDenied),
    {
        Err(Error::PermissionDenied)
    }

    /// Gives the read end up: writers will find it gone.
    pub fn close(self, channel: &mut PipeChannel)
        ensures
            *final(channel) == (PipeChannel {
                ring: PipeRing { read_closed: true, ..old(channel).ring },
            }),
    {
        channel.ring.read_closed = true;
    }
}

impl PipeWriteEnd {
    pub fn name(&self) -> (r: &str)
        ensures
            r@ == "pipe-write"@,
    {
        "pipe-write"
    }

    pub fn kind(&self) -> (r: NodeKind)
        ensures
            r == NodeKind::File,
    {
        NodeKind::File
    }

    /// The number of bytes that can still be written.
    pub fn size(&self, channel: &PipeChannel) -> (r: usize)
        requires
            channel.ring.wf(),
        ensures
            r == channel.ring.cap() - channel.ring.contents().len(),
    {
        channel.ring.remaining()
    }

    pub fn pipe_capacity(&self, channel: &PipeChannel) -> (r: Option<usize>)
        ensures
            r matches Some(n) && n == channel.ring.cap(),
    {
        Some(channel.capacity())
    }

    /// Changes the capacity and keeps the unread bytes.
    pub fn set_pipe_capacity(&self, channel: &mut PipeChannel, capacity: usize) -> (r: Result<()>)
        requires
            old(channel).ring.wf(),
            capacity > 0,
        ensures
            final(channel).ring.wf(),
            final(channel).ring.contents() == old(channel).ring.contents(),
            final(channel).ring.same_ends(old(channel).ring),
            if capacity < old(channel).ring.contents().len() {
                r == Err::<(), Error>(Error::Busy) && *final(channel) == *old(channel)
            } else {
                r is Ok && final(channel).ring.cap() == capacity
            },
    {
        channel.resize(capacity)
    }

    /// Chooses whether a write that would wait reports it as busy instead.
    pub fn set_nonblocking(&mut self, nonblocking: bool) -> (r: Result<()>)
        ensures
            r is Ok,
            final(self).nonblocking == nonblocking,
    {
        self.nonblocking = nonblocking;
        Ok(())
    }

    pub fn is_nonblocking(&self) -> (r: bool)
        ensures
            r == self.nonblocking,
    {
        self.nonblocking
    }

    /// Refused: this end only writes.
    pub fn read(&self, _offset: u64, buffer: &mut [u8]) -> (r: Result<usize>)
        ensures
            r == Err::<usize, Error>(Error::PermissionDenied),
            final(buffer)@ == old(buffer)@,
    {
        Err(Error::PermissionDenied)
    }

    /// Writes what there is room for. A write to a pipe whose read end is gone fails. With
    /// no room it waits, or is busy if it must not wait.
    pub fn write(&self, channel: &mut PipeChannel, _offset: u64, buffer: &[u8]) -> (r: Transfer)
        requires
            old(channel).ring.wf(),
        ensures
            final(channel).ring.wf(),
            final(channel).ring.cap() == old(channel).ring.cap(),
            final(channel).ring.same_ends(old(channel).ring),
            ({
                let ring = old(channel).ring;
                let all = ring.contents();
                if buffer@.len() > 0 && !ring.read_closed && all.len() < ring.cap() {
                    let put_in = fitting(all, ring.cap(), buffer@);
                    &&& r == Transfer::Done(Ok(put_in.len() as usize))
                    &&& final(channel).ring.contents() == all + put_in
                } else {
                    &&& r == if buffer@.len() == 0 {
                        Transfer::Done(Ok(0))
                    } else if ring.read_closed {
                        Transfer::Done(Err(Error::DeviceError))
                    } else if self.nonblocking {
                        Transfer::Done(Err(Error::Busy))
                    } else {
                        Transfer::Wait
                    }
                    &&& *final(channel) == *old(channel)
                }
            }),
    {
        if buffer.len() == 0 {
            return Transfer::Done(Ok(0));
        }
        if channel.ring.read_closed {
            return Transfer::Done(Err(Error::DeviceError));
        }
        if channel.ring.is_full() {
            if self.nonblocking {
                return Transfer::Done(Err(Error::Busy));
            }
            return Transfer::Wait;
        }
        let n: usize = channel.ring.write_to(buffer);
        Transfer::Done(Ok(n))
    }

    /// Gives the write end up: readers will find the end of the stream.
    pub fn close(self, channel: &mut PipeChannel)
        ensures
            *final(channel) == (PipeChannel {
                ring: PipeRing { write_closed: true, ..old(channel).ring },
            }),
    {
        channel.ring.write_closed = true;
    }
}

/// A new pipe with the default capacity: what the ends share, and the ends.
pub fn pipe_channel() -> (r: (PipeChannel, PipeReadEnd, PipeWriteEnd))
    ensures
        r.0.ring.wf(),
        r.0.ring.contents() == Seq::<u8>::empty(),
        r.0.ring.cap() == DEFAULT_PIPE_CAPACITY,
        !r.0.ring.read_closed && !r.0.ring.write_closed,
        !r.1.nonblocking && !r.2.nonblocking,
{
    pipe_channel_with_capacity(DEFAULT_PIPE_CAPACITY)
}

/// A new pipe with the given capacity.
pub fn pipe_channel_with_capacity(capacity: usize) -> (r: (PipeChannel, PipeReadEnd, PipeWriteEnd))
    requires
        capacity > 0,
    ensures
        r.0.ring.wf(),
        r.0.ring.contents() == Seq::<u8>::empty(),
        r.0.ring.cap() == capacity,
        !r.0.ring.read_closed && !r.0.ring.write_closed,
        !r.1.nonblocking && !r.2.nonblocking,
{
    (
        PipeChannel { ring: PipeRing::new(capacity) },
        PipeReadEnd { nonblocking: false },
        PipeWriteEnd { nonblocking: false },
    )
}

/// The sizes of a pipe are one page, twice as much and so on, up to a mebibyte.
pub proof fn law_pipe_sizes_double(n: int)
    ensures
        is_pipe_size(4096),
        is_pipe_size(n) ==> 4096 <= n <= 1048576,
        is_pipe_size(n) && n < 1048576 ==> is_pipe_size(2 * n),
        is_pipe_size(n) && n > 4096 ==> n % 2 == 0 && is_pipe_size(n / 2),
        is_pipe_size(1048576),
{
}

} // verus!
