//! Reading and writing the files of a filesystem in memory.
use vstd::prelude::*;

use crate::bytes::{copy_all, put, write_bytes, zero_vec};
use crate::error::{Error, Result};
use crate::order::{larger, smaller};
use crate::synthetic::readable;
use crate::tmpfs::link::{lemma_node_changed, nodes_changed};
use crate::tmpfs::state::{DataView, InodeNode, Nodes, TmpData, TmpFsInner, lemma_total_bound, node_at, node_bytes, with_node_at};
use crate::tmpfs::volume::{TmpFsVNode, TmpFsVolume, lemma_same_data};
use crate::vfs::NodeKind;

verus! {

/// Bytes cut or filled up with zeros to a length.
pub open spec fn resized(s: Seq<u8>, n: int) -> Seq<u8> {
    Seq::new(n as nat, |i: int| if i < s.len() { s[i] } else { 0u8 })
}

/// A file's bytes after a write.
pub open spec fn written(s: Seq<u8>, offset: int, b: Seq<u8>) -> Seq<u8> {
    put(resized(s, larger(s.len() as int, offset + b.len())), offset, b)
}

/// The bytes of the file with a number.
pub open spec fn file_at(nodes: Nodes, kind: NodeKind, ino: u64) -> core::result::Result<
    (InodeNode, Seq<u8>),
    Error,
> {
    if kind != NodeKind::File {
        Err(Error::InvalidArgument)
    } else {
        match node_at(nodes, ino) {
            None => Err(Error::NotFound),
            Some(n) => match n.data {
                DataView::File(d) => Ok((n, d)),
                _ => Err(Error::InvalidArgument),
            },
        }
    }
}

/// Whether a file may grow from a length to another: what all files use stays within the
/// quota, and can be counted.
pub open spec fn may_grow(s: TmpFsInner, from: int, to: int) -> bool {
    let total = s.used_size - from + to;
    total <= usize::MAX && (s.max_size > 0 ==> total <= s.max_size)
}

/// The nodes after a write at an offset.
pub open spec fn after_write(
    s: TmpFsInner,
    kind: NodeKind,
    ino: u64,
    offset: int,
    b: Seq<u8>,
    now: u64,
) -> core::result::Result<Nodes, Error> {
    match file_at(s.nodes(), kind, ino) {
        Err(e) => Err(e),
        Ok((n, d)) => if offset + b.len() > d.len() && !may_grow(
            s,
            d.len() as int,
            offset + b.len(),
        ) {
            Err(Error::OutOfMemory)
        } else {
            Ok(
                with_node_at(
                    s.nodes(),
                    ino,
                    Some(
                        InodeNode {
                            data: DataView::File(written(d, offset, b)),
                            modified: now,
                            accessed: now,
                            ..n
                        },
                    ),
                ),
            )
        },
    }
}

/// The nodes after a file was cut or grown.
pub open spec fn after_set_len(
    s: TmpFsInner,
    kind: NodeKind,
    ino: u64,
    len: int,
    now: u64,
) -> core::result::Result<Nodes, Error> {
    match file_at(s.nodes(), kind, ino) {
        Err(e) => Err(e),
        Ok((n, d)) => if len > d.len() && !may_grow(s, d.len() as int, len) {
            Err(Error::OutOfMemory)
        } else {
            Ok(
                with_node_at(
                    s.nodes(),
                    ino,
                    Some(
                        InodeNode { data: DataView::File(resized(d, len)), modified: now, ..n },
                    ),
                ),
            )
        },
    }
}

/// The outcome of an operation that reports a count.
pub open spec fn count_changed(
    a: TmpFsInner,
    b: TmpFsInner,
    nodes: core::result::Result<Nodes, Error>,
    count: int,
    r: Result<usize>,
) -> bool {
    &&& nodes_changed(
        a,
        b,
        nodes,
        match r {
            Ok(_) => Ok(()),
            Err(e) => Err(e),
        },
    )
    &&& r matches Ok(n) ==> n == count
}

fn resize_bytes(v: &mut Vec<u8>, n: usize)
    ensures
        final(v)@ == resized(old(v)@, n as int),
{
    let ghost before = v@;
    if n <= v.len() {
        v.truncate(n);
    } else {
        let mut more = zero_vec(n - v.len());
        v.append(&mut more);
    }
    assert(v@ =~= resized(before, n as int));
}

impl TmpFsInner {
    fn file_len(&self, kind: NodeKind, ino: u64) -> (r: Result<usize>)
        ensures
            match file_at(self.nodes(), kind, ino) {
                Err(e) => r matches Err(e2) && e2 == e,
                Ok((_, d)) => r matches Ok(n) && n == d.len(),
            },
    {
        if kind != NodeKind::File {
            return Err(Error::InvalidArgument);
        }
        match self.get_node(ino) {
            None => Err(Error::NotFound),
            Some(n) => match &n.data {
                TmpData::File(d) => Ok(d.len()),
                _ => Err(Error::InvalidArgument),
            },
        }
    }

    /// What all files use once a file of `from` bytes has `to`.
    fn room_for(&self, from: usize, to: u128) -> (r: Option<usize>)
        requires
            from <= self.used_size,
        ensures
            match r {
                None => !may_grow(*self, from as int, to as int),
                Some(total) => may_grow(*self, from as int, to as int) && total == self.used_size
                    - from + to,
            },
    {
        let rest: usize = self.used_size - from;
        let limit: usize = if self.max_size > 0 {
            self.max_size
        } else {
            usize::MAX
        };
        if rest > limit || to > (limit - rest) as u128 {
            None
        } else {
            Some(rest + to as usize)
        }
    }

    fn replace_file(
        &mut self,
        ino: u64,
        data: Vec<u8>,
        total: usize,
        accessed: Option<u64>,
        modified: u64,
    )
        requires
            old(self).wf(),
            node_at(old(self).nodes(), ino) matches Some(n) && n.data is File,
            total == old(self).used_size - node_bytes(node_at(old(self).nodes(), ino))
                + data@.len(),
            old(self).max_size > 0 ==> total <= old(self).max_size,
        ensures
            final(self).wf(),
            final(self).same_settings(*old(self)),
            final(self).nodes() == with_node_at(
                old(self).nodes(),
                ino,
                Some(
                    InodeNode {
                        data: DataView::File(data@),
                        modified,
                        accessed: match accessed {
                            Some(t) => t,
                            None => node_at(old(self).nodes(), ino)->Some_0.accessed,
                        },
                        ..node_at(old(self).nodes(), ino)->Some_0
                    },
                ),
            ),
    {
        let ghost start = *self;
        if let Some(n) = self.take_node(ino) {
            let mut node = n;
            node.data = TmpData::File(data);
            node.modified = modified;
            if let Some(t) = accessed {
                node.accessed = t;
            }
            let ghost view = node@;
            self.put_node(ino, node);
            self.used_size = total;
            proof {
                lemma_node_changed(start, ino, Some(view));
                assert(self.nodes() =~= with_node_at(start.nodes(), ino, Some(view)));
            }
        }
    }

    fn file_copy(&self, ino: u64) -> (r: Vec<u8>)
        requires
            node_at(self.nodes(), ino) matches Some(n) && n.data is File,
        ensures
            DataView::File(r@) == node_at(self.nodes(), ino)->Some_0.data,
    {
        match self.get_node(ino) {
            Some(n) => match &n.data {
                TmpData::File(d) => copy_all(d.as_slice()),
                _ => Vec::new(),
            },
            None => Vec::new(),
        }
    }

    fn touch(&mut self, ino: u64, now: u64)
        requires
            old(self).wf(),
            node_at(old(self).nodes(), ino) is Some,
        ensures
            final(self).wf(),
            final(self).same_settings(*old(self)),
            final(self).nodes() == with_node_at(
                old(self).nodes(),
                ino,
                Some(InodeNode { accessed: now, ..node_at(old(self).nodes(), ino)->Some_0 }),
            ),
    {
        let ghost start = *self;
        if let Some(n) = self.take_node(ino) {
            let mut node = n;
            node.accessed = now;
            let ghost view = node@;
            self.put_node(ino, node);
            proof {
                lemma_same_data(start, ino, view);
                assert(self.nodes() =~= with_node_at(start.nodes(), ino, Some(view)));
            }
        }
    }
}

/// The nodes after a read: the time of access is noted where bytes may have been read.
pub open spec fn after_read(nodes: Nodes, kind: NodeKind, ino: u64, offset: int, now: u64) -> core::result::Result<
    Nodes,
    Error,
> {
    match file_at(nodes, kind, ino) {
        Err(e) => Err(e),
        Ok((n, d)) => if offset >= d.len() {
            Ok(nodes)
        } else {
            Ok(with_node_at(nodes, ino, Some(InodeNode { accessed: now, ..n })))
        },
    }
}

/// How many bytes a read transfers.
pub open spec fn read_count(nodes: Nodes, kind: NodeKind, ino: u64, offset: int, wanted: int) -> int {
    match file_at(nodes, kind, ino) {
        Err(_) => 0,
        Ok((_, d)) => readable(d.len() as int, offset, wanted),
    }
}

impl TmpFsVNode {
    /// Reads from a file.
    pub fn read(&self, fs: &mut TmpFsVolume, offset: u64, buffer: &mut [u8], now: u64) -> (r: Result<
        usize,
    >)
        requires
            old(fs).wf(),
        ensures
            final(fs).name == old(fs).name,
            count_changed(
                old(fs).inner,
                final(fs).inner,
                after_read(old(fs).nodes(), self.kind, self.ino, offset as int, now),
                read_count(
                    old(fs).nodes(),
                    self.kind,
                    self.ino,
                    offset as int,
                    old(buffer)@.len() as int,
                ),
                r,
            ),
            match file_at(old(fs).nodes(), self.kind, self.ino) {
                Err(_) => final(buffer)@ == old(buffer)@,
                Ok((_, d)) => final(buffer)@ == put(
                    old(buffer)@,
                    0,
                    d.subrange(
                        smaller(offset as int, d.len() as int),
                        smaller(offset as int, d.len() as int) + readable(
                            d.len() as int,
                            offset as int,
                            old(buffer)@.len() as int,
                        ),
                    ),
                ),
            },
    {
        let ghost held = buffer@;
        let len: usize = fs.inner.file_len(self.kind, self.ino)?;
        if offset >= len as u64 {
            proof {
                let d = file_at(fs.nodes(), self.kind, self.ino)->Ok_0.1;
                assert(put(held, 0, d.subrange(d.len() as int, d.len() as int)) =~= held);
            }
            return Ok(0);
        }
        let from: usize = offset as usize;
        let n: usize = if buffer.len() < len - from {
            buffer.len()
        } else {
            len - from
        };
        let data = fs.inner.file_copy(self.ino);
        write_bytes(buffer, 0, vstd::slice::slice_subrange(data.as_slice(), from, from + n));
        fs.inner.touch(self.ino, now);
        Ok(n)
    }

    /// Writes to a file, which grows where it has to.
    pub fn write(&self, fs: &mut TmpFsVolume, offset: u64, buffer: &[u8], now: u64) -> (r: Result<
        usize,
    >)
        requires
            old(fs).wf(),
        ensures
            final(fs).name == old(fs).name,
            count_changed(
                old(fs).inner,
                final(fs).inner,
                after_write(
                    old(fs).inner,
                    self.kind,
                    self.ino,
                    offset as int,
                    buffer@,
                    now,
                ),
                buffer@.len() as int,
                r,
            ),
    {
        let len: usize = fs.inner.file_len(self.kind, self.ino)?;
        let end: u128 = offset as u128 + buffer.len() as u128;
        proof {
            lemma_total_bound(fs.nodes(), self.ino as int);
        }
        let mut total: usize = fs.inner.used_size;
        let mut size: usize = len;
        if end > len as u128 {
            match fs.inner.room_for(len, end) {
                None => {
                    return Err(Error::OutOfMemory);
                },
                Some(t) => {
                    total = t;
                    assert(end <= usize::MAX);
                    size = end as usize;
                },
            }
        }
        let mut data = fs.inner.file_copy(self.ino);
        resize_bytes(&mut data, size);
        write_bytes(data.as_mut_slice(), offset as usize, buffer);
        fs.inner.replace_file(self.ino, data, total, Some(now), now);
        Ok(buffer.len())
    }

    /// Cuts a file, or fills it up with zeros.
    pub fn set_len(&self, fs: &mut TmpFsVolume, new_len: u64, now: u64) -> (r: Result<()>)
        requires
            old(fs).wf(),
        ensures
            final(fs).name == old(fs).name,
            nodes_changed(
                old(fs).inner,
                final(fs).inner,
                after_set_len(old(fs).inner, self.kind, self.ino, new_len as int, now),
                r,
            ),
    {
        let len: usize = fs.inner.file_len(self.kind, self.ino)?;
        proof {
            lemma_total_bound(fs.nodes(), self.ino as int);
        }
        let total: usize;
        if new_len > len as u64 {
            match fs.inner.room_for(len, new_len as u128) {
                None => {
                    return Err(Error::OutOfMemory);
                },
                Some(t) => {
                    total = t;
                },
            }
        } else {
            total = fs.inner.used_size - len + new_len as usize;
        }
        let mut data = fs.inner.file_copy(self.ino);
        assert(new_len <= usize::MAX);
        resize_bytes(&mut data, new_len as usize);
        fs.inner.replace_file(self.ino, data, total, None, now);
        Ok(())
    }
}

} // verus!
