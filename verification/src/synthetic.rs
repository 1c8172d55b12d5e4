//! What filesystems that render kernel state have in common: texts read as files, and
//! paths of a directory and a file in it.
use vstd::prelude::*;
use vstd::string::*;
use vstd::utf8::encode_utf8;

use crate::bytes::{copy_all, put, write_bytes};
use crate::error::{Error, Result};
use crate::order::smaller;
use crate::text::chars_of;
use crate::vfs::NodeKind;

verus! {

/// How many bytes a read at an offset of `size` bytes transfers.
pub open spec fn readable(size: int, offset: int, wanted: int) -> int {
    if offset >= size {
        0
    } else if wanted < size - offset {
        wanted
    } else {
        size - offset
    }
}

/// A buffer after bytes were read into it from an offset on.
pub open spec fn filled(buffer: Seq<u8>, data: Seq<u8>, offset: int) -> Seq<u8> {
    let start = smaller(offset, data.len() as int);
    put(
        buffer,
        0,
        data.subrange(start, start + readable(data.len() as int, offset, buffer.len() as int)),
    )
}

/// Reads bytes from an offset on.
pub fn read_bytes(data: &[u8], offset: u64, buffer: &mut [u8]) -> (n: usize)
    ensures
        n == readable(data@.len() as int, offset as int, old(buffer)@.len() as int),
        final(buffer)@ == filled(old(buffer)@, data@, offset as int),
{
    let ghost held = buffer@;
    if offset >= data.len() as u64 {
        assert(filled(held, data@, offset as int) =~= held);
        return 0;
    }
    let start: usize = offset as usize;
    let n: usize = if buffer.len() < data.len() - start {
        buffer.len()
    } else {
        data.len() - start
    };
    write_bytes(buffer, 0, vstd::slice::slice_subrange(data, start, start + n));
    n
}

/// A read-only node with bytes that are produced whenever it is read.
pub struct StaticDataVNode<P> {
    pub name: &'static str,
    pub kind: NodeKind,
    pub produce: P,
}

/// Whether a read transfers what was produced.
pub open spec fn produced_read<P: Fn() -> Vec<u8>>(
    produce: P,
    data: Vec<u8>,
    offset: int,
    before: Seq<u8>,
    after: Seq<u8>,
    n: int,
) -> bool {
    &&& call_ensures(produce, (), data)
    &&& n == readable(data@.len() as int, offset, before.len() as int)
    &&& after == filled(before, data@, offset)
}

/// Whether a size is that of what was produced.
pub open spec fn produced_size<P: Fn() -> Vec<u8>>(produce: P, data: Vec<u8>, n: int) -> bool {
    call_ensures(produce, (), data) && n == data@.len()
}

impl<P: Fn() -> Vec<u8>> StaticDataVNode<P> {
    /// A file.
    pub fn new(name: &'static str, produce: P) -> (r: Self)
        ensures
            r.name@ == name@,
            r.kind == NodeKind::File,
            r.produce == produce,
    {
        StaticDataVNode { name, kind: NodeKind::File, produce }
    }

    /// The name of the node.
    pub fn name(&self) -> (r: &str)
        ensures
            r@ == self.name@,
    {
        self.name
    }

    /// What kind of node it is.
    pub fn kind(&self) -> (r: NodeKind)
        ensures
            r == self.kind,
    {
        self.kind
    }

    /// How many bytes it has.
    pub fn size(&self) -> (r: usize)
        requires
            call_requires(self.produce, ()),
        ensures
            exists|data: Vec<u8>| #[trigger] produced_size(self.produce, data, r as int),
    {
        let data = (self.produce)();
        let n: usize = data.len();
        assert(produced_size(self.produce, data, n as int));
        n
    }

    /// Reads from an offset on.
    pub fn read(&self, offset: u64, buffer: &mut [u8]) -> (r: Result<usize>)
        requires
            call_requires(self.produce, ()),
        ensures
            r is Ok,
            exists|data: Vec<u8>|
                #[trigger] produced_read(
                    self.produce,
                    data,
                    offset as int,
                    old(buffer)@,
                    final(buffer)@,
                    r->Ok_0 as int,
                ),
    {
        let ghost held = buffer@;
        let data = (self.produce)();
        let n: usize = read_bytes(data.as_slice(), offset, buffer);
        let r: Result<usize> = Ok(n);
        assert(produced_read(
            self.produce,
            data,
            offset as int,
            held,
            buffer@,
            r->Ok_0 as int,
        ));
        r
    }

    /// Refused: the node is read-only.
    pub fn write(&self, offset: u64, buffer: &[u8]) -> (r: Result<usize>)
        ensures
            r == Err::<usize, Error>(Error::PermissionDenied),
    {
        Err(Error::PermissionDenied)
    }
}

/// A path without its leading slash.
pub open spec fn mount_relative(path: Seq<char>) -> Seq<char> {
    if path.len() > 0 && path[0] == '/' {
        path.skip(1)
    } else {
        path
    }
}

/// The position of the first slash from `i` on; the length where there is none.
pub open spec fn slash_from(s: Seq<char>, i: int) -> int
    decreases s.len() - i,
{
    if i < 0 || i >= s.len() {
        s.len() as int
    } else if s[i] == '/' {
        i
    } else {
        slash_from(s, i + 1)
    }
}

/// A path at its first slash: what stands before it, and what behind it where there is one.
pub open spec fn path_halves(s: Seq<char>) -> (Seq<char>, Option<Seq<char>>) {
    let k = slash_from(s, 0);
    if k >= s.len() {
        (s, None)
    } else {
        (s.take(k), Some(s.skip(k + 1)))
    }
}

/// Drops the leading slash of a path.
pub fn without_slash<'a>(path: &'a str) -> (r: &'a str)
    ensures
        r@ == mount_relative(path@),
{
    let chars = chars_of(path);
    let n: usize = chars.len();
    if n > 0 && chars[0] == '/' {
        assert(path@.subrange(1, n as int) =~= path@.skip(1));
        path.substring_char(1, n)
    } else {
        path
    }
}

/// Splits a path at its first slash.
pub fn split_at_slash<'a>(path: &'a str) -> (r: (&'a str, Option<&'a str>))
    ensures
        r.0@ == path_halves(path@).0,
        match r.1 {
            Some(rest) => path_halves(path@).1 == Some(rest@),
            None => path_halves(path@).1 is None,
        },
{
    let chars = chars_of(path);
    let n: usize = chars.len();
    let mut i: usize = 0;
    while i < n && chars[i] != '/'
        invariant
            chars@ == path@,
            n == path@.len(),
            i <= n,
            slash_from(path@, 0) == slash_from(path@, i as int),
        decreases n - i,
    {
        i = i + 1;
    }
    if i == n {
        return (path, None);
    }
    assert(path@.subrange(0, i as int) =~= path@.take(i as int));
    assert(path@.subrange(i + 1, n as int) =~= path@.skip(i + 1));
    (path.substring_char(0, i), Some(path.substring_char(i + 1, n)))
}

/// The bytes of a text.
pub fn text_bytes(s: &str) -> (r: Vec<u8>)
    ensures
        r@ == encode_utf8(s@),
{
    copy_all(s.as_bytes())
}

proof fn lemma_slash_none(s: Seq<char>, i: int)
    requires
        0 <= i <= s.len(),
        !s.contains('/'),
    ensures
        slash_from(s, i) == s.len(),
    decreases s.len() - i,
{
    if i < s.len() {
        assert(s.contains(s[i]));
        lemma_slash_none(s, i + 1);
    }
}

/// A name without a slash is a path of one half.
pub proof fn lemma_single_name(s: Seq<char>)
    requires
        !s.contains('/'),
    ensures
        mount_relative(s) == s,
        path_halves(s) == (s, None::<Seq<char>>),
{
    lemma_slash_none(s, 0);
    if s.len() > 0 {
        assert(s.contains(s[0]));
    }
}

} // verus!
