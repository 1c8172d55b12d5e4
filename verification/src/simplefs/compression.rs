//! The stream that a compressed file's blocks hold.
//!
//! A stream starts with a magic number and the number of chunks, then says where each
//! chunk starts and where the last one ends, and then holds the chunks. Every chunk is
//! one page of the file under a page codec, so that a read only has to decompress the
//! pages it touches. The codec is handed in.
use vstd::prelude::*;

use crate::bytes::{copy_range, get_u32, le32, lemma_le32_round_trip, put, u32_at, write_bytes, write_u32, zero_vec};
use crate::error::{Error, Result};
use crate::simplefs::constants::{COMPRESSED_CHUNK_SIZE, COMPRESSED_MAGIC};

verus! {

/// The number of chunks of a file.
pub open spec fn chunk_span(len: int) -> int {
    (len + 4095) / 4096
}

/// Page `index` of a file, filled up with zeros.
pub open spec fn page_of(contents: Seq<u8>, index: int) -> Seq<u8> {
    Seq::new(
        4096,
        |i: int|
            if index * 4096 + i < contents.len() {
                contents[index * 4096 + i]
            } else {
                0u8
            },
    )
}

/// Page `index` of a file, as the codec takes it.
pub fn file_page(contents: &[u8], index: usize) -> (r: Vec<u8>)
    requires
        index < chunk_span(contents@.len() as int),
    ensures
        r@ == page_of(contents@, index as int),
{
    let len: usize = contents.len();
    let start: usize = index * COMPRESSED_CHUNK_SIZE;
    let end: usize = if len - start > COMPRESSED_CHUNK_SIZE {
        start + COMPRESSED_CHUNK_SIZE
    } else {
        len
    };
    let piece = copy_range(contents, start, end);
    let mut page = zero_vec(COMPRESSED_CHUNK_SIZE);
    write_bytes(page.as_mut_slice(), 0, piece.as_slice());
    assert(page@ =~= page_of(contents@, index as int));
    page
}

/// The bytes of the first `k` chunks together.
pub open spec fn chunks_len(chunks: Seq<Vec<u8>>, k: int) -> int
    decreases k,
{
    if k <= 0 {
        0
    } else {
        chunks_len(chunks, k - 1) + chunks[k - 1]@.len()
    }
}

/// The offsets of the first `k` chunks, as bytes.
pub open spec fn offset_bytes(chunks: Seq<Vec<u8>>, k: int) -> Seq<u8>
    decreases k,
{
    if k <= 0 {
        Seq::empty()
    } else {
        offset_bytes(chunks, k - 1) + le32(chunks_len(chunks, k - 1) as u32)
    }
}

/// The first `k` chunks, one after the other.
pub open spec fn chunk_bytes(chunks: Seq<Vec<u8>>, k: int) -> Seq<u8>
    decreases k,
{
    if k <= 0 {
        Seq::empty()
    } else {
        chunk_bytes(chunks, k - 1) + chunks[k - 1]@
    }
}

/// The stream of a list of chunks.
pub open spec fn stream_of(chunks: Seq<Vec<u8>>) -> Seq<u8> {
    le32(COMPRESSED_MAGIC) + le32(chunks.len() as u32) + offset_bytes(
        chunks,
        chunks.len() as int + 1,
    ) + chunk_bytes(chunks, chunks.len() as int)
}

proof fn lemma_stream_lens(chunks: Seq<Vec<u8>>, k: int)
    ensures
        0 <= k ==> offset_bytes(chunks, k).len() == 4 * k,
        0 <= k ==> chunk_bytes(chunks, k).len() == chunks_len(chunks, k),
        0 <= chunks_len(chunks, k),
    decreases k,
{
    if k > 0 {
        lemma_stream_lens(chunks, k - 1);
    }
}

proof fn lemma_chunks_grow(chunks: Seq<Vec<u8>>, a: int, b: int)
    requires
        0 <= a <= b,
    ensures
        0 <= chunks_len(chunks, a) <= chunks_len(chunks, b),
    decreases b,
{
    lemma_stream_lens(chunks, a);
    if a < b {
        lemma_chunks_grow(chunks, a, b - 1);
    }
}

fn push_u32(out: &mut Vec<u8>, v: u32)
    ensures
        final(out)@ == old(out)@ + le32(v),
{
    let mut four = zero_vec(4);
    write_u32(four.as_mut_slice(), 0, v);
    assert(four@ =~= le32(v));
    out.append(&mut four);
}

/// Writes chunks as a stream, unless the stream would be too long for its offsets.
pub fn encode_stream(chunks: &Vec<Vec<u8>>) -> (r: Option<Vec<u8>>)
    ensures
        match r {
            Some(v) => v@ == stream_of(chunks@) && chunks@.len() <= u32::MAX && chunks_len(
                chunks@,
                chunks@.len() as int,
            ) <= u32::MAX,
            None => chunks@.len() > u32::MAX || chunks_len(chunks@, chunks@.len() as int)
                > u32::MAX,
        },
{
    let count: usize = chunks.len();
    if count as u64 > u32::MAX as u64 {
        return None;
    }
    let ghost all = chunks@;
    let mut out: Vec<u8> = Vec::new();
    push_u32(&mut out, COMPRESSED_MAGIC);
    push_u32(&mut out, count as u32);
    let ghost head = out@;
    assert(head =~= le32(COMPRESSED_MAGIC) + le32(count as u32));
    let mut cursor: u32 = 0;
    let mut k: usize = 0;
    assert(out@ =~= head + offset_bytes(all, 0));
    while k < count
        invariant
            k <= count,
            count == all.len(),
            all == chunks@,
            cursor == chunks_len(all, k as int),
            out@ == head + offset_bytes(all, k as int),
        decreases count - k,
    {
        push_u32(&mut out, cursor);
        assert(head + offset_bytes(all, k as int) + le32(cursor) =~= head + offset_bytes(
            all,
            k + 1,
        ));
        let len: usize = chunks[k].len();
        if len as u64 > (u32::MAX - cursor) as u64 {
            proof {
                lemma_chunks_grow(all, k + 1, count as int);
            }
            return None;
        }
        cursor = cursor + len as u32;
        k = k + 1;
    }
    push_u32(&mut out, cursor);
    let ghost table = head + offset_bytes(all, count + 1);
    assert(out@ =~= table);
    let mut j: usize = 0;
    assert(out@ =~= table + chunk_bytes(all, 0));
    while j < count
        invariant
            j <= count,
            count == all.len(),
            all == chunks@,
            out@ == table + chunk_bytes(all, j as int),
        decreases count - j,
    {
        let mut piece = copy_range(chunks[j].as_slice(), 0, chunks[j].len());
        assert(piece@ =~= all[j as int]@);
        out.append(&mut piece);
        assert(table + chunk_bytes(all, j as int) + all[j as int]@ =~= table + chunk_bytes(
            all,
            j + 1,
        ));
        j = j + 1;
    }
    assert(out@ =~= stream_of(all));
    Some(out)
}

/// The number of chunks of a stream, or why it is none.
pub open spec fn stream_chunks(s: Seq<u8>) -> core::result::Result<int, Error> {
    if s.len() < 8 || u32_at(s, 0) != COMPRESSED_MAGIC || s.len() < 8 + (u32_at(s, 4) + 1) * 4 {
        Err(Error::InvalidArgument)
    } else {
        Ok(u32_at(s, 4) as int)
    }
}

/// Where chunk `index` of a stream lies, or why it cannot be found.
pub open spec fn chunk_range(s: Seq<u8>, index: int) -> core::result::Result<(int, int), Error> {
    match stream_chunks(s) {
        Err(e) => Err(e),
        Ok(count) => {
            let start = 8 + (count + 1) * 4;
            let from = start + u32_at(s, 8 + index * 4);
            let to = start + u32_at(s, 12 + index * 4);
            if index >= count || from > to || to > s.len() {
                Err(Error::InvalidArgument)
            } else {
                Ok((from, to))
            }
        },
    }
}

/// The number of chunks of a stream.
pub fn read_stream_header(encoded: &[u8]) -> (r: Result<usize>)
    ensures
        match r {
            Ok(n) => stream_chunks(encoded@) == Ok::<int, Error>(n as int),
            Err(e) => stream_chunks(encoded@) == Err::<int, Error>(e),
        },
{
    let len: usize = encoded.len();
    if len < 8 {
        return Err(Error::InvalidArgument);
    }
    if get_u32(encoded, 0) != COMPRESSED_MAGIC {
        return Err(Error::InvalidArgument);
    }
    let count: u32 = get_u32(encoded, 4);
    if (len as u64) < 8 + (count as u64 + 1) * 4 {
        return Err(Error::InvalidArgument);
    }
    Ok(count as usize)
}

/// A chunk of a stream, as the codec takes it.
pub fn chunk_at(encoded: &[u8], index: usize) -> (r: Result<Vec<u8>>)
    ensures
        match r {
            Ok(v) => chunk_range(encoded@, index as int) is Ok && v@ == encoded@.subrange(
                chunk_range(encoded@, index as int)->Ok_0.0,
                chunk_range(encoded@, index as int)->Ok_0.1,
            ),
            Err(e) => chunk_range(encoded@, index as int) == Err::<(int, int), Error>(e),
        },
{
    let count = read_stream_header(encoded)?;
    if index >= count {
        return Err(Error::InvalidArgument);
    }
    let total: u64 = encoded.len() as u64;
    let start: u64 = 8 + (count as u64 + 1) * 4;
    let from: u64 = start + get_u32(encoded, 8 + index * 4) as u64;
    let to: u64 = start + get_u32(encoded, 12 + index * 4) as u64;
    if from > to || to > total {
        return Err(Error::InvalidArgument);
    }
    Ok(copy_range(encoded, from as usize, to as usize))
}

proof fn lemma_number_at(s: Seq<u8>, off: int, v: u32)
    requires
        0 <= off,
        off + 4 <= s.len(),
        s.subrange(off, off + 4) == le32(v),
    ensures
        u32_at(s, off) == v,
{
    assert forall|i: int| 0 <= i < 4 implies s[off + i] == le32(v)[i] by {
        assert(s.subrange(off, off + 4)[i] == s[off + i]);
    }
    assert(put(s, off, le32(v)) =~= s);
    lemma_le32_round_trip(s, off, v);
}

proof fn lemma_stream_head(chunks: Seq<Vec<u8>>)
    requires
        chunks.len() <= u32::MAX,
    ensures
        stream_chunks(stream_of(chunks)) == Ok::<int, Error>(chunks.len() as int),
        stream_of(chunks).len() == 12 + 4 * chunks.len() + chunks_len(chunks, chunks.len() as int),
{
    let n = chunks.len() as int;
    let s = stream_of(chunks);
    lemma_stream_lens(chunks, n);
    lemma_stream_lens(chunks, n + 1);
    assert(s.subrange(0, 4) =~= le32(COMPRESSED_MAGIC));
    assert(s.subrange(4, 8) =~= le32(n as u32));
    lemma_number_at(s, 0, COMPRESSED_MAGIC);
    lemma_number_at(s, 4, n as u32);
}

proof fn lemma_stream_offset(chunks: Seq<Vec<u8>>, index: int)
    requires
        0 <= index <= chunks.len() <= u32::MAX,
        chunks_len(chunks, chunks.len() as int) <= u32::MAX,
    ensures
        u32_at(stream_of(chunks), 8 + index * 4) == chunks_len(chunks, index),
{
    let n = chunks.len() as int;
    let s = stream_of(chunks);
    lemma_stream_lens(chunks, n);
    lemma_stream_lens(chunks, n + 1);
    lemma_chunks_grow(chunks, index, n);
    lemma_offset_at(chunks, index, n + 1);
    assert(s.subrange(8 + index * 4, 8 + index * 4 + 4) =~= offset_bytes(chunks, n + 1).subrange(
        index * 4,
        index * 4 + 4,
    ));
    lemma_number_at(s, 8 + index * 4, chunks_len(chunks, index) as u32);
}

/// A chunk of a stream that was written is the chunk that went into it.
pub proof fn law_stream_keeps_chunks(chunks: Seq<Vec<u8>>, index: int)
    requires
        0 <= index < chunks.len() <= u32::MAX,
        chunks_len(chunks, chunks.len() as int) <= u32::MAX,
    ensures
        ({
            let s = stream_of(chunks);
            &&& stream_chunks(s) == Ok::<int, Error>(chunks.len() as int)
            &&& chunk_range(s, index) is Ok
            &&& s.subrange(chunk_range(s, index)->Ok_0.0, chunk_range(s, index)->Ok_0.1)
                == chunks[index]@
        }),
{
    let n = chunks.len() as int;
    let s = stream_of(chunks);
    lemma_stream_head(chunks);
    lemma_stream_offset(chunks, index);
    lemma_stream_offset(chunks, index + 1);
    lemma_chunks_grow(chunks, index, index + 1);
    lemma_chunks_grow(chunks, index + 1, n);
    lemma_chunk_at(chunks, index, n);
    lemma_stream_lens(chunks, n);
    lemma_stream_lens(chunks, n + 1);
    let start = 8 + (n + 1) * 4;
    let from = chunks_len(chunks, index);
    let to = chunks_len(chunks, index + 1);
    assert(12 + index * 4 == 8 + (index + 1) * 4);
    assert(s.subrange(start + from, start + to) =~= chunk_bytes(chunks, n).subrange(from, to));
}

proof fn lemma_offset_at(chunks: Seq<Vec<u8>>, index: int, n: int)
    requires
        0 <= index < n,
    ensures
        offset_bytes(chunks, n).len() == 4 * n,
        offset_bytes(chunks, n).subrange(index * 4, index * 4 + 4) == le32(
            chunks_len(chunks, index) as u32,
        ),
    decreases n,
{
    lemma_stream_lens(chunks, n);
    lemma_stream_lens(chunks, n - 1);
    let all = offset_bytes(chunks, n);
    let before = offset_bytes(chunks, n - 1);
    if index == n - 1 {
        assert(all.subrange(index * 4, index * 4 + 4) =~= le32(chunks_len(chunks, index) as u32));
    } else {
        lemma_offset_at(chunks, index, n - 1);
        assert(all.subrange(index * 4, index * 4 + 4) =~= before.subrange(
            index * 4,
            index * 4 + 4,
        ));
    }
}

proof fn lemma_chunk_at(chunks: Seq<Vec<u8>>, index: int, n: int)
    requires
        0 <= index < n,
    ensures
        0 <= chunks_len(chunks, index) <= chunks_len(chunks, index + 1) <= chunk_bytes(
            chunks,
            n,
        ).len(),
        chunk_bytes(chunks, n).subrange(
            chunks_len(chunks, index),
            chunks_len(chunks, index + 1),
        ) == chunks[index]@,
    decreases n,
{
    lemma_stream_lens(chunks, n);
    lemma_stream_lens(chunks, n - 1);
    lemma_stream_lens(chunks, index);
    lemma_chunks_grow(chunks, index, index + 1);
    lemma_chunks_grow(chunks, index + 1, n);
    let from = chunks_len(chunks, index);
    let to = chunks_len(chunks, index + 1);
    if index == n - 1 {
        assert(chunk_bytes(chunks, n).subrange(from, to) =~= chunks[index]@);
    } else {
        lemma_chunk_at(chunks, index, n - 1);
        assert(chunk_bytes(chunks, n).subrange(from, to) =~= chunk_bytes(
            chunks,
            n - 1,
        ).subrange(from, to));
    }
}

/// What the codec makes of the chunks from `first` on: the page of each, or nothing
/// where it refused one.
pub open spec fn pages_ok(
    s: Seq<u8>,
    pages: Seq<Option<Vec<u8>>>,
    first: int,
    k: int,
) -> core::result::Result<(), Error>
    decreases k,
{
    if k <= 0 {
        Ok(())
    } else {
        match pages_ok(s, pages, first, k - 1) {
            Err(e) => Err(e),
            Ok(()) => match chunk_range(s, first + k - 1) {
                Err(e) => Err(e),
                Ok(_) => if pages[k - 1] is None {
                    Err(Error::DeviceError)
                } else {
                    Ok(())
                },
            },
        }
    }
}

/// Bytes `offset..offset + count` of a compressed file, given what the codec makes of
/// the chunks they lie in.
pub open spec fn decoded(
    s: Seq<u8>,
    offset: int,
    count: int,
    pages: Seq<Option<Vec<u8>>>,
) -> core::result::Result<Seq<u8>, Error> {
    let first = offset / 4096;
    let last = chunk_span(offset + count);
    match stream_chunks(s) {
        Err(e) => Err(e),
        Ok(chunks) => if count == 0 {
            Ok(Seq::empty())
        } else if last > chunks {
            Err(Error::InvalidArgument)
        } else {
            match pages_ok(s, pages, first, last - first) {
                Err(e) => Err(e),
                Ok(()) => Ok(
                    Seq::new(
                        count as nat,
                        |i: int|
                            pages[(offset + i) / 4096 - first]->0@[(offset + i) % 4096],
                    ),
                ),
            }
        },
    }
}

proof fn lemma_pages_fail(s: Seq<u8>, pages: Seq<Option<Vec<u8>>>, first: int, k: int, n: int)
    requires
        0 <= k <= n,
        pages_ok(s, pages, first, k) is Err,
    ensures
        pages_ok(s, pages, first, n) == pages_ok(s, pages, first, k),
    decreases n,
{
    if k < n {
        lemma_pages_fail(s, pages, first, k, n - 1);
    }
}

/// Bytes `offset..offset + count` of a compressed file. `pages` holds what the codec
/// makes of each chunk the bytes lie in, in order.
pub fn decode_pages(encoded: &[u8], offset: usize, count: usize, pages: &Vec<Option<Vec<u8>>>) -> (r:
    Result<Vec<u8>>)
    requires
        offset + count <= usize::MAX,
        count > 0 ==> pages@.len() == chunk_span(offset + count) - offset as int / 4096,
        forall|k: int|
            #![trigger pages@[k]]
            0 <= k < pages@.len() && pages@[k] is Some ==> pages@[k]->0@.len() == 4096,
    ensures
        match r {
            Ok(v) => decoded(encoded@, offset as int, count as int, pages@) == Ok::<
                Seq<u8>,
                Error,
            >(v@),
            Err(e) => decoded(encoded@, offset as int, count as int, pages@) == Err::<
                Seq<u8>,
                Error,
            >(e),
        },
{
    let chunks = read_stream_header(encoded)?;
    if count == 0 {
        let out: Vec<u8> = Vec::new();
        assert(out@ =~= Seq::<u8>::empty());
        return Ok(out);
    }
    let first: usize = offset / COMPRESSED_CHUNK_SIZE;
    let last: usize = (offset + count - 1) / COMPRESSED_CHUNK_SIZE + 1;
    if last > chunks {
        return Err(Error::InvalidArgument);
    }
    let mut index: usize = first;
    while index < last
        invariant
            first <= index <= last,
            last <= chunks,
            last == chunk_span(offset + count),
            first == offset as int / 4096,
            count > 0,
            pages@.len() == last - first,
            stream_chunks(encoded@) == Ok::<int, Error>(chunks as int),
            pages_ok(encoded@, pages@, first as int, index - first) is Ok,
        decreases last - index,
    {
        let k: usize = index - first;
        match chunk_at(encoded, index) {
            Ok(_) => {},
            Err(error) => {
                proof {
                    assert(pages_ok(encoded@, pages@, first as int, k + 1) is Err);
                    lemma_pages_fail(encoded@, pages@, first as int, k + 1, last - first);
                }
                return Err(error);
            },
        }
        if pages[k].is_none() {
            proof {
                assert(pages_ok(encoded@, pages@, first as int, k + 1) is Err);
                lemma_pages_fail(encoded@, pages@, first as int, k + 1, last - first);
            }
            return Err(Error::DeviceError);
        }
        index = index + 1;
    }
    proof {
        lemma_all_pages(encoded@, pages@, first as int, last - first);
    }
    let mut out: Vec<u8> = Vec::new();
    let mut i: usize = 0;
    while i < count
        invariant
            i <= count,
            out@.len() == i,
            offset + count <= usize::MAX,
            last == chunk_span(offset + count),
            first == offset as int / 4096,
            pages@.len() == last - first,
            forall|k: int|
                #![trigger pages@[k]]
                0 <= k < pages@.len() ==> pages@[k] is Some && pages@[k]->0@.len() == 4096,
            forall|j: int|
                #![trigger out@[j]]
                0 <= j < i ==> out@[j] == pages@[(offset + j) / 4096 - first]->0@[(offset + j)
                    % 4096],
        decreases count - i,
    {
        let at: usize = offset + i;
        let k: usize = at / COMPRESSED_CHUNK_SIZE - first;
        assert(pages@[k as int] is Some);
        match &pages[k] {
            Some(page) => {
                out.push(page[at % COMPRESSED_CHUNK_SIZE]);
            },
            None => {
                return Err(Error::DeviceError);
            },
        }
        i = i + 1;
    }
    proof {
        let whole = decoded(encoded@, offset as int, count as int, pages@)->Ok_0;
        assert(out@ =~= whole);
    }
    Ok(out)
}

proof fn lemma_all_pages(s: Seq<u8>, pages: Seq<Option<Vec<u8>>>, first: int, n: int)
    requires
        pages_ok(s, pages, first, n) is Ok,
    ensures
        forall|k: int| #![trigger pages[k]] 0 <= k < n ==> pages[k] is Some,
    decreases n,
{
    if n > 0 {
        lemma_all_pages(s, pages, first, n - 1);
    }
}

/// Whether a codec can make this chunk of a page.
pub open spec fn compresses<C: Fn(&[u8]) -> Vec<u8>>(
    codec: C,
    page: Seq<u8>,
    chunk: Seq<u8>,
) -> bool {
    exists|p: &[u8], o: Vec<u8>| p@ == page && o@ == chunk && #[trigger] call_ensures(codec, (p,), o)
}

/// Whether these are chunks that a codec made of the first pages of a file.
pub open spec fn chunks_of<C: Fn(&[u8]) -> Vec<u8>>(
    codec: C,
    contents: Seq<u8>,
    chunks: Seq<Vec<u8>>,
) -> bool {
    forall|k: int|
        #![trigger chunks[k]]
        0 <= k < chunks.len() ==> compresses(codec, page_of(contents, k), chunks[k]@)
}

/// Whether this is the stream of a file whose pages the codec made these chunks of:
/// nothing where the stream would be too long for its offsets.
pub open spec fn encoded_as<C: Fn(&[u8]) -> Vec<u8>>(
    codec: C,
    contents: Seq<u8>,
    chunks: Seq<Vec<u8>>,
    r: Option<Vec<u8>>,
) -> bool {
    &&& chunks.len() == chunk_span(contents.len() as int)
    &&& chunks_of(codec, contents, chunks)
    &&& match r {
        Some(v) => v@ == stream_of(chunks) && chunks.len() <= u32::MAX && chunks_len(
            chunks,
            chunks.len() as int,
        ) <= u32::MAX,
        None => chunks.len() > u32::MAX || chunks_len(chunks, chunks.len() as int) > u32::MAX,
    }
}

/// Compresses a file page by page.
pub fn encode_file<C: Fn(&[u8]) -> Vec<u8>>(contents: &[u8], compress: C) -> (r: Option<Vec<u8>>)
    requires
        forall|page: &[u8]| #[trigger] call_requires(compress, (page,)),
    ensures
        exists|chunks: Seq<Vec<u8>>| #[trigger] encoded_as(compress, contents@, chunks, r),
{
    let len: usize = contents.len();
    let count: usize = if len == 0 {
        0
    } else {
        (len - 1) / COMPRESSED_CHUNK_SIZE + 1
    };
    let mut chunks: Vec<Vec<u8>> = Vec::new();
    let mut index: usize = 0;
    while index < count
        invariant
            index <= count,
            count == chunk_span(contents@.len() as int),
            chunks@.len() == index,
            chunks_of(compress, contents@, chunks@),
            forall|page: &[u8]| #[trigger] call_requires(compress, (page,)),
        decreases count - index,
    {
        let page = file_page(contents, index);
        let chunk = compress(page.as_slice());
        assert(compresses(compress, page_of(contents@, index as int), chunk@));
        let ghost before = chunks@;
        let ghost made = chunk;
        chunks.push(chunk);
        assert forall|k: int| #![trigger chunks@[k]] 0 <= k < chunks@.len() implies compresses(
            compress,
            page_of(contents@, k),
            chunks@[k]@,
        ) by {
            assert(chunks@[k] == if k < index {
                before[k]
            } else {
                made
            });
        }
        index = index + 1;
    }
    let r = encode_stream(&chunks);
    assert(encoded_as(compress, contents@, chunks@, r));
    r
}

/// Whether a codec can make this page, or nothing, of a chunk.
pub open spec fn decompresses<Z: Fn(&[u8]) -> Option<Vec<u8>>>(
    codec: Z,
    chunk: Seq<u8>,
    page: Option<Vec<u8>>,
) -> bool {
    exists|p: &[u8]| p@ == chunk && #[trigger] call_ensures(codec, (p,), page)
}

/// Whether these are the pages that a codec made of the chunks from `first` on, up to
/// the first chunk that is malformed or that the codec refused.
pub open spec fn pages_from<Z: Fn(&[u8]) -> Option<Vec<u8>>>(
    codec: Z,
    s: Seq<u8>,
    first: int,
    pages: Seq<Option<Vec<u8>>>,
) -> bool {
    forall|k: int|
        #![trigger pages[k]]
        0 <= k < pages.len() && pages_ok(s, pages, first, k) is Ok && chunk_range(s, first + k) is Ok
            ==> decompresses(
            codec,
            s.subrange(chunk_range(s, first + k)->Ok_0.0, chunk_range(s, first + k)->Ok_0.1),
            pages[k],
        )
}

/// Whether these are all the pages that a read of `count` bytes from `offset` on needs.
pub open spec fn unpacked<Z: Fn(&[u8]) -> Option<Vec<u8>>>(
    codec: Z,
    s: Seq<u8>,
    offset: int,
    count: int,
    pages: Seq<Option<Vec<u8>>>,
) -> bool {
    &&& count > 0 ==> pages.len() == chunk_span(offset + count) - offset / 4096
    &&& match stream_chunks(s) {
        Ok(n) => count > 0 && chunk_span(offset + count) <= n ==> pages_from(
            codec,
            s,
            offset / 4096,
            pages,
        ),
        Err(_) => true,
    }
}

proof fn lemma_pages_push(
    s: Seq<u8>,
    pages: Seq<Option<Vec<u8>>>,
    page: Option<Vec<u8>>,
    first: int,
    k: int,
)
    requires
        k <= pages.len(),
    ensures
        pages_ok(s, pages.push(page), first, k) == pages_ok(s, pages, first, k),
    decreases k,
{
    if k > 0 {
        lemma_pages_push(s, pages, page, first, k - 1);
        assert(pages.push(page)[k - 1] == pages[k - 1]);
    }
}

proof fn lemma_pages_extend<Z: Fn(&[u8]) -> Option<Vec<u8>>>(
    codec: Z,
    s: Seq<u8>,
    first: int,
    pages: Seq<Option<Vec<u8>>>,
    page: Option<Vec<u8>>,
)
    requires
        pages_from(codec, s, first, pages),
        pages_ok(s, pages, first, pages.len() as int) is Ok && chunk_range(
            s,
            first + pages.len(),
        ) is Ok ==> decompresses(
            codec,
            s.subrange(
                chunk_range(s, first + pages.len())->Ok_0.0,
                chunk_range(s, first + pages.len())->Ok_0.1,
            ),
            page,
        ),
    ensures
        pages_from(codec, s, first, pages.push(page)),
{
    let all = pages.push(page);
    assert forall|k: int|
        #![trigger all[k]]
        0 <= k < all.len() && pages_ok(s, all, first, k) is Ok && chunk_range(s, first + k) is Ok
        implies decompresses(
        codec,
        s.subrange(chunk_range(s, first + k)->Ok_0.0, chunk_range(s, first + k)->Ok_0.1),
        all[k],
    ) by {
        lemma_pages_push(s, pages, page, first, k);
        if k < pages.len() {
            assert(all[k] == pages[k]);
        }
    }
}

fn unpack_pages<Z: Fn(&[u8]) -> Option<Vec<u8>>>(
    encoded: &[u8],
    first: usize,
    last: usize,
    decompress: &Z,
) -> (pages: Vec<Option<Vec<u8>>>)
    requires
        first <= last,
        forall|chunk: &[u8]| #[trigger] call_requires(*decompress, (chunk,)),
        forall|chunk: &[u8], page: Option<Vec<u8>>| #[trigger]
            call_ensures(*decompress, (chunk,), page) && page is Some ==> page->0@.len() == 4096,
    ensures
        pages@.len() == last - first,
        pages_from(*decompress, encoded@, first as int, pages@),
        forall|k: int|
            #![trigger pages@[k]]
            0 <= k < pages@.len() && pages@[k] is Some ==> pages@[k]->0@.len() == 4096,
{
    let mut pages: Vec<Option<Vec<u8>>> = Vec::new();
    let mut stopped = false;
    let mut index: usize = first;
    while index < last
        invariant
            first <= index <= last,
            pages@.len() == index - first,
            stopped ==> pages_ok(encoded@, pages@, first as int, index - first) is Err,
            pages_from(*decompress, encoded@, first as int, pages@),
            forall|k: int|
                #![trigger pages@[k]]
                0 <= k < pages@.len() && pages@[k] is Some ==> pages@[k]->0@.len() == 4096,
            forall|chunk: &[u8]| #[trigger] call_requires(*decompress, (chunk,)),
            forall|chunk: &[u8], page: Option<Vec<u8>>| #[trigger]
                call_ensures(*decompress, (chunk,), page) && page is Some ==> page->0@.len()
                    == 4096,
        decreases last - index,
    {
        let mut page: Option<Vec<u8>> = None;
        if !stopped {
            match chunk_at(encoded, index) {
                Err(_) => {
                    stopped = true;
                },
                Ok(chunk) => {
                    page = decompress(chunk.as_slice());
                    if page.is_none() {
                        stopped = true;
                    }
                    assert(decompresses(*decompress, chunk@, page));
                },
            }
        }
        proof {
            lemma_pages_extend(*decompress, encoded@, first as int, pages@, page);
            lemma_pages_push(encoded@, pages@, page, first as int, index - first);
            assert(pages@.push(page)[index - first] == page);
        }
        let ghost before = pages@;
        let ghost made = page;
        pages.push(page);
        assert forall|k: int|
            #![trigger pages@[k]]
            0 <= k < pages@.len() && pages@[k] is Some implies pages@[k]->0@.len() == 4096 by {
            assert(pages@[k] == if k < index - first {
                before[k]
            } else {
                made
            });
        }
        index = index + 1;
    }
    pages
}

/// Pages none of which was decompressed.
spec fn unread(n: int) -> Seq<Option<Vec<u8>>> {
    Seq::new(n as nat, |k: int| None)
}

/// Whether `r` is what reading gives with these pages.
pub open spec fn decoded_as(
    s: Seq<u8>,
    offset: int,
    count: int,
    pages: Seq<Option<Vec<u8>>>,
    r: Result<Vec<u8>>,
) -> bool {
    match r {
        Ok(v) => decoded(s, offset, count, pages) == Ok::<Seq<u8>, Error>(v@),
        Err(e) => decoded(s, offset, count, pages) == Err::<Seq<u8>, Error>(e),
    }
}

/// Reads bytes `offset..offset + count` of a compressed file, decompressing only the
/// chunks they lie in.
pub fn decode_file<Z: Fn(&[u8]) -> Option<Vec<u8>>>(
    encoded: &[u8],
    offset: usize,
    count: usize,
    decompress: Z,
) -> (r: Result<Vec<u8>>)
    requires
        offset + count <= usize::MAX,
        forall|chunk: &[u8]| #[trigger] call_requires(decompress, (chunk,)),
        forall|chunk: &[u8], page: Option<Vec<u8>>| #[trigger]
            call_ensures(decompress, (chunk,), page) && page is Some ==> page->0@.len() == 4096,
    ensures
        exists|pages: Seq<Option<Vec<u8>>>| #[trigger]
            decoded_as(encoded@, offset as int, count as int, pages, r) && unpacked(
                decompress,
                encoded@,
                offset as int,
                count as int,
                pages,
            ),
{
    let chunks = read_stream_header(encoded);
    let mut pages: Vec<Option<Vec<u8>>> = Vec::new();
    if count > 0 {
        let first: usize = offset / COMPRESSED_CHUNK_SIZE;
        let last: usize = (offset + count - 1) / COMPRESSED_CHUNK_SIZE + 1;
        match chunks {
            Ok(n) if last <= n => {
                pages = unpack_pages(encoded, first, last, &decompress);
            },
            Ok(_) => {
                let r: Result<Vec<u8>> = Err(Error::InvalidArgument);
                assert(decoded_as(encoded@, offset as int, count as int, unread(last - first), r));
                return r;
            },
            Err(e) => {
                let r: Result<Vec<u8>> = Err(e);
                assert(decoded_as(encoded@, offset as int, count as int, unread(last - first), r));
                return r;
            },
        }
    }
    let r = decode_pages(encoded, offset, count, &pages);
    assert(decoded_as(encoded@, offset as int, count as int, pages@, r));
    r
}

proof fn lemma_written_pages_ok(
    chunks: Seq<Vec<u8>>,
    pages: Seq<Option<Vec<u8>>>,
    first: int,
    k: int,
)
    requires
        0 <= first,
        0 <= k <= pages.len(),
        first + k <= chunks.len() <= u32::MAX,
        chunks_len(chunks, chunks.len() as int) <= u32::MAX,
        forall|j: int| #![trigger pages[j]] 0 <= j < pages.len() ==> pages[j] is Some,
    ensures
        pages_ok(stream_of(chunks), pages, first, k) is Ok,
    decreases k,
{
    if k > 0 {
        lemma_written_pages_ok(chunks, pages, first, k - 1);
        law_stream_keeps_chunks(chunks, first + k - 1);
        assert(pages[k - 1] is Some);
    }
}

/// A compressed file reads back as it was wherever the codec gives back the pages that
/// went into it.
pub proof fn law_compressed_file_reads_back(
    contents: Seq<u8>,
    chunks: Seq<Vec<u8>>,
    pages: Seq<Option<Vec<u8>>>,
    offset: int,
    count: int,
)
    requires
        chunks.len() == chunk_span(contents.len() as int) <= u32::MAX,
        chunks_len(chunks, chunks.len() as int) <= u32::MAX,
        0 <= offset,
        0 < count,
        offset + count <= contents.len(),
        pages.len() == chunk_span(offset + count) - offset / 4096,
        forall|k: int|
            #![trigger pages[k]]
            0 <= k < pages.len() ==> pages[k] is Some && pages[k]->0@ == page_of(
                contents,
                offset / 4096 + k,
            ),
    ensures
        decoded(stream_of(chunks), offset, count, pages) == Ok::<Seq<u8>, Error>(
            contents.subrange(offset, offset + count),
        ),
{
    let s = stream_of(chunks);
    let first = offset / 4096;
    let last = chunk_span(offset + count);
    law_stream_keeps_chunks(chunks, 0);
    lemma_written_pages_ok(chunks, pages, first, last - first);
    let out = decoded(s, offset, count, pages)->Ok_0;
    let want = contents.subrange(offset, offset + count);
    assert forall|i: int| 0 <= i < count implies out[i] == want[i] by {
        let k = (offset + i) / 4096 - first;
        assert(0 <= k < pages.len());
        assert(pages[k]->0@ == page_of(contents, first + k));
        assert((first + k) * 4096 + (offset + i) % 4096 == offset + i);
    }
    assert(out =~= want);
}

} // verus!
