//! The LZ4 block format: literals, and copies of what was already written.
use vstd::prelude::*;

use crate::bytes::{get_u16, put, u16_at, write_bytes};
use crate::error::{Error, Result};

verus! {

/// A length that goes on in the bytes from `s` on, each added to it, as long as they are
/// 255; and where the bytes end.
pub open spec fn length_from(input: Seq<u8>, s: int, length: int) -> (int, int)
    decreases input.len() - s,
{
    if s >= input.len() {
        (length, s)
    } else if input[s] != 255 {
        (length + input[s], s + 1)
    } else {
        length_from(input, s + 1, length + 255)
    }
}

/// A length whose first part is four bits: the largest value goes on in further bytes.
pub open spec fn full_length(input: Seq<u8>, s: int, nibble: int) -> (int, int) {
    if nibble == 15 {
        length_from(input, s, 15)
    } else {
        (nibble, s)
    }
}

/// `out` with `n` bytes appended, each a copy of the one `distance` before it.
pub open spec fn repeated(out: Seq<u8>, distance: int, n: int) -> Seq<u8>
    decreases n,
{
    if n <= 0 {
        out
    } else {
        repeated(out.push(out[out.len() - distance]), distance, n - 1)
    }
}

/// What decoding has written when it stops, and the error it ends in, if any.
pub struct Decoded {
    pub out: Seq<u8>,
    pub fault: Option<Error>,
}

pub proof fn lemma_length_advances(input: Seq<u8>, s: int, length: int)
    ensures
        length_from(input, s, length).0 >= length,
        length_from(input, s, length).1 >= s,
        s <= input.len() ==> length_from(input, s, length).1 <= input.len(),
    decreases input.len() - s,
{
    if s < input.len() && input[s] == 255 {
        lemma_length_advances(input, s + 1, length + 255);
    }
}

/// What decoding from position `src` on adds to `out`, of which at most `room` bytes fit.
///
/// Each step is a token with two lengths, literals, and a copy. A step whose literals are
/// cut off or do not fit ends the output before them; a copy ends where the room does. A
/// copy from nowhere is an error.
pub open spec fn decoded_from(input: Seq<u8>, src: int, out: Seq<u8>, room: int) -> Decoded
    decreases input.len() - src,
{
    let (literals, s1) = full_length(input, src + 1, input[src] as int / 16);
    let s2 = s1 + literals;
    let distance = u16_at(input, s2) as int;
    let (extra, s3) = full_length(input, s2 + 2, input[src] as int % 16);
    if src >= input.len() || s2 > input.len() || out.len() + literals > room {
        Decoded { out, fault: None }
    } else {
        let now = out + input.subrange(s1, s2);
        let n = if extra + 4 < room - now.len() {
            extra + 4
        } else {
            room - now.len()
        };
        proof {
            lemma_length_advances(input, src + 1, 15);
            lemma_length_advances(input, s2 + 2, 15);
        }
        if s2 + 2 > input.len() {
            Decoded { out: now, fault: None }
        } else if distance == 0 || (n > 0 && distance > now.len()) {
            Decoded { out: now, fault: Some(Error::InvalidArgument) }
        } else {
            decoded_from(input, s3, repeated(now, distance, n), room)
        }
    }
}

/// What a block decodes to in a buffer with the given room.
pub open spec fn lz4_decoded(input: Seq<u8>, room: int) -> Decoded {
    decoded_from(input, 0, seq![], room)
}

/// Reads the rest of a length. The position stays inside the input.
fn read_length(input: &[u8], s: usize, nibble: u8) -> (r: (u128, usize))
    requires
        s <= input@.len(),
        nibble <= 15,
    ensures
        (r.0 as int, r.1 as int) == full_length(input@, s as int, nibble as int),
        s <= r.1 <= input@.len(),
        r.0 <= 15 + 255 * input@.len(),
{
    if nibble != 15 {
        return (nibble as u128, s);
    }
    let total: usize = input.len();
    let mut length: u128 = 15;
    let mut at: usize = s;
    while at < total
        invariant
            total == input@.len(),
            nibble == 15,
            s <= at <= total,
            length <= 15 + 255 * at,
            length_from(input@, s as int, 15) == length_from(input@, at as int, length as int),
        decreases total - at,
    {
        let b: u8 = input[at];
        at = at + 1;
        length = length + b as u128;
        if b != 255 {
            return (length, at);
        }
    }
    (length, at)
}

proof fn lemma_repeated_len(out: Seq<u8>, distance: int, n: int)
    requires
        n >= 0,
    ensures
        repeated(out, distance, n).len() == out.len() + n,
    decreases n,
{
    if n > 0 {
        lemma_repeated_len(out.push(out[out.len() - distance]), distance, n - 1);
    }
}

/// Appends `n` bytes, each a copy of the one `distance` before it.
fn copy_back(out: &mut [u8], dst: usize, distance: usize, n: usize)
    requires
        1 <= distance,
        n > 0 ==> distance <= dst,
        dst + n <= old(out)@.len(),
    ensures
        final(out)@.len() == old(out)@.len(),
        final(out)@.take(dst + n) == repeated(old(out)@.take(dst as int), distance as int, n as int),
        final(out)@.skip(dst + n) == old(out)@.skip(dst + n),
{
    let ghost start = out@;
    let _room: usize = out.len();
    let mut i: usize = 0;
    assert(out@.take(dst as int) =~= start.take(dst as int));
    while i < n
        invariant
            i <= n,
            n > 0 ==> 1 <= distance <= dst,
            start.len() <= usize::MAX,
            start == old(out)@,
            out@.len() == start.len(),
            dst + n <= start.len(),
            repeated(start.take(dst as int), distance as int, n as int) == repeated(
                out@.take(dst + i),
                distance as int,
                n - i,
            ),
            out@.skip(dst + n) == start.skip(dst + n),
        decreases n - i,
    {
        let ghost before = out@;
        let b: u8 = out[dst + i - distance];
        out[dst + i] = b;
        assert(out@.take(dst + i + 1) =~= before.take(dst + i).push(
            before.take(dst + i)[dst + i - distance],
        ));
        assert(out@.skip(dst + n) =~= before.skip(dst + n));
        i = i + 1;
    }
}

/// Decompresses an LZ4 block into `out`. Returns the number of bytes written.
pub fn lz4_decompress(input: &[u8], out: &mut [u8]) -> (r: Result<usize>)
    ensures
        ({
            let d = lz4_decoded(input@, old(out)@.len() as int);
            &&& d.out.len() <= old(out)@.len()
            &&& final(out)@ == put(old(out)@, 0, d.out)
            &&& match d.fault {
                None => r == Ok::<usize, Error>(d.out.len() as usize),
                Some(e) => r == Err::<usize, Error>(e),
            }
        }),
{
    let total: usize = input.len();
    let room: usize = out.len();
    let ghost start = out@;
    let ghost whole = lz4_decoded(input@, room as int);
    let mut src: usize = 0;
    let mut dst: usize = 0;
    assert(out@.take(0) =~= seq![]);
    while src < total
        invariant
            total == input@.len(),
            room == start.len(),
            room == out@.len(),
            start == old(out)@,
            src <= total,
            dst <= room,
            whole == lz4_decoded(input@, room as int),
            whole == decoded_from(input@, src as int, out@.take(dst as int), room as int),
            out@.skip(dst as int) == start.skip(dst as int),
        decreases total - src,
    {
        let ghost before = out@;
        let ghost done = out@.take(dst as int);
        assert(out@ =~= put(start, 0, done)) by {
            lemma_put_split(start, out@, dst as int);
        }
        let token: u8 = input[src];
        let (literals, s1) = read_length(input, src + 1, token / 16);
        if literals > (total - s1) as u128 || literals > (room - dst) as u128 {
            return Ok(dst);
        }
        let n: usize = literals as usize;
        let s2: usize = s1 + n;
        let piece = vstd::slice::slice_subrange(input, s1, s2);
        write_bytes(out, dst, piece);
        dst = dst + n;
        let ghost now = out@.take(dst as int);
        assert(now =~= done + input@.subrange(s1 as int, s2 as int));
        assert(out@.skip(dst as int) =~= before.skip(dst as int));
        assert(out@.skip(dst as int) =~= start.skip(dst as int)) by {
            lemma_skip_further(before, start, dst - n, dst as int);
        }
        assert(out@ =~= put(start, 0, now)) by {
            lemma_put_split(start, out@, dst as int);
        }
        if total - s2 < 2 {
            return Ok(dst);
        }
        let distance: usize = get_u16(input, s2) as usize;
        if distance == 0 {
            return Err(Error::InvalidArgument);
        }
        let (extra, s3) = read_length(input, s2 + 2, token % 16);
        let left: usize = room - dst;
        let count: usize = if extra + 4 < left as u128 {
            (extra + 4) as usize
        } else {
            left
        };
        if count > 0 && distance > dst {
            return Err(Error::InvalidArgument);
        }
        let ghost middle = out@;
        copy_back(out, dst, distance, count);
        proof {
            lemma_skip_further(middle, start, dst as int, dst + count);
        }
        dst = dst + count;
        src = s3;
    }
    proof {
        lemma_put_split(start, out@, dst as int);
    }
    Ok(dst)
}

proof fn lemma_skip_further(a: Seq<u8>, b: Seq<u8>, k: int, m: int)
    requires
        a.len() == b.len(),
        0 <= k <= m <= a.len(),
        a.skip(k) == b.skip(k),
    ensures
        a.skip(m) == b.skip(m),
{
    assert(a.skip(m) =~= a.skip(k).skip(m - k));
    assert(b.skip(m) =~= b.skip(k).skip(m - k));
}

proof fn lemma_put_split(start: Seq<u8>, now: Seq<u8>, k: int)
    requires
        now.len() == start.len(),
        0 <= k <= now.len(),
        now.skip(k) == start.skip(k),
    ensures
        now == put(start, 0, now.take(k)),
{
    assert forall|i: int| 0 <= i < now.len() implies now[i] == put(start, 0, now.take(k))[i] by {
        if i >= k {
            assert(now.skip(k)[i - k] == now[i]);
            assert(start.skip(k)[i - k] == start[i]);
        }
    }
    assert(now =~= put(start, 0, now.take(k)));
}

/// A token for fewer than fifteen literals, followed by them, decodes to the literals.
pub proof fn law_lz4_literals_decode_to_themselves(data: Seq<u8>, room: int)
    requires
        data.len() < 15,
        data.len() <= room,
    ensures
        lz4_decoded(seq![(16 * data.len()) as u8] + data, room).out == data,
        lz4_decoded(seq![(16 * data.len()) as u8] + data, room).fault is None,
{
    let input = seq![(16 * data.len()) as u8] + data;
    assert(input[0] as int / 16 == data.len());
    let none = Seq::<u8>::empty();
    assert(none + input.subrange(1, input.len() as int) =~= data);
}

} // verus!
