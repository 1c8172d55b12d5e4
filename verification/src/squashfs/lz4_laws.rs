//! What blocks in the LZ4 format decode to, said from the writer's side: a packer that spells
//! its output out as literals and copies gets it back.
use vstd::prelude::*;

use crate::bytes::u16_at;
use crate::error::Error;
use crate::squashfs::lz4::{Decoded, decoded_from, full_length, length_from, lz4_decoded, repeated};

verus! {

/// A run of literal bytes followed by a copy of `count` bytes from `distance` back.
pub struct Lz4Step {
    pub literals: Seq<u8>,
    pub distance: int,
    pub count: int,
}

/// The bytes that go on with a number: 255 for each 255 of it, then what is left.
pub open spec fn further_bytes(n: int) -> Seq<u8>
    decreases n,
{
    if n < 255 {
        seq![n as u8]
    } else {
        seq![255u8] + further_bytes(n - 255)
    }
}

/// The four bits of a length, and the bytes that go on with it.
pub open spec fn length_bits(n: int) -> int {
    if n < 15 {
        n
    } else {
        15
    }
}

pub open spec fn length_bytes(n: int) -> Seq<u8> {
    if n < 15 {
        seq![]
    } else {
        further_bytes(n - 15)
    }
}

/// A packed step: both lengths in a byte, the rest of the first, the literals, the distance
/// with its low byte first, the rest of the second.
pub open spec fn packed_step(step: Lz4Step) -> Seq<u8> {
    seq![(16 * length_bits(step.literals.len() as int) + length_bits(step.count - 4)) as u8]
        + length_bytes(step.literals.len() as int) + step.literals + seq![
        (step.distance % 256) as u8,
        (step.distance / 256) as u8,
    ] + length_bytes(step.count - 4)
}

/// Literals that end a block.
pub open spec fn packed_end(literals: Seq<u8>) -> Seq<u8> {
    seq![(16 * length_bits(literals.len() as int)) as u8] + length_bytes(literals.len() as int)
        + literals
}

/// A packed block.
pub open spec fn packed_block(steps: Seq<Lz4Step>, end: Seq<u8>) -> Seq<u8>
    decreases steps.len(),
{
    if steps.len() == 0 {
        packed_end(end)
    } else {
        packed_step(steps[0]) + packed_block(steps.skip(1), end)
    }
}

/// `out` and then `count` bytes, which repeat its last `distance` bytes over and over.
pub open spec fn copied(out: Seq<u8>, distance: int, count: int) -> Seq<u8> {
    Seq::new(
        (out.len() + count) as nat,
        |i: int|
            if i < out.len() {
                out[i]
            } else {
                out[out.len() - distance + (i - out.len()) % distance]
            },
    )
}

/// What a block stands for, after `out`.
pub open spec fn spelled_out(out: Seq<u8>, steps: Seq<Lz4Step>, end: Seq<u8>) -> Seq<u8>
    decreases steps.len(),
{
    if steps.len() == 0 {
        out + end
    } else {
        spelled_out(
            copied(out + steps[0].literals, steps[0].distance, steps[0].count),
            steps.skip(1),
            end,
        )
    }
}

/// Whether every copy is of bytes that are there, and of at least four.
pub open spec fn steps_ok(len: int, steps: Seq<Lz4Step>) -> bool
    decreases steps.len(),
{
    steps.len() > 0 ==> {
        let now = len + steps[0].literals.len();
        &&& 1 <= steps[0].distance <= now
        &&& steps[0].distance <= 0xffff
        &&& 4 <= steps[0].count
        &&& steps_ok(now + steps[0].count, steps.skip(1))
    }
}

// ── Laws ──

proof fn lemma_further_bytes(n: int)
    requires
        n >= 0,
    ensures
        further_bytes(n).len() > 0,
    decreases n,
{
    if n >= 255 {
        lemma_further_bytes(n - 255);
    }
}

proof fn lemma_read_further(input: Seq<u8>, s: int, n: int, before: int)
    requires
        0 <= s,
        n >= 0,
        s + further_bytes(n).len() <= input.len(),
        input.subrange(s, s + further_bytes(n).len()) == further_bytes(n),
    ensures
        length_from(input, s, before) == (before + n, s + further_bytes(n).len()),
    decreases n,
{
    lemma_further_bytes(n);
    let all = further_bytes(n);
    assert(input[s] == input.subrange(s, s + all.len())[0]);
    if n >= 255 {
        lemma_further_bytes(n - 255);
        let rest = further_bytes(n - 255);
        assert(all.skip(1) =~= rest);
        assert(input.subrange(s + 1, s + 1 + rest.len()) =~= input.subrange(s, s + all.len()).skip(1));
        lemma_read_further(input, s + 1, n - 255, before + 255);
    }
}

proof fn lemma_read_length(input: Seq<u8>, s: int, n: int)
    requires
        0 <= s,
        n >= 0,
        s + length_bytes(n).len() <= input.len(),
        input.subrange(s, s + length_bytes(n).len()) == length_bytes(n),
    ensures
        full_length(input, s, length_bits(n)) == (n, s + length_bytes(n).len()),
{
    if n >= 15 {
        lemma_read_further(input, s, n - 15, 15);
    }
}

/// A copy keeps what was there, and each byte it adds is the one `distance` before it.
pub proof fn law_copies_repeat(out: Seq<u8>, distance: int, count: int)
    requires
        1 <= distance <= out.len(),
        0 <= count,
    ensures
        repeated(out, distance, count).len() == out.len() + count,
        repeated(out, distance, count).take(out.len() as int) == out,
        forall|i: int|
            #![trigger repeated(out, distance, count)[i]]
            out.len() <= i < out.len() + count ==> repeated(out, distance, count)[i] == repeated(
                out,
                distance,
                count,
            )[i - distance],
    decreases count,
{
    let r = repeated(out, distance, count);
    if count > 0 {
        let next = out.push(out[out.len() - distance]);
        law_copies_repeat(next, distance, count - 1);
        assert(r == repeated(next, distance, count - 1));
        assert(r.take(next.len() as int) == next);
        assert forall|i: int| 0 <= i < next.len() implies #[trigger] r[i] == next[i] by {
            assert(r.take(next.len() as int)[i] == r[i]);
        }
        assert(r.take(out.len() as int) =~= out);
        assert forall|i: int| #![trigger r[i]] out.len() <= i < out.len() + count implies r[i] == r[i
            - distance] by {
            if i == out.len() {
                assert(r[i] == next[i]);
                assert(r[i - distance] == next[i - distance]);
            }
        }
    } else {
        assert(r.take(out.len() as int) =~= out);
    }
}

proof fn lemma_copied_at(out: Seq<u8>, distance: int, count: int, i: int)
    requires
        1 <= distance <= out.len(),
        0 <= count,
        0 <= i < out.len() + count,
    ensures
        repeated(out, distance, count)[i] == copied(out, distance, count)[i],
    decreases i,
{
    law_copies_repeat(out, distance, count);
    let r = repeated(out, distance, count);
    if i < out.len() {
        assert(r.take(out.len() as int)[i] == r[i]);
    } else {
        lemma_copied_at(out, distance, count, i - distance);
        assert(r[i] == r[i - distance]);
        let x = i - out.len();
        if x < distance {
            assert(x % distance == x) by {
                vstd::arithmetic::div_mod::lemma_small_mod(x as nat, distance as nat);
            }
        } else {
            assert((x - distance) % distance == x % distance) by {
                vstd::arithmetic::div_mod::lemma_mod_sub_multiples_vanish(x, distance);
            }
            assert(i - distance - out.len() == x - distance);
        }
    }
}

proof fn lemma_copied(out: Seq<u8>, distance: int, count: int)
    requires
        1 <= distance <= out.len(),
        0 <= count,
    ensures
        repeated(out, distance, count) == copied(out, distance, count),
{
    law_copies_repeat(out, distance, count);
    assert forall|i: int| 0 <= i < out.len() + count implies repeated(out, distance, count)[i]
        == copied(out, distance, count)[i] by {
        lemma_copied_at(out, distance, count, i);
    }
    assert(repeated(out, distance, count) =~= copied(out, distance, count));
}

/// Where the parts of a packed step lie in the input it stands in.
proof fn lemma_step_parts(input: Seq<u8>, at: int, step: Lz4Step)
    requires
        0 <= at,
        1 <= step.distance <= 0xffff,
        4 <= step.count,
        at + packed_step(step).len() <= input.len(),
        input.subrange(at, at + packed_step(step).len()) == packed_step(step),
    ensures
        ({
            let n = step.literals.len() as int;
            let s1 = at + 1 + length_bytes(n).len();
            let s2 = s1 + n;
            let s3 = s2 + 2 + length_bytes(step.count - 4).len();
            &&& at + packed_step(step).len() == s3
            &&& input[at] as int == 16 * length_bits(n) + length_bits(step.count - 4)
            &&& input.subrange(at + 1, s1) == length_bytes(n)
            &&& input.subrange(s1, s2) == step.literals
            &&& u16_at(input, s2) == step.distance
            &&& input.subrange(s2 + 2, s3) == length_bytes(step.count - 4)
        }),
{
    let n = step.literals.len() as int;
    let p = packed_step(step);
    let a = length_bytes(n);
    let b = length_bytes(step.count - 4);
    let s1 = at + 1 + a.len();
    let s2 = s1 + n;
    let s3 = s2 + 2 + b.len();
    assert(p.len() == 1 + a.len() + n + 2 + b.len());
    assert forall|j: int| 0 <= j < p.len() implies #[trigger] input[at + j] == p[j] by {
        assert(input.subrange(at, at + p.len())[j] == input[at + j]);
    }
    assert(input[at + 0] == p[0]);
    assert forall|j: int| 0 <= j < a.len() implies input.subrange(at + 1, s1)[j] == a[j] by {
        assert(input[at + (1 + j)] == p[1 + j]);
    }
    assert(input.subrange(at + 1, s1) =~= a);
    assert forall|j: int| 0 <= j < n implies input.subrange(s1, s2)[j] == step.literals[j] by {
        assert(input[at + (1 + a.len() + j)] == p[1 + a.len() + j]);
    }
    assert(input.subrange(s1, s2) =~= step.literals);
    assert(input[at + (1 + a.len() + n)] == p[1 + a.len() + n]);
    assert(input[at + (2 + a.len() + n)] == p[2 + a.len() + n]);
    assert(p[1 + a.len() + n] == (step.distance % 256) as u8);
    assert(p[2 + a.len() + n] == (step.distance / 256) as u8);
    assert(input[s2] as int + 256 * input[s2 + 1] == step.distance);
    assert forall|j: int| 0 <= j < b.len() implies input.subrange(s2 + 2, s3)[j] == b[j] by {
        assert(input[at + (3 + a.len() + n + j)] == p[3 + a.len() + n + j]);
    }
    assert(input.subrange(s2 + 2, s3) =~= b);
}

/// A packed step decodes to its literals and its copy, whatever stands before and after it.
pub proof fn law_step_decodes(input: Seq<u8>, at: int, step: Lz4Step, out: Seq<u8>, room: int)
    requires
        0 <= at,
        at + packed_step(step).len() <= input.len(),
        input.subrange(at, at + packed_step(step).len()) == packed_step(step),
        1 <= step.distance <= out.len() + step.literals.len(),
        step.distance <= 0xffff,
        4 <= step.count,
        out.len() + step.literals.len() + step.count <= room,
    ensures
        decoded_from(input, at, out, room) == decoded_from(
            input,
            at + packed_step(step).len(),
            copied(out + step.literals, step.distance, step.count),
            room,
        ),
{
    let n = step.literals.len() as int;
    lemma_step_parts(input, at, step);
    let s1 = at + 1 + length_bytes(n).len();
    let s2 = s1 + n;
    lemma_read_length(input, at + 1, n);
    lemma_read_length(input, s2 + 2, step.count - 4);
    assert(input[at] as int / 16 == length_bits(n));
    assert(input[at] as int % 16 == length_bits(step.count - 4));
    lemma_copied(out + step.literals, step.distance, step.count);
}

proof fn lemma_end_decodes(input: Seq<u8>, at: int, end: Seq<u8>, out: Seq<u8>, room: int)
    requires
        0 <= at,
        at + packed_end(end).len() == input.len(),
        input.subrange(at, input.len() as int) == packed_end(end),
        out.len() + end.len() <= room,
    ensures
        decoded_from(input, at, out, room) == (Decoded { out: out + end, fault: None }),
{
    let n = end.len() as int;
    let p = packed_end(end);
    let a = length_bytes(n);
    let s1 = at + 1 + a.len();
    assert(p.len() == 1 + a.len() + n);
    assert forall|j: int| 0 <= j < p.len() implies #[trigger] input[at + j] == p[j] by {
        assert(input.subrange(at, input.len() as int)[j] == input[at + j]);
    }
    assert(input[at + 0] == p[0]);
    assert forall|j: int| 0 <= j < a.len() implies input.subrange(at + 1, s1)[j] == a[j] by {
        assert(input[at + (1 + j)] == p[1 + j]);
    }
    assert(input.subrange(at + 1, s1) =~= a);
    assert forall|j: int| 0 <= j < n implies input.subrange(s1, s1 + n)[j] == end[j] by {
        assert(input[at + (1 + a.len() + j)] == p[1 + a.len() + j]);
    }
    assert(input.subrange(s1, s1 + n) =~= end);
    lemma_read_length(input, at + 1, n);
    assert(input[at] as int / 16 == length_bits(n));
}

proof fn lemma_block_decodes(
    input: Seq<u8>,
    at: int,
    steps: Seq<Lz4Step>,
    end: Seq<u8>,
    out: Seq<u8>,
    room: int,
)
    requires
        0 <= at,
        at + packed_block(steps, end).len() == input.len(),
        input.subrange(at, input.len() as int) == packed_block(steps, end),
        steps_ok(out.len() as int, steps),
        spelled_out(out, steps, end).len() <= room,
    ensures
        decoded_from(input, at, out, room) == (Decoded {
            out: spelled_out(out, steps, end),
            fault: None,
        }),
    decreases steps.len(),
{
    if steps.len() == 0 {
        lemma_end_decodes(input, at, end, out, room);
    } else {
        let first = packed_step(steps[0]);
        let rest = packed_block(steps.skip(1), end);
        let now = copied(out + steps[0].literals, steps[0].distance, steps[0].count);
        assert(input.subrange(at, at + first.len()) =~= (first + rest).take(first.len() as int));
        assert((first + rest).take(first.len() as int) =~= first);
        assert(input.subrange(at + first.len(), input.len() as int) =~= (first + rest).skip(
            first.len() as int,
        ));
        assert((first + rest).skip(first.len() as int) =~= rest);
        lemma_spelled_len(now, steps.skip(1), end);
        law_step_decodes(input, at, steps[0], out, room);
        lemma_block_decodes(input, at + first.len(), steps.skip(1), end, now, room);
    }
}

proof fn lemma_spelled_len(out: Seq<u8>, steps: Seq<Lz4Step>, end: Seq<u8>)
    requires
        steps_ok(out.len() as int, steps),
    ensures
        spelled_out(out, steps, end).len() >= out.len(),
    decreases steps.len(),
{
    if steps.len() > 0 {
        lemma_spelled_len(
            copied(out + steps[0].literals, steps[0].distance, steps[0].count),
            steps.skip(1),
            end,
        );
    }
}

/// Whatever a packer spells out as literals and copies, with distances up to 65535 and lengths
/// of any size, is what its block decodes to.
pub proof fn law_lz4_block_decodes(steps: Seq<Lz4Step>, end: Seq<u8>, room: int)
    requires
        steps_ok(0, steps),
        spelled_out(seq![], steps, end).len() <= room,
    ensures
        lz4_decoded(packed_block(steps, end), room).out == spelled_out(seq![], steps, end),
        lz4_decoded(packed_block(steps, end), room).fault is None,
{
    let input = packed_block(steps, end);
    assert(input.subrange(0, input.len() as int) =~= input);
    lemma_block_decodes(input, 0, steps, end, seq![], room);
}

/// A copy of nothing that is there is refused: one from no distance, and one from before the
/// start. What was decoded up to its literals is kept.
pub proof fn law_lz4_bad_distance(step: Lz4Step, rest: Seq<u8>, room: int)
    requires
        4 <= step.count,
        0 <= step.distance <= 0xffff,
        step.literals.len() < room,
        step.distance == 0 || step.distance > step.literals.len(),
    ensures
        lz4_decoded(packed_step(step) + rest, room).out == step.literals,
        lz4_decoded(packed_step(step) + rest, room).fault == Some(Error::InvalidArgument),
{
    let input = packed_step(step) + rest;
    let p = packed_step(step);
    let n = step.literals.len() as int;
    let a = length_bytes(n);
    let b = length_bytes(step.count - 4);
    let s1 = 1 + a.len();
    let s2 = s1 + n;
    assert(input.subrange(1, s1 as int) =~= a);
    assert(input.subrange(s1 as int, s2 as int) =~= step.literals);
    assert(input[s2 as int] == (step.distance % 256) as u8);
    assert(input[s2 + 1] == (step.distance / 256) as u8);
    assert(input.subrange(s2 + 2, s2 + 2 + b.len()) =~= b);
    lemma_read_length(input, 1, n);
    lemma_read_length(input, s2 + 2, step.count - 4);
    assert(input[0] as int / 16 == length_bits(n));
    assert(input[0] as int % 16 == length_bits(step.count - 4));
    assert(u16_at(input, s2 as int) == step.distance);
    assert(Seq::<u8>::empty() + step.literals =~= step.literals);
}

} // verus!
