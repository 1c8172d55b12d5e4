//! Numbers spelled out in bytes, as the writers of a format put them there.
use vstd::prelude::*;

use crate::bytes::{u16_at, u16_be_at, u32_at, u32_be_at, u64_at, u64_be_at};

verus! {

/// Whether the `n` bytes from `at` on spell `v`, its lowest byte first.
pub open spec fn spells(s: Seq<u8>, at: int, v: int, n: nat) -> bool
    decreases n,
{
    n > 0 ==> s[at] == v % 256 && spells(s, at + 1, v / 256, (n - 1) as nat)
}

/// Whether the `n` bytes from `at` on spell `v`, its highest byte first.
pub open spec fn spells_be(s: Seq<u8>, at: int, v: int, n: nat) -> bool
    decreases n,
{
    n > 0 ==> s[at + n - 1] == v % 256 && spells_be(s, at, v / 256, (n - 1) as nat)
}

/// Whether the bytes from `at` on are the ones given.
pub open spec fn has_at(s: Seq<u8>, at: int, bytes: Seq<u8>) -> bool {
    0 <= at && at + bytes.len() <= s.len() && s.subrange(at, at + bytes.len()) == bytes
}

/// A number that two bytes spell is read from them.
pub proof fn law_two_bytes(s: Seq<u8>, at: int, v: u16)
    requires
        spells(s, at, v as int, 2),
    ensures
        u16_at(s, at) == v,
{
    reveal_with_fuel(spells, 3);
}

/// A number that four bytes spell is read from them.
pub proof fn law_four_bytes(s: Seq<u8>, at: int, v: u32)
    requires
        spells(s, at, v as int, 4),
    ensures
        u32_at(s, at) == v,
{
    reveal_with_fuel(spells, 5);
    let w = v as int;
    let b = w / 256;
    let c = b / 256;
    assert(w == w % 256 + 256 * (b % 256 + 256 * (c % 256 + 256 * (c / 256))));
}

/// A number that eight bytes spell is read from them.
pub proof fn law_eight_bytes(s: Seq<u8>, at: int, v: u64)
    requires
        spells(s, at, v as int, 8),
    ensures
        u64_at(s, at) == v,
{
    reveal_with_fuel(spells, 9);
    let w = v as int;
    let q1 = w / 256;
    let q2 = q1 / 256;
    let q3 = q2 / 256;
    let q4 = q3 / 256;
    let q5 = q4 / 256;
    let q6 = q5 / 256;
    let q7 = q6 / 256;
    assert(s[at] == w % 256 && s[at + 1] == q1 % 256 && s[at + 2] == q2 % 256 && s[at + 3] == q3
        % 256);
    assert(s[at + 4] == q4 % 256 && s[at + 5] == q5 % 256 && s[at + 6] == q6 % 256 && s[at + 7]
        == q7 % 256);
    assert(q7 < 256);
    assert(w - 0x1_0000_0000 * q4 == s[at] + 256 * (s[at + 1] + 256 * (s[at + 2] + 256 * s[at + 3])));
    assert(q4 == s[at + 4] + 256 * (s[at + 5] + 256 * (s[at + 6] + 256 * s[at + 7])));
    assert(u32_at(s, at) == w - 0x1_0000_0000 * q4);
    assert(u32_at(s, at + 4) == q4);
}

/// A number that two bytes spell from the front is read from them.
pub proof fn law_two_bytes_be(s: Seq<u8>, at: int, v: u16)
    requires
        spells_be(s, at, v as int, 2),
    ensures
        u16_be_at(s, at) == v,
{
    reveal_with_fuel(spells_be, 3);
}

/// A number that four bytes spell from the front is read from them.
pub proof fn law_four_bytes_be(s: Seq<u8>, at: int, v: u32)
    requires
        spells_be(s, at, v as int, 4),
    ensures
        u32_be_at(s, at) == v,
{
    reveal_with_fuel(spells_be, 5);
    let w = v as int;
    let b = w / 256;
    let c = b / 256;
    assert(w == w % 256 + 256 * (b % 256 + 256 * (c % 256 + 256 * (c / 256))));
}

/// A number that eight bytes spell from the front is read from them.
pub proof fn law_eight_bytes_be(s: Seq<u8>, at: int, v: u64)
    requires
        spells_be(s, at, v as int, 8),
    ensures
        u64_be_at(s, at) == v,
{
    reveal_with_fuel(spells_be, 9);
    let w = v as int;
    let low = w % 0x1_0000_0000;
    let high = w / 0x1_0000_0000;
    assert(w / 256 / 256 / 256 / 256 == high);
    assert(low % 256 == w % 256);
    assert(low / 256 % 256 == w / 256 % 256);
    assert(low / 256 / 256 % 256 == w / 256 / 256 % 256);
    assert(low / 256 / 256 / 256 % 256 == w / 256 / 256 / 256 % 256);
    law_four_bytes_be(s, at, high as u32);
    law_four_bytes_be(s, at + 4, low as u32);
}

/// What was read from bytes is what they spell.
pub proof fn law_bytes_spell_what_is_read(s: Seq<u8>, at: int)
    ensures
        spells(s, at, u16_at(s, at) as int, 2),
        spells(s, at, u32_at(s, at) as int, 4),
        spells_be(s, at, u16_be_at(s, at) as int, 2),
        spells_be(s, at, u32_be_at(s, at) as int, 4),
{
    reveal_with_fuel(spells, 5);
    reveal_with_fuel(spells_be, 5);
    let v = u32_at(s, at) as int;
    assert(v / 256 == s[at + 1] + 256 * (s[at + 2] + 256 * s[at + 3]));
    assert(v / 256 / 256 == s[at + 2] + 256 * s[at + 3]);
    assert(v / 256 / 256 / 256 == s[at + 3]);
    let w = u32_be_at(s, at) as int;
    assert(w / 256 == s[at + 2] + 256 * (s[at + 1] + 256 * s[at]));
    assert(w / 256 / 256 == s[at + 1] + 256 * s[at]);
    assert(w / 256 / 256 / 256 == s[at]);
}

/// The `n` bytes of a number, its lowest first.
pub open spec fn low_first(v: int, n: nat) -> Seq<u8>
    decreases n,
{
    if n == 0 {
        seq![]
    } else {
        seq![(v % 256) as u8] + low_first(v / 256, (n - 1) as nat)
    }
}

pub proof fn lemma_low_first(v: int, n: nat)
    ensures
        low_first(v, n).len() == n,
        spells(low_first(v, n), 0, v, n),
    decreases n,
{
    if n > 0 {
        lemma_low_first(v / 256, (n - 1) as nat);
        lemma_spells_moved(low_first(v / 256, (n - 1) as nat), 0, low_first(v, n), 1, v / 256, (n - 1) as nat);
    }
}

/// The same bytes elsewhere spell the same.
pub proof fn lemma_spells_moved(s: Seq<u8>, at: int, t: Seq<u8>, to: int, v: int, n: nat)
    requires
        spells(s, at, v, n),
        forall|i: int| #![trigger t[to + i]] 0 <= i < n ==> t[to + i] == s[at + i],
    ensures
        spells(t, to, v, n),
    decreases n,
{
    if n > 0 {
        assert(t[to + 0] == s[at + 0]);
        assert forall|i: int| #![trigger t[to + 1 + i]] 0 <= i < n - 1 implies t[to + 1 + i] == s[at
            + 1 + i] by {
            assert(t[to + (1 + i)] == s[at + (1 + i)]);
        }
        lemma_spells_moved(s, at + 1, t, to + 1, v / 256, (n - 1) as nat);
    }
}

/// A number that stands in a buffer is spelled there.
pub proof fn lemma_spelled_at(t: Seq<u8>, to: int, v: int, n: nat)
    requires
        has_at(t, to, low_first(v, n)),
    ensures
        spells(t, to, v, n),
{
    let b = low_first(v, n);
    lemma_low_first(v, n);
    assert forall|i: int| #![trigger t[to + i]] 0 <= i < n implies t[to + i] == b[0 + i] by {
        assert(t.subrange(to, to + n)[i] == t[to + i]);
    }
    lemma_spells_moved(b, 0, t, to, v, n);
}

/// A part of what stands in a buffer stands there too.
pub proof fn lemma_part_at(t: Seq<u8>, at: int, whole: Seq<u8>, off: int, part: Seq<u8>)
    requires
        has_at(t, at, whole),
        has_at(whole, off, part),
    ensures
        has_at(t, at + off, part),
{
    assert(t.subrange(at + off, at + off + part.len()) =~= t.subrange(at, at + whole.len()).subrange(
        off,
        off + part.len(),
    ));
}

/// Bytes between others stand where the ones before them end.
pub proof fn lemma_between(a: Seq<u8>, b: Seq<u8>, c: Seq<u8>)
    ensures
        a + (b + c) == (a + b) + c,
        has_at(a + (b + c), a.len() as int, b),
        has_at(a + (b + c), (a.len() + b.len()) as int, c),
{
    let all = a + (b + c);
    assert(all =~= (a + b) + c);
    assert(all.subrange(a.len() as int, a.len() as int + b.len()) =~= b);
    assert(all.subrange((a.len() + b.len()) as int, all.len() as int) =~= c);
}

} // verus!
