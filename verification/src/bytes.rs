//! Fixed-width integers in byte buffers, and the buffer edits built on them.
use vstd::prelude::*;

use crate::error::{Error, Result};

verus! {

/// Little-endian 16-bit value stored at `off`.
pub open spec fn u16_at(s: Seq<u8>, off: int) -> u16 {
    (s[off] + 0x100 * s[off + 1]) as u16
}

/// Little-endian 32-bit value stored at `off`.
pub open spec fn u32_at(s: Seq<u8>, off: int) -> u32 {
    (s[off] + 0x100 * s[off + 1] + 0x1_0000 * s[off + 2] + 0x100_0000 * s[off + 3]) as u32
}

/// Little-endian 64-bit value stored at `off`.
pub open spec fn u64_at(s: Seq<u8>, off: int) -> u64 {
    (u32_at(s, off) + 0x1_0000_0000 * u32_at(s, off + 4)) as u64
}

/// Big-endian 16-bit value stored at `off`.
pub open spec fn u16_be_at(s: Seq<u8>, off: int) -> u16 {
    (0x100 * s[off] + s[off + 1]) as u16
}

/// Big-endian 32-bit value stored at `off`.
pub open spec fn u32_be_at(s: Seq<u8>, off: int) -> u32 {
    (0x1_0000 * u16_be_at(s, off) + u16_be_at(s, off + 2)) as u32
}

/// Big-endian 64-bit value stored at `off`.
pub open spec fn u64_be_at(s: Seq<u8>, off: int) -> u64 {
    (0x1_0000_0000 * u32_be_at(s, off) + u32_be_at(s, off + 4)) as u64
}

/// The two bytes of `v`, least significant first.
pub open spec fn le16(v: u16) -> Seq<u8> {
    seq![(v % 0x100) as u8, (v / 0x100) as u8]
}

/// The four bytes of `v`, least significant first.
pub open spec fn le32(v: u32) -> Seq<u8> {
    seq![
        (v % 0x100) as u8,
        (v / 0x100 % 0x100) as u8,
        (v / 0x1_0000 % 0x100) as u8,
        (v / 0x100_0000) as u8,
    ]
}

/// `s` with the bytes from `off` on replaced by `b`.
pub open spec fn put(s: Seq<u8>, off: int, b: Seq<u8>) -> Seq<u8> {
    Seq::new(s.len(), |i: int| if off <= i < off + b.len() { b[i - off] } else { s[i] })
}

/// A run of `n` zero bytes.
pub open spec fn zeros(n: nat) -> Seq<u8> {
    Seq::new(n, |i: int| 0u8)
}

/// Whether every byte of `s` is zero.
pub open spec fn all_zero(s: Seq<u8>) -> bool {
    forall|i: int| 0 <= i < s.len() ==> s[i] == 0
}

/// A 16-bit value survives being stored and loaded.
pub proof fn lemma_le16_round_trip(s: Seq<u8>, off: int, v: u16)
    requires
        0 <= off,
        off + 2 <= s.len(),
    ensures
        u16_at(put(s, off, le16(v)), off) == v,
{
}

/// A 32-bit value survives being stored and loaded.
pub proof fn lemma_le32_round_trip(s: Seq<u8>, off: int, v: u32)
    requires
        0 <= off,
        off + 4 <= s.len(),
    ensures
        u32_at(put(s, off, le32(v)), off) == v,
{
    let t = put(s, off, le32(v));
    assert(t[off] == le32(v)[0]);
    assert(t[off + 1] == le32(v)[1]);
    assert(t[off + 2] == le32(v)[2]);
    assert(t[off + 3] == le32(v)[3]);
}

/// Low bytes come first in a little-endian number, and high bytes in a big-endian one.
pub proof fn law_byte_order(s: Seq<u8>, off: int)
    ensures
        u16_at(s, off) as int == s[off] + 256 * s[off + 1],
        u32_at(s, off) as int == s[off] + 256 * (s[off + 1] + 256 * (s[off + 2] + 256 * s[off + 3])),
        u64_at(s, off) as int == u32_at(s, off) + 0x1_0000_0000 * u32_at(s, off + 4),
        u16_be_at(s, off) as int == 256 * s[off] + s[off + 1],
        u32_be_at(s, off) as int == ((s[off] * 256 + s[off + 1]) * 256 + s[off + 2]) * 256 + s[off
            + 3],
        u64_be_at(s, off) as int == 0x1_0000_0000 * u32_be_at(s, off) + u32_be_at(s, off + 4),
{
}

/// Loading a 32-bit value and storing it again yields the same bytes.
pub proof fn lemma_le32_of_u32_at(s: Seq<u8>, off: int)
    requires
        0 <= off,
        off + 4 <= s.len(),
    ensures
        le32(u32_at(s, off)) == s.subrange(off, off + 4),
{
    let b0 = s[off] as int;
    let b1 = s[off + 1] as int;
    let b2 = s[off + 2] as int;
    let b3 = s[off + 3] as int;
    let v = u32_at(s, off) as int;
    assert(v == b0 + 0x100 * b1 + 0x1_0000 * b2 + 0x100_0000 * b3);
    assert(v / 0x100 == b1 + 0x100 * b2 + 0x1_0000 * b3);
    assert(v / 0x1_0000 == b2 + 0x100 * b3);
    assert(v / 0x100_0000 == b3);
    assert(v % 0x100 == b0);
    assert((v / 0x100) % 0x100 == b1);
    assert((v / 0x1_0000) % 0x100 == b2);
    assert(le32(u32_at(s, off)) =~= s.subrange(off, off + 4));
}

/// Loads `bytes[off]` as a little-endian 16-bit value.
pub fn get_u16(bytes: &[u8], off: usize) -> (v: u16)
    requires
        off + 2 <= bytes@.len(),
    ensures
        v == u16_at(bytes@, off as int),
{
    bytes[off] as u16 + 0x100 * (bytes[off + 1] as u16)
}

/// Loads `bytes[off..]` as a little-endian 32-bit value.
pub fn get_u32(bytes: &[u8], off: usize) -> (v: u32)
    requires
        off + 4 <= bytes@.len(),
    ensures
        v == u32_at(bytes@, off as int),
{
    bytes[off] as u32 + 0x100 * (bytes[off + 1] as u32) + 0x1_0000 * (bytes[off + 2] as u32)
        + 0x100_0000 * (bytes[off + 3] as u32)
}

/// Loads `bytes[off..]` as a little-endian 64-bit value.
pub fn get_u64(bytes: &[u8], off: usize) -> (v: u64)
    requires
        off + 8 <= bytes@.len(),
    ensures
        v == u64_at(bytes@, off as int),
{
    let _n: usize = bytes.len();
    get_u32(bytes, off) as u64 + 0x1_0000_0000 * (get_u32(bytes, off + 4) as u64)
}

/// Loads `bytes[off..]` as a big-endian 16-bit value.
pub fn get_u16_be(bytes: &[u8], off: usize) -> (v: u16)
    requires
        off + 2 <= bytes@.len(),
    ensures
        v == u16_be_at(bytes@, off as int),
{
    0x100 * (bytes[off] as u16) + bytes[off + 1] as u16
}

/// Loads `bytes[off..]` as a big-endian 32-bit value.
pub fn get_u32_be(bytes: &[u8], off: usize) -> (v: u32)
    requires
        off + 4 <= bytes@.len(),
    ensures
        v == u32_be_at(bytes@, off as int),
{
    let _n: usize = bytes.len();
    0x1_0000 * (get_u16_be(bytes, off) as u32) + get_u16_be(bytes, off + 2) as u32
}

/// Loads `bytes[off..]` as a big-endian 64-bit value.
pub fn get_u64_be(bytes: &[u8], off: usize) -> (v: u64)
    requires
        off + 8 <= bytes@.len(),
    ensures
        v == u64_be_at(bytes@, off as int),
{
    let _n: usize = bytes.len();
    0x1_0000_0000 * (get_u32_be(bytes, off) as u64) + get_u32_be(bytes, off + 4) as u64
}

/// Little-endian 16-bit value at `offset`, when the buffer holds it.
pub fn read_u16(bytes: &[u8], offset: usize) -> (r: Result<u16>)
    ensures
        r == (if offset + 2 <= bytes@.len() {
            Ok::<u16, Error>(u16_at(bytes@, offset as int))
        } else {
            Err(Error::InvalidArgument)
        }),
{
    if bytes.len() < 2 || offset > bytes.len() - 2 {
        return Err(Error::InvalidArgument);
    }
    Ok(get_u16(bytes, offset))
}

/// Little-endian 32-bit value at `offset`, when the buffer holds it.
pub fn read_u32(bytes: &[u8], offset: usize) -> (r: Result<u32>)
    ensures
        r == (if offset + 4 <= bytes@.len() {
            Ok::<u32, Error>(u32_at(bytes@, offset as int))
        } else {
            Err(Error::InvalidArgument)
        }),
{
    if bytes.len() < 4 || offset > bytes.len() - 4 {
        return Err(Error::InvalidArgument);
    }
    Ok(get_u32(bytes, offset))
}

/// Copies `src` over `dst[off..]`.
pub fn write_bytes(dst: &mut [u8], off: usize, src: &[u8])
    requires
        off + src@.len() <= old(dst)@.len(),
    ensures
        final(dst)@ == put(old(dst)@, off as int, src@),
{
    let n: usize = dst.len();
    let mut i: usize = 0;
    while i < src.len()
        invariant
            i <= src@.len(),
            n == dst@.len(),
            n == old(dst)@.len(),
            off + src@.len() <= n,
            dst@ == put(old(dst)@, off as int, src@.take(i as int)),
        decreases src@.len() - i,
    {
        dst[off + i] = src[i];
        i = i + 1;
    }
    assert(src@.take(i as int) == src@);
}

/// Stores `value` at `dst[off..]`, least significant byte first.
pub fn write_u16(dst: &mut [u8], off: usize, value: u16)
    requires
        off + 2 <= old(dst)@.len(),
    ensures
        final(dst)@ == put(old(dst)@, off as int, le16(value)),
{
    dst[off] = (value % 0x100) as u8;
    dst[off + 1] = (value / 0x100) as u8;
}

/// Stores `value` at `dst[off..]`, least significant byte first.
pub fn write_u32(dst: &mut [u8], off: usize, value: u32)
    requires
        off + 4 <= old(dst)@.len(),
    ensures
        final(dst)@ == put(old(dst)@, off as int, le32(value)),
{
    dst[off] = (value % 0x100) as u8;
    dst[off + 1] = (value / 0x100 % 0x100) as u8;
    dst[off + 2] = (value / 0x1_0000 % 0x100) as u8;
    dst[off + 3] = (value / 0x100_0000) as u8;
}

/// A 32-bit field, kept abstract while its neighbours are written.
#[verifier::opaque]
pub open spec fn field_at(s: Seq<u8>, off: int) -> u32 {
    u32_at(s, off)
}

/// A 16-bit field, kept abstract while its neighbours are written.
#[verifier::opaque]
pub open spec fn half_at(s: Seq<u8>, off: int) -> u16 {
    u16_at(s, off)
}

/// Stores a 32-bit field, leaving every field beside it alone.
pub fn store_u32(block: &mut [u8], off: usize, value: u32)
    requires
        off + 4 <= old(block)@.len(),
    ensures
        final(block)@.len() == old(block)@.len(),
        field_at(final(block)@, off as int) == value,
        forall|at: int|
            #![trigger field_at(final(block)@, at)]
            0 <= at && at + 4 <= old(block)@.len() && (at + 4 <= off || off + 4 <= at) ==> field_at(
                final(block)@,
                at,
            ) == field_at(old(block)@, at),
        forall|at: int|
            #![trigger half_at(final(block)@, at)]
            0 <= at && at + 2 <= old(block)@.len() && (at + 2 <= off || off + 4 <= at) ==> half_at(
                final(block)@,
                at,
            ) == half_at(old(block)@, at),
        forall|i: int|
            #![trigger final(block)@[i]]
            0 <= i < old(block)@.len() && !(off <= i < off + 4) ==> final(block)@[i] == old(
                block,
            )@[i],
{
    let ghost before = block@;
    write_u32(block, off, value);
    proof {
        reveal(field_at);
        reveal(half_at);
        lemma_le32_round_trip(before, off as int, value);
    }
}

/// Stores a 16-bit field, leaving every field beside it alone.
pub fn store_u16(block: &mut [u8], off: usize, value: u16)
    requires
        off + 2 <= old(block)@.len(),
    ensures
        final(block)@.len() == old(block)@.len(),
        half_at(final(block)@, off as int) == value,
        forall|at: int|
            #![trigger field_at(final(block)@, at)]
            0 <= at && at + 4 <= old(block)@.len() && (at + 4 <= off || off + 2 <= at) ==> field_at(
                final(block)@,
                at,
            ) == field_at(old(block)@, at),
        forall|i: int|
            #![trigger final(block)@[i]]
            0 <= i < old(block)@.len() && !(off <= i < off + 2) ==> final(block)@[i] == old(
                block,
            )@[i],
{
    let ghost before = block@;
    write_u16(block, off, value);
    proof {
        reveal(field_at);
        reveal(half_at);
        lemma_le16_round_trip(before, off as int, value);
    }
}

/// Stores one byte, leaving every field beside it alone.
pub fn store_u8(block: &mut [u8], off: usize, value: u8)
    requires
        off < old(block)@.len(),
    ensures
        final(block)@ == old(block)@.update(off as int, value),
        forall|at: int|
            #![trigger field_at(final(block)@, at)]
            0 <= at && at + 4 <= old(block)@.len() && (at + 4 <= off || off < at) ==> field_at(
                final(block)@,
                at,
            ) == field_at(old(block)@, at),
{
    block[off] = value;
    proof {
        reveal(field_at);
    }
}

/// Sets every byte of `dst` to zero.
pub fn zero_fill(dst: &mut [u8])
    ensures
        final(dst)@ == zeros(old(dst)@.len()),
{
    let n: usize = dst.len();
    let mut i: usize = 0;
    while i < n
        invariant
            i <= n,
            n == dst@.len(),
            dst@.len() == old(dst)@.len(),
            forall|j: int| 0 <= j < i ==> dst@[j] == 0,
        decreases n - i,
    {
        dst[i] = 0;
        i = i + 1;
    }
}

/// Whether two buffers hold the same bytes.
pub fn bytes_eq(a: &[u8], b: &[u8]) -> (r: bool)
    ensures
        r == (a@ == b@),
{
    if a.len() != b.len() {
        return false;
    }
    let mut i: usize = 0;
    while i < a.len()
        invariant
            i <= a@.len(),
            a@.len() == b@.len(),
            forall|j: int| 0 <= j < i ==> a@[j] == b@[j],
        decreases a@.len() - i,
    {
        if a[i] != b[i] {
            return false;
        }
        i = i + 1;
    }
    assert(a@ == b@);
    true
}

/// Whether every byte of the buffer is zero.
pub fn is_all_zero(a: &[u8]) -> (r: bool)
    ensures
        r == all_zero(a@),
{
    let mut i: usize = 0;
    while i < a.len()
        invariant
            i <= a@.len(),
            forall|j: int| 0 <= j < i ==> a@[j] == 0,
        decreases a@.len() - i,
    {
        if a[i] != 0 {
            return false;
        }
        i = i + 1;
    }
    true
}

/// Owned copy of `bytes[from..to]`.
pub fn copy_range(bytes: &[u8], from: usize, to: usize) -> (r: Vec<u8>)
    requires
        from <= to <= bytes@.len(),
    ensures
        r@ == bytes@.subrange(from as int, to as int),
{
    vstd::slice::slice_to_vec(vstd::slice::slice_subrange(bytes, from, to))
}

/// Owned copy of all of `bytes`.
pub fn copy_all(bytes: &[u8]) -> (r: Vec<u8>)
    ensures
        r@ == bytes@,
{
    vstd::slice::slice_to_vec(bytes)
}

/// Zero-filled buffer of `n` bytes.
pub fn zero_vec(n: usize) -> (r: Vec<u8>)
    ensures
        r@ == zeros(n as nat),
{
    vec![0u8; n]
}

} // verus!
