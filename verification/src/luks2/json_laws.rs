//! What the JSON metadata says, whatever text is put into it.
use vstd::arithmetic::div_mod::lemma_fundamental_div_mod_converse;
use vstd::prelude::*;
use vstd::utf8::encode_utf8;

use crate::luks2::base64::{decoded_from, group_bytes, group_from, is_blank, symbol_value};
use crate::luks2::json::{all_digits, closing_brace, decimal_value, digits_value, found_from, is_digit, json_object, json_string, next_of, past_blanks, past_number, quoted_key};
use crate::luks2::params::{json_base64, json_number};
use crate::spelling::has_at;

verus! {

// ── Base64 ──

/// The symbol that stands for a number below 64.
pub open spec fn symbol_for(v: int) -> u8 {
    if v < 26 {
        (65 + v) as u8
    } else if v < 52 {
        (97 + v - 26) as u8
    } else if v < 62 {
        (48 + v - 52) as u8
    } else if v == 62 {
        43u8
    } else {
        47u8
    }
}

/// The four symbols of a number below two to the power of 24.
pub open spec fn four_symbols(n: int) -> Seq<u8> {
    seq![
        symbol_for(n / 0x40000),
        symbol_for(n / 0x1000 % 64),
        symbol_for(n / 64 % 64),
        symbol_for(n % 64),
    ]
}

/// Bytes as a base64 text: three bytes at a time make a number of four symbols, and equals
/// signs stand for what the last bytes leave open.
pub open spec fn in_base64(bytes: Seq<u8>) -> Seq<u8>
    decreases bytes.len(),
{
    if bytes.len() == 0 {
        seq![]
    } else if bytes.len() == 1 {
        four_symbols(bytes[0] * 0x10000).take(2) + seq![61u8, 61u8]
    } else if bytes.len() == 2 {
        four_symbols(bytes[0] * 0x10000 + bytes[1] * 256).take(3) + seq![61u8]
    } else {
        four_symbols(bytes[0] * 0x10000 + bytes[1] * 256 + bytes[2]) + in_base64(bytes.skip(3))
    }
}

proof fn lemma_symbol(v: int)
    requires
        0 <= v < 64,
    ensures
        symbol_value(symbol_for(v)) == Some(v as u8),
        symbol_for(v) != 61,
        !is_blank(symbol_for(v)),
{
}

proof fn lemma_symbol_joins(input: Seq<u8>, i: int, values: Seq<u8>, v: int)
    requires
        0 <= i < input.len(),
        0 <= v < 64,
        input[i] == symbol_for(v),
        values.len() < 4,
    ensures
        group_from(input, i, values, 0) == group_from(input, i + 1, values.push(v as u8), 0),
{
    lemma_symbol(v);
}

proof fn lemma_quotient(n: int, k: int, q: int, r: int)
    requires
        0 < k,
        0 <= r < k,
        n == q * k + r,
    ensures
        n / k == q,
        n % k == r,
{
    lemma_fundamental_div_mod_converse(n, k, q, r);
}

proof fn lemma_quarters(n: int, x: int, y: int, z: int)
    requires
        0 <= x < 256,
        0 <= y < 256,
        0 <= z < 256,
        n == x * 0x10000 + y * 256 + z,
    ensures
        n / 0x40000 == x / 4,
        n / 0x1000 % 64 == x % 4 * 16 + y / 16,
        n / 64 % 64 == y % 16 * 4 + z / 64,
        n % 64 == z % 64,
{
    lemma_quotient(n, 0x40000, x / 4, x % 4 * 0x10000 + y * 256 + z);
    lemma_quotient(n, 0x1000, x * 16 + y / 16, y % 16 * 256 + z);
    lemma_quotient(x * 16 + y / 16, 64, x / 4, x % 4 * 16 + y / 16);
    lemma_quotient(n, 64, x * 1024 + y * 4 + z / 64, z % 64);
    lemma_quotient(x * 1024 + y * 4 + z / 64, 64, x * 16 + y / 16, y % 16 * 4 + z / 64);
}

proof fn lemma_four_symbols(n: int)
    requires
        0 <= n < 0x100_0000,
    ensures
        four_symbols(n).len() == 4,
        four_symbols(n)[0] == symbol_for(n / 0x40000),
        four_symbols(n)[1] == symbol_for(n / 0x1000 % 64),
        four_symbols(n)[2] == symbol_for(n / 64 % 64),
        four_symbols(n)[3] == symbol_for(n % 64),
{
}

proof fn lemma_full_group(input: Seq<u8>, i: int, x: u8, y: u8, z: u8)
    requires
        0 <= i,
        i + 4 <= input.len(),
        input[i] == symbol_for(x as int / 4),
        input[i + 1] == symbol_for(x % 4 * 16 + y / 16),
        input[i + 2] == symbol_for(y % 16 * 4 + z / 64),
        input[i + 3] == symbol_for(z as int % 64),
    ensures
        !is_blank(input[i]),
        group_from(input, i, seq![], 0) matches Some(g) && g.1 == i + 4 && g.0.len() == 4
            && group_bytes(g.0) == seq![x, y, z],
{
    let (a, b, c, d) = (
        x as int / 4,
        x % 4 * 16 + y / 16,
        y % 16 * 4 + z / 64,
        z as int % 64,
    );
    lemma_symbol(a);
    let e = Seq::<u8>::empty();
    let v = e.push(a as u8).push(b as u8).push(c as u8).push(d as u8);
    lemma_symbol_joins(input, i, e, a);
    lemma_symbol_joins(input, i + 1, e.push(a as u8), b);
    lemma_symbol_joins(input, i + 2, e.push(a as u8).push(b as u8), c);
    lemma_symbol_joins(input, i + 3, e.push(a as u8).push(b as u8).push(c as u8), d);
    assert(group_from(input, i + 4, v, 0) == Some((v, i + 4)));
    assert(v[0] == a && v[1] == b && v[2] == c && v[3] == d);
    assert(group_bytes(v) =~= seq![x, y, z]);
}

proof fn lemma_short_group(input: Seq<u8>, i: int, x: u8, y: u8, z: u8, k: int)
    requires
        0 <= i,
        i + 4 <= input.len(),
        k == 2 || k == 3,
        input[i] == symbol_for(x as int / 4),
        input[i + 1] == symbol_for(x % 4 * 16 + y / 16),
        k == 2 ==> y == 0 && z == 0,
        k == 3 ==> z == 0,
        k == 3 ==> input[i + 2] == symbol_for(y % 16 * 4 + z / 64),
        k == 2 ==> input[i + 2] == 61,
        input[i + 3] == 61,
    ensures
        !is_blank(input[i]),
        group_from(input, i, seq![], 0) matches Some(g) && g.1 == i + 4 && g.0.len() == k
            && group_bytes(g.0) == seq![x, y, z].take(k - 1),
{
    let (a, b, c) = (x as int / 4, x % 4 * 16 + y / 16, y % 16 * 4 + z / 64);
    lemma_symbol(a);
    let e = Seq::<u8>::empty();
    let two = e.push(a as u8).push(b as u8);
    lemma_symbol_joins(input, i, e, a);
    lemma_symbol_joins(input, i + 1, e.push(a as u8), b);
    if k == 2 {
        assert(group_from(input, i + 2, two, 0) == group_from(input, i + 3, two, 1));
        assert(group_from(input, i + 3, two, 1) == group_from(input, i + 4, two, 2));
        assert(group_from(input, i + 4, two, 2) == Some((two, i + 4)));
        assert(two[0] == a && two[1] == b);
        assert(group_bytes(two) =~= seq![x, y, z].take(1));
    } else {
        let three = two.push(c as u8);
        lemma_symbol_joins(input, i + 2, two, c);
        assert(group_from(input, i + 3, three, 0) == group_from(input, i + 4, three, 1));
        assert(group_from(input, i + 4, three, 1) == Some((three, i + 4)));
        assert(three[0] == a && three[1] == b && three[2] == c);
        assert(group_bytes(three) =~= seq![x, y, z].take(2));
    }
}

proof fn lemma_last_group(input: Seq<u8>, i: int, x: u8, y: u8, z: u8, k: int)
    requires
        0 <= i,
        i + 4 == input.len(),
        k == 2 || k == 3,
        input[i] == symbol_for(x as int / 4),
        input[i + 1] == symbol_for(x % 4 * 16 + y / 16),
        k == 2 ==> y == 0 && z == 0,
        k == 3 ==> z == 0,
        k == 3 ==> input[i + 2] == symbol_for(y % 16 * 4 + z / 64),
        k == 2 ==> input[i + 2] == 61,
        input[i + 3] == 61,
    ensures
        decoded_from(input, i) == Some(seq![x, y, z].take(k - 1)),
{
    lemma_short_group(input, i, x, y, z, k);
    assert(decoded_from(input, i + 4) == Some(Seq::<u8>::empty()));
    assert(seq![x, y, z].take(k - 1) + Seq::<u8>::empty() =~= seq![x, y, z].take(k - 1));
}

proof fn lemma_decoded(input: Seq<u8>, i: int, bytes: Seq<u8>)
    requires
        0 <= i <= input.len(),
        input.skip(i) == in_base64(bytes),
    ensures
        decoded_from(input, i) == Some(bytes),
    decreases bytes.len(),
{
    let t = in_base64(bytes);
    assert forall|j: int| 0 <= j < t.len() implies #[trigger] input[i + j] == t[j] by {
        assert(input.skip(i)[j] == input[i + j]);
    }
    assert(input.len() == i + t.len());
    if bytes.len() == 0 {
        assert(bytes =~= seq![]);
    } else if bytes.len() == 1 {
        let n = bytes[0] * 0x10000;
        lemma_four_symbols(n);
        lemma_quarters(n, bytes[0] as int, 0, 0);
        assert(t.len() == 4);
        assert(input[i + 0] == t[0] && input[i + 1] == t[1] && input[i + 2] == t[2] && input[i + 3]
            == t[3]);
        lemma_last_group(input, i, bytes[0], 0, 0, 2);
        assert(seq![bytes[0], 0u8, 0u8].take(1) =~= bytes);
    } else if bytes.len() == 2 {
        let n = bytes[0] * 0x10000 + bytes[1] * 256;
        lemma_four_symbols(n);
        lemma_quarters(n, bytes[0] as int, bytes[1] as int, 0);
        assert(t.len() == 4);
        assert(input[i + 0] == t[0] && input[i + 1] == t[1] && input[i + 2] == t[2] && input[i + 3]
            == t[3]);
        lemma_last_group(input, i, bytes[0], bytes[1], 0, 3);
        assert(seq![bytes[0], bytes[1], 0u8].take(2) =~= bytes);
    } else {
        let n = bytes[0] * 0x10000 + bytes[1] * 256 + bytes[2];
        let rest = in_base64(bytes.skip(3));
        lemma_four_symbols(n);
        lemma_quarters(n, bytes[0] as int, bytes[1] as int, bytes[2] as int);
        assert(t.len() == 4 + rest.len());
        assert(input[i + 0] == t[0] && input[i + 1] == t[1] && input[i + 2] == t[2] && input[i + 3]
            == t[3]);
        assert(t.skip(4) =~= rest);
        assert(input.skip(i + 4) =~= input.skip(i).skip(4));
        lemma_full_group(input, i, bytes[0], bytes[1], bytes[2]);
        lemma_decoded(input, i + 4, bytes.skip(3));
        assert(seq![bytes[0], bytes[1], bytes[2]] + bytes.skip(3) =~= bytes);
    }
}

/// Whatever is written in base64 is decoded to the bytes that were written.
pub proof fn law_base64_decodes(bytes: Seq<u8>)
    ensures
        decoded_from(in_base64(bytes), 0) == Some(bytes),
{
    assert(in_base64(bytes).skip(0) =~= in_base64(bytes));
    lemma_decoded(in_base64(bytes), 0, bytes);
}

/// A base64 text whose first symbol is none, and neither a blank nor an equals sign, is refused.
pub proof fn law_base64_other_symbol(text: Seq<u8>)
    requires
        text.len() > 0,
        !(65 <= text[0] <= 90 || 97 <= text[0] <= 122 || 48 <= text[0] <= 57 || text[0] == 43
            || text[0] == 47 || text[0] == 61 || text[0] == 32 || text[0] == 10 || text[0] == 13
            || text[0] == 9),
    ensures
        decoded_from(text, 0) is None,
{
}

// ── Numbers ──

/// A number in decimal digits.
pub open spec fn in_digits(n: int) -> Seq<u8>
    decreases n,
{
    if n < 10 {
        seq![(48 + n) as u8]
    } else {
        in_digits(n / 10).push((48 + n % 10) as u8)
    }
}

proof fn lemma_in_digits(n: int)
    requires
        0 <= n,
    ensures
        in_digits(n).len() > 0,
        all_digits(in_digits(n)),
        digits_value(in_digits(n)) == n,
    decreases n,
{
    if n < 10 {
        let s = in_digits(n);
        assert(s.drop_last() =~= Seq::<u8>::empty());
        assert(s.last() == 48 + n);
        reveal_with_fuel(digits_value, 2);
    } else {
        lemma_in_digits(n / 10);
        let front = in_digits(n / 10);
        let s = in_digits(n);
        assert(s.drop_last() =~= front);
        assert forall|i: int| #![trigger s[i]] 0 <= i < s.len() implies is_digit(s[i]) by {
            if i < front.len() {
                assert(s[i] == front[i]);
            }
        }
        assert(n == n / 10 * 10 + n % 10);
    }
}

/// A number written in decimal is read, if it fits in 64 bits; a longer one is refused.
pub proof fn law_number_is_read(n: int)
    requires
        0 <= n,
    ensures
        n <= 0xFFFF_FFFF_FFFF_FFFF ==> decimal_value(in_digits(n)) == Some(n as u64),
        n > 0xFFFF_FFFF_FFFF_FFFF ==> decimal_value(in_digits(n)) is None,
{
    lemma_in_digits(n);
}

/// What holds anything but digits, or nothing, is no number.
pub proof fn law_other_text_is_no_number(text: Seq<u8>, i: int)
    requires
        text.len() == 0 || (0 <= i < text.len() && !(48 <= text[i] <= 57)),
    ensures
        decimal_value(text) is None,
{
}

// ── Keys and their values ──

/// Whether a text holds `mark` at `at`, and nowhere before.
pub open spec fn first_at(text: Seq<u8>, mark: Seq<u8>, at: int) -> bool {
    &&& has_at(text, at, mark)
    &&& forall|j: int| 0 <= j < at ==> !#[trigger] has_at(text, j, mark)
}

proof fn lemma_found(text: Seq<u8>, mark: Seq<u8>, at: int, i: int)
    requires
        mark.len() > 0,
        first_at(text, mark, at),
        0 <= i <= at,
    ensures
        found_from(text, mark, i) == Some(at),
    decreases at - i,
{
    if i < at {
        assert(!has_at(text, i, mark));
        lemma_found(text, mark, at, i + 1);
    }
}

proof fn lemma_blanks(text: Seq<u8>, from: int, to: int)
    requires
        0 <= from <= to < text.len(),
        forall|j: int|
            #![trigger text[j]]
            from <= j < to ==> text[j] == 32 || text[j] == 9 || text[j] == 10 || text[j] == 13,
        !(text[to] == 32 || text[to] == 9 || text[to] == 10 || text[to] == 13),
    ensures
        past_blanks(text, from) == to,
    decreases to - from,
{
    if from < to {
        lemma_blanks(text, from + 1, to);
    }
}

proof fn lemma_next_quote(text: Seq<u8>, from: int, to: int)
    requires
        0 <= from <= to < text.len(),
        text[to] == 34,
        forall|j: int| #![trigger text[j]] from <= j < to ==> text[j] != 34,
    ensures
        next_of(text, 34, from) == Some(to),
    decreases to - from,
{
    if from < to {
        lemma_next_quote(text, from + 1, to);
    }
}

proof fn lemma_number_end(text: Seq<u8>, from: int, to: int)
    requires
        0 <= from <= to <= text.len(),
        forall|j: int| #![trigger text[j]] from <= j < to ==> 48 <= text[j] <= 57,
        to < text.len() ==> !(48 <= text[to] <= 57 || text[to] == 45 || text[to] == 46),
    ensures
        past_number(text, from) == to,
    decreases to - from,
{
    if from < to {
        lemma_number_end(text, from + 1, to);
    }
}

/// A key between quotes, and a colon.
pub open spec fn key_mark(key: Seq<u8>) -> Seq<u8> {
    seq![34u8] + key + seq![34u8, 58u8]
}

/// Whether blanks alone lie between two places.
pub open spec fn blank_between(text: Seq<u8>, from: int, to: int) -> bool {
    0 <= from <= to && forall|j: int|
        #![trigger text[j]]
        from <= j < to ==> text[j] == 32 || text[j] == 9 || text[j] == 10 || text[j] == 13
}

/// Whether a text, under the first occurrence of a key and after blanks, holds `value` between
/// quotes.
pub open spec fn quotes_under(text: Seq<u8>, key: Seq<u8>, value: Seq<u8>) -> bool {
    exists|at: int, v: int| #[trigger] quotes_at(text, key, value, at, v)
}

pub open spec fn quotes_at(text: Seq<u8>, key: Seq<u8>, value: Seq<u8>, at: int, v: int) -> bool {
    &&& first_at(text, key_mark(key), at)
    &&& blank_between(text, at + key.len() + 3, v)
    &&& has_at(text, v, seq![34u8] + value + seq![34u8])
    &&& !value.contains(34u8)
}

/// Whether a text, under the first occurrence of a key and after blanks, holds a number.
pub open spec fn counts_under(text: Seq<u8>, key: Seq<u8>, n: int) -> bool {
    exists|at: int, v: int| #[trigger] counts_at(text, key, n, at, v)
}

pub open spec fn counts_at(text: Seq<u8>, key: Seq<u8>, n: int, at: int, v: int) -> bool {
    &&& 0 <= n
    &&& first_at(text, key_mark(key), at)
    &&& blank_between(text, at + key.len() + 3, v)
    &&& has_at(text, v, in_digits(n))
    &&& {
        let e = v + in_digits(n).len();
        e < text.len() ==> !(48 <= text[e] <= 57 || text[e] == 45 || text[e] == 46)
    }
}

/// The text between quotes under a key is found.
pub proof fn law_quoted_value_is_found(text: Seq<u8>, key: Seq<char>, value: Seq<u8>)
    requires
        quotes_under(text, encode_utf8(key), value),
    ensures
        json_string(text, key) == Some(value),
{
    let k = encode_utf8(key);
    let (at, v) = choose|at: int, v: int| #[trigger] quotes_at(text, k, value, at, v);
    let mark = key_mark(k);
    assert(mark =~= quoted_key(key));
    assert(mark.len() == k.len() + 3);
    lemma_found(text, mark, at, 0);
    let whole = seq![34u8] + value + seq![34u8];
    let part = text.subrange(v, v + whole.len());
    assert(part == whole);
    assert(part[0] == text[v]);
    assert(whole[0] == 34);
    assert(whole[1int + value.len()] == 34);
    let e = v + 1 + value.len();
    assert(part[1int + value.len()] == text[e]);
    lemma_blanks(text, at + mark.len(), v);
    assert forall|j: int| #![trigger text[j]] v + 1 <= j < e implies text[j] != 34 by {
        assert(part[j - v] == text[j]);
        assert(whole[j - v] == value[j - v - 1]);
        assert(value.contains(value[j - v - 1]));
    }
    lemma_next_quote(text, v + 1, e);
    assert(text.subrange(v + 1, e) =~= value) by {
        assert forall|j: int| 0 <= j < value.len() implies text[v + 1 + j] == value[j] by {
            assert(part[j + 1] == text[v + 1 + j]);
            assert(whole[j + 1] == value[j]);
        }
    }
}

/// The number under a key is found.
pub proof fn law_number_is_found(text: Seq<u8>, key: Seq<char>, n: int)
    requires
        counts_under(text, encode_utf8(key), n),
        n <= 0xFFFF_FFFF_FFFF_FFFF,
    ensures
        json_number(text, key) == Some(n as u64),
        n >= 0,
{
    let k = encode_utf8(key);
    let (at, v) = choose|at: int, v: int| #[trigger] counts_at(text, k, n, at, v);
    let mark = key_mark(k);
    assert(mark =~= quoted_key(key));
    assert(mark.len() == k.len() + 3);
    lemma_found(text, mark, at, 0);
    lemma_in_digits(n);
    let digits = in_digits(n);
    let part = text.subrange(v, v + digits.len());
    assert(part == digits);
    assert forall|j: int| #![trigger text[j]] v <= j < v + digits.len() implies 48 <= text[j]
        <= 57 by {
        assert(part[j - v] == text[j]);
        assert(is_digit(digits[j - v]));
    }
    lemma_blanks(text, at + mark.len(), v);
    lemma_number_end(text, v + 1, v + digits.len());
    assert(text.subrange(v, v + digits.len()) =~= digits);
    law_number_is_read(n);
}

/// A key that a text does not hold has no value and no object.
pub proof fn law_missing_key(text: Seq<u8>, key: Seq<char>)
    requires
        forall|j: int| !#[trigger] has_at(text, j, key_mark(encode_utf8(key))),
    ensures
        json_string(text, key) is None,
        json_object(text, key) is None,
{
    let mark = key_mark(encode_utf8(key));
    assert(mark =~= quoted_key(key));
    lemma_nowhere(text, mark, 0);
    let open = mark.push(123);
    assert forall|j: int| !#[trigger] has_at(text, j, open) by {
        if has_at(text, j, open) {
            assert(text.subrange(j, j + mark.len()) =~= text.subrange(j, j + open.len()).take(
                mark.len() as int,
            ));
            assert(open.take(mark.len() as int) =~= mark);
            assert(has_at(text, j, mark));
        }
    }
    lemma_nowhere(text, open, 0);
}

proof fn lemma_nowhere(text: Seq<u8>, mark: Seq<u8>, i: int)
    requires
        0 <= i,
        forall|j: int| !#[trigger] has_at(text, j, mark),
    ensures
        found_from(text, mark, i) is None,
    decreases text.len() - i,
{
    if !(i + mark.len() > text.len() || i >= text.len()) {
        assert(!has_at(text, i, mark));
        lemma_nowhere(text, mark, i + 1);
    }
}

/// How many braces of the first `n` bytes are open.
pub open spec fn open_braces(s: Seq<u8>, n: int) -> int
    decreases n,
{
    if n <= 0 {
        0
    } else {
        open_braces(s, n - 1) + if s[n - 1] == 123 {
            1int
        } else if s[n - 1] == 125 {
            -1int
        } else {
            0int
        }
    }
}

/// Whether every brace of a text has its partner in it.
pub open spec fn braces_match(s: Seq<u8>) -> bool {
    open_braces(s, s.len() as int) == 0 && forall|n: int|
        0 <= n <= s.len() ==> #[trigger] open_braces(s, n) >= 0
}

/// Whether a text holds, directly under the first occurrence of a key before a brace, an
/// object with this inside.
pub open spec fn object_under(text: Seq<u8>, key: Seq<u8>, inner: Seq<u8>) -> bool {
    exists|at: int| #[trigger] object_at(text, key, inner, at)
}

pub open spec fn object_at(text: Seq<u8>, key: Seq<u8>, inner: Seq<u8>, at: int) -> bool {
    &&& first_at(text, key_mark(key).push(123), at)
    &&& has_at(text, at + key.len() + 3, seq![123u8] + inner + seq![125u8])
    &&& braces_match(inner)
}

proof fn lemma_closing(text: Seq<u8>, open: int, inner: Seq<u8>, i: int)
    requires
        0 <= open,
        has_at(text, open, seq![123u8] + inner + seq![125u8]),
        braces_match(inner),
        0 <= i <= inner.len(),
    ensures
        closing_brace(text, open + 1 + i, 1 + open_braces(inner, i)) == Some(
            open + 1 + inner.len(),
        ),
    decreases inner.len() - i,
{
    let whole = seq![123u8] + inner + seq![125u8];
    let part = text.subrange(open, open + whole.len());
    assert(part[1 + i] == text[open + 1 + i]);
    if i < inner.len() {
        assert(whole[1 + i] == inner[i]);
        assert(open_braces(inner, i + 1) >= 0);
        assert(open_braces(inner, i) >= 0);
        lemma_closing(text, open, inner, i + 1);
    } else {
        assert(whole[1 + i] == 125);
    }
}

/// The object under a key is found, up to the brace that closes it.
pub proof fn law_object_is_found(text: Seq<u8>, key: Seq<char>, inner: Seq<u8>)
    requires
        object_under(text, encode_utf8(key), inner),
    ensures
        json_object(text, key) == Some(seq![123u8] + inner + seq![125u8]),
{
    let k = encode_utf8(key);
    let at = choose|at: int| #[trigger] object_at(text, k, inner, at);
    let mark = key_mark(k).push(123);
    assert(mark =~= quoted_key(key).push(123));
    assert(mark.len() == k.len() + 4);
    lemma_found(text, mark, at, 0);
    let open = at + mark.len() - 1;
    assert(open_braces(inner, 0) == 0);
    lemma_closing(text, open, inner, 0);
    let whole = seq![123u8] + inner + seq![125u8];
    assert(text.subrange(open, open + 1 + inner.len() + 1) =~= whole);
}

/// The bytes in base64 under a key are found.
pub proof fn law_base64_is_found(text: Seq<u8>, key: Seq<char>, bytes: Seq<u8>)
    requires
        quotes_under(text, encode_utf8(key), in_base64(bytes)),
    ensures
        json_base64(text, key) == Some(bytes),
{
    law_quoted_value_is_found(text, key, in_base64(bytes));
    law_base64_decodes(bytes);
}

} // verus!
