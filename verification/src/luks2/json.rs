//! Finding single values in a JSON text by scanning for their keys.
use vstd::prelude::*;
use vstd::slice::slice_subrange;
use vstd::utf8::encode_utf8;

use crate::bytes::bytes_eq;
use crate::luks2::base64::is_blank;

verus! {

/// Where `pattern` first occurs in `text`, from position `i` on.
pub open spec fn found_from(text: Seq<u8>, pattern: Seq<u8>, i: int) -> Option<int>
    decreases text.len() - i,
{
    if i + pattern.len() > text.len() || i >= text.len() {
        None
    } else if text.subrange(i, i + pattern.len()) == pattern {
        Some(i)
    } else {
        found_from(text, pattern, i + 1)
    }
}

/// Where `pattern` first occurs in `text`.
fn find_bytes(text: &[u8], pattern: &Vec<u8>) -> (r: Option<usize>)
    requires
        pattern@.len() > 0,
    ensures
        match r {
            Some(k) => found_from(text@, pattern@, 0) == Some(k as int) && k + pattern@.len()
                <= text@.len(),
            None => found_from(text@, pattern@, 0) is None,
        },
{
    let n: usize = pattern.len();
    let mut i: usize = 0;
    if text.len() < n {
        return None;
    }
    while i <= text.len() - n
        invariant
            n == pattern@.len(),
            0 < n <= text@.len(),
            i <= text@.len() - n + 1,
            found_from(text@, pattern@, 0) == found_from(text@, pattern@, i as int),
        decreases text@.len() - i,
    {
        if bytes_eq(slice_subrange(text, i, i + n), pattern.as_slice()) {
            return Some(i);
        }
        i = i + 1;
    }
    None
}

/// The first position from `i` on that holds no blank.
pub open spec fn past_blanks(text: Seq<u8>, i: int) -> int
    decreases text.len() - i,
{
    if 0 <= i < text.len() && is_blank(text[i]) {
        past_blanks(text, i + 1)
    } else {
        i
    }
}

/// The first position from `i` on that holds `c`, if any does.
pub open spec fn next_of(text: Seq<u8>, c: u8, i: int) -> Option<int>
    decreases text.len() - i,
{
    if i >= text.len() {
        None
    } else if text[i] == c {
        Some(i)
    } else {
        next_of(text, c, i + 1)
    }
}

/// Whether a byte is a decimal digit.
pub open spec fn is_digit(c: u8) -> bool {
    48 <= c <= 57
}

/// Whether a byte can stand in a number: a digit, a sign or a point.
pub open spec fn in_number(c: u8) -> bool {
    is_digit(c) || c == 45 || c == 46
}

/// The first position from `i` on that cannot belong to a number.
pub open spec fn past_number(text: Seq<u8>, i: int) -> int
    decreases text.len() - i,
{
    if 0 <= i < text.len() && in_number(text[i]) {
        past_number(text, i + 1)
    } else {
        i
    }
}

/// A key as it stands before its value: quoted, with a colon.
pub open spec fn quoted_key(key: Seq<char>) -> Seq<u8> {
    seq![34u8] + encode_utf8(key) + seq![34u8, 58u8]
}

/// The quoted string or the number that starts at `i`.
pub open spec fn scalar_at(text: Seq<u8>, i: int) -> Option<Seq<u8>> {
    if i >= text.len() {
        None
    } else if text[i] == 34 {
        match next_of(text, 34, i + 1) {
            None => None,
            Some(e) => Some(text.subrange(i + 1, e)),
        }
    } else if text[i] == 45 || is_digit(text[i]) {
        Some(text.subrange(i, past_number(text, i + 1)))
    } else {
        None
    }
}

/// The quoted string or the number under the first occurrence of a key.
pub open spec fn json_string(text: Seq<u8>, key: Seq<char>) -> Option<Seq<u8>> {
    match found_from(text, quoted_key(key), 0) {
        None => None,
        Some(p) => scalar_at(text, past_blanks(text, p + quoted_key(key).len())),
    }
}

/// A key before a value, as bytes.
fn key_bytes(key: &str) -> (r: Vec<u8>)
    ensures
        r@ == quoted_key(key@),
{
    let mut p: Vec<u8> = Vec::new();
    p.push(34);
    p.extend_from_slice(key.as_bytes());
    p.push(34);
    p.push(58);
    assert(p@ =~= quoted_key(key@));
    p
}

/// Finds the quoted string or the number under a key. A number is returned as its text.
pub fn json_find_string<'a>(haystack: &'a [u8], key: &str) -> (r: Option<&'a [u8]>)
    ensures
        match r {
            Some(v) => json_string(haystack@, key@) == Some(v@),
            None => json_string(haystack@, key@) is None,
        },
{
    let pattern = key_bytes(key);
    let at: usize = match find_bytes(haystack, &pattern) {
        None => {
            return None;
        },
        Some(k) => k,
    };
    let _total: usize = haystack.len();
    let from: usize = at + pattern.len();
    let mut i: usize = from;
    while i < haystack.len() && (haystack[i] == 32 || haystack[i] == 10 || haystack[i] == 13
        || haystack[i] == 9)
        invariant
            from <= i <= haystack@.len(),
            past_blanks(haystack@, from as int) == past_blanks(haystack@, i as int),
        decreases haystack@.len() - i,
    {
        i = i + 1;
    }
    if i >= haystack.len() {
        return None;
    }
    if haystack[i] == 34 {
        let first: usize = i + 1;
        let mut e: usize = first;
        while e < haystack.len()
            invariant
                first <= e <= haystack@.len(),
                next_of(haystack@, 34, first as int) == next_of(haystack@, 34, e as int),
                i + 1 == first,
                forall|j: int| first <= j < e ==> haystack@[j] != 34,
                json_string(haystack@, key@) == scalar_at(haystack@, i as int),
                haystack@[i as int] == 34,
            decreases haystack@.len() - e,
        {
            if haystack[e] == 34 {
                return Some(slice_subrange(haystack, first, e));
            }
            e = e + 1;
        }
        None
    } else if haystack[i] == 45 || (48 <= haystack[i] && haystack[i] <= 57) {
        let first: usize = i + 1;
        let mut e: usize = first;
        while e < haystack.len() && (haystack[e] == 45 || haystack[e] == 46 || (48 <= haystack[e]
            && haystack[e] <= 57))
            invariant
                first <= e <= haystack@.len(),
                past_number(haystack@, first as int) == past_number(haystack@, e as int),
            decreases haystack@.len() - e,
        {
            e = e + 1;
        }
        Some(slice_subrange(haystack, i, e))
    } else {
        None
    }
}

/// Where the brace closes that makes `depth` braces balance, scanning from `i`.
pub open spec fn closing_brace(text: Seq<u8>, i: int, depth: int) -> Option<int>
    decreases text.len() - i,
{
    if i >= text.len() {
        None
    } else if text[i] == 123 {
        closing_brace(text, i + 1, depth + 1)
    } else if text[i] == 125 {
        if depth == 1 {
            Some(i)
        } else {
            closing_brace(text, i + 1, depth - 1)
        }
    } else {
        closing_brace(text, i + 1, depth)
    }
}

/// The object, braces included, under the first occurrence of a key directly before a
/// brace.
pub open spec fn json_object(text: Seq<u8>, key: Seq<char>) -> Option<Seq<u8>> {
    let pattern = quoted_key(key).push(123);
    match found_from(text, pattern, 0) {
        None => None,
        Some(p) => {
            let open = p + pattern.len() - 1;
            match closing_brace(text, open + 1, 1) {
                None => None,
                Some(e) => Some(text.subrange(open, e + 1)),
            }
        },
    }
}

/// Finds the object under a key.
pub fn json_find_object<'a>(haystack: &'a [u8], key: &str) -> (r: Option<&'a [u8]>)
    ensures
        match r {
            Some(v) => json_object(haystack@, key@) == Some(v@),
            None => json_object(haystack@, key@) is None,
        },
{
    let mut pattern = key_bytes(key);
    pattern.push(123);
    let at: usize = match find_bytes(haystack, &pattern) {
        None => {
            return None;
        },
        Some(k) => k,
    };
    let _total: usize = haystack.len();
    let open: usize = at + (pattern.len() - 1);
    let mut depth: usize = 1;
    let mut i: usize = open + 1;
    while i < haystack.len()
        invariant
            open < i <= haystack@.len(),
            1 <= depth <= i - open,
            json_object(haystack@, key@) == match closing_brace(
                haystack@,
                i as int,
                depth as int,
            ) {
                None => None,
                Some(e) => Some(haystack@.subrange(open as int, e + 1)),
            },
        decreases haystack@.len() - i,
    {
        if haystack[i] == 123 {
            depth = depth + 1;
        } else if haystack[i] == 125 {
            depth = depth - 1;
            if depth == 0 {
                return Some(slice_subrange(haystack, open, i + 1));
            }
        }
        i = i + 1;
    }
    None
}

/// Whether a text is nothing but digits.
pub open spec fn all_digits(s: Seq<u8>) -> bool {
    forall|i: int| #![trigger s[i]] 0 <= i < s.len() ==> is_digit(s[i])
}

/// The number that digits write.
pub open spec fn digits_value(s: Seq<u8>) -> nat
    decreases s.len(),
{
    if s.len() == 0 {
        0
    } else {
        digits_value(s.drop_last()) * 10 + (s.last() - 48) as nat
    }
}

/// The number a decimal text writes, if it is one and fits in 64 bits.
pub open spec fn decimal_value(s: Seq<u8>) -> Option<u64> {
    if s.len() > 0 && all_digits(s) && digits_value(s) <= u64::MAX {
        Some(digits_value(s) as u64)
    } else {
        None
    }
}

/// Parses a decimal number. Signs are refused.
pub fn parse_decimal(s: &[u8]) -> (r: Option<u64>)
    ensures
        r == decimal_value(s@),
{
    if s.len() == 0 {
        return None;
    }
    let mut value: u64 = 0;
    let mut overflow: bool = false;
    let mut i: usize = 0;
    while i < s.len()
        invariant
            i <= s@.len(),
            all_digits(s@.take(i as int)),
            !overflow ==> value == digits_value(s@.take(i as int)),
            overflow ==> digits_value(s@.take(i as int)) > u64::MAX,
        decreases s@.len() - i,
    {
        let c: u8 = s[i];
        if !(48 <= c && c <= 57) {
            assert(!is_digit(s@[i as int]));
            return None;
        }
        proof {
            let head = s@.take(i + 1);
            assert(head.drop_last() =~= s@.take(i as int));
            assert(head.last() == c);
            assert forall|j: int| #![trigger head[j]] 0 <= j < head.len() implies is_digit(
                head[j],
            ) by {
                if j < i {
                    assert(s@.take(i as int)[j] == head[j]);
                }
            }
        }
        if !overflow {
            let wide: u128 = value as u128 * 10 + (c - 48) as u128;
            if wide > u64::MAX as u128 {
                overflow = true;
            } else {
                value = wide as u64;
            }
        }
        i = i + 1;
    }
    assert(s@.take(i as int) =~= s@);
    if overflow {
        None
    } else {
        Some(value)
    }
}

} // verus!
