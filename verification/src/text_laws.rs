//! How texts are taken apart, put together and ordered, and where paths lead.
use vstd::prelude::*;

use crate::error::Error;
use crate::order::text_before;
use crate::path::{canonical, canonical_part, law_normalized_is_canonical, lemma_rooted_starts, lemma_segments_of_rooted, normalizable, normalized, path_char, resolved_parts, rooted, spelled, walked};
use crate::synthetic::{filled, path_halves, readable, slash_from};
use crate::text::{decimal, is_white_space, lemma_split_no_separator, lemma_split_nonempty, paired, split_on, trim_end, trim_start, trimmed, utf16_lossy};

verus! {

// ── Pieces ──

/// Pieces with a separator between each two.
pub open spec fn with_separator(pieces: Seq<Seq<char>>, sep: char) -> Seq<char>
    decreases pieces.len(),
{
    if pieces.len() == 0 {
        seq![]
    } else if pieces.len() == 1 {
        pieces[0]
    } else {
        with_separator(pieces.drop_last(), sep) + seq![sep] + pieces.last()
    }
}

/// A text is split into pieces that hold no separator and that give the text back when they
/// are put together with separators.
pub proof fn law_pieces_make_up_the_text(s: Seq<char>, sep: char)
    ensures
        split_on(s, sep).len() > 0,
        with_separator(split_on(s, sep), sep) == s,
        forall|k: int|
            #![trigger split_on(s, sep)[k]]
            0 <= k < split_on(s, sep).len() ==> !split_on(s, sep)[k].contains(sep),
    decreases s.len(),
{
    lemma_split_nonempty(s, sep);
    let all = split_on(s, sep);
    assert forall|k: int| #![trigger all[k]] 0 <= k < all.len() implies !all[k].contains(sep) by {
        lemma_split_no_separator(s, sep, k);
    }
    if s.len() == 0 {
        assert(s =~= seq![]);
    } else {
        law_pieces_make_up_the_text(s.drop_last(), sep);
        let front = split_on(s.drop_last(), sep);
        if s.last() == sep {
            assert(all.drop_last() =~= front);
            assert(all.last() =~= Seq::<char>::empty());
            assert(s.drop_last() + seq![sep] + Seq::<char>::empty() =~= s);
        } else if front.len() == 1 {
            assert(all.len() == 1);
            assert(s.drop_last().push(s.last()) =~= s);
        } else {
            assert(all.drop_last() =~= front.drop_last());
            assert(all.last() == front.last().push(s.last()));
            let head = with_separator(front.drop_last(), sep) + seq![sep];
            assert(s.drop_last() == head + front.last());
            assert(head + front.last().push(s.last()) =~= s.drop_last().push(s.last()));
            assert(s.drop_last().push(s.last()) =~= s);
        }
    }
}

/// Trimming a character from the end takes all of it from there and nothing else.
pub proof fn law_trimmed_end(s: Seq<char>, c: char)
    ensures
        ({
            let t = trim_end(s, c);
            &&& t.len() <= s.len()
            &&& t == s.take(t.len() as int)
            &&& forall|i: int| #![trigger s[i]] t.len() <= i < s.len() ==> s[i] == c
            &&& t.len() > 0 ==> t.last() != c
        }),
    decreases s.len(),
{
    if s.len() > 0 && s.last() == c {
        law_trimmed_end(s.drop_last(), c);
        let t = trim_end(s, c);
        assert(s.drop_last().take(t.len() as int) =~= s.take(t.len() as int));
        assert forall|i: int| #![trigger s[i]] t.len() <= i < s.len() implies s[i] == c by {
            if i < s.len() - 1 {
                assert(s.drop_last()[i] == s[i]);
            }
        }
    } else {
        assert(s.take(s.len() as int) =~= s);
    }
}

/// Trimming a character from the start takes all of it from there and nothing else.
pub proof fn law_trimmed_start(s: Seq<char>, c: char)
    ensures
        ({
            let t = trim_start(s, c);
            let k = s.len() - t.len();
            &&& 0 <= k
            &&& t == s.skip(k)
            &&& forall|i: int| #![trigger s[i]] 0 <= i < k ==> s[i] == c
            &&& t.len() > 0 ==> t[0] != c
        }),
    decreases s.len(),
{
    if s.len() > 0 && s[0] == c {
        law_trimmed_start(s.skip(1), c);
        let t = trim_start(s, c);
        let k = s.len() - t.len();
        assert(s.skip(1).skip(k - 1) =~= s.skip(k));
        assert forall|i: int| #![trigger s[i]] 0 <= i < k implies s[i] == c by {
            if i > 0 {
                assert(s.skip(1)[i - 1] == s[i]);
            }
        }
    } else {
        assert(s.skip(0) =~= s);
    }
}

/// A text without the white space around it neither starts nor ends with any, and what was
/// taken is white space.
pub proof fn law_trimmed_text(s: Seq<char>) -> (k: int)
    ensures
        ({
            let t = trimmed(s);
            &&& 0 <= k && k + t.len() <= s.len()
            &&& t == s.subrange(k, k + t.len())
            &&& t.len() > 0 ==> !is_white_space(t[0]) && !is_white_space(t.last())
            &&& forall|i: int|
                #![trigger s[i]]
                (0 <= i < k || k + t.len() <= i < s.len()) ==> is_white_space(s[i])
        }),
    decreases s.len(),
{
    let t = trimmed(s);
    if s.len() > 0 && is_white_space(s[0]) {
        let j = law_trimmed_text(s.skip(1));
        assert(s.skip(1).subrange(j, j + t.len()) =~= s.subrange(j + 1, j + 1 + t.len()));
        assert forall|i: int|
            #![trigger s[i]]
            (0 <= i < j + 1 || j + 1 + t.len() <= i < s.len()) implies is_white_space(s[i]) by {
            if i > 0 {
                assert(s.skip(1)[i - 1] == s[i]);
            }
        }
        j + 1
    } else if s.len() > 0 && is_white_space(s.last()) {
        let j = law_trimmed_text(s.drop_last());
        assert(s.drop_last().subrange(j, j + t.len()) =~= s.subrange(j, j + t.len()));
        assert forall|i: int|
            #![trigger s[i]]
            (0 <= i < j || j + t.len() <= i < s.len()) implies is_white_space(s[i]) by {
            if i < s.len() - 1 {
                assert(s.drop_last()[i] == s[i]);
            }
        }
        j
    } else {
        assert(s.subrange(0, s.len() as int) =~= s);
        0
    }
}

/// The last character of a number in decimal is its lowest digit, and the ones before it are
/// the number without that digit.
pub proof fn law_decimal_digits(n: nat)
    ensures
        decimal(n).len() > 0,
        decimal(n).last() as int == 48 + n % 10,
        n >= 10 ==> decimal(n).drop_last() == decimal(n / 10),
        n < 10 ==> decimal(n).len() == 1,
{
    if n >= 10 {
        assert(decimal(n).drop_last() =~= decimal(n / 10));
    }
}

/// A text of two-byte units with a pair at its start reads as the character of the pair, and
/// then the rest; a half on its own reads as the replacement character.
pub proof fn law_pair_is_one_character(c: char, rest: Seq<u16>)
    requires
        0x1_0000 <= c as int,
    ensures
        ({
            let v = c as int - 0x1_0000;
            let high = (0xd800 + v / 0x400) as u16;
            let low = (0xdc00 + v % 0x400) as u16;
            utf16_lossy(seq![high, low] + rest) == seq![c] + utf16_lossy(rest)
        }),
{
    let v = c as int - 0x1_0000;
    assert(v <= 0xf_ffff);
    let high = (0xd800 + v / 0x400) as u16;
    let low = (0xdc00 + v % 0x400) as u16;
    let s = seq![high, low] + rest;
    assert(v / 0x400 <= 0x3ff);
    assert(s[0] == high && s[1] == low);
    assert(s.skip(2) =~= rest);
    assert((high - 0xd800) * 0x400 + (low - 0xdc00) == v);
    assert(paired(high, low) == c);
}

// ── Order ──

/// Of two texts the one comes first whose character is smaller where they first differ, and a
/// text comes before every longer one that starts with it.
pub proof fn law_first_difference_decides(a: Seq<char>, b: Seq<char>, k: int)
    requires
        0 <= k <= a.len(),
        k <= b.len(),
        forall|i: int| #![trigger a[i]] 0 <= i < k ==> a[i] == b[i],
    ensures
        k < a.len() && k < b.len() && a[k] != b[k] ==> text_before(a, b) == ((a[k] as int) < (
        b[k] as int)),
        k == a.len() && k < b.len() ==> text_before(a, b),
        k == b.len() ==> !text_before(a, b),
    decreases k,
{
    if k > 0 {
        let (x, y) = (a.skip(1), b.skip(1));
        assert(a[0] == b[0]);
        assert forall|i: int| #![trigger x[i]] 0 <= i < k - 1 implies x[i] == y[i] by {
            assert(a[i + 1] == b[i + 1]);
        }
        law_first_difference_decides(x, y, k - 1);
    }
}

// ── Halves ──

/// A path is cut at its first slash.
pub proof fn law_path_is_cut_at_its_first_slash(front: Seq<char>, back: Seq<char>)
    requires
        !front.contains('/'),
    ensures
        path_halves(front + seq!['/'] + back) == (front, Some(back)),
        path_halves(front) == (front, None::<Seq<char>>),
{
    let s = front + seq!['/'] + back;
    let k = front.len() as int;
    lemma_slash_at(s, 0, k, front);
    lemma_slash_at(front, 0, k, front);
    assert(s.take(k) =~= front);
    assert(s.skip(k + 1) =~= back);
}

proof fn lemma_slash_at(s: Seq<char>, i: int, k: int, front: Seq<char>)
    requires
        0 <= i <= k,
        k == front.len(),
        k <= s.len(),
        k < s.len() ==> s[k] == '/',
        !front.contains('/'),
        forall|j: int| #![trigger s[j]] 0 <= j < k ==> s[j] == front[j],
    ensures
        slash_from(s, i) == k,
    decreases k - i,
{
    if i < k {
        assert(front.contains(front[i]));
        assert(s[i] == front[i]);
        lemma_slash_at(s, i + 1, k, front);
    }
}

/// A read gives the bytes from its offset on, as many as there are and fit, and leaves the rest
/// of the buffer.
pub proof fn law_read_gives_the_bytes_from_its_offset(
    buffer: Seq<u8>,
    data: Seq<u8>,
    offset: int,
    i: int,
)
    requires
        0 <= offset,
        0 <= i < buffer.len(),
    ensures
        ({
            let n = readable(data.len() as int, offset, buffer.len() as int);
            let after = filled(buffer, data, offset);
            &&& 0 <= n <= buffer.len()
            &&& offset <= data.len() ==> (n == buffer.len() || offset + n == data.len()) && offset
                + n <= data.len()
            &&& offset > data.len() ==> n == 0
            &&& after.len() == buffer.len()
            &&& after[i] == if i < n {
                data[offset + i]
            } else {
                buffer[i]
            }
        }),
{
}

// ── Paths ──

proof fn lemma_walked_on(parts: Seq<Seq<char>>, a: Seq<Seq<char>>, b: Seq<Seq<char>>)
    ensures
        walked(parts, a + b) == walked(walked(parts, a), b),
    decreases b.len(),
{
    if b.len() == 0 {
        assert(a + b =~= a);
    } else {
        assert((a + b).drop_last() =~= a + b.drop_last());
        assert((a + b).last() == b.last());
        lemma_walked_on(parts, a, b.drop_last());
    }
}

proof fn lemma_split_at(a: Seq<char>, b: Seq<char>)
    ensures
        split_on(a + seq!['/'] + b, '/') == split_on(a, '/') + split_on(b, '/'),
    decreases b.len(),
{
    let s = a + seq!['/'] + b;
    lemma_split_nonempty(b, '/');
    if b.len() == 0 {
        assert(b =~= Seq::empty());
        assert(s.drop_last() =~= a);
        assert(s.last() == '/');
        assert(split_on(a, '/') + split_on(b, '/') =~= split_on(a, '/').push(Seq::empty()));
    } else {
        let d = b.drop_last();
        lemma_split_at(a, d);
        lemma_split_nonempty(d, '/');
        assert(s.drop_last() =~= a + seq!['/'] + d);
        assert(s.last() == b.last());
        let (x, y) = (split_on(a, '/'), split_on(d, '/'));
        assert((x + y).last() == y.last());
        assert(split_on(s, '/') =~= x + split_on(b, '/'));
    }
}

/// Whether a text has no white space around it and is spelled as a path.
pub open spec fn plain_path(p: Seq<char>) -> bool {
    trimmed(p) == p && spelled(p)
}

/// Where a path leads does not depend on the working directory if it starts with a slash.
pub proof fn law_absolute_path_needs_no_directory(path: Seq<char>, a: Seq<char>, b: Seq<char>)
    requires
        plain_path(path),
        path[0] == '/',
        normalizable(path, a),
        normalizable(path, b),
    ensures
        normalized(path, a) == normalized(path, b),
{
}

/// A path that goes on from another leads where the rest leads from there.
pub proof fn law_path_goes_on(a: Seq<char>, b: Seq<char>, cwd: Seq<char>, there: Seq<char>)
    requires
        plain_path(a),
        plain_path(b),
        b[0] != '/',
        plain_path(a + seq!['/'] + b),
        plain_path(cwd),
        cwd[0] == '/',
        normalized(a, cwd) == Ok::<Seq<char>, Error>(there),
        plain_path(there),
    ensures
        normalized(a + seq!['/'] + b, cwd) == normalized(b, there),
{
    let whole = a + seq!['/'] + b;
    assert(whole[0] == a[0]);
    let parts = resolved_parts(a, cwd);
    law_normalized_is_canonical(a, cwd);
    assert(there == rooted(parts));
    lemma_segments_of_rooted(parts);
    lemma_rooted_starts(parts);
    lemma_split_at(a, b);
    let none = Seq::<Seq<char>>::empty();
    lemma_walked_on(none, split_on(a, '/'), split_on(b, '/'));
    lemma_walked_on(walked(none, split_on(cwd, '/')), split_on(a, '/'), split_on(b, '/'));
}

/// The path of a name from a directory is the directory's with the name behind it; one dot
/// stays there and two dots lead to the directory that holds it, or stay at the root.
pub proof fn law_one_step(parts: Seq<Seq<char>>, name: Seq<char>)
    requires
        canonical(parts),
        canonical_part(name),
        plain_path(name),
        plain_path(rooted(parts)),
    ensures
        normalized(name, rooted(parts)) == Ok::<Seq<char>, Error>(rooted(parts.push(name))),
        normalized(seq!['.'], rooted(parts)) == Ok::<Seq<char>, Error>(rooted(parts)),
        parts.len() > 0 ==> normalized(seq!['.', '.'], rooted(parts)) == Ok::<Seq<char>, Error>(
            rooted(parts.drop_last()),
        ),
        parts.len() == 0 ==> normalized(seq!['.', '.'], rooted(parts)) == Ok::<Seq<char>, Error>(
            seq!['/'],
        ),
{
    lemma_segments_of_rooted(parts);
    lemma_rooted_starts(parts);
    let dot = seq!['.'];
    let up = seq!['.', '.'];
    assert(name[0] != '/') by {
        assert(name.contains(name[0]));
    }
    assert(!dot.contains('/') && !up.contains('/'));
    lemma_split_bare(name);
    lemma_split_bare(dot);
    lemma_split_bare(up);
    assert(trimmed(dot) == dot && trimmed(up) == up);
    assert(spelled(dot) && spelled(up)) by {
        assert(path_char('.'));
    }
    reveal_with_fuel(walked, 2);
    let none = Seq::<Seq<char>>::empty();
    assert(seq![name].drop_last() =~= none && seq![dot].drop_last() =~= none
        && seq![up].drop_last() =~= none);
    assert(walked(parts, none) == parts);
}

proof fn lemma_split_bare(s: Seq<char>)
    requires
        !s.contains('/'),
    ensures
        split_on(s, '/') == seq![s],
    decreases s.len(),
{
    if s.len() == 0 {
        assert(s =~= Seq::empty());
    } else {
        let d = s.drop_last();
        assert forall|i: int| 0 <= i < d.len() implies d[i] != '/' by {
            assert(s.contains(s[i]));
        }
        assert(!d.contains('/'));
        lemma_split_bare(d);
        assert(s.contains(s.last()));
        assert(d.push(s.last()) =~= s);
        assert(split_on(s, '/') =~= seq![s]);
    }
}

} // verus!
