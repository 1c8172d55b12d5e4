//! Paths: their components, and the one canonical spelling of each.
use vstd::prelude::*;
use vstd::string::*;

use crate::error::{Error, Result};
use crate::simplefs::lookup::is_step;
use crate::text::{chars_of, lemma_split_no_separator, lemma_split_nonempty, split_on, split_str, texts, trim_str, trimmed};

verus! {

/// The non-empty texts among some.
pub open spec fn nonempty(pieces: Seq<Seq<char>>) -> Seq<Seq<char>>
    decreases pieces.len(),
{
    if pieces.len() == 0 {
        seq![]
    } else {
        let rest = nonempty(pieces.drop_last());
        if pieces.last().len() == 0 {
            rest
        } else {
            rest.push(pieces.last())
        }
    }
}

/// The components of a path, empty ones left out.
pub open spec fn segments(path: Seq<char>) -> Seq<Seq<char>> {
    nonempty(split_on(path, '/'))
}

/// The components of a path, empty ones left out.
pub fn path_segments(path: &str) -> (r: Vec<String>)
    ensures
        texts(r@) == segments(path@),
{
    let pieces = split_str(path, '/');
    let mut out: Vec<String> = Vec::new();
    let mut i: usize = 0;
    assert(texts(out@) =~= seq![]);
    while i < pieces.len()
        invariant
            i <= pieces@.len(),
            texts(pieces@) == split_on(path@, '/'),
            texts(out@) == nonempty(texts(pieces@).take(i as int)),
        decreases pieces@.len() - i,
    {
        proof {
            let head = texts(pieces@).take(i + 1);
            assert(head.drop_last() =~= texts(pieces@).take(i as int));
            assert(head.last() == pieces@[i as int]@);
        }
        if pieces[i].as_str().unicode_len() > 0 {
            let ghost before = out@;
            out.push(pieces[i].as_str().to_owned());
            assert(texts(out@) =~= texts(before).push(pieces@[i as int]@));
        }
        i = i + 1;
    }
    assert(texts(pieces@).take(i as int) =~= texts(pieces@));
    out
}

/// Components, each after a slash.
pub open spec fn slashed(parts: Seq<Seq<char>>) -> Seq<char>
    decreases parts.len(),
{
    if parts.len() == 0 {
        seq![]
    } else {
        slashed(parts.drop_last()) + seq!['/'] + parts.last()
    }
}

/// The absolute path with the given components.
pub open spec fn rooted(parts: Seq<Seq<char>>) -> Seq<char> {
    if parts.len() == 0 {
        seq!['/']
    } else {
        slashed(parts)
    }
}

/// Builds the absolute path with the given components.
pub fn build_normalized_path(parts: &Vec<String>) -> (r: String)
    ensures
        r@ == rooted(texts(parts@)),
{
    proof {
        reveal_strlit("/");
    }
    assert("/"@ =~= seq!['/']);
    if parts.len() == 0 {
        return "/".to_owned();
    }
    let mut out = String::new();
    let mut i: usize = 0;
    assert(out@ =~= seq![]);
    while i < parts.len()
        invariant
            i <= parts@.len(),
            out@ == slashed(texts(parts@).take(i as int)),
            "/"@ == seq!['/'],
        decreases parts@.len() - i,
    {
        proof {
            let head = texts(parts@).take(i + 1);
            assert(head.drop_last() =~= texts(parts@).take(i as int));
            assert(head.last() == parts@[i as int]@);
        }
        out.append("/");
        out.append(parts[i].as_str());
        i = i + 1;
    }
    assert(texts(parts@).take(i as int) =~= texts(parts@));
    out
}

/// One step of a walk: nothing and `.` stay, `..` goes up as far as the root, anything
/// else goes down.
pub open spec fn stepped(parts: Seq<Seq<char>>, piece: Seq<char>) -> Seq<Seq<char>> {
    if piece.len() == 0 || piece == seq!['.'] {
        parts
    } else if piece == seq!['.', '.'] {
        if parts.len() == 0 {
            parts
        } else {
            parts.drop_last()
        }
    } else {
        parts.push(piece)
    }
}

/// Where a walk along `pieces` leads from `parts`.
pub open spec fn walked(parts: Seq<Seq<char>>, pieces: Seq<Seq<char>>) -> Seq<Seq<char>>
    decreases pieces.len(),
{
    if pieces.len() == 0 {
        parts
    } else {
        stepped(walked(parts, pieces.drop_last()), pieces.last())
    }
}

/// Walks along the components of `path`.
fn collect_parts(parts: &mut Vec<String>, path: &str)
    ensures
        texts(final(parts)@) == walked(texts(old(parts)@), split_on(path@, '/')),
{
    let pieces = split_str(path, '/');
    let ghost start = texts(parts@);
    let mut i: usize = 0;
    while i < pieces.len()
        invariant
            i <= pieces@.len(),
            texts(pieces@) == split_on(path@, '/'),
            texts(parts@) == walked(start, texts(pieces@).take(i as int)),
        decreases pieces@.len() - i,
    {
        proof {
            let head = texts(pieces@).take(i + 1);
            assert(head.drop_last() =~= texts(pieces@).take(i as int));
            assert(head.last() == pieces@[i as int]@);
        }
        let piece = pieces[i].as_str();
        let ghost before = parts@;
        if piece.unicode_len() == 0 || is_step(piece, 1) {
        } else if is_step(piece, 2) {
            if parts.len() > 0 {
                let _ = parts.pop();
                assert(texts(parts@) =~= texts(before).drop_last());
            }
        } else {
            parts.push(piece.to_owned());
            assert(texts(parts@) =~= texts(before).push(piece@));
        }
        i = i + 1;
    }
    assert(texts(pieces@).take(i as int) =~= texts(pieces@));
}

/// Whether a path starts with a drive letter.
pub open spec fn drive_prefixed(path: Seq<char>) -> bool {
    path.len() >= 2 && path[1] == ':' && ('a' <= path[0] <= 'z' || 'A' <= path[0] <= 'Z')
}

/// Whether a path starts with a drive letter.
pub fn has_drive_prefix(path: &str) -> (r: bool)
    ensures
        r == drive_prefixed(path@),
{
    let chars = chars_of(path);
    chars.len() >= 2 && chars[1] == ':' && (('a' <= chars[0] && chars[0] <= 'z') || ('A'
        <= chars[0] && chars[0] <= 'Z'))
}

/// Whether a character may stand in a path: no control character, no backslash.
pub open spec fn path_char(c: char) -> bool {
    ' ' <= c && c != '\u{7f}' && c != '\\'
}

/// Whether a path is spelled in the one accepted path language: not empty, of accepted
/// characters, without the `//?/` prefix or a drive letter.
pub open spec fn spelled(path: Seq<char>) -> bool {
    &&& path.len() > 0
    &&& forall|i: int| #![trigger path[i]] 0 <= i < path.len() ==> path_char(path[i])
    &&& !(path.len() >= 4 && path[0] == '/' && path[1] == '/' && path[2] == '?' && path[3] == '/')
    &&& !drive_prefixed(path)
}

fn is_spelled(path: &str) -> (r: bool)
    ensures
        r == spelled(path@),
{
    let chars = chars_of(path);
    if chars.len() == 0 || has_drive_prefix(path) {
        return false;
    }
    if chars.len() >= 4 && chars[0] == '/' && chars[1] == '/' && chars[2] == '?' && chars[3] == '/' {
        return false;
    }
    let mut i: usize = 0;
    while i < chars.len()
        invariant
            chars@ == path@,
            i <= path@.len(),
            forall|j: int| #![trigger path@[j]] 0 <= j < i ==> path_char(path@[j]),
        decreases path@.len() - i,
    {
        let c = chars[i];
        if c < ' ' || c == '\u{7f}' || c == '\\' {
            assert(!path_char(path@[i as int]));
            return false;
        }
        i = i + 1;
    }
    true
}

/// The components of the canonical path for `path` as seen from `cwd`: an absolute path
/// is walked from the root, a relative one from `cwd`.
pub open spec fn resolved_parts(path: Seq<char>, cwd: Seq<char>) -> Seq<Seq<char>> {
    let raw = trimmed(path);
    if raw[0] == '/' {
        walked(seq![], split_on(raw, '/'))
    } else {
        walked(walked(seq![], split_on(trimmed(cwd), '/')), split_on(raw, '/'))
    }
}

/// Whether a path can be normalised from a working directory: both are spelled properly
/// once white space around them is dropped, and the working directory is absolute.
pub open spec fn normalizable(path: Seq<char>, cwd: Seq<char>) -> bool {
    spelled(trimmed(path)) && spelled(trimmed(cwd)) && trimmed(cwd)[0] == '/'
}

/// The canonical path for `path` as seen from `cwd`.
pub open spec fn normalized(path: Seq<char>, cwd: Seq<char>) -> core::result::Result<
    Seq<char>,
    Error,
> {
    if normalizable(path, cwd) {
        Ok(rooted(resolved_parts(path, cwd)))
    } else {
        Err(Error::InvalidArgument)
    }
}

/// Normalises a path against the current working directory. The result is absolute and
/// free of `.`, `..`, empty components and redundant slashes.
pub fn normalize_path(path: &str, cwd: &str) -> (r: Result<String>)
    ensures
        match r {
            Ok(s) => normalized(path@, cwd@) == Ok::<Seq<char>, Error>(s@),
            Err(e) => normalized(path@, cwd@) == Err::<Seq<char>, Error>(e),
        },
{
    let raw = trim_str(path);
    let base = trim_str(cwd);
    if !is_spelled(raw) || !is_spelled(base) {
        return Err(Error::InvalidArgument);
    }
    if base.get_char(0) != '/' {
        return Err(Error::InvalidArgument);
    }
    let mut parts: Vec<String> = Vec::new();
    assert(texts(parts@) =~= seq![]);
    if raw.get_char(0) != '/' {
        collect_parts(&mut parts, base);
    }
    collect_parts(&mut parts, raw);
    Ok(build_normalized_path(&parts))
}

/// Whether a component can stand in a canonical path.
pub open spec fn canonical_part(s: Seq<char>) -> bool {
    s.len() > 0 && s != seq!['.'] && s != seq!['.', '.'] && !s.contains('/')
}

/// Whether components can make up a canonical path.
pub open spec fn canonical(parts: Seq<Seq<char>>) -> bool {
    forall|k: int| #![trigger parts[k]] 0 <= k < parts.len() ==> canonical_part(parts[k])
}

proof fn lemma_walked_canonical(parts: Seq<Seq<char>>, pieces: Seq<Seq<char>>)
    requires
        canonical(parts),
        forall|k: int| #![trigger pieces[k]] 0 <= k < pieces.len() ==> !pieces[k].contains('/'),
    ensures
        canonical(walked(parts, pieces)),
    decreases pieces.len(),
{
    if pieces.len() > 0 {
        let d = pieces.drop_last();
        assert forall|k: int| #![trigger d[k]] 0 <= k < d.len() implies !d[k].contains('/') by {
            assert(pieces[k] == d[k]);
        }
        lemma_walked_canonical(parts, d);
        assert(pieces[pieces.len() - 1] == pieces.last());
        let w = walked(parts, d);
        assert forall|k: int| #![trigger w[k]] 0 <= k < w.len() implies canonical_part(w[k]) by {}
    }
}

proof fn lemma_pieces_bare(s: Seq<char>)
    ensures
        forall|k: int|
            #![trigger split_on(s, '/')[k]]
            0 <= k < split_on(s, '/').len() ==> !split_on(s, '/')[k].contains('/'),
{
    assert forall|k: int| #![trigger split_on(s, '/')[k]] 0 <= k < split_on(s, '/').len() implies !(
    split_on(s, '/')[k].contains('/')) by {
        lemma_split_no_separator(s, '/', k);
    }
}

/// A normalised path is the root or a sequence of components, each after one slash, none
/// of them empty, `.` or `..`.
pub proof fn law_normalized_is_canonical(path: Seq<char>, cwd: Seq<char>)
    requires
        normalizable(path, cwd),
    ensures
        canonical(resolved_parts(path, cwd)),
        normalized(path, cwd) == Ok::<Seq<char>, Error>(rooted(resolved_parts(path, cwd))),
        segments(rooted(resolved_parts(path, cwd))) == resolved_parts(path, cwd),
{
    lemma_pieces_bare(trimmed(path));
    lemma_pieces_bare(trimmed(cwd));
    lemma_walked_canonical(seq![], split_on(trimmed(cwd), '/'));
    lemma_walked_canonical(seq![], split_on(trimmed(path), '/'));
    lemma_walked_canonical(
        walked(seq![], split_on(trimmed(cwd), '/')),
        split_on(trimmed(path), '/'),
    );
    lemma_segments_of_rooted(resolved_parts(path, cwd));
}

/// Appending text without a separator lengthens the last piece.
proof fn lemma_split_append(s: Seq<char>, t: Seq<char>)
    requires
        !t.contains('/'),
    ensures
        split_on(s + t, '/') == split_on(s, '/').update(
            split_on(s, '/').len() - 1,
            split_on(s, '/').last() + t,
        ),
    decreases t.len(),
{
    lemma_split_nonempty(s, '/');
    let pieces = split_on(s, '/');
    if t.len() == 0 {
        assert(s + t =~= s);
        assert(pieces.last() + t =~= pieces.last());
        assert(pieces.update(pieces.len() - 1, pieces.last()) =~= pieces);
    } else {
        let d = t.drop_last();
        assert forall|i: int| 0 <= i < d.len() implies d[i] != '/' by {
            assert(t.contains(t[i]));
        }
        assert(!d.contains('/'));
        lemma_split_append(s, d);
        assert((s + t).drop_last() =~= s + d);
        assert((s + t).last() == t.last());
        assert(t.contains(t.last()));
        assert((pieces.last() + d).push(t.last()) =~= pieces.last() + t);
        assert(split_on(s + t, '/') =~= pieces.update(pieces.len() - 1, pieces.last() + t));
    }
}

proof fn lemma_split_slashed(parts: Seq<Seq<char>>)
    requires
        canonical(parts),
    ensures
        split_on(slashed(parts), '/') == seq![Seq::<char>::empty()] + parts,
    decreases parts.len(),
{
    if parts.len() == 0 {
        assert(slashed(parts) =~= Seq::<char>::empty());
        assert(seq![Seq::<char>::empty()] + parts =~= seq![Seq::<char>::empty()]);
    } else {
        let d = parts.drop_last();
        assert forall|k: int| #![trigger d[k]] 0 <= k < d.len() implies canonical_part(d[k]) by {
            assert(parts[k] == d[k]);
        }
        lemma_split_slashed(d);
        let head = slashed(d).push('/');
        assert(head.drop_last() =~= slashed(d));
        assert(split_on(head, '/') == split_on(slashed(d), '/').push(Seq::empty()));
        assert(canonical_part(parts[parts.len() - 1]));
        lemma_split_append(head, parts.last());
        assert(head + parts.last() =~= slashed(parts));
        assert(Seq::<char>::empty() + parts.last() =~= parts.last());
        assert(split_on(slashed(parts), '/') =~= seq![Seq::<char>::empty()] + parts);
    }
}

proof fn lemma_nonempty_of_canonical(parts: Seq<Seq<char>>)
    requires
        canonical(parts),
    ensures
        nonempty(seq![Seq::<char>::empty()] + parts) == parts,
        walked(seq![], seq![Seq::<char>::empty()] + parts) == parts,
    decreases parts.len(),
{
    let all = seq![Seq::<char>::empty()] + parts;
    if parts.len() == 0 {
        assert(all.drop_last() =~= seq![]);
        assert(nonempty(all.drop_last()) =~= parts);
        assert(walked(seq![], all.drop_last()) =~= parts);
    } else {
        let d = parts.drop_last();
        assert forall|k: int| #![trigger d[k]] 0 <= k < d.len() implies canonical_part(d[k]) by {
            assert(parts[k] == d[k]);
        }
        lemma_nonempty_of_canonical(d);
        assert(all.drop_last() =~= seq![Seq::<char>::empty()] + d);
        assert(all.last() == parts.last());
        assert(canonical_part(parts[parts.len() - 1]));
        assert(d.push(parts.last()) =~= parts);
    }
}

/// The pieces of the root path are two empty ones.
proof fn lemma_split_root()
    ensures
        split_on(seq!['/'], '/') == seq![Seq::<char>::empty(), Seq::<char>::empty()],
        segments(seq!['/']) == Seq::<Seq<char>>::empty(),
        walked(seq![], split_on(seq!['/'], '/')) == Seq::<Seq<char>>::empty(),
{
    let root = seq!['/'];
    assert(root.drop_last() =~= Seq::<char>::empty());
    assert(split_on(Seq::<char>::empty(), '/') == seq![Seq::<char>::empty()]);
    let two = seq![Seq::<char>::empty(), Seq::<char>::empty()];
    assert(split_on(root, '/') =~= two);
    assert(two.drop_last() =~= seq![Seq::<char>::empty()]);
    assert(two.drop_last().drop_last() =~= seq![]);
    assert(nonempty(two.drop_last().drop_last()) == Seq::<Seq<char>>::empty());
    assert(nonempty(two.drop_last()) == Seq::<Seq<char>>::empty());
    assert(walked(seq![], two.drop_last().drop_last()) == Seq::<Seq<char>>::empty());
    assert(walked(seq![], two.drop_last()) == Seq::<Seq<char>>::empty());
}

/// The components of the path built from canonical components are those components.
pub proof fn lemma_segments_of_rooted(parts: Seq<Seq<char>>)
    requires
        canonical(parts),
    ensures
        segments(rooted(parts)) == parts,
        walked(seq![], split_on(rooted(parts), '/')) == parts,
{
    if parts.len() == 0 {
        lemma_split_root();
        assert(parts =~= seq![]);
    } else {
        lemma_split_slashed(parts);
        lemma_nonempty_of_canonical(parts);
    }
}

/// Whether every character of a text may stand in a path.
spec fn clean(s: Seq<char>) -> bool {
    forall|i: int| #![trigger s[i]] 0 <= i < s.len() ==> path_char(s[i])
}

spec fn all_clean(parts: Seq<Seq<char>>) -> bool {
    forall|k: int| #![trigger parts[k]] 0 <= k < parts.len() ==> clean(parts[k])
}

proof fn lemma_split_clean(s: Seq<char>)
    requires
        clean(s),
    ensures
        all_clean(split_on(s, '/')),
    decreases s.len(),
{
    lemma_split_nonempty(s, '/');
    if s.len() > 0 {
        let d = s.drop_last();
        assert forall|i: int| #![trigger d[i]] 0 <= i < d.len() implies path_char(d[i]) by {
            assert(s[i] == d[i]);
        }
        lemma_split_clean(d);
        lemma_split_nonempty(d, '/');
        let pieces = split_on(d, '/');
        assert(clean(pieces[pieces.len() - 1]));
        assert(path_char(s[s.len() - 1]));
        let longer = pieces.last().push(s.last());
        assert forall|i: int| #![trigger longer[i]] 0 <= i < longer.len() implies path_char(
            longer[i],
        ) by {
            if i < pieces.last().len() {
                assert(path_char(pieces.last()[i]));
            }
        }
        assert(clean(longer));
        assert(clean(Seq::<char>::empty()));
    } else {
        assert(clean(Seq::<char>::empty()));
    }
}

proof fn lemma_walked_clean(parts: Seq<Seq<char>>, pieces: Seq<Seq<char>>)
    requires
        all_clean(parts),
        all_clean(pieces),
    ensures
        all_clean(walked(parts, pieces)),
    decreases pieces.len(),
{
    if pieces.len() > 0 {
        let d = pieces.drop_last();
        assert forall|k: int| #![trigger d[k]] 0 <= k < d.len() implies clean(d[k]) by {
            assert(pieces[k] == d[k]);
        }
        lemma_walked_clean(parts, d);
        assert(clean(pieces[pieces.len() - 1]));
        let w = walked(parts, d);
        assert forall|k: int| #![trigger w[k]] 0 <= k < w.len() implies clean(w[k]) by {}
    }
}

proof fn lemma_slashed_clean(parts: Seq<Seq<char>>)
    requires
        all_clean(parts),
    ensures
        clean(slashed(parts)),
    decreases parts.len(),
{
    if parts.len() > 0 {
        let d = parts.drop_last();
        assert forall|k: int| #![trigger d[k]] 0 <= k < d.len() implies clean(d[k]) by {
            assert(parts[k] == d[k]);
        }
        lemma_slashed_clean(d);
        assert(clean(parts[parts.len() - 1]));
        let s = slashed(parts);
        let head = slashed(d) + seq!['/'];
        assert forall|i: int| #![trigger s[i]] 0 <= i < s.len() implies path_char(s[i]) by {
            if i < slashed(d).len() {
                assert(path_char(slashed(d)[i]));
            } else if i > slashed(d).len() {
                assert(path_char(parts.last()[i - head.len()]));
            }
        }
    }
}

/// The second character of a canonical path is no slash.
proof fn lemma_second_char(parts: Seq<Seq<char>>)
    requires
        canonical(parts),
        parts.len() > 0,
    ensures
        slashed(parts).len() >= 2,
        slashed(parts)[0] == '/',
        slashed(parts)[1] != '/',
    decreases parts.len(),
{
    let d = parts.drop_last();
    assert forall|k: int| #![trigger d[k]] 0 <= k < d.len() implies canonical_part(d[k]) by {
        assert(parts[k] == d[k]);
    }
    assert(canonical_part(parts[parts.len() - 1]));
    if d.len() > 0 {
        lemma_second_char(d);
    } else {
        assert(slashed(d) =~= seq![]);
        assert(parts.last().contains(parts.last()[0]));
        assert(slashed(parts)[1] == parts.last()[0]);
    }
}

proof fn lemma_result_spelled(path: Seq<char>, cwd: Seq<char>)
    requires
        normalizable(path, cwd),
    ensures
        spelled(rooted(resolved_parts(path, cwd))),
{
    law_normalized_is_canonical(path, cwd);
    let parts = resolved_parts(path, cwd);
    let none = Seq::<Seq<char>>::empty();
    lemma_split_clean(trimmed(path));
    lemma_split_clean(trimmed(cwd));
    lemma_walked_clean(none, split_on(trimmed(path), '/'));
    lemma_walked_clean(none, split_on(trimmed(cwd), '/'));
    lemma_walked_clean(walked(none, split_on(trimmed(cwd), '/')), split_on(trimmed(path), '/'));
    lemma_slashed_clean(parts);
    lemma_rooted_starts(parts);
    if parts.len() > 0 {
        lemma_second_char(parts);
    }
}

/// Normalising a normalised path changes nothing, from whatever directory. White space
/// at the end of a path is not part of it, so a path that ends in some is left out.
pub proof fn law_normalize_is_idempotent(path: Seq<char>, cwd: Seq<char>, other: Seq<char>)
    requires
        normalizable(path, cwd),
        spelled(trimmed(other)),
        trimmed(other)[0] == '/',
        trimmed(rooted(resolved_parts(path, cwd))) == rooted(resolved_parts(path, cwd)),
    ensures
        normalized(rooted(resolved_parts(path, cwd)), other) == normalized(path, cwd),
{
    law_normalized_is_canonical(path, cwd);
    lemma_result_spelled(path, cwd);
    let parts = resolved_parts(path, cwd);
    lemma_segments_of_rooted(parts);
    lemma_rooted_starts(parts);
}

pub proof fn lemma_rooted_starts(parts: Seq<Seq<char>>)
    ensures
        rooted(parts).len() > 0,
        rooted(parts)[0] == '/',
    decreases parts.len(),
{
    if parts.len() > 1 {
        lemma_rooted_starts(parts.drop_last());
    } else if parts.len() == 1 {
        assert(slashed(parts.drop_last()) =~= seq![]);
    }
}

} // verus!
