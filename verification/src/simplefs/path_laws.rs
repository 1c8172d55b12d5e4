//! How paths, parents and names relate, and how lookups survive changes.
use vstd::prelude::*;

use crate::error::Error;
use crate::simplefs::lookup::{child_entry, is_here, is_up, lookup, parent_or_root, walk};
use crate::simplefs::names::{base_text, parent_text, root_path};
use crate::simplefs::state::TreeView;
use crate::text::{last_position, lemma_split_nonempty, split_on, trim_end, trim_start};

verus! {

/// Splitting at a separator that follows `a` and precedes a piece without one.
pub proof fn lemma_split_join(a: Seq<char>, b: Seq<char>, sep: char)
    requires
        !b.contains(sep),
    ensures
        split_on(a + seq![sep] + b, sep) == split_on(a, sep).push(b),
    decreases b.len(),
{
    let s = a + seq![sep] + b;
    if b.len() == 0 {
        assert(s.drop_last() =~= a);
        assert(s.last() == sep);
        assert(b =~= Seq::empty());
    } else {
        let c = b.drop_last();
        assert forall|i: int| 0 <= i < c.len() implies c[i] != sep by {
            assert(b.contains(b[i]));
        }
        lemma_split_join(a, c, sep);
        assert(s.drop_last() =~= a + seq![sep] + c);
        assert(s.last() == b.last());
        assert(b.contains(b.last()));
        let p = split_on(a, sep).push(c);
        assert(c.push(b.last()) =~= b);
        assert(p.update(p.len() - 1, p.last().push(b.last())) =~= split_on(a, sep).push(b));
    }
}

/// A text without the separator is its own only piece.
pub proof fn lemma_split_whole(b: Seq<char>, sep: char)
    requires
        !b.contains(sep),
    ensures
        split_on(b, sep) == seq![b],
    decreases b.len(),
{
    if b.len() > 0 {
        let c = b.drop_last();
        assert forall|i: int| 0 <= i < c.len() implies c[i] != sep by {
            assert(b.contains(b[i]));
        }
        lemma_split_whole(c, sep);
        assert(b.contains(b.last()));
        assert(c.push(b.last()) =~= b);
        assert(seq![c].update(0, c.push(b.last())) =~= seq![b]);
    } else {
        assert(b =~= Seq::empty());
    }
}

/// A leading separator adds an empty first piece.
pub proof fn lemma_split_leading(s: Seq<char>, sep: char)
    ensures
        split_on(seq![sep] + s, sep) == seq![Seq::<char>::empty()] + split_on(s, sep),
    decreases s.len(),
{
    let whole = seq![sep] + s;
    lemma_split_nonempty(s, sep);
    if s.len() == 0 {
        reveal_with_fuel(split_on, 3);
        assert(whole.drop_last() =~= Seq::<char>::empty());
        assert(whole.last() == sep);
        assert(split_on(whole, sep) =~= seq![Seq::<char>::empty()] + split_on(s, sep));
    } else {
        let r = s.drop_last();
        lemma_split_leading(r, sep);
        lemma_split_nonempty(r, sep);
        assert(whole.drop_last() =~= seq![sep] + r);
        assert(whole.last() == s.last());
        let first = seq![Seq::<char>::empty()];
        let pieces = split_on(r, sep);
        let all = first + pieces;
        assert(all.last() == pieces.last());
        if s.last() == sep {
            assert(all.push(Seq::empty()) =~= first + pieces.push(Seq::empty()));
        } else {
            let grown = pieces.last().push(s.last());
            assert(all.update(all.len() - 1, grown) =~= first + pieces.update(
                pieces.len() - 1,
                grown,
            ));
        }
    }
}

/// Walking on from where a walk ended.
pub proof fn lemma_walk_push(t: TreeView, steps: Seq<Seq<char>>, s: Seq<char>, at: int, cs: bool)
    ensures
        walk(t, steps.push(s), at, cs) == match walk(t, steps, at, cs) {
            Ok(i) => walk(t, seq![s], i, cs),
            Err(e) => Err::<int, Error>(e),
        },
    decreases steps.len(),
{
    reveal_with_fuel(walk, 3);
    let all = steps.push(s);
    if steps.len() == 0 {
        assert(all =~= seq![s]);
    } else {
        assert(all[0] == steps[0]);
        assert(all.skip(1) =~= steps.skip(1).push(s));
        if is_here(steps[0]) {
            lemma_walk_push(t, steps.skip(1), s, at, cs);
        } else if is_up(steps[0]) {
            lemma_walk_push(t, steps.skip(1), s, parent_or_root(t, at), cs);
        } else {
            match child_entry(t, at, steps[0], cs) {
                Ok(d) => {
                    lemma_walk_push(t, steps.skip(1), s, t.entries[d].inode_index as int, cs);
                },
                Err(_) => {},
            }
        }
    }
}

/// Trailing separators do not change where a walk ends.
pub proof fn lemma_walk_trim_end(t: TreeView, s: Seq<char>, at: int, cs: bool)
    ensures
        walk(t, split_on(trim_end(s, '/'), '/'), at, cs) == walk(t, split_on(s, '/'), at, cs),
    decreases s.len(),
{
    reveal_with_fuel(walk, 3);
    if s.len() > 0 && s.last() == '/' {
        let r = s.drop_last();
        lemma_walk_trim_end(t, r, at, cs);
        assert(s =~= r + seq!['/'] + Seq::<char>::empty());
        lemma_split_join(r, Seq::empty(), '/');
        lemma_walk_push(t, split_on(r, '/'), Seq::empty(), at, cs);
        match walk(t, split_on(r, '/'), at, cs) {
            Ok(i) => {
                assert(seq![Seq::<char>::empty()].skip(1) =~= Seq::<Seq<char>>::empty());
            },
            Err(_) => {},
        }
    }
}

/// Leading separators do not change where a walk ends.
pub proof fn lemma_walk_trim_start(t: TreeView, s: Seq<char>, at: int, cs: bool)
    ensures
        walk(t, split_on(trim_start(s, '/'), '/'), at, cs) == walk(t, split_on(s, '/'), at, cs),
    decreases s.len(),
{
    reveal_with_fuel(walk, 3);
    if s.len() > 0 && s[0] == '/' {
        let r = s.skip(1);
        lemma_walk_trim_start(t, r, at, cs);
        assert(s =~= seq!['/'] + r);
        lemma_split_leading(r, '/');
        let all = seq![Seq::<char>::empty()] + split_on(r, '/');
        assert(all.skip(1) =~= split_on(r, '/'));
    }
}

/// Looking a path up is walking along its pieces, whatever slashes surround it.
pub proof fn lemma_lookup_is_walk(t: TreeView, path: Seq<char>, cs: bool)
    ensures
        lookup(t, path, cs) == walk(t, split_on(path, '/'), 0, cs),
{
    reveal_with_fuel(walk, 3);
    lemma_walk_trim_end(t, path, 0, cs);
    lemma_walk_trim_start(t, trim_end(path, '/'), 0, cs);
    if path.len() == 0 {
        assert(split_on(path, '/') =~= seq![Seq::<char>::empty()]);
        assert(seq![Seq::<char>::empty()].skip(1) =~= Seq::<Seq<char>>::empty());
    } else if path == root_path() {
        let e = Seq::<char>::empty();
        assert(path =~= e + seq!['/'] + e);
        lemma_split_join(e, e, '/');
        assert(split_on(e, '/') =~= seq![e]);
        let all = seq![e].push(e);
        assert(all.skip(1) =~= seq![e]);
        assert(seq![e].skip(1) =~= Seq::<Seq<char>>::empty());
    }
}

pub proof fn lemma_last_position(s: Seq<char>, c: char)
    ensures
        ({
            let p = last_position(s, c);
            &&& -1 <= p < s.len()
            &&& p >= 0 ==> s[p] == c
            &&& forall|i: int| p < i < s.len() ==> s[i] != c
        }),
    decreases s.len(),
{
    if s.len() > 0 && s.last() != c {
        let r = s.drop_last();
        lemma_last_position(r, c);
        let p = last_position(r, c);
        assert forall|i: int| p < i < s.len() implies s[i] != c by {
            if i < r.len() {
                assert(r[i] == s[i]);
            }
        }
    }
}

/// Looking a path up is looking its parent up and then its last component.
pub proof fn lemma_lookup_parent(t: TreeView, path: Seq<char>, cs: bool)
    requires
        path != root_path(),
        trim_end(path, '/').len() > 0,
    ensures
        !base_text(path).contains('/'),
        base_text(path).len() > 0,
        parent_text(path) is Some,
        lookup(t, path, cs) == match lookup(t, parent_text(path)->0, cs) {
            Ok(i) => walk(t, seq![base_text(path)], i, cs),
            Err(e) => Err::<int, Error>(e),
        },
{
    reveal_with_fuel(walk, 3);
    let s = trim_end(path, '/');
    let p = last_position(s, '/');
    let b = base_text(path);
    lemma_last_position(s, '/');
    lemma_trim_end_no_slash(path);
    assert forall|i: int| 0 <= i < b.len() implies b[i] != '/' by {
        assert(b[i] == s[p + 1 + i]);
    }
    assert(p < s.len() - 1);
    lemma_lookup_is_walk(t, path, cs);
    lemma_walk_trim_end(t, path, 0, cs);
    let parent = parent_text(path)->0;
    lemma_lookup_is_walk(t, parent, cs);
    if p < 0 {
        assert(s.skip(0) =~= s);
        lemma_split_whole(s, '/');
        assert(lookup(t, parent, cs) == Ok::<int, Error>(0));
    } else {
        let a = s.take(p);
        assert(s =~= a + seq!['/'] + b);
        lemma_split_join(a, b, '/');
        lemma_walk_push(t, split_on(a, '/'), b, 0, cs);
        if p == 0 {
            assert(a =~= Seq::empty());
            assert(split_on(a, '/') =~= seq![Seq::<char>::empty()]);
            assert(seq![Seq::<char>::empty()].skip(1) =~= Seq::<Seq<char>>::empty());
        }
    }
}

pub proof fn lemma_trim_end_no_slash(s: Seq<char>)
    ensures
        trim_end(s, '/').len() > 0 ==> trim_end(s, '/').last() != '/',
    decreases s.len(),
{
    if s.len() > 0 && s.last() == '/' {
        lemma_trim_end_no_slash(s.drop_last());
    }
}

/// A single step that is a name.
pub proof fn lemma_walk_one(t: TreeView, name: Seq<char>, at: int, cs: bool)
    ensures
        walk(t, seq![name], at, cs) == if is_here(name) {
            Ok::<int, Error>(at)
        } else if is_up(name) {
            Ok(parent_or_root(t, at))
        } else {
            match child_entry(t, at, name, cs) {
                Ok(d) => Ok(t.entries[d].inode_index as int),
                Err(e) => Err(e),
            }
        },
{
    reveal_with_fuel(walk, 3);
    assert(seq![name].skip(1) =~= Seq::<Seq<char>>::empty());
}

/// Where a path does not lead anywhere but its parent does, the parent has no
/// child of that name, and the name is not a dot name.
pub proof fn lemma_absent_child(t: TreeView, path: Seq<char>, cs: bool, parent: int)
    requires
        path != root_path(),
        trim_end(path, '/').len() > 0,
        lookup(t, path, cs) is Err,
        lookup(t, parent_text(path)->0, cs) == Ok::<int, Error>(parent),
    ensures
        !is_here(base_text(path)),
        !is_up(base_text(path)),
        child_entry(t, parent, base_text(path), cs) is Err,
        child_entry(t, parent, base_text(path), cs)->Err_0 == lookup(t, path, cs)->Err_0,
{
    lemma_lookup_parent(t, path, cs);
    lemma_walk_one(t, base_text(path), parent, cs);
}

} // verus!
