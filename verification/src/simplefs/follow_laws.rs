//! Where symlinks lead: a path through a link leads where the link's target leads from the
//! directory that holds the link.
use vstd::prelude::*;
use vstd::utf8::{decode_utf8, valid_utf8};

use crate::block::BlockDevice;
use crate::error::Error;
use crate::simplefs::clear_laws::lemma_parent_is;
use crate::simplefs::constants::MAX_SYMLINK_DEPTH;
use crate::simplefs::lookup::{child_entry, is_here, is_up, lemma_find_entry_sound, lookup, parent_or_root, path_steps, unslashed, walk};
use crate::simplefs::names::root_path;
use crate::simplefs::path_laws::{lemma_last_position, lemma_split_join, lemma_split_leading, lemma_split_whole};
use crate::simplefs::state::TreeView;
use crate::simplefs::symlink::{follow, follow_walk, redirected, slashed, symlink_target, walked_up};
use crate::simplefs::tree::{VolumeGeometry, shape_ok};
use crate::simplefs::validate::slice_end;
use crate::text::{last_position, lemma_split_no_separator, lemma_split_nonempty, split_on, trim_end, trim_start};
use crate::vfs::NodeKind;

verus! {

/// Whether a path component is a name.
pub open spec fn plain_name(s: Seq<char>) -> bool {
    s.len() > 0 && !s.contains('/') && s != seq!['.'] && s != seq!['.', '.']
}

/// Whether walking along components meets no symlink, and gets to the end.
pub open spec fn meets_no_link(t: TreeView, steps: Seq<Seq<char>>, at: int, cs: bool) -> bool
    decreases steps.len(),
{
    if steps.len() == 0 {
        true
    } else if is_here(steps[0]) {
        meets_no_link(t, steps.skip(1), at, cs)
    } else if is_up(steps[0]) {
        meets_no_link(t, steps.skip(1), parent_or_root(t, at), cs)
    } else {
        match child_entry(t, at, steps[0], cs) {
            Ok(d) => {
                let i = t.entries[d].inode_index as int;
                t.inodes[i].kind != NodeKind::Symlink && meets_no_link(t, steps.skip(1), i, cs)
            },
            Err(_) => false,
        }
    }
}

/// The node that names lead to one below the other from the root, if none is a symlink.
pub open spec fn home(t: TreeView, names: Seq<Seq<char>>, cs: bool) -> Option<int>
    decreases names.len(),
{
    if names.len() == 0 {
        Some(0)
    } else {
        match home(t, names.drop_last(), cs) {
            None => None,
            Some(q) => if !plain_name(names.last()) {
                None
            } else {
                match child_entry(t, q, names.last(), cs) {
                    Err(_) => None,
                    Ok(d) => if t.inodes[t.entries[d].inode_index as int].kind
                        == NodeKind::Symlink {
                        None
                    } else {
                        Some(t.entries[d].inode_index as int)
                    },
                }
            },
        }
    }
}

/// The names without the last one, if there is one.
pub open spec fn names_up(names: Seq<Seq<char>>) -> Seq<Seq<char>> {
    if names.len() == 0 {
        names
    } else {
        names.drop_last()
    }
}

/// The names that lead where walking along components from others on does.
pub open spec fn names_along(steps: Seq<Seq<char>>, names: Seq<Seq<char>>) -> Seq<Seq<char>>
    decreases steps.len(),
{
    if steps.len() == 0 {
        names
    } else if is_here(steps[0]) {
        names_along(steps.skip(1), names)
    } else if is_up(steps[0]) {
        names_along(steps.skip(1), names_up(names))
    } else {
        names_along(steps.skip(1), names.push(steps[0]))
    }
}

// ── Text ──

proof fn lemma_split_two(a: Seq<char>, b: Seq<char>)
    ensures
        split_on(a + seq!['/'] + b, '/') == split_on(a, '/') + split_on(b, '/'),
    decreases b.len(),
{
    let s = a + seq!['/'] + b;
    lemma_split_nonempty(b, '/');
    if b.len() == 0 {
        assert(b =~= Seq::empty());
        lemma_split_join(a, b, '/');
        assert(split_on(b, '/') =~= seq![b]);
        assert(split_on(a, '/').push(b) =~= split_on(a, '/') + seq![b]);
    } else {
        let c = b.drop_last();
        lemma_split_two(a, c);
        lemma_split_nonempty(c, '/');
        assert(s.drop_last() =~= a + seq!['/'] + c);
        assert(s.last() == b.last());
        let x = split_on(a, '/');
        let y = split_on(c, '/');
        if b.last() == '/' {
            assert((x + y).push(Seq::empty()) =~= x + y.push(Seq::empty()));
        } else {
            let all = x + y;
            assert(all.last() == y.last());
            assert(all.update(all.len() - 1, all.last().push(b.last())) =~= x + y.update(
                y.len() - 1,
                y.last().push(b.last()),
            ));
        }
    }
}

proof fn lemma_slashed_push(names: Seq<Seq<char>>, n: Seq<char>)
    ensures
        slashed(names.push(n)) == slashed(names) + seq!['/'] + n,
    decreases names.len(),
{
    let all = names.push(n);
    if names.len() == 0 {
        reveal_with_fuel(slashed, 2);
        assert(all.skip(1) =~= Seq::<Seq<char>>::empty());
        assert(slashed(all) =~= slashed(names) + seq!['/'] + n);
    } else {
        assert(all[0] == names[0]);
        assert(all.skip(1) =~= names.skip(1).push(n));
        lemma_slashed_push(names.skip(1), n);
        assert(slashed(all) =~= slashed(names) + seq!['/'] + n);
    }
}

/// Pieces put together again are the text that was split.
proof fn lemma_slashed_split(s: Seq<char>)
    ensures
        slashed(split_on(s, '/')) == seq!['/'] + s,
    decreases s.len(),
{
    lemma_split_nonempty(s, '/');
    if s.len() == 0 {
        reveal_with_fuel(slashed, 2);
        assert(split_on(s, '/') =~= seq![Seq::<char>::empty()]);
        assert(seq![Seq::<char>::empty()].skip(1) =~= Seq::<Seq<char>>::empty());
        assert(slashed(split_on(s, '/')) =~= seq!['/'] + s);
    } else {
        let r = s.drop_last();
        lemma_slashed_split(r);
        lemma_split_nonempty(r, '/');
        let p = split_on(r, '/');
        if s.last() == '/' {
            lemma_slashed_push(p, Seq::empty());
            assert(slashed(split_on(s, '/')) =~= seq!['/'] + s);
        } else {
            let front = p.drop_last();
            lemma_slashed_push(front, p.last());
            assert(front.push(p.last()) =~= p);
            let grown = p.last().push(s.last());
            lemma_slashed_push(front, grown);
            assert(front.push(grown) =~= p.update(p.len() - 1, grown));
            assert(split_on(s, '/') == p.update(p.len() - 1, grown));
            assert(slashed(front) + seq!['/'] + p.last() =~= seq!['/'] + r);
            assert(slashed(front) + seq!['/'] + grown =~= (slashed(front) + seq!['/']
                + p.last()).push(s.last()));
            assert((seq!['/'] + r).push(s.last()) =~= seq!['/'] + s);
            assert(slashed(split_on(s, '/')) =~= seq!['/'] + s);
        }
    }
}

proof fn lemma_trim_end_appended(a: Seq<char>, b: Seq<char>)
    requires
        trim_end(b, '/').len() > 0,
    ensures
        trim_end(a + b, '/') == a + trim_end(b, '/'),
    decreases b.len(),
{
    if b.last() == '/' {
        assert((a + b).drop_last() =~= a + b.drop_last());
        assert((a + b).last() == b.last());
        lemma_trim_end_appended(a, b.drop_last());
    } else {
        assert((a + b).last() == b.last());
    }
}

proof fn lemma_trim_end_plain(s: Seq<char>)
    requires
        s.len() > 0,
        s.last() != '/',
    ensures
        trim_end(s, '/') == s,
{
}

// ── Walks ──

proof fn lemma_follow_trim_start<D: BlockDevice>(
    t: TreeView,
    device: D,
    s: Seq<char>,
    walked: Seq<char>,
    at: int,
    depth: nat,
    cs: bool,
)
    ensures
        follow_walk(t, device, split_on(trim_start(s, '/'), '/'), at, walked, depth, cs)
            == follow_walk(t, device, split_on(s, '/'), at, walked, depth, cs),
    decreases s.len(),
{
    if s.len() > 0 && s[0] == '/' {
        let r = s.skip(1);
        lemma_follow_trim_start(t, device, r, walked, at, depth, cs);
        assert(s =~= seq!['/'] + r);
        lemma_split_leading(r, '/');
        let all = seq![Seq::<char>::empty()] + split_on(r, '/');
        assert(all.skip(1) =~= split_on(r, '/'));
    }
}

/// Following a path is walking along its pieces, up to the slashes it ends in.
proof fn lemma_follow_is_walk<D: BlockDevice>(
    t: TreeView,
    device: D,
    path: Seq<char>,
    depth: nat,
    cs: bool,
)
    requires
        depth <= MAX_SYMLINK_DEPTH,
        trim_end(path, '/').len() > 0,
    ensures
        follow(t, device, path, depth, cs) == follow_walk(
            t,
            device,
            split_on(trim_end(path, '/'), '/'),
            0,
            Seq::empty(),
            depth,
            cs,
        ),
{
    assert(path.len() > 0);
    if path == root_path() {
        assert(path.drop_last() =~= Seq::empty());
        assert(path.last() == '/');
        reveal_with_fuel(trim_end, 3);
    }
    lemma_follow_trim_start(t, device, trim_end(path, '/'), Seq::empty(), 0, depth, cs);
}

/// Names that lead somewhere lead a walk there.
proof fn lemma_walk_home<D: BlockDevice>(
    t: TreeView,
    device: D,
    names: Seq<Seq<char>>,
    at: int,
    more: Seq<Seq<char>>,
    depth: nat,
    cs: bool,
)
    requires
        home(t, names, cs) == Some(at),
    ensures
        follow_walk(t, device, names + more, 0, Seq::empty(), depth, cs) == follow_walk(
            t,
            device,
            more,
            at,
            slashed(names),
            depth,
            cs,
        ),
    decreases names.len(),
{
    if names.len() == 0 {
        assert(names + more =~= more);
        assert(slashed(names) =~= Seq::empty());
    } else {
        let front = names.drop_last();
        let n = names.last();
        let q = home(t, front, cs)->0;
        let rest = seq![n] + more;
        lemma_walk_home(t, device, front, q, rest, depth, cs);
        assert(front + rest =~= names + more);
        assert(rest.skip(1) =~= more);
        lemma_slashed_push(front, n);
        assert(front.push(n) =~= names);
    }
}

proof fn lemma_up_text(names: Seq<Seq<char>>, n: Seq<char>)
    requires
        !n.contains('/'),
    ensures
        last_position(slashed(names) + seq!['/'] + n, '/') == slashed(names).len(),
{
    let s = slashed(names) + seq!['/'] + n;
    let p = last_position(s, '/');
    lemma_last_position(s, '/');
    let k = slashed(names).len() as int;
    assert(s[k] == '/');
    assert forall|i: int| k < i < s.len() implies s[i] != '/' by {
        assert(s[i] == n[i - k - 1]);
        assert(n.contains(n[i - k - 1]));
    }
}

/// Going up leads to the directory that the text without its last name leads to.
proof fn lemma_up_home(
    t: TreeView,
    g: VolumeGeometry,
    blocks: int,
    names: Seq<Seq<char>>,
    at: int,
    cs: bool,
)
    requires
        shape_ok(t, g, blocks, None),
        home(t, names, cs) == Some(at),
    ensures
        home(t, names_up(names), cs) == Some(parent_or_root(t, at)),
        walked_up(slashed(names)) == slashed(names_up(names)),
{
    if names.len() == 0 {
        assert(t.positions[0] is None);
        assert(slashed(names) =~= Seq::empty());
        assert(walked_up(slashed(names)) =~= slashed(names));
    } else {
        let front = names.drop_last();
        let n = names.last();
        let q = home(t, front, cs)->0;
        let d = child_entry(t, q, n, cs)->Ok_0;
        lemma_home_live(t, front, cs);
        lemma_find_entry_sound(t, t.inodes[q].entry_start as int, slice_end(t.inodes[q]), n, cs);
        lemma_parent_is(t, g, blocks, q, d);
        lemma_slashed_push(front, n);
        assert(front.push(n) =~= names);
        lemma_up_text(front, n);
        assert(walked_up(slashed(names)) =~= slashed(front));
    }
}

/// A walk that meets no link stays where its text says it is.
#[verifier::spinoff_prover]
#[verifier::rlimit(60)]
proof fn lemma_plain_way<D: BlockDevice>(
    t: TreeView,
    g: VolumeGeometry,
    blocks: int,
    device: D,
    steps: Seq<Seq<char>>,
    names: Seq<Seq<char>>,
    at: int,
    more: Seq<Seq<char>>,
    depth: nat,
    cs: bool,
)
    requires
        shape_ok(t, g, blocks, None),
        home(t, names, cs) == Some(at),
        meets_no_link(t, steps, at, cs),
        forall|i: int| #![trigger steps[i]] 0 <= i < steps.len() ==> !steps[i].contains('/'),
    ensures
        walk(t, steps, at, cs) is Ok,
        home(t, names_along(steps, names), cs) == Some(walk(t, steps, at, cs)->Ok_0),
        follow_walk(t, device, steps + more, at, slashed(names), depth, cs) == follow_walk(
            t,
            device,
            more,
            walk(t, steps, at, cs)->Ok_0,
            slashed(names_along(steps, names)),
            depth,
            cs,
        ),
    decreases steps.len(),
{
    if steps.len() == 0 {
        assert(steps + more =~= more);
    } else {
        let all = steps + more;
        let rest = steps.skip(1);
        assert(all[0] == steps[0]);
        assert(all.skip(1) =~= rest + more);
        assert forall|i: int| #![trigger rest[i]] 0 <= i < rest.len() implies !rest[i].contains('/') by {
            assert(rest[i] == steps[i + 1]);
        }
        if is_here(steps[0]) {
            lemma_plain_way(t, g, blocks, device, rest, names, at, more, depth, cs);
        } else if is_up(steps[0]) {
            let up = parent_or_root(t, at);
            lemma_up_home(t, g, blocks, names, at, cs);
            lemma_plain_way(t, g, blocks, device, rest, names_up(names), up, more, depth, cs);
        } else {
            let d = child_entry(t, at, steps[0], cs)->Ok_0;
            let i = t.entries[d].inode_index as int;
            let longer = names.push(steps[0]);
            assert(longer.drop_last() =~= names);
            assert(longer.last() == steps[0]);
            assert(plain_name(steps[0]));
            lemma_slashed_push(names, steps[0]);
            lemma_plain_way(t, g, blocks, device, rest, longer, i, more, depth, cs);
        }
    }
}

proof fn lemma_home_live(t: TreeView, names: Seq<Seq<char>>, cs: bool)
    requires
        home(t, names, cs) is Some,
    ensures
        0 <= home(t, names, cs)->0,
    decreases names.len(),
{
    if names.len() > 0 {
        lemma_home_live(t, names.drop_last(), cs);
    }
}

/// What stands for a link that is met after a way without links.
proof fn lemma_link_met<D: BlockDevice>(
    t: TreeView,
    g: VolumeGeometry,
    blocks: int,
    device: D,
    dir: Seq<char>,
    link: Seq<char>,
    tail: Seq<char>,
    target: Seq<char>,
    depth: nat,
    cs: bool,
)
    requires
        shape_ok(t, g, blocks, None),
        depth < 8,
        meets_no_link(t, split_on(dir, '/'), 0, cs),
        plain_name(link),
        tail.len() > 0 ==> tail[0] == '/' && tail.last() != '/',
        is_link(t, device, walk(t, split_on(dir, '/'), 0, cs), link, target, cs),
    ensures
        walk(t, split_on(dir, '/'), 0, cs) is Ok,
        home(t, names_along(split_on(dir, '/'), seq![]), cs) == Some(
            walk(t, split_on(dir, '/'), 0, cs)->Ok_0,
        ),
        follow(t, device, dir + seq!['/'] + link + tail, depth, cs) == follow(
            t,
            device,
            if target.len() > 0 && target[0] == '/' {
                target + tail
            } else {
                slashed(names_along(split_on(dir, '/'), seq![])) + seq!['/'] + target + tail
            },
            depth + 1,
            cs,
        ),
{
    let path = dir + seq!['/'] + link + tail;
    let none = Seq::<Seq<char>>::empty();
    let ds = split_on(dir, '/');
    let rs = if tail.len() == 0 {
        none
    } else {
        split_on(tail.skip(1), '/')
    };
    assert(path.last() != '/') by {
        if tail.len() == 0 {
            assert(path.last() == link.last());
            assert(link.contains(link.last()));
        } else {
            assert(path.last() == tail.last());
        }
    }
    lemma_trim_end_plain(path);
    lemma_follow_is_walk(t, device, path, depth, cs);
    let more = seq![link] + rs;
    assert(split_on(path, '/') == ds + more) by {
        lemma_split_whole(link, '/');
        if tail.len() == 0 {
            assert(path =~= dir + seq!['/'] + link);
            lemma_split_two(dir, link);
            assert(seq![link] + rs =~= seq![link]);
        } else {
            let r = tail.skip(1);
            assert(path =~= (dir + seq!['/'] + link) + seq!['/'] + r);
            lemma_split_two(dir + seq!['/'] + link, r);
            lemma_split_two(dir, link);
            assert((ds + seq![link]) + rs =~= ds + (seq![link] + rs));
        }
    }
    assert forall|i: int| #![trigger ds[i]] 0 <= i < ds.len() implies !ds[i].contains('/') by {
        lemma_split_no_separator(dir, '/', i);
    }
    assert(slashed(none) =~= Seq::empty());
    let names = names_along(ds, none);
    assert(none =~= seq![]);
    lemma_plain_way(t, g, blocks, device, ds, none, 0, more, depth, cs);
    let x = walk(t, ds, 0, cs)->Ok_0;
    assert(more.skip(1) =~= rs);
    assert(slashed(rs) == tail) by {
        if tail.len() == 0 {
            assert(tail =~= Seq::empty());
        } else {
            lemma_slashed_split(tail.skip(1));
            assert(seq!['/'] + tail.skip(1) =~= tail);
        }
    }
    let there = slashed(names) + seq!['/'] + link;
    lemma_up_text(names, link);
    assert(there.take(slashed(names).len() as int) =~= slashed(names));
}

/// Whether a directory holds a symlink with the given target under a name.
pub open spec fn is_link<D: BlockDevice>(
    t: TreeView,
    device: D,
    dir: core::result::Result<int, Error>,
    name: Seq<char>,
    target: Seq<char>,
    cs: bool,
) -> bool {
    match dir {
        Err(_) => false,
        Ok(x) => match child_entry(t, x, name, cs) {
            Err(_) => false,
            Ok(d) => {
                let inode = t.inodes[t.entries[d].inode_index as int];
                &&& inode.kind == NodeKind::Symlink
                &&& symlink_target(device, inode) matches Ok(bytes)
                &&& valid_utf8(bytes)
                &&& decode_utf8(bytes) == target
            },
        },
    }
}

// ── Laws ──

/// A relative target goes from the directory that holds the link: a path through the link
/// leads where the target leads in its place. The directory is one that is reached through
/// no link, the link is the `depth`-th in a row, and eight in a row are followed.
pub proof fn law_relative_link_goes_from_its_directory<D: BlockDevice>(
    t: TreeView,
    g: VolumeGeometry,
    blocks: int,
    device: D,
    dir: Seq<char>,
    link: Seq<char>,
    target: Seq<char>,
    tail: Seq<char>,
    depth: nat,
    cs: bool,
)
    requires
        shape_ok(t, g, blocks, None),
        depth < 8,
        meets_no_link(t, split_on(dir, '/'), 0, cs),
        plain_name(link),
        is_link(t, device, walk(t, split_on(dir, '/'), 0, cs), link, target, cs),
        target.len() > 0,
        target[0] != '/',
        tail.len() > 0 ==> tail[0] == '/' && tail.last() != '/',
    ensures
        follow(t, device, dir + seq!['/'] + link + tail, depth, cs) == follow(
            t,
            device,
            dir + seq!['/'] + target + tail,
            depth + 1,
            cs,
        ),
{
    lemma_link_met(t, g, blocks, device, dir, link, tail, target, depth, cs);
    let ds = split_on(dir, '/');
    let names = names_along(ds, seq![]);
    let e = target + tail;
    lemma_follow_from_dir(t, g, blocks, device, dir, e, depth + 1, cs);
    lemma_follow_from_home(t, device, names, walk(t, ds, 0, cs)->Ok_0, e, depth + 1, cs);
    assert(slashed(names) + seq!['/'] + target + tail =~= slashed(names) + seq!['/'] + e);
    assert(dir + seq!['/'] + target + tail =~= dir + seq!['/'] + e);
}

/// A path below a directory goes on from there.
proof fn lemma_follow_from_dir<D: BlockDevice>(
    t: TreeView,
    g: VolumeGeometry,
    blocks: int,
    device: D,
    dir: Seq<char>,
    e: Seq<char>,
    depth: nat,
    cs: bool,
)
    requires
        shape_ok(t, g, blocks, None),
        depth <= MAX_SYMLINK_DEPTH,
        meets_no_link(t, split_on(dir, '/'), 0, cs),
        e.len() > 0,
        e[0] != '/',
    ensures
        follow(t, device, dir + seq!['/'] + e, depth, cs) == follow_walk(
            t,
            device,
            split_on(trim_end(e, '/'), '/'),
            walk(t, split_on(dir, '/'), 0, cs)->Ok_0,
            slashed(names_along(split_on(dir, '/'), seq![])),
            depth,
            cs,
        ),
{
    let none = Seq::<Seq<char>>::empty();
    assert(none =~= seq![]);
    let ds = split_on(dir, '/');
    let r = trim_end(e, '/');
    let path = dir + seq!['/'] + e;
    lemma_trim_joined(dir, e);
    lemma_follow_is_walk(t, device, path, depth, cs);
    lemma_split_two(dir, r);
    assert forall|i: int| #![trigger ds[i]] 0 <= i < ds.len() implies !ds[i].contains('/') by {
        lemma_split_no_separator(dir, '/', i);
    }
    assert(slashed(none) =~= Seq::empty());
    lemma_plain_way(t, g, blocks, device, ds, none, 0, split_on(r, '/'), depth, cs);
}

proof fn lemma_follow_from_home<D: BlockDevice>(
    t: TreeView,
    device: D,
    names: Seq<Seq<char>>,
    x: int,
    e: Seq<char>,
    depth: nat,
    cs: bool,
)
    requires
        depth <= MAX_SYMLINK_DEPTH,
        home(t, names, cs) == Some(x),
        e.len() > 0,
        e[0] != '/',
    ensures
        follow(t, device, slashed(names) + seq!['/'] + e, depth, cs) == follow_walk(
            t,
            device,
            split_on(trim_end(e, '/'), '/'),
            x,
            slashed(names),
            depth,
            cs,
        ),
{
    let r = trim_end(e, '/');
    let more = split_on(r, '/');
    lemma_trim_joined(slashed(names), e);
    lemma_follow_is_walk(t, device, slashed(names) + seq!['/'] + e, depth, cs);
    lemma_split_two(slashed(names), r);
    lemma_split_home(t, names, cs);
    let front = seq![Seq::<char>::empty()];
    let all = front + (names + more);
    assert((front + names) + more =~= all);
    assert(all.skip(1) =~= names + more);
    assert(all[0] =~= Seq::<char>::empty());
    lemma_walk_home(t, device, names, x, more, depth, cs);
}

proof fn lemma_trim_joined(a: Seq<char>, e: Seq<char>)
    requires
        e.len() > 0,
        e[0] != '/',
    ensures
        trim_end(e, '/').len() > 0,
        trim_end(a + seq!['/'] + e, '/') == a + seq!['/'] + trim_end(e, '/'),
{
    lemma_trim_keeps_first(e);
    lemma_trim_end_appended(a + seq!['/'], e);
}

proof fn lemma_trim_keeps_first(e: Seq<char>)
    requires
        e.len() > 0,
        e[0] != '/',
    ensures
        trim_end(e, '/').len() > 0,
    decreases e.len(),
{
    if e.last() == '/' {
        lemma_trim_keeps_first(e.drop_last());
    }
}

proof fn lemma_split_home(t: TreeView, names: Seq<Seq<char>>, cs: bool)
    requires
        home(t, names, cs) is Some,
    ensures
        split_on(slashed(names), '/') == seq![Seq::<char>::empty()] + names,
    decreases names.len(),
{
    let first = seq![Seq::<char>::empty()];
    if names.len() == 0 {
        assert(slashed(names) =~= Seq::empty());
        assert(first + names =~= first);
        assert(split_on(slashed(names), '/') =~= first);
    } else {
        let front = names.drop_last();
        let n = names.last();
        lemma_split_home(t, front, cs);
        lemma_slashed_push(front, n);
        assert(front.push(n) =~= names);
        lemma_split_join(slashed(front), n, '/');
        assert((first + front).push(n) =~= first + names);
    }
}

/// An absolute target stands on its own: a path through the link leads where the target and
/// what follows the link lead from the root.
pub proof fn law_absolute_link_stands_on_its_own<D: BlockDevice>(
    t: TreeView,
    g: VolumeGeometry,
    blocks: int,
    device: D,
    dir: Seq<char>,
    link: Seq<char>,
    target: Seq<char>,
    tail: Seq<char>,
    depth: nat,
    cs: bool,
)
    requires
        shape_ok(t, g, blocks, None),
        depth < 8,
        meets_no_link(t, split_on(dir, '/'), 0, cs),
        plain_name(link),
        is_link(t, device, walk(t, split_on(dir, '/'), 0, cs), link, target, cs),
        target.len() > 0,
        target[0] == '/',
        tail.len() > 0 ==> tail[0] == '/' && tail.last() != '/',
    ensures
        follow(t, device, dir + seq!['/'] + link + tail, depth, cs) == follow(
            t,
            device,
            target + tail,
            depth + 1,
            cs,
        ),
{
    lemma_link_met(t, g, blocks, device, dir, link, tail, target, depth, cs);
}

/// A path that meets no link leads where it leads when links are not followed, after up to
/// eight links.
pub proof fn law_path_without_links<D: BlockDevice>(
    t: TreeView,
    g: VolumeGeometry,
    blocks: int,
    device: D,
    path: Seq<char>,
    depth: nat,
    cs: bool,
)
    requires
        shape_ok(t, g, blocks, None),
        meets_no_link(t, path_steps(path), 0, cs),
        depth <= 8,
    ensures
        follow(t, device, path, depth, cs) == lookup(t, path, cs),
        follow(t, device, path, depth, cs) is Ok,
{
    let steps = path_steps(path);
    let none = Seq::<Seq<char>>::empty();
    assert forall|i: int| #![trigger steps[i]] 0 <= i < steps.len() implies !steps[i].contains('/') by {
        lemma_split_no_separator(unslashed(path), '/', i);
    }
    assert(slashed(none) =~= Seq::empty());
    lemma_plain_way(t, g, blocks, device, steps, none, 0, none, depth, cs);
    assert(steps + none =~= steps);
}

/// After nine links nothing but the root is found any more.
pub proof fn law_too_many_links<D: BlockDevice>(
    t: TreeView,
    device: D,
    path: Seq<char>,
    depth: nat,
    cs: bool,
)
    requires
        depth > 8,
        path.len() > 1,
    ensures
        follow(t, device, path, depth, cs) == Err::<int, Error>(Error::InvalidArgument),
{
}

/// Having followed fewer links before does no harm: a path that leads somewhere after a number
/// of links leads there after one fewer.
pub proof fn law_fewer_links_before<D: BlockDevice>(
    t: TreeView,
    device: D,
    path: Seq<char>,
    depth: nat,
    cs: bool,
)
    requires
        follow(t, device, path, depth + 1, cs) is Ok,
    ensures
        follow(t, device, path, depth, cs) == follow(t, device, path, depth + 1, cs),
    decreases 10 - depth, 1int, 0nat,
{
    if !(path.len() == 0 || path == root_path()) {
        lemma_fewer_before(t, device, path_steps(path), 0, Seq::empty(), depth, cs);
    }
}

proof fn lemma_fewer_before<D: BlockDevice>(
    t: TreeView,
    device: D,
    steps: Seq<Seq<char>>,
    at: int,
    walked: Seq<char>,
    depth: nat,
    cs: bool,
)
    requires
        depth < MAX_SYMLINK_DEPTH,
        follow_walk(t, device, steps, at, walked, depth + 1, cs) is Ok,
    ensures
        follow_walk(t, device, steps, at, walked, depth, cs) == follow_walk(
            t,
            device,
            steps,
            at,
            walked,
            depth + 1,
            cs,
        ),
    decreases 10 - depth, 0int, steps.len(),
{
    if steps.len() > 0 {
        let rest = steps.skip(1);
        if is_here(steps[0]) {
            lemma_fewer_before(t, device, rest, at, walked, depth, cs);
        } else if is_up(steps[0]) {
            lemma_fewer_before(
                t,
                device,
                rest,
                parent_or_root(t, at),
                walked_up(walked),
                depth,
                cs,
            );
        } else {
            let d = child_entry(t, at, steps[0], cs)->Ok_0;
            let i = t.entries[d].inode_index as int;
            let there = walked + seq!['/'] + steps[0];
            if t.inodes[i].kind == NodeKind::Symlink {
                let target = symlink_target(device, t.inodes[i])->Ok_0;
                law_fewer_links_before(
                    t,
                    device,
                    redirected(decode_utf8(target), there, rest),
                    depth + 1,
                    cs,
                );
            } else {
                lemma_fewer_before(t, device, rest, i, there, depth, cs);
            }
        }
    }
}

} // verus!
