//! What is left once nodes were removed with everything below them.
use vstd::prelude::*;

use crate::error::Error;
use crate::simplefs::lookup::{child_entry, is_here, is_up, lemma_find_entry_sound, lookup, parent_or_root, walk};
use crate::simplefs::move_laws::{kid, lemma_kid_at, lemma_kid_listed, lemma_unlinked_shape};
use crate::simplefs::path_laws::lemma_lookup_is_walk;
use crate::simplefs::remove::after_unlink;
use crate::simplefs::remove_tree::{last_leaf, leaf_removed, subtree_removed};
use crate::simplefs::state::TreeView;
use crate::simplefs::tree::{VolumeGeometry, after_remove, entry_linked, shape_ok, slices_apart};
use crate::simplefs::tree_laws::{law_remove_listing, listing};
use crate::simplefs::types::{DirEntryView, OnDiskInode};
use crate::simplefs::validate::{covers, live_dir, slice_end};
use crate::text::split_on;
use crate::vfs::NodeKind;

verus! {

/// Whether a node lies `n` directories below the root.
pub open spec fn at_depth(t: TreeView, x: int, n: nat) -> bool
    decreases n,
{
    if n == 0 {
        x == 0
    } else {
        0 < x < t.parents.len() && t.parents[x] is Some && at_depth(
            t,
            t.parents[x]->0 as int,
            (n - 1) as nat,
        )
    }
}

pub proof fn lemma_depth_unique(t: TreeView, x: int, n: nat, m: nat)
    requires
        at_depth(t, x, n),
        at_depth(t, x, m),
    ensures
        n == m,
    decreases n,
{
    if n > 0 && m > 0 {
        lemma_depth_unique(t, t.parents[x]->0 as int, (n - 1) as nat, (m - 1) as nat);
    }
}

/// A directory is the parent of what its entries name.
pub proof fn lemma_parent_is(t: TreeView, g: VolumeGeometry, blocks: int, q: int, d: int)
    requires
        shape_ok(t, g, blocks, None),
        0 <= q < t.inodes.len(),
        covers(t.inodes[q], d),
    ensures
        0 <= d < t.entries.len(),
        entry_linked(t, d),
        0 < t.entries[d].inode_index < t.inodes.len(),
        t.parents[t.entries[d].inode_index as int] == Some(q as usize),
        t.positions[t.entries[d].inode_index as int] == Some(d as usize),
        t.parents.len() == t.inodes.len(),
{
    assert(slice_end(t.inodes[q]) <= t.entries.len());
    assert(entry_linked(t, d));
    let p = t.parents[t.entries[d].inode_index as int]->0 as int;
    if p < q {
        assert(slices_apart(t.inodes[p], t.inodes[q]));
    } else if q < p {
        assert(slices_apart(t.inodes[q], t.inodes[p]));
    }
}

/// Whether no component goes up.
pub open spec fn no_ups(steps: Seq<Seq<char>>) -> bool {
    forall|i: int| #![trigger steps[i]] 0 <= i < steps.len() ==> !is_up(steps[i])
}

pub proof fn lemma_no_ups_rest(steps: Seq<Seq<char>>)
    requires
        no_ups(steps),
        steps.len() > 0,
    ensures
        no_ups(steps.skip(1)),
        !is_up(steps[0]),
{
    let rest = steps.skip(1);
    assert forall|i: int| #![trigger rest[i]] 0 <= i < rest.len() implies !is_up(rest[i]) by {
        assert(rest[i] == steps[i + 1]);
    }
}

/// Every node that a walk from the root meets lies some way below the root; a walk that does
/// not go up never comes closer to it.
pub proof fn lemma_walk_depth(
    t: TreeView,
    g: VolumeGeometry,
    blocks: int,
    steps: Seq<Seq<char>>,
    at: int,
    n: nat,
) -> (m: nat)
    requires
        shape_ok(t, g, blocks, None),
        0 <= at,
        at_depth(t, at, n),
        walk(t, steps, at, g.case_sensitive) is Ok,
    ensures
        at_depth(t, walk(t, steps, at, g.case_sensitive)->Ok_0, m),
        walk(t, steps, at, g.case_sensitive)->Ok_0 >= 0,
        no_ups(steps) ==> n <= m,
    decreases steps.len(),
{
    if steps.len() == 0 {
        n
    } else {
        let rest = steps.skip(1);
        if no_ups(steps) {
            lemma_no_ups_rest(steps);
        }
        if is_here(steps[0]) {
            lemma_walk_depth(t, g, blocks, rest, at, n)
        } else if is_up(steps[0]) {
            let up = parent_or_root(t, at);
            if n > 0 {
                assert(at_depth(t, up, (n - 1) as nat));
                lemma_walk_depth(t, g, blocks, rest, up, (n - 1) as nat)
            } else {
                assert(t.inodes.len() > 0 ==> t.positions[0] is None && t.parents[0] is None);
                assert(up == 0);
                lemma_walk_depth(t, g, blocks, rest, up, 0)
            }
        } else {
            let cs = g.case_sensitive;
            let d = child_entry(t, at, steps[0], cs)->Ok_0;
            lemma_find_entry_sound(
                t,
                t.inodes[at].entry_start as int,
                slice_end(t.inodes[at]),
                steps[0],
                cs,
            );
            lemma_parent_is(t, g, blocks, at, d);
            let x = t.entries[d].inode_index as int;
            assert(at_depth(t, x, n + 1));
            lemma_walk_depth(t, g, blocks, rest, x, n + 1)
        }
    }
}

/// Whether going up from a node meets another one within `n` steps.
pub open spec fn under(t: TreeView, x: int, p: int, n: nat) -> bool
    decreases n,
{
    x == p || (n > 0 && 0 < x < t.parents.len() && t.parents[x] is Some && under(
        t,
        t.parents[x]->0 as int,
        p,
        (n - 1) as nat,
    ))
}

/// Whether a node is neither a directory nor lies below it.
pub open spec fn outside(t: TreeView, x: int, p: int) -> bool {
    forall|n: nat| !#[trigger] under(t, x, p, n)
}

/// Whether a node does not lie below a directory.
pub open spec fn not_below(t: TreeView, x: int, p: int) -> bool {
    x == p || outside(t, x, p)
}

/// Whether a walk never meets a node that lies below a directory.
pub open spec fn stays_out(
    t: TreeView,
    steps: Seq<Seq<char>>,
    at: int,
    p: int,
    case_sensitive: bool,
) -> bool
    decreases steps.len(),
{
    &&& not_below(t, at, p)
    &&& steps.len() > 0 ==> {
        let rest = steps.skip(1);
        if is_here(steps[0]) {
            stays_out(t, rest, at, p, case_sensitive)
        } else if is_up(steps[0]) {
            stays_out(t, rest, parent_or_root(t, at), p, case_sensitive)
        } else {
            match child_entry(t, at, steps[0], case_sensitive) {
                Ok(d) => stays_out(
                    t,
                    rest,
                    t.entries[d].inode_index as int,
                    p,
                    case_sensitive,
                ),
                Err(_) => true,
            }
        }
    }
}

/// What lies below a node lies deeper.
proof fn lemma_under_deeper(t: TreeView, x: int, p: int, n: nat, i: nat, j: nat)
    requires
        under(t, x, p, n),
        at_depth(t, x, i),
        at_depth(t, p, j),
    ensures
        j <= i,
        i == j ==> x == p,
    decreases n,
{
    if x == p {
        lemma_depth_unique(t, x, i, j);
    } else {
        lemma_under_deeper(t, t.parents[x]->0 as int, p, (n - 1) as nat, (i - 1) as nat, j);
    }
}

proof fn lemma_under_through(t: TreeView, x: int, y: int, p: int, n: nat, m: nat)
    requires
        under(t, x, y, n),
        under(t, y, p, m),
    ensures
        under(t, x, p, n + m),
    decreases n,
{
    if x == y {
        lemma_under_more(t, x, p, m, n + m);
    } else {
        lemma_under_through(t, t.parents[x]->0 as int, y, p, (n - 1) as nat, m);
    }
}

proof fn lemma_under_more(t: TreeView, x: int, p: int, n: nat, m: nat)
    requires
        under(t, x, p, n),
        n <= m,
    ensures
        under(t, x, p, m),
    decreases n,
{
    if x != p {
        lemma_under_more(t, t.parents[x]->0 as int, p, (n - 1) as nat, (m - 1) as nat);
    }
}

/// What a walk down meets lies below where it started.
pub proof fn lemma_walk_under(
    t: TreeView,
    g: VolumeGeometry,
    blocks: int,
    steps: Seq<Seq<char>>,
    at: int,
    p: int,
    n: nat,
) -> (m: nat)
    requires
        shape_ok(t, g, blocks, None),
        no_ups(steps),
        0 <= at,
        under(t, at, p, n),
        walk(t, steps, at, g.case_sensitive) is Ok,
    ensures
        under(t, walk(t, steps, at, g.case_sensitive)->Ok_0, p, m),
    decreases steps.len(),
{
    if steps.len() == 0 {
        n
    } else {
        let rest = steps.skip(1);
        lemma_no_ups_rest(steps);
        if is_here(steps[0]) {
            lemma_walk_under(t, g, blocks, rest, at, p, n)
        } else {
            let cs = g.case_sensitive;
            let d = child_entry(t, at, steps[0], cs)->Ok_0;
            lemma_find_entry_sound(
                t,
                t.inodes[at].entry_start as int,
                slice_end(t.inodes[at]),
                steps[0],
                cs,
            );
            lemma_parent_is(t, g, blocks, at, d);
            let x = t.entries[d].inode_index as int;
            assert(under(t, x, p, n + 1));
            lemma_walk_under(t, g, blocks, rest, x, p, n + 1)
        }
    }
}

/// A walk down to a directory, or to a node that does not lie below it, meets nothing below
/// the directory.
pub proof fn law_going_down_stays_out(
    t: TreeView,
    g: VolumeGeometry,
    blocks: int,
    steps: Seq<Seq<char>>,
    at: int,
    p: int,
    n: nat,
)
    requires
        shape_ok(t, g, blocks, None),
        no_ups(steps),
        0 <= at,
        at_depth(t, at, n),
        walk(t, steps, at, g.case_sensitive) matches Ok(x) && not_below(t, x, p),
    ensures
        stays_out(t, steps, at, p, g.case_sensitive),
    decreases steps.len(),
{
    let cs = g.case_sensitive;
    let x = walk(t, steps, at, cs)->Ok_0;
    assert(not_below(t, at, p)) by {
        if !outside(t, at, p) && at != p {
            let k = choose|k: nat| #[trigger] under(t, at, p, k);
            let j = lemma_walk_under(t, g, blocks, steps, at, p, k);
            let m = lemma_walk_depth(t, g, blocks, steps, at, n);
            if x == p {
                lemma_under_deeper(t, at, p, k, n, m);
            }
        }
    }
    if steps.len() > 0 {
        let rest = steps.skip(1);
        lemma_no_ups_rest(steps);
        if is_here(steps[0]) {
            law_going_down_stays_out(t, g, blocks, rest, at, p, n);
        } else {
            let d = child_entry(t, at, steps[0], cs)->Ok_0;
            lemma_find_entry_sound(
                t,
                t.inodes[at].entry_start as int,
                slice_end(t.inodes[at]),
                steps[0],
                cs,
            );
            lemma_parent_is(t, g, blocks, at, d);
            let y = t.entries[d].inode_index as int;
            assert(at_depth(t, y, n + 1));
            law_going_down_stays_out(t, g, blocks, rest, y, p, n + 1);
        }
    }
}

/// Whether an entry of a directory names a node that holds nothing.
pub open spec fn names_leaf(t: TreeView, p: int, d: int) -> bool {
    let inode = t.inodes[t.entries[d].inode_index as int];
    &&& 0 <= p < t.inodes.len()
    &&& covers(t.inodes[p], d)
    &&& inode.kind == NodeKind::Directory ==> inode.entry_count == 0
}

/// Removing a node takes its entry from its directory's listing and leaves every other
/// listing as it was.
proof fn lemma_unlinked_listing(
    t: TreeView,
    g: VolumeGeometry,
    blocks: int,
    p: int,
    d: int,
    handles: Seq<usize>,
    q: int,
)
    requires
        shape_ok(t, g, blocks, None),
        names_leaf(t, p, d),
        0 <= q < t.inodes.len(),
        q != t.entries[d].inode_index,
        live_dir(t.inodes[q]),
    ensures
        ({
            let n = after_unlink(t, p, d, handles);
            &&& q < n.inodes.len()
            &&& live_dir(n.inodes[q])
            &&& listing(n, q) == if q == p {
                listing(t, q).remove(d - t.inodes[q].entry_start)
            } else {
                listing(t, q)
            }
        }),
{
    let n = after_unlink(t, p, d, handles);
    let m = after_remove(t, p, d);
    law_remove_listing(t, g, blocks, p, d, q);
    assert(n.inodes[q] == m.inodes[q]);
    assert(listing(n, q) =~= listing(m, q));
}

/// Removing a node leaves every other node where its name leads.
#[verifier::spinoff_prover]
#[verifier::rlimit(60)]
proof fn lemma_unlinked_kept_kid(
    t: TreeView,
    g: VolumeGeometry,
    blocks: int,
    p: int,
    d: int,
    handles: Seq<usize>,
    at: int,
    name: Seq<char>,
)
    requires
        shape_ok(t, g, blocks, None),
        names_leaf(t, p, d),
        0 <= at,
        kid(t, at, name, g.case_sensitive) is Some,
        kid(t, at, name, g.case_sensitive)->Some_0 != t.entries[d].inode_index,
    ensures
        kid(after_unlink(t, p, d, handles), at, name, g.case_sensitive) == kid(
            t,
            at,
            name,
            g.case_sensitive,
        ),
{
    let n = after_unlink(t, p, d, handles);
    let cs = g.case_sensitive;
    let x = kid(t, at, name, cs)->Some_0;
    lemma_unlinked_shape(t, g, blocks, p, d, handles);
    let k = lemma_kid_listed(t, at, name, cs);
    assert(slice_end(t.inodes[at]) <= t.entries.len());
    lemma_parent_is(t, g, blocks, p, d);
    assert(at != t.entries[d].inode_index);
    lemma_unlinked_listing(t, g, blocks, p, d, handles, at);
    lemma_unlinked_alive(t, p, d, handles, x);
    let s = t.inodes[at].entry_start as int;
    assert(listing(t, at)[k] == t.entries[s + k]);
    let j = if at == p && s + k > d {
        k - 1
    } else {
        k
    };
    assert(listing(n, at)[j] == listing(t, at)[k]) by {
        if at == p {
            lemma_kept_entry(listing(t, at), d - s, k);
        }
    }
    lemma_kid_at(n, g, at, name, j);
}

proof fn lemma_kept_entry(a: Seq<DirEntryView>, i: int, k: int)
    requires
        0 <= i < a.len(),
        0 <= k < a.len(),
        i != k,
    ensures
        a.remove(i)[if k > i {
            k - 1
        } else {
            k
        }] == a[k],
        a.remove(i).len() == a.len() - 1,
{
}

proof fn lemma_unlinked_alive(t: TreeView, p: int, d: int, handles: Seq<usize>, x: int)
    requires
        0 <= x < t.inodes.len(),
        t.entries[d].inode_index < t.inodes.len(),
        x != t.entries[d].inode_index,
    ensures
        ({
            let n = after_unlink(t, p, d, handles);
            &&& n.inodes.len() == t.inodes.len()
            &&& n.inodes[x].deleted == t.inodes[x].deleted
        }),
{
}

/// Removing a node puts nothing below a directory that was not there.
proof fn lemma_unlinked_under(
    t: TreeView,
    p: int,
    d: int,
    handles: Seq<usize>,
    x: int,
    q: int,
    n: nat,
)
    requires
        t.entries[d].inode_index < t.parents.len(),
        under(after_unlink(t, p, d, handles), x, q, n),
    ensures
        under(t, x, q, n),
    decreases n,
{
    let u = after_unlink(t, p, d, handles);
    if x != q {
        assert(u.parents[x] == t.parents[x]);
        lemma_unlinked_under(t, p, d, handles, t.parents[x]->0 as int, q, (n - 1) as nat);
    }
}

proof fn lemma_unlinked_outside(t: TreeView, p: int, d: int, handles: Seq<usize>, x: int, q: int)
    requires
        t.entries[d].inode_index < t.parents.len(),
        outside(t, x, q),
    ensures
        outside(after_unlink(t, p, d, handles), x, q),
{
    let u = after_unlink(t, p, d, handles);
    assert forall|n: nat| !#[trigger] under(u, x, q, n) by {
        if under(u, x, q, n) {
            lemma_unlinked_under(t, p, d, handles, x, q, n);
        }
    }
}

/// Removing a node that lies below a directory leaves every walk that stays out of the
/// directory.
proof fn lemma_unlinked_keeps(
    t: TreeView,
    g: VolumeGeometry,
    blocks: int,
    p: int,
    d: int,
    handles: Seq<usize>,
    steps: Seq<Seq<char>>,
    at: int,
    q: int,
)
    requires
        shape_ok(t, g, blocks, None),
        names_leaf(t, p, d),
        0 <= at,
        !not_below(t, t.entries[d].inode_index as int, q),
        stays_out(t, steps, at, q, g.case_sensitive),
        walk(t, steps, at, g.case_sensitive) is Ok,
    ensures
        walk(after_unlink(t, p, d, handles), steps, at, g.case_sensitive) == walk(
            t,
            steps,
            at,
            g.case_sensitive,
        ),
        stays_out(after_unlink(t, p, d, handles), steps, at, q, g.case_sensitive),
    decreases steps.len(),
{
    let cs = g.case_sensitive;
    let n = after_unlink(t, p, d, handles);
    lemma_parent_is(t, g, blocks, p, d);
    if at != q {
        lemma_unlinked_outside(t, p, d, handles, at, q);
    }
    if steps.len() > 0 {
        let rest = steps.skip(1);
        if is_here(steps[0]) {
            lemma_unlinked_keeps(t, g, blocks, p, d, handles, rest, at, q);
        } else if is_up(steps[0]) {
            let up = parent_or_root(t, at);
            assert(parent_or_root(n, at) == up);
            lemma_unlinked_keeps(t, g, blocks, p, d, handles, rest, up, q);
        } else {
            let x = kid(t, at, steps[0], cs)->Some_0;
            assert(not_below(t, x, q)) by {
                assert(stays_out(t, rest, x, q, cs));
            }
            lemma_unlinked_kept_kid(t, g, blocks, p, d, handles, at, steps[0]);
            assert(kid(n, at, steps[0], cs) == Some(x));
            lemma_unlinked_keeps(t, g, blocks, p, d, handles, rest, x, q);
        }
    }
}

/// The node that goes first in a removal holds nothing; it is the node that was named, or
/// lies in a directory at least as deep.
proof fn lemma_last_leaf_below(
    t: TreeView,
    g: VolumeGeometry,
    blocks: int,
    c: int,
    fuel: nat,
    n: nat,
)
    requires
        shape_ok(t, g, blocks, None),
        0 < c < t.inodes.len(),
        !t.inodes[c].deleted,
        at_depth(t, c, n),
        last_leaf(t, c, fuel) is Ok,
    ensures
        ({
            let leaf = last_leaf(t, c, fuel)->Ok_0;
            &&& 0 < leaf < t.inodes.len()
            &&& !t.inodes[leaf].deleted
            &&& t.inodes[leaf].kind == NodeKind::Directory ==> t.inodes[leaf].entry_count == 0
            &&& leaf == c || lies_in_depth(t, leaf, n)
            &&& exists|m: nat| n <= m && #[trigger] at_depth(t, leaf, m)
            &&& exists|k: nat| #[trigger] under(t, leaf, c, k)
        }),
    decreases fuel,
{
    assert(under(t, c, c, 0));
    if t.inodes[c].kind == NodeKind::Directory && t.inodes[c].entry_count > 0 {
        let d = slice_end(t.inodes[c]) - 1;
        assert(covers(t.inodes[c], d));
        lemma_parent_is(t, g, blocks, c, d);
        let x = t.entries[d].inode_index as int;
        assert(at_depth(t, x, n + 1));
        lemma_last_leaf_below(t, g, blocks, x, (fuel - 1) as nat, n + 1);
        let leaf = last_leaf(t, c, fuel)->Ok_0;
        let k = choose|k: nat| #[trigger] under(t, leaf, x, k);
        assert(under(t, x, c, 1)) by {
            assert(under(t, c, c, 0));
        }
        lemma_under_through(t, leaf, x, c, k, 1);
        if leaf == x {
            assert(at_depth(t, t.parents[leaf]->0 as int, n));
            assert(lies_in_depth(t, leaf, n));
        } else {
            let m = choose|m: nat|
                #![trigger at_depth(t, t.parents[leaf]->0 as int, m)]
                n + 1 <= m && t.parents[leaf] is Some && at_depth(
                    t,
                    t.parents[leaf]->0 as int,
                    m,
                );
            assert(at_depth(t, t.parents[leaf]->0 as int, m));
            assert(lies_in_depth(t, leaf, n));
        }
    }
}

/// Whether the directory a node lies in is at least `n` deep.
pub open spec fn lies_in_depth(t: TreeView, leaf: int, n: nat) -> bool {
    exists|m: nat|
        #![trigger at_depth(t, t.parents[leaf]->0 as int, m)]
        n <= m && t.parents[leaf] is Some && at_depth(t, t.parents[leaf]->0 as int, m)
}

/// What a step of a removal below a directory is about: the node that goes first.
proof fn lemma_leaf_below(
    t: TreeView,
    g: VolumeGeometry,
    blocks: int,
    c: int,
    p: int,
    k: int,
    deep: nat,
)
    requires
        shape_ok(t, g, blocks, None),
        at_depth(t, p, deep),
        0 <= p < t.inodes.len(),
        live_dir(t.inodes[p]),
        0 <= k < listing(t, p).len(),
        listing(t, p)[k].inode_index == c,
        last_leaf(t, c, t.inodes.len()) is Ok,
    ensures
        ({
            let leaf = last_leaf(t, c, t.inodes.len())->Ok_0;
            let e = t.positions[leaf]->0 as int;
            let q = t.parents[leaf]->0 as int;
            &&& 0 < leaf < t.inodes.len()
            &&& t.entries[e].inode_index == leaf
            &&& names_leaf(t, q, e)
            &&& !not_below(t, leaf, p)
            &&& leaf != p
            &&& leaf != c ==> q != p
            &&& leaf == c ==> q == p && e == t.inodes[p].entry_start + k
        }),
{
    lemma_kid_depth(t, g, blocks, p, k, deep);
    let leaf = last_leaf(t, c, t.inodes.len())->Ok_0;
    lemma_last_leaf_below(t, g, blocks, c, t.inodes.len(), deep + 1);
    lemma_leaf_named(t, g, blocks, leaf);
    let q = t.parents[leaf]->0 as int;
    let m = choose|m: nat| deep + 1 <= m && #[trigger] at_depth(t, leaf, m);
    if leaf == p {
        lemma_depth_unique(t, p, deep, m);
    }
    let n = choose|n: nat| #[trigger] under(t, leaf, c, n);
    assert(under(t, c, p, 1)) by {
        assert(under(t, p, p, 0));
    }
    lemma_under_through(t, leaf, c, p, n, 1);
    if leaf != c && q == p {
        let w = choose|w: nat|
            #![trigger at_depth(t, t.parents[leaf]->0 as int, w)]
            deep + 1 <= w && t.parents[leaf] is Some && at_depth(t, t.parents[leaf]->0 as int, w);
        lemma_depth_unique(t, p, deep, w);
    }
}

/// Whether a node is as it was: of its kind, with its extent and size, and a directory with
/// what it held.
pub open spec fn node_kept(t: TreeView, n: TreeView, x: int) -> bool {
    &&& x < n.inodes.len()
    &&& n.inodes[x] == (OnDiskInode { entry_start: n.inodes[x].entry_start, ..t.inodes[x] })
    &&& live_dir(t.inodes[x]) ==> listing(n, x) == listing(t, x)
    &&& !live_dir(t.inodes[x]) ==> n.inodes[x] == t.inodes[x]
}

/// Removing a node with everything below it takes its entry from the directory it lies in,
/// and nothing else; the directory is found where it was. This is said of paths that meet
/// nothing in the directory on the way to it.
pub proof fn law_subtree_listing(
    t: TreeView,
    g: VolumeGeometry,
    blocks: int,
    c: int,
    handles: Seq<usize>,
    steps: nat,
    path: Seq<char>,
    p: int,
    k: int,
)
    requires
        shape_ok(t, g, blocks, None),
        stays_out(t, split_on(path, '/'), 0, p, g.case_sensitive),
        lookup(t, path, g.case_sensitive) == Ok::<int, Error>(p),
        0 <= p < t.inodes.len(),
        live_dir(t.inodes[p]),
        0 <= k < listing(t, p).len(),
        listing(t, p)[k].inode_index == c,
        subtree_removed(t, c, handles, steps) is Ok,
    ensures
        ({
            let n = subtree_removed(t, c, handles, steps)->Ok_0;
            &&& shape_ok(n, g, blocks, None)
            &&& stays_out(n, split_on(path, '/'), 0, p, g.case_sensitive)
            &&& lookup(n, path, g.case_sensitive) == Ok::<int, Error>(p)
            &&& p < n.inodes.len()
            &&& live_dir(n.inodes[p])
            &&& listing(n, p) == listing(t, p).remove(k)
        }),
    decreases steps,
{
    let cs = g.case_sensitive;
    let walked = split_on(path, '/');
    lemma_lookup_is_walk(t, path, cs);
    assert(at_depth(t, 0, 0));
    let deep = lemma_walk_depth(t, g, blocks, walked, 0, 0);
    lemma_leaf_below(t, g, blocks, c, p, k, deep);
    let leaf = last_leaf(t, c, t.inodes.len())->Ok_0;
    let e = t.positions[leaf]->0 as int;
    let q = t.parents[leaf]->0 as int;
    let n = leaf_removed(t, leaf, handles);
    lemma_unlinked_shape(t, g, blocks, q, e, handles);
    lemma_lookup_is_walk(n, path, cs);
    lemma_unlinked_keeps(t, g, blocks, q, e, handles, walked, 0, p);
    lemma_unlinked_listing(t, g, blocks, q, e, handles, p);
    if leaf != c {
        law_subtree_listing(n, g, blocks, c, handles, (steps - 1) as nat, path, p, k);
    }
}

/// Removing a node with everything below it leaves every node that does not lie in the
/// directory it lay in, and every way to such a node that does not lead through the
/// directory's nodes.
pub proof fn law_subtree_outside(
    t: TreeView,
    g: VolumeGeometry,
    blocks: int,
    c: int,
    handles: Seq<usize>,
    steps: nat,
    path: Seq<char>,
    p: int,
    k: int,
    other: Seq<char>,
    x: int,
)
    requires
        shape_ok(t, g, blocks, None),
        stays_out(t, split_on(path, '/'), 0, p, g.case_sensitive),
        lookup(t, path, g.case_sensitive) == Ok::<int, Error>(p),
        0 <= p < t.inodes.len(),
        live_dir(t.inodes[p]),
        0 <= k < listing(t, p).len(),
        listing(t, p)[k].inode_index == c,
        subtree_removed(t, c, handles, steps) is Ok,
        stays_out(t, split_on(other, '/'), 0, p, g.case_sensitive),
        lookup(t, other, g.case_sensitive) == Ok::<int, Error>(x),
        0 <= x < t.inodes.len(),
        outside(t, x, p),
    ensures
        ({
            let n = subtree_removed(t, c, handles, steps)->Ok_0;
            &&& lookup(n, other, g.case_sensitive) == Ok::<int, Error>(x)
            &&& stays_out(n, split_on(other, '/'), 0, p, g.case_sensitive)
            &&& outside(n, x, p)
            &&& node_kept(t, n, x)
        }),
    decreases steps,
{
    let cs = g.case_sensitive;
    let walked = split_on(path, '/');
    let others = split_on(other, '/');
    lemma_lookup_is_walk(t, path, cs);
    lemma_lookup_is_walk(t, other, cs);
    assert(at_depth(t, 0, 0));
    let deep = lemma_walk_depth(t, g, blocks, walked, 0, 0);
    lemma_leaf_below(t, g, blocks, c, p, k, deep);
    let leaf = last_leaf(t, c, t.inodes.len())->Ok_0;
    let e = t.positions[leaf]->0 as int;
    let q = t.parents[leaf]->0 as int;
    let n = leaf_removed(t, leaf, handles);
    lemma_unlinked_shape(t, g, blocks, q, e, handles);
    lemma_lookup_is_walk(n, path, cs);
    lemma_lookup_is_walk(n, other, cs);
    lemma_unlinked_keeps(t, g, blocks, q, e, handles, walked, 0, p);
    lemma_unlinked_keeps(t, g, blocks, q, e, handles, others, 0, p);
    lemma_unlinked_listing(t, g, blocks, q, e, handles, p);
    lemma_parent_is(t, g, blocks, q, e);
    lemma_unlinked_outside(t, q, e, handles, x, p);
    lemma_unlinked_node(t, g, blocks, q, e, handles, x, p);
    if leaf != c {
        law_subtree_outside(
            n,
            g,
            blocks,
            c,
            handles,
            (steps - 1) as nat,
            path,
            p,
            k,
            other,
            x,
        );
    }
}

/// Removing a node in or below a directory leaves every node outside it as it was.
proof fn lemma_unlinked_node(
    t: TreeView,
    g: VolumeGeometry,
    blocks: int,
    q: int,
    e: int,
    handles: Seq<usize>,
    x: int,
    p: int,
)
    requires
        shape_ok(t, g, blocks, None),
        names_leaf(t, q, e),
        !not_below(t, t.entries[e].inode_index as int, p),
        0 <= x < t.inodes.len(),
        outside(t, x, p),
    ensures
        node_kept(t, after_unlink(t, q, e, handles), x),
{
    let leaf = t.entries[e].inode_index as int;
    let n = after_unlink(t, q, e, handles);
    lemma_parent_is(t, g, blocks, q, e);
    let k = choose|k: nat| #[trigger] under(t, leaf, p, k);
    assert(x != q) by {
        if x == q {
            assert(under(t, q, p, (k - 1) as nat));
        }
    }
    assert(x != leaf);
    if live_dir(t.inodes[x]) {
        lemma_unlinked_listing(t, g, blocks, q, e, handles, x);
    }
    assert(n.inodes[x] == after_remove(t, q, e).inodes[x]);
}

/// A node other than the root that is in use is named by an entry of its parent.
proof fn lemma_leaf_named(t: TreeView, g: VolumeGeometry, blocks: int, leaf: int)
    requires
        shape_ok(t, g, blocks, None),
        0 < leaf < t.inodes.len(),
        !t.inodes[leaf].deleted,
        t.inodes[leaf].kind == NodeKind::Directory ==> t.inodes[leaf].entry_count == 0,
    ensures
        t.positions[leaf] is Some,
        t.parents[leaf] is Some,
        t.entries[t.positions[leaf]->0 as int].inode_index == leaf,
        names_leaf(t, t.parents[leaf]->0 as int, t.positions[leaf]->0 as int),
{
    assert(t.positions[leaf] is Some);
    let e = t.positions[leaf]->0 as int;
    assert(t.entries[e].inode_index == leaf);
    assert(entry_linked(t, e));
}

/// What an entry of a directory names lies one deeper.
proof fn lemma_kid_depth(
    t: TreeView,
    g: VolumeGeometry,
    blocks: int,
    p: int,
    k: int,
    deep: nat,
)
    requires
        shape_ok(t, g, blocks, None),
        at_depth(t, p, deep),
        0 <= p < t.inodes.len(),
        live_dir(t.inodes[p]),
        0 <= k < listing(t, p).len(),
    ensures
        ({
            let c = listing(t, p)[k].inode_index as int;
            &&& 0 < c < t.inodes.len()
            &&& at_depth(t, c, deep + 1)
            &&& !t.inodes[c].deleted
            &&& t.parents[c] == Some(p as usize)
            &&& t.parents.len() == t.inodes.len()
            &&& t.positions[c] == Some((t.inodes[p].entry_start + k) as usize)
            &&& t.inodes[p].entry_start + k <= usize::MAX
        }),
{
    let d = t.inodes[p].entry_start + k;
    assert(slice_end(t.inodes[p]) <= t.entries.len());
    assert(listing(t, p)[k] == t.entries[d]);
    lemma_parent_is(t, g, blocks, p, d);
    let c = t.entries[d].inode_index as int;
    assert(at_depth(t, c, deep + 1));
}

} // verus!
