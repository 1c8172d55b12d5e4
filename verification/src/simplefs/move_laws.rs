//! What removing, renaming and exchanging nodes means for listings and paths.
use vstd::prelude::*;

use crate::error::Error;
use crate::simplefs::create::lemma_lookup_live;
use crate::simplefs::lookup::{child_entry, entry_matches, is_here, is_up, lemma_find_entry_sound, lookup, parent_or_root, walk};
use crate::simplefs::names::{base_text, name_ok, parent_text, root_path, same_name};
use crate::simplefs::ops::{swap_name, swap_path, swap_tree};
use crate::simplefs::path_laws::{lemma_last_position, lemma_lookup_is_walk, lemma_lookup_parent, lemma_walk_one};
use crate::simplefs::release::lemma_delete_shape;
use crate::simplefs::remove::{after_unlink, remove_plan};
use crate::simplefs::rename::{RenamePlan, after_relabel, lemma_relabel_entry_shape, parent_dir, rename_plan, rename_tree};
use crate::simplefs::state::TreeView;
use crate::simplefs::tree::{VolumeGeometry, after_insert, after_remove, entry_linked, lemma_insert_shape, lemma_remove_shape, place_taken, shape_ok, slices_apart, slices_ok};
use crate::simplefs::tree_laws::{law_insert_listing, law_remove_listing, lemma_unique_match, listing};
use crate::simplefs::types::DirEntryView;
use crate::simplefs::validate::{covers, live_dir, slice_end};
use crate::text::{decimal, last_position, lemma_decimal_digits, split_on, trim_end};
use crate::vfs::NodeKind;

verus! {

/// The node that a name of a directory leads to.
pub open spec fn kid(t: TreeView, q: int, name: Seq<char>, cs: bool) -> Option<int> {
    match child_entry(t, q, name, cs) {
        Ok(d) => Some(t.entries[d].inode_index as int),
        Err(_) => None,
    }
}

/// An entry that a name matches is the one the name leads to.
pub proof fn lemma_kid_at(t: TreeView, g: VolumeGeometry, q: int, name: Seq<char>, k: int)
    requires
        slices_ok(t, g.case_sensitive),
        0 <= q < t.inodes.len(),
        live_dir(t.inodes[q]),
        0 <= k < listing(t, q).len(),
        entry_matches(t.inodes, listing(t, q)[k], name, g.case_sensitive),
    ensures
        kid(t, q, name, g.case_sensitive) == Some(listing(t, q)[k].inode_index as int),
        child_entry(t, q, name, g.case_sensitive) == Ok::<int, Error>(
            t.inodes[q].entry_start + k,
        ),
{
    let s = t.inodes[q].entry_start as int;
    assert(slice_end(t.inodes[q]) <= t.entries.len());
    lemma_unique_match(t, s, slice_end(t.inodes[q]), name, g.case_sensitive, s + k);
}

/// What a name leads to is one of the entries listed.
pub proof fn lemma_kid_listed(t: TreeView, q: int, name: Seq<char>, cs: bool) -> (k: int)
    requires
        0 <= q,
        kid(t, q, name, cs) is Some,
    ensures
        q < t.inodes.len(),
        live_dir(t.inodes[q]),
        0 <= k < listing(t, q).len(),
        entry_matches(t.inodes, listing(t, q)[k], name, cs),
        listing(t, q)[k].inode_index as int == kid(t, q, name, cs)->Some_0,
        child_entry(t, q, name, cs) == Ok::<int, Error>(t.inodes[q].entry_start + k),
{
    let s = t.inodes[q].entry_start as int;
    lemma_find_entry_sound(t, s, slice_end(t.inodes[q]), name, cs);
    child_entry(t, q, name, cs)->Ok_0 - s
}

/// The tree after a node was removed is sound.
pub proof fn lemma_unlinked_shape(t: TreeView, g: VolumeGeometry, blocks: int, p: int, d: int, handles: Seq<usize>)
    requires
        shape_ok(t, g, blocks, None),
        0 <= p < t.inodes.len(),
        covers(t.inodes[p], d),
        ({
            let inode = t.inodes[t.entries[d].inode_index as int];
            inode.kind == NodeKind::Directory ==> inode.entry_count == 0
        }),
    ensures
        shape_ok(after_unlink(t, p, d, handles), g, blocks, None),
        0 < t.entries[d].inode_index < t.inodes.len(),
        t.entries[d].inode_index != p,
{
    let c = t.entries[d].inode_index as int;
    assert(slice_end(t.inodes[p]) <= t.entries.len());
    assert(entry_linked(t, d));
    lemma_remove_shape(t, g, blocks, p, d);
    let m = after_remove(t, p, d);
    if c == p {
        assert(covers(t.inodes[c], d));
    }
    assert(m.inodes[c].entry_count == t.inodes[c].entry_count);
    lemma_delete_shape(m, g, blocks, c, handles);
}

/// Where an entry that is listed after a node was removed was listed before.
proof fn lemma_unlinked_entry(
    t: TreeView,
    g: VolumeGeometry,
    blocks: int,
    p: int,
    d: int,
    handles: Seq<usize>,
    q: int,
    k: int,
) -> (j: int)
    requires
        shape_ok(t, g, blocks, None),
        0 <= p < t.inodes.len(),
        covers(t.inodes[p], d),
        0 <= q < t.inodes.len(),
        q != t.entries[d].inode_index,
        live_dir(after_unlink(t, p, d, handles).inodes[q]),
        0 <= k < listing(after_unlink(t, p, d, handles), q).len(),
    ensures
        live_dir(t.inodes[q]),
        0 <= j < listing(t, q).len(),
        listing(t, q)[j] == listing(after_unlink(t, p, d, handles), q)[k],
        t.inodes[q].entry_start + j != d,
{
    let n = after_unlink(t, p, d, handles);
    let m = after_remove(t, p, d);
    assert(n.inodes[q] == m.inodes[q]);
    assert(live_dir(t.inodes[q]));
    law_remove_listing(t, g, blocks, p, d, q);
    assert(listing(n, q) =~= listing(m, q));
    assert(slice_end(t.inodes[q]) <= t.entries.len());
    assert(slice_end(t.inodes[p]) <= t.entries.len());
    let at = d - t.inodes[q].entry_start;
    if q == p && k >= at {
        k + 1
    } else {
        if q < p {
            assert(slices_apart(t.inodes[q], t.inodes[p]));
        } else if q > p {
            assert(slices_apart(t.inodes[p], t.inodes[q]));
        }
        k
    }
}

/// A name that leads somewhere after a node was removed led there before.
proof fn lemma_unlinked_kid(
    t: TreeView,
    g: VolumeGeometry,
    blocks: int,
    p: int,
    d: int,
    handles: Seq<usize>,
    q: int,
    name: Seq<char>,
)
    requires
        shape_ok(t, g, blocks, None),
        0 <= p < t.inodes.len(),
        covers(t.inodes[p], d),
        0 < t.entries[d].inode_index < t.inodes.len(),
        0 <= q,
        q != t.entries[d].inode_index,
        kid(after_unlink(t, p, d, handles), q, name, g.case_sensitive) is Some,
    ensures
        ({
            let n = after_unlink(t, p, d, handles);
            let cs = g.case_sensitive;
            &&& kid(n, q, name, cs)->Some_0 != t.entries[d].inode_index
            &&& kid(t, q, name, cs) == kid(n, q, name, cs)
            &&& child_entry(t, q, name, cs) != Ok::<int, Error>(d)
        }),
{
    let n = after_unlink(t, p, d, handles);
    let c = t.entries[d].inode_index as int;
    let cs = g.case_sensitive;
    let k = lemma_kid_listed(n, q, name, cs);
    let j = lemma_unlinked_entry(t, g, blocks, p, d, handles, q, k);
    let e = listing(n, q)[k];
    assert(n.inodes[c].deleted);
    assert(e.inode_index != c);
    assert(n.inodes[e.inode_index as int].deleted == t.inodes[e.inode_index as int].deleted);
    lemma_kid_at(t, g, q, name, j);
}

/// A walk that leads somewhere after a node was removed led there before.
proof fn lemma_unlinked_walk(
    t: TreeView,
    g: VolumeGeometry,
    blocks: int,
    p: int,
    d: int,
    handles: Seq<usize>,
    steps: Seq<Seq<char>>,
    at: int,
)
    requires
        shape_ok(t, g, blocks, None),
        0 <= p < t.inodes.len(),
        covers(t.inodes[p], d),
        ({
            let inode = t.inodes[t.entries[d].inode_index as int];
            inode.kind == NodeKind::Directory ==> inode.entry_count == 0
        }),
        0 <= at,
        at != t.entries[d].inode_index,
        walk(after_unlink(t, p, d, handles), steps, at, g.case_sensitive) is Ok,
    ensures
        walk(t, steps, at, g.case_sensitive) == walk(
            after_unlink(t, p, d, handles),
            steps,
            at,
            g.case_sensitive,
        ),
        walk(t, steps, at, g.case_sensitive)->Ok_0 != t.entries[d].inode_index,
        walk(t, steps, at, g.case_sensitive)->Ok_0 >= 0,
    decreases steps.len(),
{
    let n = after_unlink(t, p, d, handles);
    let cs = g.case_sensitive;
    let c = t.entries[d].inode_index as int;
    lemma_unlinked_shape(t, g, blocks, p, d, handles);
    if steps.len() > 0 {
        let rest = steps.skip(1);
        if is_here(steps[0]) {
            lemma_unlinked_walk(t, g, blocks, p, d, handles, rest, at);
        } else if is_up(steps[0]) {
            let up = parent_or_root(t, at);
            assert(parent_or_root(n, at) == up);
            assert(up != c) by {
                if 0 <= at < t.parents.len() && t.parents[at] is Some {
                    assert(t.positions[at] is Some);
                    let e = t.positions[at]->0 as int;
                    assert(t.entries[e].inode_index == at);
                    assert(entry_linked(t, e));
                    assert(covers(t.inodes[up], e));
                }
            }
            lemma_unlinked_walk(t, g, blocks, p, d, handles, rest, up);
        } else {
            let next = kid(n, at, steps[0], cs)->Some_0;
            lemma_unlinked_kid(t, g, blocks, p, d, handles, at, steps[0]);
            lemma_unlinked_walk(t, g, blocks, p, d, handles, rest, next);
        }
    }
}

/// A path that ends in a name leads nowhere once what it led to was removed.
pub proof fn law_removed_is_gone(
    t: TreeView,
    g: VolumeGeometry,
    blocks: int,
    path: Seq<char>,
    handles: Seq<usize>,
)
    requires
        shape_ok(t, g, blocks, None),
        remove_plan(t, g, path) is Ok,
        trim_end(path, '/').len() > 0,
        !is_here(base_text(path)),
        !is_up(base_text(path)),
    ensures
        ({
            let (parent, d) = remove_plan(t, g, path)->Ok_0;
            lookup(after_unlink(t, parent, d, handles), path, g.case_sensitive) is Err
        }),
{
    let cs = g.case_sensitive;
    let (p, d) = remove_plan(t, g, path)->Ok_0;
    let n = after_unlink(t, p, d, handles);
    let pp = parent_text(path)->0;
    let base = base_text(path);
    lemma_lookup_live(t, g, blocks, pp);
    lemma_find_entry_sound(t, t.inodes[p].entry_start as int, slice_end(t.inodes[p]), base, cs);
    lemma_unlinked_shape(t, g, blocks, p, d, handles);
    lemma_lookup_parent(n, path, cs);
    if lookup(n, pp, cs) is Ok {
        lemma_lookup_is_walk(n, pp, cs);
        lemma_lookup_is_walk(t, pp, cs);
        lemma_unlinked_walk(t, g, blocks, p, d, handles, split_on(pp, '/'), 0);
        lemma_walk_one(n, base, p, cs);
        if kid(n, p, base, cs) is Some {
            lemma_unlinked_kid(t, g, blocks, p, d, handles, p, base);
        }
    }
}

/// A name that leads nowhere in a directory in use is carried by none of its entries.
proof fn lemma_no_kid(t: TreeView, g: VolumeGeometry, blocks: int, q: int, name: Seq<char>, k: int)
    requires
        shape_ok(t, g, blocks, None),
        0 <= q < t.inodes.len(),
        live_dir(t.inodes[q]),
        child_entry(t, q, name, g.case_sensitive) is Err,
        0 <= k < listing(t, q).len(),
    ensures
        !same_name(listing(t, q)[k].name, name, g.case_sensitive),
{
    let cs = g.case_sensitive;
    let s = t.inodes[q].entry_start as int;
    assert(slice_end(t.inodes[q]) <= t.entries.len());
    lemma_find_entry_sound(t, s, slice_end(t.inodes[q]), name, cs);
    assert(entry_linked(t, s + k));
    assert(!entry_matches(t.inodes, t.entries[s + k], name, cs));
}

/// What is known of the directories of a rename that is planned.
pub proof fn lemma_plan(t: TreeView, g: VolumeGeometry, blocks: int, old_path: Seq<char>, new_path: Seq<char>)
    requires
        shape_ok(t, g, blocks, None),
        rename_plan(t, g, old_path, new_path) is Ok,
    ensures
        ({
            let from = parent_dir(t, g, old_path)->Ok_0;
            let to = parent_dir(t, g, new_path)->Ok_0;
            let d = child_entry(t, from, base_text(old_path), g.case_sensitive)->Ok_0;
            &&& parent_dir(t, g, old_path) is Ok
            &&& parent_dir(t, g, new_path) is Ok
            &&& 0 <= from < t.inodes.len()
            &&& 0 <= to < t.inodes.len()
            &&& live_dir(t.inodes[from])
            &&& live_dir(t.inodes[to])
            &&& covers(t.inodes[from], d)
            &&& d < t.entries.len()
            &&& entry_matches(t.inodes, t.entries[d], base_text(old_path), g.case_sensitive)
            &&& 0 < t.entries[d].inode_index < t.inodes.len()
            &&& name_ok(base_text(new_path))
            &&& rename_plan(t, g, old_path, new_path)->Ok_0 == (if from == to {
                RenamePlan::InPlace { entry: d }
            } else {
                RenamePlan::Move { from, entry: d, to }
            })
            &&& from != to ==> child_entry(t, to, base_text(new_path), g.case_sensitive) is Err
            &&& from == to && child_entry(t, to, base_text(new_path), g.case_sensitive) is Ok
                ==> child_entry(t, to, base_text(new_path), g.case_sensitive)->Ok_0 == d
        }),
{
    let cs = g.case_sensitive;
    lemma_lookup_live(t, g, blocks, parent_text(old_path)->0);
    lemma_lookup_live(t, g, blocks, parent_text(new_path)->0);
    let from = parent_dir(t, g, old_path)->Ok_0;
    let d = child_entry(t, from, base_text(old_path), cs)->Ok_0;
    lemma_find_entry_sound(
        t,
        t.inodes[from].entry_start as int,
        slice_end(t.inodes[from]),
        base_text(old_path),
        cs,
    );
    assert(entry_linked(t, d));
}

/// Moving an entry takes it from one listing, appends it to the other under its new name,
/// and leaves every other listing as it was.
proof fn lemma_move_listing(
    t: TreeView,
    g: VolumeGeometry,
    blocks: int,
    from: int,
    d: int,
    to: int,
    name: Seq<char>,
    q: int,
)
    requires
        shape_ok(t, g, blocks, None),
        0 <= from < t.inodes.len(),
        0 <= to < t.inodes.len(),
        from != to,
        covers(t.inodes[from], d),
        live_dir(t.inodes[to]),
        !place_taken(after_remove(t, from, d).inodes, to),
        0 <= q < t.inodes.len(),
        live_dir(t.inodes[q]),
    ensures
        ({
            let entry = DirEntryView { name, ..t.entries[d] };
            let n = after_insert(after_remove(t, from, d), to, entry);
            &&& live_dir(n.inodes[q])
            &&& listing(n, q) == (if q == from {
                listing(t, q).remove(d - t.inodes[q].entry_start)
            } else if q == to {
                listing(t, q).push(entry)
            } else {
                listing(t, q)
            })
        }),
{
    let m = after_remove(t, from, d);
    let entry = DirEntryView { name, ..t.entries[d] };
    assert(slice_end(t.inodes[from]) <= t.entries.len());
    lemma_remove_shape(t, g, blocks, from, d);
    law_remove_listing(t, g, blocks, from, d, q);
    assert(live_dir(m.inodes[q]));
    assert(live_dir(m.inodes[to]));
    law_insert_listing(m, g, blocks, to, entry, q);
}

/// A rename changes the listings of the two directories and no other: the entry leaves the
/// one and joins the other under its new name, or keeps its place under its new name where
/// the two are one.
pub proof fn law_rename_listing(
    t: TreeView,
    g: VolumeGeometry,
    blocks: int,
    old_path: Seq<char>,
    new_path: Seq<char>,
    q: int,
)
    requires
        shape_ok(t, g, blocks, None),
        rename_tree(t, g, old_path, new_path) is Ok,
        0 <= q < t.inodes.len(),
        live_dir(t.inodes[q]),
    ensures
        ({
            let n = rename_tree(t, g, old_path, new_path)->Ok_0;
            let from = parent_dir(t, g, old_path)->Ok_0;
            let to = parent_dir(t, g, new_path)->Ok_0;
            let d = child_entry(t, from, base_text(old_path), g.case_sensitive)->Ok_0;
            let entry = DirEntryView { name: base_text(new_path), ..t.entries[d] };
            let at = d - t.inodes[q].entry_start;
            listing(n, q) == (if q == from && q == to {
                listing(t, q).update(at, entry)
            } else if q == from {
                listing(t, q).remove(at)
            } else if q == to {
                listing(t, q).push(entry)
            } else {
                listing(t, q)
            })
        }),
{
    lemma_plan(t, g, blocks, old_path, new_path);
    let n = rename_tree(t, g, old_path, new_path)->Ok_0;
    let from = parent_dir(t, g, old_path)->Ok_0;
    let to = parent_dir(t, g, new_path)->Ok_0;
    let d = child_entry(t, from, base_text(old_path), g.case_sensitive)->Ok_0;
    if from == to {
        let entry = DirEntryView { name: base_text(new_path), ..t.entries[d] };
        assert(slice_end(t.inodes[q]) <= t.entries.len());
        if q == from {
            assert(listing(n, q) =~= listing(t, q).update(d - t.inodes[q].entry_start, entry));
        } else {
            if q < from {
                assert(slices_apart(t.inodes[q], t.inodes[from]));
            } else {
                assert(slices_apart(t.inodes[from], t.inodes[q]));
            }
            assert(listing(n, q) =~= listing(t, q));
        }
    } else {
        lemma_move_listing(t, g, blocks, from, d, to, base_text(new_path), q);
    }
}

/// Giving an entry a name that leads to it or nowhere keeps the tree sound.
proof fn lemma_relabelled_shape(
    t: TreeView,
    g: VolumeGeometry,
    blocks: int,
    q: int,
    d: int,
    name: Seq<char>,
)
    requires
        shape_ok(t, g, blocks, None),
        0 <= q < t.inodes.len(),
        covers(t.inodes[q], d),
        name_ok(name),
        child_entry(t, q, name, g.case_sensitive) matches Ok(e) ==> e == d,
    ensures
        shape_ok(after_relabel(t, d, name), g, blocks, None),
{
    let cs = g.case_sensitive;
    let s = t.inodes[q].entry_start as int;
    assert(slice_end(t.inodes[q]) <= t.entries.len());
    assert forall|e: int|
        #![trigger t.entries[e]]
        s <= e < slice_end(t.inodes[q]) && e != d implies !same_name(t.entries[e].name, name, cs) by {
        assert(listing(t, q)[e - s] == t.entries[e]);
        if child_entry(t, q, name, cs) is Err {
            lemma_no_kid(t, g, blocks, q, name, e - s);
        } else if same_name(t.entries[e].name, name, cs) {
            assert(entry_linked(t, e));
            lemma_kid_at(t, g, q, name, e - s);
        }
    }
    lemma_relabel_entry_shape(t, g, blocks, q, d, name);
}

/// Moving an entry to a directory where its new name leads nowhere keeps the tree sound.
proof fn lemma_moved_shape(
    t: TreeView,
    g: VolumeGeometry,
    blocks: int,
    from: int,
    d: int,
    to: int,
    name: Seq<char>,
)
    requires
        shape_ok(t, g, blocks, None),
        0 <= from < t.inodes.len(),
        0 <= to < t.inodes.len(),
        from != to,
        covers(t.inodes[from], d),
        live_dir(t.inodes[to]),
        name_ok(name),
        child_entry(t, to, name, g.case_sensitive) is Err,
        !place_taken(after_remove(t, from, d).inodes, to),
    ensures
        shape_ok(
            after_insert(after_remove(t, from, d), to, DirEntryView { name, ..t.entries[d] }),
            g,
            blocks,
            None,
        ),
{
    let cs = g.case_sensitive;
    let m = after_remove(t, from, d);
    let entry = DirEntryView { name, ..t.entries[d] };
    assert(slice_end(t.inodes[from]) <= t.entries.len());
    assert(entry_linked(t, d));
    lemma_remove_shape(t, g, blocks, from, d);
    law_remove_listing(t, g, blocks, from, d, to);
    let ms = m.inodes[to].entry_start as int;
    assert(live_dir(m.inodes[to]));
    assert(slice_end(m.inodes[to]) <= m.entries.len());
    assert forall|e: int|
        #![trigger m.entries[e]]
        ms <= e < slice_end(m.inodes[to]) implies !same_name(m.entries[e].name, name, cs) by {
        assert(listing(m, to)[e - ms] == m.entries[e]);
        lemma_no_kid(t, g, blocks, to, name, e - ms);
    }
    lemma_insert_shape(m, g, blocks, to, entry);
}

/// The tree after a rename is sound.
pub proof fn lemma_renamed_shape(
    t: TreeView,
    g: VolumeGeometry,
    blocks: int,
    old_path: Seq<char>,
    new_path: Seq<char>,
)
    requires
        shape_ok(t, g, blocks, None),
        rename_tree(t, g, old_path, new_path) is Ok,
    ensures
        shape_ok(rename_tree(t, g, old_path, new_path)->Ok_0, g, blocks, None),
{
    let name = base_text(new_path);
    lemma_plan(t, g, blocks, old_path, new_path);
    let from = parent_dir(t, g, old_path)->Ok_0;
    let to = parent_dir(t, g, new_path)->Ok_0;
    let d = child_entry(t, from, base_text(old_path), g.case_sensitive)->Ok_0;
    if from == to {
        lemma_relabelled_shape(t, g, blocks, from, d, name);
    } else {
        lemma_moved_shape(t, g, blocks, from, d, to, name);
    }
}

/// A rename removes no node and makes none.
proof fn lemma_renamed_alive(
    t: TreeView,
    g: VolumeGeometry,
    blocks: int,
    old_path: Seq<char>,
    new_path: Seq<char>,
)
    requires
        shape_ok(t, g, blocks, None),
        rename_tree(t, g, old_path, new_path) is Ok,
    ensures
        same_life(t, rename_tree(t, g, old_path, new_path)->Ok_0),
{
    lemma_plan(t, g, blocks, old_path, new_path);
}

/// Whether the same nodes are in use.
spec fn same_life(t: TreeView, n: TreeView) -> bool {
    &&& n.inodes.len() == t.inodes.len()
    &&& forall|i: int|
        #![trigger n.inodes[i]]
        0 <= i < t.inodes.len() ==> n.inodes[i].deleted == t.inodes[i].deleted && live_dir(
            n.inodes[i],
        ) == live_dir(t.inodes[i])
}

/// A name that matches no entry but one leads nowhere once that one has another name or is
/// gone.
proof fn lemma_kid_gone(
    t: TreeView,
    n: TreeView,
    g: VolumeGeometry,
    q: int,
    name: Seq<char>,
    at: int,
    kept: bool,
)
    requires
        slices_ok(t, g.case_sensitive),
        same_life(t, n),
        0 <= q < t.inodes.len(),
        live_dir(t.inodes[q]),
        0 <= at < listing(t, q).len(),
        child_entry(t, q, name, g.case_sensitive) == Ok::<int, Error>(
            t.inodes[q].entry_start + at,
        ),
        if kept {
            &&& listing(n, q).len() == listing(t, q).len()
            &&& listing(n, q) == listing(t, q).update(at, listing(n, q)[at])
            &&& !same_name(listing(n, q)[at].name, name, g.case_sensitive)
        } else {
            listing(n, q) == listing(t, q).remove(at)
        },
    ensures
        kid(n, q, name, g.case_sensitive) is None,
{
    let cs = g.case_sensitive;
    if kid(n, q, name, cs) is Some {
        let j = lemma_kid_listed(n, q, name, cs);
        let e = listing(n, q)[j];
        let i = if !kept && j >= at {
            j + 1
        } else {
            j
        };
        assert(i != at);
        assert(listing(t, q)[i] == e);
        assert(n.inodes[e.inode_index as int].deleted == t.inodes[e.inode_index as int].deleted);
        lemma_kid_at(t, g, q, name, i);
    }
}

/// The node that moved is found under its new name in its new directory.
pub proof fn lemma_renamed_kid(
    t: TreeView,
    g: VolumeGeometry,
    blocks: int,
    old_path: Seq<char>,
    new_path: Seq<char>,
)
    requires
        shape_ok(t, g, blocks, None),
        rename_tree(t, g, old_path, new_path) is Ok,
    ensures
        ({
            let cs = g.case_sensitive;
            let n = rename_tree(t, g, old_path, new_path)->Ok_0;
            let from = parent_dir(t, g, old_path)->Ok_0;
            let to = parent_dir(t, g, new_path)->Ok_0;
            kid(n, to, base_text(new_path), cs) == kid(t, from, base_text(old_path), cs)
        }),
{
    let cs = g.case_sensitive;
    let name = base_text(new_path);
    lemma_plan(t, g, blocks, old_path, new_path);
    lemma_renamed_shape(t, g, blocks, old_path, new_path);
    lemma_renamed_alive(t, g, blocks, old_path, new_path);
    let n = rename_tree(t, g, old_path, new_path)->Ok_0;
    let from = parent_dir(t, g, old_path)->Ok_0;
    let to = parent_dir(t, g, new_path)->Ok_0;
    let d = child_entry(t, from, base_text(old_path), cs)->Ok_0;
    law_rename_listing(t, g, blocks, old_path, new_path, to);
    let k = if from == to {
        d - t.inodes[from].entry_start
    } else {
        listing(t, to).len() as int
    };
    assert(slices_ok(n, cs) && slices_ok(t, cs));
    lemma_renamed_found(t, n, g, to, name, t.entries[d], k);
}

proof fn lemma_renamed_found(
    t: TreeView,
    n: TreeView,
    g: VolumeGeometry,
    to: int,
    name: Seq<char>,
    old: DirEntryView,
    k: int,
)
    requires
        slices_ok(n, g.case_sensitive),
        same_life(t, n),
        0 <= to < t.inodes.len(),
        live_dir(t.inodes[to]),
        0 <= k < listing(n, to).len(),
        listing(n, to)[k] == (DirEntryView { name, ..old }),
        0 < old.inode_index < t.inodes.len(),
        !t.inodes[old.inode_index as int].deleted,
    ensures
        kid(n, to, name, g.case_sensitive) == Some(old.inode_index as int),
{
    assert(live_dir(n.inodes[to]));
    assert(!n.inodes[old.inode_index as int].deleted);
    assert(same_name(name, name, g.case_sensitive));
    lemma_kid_at(n, g, to, name, k);
}

/// The node that moved is not found under its old name any more, unless the two names are
/// one in one directory.
pub proof fn lemma_renamed_away(
    t: TreeView,
    g: VolumeGeometry,
    blocks: int,
    old_path: Seq<char>,
    new_path: Seq<char>,
)
    requires
        shape_ok(t, g, blocks, None),
        rename_tree(t, g, old_path, new_path) is Ok,
        parent_dir(t, g, old_path) != parent_dir(t, g, new_path) || !same_name(
            base_text(new_path),
            base_text(old_path),
            g.case_sensitive,
        ),
    ensures
        kid(
            rename_tree(t, g, old_path, new_path)->Ok_0,
            parent_dir(t, g, old_path)->Ok_0,
            base_text(old_path),
            g.case_sensitive,
        ) is None,
{
    let cs = g.case_sensitive;
    lemma_plan(t, g, blocks, old_path, new_path);
    lemma_renamed_alive(t, g, blocks, old_path, new_path);
    let n = rename_tree(t, g, old_path, new_path)->Ok_0;
    let from = parent_dir(t, g, old_path)->Ok_0;
    let to = parent_dir(t, g, new_path)->Ok_0;
    let d = child_entry(t, from, base_text(old_path), cs)->Ok_0;
    let at = d - t.inodes[from].entry_start;
    law_rename_listing(t, g, blocks, old_path, new_path, from);
    assert(slices_ok(t, cs));
    assert(slice_end(t.inodes[from]) <= t.entries.len());
    lemma_kid_gone(t, n, g, from, base_text(old_path), at, from == to);
}

/// After a rename the new path leads to the node that moved, and the old one nowhere unless
/// the two are one name of one directory. This is said of paths that end in a name, and
/// whose parents lead where they led: a path can run through the very node that moves, by
/// way of the directory above it.
pub proof fn law_rename_moves_the_node(
    t: TreeView,
    g: VolumeGeometry,
    blocks: int,
    old_path: Seq<char>,
    new_path: Seq<char>,
)
    requires
        shape_ok(t, g, blocks, None),
        rename_tree(t, g, old_path, new_path) is Ok,
        old_path != root_path(),
        new_path != root_path(),
        trim_end(old_path, '/').len() > 0,
        trim_end(new_path, '/').len() > 0,
        !is_here(base_text(old_path)),
        !is_up(base_text(old_path)),
        !is_here(base_text(new_path)),
        !is_up(base_text(new_path)),
    ensures
        ({
            let cs = g.case_sensitive;
            let n = rename_tree(t, g, old_path, new_path)->Ok_0;
            let from = parent_dir(t, g, old_path);
            let to = parent_dir(t, g, new_path);
            &&& parent_dir(n, g, new_path) == to ==> lookup(n, new_path, cs) == lookup(
                t,
                old_path,
                cs,
            )
            &&& parent_dir(n, g, old_path) == from && (from != to || !same_name(
                base_text(new_path),
                base_text(old_path),
                cs,
            )) ==> lookup(n, old_path, cs) is Err
        }),
{
    let cs = g.case_sensitive;
    let n = rename_tree(t, g, old_path, new_path)->Ok_0;
    lemma_plan(t, g, blocks, old_path, new_path);
    lemma_renamed_kid(t, g, blocks, old_path, new_path);
    if parent_dir(t, g, old_path) != parent_dir(t, g, new_path) || !same_name(
        base_text(new_path),
        base_text(old_path),
        cs,
    ) {
        lemma_renamed_away(t, g, blocks, old_path, new_path);
    }
    let from = parent_dir(t, g, old_path)->Ok_0;
    let to = parent_dir(t, g, new_path)->Ok_0;
    lemma_lookup_parent(t, old_path, cs);
    lemma_lookup_parent(n, new_path, cs);
    lemma_lookup_parent(n, old_path, cs);
    lemma_walk_one(t, base_text(old_path), from, cs);
    lemma_walk_one(n, base_text(new_path), to, cs);
    lemma_walk_one(n, base_text(old_path), from, cs);
}

/// Whether a path goes down only.
pub open spec fn goes_down(path: Seq<char>) -> bool {
    forall|i: int|
        #![trigger split_on(path, '/')[i]]
        0 <= i < split_on(path, '/').len() ==> !is_up(split_on(path, '/')[i])
}

/// A name that leads to a node that does not move leads there still.
#[verifier::spinoff_prover]
#[verifier::rlimit(60)]
pub proof fn lemma_renamed_keeps(
    t: TreeView,
    g: VolumeGeometry,
    blocks: int,
    old_path: Seq<char>,
    new_path: Seq<char>,
    q: int,
    name: Seq<char>,
)
    requires
        shape_ok(t, g, blocks, None),
        rename_tree(t, g, old_path, new_path) is Ok,
        0 <= q,
        kid(t, q, name, g.case_sensitive) is Some,
        kid(t, q, name, g.case_sensitive) != kid(
            t,
            parent_dir(t, g, old_path)->Ok_0,
            base_text(old_path),
            g.case_sensitive,
        ),
    ensures
        kid(rename_tree(t, g, old_path, new_path)->Ok_0, q, name, g.case_sensitive) == kid(
            t,
            q,
            name,
            g.case_sensitive,
        ),
{
    let cs = g.case_sensitive;
    lemma_plan(t, g, blocks, old_path, new_path);
    lemma_renamed_alive(t, g, blocks, old_path, new_path);
    let n = rename_tree(t, g, old_path, new_path)->Ok_0;
    let from = parent_dir(t, g, old_path)->Ok_0;
    let to = parent_dir(t, g, new_path)->Ok_0;
    let d = child_entry(t, from, base_text(old_path), cs)->Ok_0;
    let k = lemma_kid_listed(t, q, name, cs);
    law_rename_listing(t, g, blocks, old_path, new_path, q);
    assert(slices_ok(n, cs)) by {
        lemma_renamed_shape(t, g, blocks, old_path, new_path);
    }
    assert(slice_end(t.inodes[q]) <= t.entries.len());
    lemma_kept_found(
        t,
        n,
        g,
        q,
        name,
        k,
        d - t.inodes[q].entry_start,
        q == from,
        q == to,
    );
}

proof fn lemma_kept_found(
    t: TreeView,
    n: TreeView,
    g: VolumeGeometry,
    q: int,
    name: Seq<char>,
    k: int,
    at: int,
    is_from: bool,
    is_to: bool,
)
    requires
        slices_ok(n, g.case_sensitive),
        same_life(t, n),
        0 <= q < t.inodes.len(),
        live_dir(t.inodes[q]),
        0 <= k < listing(t, q).len(),
        entry_matches(t.inodes, listing(t, q)[k], name, g.case_sensitive),
        is_from ==> 0 <= at < listing(t, q).len() && k != at,
        if is_from && is_to {
            listing(n, q).len() == listing(t, q).len() && listing(n, q) == listing(t, q).update(
                at,
                listing(n, q)[at],
            )
        } else if is_from {
            listing(n, q) == listing(t, q).remove(at)
        } else if is_to {
            listing(n, q).len() == listing(t, q).len() + 1 && listing(n, q) == listing(t, q).push(
                listing(n, q).last(),
            )
        } else {
            listing(n, q) == listing(t, q)
        },
    ensures
        kid(n, q, name, g.case_sensitive) == Some(listing(t, q)[k].inode_index as int),
{
    let j = if is_from && !is_to && k > at {
        k - 1
    } else {
        k
    };
    let e = listing(t, q)[k];
    assert(listing(n, q)[j] == e);
    assert(live_dir(n.inodes[q]));
    assert(n.inodes[e.inode_index as int].deleted == t.inodes[e.inode_index as int].deleted);
    lemma_kid_at(n, g, q, name, j);
}

/// Names that lead to one node are names of one entry.
pub proof fn lemma_one_entry(
    t: TreeView,
    g: VolumeGeometry,
    blocks: int,
    q: int,
    name: Seq<char>,
    p: int,
    other: Seq<char>,
)
    requires
        shape_ok(t, g, blocks, None),
        0 <= q,
        0 <= p,
        kid(t, q, name, g.case_sensitive) is Some,
        kid(t, q, name, g.case_sensitive) == kid(t, p, other, g.case_sensitive),
    ensures
        q == p,
        child_entry(t, q, name, g.case_sensitive) == child_entry(t, p, other, g.case_sensitive),
{
    let cs = g.case_sensitive;
    let k = lemma_kid_listed(t, q, name, cs);
    let j = lemma_kid_listed(t, p, other, cs);
    let e = t.inodes[q].entry_start + k;
    let d = t.inodes[p].entry_start + j;
    assert(slice_end(t.inodes[q]) <= t.entries.len());
    assert(slice_end(t.inodes[p]) <= t.entries.len());
    assert(entry_linked(t, d));
    assert(entry_linked(t, e));
    assert(e == d);
    if q < p {
        assert(slices_apart(t.inodes[q], t.inodes[p]));
    } else if q > p {
        assert(slices_apart(t.inodes[p], t.inodes[q]));
    }
}

/// A name that leads somewhere before and after a rename leads to one node.
#[verifier::rlimit(40)]
proof fn lemma_renamed_agrees(
    t: TreeView,
    g: VolumeGeometry,
    blocks: int,
    old_path: Seq<char>,
    new_path: Seq<char>,
    q: int,
    name: Seq<char>,
)
    requires
        shape_ok(t, g, blocks, None),
        rename_tree(t, g, old_path, new_path) is Ok,
        0 <= q,
        kid(t, q, name, g.case_sensitive) is Some,
        kid(rename_tree(t, g, old_path, new_path)->Ok_0, q, name, g.case_sensitive) is Some,
    ensures
        kid(rename_tree(t, g, old_path, new_path)->Ok_0, q, name, g.case_sensitive) == kid(
            t,
            q,
            name,
            g.case_sensitive,
        ),
{
    let cs = g.case_sensitive;
    let n = rename_tree(t, g, old_path, new_path)->Ok_0;
    let from = parent_dir(t, g, old_path)->Ok_0;
    if kid(t, q, name, cs) != kid(t, from, base_text(old_path), cs) {
        lemma_renamed_keeps(t, g, blocks, old_path, new_path, q, name);
    } else {
        lemma_plan(t, g, blocks, old_path, new_path);
        lemma_renamed_alive(t, g, blocks, old_path, new_path);
        lemma_one_entry(t, g, blocks, q, name, from, base_text(old_path));
        let k = lemma_kid_listed(t, q, name, cs);
        lemma_renamed_shape(t, g, blocks, old_path, new_path);
        law_rename_listing(t, g, blocks, old_path, new_path, q);
        let j = lemma_kid_listed(n, q, name, cs);
        if parent_dir(t, g, new_path)->Ok_0 == from {
            if j != k {
                assert(listing(n, q)[j] == listing(t, q)[j]);
                let i = listing(n, q)[j].inode_index as int;
                assert(n.inodes[i].deleted == t.inodes[i].deleted);
                lemma_kid_at(t, g, q, name, j);
            }
        } else {
            lemma_kid_gone(t, n, g, q, name, k, false);
        }
    }
}

/// A path that goes down only and leads somewhere before and after a rename leads to one
/// node.
proof fn lemma_renamed_walk(
    t: TreeView,
    g: VolumeGeometry,
    blocks: int,
    old_path: Seq<char>,
    new_path: Seq<char>,
    steps: Seq<Seq<char>>,
    at: int,
)
    requires
        shape_ok(t, g, blocks, None),
        rename_tree(t, g, old_path, new_path) is Ok,
        forall|i: int| #![trigger steps[i]] 0 <= i < steps.len() ==> !is_up(steps[i]),
        0 <= at,
        walk(t, steps, at, g.case_sensitive) is Ok,
        walk(rename_tree(t, g, old_path, new_path)->Ok_0, steps, at, g.case_sensitive) is Ok,
    ensures
        walk(rename_tree(t, g, old_path, new_path)->Ok_0, steps, at, g.case_sensitive) == walk(
            t,
            steps,
            at,
            g.case_sensitive,
        ),
    decreases steps.len(),
{
    let cs = g.case_sensitive;
    let n = rename_tree(t, g, old_path, new_path)->Ok_0;
    if steps.len() > 0 {
        let rest = steps.skip(1);
        assert forall|i: int| #![trigger rest[i]] 0 <= i < rest.len() implies !is_up(rest[i]) by {
            assert(rest[i] == steps[i + 1]);
        }
        assert(!is_up(steps[0]));
        if is_here(steps[0]) {
            lemma_renamed_walk(t, g, blocks, old_path, new_path, rest, at);
        } else {
            lemma_renamed_agrees(t, g, blocks, old_path, new_path, at, steps[0]);
            lemma_renamed_walk(
                t,
                g,
                blocks,
                old_path,
                new_path,
                rest,
                kid(t, at, steps[0], cs)->Some_0,
            );
        }
    }
}

pub proof fn lemma_renamed_lookup(
    t: TreeView,
    g: VolumeGeometry,
    blocks: int,
    old_path: Seq<char>,
    new_path: Seq<char>,
    path: Seq<char>,
)
    requires
        shape_ok(t, g, blocks, None),
        rename_tree(t, g, old_path, new_path) is Ok,
        goes_down(path),
        lookup(t, path, g.case_sensitive) is Ok,
        lookup(rename_tree(t, g, old_path, new_path)->Ok_0, path, g.case_sensitive) is Ok,
    ensures
        lookup(rename_tree(t, g, old_path, new_path)->Ok_0, path, g.case_sensitive) == lookup(
            t,
            path,
            g.case_sensitive,
        ),
{
    let n = rename_tree(t, g, old_path, new_path)->Ok_0;
    lemma_lookup_is_walk(t, path, g.case_sensitive);
    lemma_lookup_is_walk(n, path, g.case_sensitive);
    lemma_renamed_walk(t, g, blocks, old_path, new_path, split_on(path, '/'), 0);
}

/// The place of the first of two swapped nodes in between lies in the directory that it
/// comes from.
pub proof fn lemma_swap_path(path: Seq<char>, generation: u32)
    requires
        path != root_path(),
        trim_end(path, '/').len() > 0,
    ensures
        ({
            let tmp = swap_path(path, generation);
            &&& tmp != root_path()
            &&& trim_end(tmp, '/') == tmp
            &&& tmp.len() > 0
            &&& parent_text(tmp) == parent_text(path)
            &&& base_text(tmp) == swap_name(generation)
        }),
{
    let pp = parent_text(path)->0;
    let name = swap_name(generation);
    let tmp = swap_path(path, generation);
    reveal_strlit("/");
    reveal_strlit(".swap-tmp-");
    lemma_decimal_digits(generation as nat);
    lemma_last_position(trim_end(path, '/'), '/');
    assert(pp.len() > 0);
    assert(name.len() > 10);
    assert forall|i: int| 0 <= i < name.len() implies name[i] != '/' by {
        if i >= 10 {
            assert(name[i] == decimal(generation as nat)[i - 10]);
        }
    }
    assert(tmp.last() == name.last());
    assert(tmp[pp.len() as int] == '/');
    assert forall|i: int| pp.len() < i < tmp.len() implies tmp[i] != '/' by {
        assert(tmp[i] == name[i - pp.len() - 1]);
    }
    lemma_last_position(tmp, '/');
    assert(last_position(tmp, '/') == pp.len());
    assert(tmp.take(pp.len() as int) =~= pp);
    assert(tmp.skip(pp.len() as int + 1) =~= name);
    assert(tmp != root_path());
}

/// Exchanging two nodes puts each where the other was: in the directory of the first, the
/// name of the first leads to the second, and the other way round. This is said of paths
/// that end in a name and whose parents go down only: a path can run through the very nodes
/// that move, by way of the directory above them.
pub proof fn law_swap_exchanges(
    t: TreeView,
    g: VolumeGeometry,
    blocks: int,
    generation: u32,
    path_a: Seq<char>,
    path_b: Seq<char>,
)
    requires
        shape_ok(t, g, blocks, None),
        swap_tree(t, g, generation, path_a, path_b) is Ok,
        path_a != root_path(),
        path_b != root_path(),
        trim_end(path_a, '/').len() > 0,
        trim_end(path_b, '/').len() > 0,
        !is_here(base_text(path_a)),
        !is_up(base_text(path_a)),
        !is_here(base_text(path_b)),
        !is_up(base_text(path_b)),
        goes_down(parent_text(path_a)->0),
        goes_down(parent_text(path_b)->0),
        lookup(t, path_a, g.case_sensitive) != lookup(t, path_b, g.case_sensitive),
    ensures
        ({
            let cs = g.case_sensitive;
            let n = swap_tree(t, g, generation, path_a, path_b)->Ok_0;
            let pa = parent_dir(t, g, path_a)->Ok_0;
            let pb = parent_dir(t, g, path_b)->Ok_0;
            &&& kid(n, pa, base_text(path_a), cs) == Some(lookup(t, path_b, cs)->Ok_0)
            &&& kid(n, pb, base_text(path_b), cs) == Some(lookup(t, path_a, cs)->Ok_0)
            &&& parent_dir(n, g, path_a) is Ok ==> lookup(n, path_a, cs) == lookup(t, path_b, cs)
            &&& parent_dir(n, g, path_b) is Ok ==> lookup(n, path_b, cs) == lookup(t, path_a, cs)
        }),
{
    let cs = g.case_sensitive;
    let tmp = swap_path(path_a, generation);
    let na = base_text(path_a);
    let nb = base_text(path_b);
    lemma_swap_path(path_a, generation);
    lemma_lookup_parent(t, path_a, cs);
    lemma_lookup_parent(t, path_b, cs);
    let pa = parent_dir(t, g, path_a)->Ok_0;
    let pb = parent_dir(t, g, path_b)->Ok_0;
    lemma_walk_one(t, na, pa, cs);
    lemma_walk_one(t, nb, pb, cs);
    let a = lookup(t, path_a, cs)->Ok_0;
    let b = lookup(t, path_b, cs)->Ok_0;
    assert(kid(t, pa, na, cs) == Some(a));
    assert(kid(t, pb, nb, cs) == Some(b));
    let t1 = rename_tree(t, g, path_a, tmp)->Ok_0;
    lemma_lookup_live(t, g, blocks, parent_text(path_a)->0);
    lemma_lookup_live(t, g, blocks, parent_text(path_b)->0);
    lemma_renamed_shape(t, g, blocks, path_a, tmp);
    lemma_renamed_kid(t, g, blocks, path_a, tmp);
    assert(kid(t1, pa, swap_name(generation), cs) == Some(a));
    let t2 = rename_tree(t1, g, path_b, path_a)->Ok_0;
    lemma_plan(t1, g, blocks, path_b, path_a);
    lemma_renamed_lookup(t, g, blocks, path_a, tmp, parent_text(path_a)->0);
    lemma_renamed_lookup(t, g, blocks, path_a, tmp, parent_text(path_b)->0);
    lemma_renamed_agrees(t, g, blocks, path_a, tmp, pb, nb);
    assert(kid(t1, pb, nb, cs) == Some(b));
    lemma_renamed_shape(t1, g, blocks, path_b, path_a);
    lemma_renamed_kid(t1, g, blocks, path_b, path_a);
    assert(kid(t2, pa, na, cs) == Some(b));
    let n = rename_tree(t2, g, tmp, path_b)->Ok_0;
    lemma_plan(t2, g, blocks, tmp, path_b);
    lemma_renamed_lookup(t1, g, blocks, path_b, path_a, parent_text(path_a)->0);
    lemma_renamed_lookup(t1, g, blocks, path_b, path_a, parent_text(path_b)->0);
    lemma_renamed_agrees(t1, g, blocks, path_b, path_a, pa, swap_name(generation));
    assert(kid(t2, pa, swap_name(generation), cs) == Some(a));
    lemma_renamed_kid(t2, g, blocks, tmp, path_b);
    assert(kid(n, pb, nb, cs) == Some(a));
    lemma_renamed_keeps(t2, g, blocks, tmp, path_b, pa, na);
    assert(kid(n, pa, na, cs) == Some(b));
    lemma_lookup_parent(n, path_a, cs);
    lemma_lookup_parent(n, path_b, cs);
    lemma_walk_one(n, na, pa, cs);
    lemma_walk_one(n, nb, pb, cs);
    if parent_dir(n, g, path_a) is Ok {
        lemma_renamed_lookup(t2, g, blocks, tmp, path_b, parent_text(path_a)->0);
    }
    if parent_dir(n, g, path_b) is Ok {
        lemma_renamed_lookup(t2, g, blocks, tmp, path_b, parent_text(path_b)->0);
    }
}

} // verus!
