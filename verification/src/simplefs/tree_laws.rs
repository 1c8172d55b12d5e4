//! What adding and removing entries means for listings and lookups.
use vstd::prelude::*;

use crate::error::Error;
use crate::simplefs::lookup::{child_entry, entry_matches, find_entry, is_here, is_up, lemma_find_entry_sound, lookup, parent_or_root, walk};
use crate::simplefs::names::{base_text, parent_text, root_path, same_name};
use crate::simplefs::path_laws::{lemma_absent_child, lemma_lookup_is_walk, lemma_lookup_parent, lemma_walk_one};
use crate::simplefs::state::TreeView;
use crate::simplefs::tree::{VolumeGeometry, after_insert, after_remove, entry_linked, place_taken, shape_ok, slices_apart};
use crate::simplefs::types::DirEntryView;
use crate::simplefs::validate::{covers, live_dir, slice_end, slice_names_distinct};
use crate::text::{split_on, trim_end};

verus! {

/// The entries of a directory, in order.
pub open spec fn listing(t: TreeView, q: int) -> Seq<DirEntryView> {
    t.entries.subrange(t.inodes[q].entry_start as int, slice_end(t.inodes[q]))
}

/// Adding an entry appends it to its directory's listing and leaves the listing
/// of every other directory as it was.
#[verifier::spinoff_prover]
#[verifier::rlimit(60)]
pub proof fn law_insert_listing(
    t: TreeView,
    g: VolumeGeometry,
    blocks: int,
    parent: int,
    entry: DirEntryView,
    q: int,
)
    requires
        shape_ok(t, g, blocks, Some(entry.inode_index as usize)),
        t.entries.len() < g.dirent_capacity,
        0 <= parent < t.inodes.len(),
        live_dir(t.inodes[parent]),
        !place_taken(t.inodes, parent),
        0 <= q < t.inodes.len(),
        live_dir(t.inodes[q]),
    ensures
        listing(after_insert(t, parent, entry), q) == if q == parent {
            listing(t, q).push(entry)
        } else {
            listing(t, q)
        },
{
    let n = after_insert(t, parent, entry);
    let at = slice_end(t.inodes[parent]);
    assert(slice_end(t.inodes[parent]) <= t.entries.len());
    assert(slice_end(t.inodes[q]) <= t.entries.len());
    if q != parent {
        if t.inodes[q].entry_start < at {
            assert(slice_end(t.inodes[q]) <= at) by {
                if slice_end(t.inodes[q]) > at {
                    assert(place_taken(t.inodes, parent));
                }
            }
        }
        assert(listing(n, q) =~= listing(t, q));
    } else {
        assert(listing(n, q) =~= listing(t, q).push(entry));
    }
}

/// Removing an entry takes it from its directory's listing and leaves the listing
/// of every other directory as it was.
pub proof fn law_remove_listing(
    t: TreeView,
    g: VolumeGeometry,
    blocks: int,
    parent: int,
    d: int,
    q: int,
)
    requires
        shape_ok(t, g, blocks, None),
        0 <= parent < t.inodes.len(),
        covers(t.inodes[parent], d),
        0 <= q < t.inodes.len(),
        live_dir(t.inodes[q]),
    ensures
        listing(after_remove(t, parent, d), q) == if q == parent {
            listing(t, q).remove(d - t.inodes[q].entry_start)
        } else {
            listing(t, q)
        },
{
    assert(slice_end(t.inodes[parent]) <= t.entries.len());
    assert(slice_end(t.inodes[q]) <= t.entries.len());
    if q < parent {
        assert(slices_apart(t.inodes[q], t.inodes[parent]));
    } else if q > parent {
        assert(slices_apart(t.inodes[parent], t.inodes[q]));
    }
    lemma_remove_one_listing(t, parent, d, q);
}

proof fn lemma_remove_one_listing(t: TreeView, parent: int, d: int, q: int)
    requires
        0 <= parent < t.inodes.len(),
        0 <= q < t.inodes.len(),
        covers(t.inodes[parent], d),
        live_dir(t.inodes[q]),
        slice_end(t.inodes[parent]) <= t.entries.len(),
        slice_end(t.inodes[q]) <= t.entries.len(),
        q != parent ==> slices_apart(t.inodes[q], t.inodes[parent]) || slices_apart(
            t.inodes[parent],
            t.inodes[q],
        ),
    ensures
        listing(after_remove(t, parent, d), q) == if q == parent {
            listing(t, q).remove(d - t.inodes[q].entry_start)
        } else {
            listing(t, q)
        },
{
    let n = after_remove(t, parent, d);
    let s = t.inodes[q].entry_start as int;
    if q == parent {
        assert(listing(n, q) =~= listing(t, q).remove(d - s));
    } else if s > d {
        assert(n.inodes[q].entry_start == s - 1);
        assert(listing(n, q) =~= listing(t, q));
    } else {
        assert(slice_end(t.inodes[q]) <= d || t.inodes[q].entry_count == 0);
        assert(n.inodes[q] == t.inodes[q]);
        assert(listing(n, q) =~= listing(t, q));
    }
}

/// In a directory without duplicate names the one match is what a search finds.
pub proof fn lemma_unique_match(t: TreeView, from: int, to: int, name: Seq<char>, cs: bool, d: int)
    requires
        slice_names_distinct(t.entries, from, to, cs),
        from <= d < to,
        entry_matches(t.inodes, t.entries[d], name, cs),
    ensures
        find_entry(t, from, to, name, cs) == Some(d),
    decreases to - from,
{
    if from < d {
        assert(!same_name(t.entries[from].name, t.entries[d].name, cs));
        lemma_unique_match(t, from + 1, to, name, cs, d);
    }
}

/// Adding an entry keeps every child that could be found.
pub proof fn lemma_insert_keeps_child(
    t: TreeView,
    g: VolumeGeometry,
    blocks: int,
    parent: int,
    entry: DirEntryView,
    q: int,
    name: Seq<char>,
    d: int,
)
    requires
        shape_ok(t, g, blocks, Some(entry.inode_index as usize)),
        shape_ok(after_insert(t, parent, entry), g, blocks, None),
        t.entries.len() < g.dirent_capacity,
        0 <= parent < t.inodes.len(),
        live_dir(t.inodes[parent]),
        !place_taken(t.inodes, parent),
        child_entry(t, q, name, g.case_sensitive) == Ok::<int, Error>(d),
        0 <= q,
    ensures
        ({
            let n = after_insert(t, parent, entry);
            let c = child_entry(n, q, name, g.case_sensitive);
            c is Ok && n.entries[c->Ok_0] == t.entries[d]
        }),
{
    let n = after_insert(t, parent, entry);
    let cs = g.case_sensitive;
    let at = slice_end(t.inodes[parent]);
    assert(at <= t.entries.len());
    lemma_find_entry_sound(
        t,
        t.inodes[q].entry_start as int,
        slice_end(t.inodes[q]),
        name,
        cs,
    );
    let e = if d < at {
        d
    } else {
        d + 1
    };
    assert(n.entries[e] == t.entries[d]);
    if q != parent && t.inodes[q].entry_start < at {
        assert(slice_end(t.inodes[q]) <= at) by {
            if slice_end(t.inodes[q]) > at {
                assert(place_taken(t.inodes, parent));
            }
        }
    }
    assert(live_dir(n.inodes[q]));
    assert(n.inodes[q].entry_start <= e < slice_end(n.inodes[q]));
    let c = t.entries[d].inode_index as int;
    assert(n.inodes[c].deleted == t.inodes[c].deleted);
    lemma_unique_match(
        n,
        n.inodes[q].entry_start as int,
        slice_end(n.inodes[q]),
        name,
        cs,
        e,
    );
}

/// Adding an entry for a childless inode keeps every walk that led somewhere.
pub proof fn lemma_insert_keeps_walk(
    t: TreeView,
    g: VolumeGeometry,
    blocks: int,
    parent: int,
    entry: DirEntryView,
    steps: Seq<Seq<char>>,
    at: int,
)
    requires
        shape_ok(t, g, blocks, Some(entry.inode_index as usize)),
        shape_ok(after_insert(t, parent, entry), g, blocks, None),
        t.entries.len() < g.dirent_capacity,
        0 <= parent < t.inodes.len(),
        live_dir(t.inodes[parent]),
        !place_taken(t.inodes, parent),
        live_dir(t.inodes[entry.inode_index as int]) ==> t.inodes[entry.inode_index as int].entry_count
            == 0,
        at != entry.inode_index,
        0 <= at,
        walk(t, steps, at, g.case_sensitive) is Ok,
    ensures
        walk(after_insert(t, parent, entry), steps, at, g.case_sensitive) == walk(
            t,
            steps,
            at,
            g.case_sensitive,
        ),
    decreases steps.len(),
{
    let n = after_insert(t, parent, entry);
    let cs = g.case_sensitive;
    let x = entry.inode_index as int;
    if steps.len() > 0 {
        let rest = steps.skip(1);
        if is_here(steps[0]) {
            lemma_insert_keeps_walk(t, g, blocks, parent, entry, rest, at);
        } else if is_up(steps[0]) {
            let up = parent_or_root(t, at);
            assert(parent_or_root(n, at) == up);
            assert(up != x) by {
                if 0 <= at < t.parents.len() && t.parents[at] is Some {
                    assert(t.positions[at] is Some);
                    let d = t.positions[at]->0 as int;
                    assert(t.entries[d].inode_index == at);
                    assert(entry_linked(t, d));
                    assert(covers(t.inodes[up], d));
                }
            }
            lemma_insert_keeps_walk(t, g, blocks, parent, entry, rest, up);
        } else {
            let d = child_entry(t, at, steps[0], cs)->Ok_0;
            lemma_find_entry_sound(
                t,
                t.inodes[at].entry_start as int,
                slice_end(t.inodes[at]),
                steps[0],
                cs,
            );
            lemma_insert_keeps_child(t, g, blocks, parent, entry, at, steps[0], d);
            let c = t.entries[d].inode_index as int;
            assert(entry_linked(t, d));
            assert(t.positions[x] is None);
            assert(c != x);
            lemma_insert_keeps_walk(t, g, blocks, parent, entry, rest, c);
        }
    }
}

/// A path that could not be looked up leads to the new node once an entry for it
/// was added to the directory its parent path leads to.
pub proof fn law_created_is_found(
    t: TreeView,
    g: VolumeGeometry,
    blocks: int,
    parent: int,
    entry: DirEntryView,
    path: Seq<char>,
)
    requires
        shape_ok(t, g, blocks, Some(entry.inode_index as usize)),
        shape_ok(after_insert(t, parent, entry), g, blocks, None),
        t.entries.len() < g.dirent_capacity,
        0 <= parent < t.inodes.len(),
        live_dir(t.inodes[parent]),
        !place_taken(t.inodes, parent),
        live_dir(t.inodes[entry.inode_index as int]) ==> t.inodes[entry.inode_index as int].entry_count
            == 0,
        path != root_path(),
        trim_end(path, '/').len() > 0,
        lookup(t, path, g.case_sensitive) is Err,
        lookup(t, parent_text(path)->0, g.case_sensitive) == Ok::<int, Error>(parent),
        entry.name == base_text(path),
    ensures
        lookup(after_insert(t, parent, entry), path, g.case_sensitive) == Ok::<int, Error>(
            entry.inode_index as int,
        ),
{
    let n = after_insert(t, parent, entry);
    let cs = g.case_sensitive;
    let at = slice_end(t.inodes[parent]);
    let pp = parent_text(path)->0;
    assert(at <= t.entries.len());
    lemma_absent_child(t, path, cs, parent);
    lemma_lookup_is_walk(t, pp, cs);
    lemma_lookup_is_walk(n, pp, cs);
    lemma_insert_keeps_walk(t, g, blocks, parent, entry, split_on(pp, '/'), 0);
    lemma_lookup_parent(n, path, cs);
    lemma_walk_one(n, base_text(path), parent, cs);
    assert(n.entries[at] == entry);
    assert(entry_linked(n, at));
    lemma_unique_match(
        n,
        n.inodes[parent].entry_start as int,
        slice_end(n.inodes[parent]),
        entry.name,
        cs,
        at,
    );
}

} // verus!
