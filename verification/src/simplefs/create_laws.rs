//! Where a new directory is found.
use vstd::prelude::*;

use crate::error::Error;
use crate::simplefs::create::{create_dir_outcome, lemma_alloc_place, lemma_create_shape, lemma_name_is_new, lemma_nameable, new_dir_inode};
use crate::simplefs::inode_slots::{after_alloc, alloc_index, inode_fits, lemma_alloc_shape};
use crate::simplefs::lookup::{child_entry, find_entry, is_here, is_up, lemma_find_entry_sound, lookup, parent_or_root, path_steps, plain_lookup, plain_walk, walk};
use crate::simplefs::names::{base_text, parent_text};
use crate::simplefs::ops::dir_created;
use crate::simplefs::path_laws::lemma_lookup_is_walk;
use crate::simplefs::settle::same_nodes;
use crate::simplefs::state::TreeView;
use crate::simplefs::tree::{VolumeGeometry, after_insert, entry_linked, shape_ok};
use crate::simplefs::tree_laws::{law_created_is_found, law_insert_listing, lemma_insert_keeps_walk, listing};
use crate::simplefs::types::{DirEntryView, OnDiskInode};
use crate::simplefs::validate::{live_dir, slice_end};
use crate::text::split_on;
use crate::vfs::NodeKind;

verus! {

/// A slot that is handed out was not reached, so every walk goes on as it went.
proof fn lemma_alloc_walk(
    t: TreeView,
    g: VolumeGeometry,
    blocks: int,
    inode: OnDiskInode,
    steps: Seq<Seq<char>>,
    at: int,
)
    requires
        shape_ok(t, g, blocks, None),
        0 <= at < t.inodes.len(),
        !t.inodes[at].deleted,
    ensures
        walk(after_alloc(t, inode), steps, at, g.case_sensitive) == walk(
            t,
            steps,
            at,
            g.case_sensitive,
        ),
    decreases steps.len(),
{
    let n = after_alloc(t, inode);
    let x = alloc_index(t);
    let cs = g.case_sensitive;
    if t.free_slots.len() > 0 {
        assert(t.free_slots[t.free_slots.len() - 1] == x);
        assert(t.inodes[x].deleted);
    }
    assert(at != x);
    if steps.len() > 0 {
        let rest = steps.skip(1);
        if is_here(steps[0]) {
            lemma_alloc_walk(t, g, blocks, inode, rest, at);
        } else if is_up(steps[0]) {
            let up = parent_or_root(t, at);
            if t.parents[at] is Some {
                assert(t.positions[at] is Some);
                let d = t.positions[at]->0 as int;
                assert(entry_linked(t, d));
            }
            assert(parent_or_root(n, at) == up);
            lemma_alloc_walk(t, g, blocks, inode, rest, up);
        } else {
            assert(n.inodes[at] == t.inodes[at]);
            if live_dir(t.inodes[at]) {
                assert(slice_end(t.inodes[at]) <= t.entries.len());
                lemma_alloc_find(
                    t,
                    g,
                    blocks,
                    inode,
                    t.inodes[at].entry_start as int,
                    slice_end(t.inodes[at]),
                    steps[0],
                );
            }
            match child_entry(t, at, steps[0], cs) {
                Ok(d) => {
                    lemma_find_entry_sound(
                        t,
                        t.inodes[at].entry_start as int,
                        slice_end(t.inodes[at]),
                        steps[0],
                        cs,
                    );
                    lemma_alloc_walk(
                        t,
                        g,
                        blocks,
                        inode,
                        rest,
                        t.entries[d].inode_index as int,
                    );
                },
                Err(_) => {},
            }
        }
    }
}

proof fn lemma_alloc_find(
    t: TreeView,
    g: VolumeGeometry,
    blocks: int,
    inode: OnDiskInode,
    from: int,
    to: int,
    name: Seq<char>,
)
    requires
        shape_ok(t, g, blocks, None),
        0 <= from,
        to <= t.entries.len(),
    ensures
        find_entry(after_alloc(t, inode), from, to, name, g.case_sensitive) == find_entry(
            t,
            from,
            to,
            name,
            g.case_sensitive,
        ),
    decreases to - from,
{
    if from < to {
        let x = alloc_index(t);
        if t.free_slots.len() > 0 {
            assert(t.free_slots[t.free_slots.len() - 1] == x);
            assert(t.inodes[x].deleted);
        }
        assert(entry_linked(t, from));
        lemma_alloc_find(t, g, blocks, inode, from + 1, to, name);
    }
}

/// A new directory is found under its path; it comes last in the directory that holds it,
/// and that directory is found where it was.
pub proof fn law_new_dir_is_found(t: TreeView, g: VolumeGeometry, blocks: int, path: Seq<char>)
    requires
        shape_ok(t, g, blocks, None),
        create_dir_outcome(t, g, path, None) is Ok,
    ensures
        ({
            let parent = create_dir_outcome(t, g, path, None)->Ok_0;
            let n = dir_created(t, g, path, None, parent);
            let entry = DirEntryView {
                inode_index: alloc_index(t) as u32,
                kind: NodeKind::Directory,
                name: base_text(path),
            };
            &&& shape_ok(n, g, blocks, None)
            &&& alloc_index(t) <= u32::MAX
            &&& lookup(n, path, g.case_sensitive) == Ok::<int, Error>(alloc_index(t))
            &&& lookup(t, parent_text(path)->0, g.case_sensitive) == Ok::<int, Error>(parent)
            &&& lookup(n, parent_text(path)->0, g.case_sensitive) == Ok::<int, Error>(parent)
            &&& 0 <= parent < t.inodes.len()
            &&& live_dir(t.inodes[parent])
            &&& live_dir(n.inodes[parent])
            &&& listing(n, parent) == listing(t, parent).push(entry)
        }),
{
    let cs = g.case_sensitive;
    let parent = create_dir_outcome(t, g, path, None)->Ok_0;
    let inode = new_dir_inode(t, g, parent, None);
    let entry = DirEntryView {
        inode_index: alloc_index(t) as u32,
        kind: NodeKind::Directory,
        name: base_text(path),
    };
    let pp = parent_text(path)->0;
    lemma_nameable(path);
    lemma_name_is_new(t, g, blocks, path, parent);
    assert(t.entries.len() <= u32::MAX);
    assert(inode_fits(t, g, blocks, inode));
    lemma_create_shape(t, g, blocks, parent, inode, base_text(path));
    lemma_alloc_shape(t, g, blocks, inode);
    lemma_alloc_place(t, g, blocks, inode, parent);
    let m = after_alloc(t, inode);
    let n = after_insert(m, parent, entry);
    lemma_lookup_is_walk(t, path, cs);
    lemma_lookup_is_walk(m, path, cs);
    lemma_lookup_is_walk(t, pp, cs);
    lemma_lookup_is_walk(m, pp, cs);
    lemma_lookup_is_walk(n, pp, cs);
    lemma_alloc_walk(t, g, blocks, inode, split_on(path, '/'), 0);
    lemma_alloc_walk(t, g, blocks, inode, split_on(pp, '/'), 0);
    law_created_is_found(m, g, blocks, parent, entry, path);
    lemma_insert_keeps_walk(m, g, blocks, parent, entry, split_on(pp, '/'), 0);
    law_insert_listing(m, g, blocks, parent, entry, parent);
    assert(slice_end(t.inodes[parent]) <= t.entries.len());
    assert(listing(m, parent) == listing(t, parent));
}

/// Two trees that agree but for their free blocks are searched alike.
pub proof fn lemma_walk_same_nodes(
    a: TreeView,
    b: TreeView,
    steps: Seq<Seq<char>>,
    at: int,
    cs: bool,
)
    requires
        same_nodes(a, b),
    ensures
        walk(b, steps, at, cs) == walk(a, steps, at, cs),
    decreases steps.len(),
{
    if steps.len() > 0 {
        let rest = steps.skip(1);
        lemma_walk_same_nodes(a, b, rest, at, cs);
        lemma_walk_same_nodes(a, b, rest, parent_or_root(a, at), cs);
        lemma_find_same_nodes(
            a,
            b,
            a.inodes[at].entry_start as int,
            slice_end(a.inodes[at]),
            steps[0],
            cs,
        );
        match child_entry(a, at, steps[0], cs) {
            Ok(d) => {
                lemma_walk_same_nodes(a, b, rest, a.entries[d].inode_index as int, cs);
            },
            Err(_) => {},
        }
    }
}

pub proof fn lemma_find_same_nodes(
    a: TreeView,
    b: TreeView,
    from: int,
    to: int,
    name: Seq<char>,
    cs: bool,
)
    requires
        same_nodes(a, b),
    ensures
        find_entry(b, from, to, name, cs) == find_entry(a, from, to, name, cs),
    decreases to - from,
{
    if from < to {
        lemma_find_same_nodes(a, b, from + 1, to, name, cs);
    }
}

/// Looking a path up does not depend on which blocks are free.
pub proof fn lemma_lookup_same_nodes(a: TreeView, b: TreeView, path: Seq<char>, cs: bool)
    requires
        same_nodes(a, b),
    ensures
        lookup(b, path, cs) == lookup(a, path, cs),
{
    lemma_lookup_is_walk(a, path, cs);
    lemma_lookup_is_walk(b, path, cs);
    lemma_walk_same_nodes(a, b, split_on(path, '/'), 0, cs);
}

/// Whether every component of a path is a name.
pub open spec fn all_names(path: Seq<char>) -> bool {
    forall|i: int|
        #![trigger path_steps(path)[i]]
        0 <= i < path_steps(path).len() ==> !is_here(path_steps(path)[i]) && !is_up(
            path_steps(path)[i],
        )
}

proof fn lemma_plain_walk(t: TreeView, steps: Seq<Seq<char>>, at: int, cs: bool)
    requires
        forall|i: int|
            #![trigger steps[i]]
            0 <= i < steps.len() ==> !is_here(steps[i]) && !is_up(steps[i]),
    ensures
        plain_walk(t, steps, at, cs) == walk(t, steps, at, cs),
    decreases steps.len(),
{
    if steps.len() > 0 {
        let rest = steps.skip(1);
        assert forall|i: int| #![trigger rest[i]] 0 <= i < rest.len() implies !is_here(rest[i])
            && !is_up(rest[i]) by {
            assert(steps[i + 1] == rest[i]);
        }
        assert(!is_here(steps[0]));
        match child_entry(t, at, steps[0], cs) {
            Ok(d) => {
                lemma_plain_walk(t, rest, t.entries[d].inode_index as int, cs);
            },
            Err(_) => {},
        }
    }
}

/// A path of names leads to the same node whether dots count or not.
pub proof fn law_names_are_plain(t: TreeView, path: Seq<char>, cs: bool)
    requires
        all_names(path),
    ensures
        plain_lookup(t, path, cs) == lookup(t, path, cs),
{
    lemma_plain_walk(t, path_steps(path), 0, cs);
}

} // verus!
