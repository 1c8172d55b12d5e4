//! Where names lead, and what accepted metadata is sure to say.
use vstd::prelude::*;

use crate::error::Error;
use crate::simplefs::lookup::{child_entry, find_entry, inode_metadata, lemma_find_entry_sound, lookup, walk};
use crate::simplefs::names::{base_text, parent_text, root_path, same_name};
use crate::simplefs::path_laws::{lemma_lookup_is_walk, lemma_split_join, lemma_walk_push};
use crate::simplefs::state::TreeView;
use crate::simplefs::types::{DirEntryView, OnDiskInode};
use crate::simplefs::validate::{cover_count, covers, entry_ok, extent_ok, extents_apart, metadata_valid, ref_count, slice_end};
use crate::text::{last_position, lowercase, split_on, trim_end};
use crate::vfs::NodeKind;

verus! {

// ── Paths as texts ──

proof fn lemma_last_slash(front: Seq<char>, name: Seq<char>)
    requires
        !name.contains('/'),
    ensures
        last_position(front + seq!['/'] + name, '/') == front.len(),
    decreases name.len(),
{
    let s = front + seq!['/'] + name;
    if name.len() == 0 {
        assert(s.last() == '/');
    } else {
        let d = name.drop_last();
        assert forall|i: int| 0 <= i < d.len() implies d[i] != '/' by {
            assert(name.contains(name[i]));
        }
        assert(!d.contains('/'));
        assert(name.contains(name.last()));
        assert(s.last() == name.last());
        assert(s.drop_last() =~= front + seq!['/'] + d);
        lemma_last_slash(front, d);
    }
}

/// A name behind a directory's path and a slash has that directory as its parent and is its
/// own last component; a name behind a slash alone lies in the root.
pub proof fn law_parent_and_name(dir: Seq<char>, name: Seq<char>)
    requires
        name.len() > 0,
        !name.contains('/'),
    ensures
        base_text(dir + seq!['/'] + name) == name,
        dir.len() > 0 ==> parent_text(dir + seq!['/'] + name) == Some(dir),
        dir.len() == 0 ==> parent_text(dir + seq!['/'] + name) == Some(seq!['/']),
        parent_text(seq!['/']) is None,
{
    let path = dir + seq!['/'] + name;
    assert(name.contains(name.last()));
    assert(path.last() == name.last());
    assert(trim_end(path, '/') == path);
    assert(path != root_path()) by {
        if path.len() == 1 {
            assert(path.len() == dir.len() + 1 + name.len());
        }
    }
    lemma_last_slash(dir, name);
    assert(path.take(dir.len() as int) =~= dir);
    assert(path.skip(dir.len() as int + 1) =~= name);
}

// ── Directories ──

/// An entry is found in a directory under its name where it is the first one of that name, in
/// the part of the entry table that belongs to the directory, whose node is in use.
pub proof fn law_name_leads_to_its_entry(t: TreeView, dir: int, d: int)
    requires
        0 <= dir < t.inodes.len(),
        t.inodes[dir].kind == NodeKind::Directory,
        !t.inodes[dir].deleted,
        t.inodes[dir].entry_start <= d < t.inodes[dir].entry_start + t.inodes[dir].entry_count,
        t.inodes[dir].entry_start + t.inodes[dir].entry_count <= t.entries.len(),
        t.entries[d].inode_index < t.inodes.len(),
        !t.inodes[t.entries[d].inode_index as int].deleted,
        forall|j: int|
            #![trigger t.entries[j]]
            t.inodes[dir].entry_start <= j < d ==> t.entries[j].name != t.entries[d].name,
    ensures
        child_entry(t, dir, t.entries[d].name, true) == Ok::<int, Error>(d),
{
    lemma_first_entry(t, t.inodes[dir].entry_start as int, d, slice_end(t.inodes[dir]));
}

proof fn lemma_first_entry(t: TreeView, i: int, d: int, end: int)
    requires
        0 <= i <= d < end <= t.entries.len(),
        t.entries[d].inode_index < t.inodes.len(),
        !t.inodes[t.entries[d].inode_index as int].deleted,
        forall|j: int|
            #![trigger t.entries[j]]
            i <= j < d ==> t.entries[j].name != t.entries[d].name,
    ensures
        find_entry(t, i, end, t.entries[d].name, true) == Some(d),
    decreases d - i,
{
    if i < d {
        assert(t.entries[i].name != t.entries[d].name);
        lemma_first_entry(t, i + 1, d, end);
    }
}

/// A name that no entry of a directory has is not found there, whatever other directories
/// hold.
pub proof fn law_other_names_are_not_found(t: TreeView, dir: int, name: Seq<char>)
    requires
        0 <= dir < t.inodes.len(),
        t.inodes[dir].kind == NodeKind::Directory,
        !t.inodes[dir].deleted,
        t.inodes[dir].entry_start + t.inodes[dir].entry_count <= t.entries.len(),
        forall|j: int|
            #![trigger t.entries[j]]
            t.inodes[dir].entry_start <= j < t.inodes[dir].entry_start + t.inodes[dir].entry_count
                ==> t.entries[j].name != name,
    ensures
        child_entry(t, dir, name, true) == Err::<int, Error>(Error::NotFound),
{
    let from = t.inodes[dir].entry_start as int;
    let end = slice_end(t.inodes[dir]);
    lemma_find_entry_sound(t, from, end, name, true);
    if let Some(d) = find_entry(t, from, end, name, true) {
        assert(t.entries[d].name != name);
    }
}

/// Names are told apart by case in a volume that says so, and otherwise not: two texts that
/// are the same in lower case are one name there.
pub proof fn law_case_of_names(a: Seq<char>, b: Seq<char>)
    ensures
        same_name(a, b, true) <==> a == b,
        lowercase(a) == lowercase(b) <==> same_name(a, b, false),
{
}

/// On a walk one dot and nothing stay where they are, two dots go to the directory above and
/// stay at the root, and a name goes to the node of its entry.
pub proof fn law_walk_goes_step_by_step(
    t: TreeView,
    at: int,
    name: Seq<char>,
    rest: Seq<Seq<char>>,
    d: int,
    cs: bool,
)
    requires
        0 <= at < t.parents.len(),
        name.len() > 0,
        name != seq!['.'],
        name != seq!['.', '.'],
        child_entry(t, at, name, cs) == Ok::<int, Error>(d),
    ensures
        walk(t, seq![seq!['.']] + rest, at, cs) == walk(t, rest, at, cs),
        walk(t, seq![seq![]] + rest, at, cs) == walk(t, rest, at, cs),
        t.parents[at] matches Some(p) ==> walk(t, seq![seq!['.', '.']] + rest, at, cs) == walk(
            t,
            rest,
            p as int,
            cs,
        ),
        t.parents[at] is None ==> walk(t, seq![seq!['.', '.']] + rest, at, cs) == walk(
            t,
            rest,
            0,
            cs,
        ),
        walk(t, seq![name] + rest, at, cs) == walk(t, rest, t.entries[d].inode_index as int, cs),
        walk(t, seq![], at, cs) == Ok::<int, Error>(at),
{
    let dot = seq!['.'];
    let up = seq!['.', '.'];
    assert((seq![dot] + rest).skip(1) =~= rest && (seq![dot] + rest)[0] == dot);
    assert((seq![up] + rest).skip(1) =~= rest && (seq![up] + rest)[0] == up);
    assert((seq![name] + rest).skip(1) =~= rest && (seq![name] + rest)[0] == name);
    let none = Seq::<char>::empty();
    assert((seq![none] + rest).skip(1) =~= rest && (seq![none] + rest)[0] == none);
    assert(up.len() == 2 && dot.len() == 1);
}

/// The size of a directory is how many entries it has, the size of anything else its own; the
/// owner and the mode are the stored ones, or root's and the kind's where none are stored.
pub proof fn law_attributes_of_a_node(inode: OnDiskInode)
    ensures
        ({
            let m = inode_metadata(inode);
            &&& m.kind == inode.kind
            &&& inode.kind == NodeKind::Directory ==> m.size == inode.entry_count
            &&& inode.kind != NodeKind::Directory ==> m.size == inode.size
            &&& inode.persistent_security matches Some(s) ==> m.security.owner_uid == s.owner_uid
                && m.security.owner_gid == s.owner_gid && m.security.mode == s.mode
            &&& inode.persistent_security is None ==> m.security.owner_uid == 0
                && m.security.owner_gid == 0
        }),
{
}

// ── Accepted metadata ──

/// In accepted metadata no two nodes in use share a block, every block in use lies in the data
/// area, and contents fit their blocks.
pub proof fn law_accepted_blocks(
    inodes: Seq<OnDiskInode>,
    entries: Seq<DirEntryView>,
    start: int,
    blocks: int,
    cs: bool,
    i: int,
    j: int,
    b: int,
)
    requires
        metadata_valid(inodes, entries, start, blocks, cs),
        0 <= i < inodes.len(),
        0 <= j < inodes.len(),
        i != j,
        !inodes[i].deleted && inodes[i].kind != NodeKind::Directory,
        !inodes[j].deleted && inodes[j].kind != NodeKind::Directory,
        inodes[i].data_block <= b < inodes[i].data_block + inodes[i].block_count,
    ensures
        !(inodes[j].data_block <= b < inodes[j].data_block + inodes[j].block_count),
        start <= b < blocks,
        inodes[i].size <= inodes[i].block_count * 512,
{
    if i < j {
        assert(extents_apart(inodes[i], inodes[j]));
    } else {
        assert(extents_apart(inodes[j], inodes[i]));
    }
    assert(extent_ok(inodes[i], start, blocks));
}

proof fn lemma_covered(inodes: Seq<OnDiskInode>, d: int) -> (i: int)
    requires
        cover_count(inodes, d) > 0,
    ensures
        0 <= i < inodes.len(),
        covers(inodes[i], d),
    decreases inodes.len(),
{
    let n = inodes.len() - 1;
    if covers(inodes.last(), d) {
        n
    } else {
        let i = lemma_covered(inodes.drop_last(), d);
        assert(inodes.drop_last()[i] == inodes[i]);
        i
    }
}

proof fn lemma_covered_twice(inodes: Seq<OnDiskInode>, d: int, i: int, j: int)
    requires
        0 <= i < j < inodes.len(),
        covers(inodes[i], d),
        covers(inodes[j], d),
    ensures
        cover_count(inodes, d) >= 2,
    decreases inodes.len(),
{
    let front = inodes.drop_last();
    if j < inodes.len() - 1 {
        assert(front[i] == inodes[i] && front[j] == inodes[j]);
        lemma_covered_twice(front, d, i, j);
    } else {
        assert(front[i] == inodes[i]);
        lemma_covered_once(front, d, i);
    }
}

proof fn lemma_covered_once(inodes: Seq<OnDiskInode>, d: int, i: int)
    requires
        0 <= i < inodes.len(),
        covers(inodes[i], d),
    ensures
        cover_count(inodes, d) >= 1,
    decreases inodes.len(),
{
    if i < inodes.len() - 1 {
        assert(inodes.drop_last()[i] == inodes[i]);
        lemma_covered_once(inodes.drop_last(), d, i);
    }
}

/// In accepted metadata every entry belongs to one directory in use and to no other, names a
/// node in use of its kind, and the root is a directory that no entry names.
pub proof fn law_accepted_entries(
    inodes: Seq<OnDiskInode>,
    entries: Seq<DirEntryView>,
    start: int,
    blocks: int,
    cs: bool,
    d: int,
) -> (dir: int)
    requires
        metadata_valid(inodes, entries, start, blocks, cs),
        0 <= d < entries.len(),
    ensures
        0 <= dir < inodes.len(),
        inodes[dir].kind == NodeKind::Directory && !inodes[dir].deleted,
        inodes[dir].entry_start <= d < inodes[dir].entry_start + inodes[dir].entry_count,
        forall|j: int|
            #![trigger inodes[j]]
            0 <= j < inodes.len() && j != dir && inodes[j].kind == NodeKind::Directory
                && !inodes[j].deleted ==> !(inodes[j].entry_start <= d < inodes[j].entry_start
                + inodes[j].entry_count),
        0 < entries[d].inode_index < inodes.len(),
        !inodes[entries[d].inode_index as int].deleted,
        inodes[entries[d].inode_index as int].kind == entries[d].kind,
        inodes[0].kind == NodeKind::Directory && !inodes[0].deleted,
{
    assert(cover_count(inodes, d) == 1);
    let dir = lemma_covered(inodes, d);
    assert forall|j: int|
        #![trigger inodes[j]]
        0 <= j < inodes.len() && j != dir && inodes[j].kind == NodeKind::Directory
            && !inodes[j].deleted implies !(inodes[j].entry_start <= d < inodes[j].entry_start
        + inodes[j].entry_count) by {
        if covers(inodes[j], d) {
            if j < dir {
                lemma_covered_twice(inodes, d, j, dir);
            } else {
                lemma_covered_twice(inodes, d, dir, j);
            }
        }
    }
    assert(entry_ok(entries[d], inodes));
    dir
}

proof fn lemma_referenced(entries: Seq<DirEntryView>, i: int) -> (d: int)
    requires
        ref_count(entries, i) > 0,
    ensures
        0 <= d < entries.len(),
        entries[d].inode_index == i,
    decreases entries.len(),
{
    if entries.last().inode_index == i {
        entries.len() - 1
    } else {
        let d = lemma_referenced(entries.drop_last(), i);
        assert(entries.drop_last()[d] == entries[d]);
        d
    }
}

proof fn lemma_referenced_once(entries: Seq<DirEntryView>, i: int, d: int)
    requires
        0 <= d < entries.len(),
        entries[d].inode_index == i,
    ensures
        ref_count(entries, i) >= 1,
    decreases entries.len(),
{
    if d < entries.len() - 1 {
        assert(entries.drop_last()[d] == entries[d]);
        lemma_referenced_once(entries.drop_last(), i, d);
    }
}

proof fn lemma_referenced_twice(entries: Seq<DirEntryView>, i: int, d: int, e: int)
    requires
        0 <= d < e < entries.len(),
        entries[d].inode_index == i,
        entries[e].inode_index == i,
    ensures
        ref_count(entries, i) >= 2,
    decreases entries.len(),
{
    let front = entries.drop_last();
    assert(front[d] == entries[d]);
    if e < entries.len() - 1 {
        assert(front[e] == entries[e]);
        lemma_referenced_twice(front, i, d, e);
    } else {
        lemma_referenced_once(front, i, d);
    }
}

/// In accepted metadata every node in use but the root is named by one entry and no other, and
/// no directory in use holds a name twice.
pub proof fn law_accepted_names(
    inodes: Seq<OnDiskInode>,
    entries: Seq<DirEntryView>,
    start: int,
    blocks: int,
    i: int,
) -> (d: int)
    requires
        metadata_valid(inodes, entries, start, blocks, true),
        1 <= i < inodes.len(),
        !inodes[i].deleted,
    ensures
        0 <= d < entries.len(),
        entries[d].inode_index == i,
        forall|e: int|
            #![trigger entries[e]]
            0 <= e < entries.len() && e != d ==> entries[e].inode_index != i,
        inodes[i].kind == NodeKind::Directory ==> forall|a: int, b: int|
            #![trigger entries[a], entries[b]]
            inodes[i].entry_start <= a < b < inodes[i].entry_start + inodes[i].entry_count
                ==> entries[a].name != entries[b].name,
{
    assert(ref_count(entries, i) == 1);
    let d = lemma_referenced(entries, i);
    assert forall|e: int|
        #![trigger entries[e]]
        0 <= e < entries.len() && e != d implies entries[e].inode_index != i by {
        if entries[e].inode_index == i {
            if e < d {
                lemma_referenced_twice(entries, i, e, d);
            } else {
                lemma_referenced_twice(entries, i, d, e);
            }
        }
    }
    d
}

// ── Paths ──

/// A path one longer leads from where the shorter one leads to the node of the entry of that
/// name; one dot stays there, and two dots lead to the directory above. No path and a slash
/// lead to the root.
pub proof fn law_longer_path_leads_on(t: TreeView, dir: Seq<char>, name: Seq<char>, cs: bool)
    requires
        name.len() > 0,
        !name.contains('/'),
    ensures
        lookup(t, seq![], cs) == Ok::<int, Error>(0),
        lookup(t, seq!['/'], cs) == Ok::<int, Error>(0),
        ({
            let path = dir + seq!['/'] + name;
            match lookup(t, dir, cs) {
                Err(e) => lookup(t, path, cs) == Err::<int, Error>(e),
                Ok(i) => {
                    &&& name == seq!['.'] ==> lookup(t, path, cs) == Ok::<int, Error>(i)
                    &&& name == seq!['.', '.'] && 0 <= i < t.parents.len() ==> lookup(t, path, cs)
                        == Ok::<int, Error>(
                        match t.parents[i] {
                            Some(p) => p as int,
                            None => 0,
                        },
                    )
                    &&& name != seq!['.'] && name != seq!['.', '.'] ==> match child_entry(
                        t,
                        i,
                        name,
                        cs,
                    ) {
                        Ok(d) => lookup(t, path, cs) == Ok::<int, Error>(
                            t.entries[d].inode_index as int,
                        ),
                        Err(e) => lookup(t, path, cs) == Err::<int, Error>(e),
                    }
                },
            }
        }),
{
    let path = dir + seq!['/'] + name;
    lemma_lookup_is_walk(t, dir, cs);
    lemma_lookup_is_walk(t, path, cs);
    lemma_split_join(dir, name, '/');
    lemma_walk_push(t, split_on(dir, '/'), name, 0, cs);
    reveal_with_fuel(walk, 2);
    let one = seq![name];
    let none = Seq::<Seq<char>>::empty();
    assert(one.skip(1) =~= none);
    assert(one[0] == name);
    assert(seq!['.'].len() == 1 && seq!['.', '.'].len() == 2);
}

} // verus!
