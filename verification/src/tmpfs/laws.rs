//! What holds of the operations on a filesystem in memory taken together.
use vstd::prelude::*;

use crate::error::Error;
use crate::order::{bytes_before, larger, lemma_text_before_irreflexive, text_before};
use crate::path::segments;
use crate::tmpfs::create::{new_place, with_created};
use crate::tmpfs::file::{after_set_len, after_write, file_at, written};
use crate::tmpfs::link::{after_link, after_removal, after_rename, after_replaced, child_in, is_dir_node, linked, moved, recounted, unlinked};
use crate::tmpfs::lists::{AttrList, EntryList, attr_pos, attr_slot, attr_value, lemma_attr_pos, lemma_name_at, lemma_name_slot, lemma_with_name_order, lemma_without_name_order, name_at, name_slot, named, names_in_order, with_attr, with_name, without_name};
use crate::tmpfs::state::{DataView, InodeNode, Nodes, ROOT_INO, TmpFsInner, node_at, node_in_order, tmp_parent, tmp_resolved, tmp_walk};
use crate::tmpfs::subtree::{closed_below, entries_at, holds_entries, lies_below};
use crate::tmpfs::volume::tmp_found;
use crate::vfs::NodeKind;

verus! {

/// What a name of a node leads to, where it leads anywhere.
pub open spec fn step(nodes: Nodes, ino: u64, name: Seq<char>) -> Option<u64> {
    match node_at(nodes, ino) {
        Some(n) => match n.data {
            DataView::Directory(list) => named(list, name),
            _ => None,
        },
        None => None,
    }
}

/// Whether some path leads from a node to another; the empty path leads to the node
/// itself.
pub open spec fn leads(nodes: Nodes, from: u64, to: u64) -> bool {
    exists|parts: Seq<Seq<char>>, i: int| #[trigger] leads_by(nodes, from, to, parts, i)
}

/// Whether the components from `i` on lead from a node to another.
pub open spec fn leads_by(nodes: Nodes, from: u64, to: u64, parts: Seq<Seq<char>>, i: int) -> bool {
    0 <= i <= parts.len() && tmp_walk(nodes, from, parts, i) == Ok::<u64, Error>(to)
}

pub proof fn lemma_named_unique(list: EntryList, k: int)
    requires
        names_in_order(list),
        0 <= k < list.len(),
    ensures
        named(list, list[k].0) == Some(list[k].1),
{
    lemma_name_at(list, list[k].0, 0);
    match name_at(list, list[k].0, 0) {
        None => {
            assert(list[k].0 != list[k].0);
        },
        Some(j) => {
            lemma_text_before_irreflexive(list[k].0);
            if j < k {
                assert(text_before(list[j].0, list[k].0));
            } else if k < j {
                assert(text_before(list[k].0, list[j].0));
            }
        },
    }
}

proof fn lemma_named_with(list: EntryList, name: Seq<char>, ino: u64, x: Seq<char>)
    requires
        names_in_order(list),
    ensures
        named(with_name(list, name, ino), x) == (if x == name {
            Some(ino)
        } else {
            named(list, x)
        }),
{
    let now = with_name(list, name, ino);
    lemma_with_name_order(list, name, ino);
    lemma_name_at(list, name, 0);
    lemma_name_slot(list, name, 0);
    let at = match name_at(list, name, 0) {
        Some(k) => k,
        None => name_slot(list, name, 0),
    };
    assert(now[at] == (name, ino));
    if x == name {
        lemma_named_unique(now, at);
    } else {
        lemma_name_at(list, x, 0);
        lemma_name_at(now, x, 0);
        match name_at(list, x, 0) {
            Some(k) => {
                let j = if name_at(list, name, 0) is None && k >= at {
                    k + 1
                } else {
                    k
                };
                assert(now[j] == list[k]);
                lemma_named_unique(now, j);
            },
            None => {
                if let Some(j) = name_at(now, x, 0) {
                    let k = if name_at(list, name, 0) is None && j > at {
                        j - 1
                    } else {
                        j
                    };
                    assert(now[j] == list[k]);
                }
            },
        }
    }
}

proof fn lemma_named_without(list: EntryList, name: Seq<char>, x: Seq<char>)
    requires
        names_in_order(list),
    ensures
        named(without_name(list, name), x) == (if x == name {
            None
        } else {
            named(list, x)
        }),
{
    let now = without_name(list, name);
    lemma_without_name_order(list, name);
    lemma_name_at(list, name, 0);
    lemma_name_at(now, x, 0);
    lemma_name_at(list, x, 0);
    if let Some(at) = name_at(list, name, 0) {
        match name_at(now, x, 0) {
            Some(j) => {
                let k = if j >= at {
                    j + 1
                } else {
                    j
                };
                assert(now[j] == list[k]);
                lemma_named_unique(list, k);
                lemma_named_unique(list, at);
                if x == name {
                    lemma_text_before_irreflexive(name);
                    if k < at {
                        assert(text_before(list[k].0, list[at].0));
                    } else {
                        assert(text_before(list[at].0, list[k].0));
                    }
                }
            },
            None => {
                if let Some(k) = name_at(list, x, 0) {
                    if x != name {
                        let j = if k > at {
                            k - 1
                        } else {
                            k
                        };
                        assert(now[j] == list[k]);
                    }
                }
            },
        }
    }
}

/// A walk that meets none of the nodes to avoid goes the same way wherever the other
/// names are kept.
proof fn lemma_walk_kept(
    a: Nodes,
    b: Nodes,
    at: u64,
    parts: Seq<Seq<char>>,
    i: int,
    end: u64,
    avoid: Set<u64>,
)
    requires
        0 <= i <= parts.len(),
        tmp_walk(a, at, parts, i) == Ok::<u64, Error>(end),
        forall|ino: u64, name: Seq<char>|
            #![trigger step(a, ino, name)]
            step(a, ino, name) is Some && !avoid.contains(step(a, ino, name)->Some_0) ==> step(
                b,
                ino,
                name,
            ) == step(a, ino, name),
        forall|v: u64| #![trigger avoid.contains(v)] avoid.contains(v) ==> !leads(a, v, end),
    ensures
        tmp_walk(b, at, parts, i) == Ok::<u64, Error>(end),
    decreases parts.len() - i,
{
    if i < parts.len() {
        let next = step(a, at, parts[i])->Some_0;
        assert(step(a, at, parts[i]) == Some(next));
        assert(tmp_walk(a, next, parts, i + 1) == Ok::<u64, Error>(end));
        assert(leads_by(a, next, end, parts, i + 1));
        assert(!avoid.contains(next));
        assert(step(b, at, parts[i]) == Some(next));
        lemma_walk_kept(a, b, next, parts, i + 1, end, avoid);
    }
}

/// A walk is the walk to the parent, and one name more.
pub proof fn lemma_walk_last(nodes: Nodes, at: u64, parts: Seq<Seq<char>>, i: int)
    requires
        0 <= i < parts.len(),
        tmp_walk(nodes, at, parts.drop_last(), i) is Ok,
    ensures
        ({
            let parent = tmp_walk(nodes, at, parts.drop_last(), i)->Ok_0;
            match step(nodes, parent, parts.last()) {
                Some(next) => tmp_walk(nodes, at, parts, i) == Ok::<u64, Error>(next),
                None => tmp_walk(nodes, at, parts, i) is Err && (is_dir_node(nodes, parent)
                    ==> tmp_walk(nodes, at, parts, i) == Err::<u64, Error>(Error::NotFound)),
            }
        }),
    decreases parts.len() - i,
{
    let front = parts.drop_last();
    if i == parts.len() - 1 {
        assert(tmp_walk(nodes, at, front, i) == Ok::<u64, Error>(at));
        if let Some(next) = step(nodes, at, parts[i]) {
            assert(tmp_walk(nodes, next, parts, i + 1) == Ok::<u64, Error>(next));
        }
    } else {
        assert(front[i] == parts[i]);
        let next = step(nodes, at, parts[i])->Some_0;
        assert(tmp_walk(nodes, next, front, i + 1) is Ok);
        lemma_walk_last(nodes, next, parts, i + 1);
    }
}

/// A node without entries leads to itself alone.
proof fn lemma_leaf(nodes: Nodes, from: u64, to: u64)
    requires
        entries_at(nodes, from).len() == 0,
        from != to,
    ensures
        !leads(nodes, from, to),
{
    assert forall|parts: Seq<Seq<char>>, i: int| !(#[trigger] leads_by(
        nodes,
        from,
        to,
        parts,
        i,
    )) by {
        if 0 <= i < parts.len() {
            if let Some(n) = node_at(nodes, from) {
                if let DataView::Directory(list) = n.data {
                    lemma_name_at(list, parts[i], 0);
                }
            }
        }
    }
}

/// What a path leads to lies below where it starts.
proof fn lemma_leads_below(nodes: Nodes, from: u64, to: u64, parts: Seq<Seq<char>>, i: int)
    requires
        leads_by(nodes, from, to, parts, i),
        from != to,
    ensures
        lies_below(nodes, from, to),
{
    assert forall|s: Set<u64>|
        #![trigger closed_below(nodes, s)]
        closed_below(nodes, s) && holds_entries(nodes, from, s) implies s.contains(to) by {
        lemma_leads_in(nodes, from, to, parts, i, s, from);
    }
}

proof fn lemma_leads_in(
    nodes: Nodes,
    from: u64,
    to: u64,
    parts: Seq<Seq<char>>,
    i: int,
    s: Set<u64>,
    root: u64,
)
    requires
        leads_by(nodes, from, to, parts, i),
        closed_below(nodes, s),
        holds_entries(nodes, root, s),
        from == root || s.contains(from),
    ensures
        to == from || s.contains(to),
    decreases parts.len() - i,
{
    if i < parts.len() {
        let n = node_at(nodes, from)->Some_0;
        let list = n.data->Directory_0;
        lemma_name_at(list, parts[i], 0);
        let k = name_at(list, parts[i], 0)->Some_0;
        let next = list[k].1;
        assert(holds_entries(nodes, from, s));
        assert(entries_at(nodes, from)[k].1 == next);
        assert(leads_by(nodes, next, to, parts, i + 1));
        lemma_leads_in(nodes, next, to, parts, i + 1, s, root);
    }
}

/// The lists of directories are in order.
proof fn lemma_dir_order(s: TmpFsInner, ino: u64)
    requires
        s.wf(),
        is_dir_node(s.nodes(), ino),
    ensures
        names_in_order(node_at(s.nodes(), ino)->Some_0.data->Directory_0),
{
    assert(node_in_order(s.nodes()[ino as int]));
}

/// A node that was created is what its path leads to, in the state it was created in.
pub proof fn law_created_path_is_found(s: TmpFsInner, path: Seq<char>, node: InodeNode)
    requires
        s.wf(),
        s.nodes().len() <= u64::MAX,
        new_place(s.nodes(), path) is Ok,
    ensures
        tmp_found(with_created(s.nodes(), new_place(s.nodes(), path)->Ok_0, node), path) == Ok::<
            (u64, InodeNode),
            Error,
        >((s.nodes().len() as u64, node)),
{
    let a = s.nodes();
    let place = new_place(a, path)->Ok_0;
    let (parent, name, p, list) = place;
    let b = with_created(a, place, node);
    let new = a.len() as u64;
    let parts = segments(path);
    lemma_dir_order(s, parent);
    assert forall|ino: u64, x: Seq<char>| #![trigger step(a, ino, x)] step(a, ino, x) is Some implies step(
        b,
        ino,
        x,
    ) == step(a, ino, x) by {
        if ino == parent {
            lemma_named_with(list, name, new, x);
        } else {
            assert(node_at(b, ino) == node_at(a, ino));
        }
    }
    lemma_walk_kept(a, b, ROOT_INO, parts.drop_last(), 0, parent, Set::empty());
    lemma_named_with(list, name, new, name);
    assert(step(b, parent, name) == Some(new));
    lemma_walk_last(b, ROOT_INO, parts, 0);
    assert(node_at(b, new) == Some(node));
}

/// A path that was removed leads nowhere.
pub proof fn law_removed_path_is_gone(s: TmpFsInner, path: Seq<char>)
    requires
        s.wf(),
        after_removal(s.nodes(), path) is Ok,
    ensures
        tmp_resolved(after_removal(s.nodes(), path)->Ok_0, path) == Err::<u64, Error>(
            Error::NotFound,
        ),
{
    let a = s.nodes();
    let b = after_removal(a, path)->Ok_0;
    let (parent, name) = tmp_parent(a, path)->Ok_0;
    let parts = segments(path);
    let list = node_at(a, parent)->Some_0.data->Directory_0;
    let child = named(list, name)->Some_0;
    lemma_name_at(list, name, 0);
    assert(child != parent);
    lemma_dir_order(s, parent);
    lemma_leaf(a, child, parent);
    let avoid = Set::empty().insert(child);
    assert forall|ino: u64, x: Seq<char>| #![trigger step(a, ino, x)] step(a, ino, x) is Some
        && !avoid.contains(step(a, ino, x)->Some_0) implies step(b, ino, x) == step(a, ino, x) by {
        if ino == parent {
            lemma_named_without(list, name, x);
        } else if ino == child {
            lemma_name_at(entries_at(a, child), x, 0);
        } else {
            assert(node_at(b, ino) == node_at(a, ino));
        }
    }
    lemma_walk_kept(a, b, ROOT_INO, parts.drop_last(), 0, parent, avoid);
    lemma_named_without(list, name, name);
    assert(step(b, parent, name) is None);
    assert(is_dir_node(b, parent));
    lemma_walk_last(b, ROOT_INO, parts, 0);
}

/// A link leads to the node that it was made for, and so does the name that it was made
/// from.
pub proof fn law_link_leads_to_its_target(s: TmpFsInner, target: Seq<char>, link: Seq<char>)
    requires
        s.wf(),
        after_link(s.nodes(), target, link) is Ok,
        tmp_parent(s.nodes(), link) matches Ok((parent, _)) && is_dir_node(s.nodes(), parent),
    ensures
        ({
            let now = after_link(s.nodes(), target, link)->Ok_0;
            let ino = tmp_resolved(s.nodes(), target)->Ok_0;
            &&& tmp_resolved(now, target) == Ok::<u64, Error>(ino)
            &&& tmp_resolved(now, link) == Ok::<u64, Error>(ino)
        }),
{
    let a = s.nodes();
    let b = after_link(a, target, link)->Ok_0;
    let ino = tmp_resolved(a, target)->Ok_0;
    let (parent, name) = tmp_parent(a, link)->Ok_0;
    let list = node_at(a, parent)->Some_0.data->Directory_0;
    let parts = segments(link);
    lemma_dir_order(s, parent);
    assert forall|at: u64, x: Seq<char>| #![trigger step(a, at, x)] step(a, at, x) is Some implies step(
        b,
        at,
        x,
    ) == step(a, at, x) by {
        if at == parent {
            lemma_named_with(list, name, ino, x);
        }
    }
    lemma_walk_kept(a, b, ROOT_INO, segments(target), 0, ino, Set::empty());
    lemma_walk_kept(a, b, ROOT_INO, parts.drop_last(), 0, parent, Set::empty());
    lemma_named_with(list, name, ino, name);
    assert(step(b, parent, name) == Some(ino));
    lemma_walk_last(b, ROOT_INO, parts, 0);
}

proof fn lemma_step_linked(nodes: Nodes, parent: u64, name: Seq<char>, ino: u64, at: u64, x: Seq<char>)
    requires
        is_dir_node(nodes, parent),
        names_in_order(node_at(nodes, parent)->Some_0.data->Directory_0),
    ensures
        step(linked(nodes, parent, name, ino), at, x) == (if at == parent && x == name {
            Some(ino)
        } else {
            step(nodes, at, x)
        }),
{
    lemma_named_with(node_at(nodes, parent)->Some_0.data->Directory_0, name, ino, x);
}

proof fn lemma_step_unlinked(nodes: Nodes, parent: u64, name: Seq<char>, at: u64, x: Seq<char>)
    requires
        is_dir_node(nodes, parent),
        names_in_order(node_at(nodes, parent)->Some_0.data->Directory_0),
    ensures
        step(unlinked(nodes, parent, name), at, x) == (if at == parent && x == name {
            None
        } else {
            step(nodes, at, x)
        }),
{
    lemma_named_without(node_at(nodes, parent)->Some_0.data->Directory_0, name, x);
}

proof fn lemma_step_recounted(nodes: Nodes, ino: u64, more: bool, at: u64, x: Seq<char>)
    ensures
        step(recounted(nodes, ino, more), at, x) == step(nodes, at, x),
{
}

/// After a move the new name leads to what moved, the old one nowhere, and every other
/// name where it led.
proof fn lemma_step_moved(
    nodes: Nodes,
    from: u64,
    name: Seq<char>,
    to: u64,
    new_name: Seq<char>,
    child: u64,
    at: u64,
    x: Seq<char>,
)
    requires
        is_dir_node(nodes, from),
        is_dir_node(nodes, to),
        names_in_order(node_at(nodes, from)->Some_0.data->Directory_0),
        names_in_order(node_at(nodes, to)->Some_0.data->Directory_0),
    ensures
        step(moved(nodes, from, name, to, new_name, child), at, x) == (if at == to && x
            == new_name {
            Some(child)
        } else if at == from && x == name {
            None
        } else {
            step(nodes, at, x)
        }),
        is_dir_node(moved(nodes, from, name, to, new_name, child), from),
{
    lemma_without_name_order(node_at(nodes, from)->Some_0.data->Directory_0, name);
    let cut = unlinked(nodes, from, name);
    lemma_step_unlinked(nodes, from, name, at, x);
    assert(is_dir_node(cut, to));
    lemma_step_linked(cut, to, new_name, child, at, x);
    let n = linked(cut, to, new_name, child);
    lemma_step_recounted(n, from, false, at, x);
    lemma_step_recounted(recounted(n, from, false), to, true, at, x);
}

/// After a rename the new path leads to the node that the old one led to, and the name is
/// gone from where it was.
pub proof fn law_rename_moves_the_name(s: TmpFsInner, old_path: Seq<char>, new_path: Seq<char>)
    requires
        s.wf(),
        after_rename(s.nodes(), old_path, new_path) is Ok,
    ensures
        ({
            let now = after_rename(s.nodes(), old_path, new_path)->Ok_0;
            let (from, name) = tmp_parent(s.nodes(), old_path)->Ok_0;
            let (to, new_name) = tmp_parent(s.nodes(), new_path)->Ok_0;
            let child = child_in(s.nodes(), from, name)->Ok_0->Some_0;
            &&& tmp_resolved(now, new_path) == Ok::<u64, Error>(child)
            &&& now != s.nodes() ==> child_in(now, from, name) == (if (from, name) == (
                to,
                new_name,
            ) {
                Ok::<Option<u64>, Error>(Some(child))
            } else {
                Ok(None)
            })
        }),
{
    let a = s.nodes();
    let b = after_rename(a, old_path, new_path)->Ok_0;
    let (from, name) = tmp_parent(a, old_path)->Ok_0;
    let (to, new_name) = tmp_parent(a, new_path)->Ok_0;
    let child = child_in(a, from, name)->Ok_0->Some_0;
    let parts = segments(new_path);
    lemma_dir_order(s, from);
    lemma_dir_order(s, to);
    assert(is_dir_node(a, to));
    assert(!leads(a, child, to)) by {
        if is_dir_node(a, child) {
            if leads(a, child, to) {
                let (p, i) = choose|p: Seq<Seq<char>>, i: int| #[trigger] leads_by(a, child, to, p, i);
                lemma_leads_below(a, child, to, p, i);
            }
        } else {
            lemma_leaf(a, child, to);
        }
    }
    match child_in(a, to, new_name)->Ok_0 {
        Some(target) if target == child => {
            assert(step(a, to, new_name) == Some(child));
            lemma_walk_last(a, ROOT_INO, parts, 0);
        },
        other => {
            let m = match other {
                Some(target) => after_replaced(a, child, to, target)->Ok_0,
                None => a,
            };
            let avoid = match other {
                Some(target) => Set::empty().insert(child).insert(target),
                None => Set::empty().insert(child),
            };
            if let Some(target) = other {
                lemma_name_at(entries_at(a, to), new_name, 0);
                assert(target != to);
                lemma_leaf(a, target, to);
                assert(target != from) by {
                    lemma_name_at(entries_at(a, from), name, 0);
                }
                assert forall|at: u64, x: Seq<char>| #[trigger] step(m, at, x) == step(a, at, x) by {
                    lemma_name_at(entries_at(a, target), x, 0);
                }
                assert(node_at(m, from)->Some_0.data == node_at(a, from)->Some_0.data);
                assert(node_at(m, to)->Some_0.data == node_at(a, to)->Some_0.data);
            }
            assert(b == moved(m, from, name, to, new_name, child));
            assert forall|at: u64, x: Seq<char>| #![trigger step(a, at, x)] step(a, at, x) is Some
                && !avoid.contains(step(a, at, x)->Some_0) implies step(b, at, x) == step(a, at, x) by {
                lemma_step_moved(m, from, name, to, new_name, child, at, x);
                assert(step(m, at, x) == step(a, at, x));
            }
            lemma_walk_kept(a, b, ROOT_INO, parts.drop_last(), 0, to, avoid);
            lemma_step_moved(m, from, name, to, new_name, child, to, new_name);
            lemma_walk_last(b, ROOT_INO, parts, 0);
            lemma_step_moved(m, from, name, to, new_name, child, from, name);
        },
    }
}

/// What was written is what is read back; the bytes around it are kept, and a gap before it
/// is zero.
pub proof fn law_write_is_read_back(
    s: TmpFsInner,
    kind: NodeKind,
    ino: u64,
    offset: int,
    b: Seq<u8>,
    now: u64,
)
    requires
        offset >= 0,
        after_write(s, kind, ino, offset, b, now) is Ok,
    ensures
        ({
            let before = file_at(s.nodes(), kind, ino)->Ok_0.1;
            let found = file_at(after_write(s, kind, ino, offset, b, now)->Ok_0, kind, ino);
            &&& found is Ok
            &&& found->Ok_0.1.len() == larger(before.len() as int, offset + b.len())
            &&& found->Ok_0.1.subrange(offset, offset + b.len()) == b
            &&& forall|i: int|
                #![trigger found->Ok_0.1[i]]
                0 <= i < found->Ok_0.1.len() && !(offset <= i < offset + b.len())
                    ==> found->Ok_0.1[i] == (if i < before.len() {
                    before[i]
                } else {
                    0
                })
        }),
{
    let before = file_at(s.nodes(), kind, ino)->Ok_0.1;
    assert(written(before, offset, b).subrange(offset, offset + b.len()) =~= b);
}

/// A file that was cut keeps its front, and one that grew is filled up with zeros.
pub proof fn law_set_len_keeps_the_front(s: TmpFsInner, kind: NodeKind, ino: u64, len: int, now: u64)
    requires
        len >= 0,
        after_set_len(s, kind, ino, len, now) is Ok,
    ensures
        ({
            let before = file_at(s.nodes(), kind, ino)->Ok_0.1;
            let found = file_at(after_set_len(s, kind, ino, len, now)->Ok_0, kind, ino);
            &&& found is Ok
            &&& found->Ok_0.1.len() == len
            &&& forall|i: int|
                #![trigger found->Ok_0.1[i]]
                0 <= i < len ==> found->Ok_0.1[i] == (if i < before.len() {
                    before[i]
                } else {
                    0
                })
        }),
{
}

/// An attribute that was set has its value.
pub proof fn law_attribute_is_kept(list: AttrList, name: Seq<u8>, value: Seq<u8>)
    ensures
        attr_value(with_attr(list, name, value), name) == Some(value),
{
    let now = with_attr(list, name, value);
    lemma_attr_pos(list, name, 0);
    lemma_attr_pos(now, name, 0);
    match attr_pos(list, name, 0) {
        Some(k) => {
            lemma_first_attr(list, name, 0);
            lemma_first_attr(now, name, 0);
            assert(now[k] == (name, value));
            let j = attr_pos(now, name, 0)->Some_0;
            if j < k {
                assert(now[j] == list[j]);
            }
        },
        None => {
            lemma_attr_slot(list, name, 0);
            let k = attr_slot(list, name, 0);
            assert(now[k] == (name, value));
            let j = attr_pos(now, name, 0)->Some_0;
            if j < k {
                assert(now[j] == list[j]);
            } else if j > k {
                assert(now[j] == list[j - 1]);
            }
        },
    }
}

proof fn lemma_first_attr(list: AttrList, name: Seq<u8>, i: int)
    requires
        0 <= i,
    ensures
        attr_pos(list, name, i) matches Some(k) ==> forall|j: int|
            #![trigger list[j]]
            i <= j < k ==> list[j].0 != name,
    decreases list.len() - i,
{
    if i < list.len() && list[i].0 != name {
        lemma_first_attr(list, name, i + 1);
    }
}

proof fn lemma_attr_slot(list: AttrList, name: Seq<u8>, i: int)
    requires
        0 <= i <= list.len(),
    ensures
        i <= attr_slot(list, name, i) <= list.len(),
    decreases list.len() - i,
{
    if i < list.len() && bytes_before(list[i].0, name) {
        lemma_attr_slot(list, name, i + 1);
    }
}

} // verus!
