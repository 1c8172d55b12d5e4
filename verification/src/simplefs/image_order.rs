//! The order in which an image's nodes are stored.
use vstd::prelude::*;
use vstd::string::*;

use crate::error::{Error, Result};
use crate::order::{lemma_text_before_total, lemma_text_before_transitive, text_before};
use crate::simplefs::image_nodes::{BuilderNode, ImageEntry, ImageEntryView, NodeView, ensure_node, image_entry_views, image_nodes, inserted, lemma_sorted_members, node_before, node_views, parents_first, root_node, sort_children, sorted, unsorted_nodes, with_dirs, with_file, with_node, with_sorted_children};
use crate::simplefs::names::{ancestors, image_path, normalize_image_path, parent_paths, root_path};
use crate::text::{chars_of, texts};
use crate::vfs::NodeKind;

verus! {

/// Whether every node of a list comes before those after it.
pub open spec fn in_order(nodes: Seq<NodeView>, s: Seq<usize>) -> bool {
    forall|i: int, j: int|
        #![trigger s[i], s[j]]
        0 <= i < j < s.len() ==> node_before(nodes, s[i], s[j])
}

proof fn lemma_node_before_transitive(nodes: Seq<NodeView>, a: usize, b: usize, c: usize)
    requires
        node_before(nodes, a, b),
        node_before(nodes, b, c),
    ensures
        node_before(nodes, a, c),
{
    let x = nodes[a as int].name;
    let y = nodes[b as int].name;
    let z = nodes[c as int].name;
    if text_before(x, y) && text_before(y, z) {
        lemma_text_before_transitive(x, y, z);
    }
}

proof fn lemma_inserted_in_order(nodes: Seq<NodeView>, s: Seq<usize>, x: usize)
    requires
        in_order(nodes, s),
        !s.contains(x),
    ensures
        in_order(nodes, inserted(nodes, s, x)),
        forall|i: int|
            #![trigger inserted(nodes, s, x)[i]]
            0 <= i < inserted(nodes, s, x).len() ==> inserted(nodes, s, x)[i] == x || s.contains(
                inserted(nodes, s, x)[i],
            ),
    decreases s.len(),
{
    let r = inserted(nodes, s, x);
    if s.len() == 0 {
    } else if node_before(nodes, s.last(), x) {
        assert forall|i: int, j: int|
            #![trigger r[i], r[j]]
            0 <= i < j < r.len() implies node_before(nodes, r[i], r[j]) by {
            if j == s.len() {
                if i < s.len() - 1 {
                    assert(node_before(nodes, s[i], s[s.len() - 1]));
                    lemma_node_before_transitive(nodes, s[i], s.last(), x);
                }
            } else {
                assert(node_before(nodes, s[i], s[j]));
            }
        }
        assert forall|i: int| #![trigger r[i]] 0 <= i < r.len() implies r[i] == x || s.contains(
            r[i],
        ) by {
            if i < s.len() {
                assert(s.contains(s[i]));
            }
        }
    } else {
        let d = s.drop_last();
        assert forall|i: int, j: int|
            #![trigger d[i], d[j]]
            0 <= i < j < d.len() implies node_before(nodes, d[i], d[j]) by {
            assert(node_before(nodes, s[i], s[j]));
        }
        assert(!d.contains(x)) by {
            if d.contains(x) {
                let i = choose|i: int| 0 <= i < d.len() && d[i] == x;
                assert(s[i] == x);
            }
        }
        lemma_inserted_in_order(nodes, d, x);
        let q = inserted(nodes, d, x);
        let last = s.last();
        assert(s.contains(last)) by {
            assert(s[s.len() - 1] == last);
        }
        lemma_text_before_total(nodes[last as int].name, nodes[x as int].name);
        assert(node_before(nodes, x, last));
        assert forall|i: int, j: int|
            #![trigger r[i], r[j]]
            0 <= i < j < r.len() implies node_before(nodes, r[i], r[j]) by {
            if j == q.len() {
                assert(q[i] == x || d.contains(q[i]));
                if q[i] != x {
                    let k = choose|k: int| 0 <= k < d.len() && d[k] == q[i];
                    assert(node_before(nodes, s[k], s[s.len() - 1]));
                }
            } else {
                assert(node_before(nodes, q[i], q[j]));
            }
        }
        assert forall|i: int| #![trigger r[i]] 0 <= i < r.len() implies r[i] == x || s.contains(
            r[i],
        ) by {
            if i < q.len() {
                assert(q[i] == x || d.contains(q[i]));
                if q[i] != x {
                    let k = choose|k: int| 0 <= k < d.len() && d[k] == q[i];
                    assert(s[k] == q[i]);
                }
            }
        }
    }
}

/// The children of a directory are stored by name, and each is stored once.
pub proof fn law_children_in_order(nodes: Seq<NodeView>, s: Seq<usize>)
    requires
        s.no_duplicates(),
    ensures
        in_order(nodes, sorted(nodes, s)),
        forall|i: int|
            #![trigger sorted(nodes, s)[i]]
            0 <= i < sorted(nodes, s).len() ==> s.contains(sorted(nodes, s)[i]),
        sorted(nodes, s).len() == s.len(),
    decreases s.len(),
{
    lemma_sorted_members(nodes, s);
    if s.len() > 0 {
        let d = s.drop_last();
        law_children_in_order(nodes, d);
        let r = sorted(nodes, d);
        assert(!r.contains(s.last())) by {
            if r.contains(s.last()) {
                let i = choose|i: int| 0 <= i < r.len() && r[i] == s.last();
                assert(d.contains(r[i]));
                let k = choose|k: int| 0 <= k < d.len() && d[k] == r[i];
                assert(s[k] == s[s.len() - 1]);
            }
        }
        lemma_inserted_in_order(nodes, r, s.last());
        let q = sorted(nodes, s);
        assert forall|i: int| #![trigger q[i]] 0 <= i < q.len() implies s.contains(q[i]) by {
            assert(q[i] == s.last() || r.contains(q[i]));
            if q[i] == s.last() {
                assert(s[s.len() - 1] == q[i]);
            } else {
                let k = choose|k: int| 0 <= k < r.len() && r[k] == q[i];
                assert(d.contains(r[k]));
                let j = choose|j: int| 0 <= j < d.len() && d[j] == r[k];
                assert(s[j] == q[i]);
            }
        }
    }
}

/// Sorting children keeps them after their directory.
proof fn lemma_sorted_parents_first(nodes: Seq<NodeView>)
    requires
        parents_first(nodes),
    ensures
        parents_first(with_sorted_children(nodes)),
{
    let n = with_sorted_children(nodes);
    assert forall|i: int, k: int|
        #![trigger n[i].children[k]]
        0 <= i < n.len() && 0 <= k < n[i].children.len() implies i < n[i].children[k]
        < n.len() by {
        let s = nodes[i].children;
        let r = sorted(nodes, s);
        lemma_sorted_members(nodes, s);
        r.to_multiset_ensures();
        s.to_multiset_ensures();
        assert(r.contains(r[k]));
        assert(r.to_multiset().count(r[k]) > 0);
        assert(s.contains(r[k]));
        let j = choose|j: int| 0 <= j < s.len() && s[j] == r[k];
        assert(i < nodes[i].children[j] < nodes.len());
    }
}

/// The names of nodes, as characters.
fn names_of(nodes: &Vec<BuilderNode>) -> (r: Vec<Vec<char>>)
    ensures
        r@.len() == nodes@.len(),
        forall|i: int| #![trigger r@[i]] 0 <= i < r@.len() ==> r@[i]@ == node_views(nodes@)[i].name,
{
    let mut out: Vec<Vec<char>> = Vec::new();
    let mut k: usize = 0;
    while k < nodes.len()
        invariant
            k == out@.len(),
            k <= nodes@.len(),
            forall|i: int|
                #![trigger out@[i]]
                0 <= i < out@.len() ==> out@[i]@ == node_views(nodes@)[i].name,
        decreases nodes@.len() - k,
    {
        let name = chars_of(nodes[k].name.as_str());
        assert(name@ == node_views(nodes@)[k as int].name);
        out.push(name);
        k = k + 1;
    }
    out
}

/// Adds a file to an image's nodes, with the directories above it.
fn add_file<'a>(nodes: &mut Vec<BuilderNode<'a>>, entry: ImageEntry<'a>) -> (r: Result<()>)
    requires
        parents_first(node_views(old(nodes)@)),
    ensures
        match with_file(
            node_views(old(nodes)@),
            (ImageEntryView { path: entry.path@, data: entry.data@ }),
        ) {
            Ok(n) => r is Ok && node_views(final(nodes)@) == n && parents_first(n),
            Err(e) => r == Err::<(), Error>(e),
        },
{
    let ghost before = node_views(nodes@);
    let path = normalize_image_path(entry.path)?;
    let parents = parent_paths(path.as_str());
    let ghost all = ancestors(path@);
    let nothing: &'a [u8] = vstd::slice::slice_subrange(entry.data, 0, 0);
    assert(nothing@ =~= Seq::<u8>::empty());
    let mut k: usize = 0;
    assert(all.take(0) =~= Seq::<Seq<char>>::empty());
    while k < parents.len()
        invariant
            k <= parents@.len(),
            all == texts(parents@),
            all == ancestors(path@),
            nothing@ == Seq::<u8>::empty(),
            before == node_views(old(nodes)@),
            with_dirs(before, all.take(k as int)) == Ok::<Seq<NodeView>, Error>(
                node_views(nodes@),
            ),
            image_path(entry.path@) == Ok::<Seq<char>, Error>(path@),
            parents_first(node_views(nodes@)),
        decreases parents@.len() - k,
    {
        proof {
            assert(all.take(k + 1).drop_last() =~= all.take(k as int));
            assert(all.take(k + 1).last() == parents@[k as int]@);
        }
        let ghost now = node_views(nodes@);
        match ensure_node(nodes, parents[k].as_str(), NodeKind::Directory, nothing) {
            Ok(()) => {},
            Err(error) => {
                proof {
                    assert(with_dirs(before, all.take(k + 1)) == with_node(
                        now,
                        all.take(k + 1).last(),
                        NodeKind::Directory,
                        Seq::empty(),
                    ));
                    lemma_with_dirs_fails(before, all, k + 1);
                }
                return Err(error);
            },
        }
        k = k + 1;
    }
    assert(all.take(k as int) =~= all);
    ensure_node(nodes, path.as_str(), NodeKind::File, entry.data)
}

/// Once a directory cannot be made, making more after it does not help.
proof fn lemma_with_dirs_fails(nodes: Seq<NodeView>, paths: Seq<Seq<char>>, k: int)
    requires
        0 <= k <= paths.len(),
        with_dirs(nodes, paths.take(k)) is Err,
    ensures
        with_dirs(nodes, paths) == with_dirs(nodes, paths.take(k)),
    decreases paths.len() - k,
{
    if k < paths.len() {
        assert(paths.take(k + 1).drop_last() =~= paths.take(k));
        lemma_with_dirs_fails(nodes, paths, k + 1);
    } else {
        assert(paths.take(k) =~= paths);
    }
}

/// Once a file cannot be added, adding more after it does not help.
proof fn lemma_unsorted_fails(files: Seq<ImageEntryView>, k: int)
    requires
        0 <= k <= files.len(),
        unsorted_nodes(files.take(k)) is Err,
    ensures
        unsorted_nodes(files) == unsorted_nodes(files.take(k)),
    decreases files.len() - k,
{
    if k < files.len() {
        assert(files.take(k + 1).drop_last() =~= files.take(k));
        lemma_unsorted_fails(files, k + 1);
    } else {
        assert(files.take(k) =~= files);
    }
}

/// The nodes of an image: the root, every file, and every directory above one.
pub fn build_nodes<'a>(files: &[ImageEntry<'a>]) -> (r: Result<Vec<BuilderNode<'a>>>)
    ensures
        match r {
            Ok(v) => image_nodes(image_entry_views(files@)) == Ok::<Seq<NodeView>, Error>(
                node_views(v@),
            ) && parents_first(node_views(v@)),
            Err(e) => image_nodes(image_entry_views(files@)) == Err::<Seq<NodeView>, Error>(e),
        },
{
    let ghost entries = image_entry_views(files@);
    let mut nodes: Vec<BuilderNode<'a>> = Vec::new();
    let nothing: &'a [u8] = &[];
    nodes.push(
        BuilderNode {
            path: "/".to_owned(),
            name: "/".to_owned(),
            kind: NodeKind::Directory,
            data: nothing,
            children: Vec::new(),
        },
    );
    proof {
        reveal_strlit("/");
        assert("/"@ =~= root_path());
        assert(nothing@ =~= Seq::<u8>::empty());
        assert(node_views(nodes@) =~= seq![root_node()]);
        assert(entries.take(0) =~= Seq::<ImageEntryView>::empty());
    }
    let mut k: usize = 0;
    while k < files.len()
        invariant
            k <= files@.len(),
            entries == image_entry_views(files@),
            unsorted_nodes(entries.take(k as int)) == Ok::<Seq<NodeView>, Error>(
                node_views(nodes@),
            ),
            parents_first(node_views(nodes@)),
        decreases files@.len() - k,
    {
        proof {
            assert(entries.take(k + 1).drop_last() =~= entries.take(k as int));
            assert(entries.take(k + 1).last() == entries[k as int]);
        }
        match add_file(&mut nodes, files[k]) {
            Ok(()) => {},
            Err(error) => {
                proof {
                    lemma_unsorted_fails(entries, k + 1);
                }
                return Err(error);
            },
        }
        k = k + 1;
    }
    assert(entries.take(k as int) =~= entries);
    let ghost unsorted = node_views(nodes@);
    let names = names_of(&nodes);
    let mut i: usize = 0;
    while i < nodes.len()
        invariant
            i <= nodes@.len(),
            nodes@.len() == unsorted.len(),
            names@.len() == unsorted.len(),
            parents_first(unsorted),
            forall|j: int|
                #![trigger names@[j]]
                0 <= j < names@.len() ==> names@[j]@ == unsorted[j].name,
            forall|j: int|
                #![trigger nodes@[j]]
                0 <= j < nodes@.len() ==> nodes@[j]@ == if j < i {
                    with_sorted_children(unsorted)[j]
                } else {
                    unsorted[j]
                },
        decreases nodes@.len() - i,
    {
        assert(nodes@[i as int]@ == unsorted[i as int]);
        proof {
            assert forall|m: int| 0 <= m < nodes@[i as int].children@.len() implies
                nodes@[i as int].children@[m] < unsorted.len() by {
                assert(i < unsorted[i as int].children[m] < unsorted.len());
            }
        }
        let children = sort_children(&names, Ghost(unsorted), &nodes[i].children);
        nodes[i].children = children;
        assert(nodes@[i as int]@ == with_sorted_children(unsorted)[i as int]);
        i = i + 1;
    }
    proof {
        assert(node_views(nodes@) =~= with_sorted_children(unsorted));
        lemma_sorted_parents_first(unsorted);
    }
    Ok(nodes)
}

/// Node `index` and everything below it, each directory before what it holds.
pub open spec fn walk_order(nodes: Seq<NodeView>, index: int) -> Seq<int>
    decreases nodes.len() - index, 1int, 0nat,
{
    seq![index] + walk_children(nodes, index, nodes[index].children)
}

/// The nodes of a list and everything below them.
pub open spec fn walk_children(nodes: Seq<NodeView>, index: int, list: Seq<usize>) -> Seq<int>
    decreases nodes.len() - index, 0int, list.len(),
{
    if list.len() == 0 {
        Seq::empty()
    } else {
        walk_children(nodes, index, list.drop_last()) + if index < list.last() < nodes.len() {
            walk_order(nodes, list.last() as int)
        } else {
            Seq::empty()
        }
    }
}

/// Numbers as mathematical ones.
pub open spec fn as_ints(v: Seq<usize>) -> Seq<int> {
    Seq::new(v.len(), |i: int| v[i] as int)
}

fn walk(nodes: &Vec<BuilderNode>, index: usize, order: &mut Vec<usize>)
    requires
        parents_first(node_views(nodes@)),
        index < nodes@.len(),
    ensures
        as_ints(final(order)@) == as_ints(old(order)@) + walk_order(
            node_views(nodes@),
            index as int,
        ),
        forall|k: int|
            #![trigger final(order)@[k]]
            old(order)@.len() <= k < final(order)@.len() ==> final(order)@[k] < nodes@.len(),
        old(order)@.len() < final(order)@.len(),
        forall|k: int|
            #![trigger final(order)@[k]]
            0 <= k < old(order)@.len() ==> final(order)@[k] == old(order)@[k],
    decreases nodes@.len() - index,
{
    let ghost views = node_views(nodes@);
    let ghost start = as_ints(order@);
    order.push(index);
    assert(as_ints(order@) =~= start + seq![index as int]);
    let children = &nodes[index].children;
    let ghost list = views[index as int].children;
    assert(list == children@);
    let mut k: usize = 0;
    assert(walk_children(views, index as int, list.take(0)) =~= Seq::<int>::empty());
    assert(as_ints(order@) =~= start + (seq![index as int] + walk_children(
        views,
        index as int,
        list.take(0),
    )));
    while k < children.len()
        invariant
            parents_first(views),
            views == node_views(nodes@),
            index < nodes@.len(),
            list == children@,
            list == views[index as int].children,
            k <= children@.len(),
            start == as_ints(old(order)@),
            as_ints(order@) == start + (seq![index as int] + walk_children(
                views,
                index as int,
                list.take(k as int),
            )),
            old(order)@.len() < order@.len(),
            forall|j: int|
                #![trigger order@[j]]
                old(order)@.len() <= j < order@.len() ==> order@[j] < nodes@.len(),
            forall|j: int|
                #![trigger order@[j]]
                0 <= j < old(order)@.len() ==> order@[j] == old(order)@[j],
        decreases children@.len() - k,
    {
        proof {
            assert(index < views[index as int].children[k as int] < views.len());
            assert(list.take(k + 1).drop_last() =~= list.take(k as int));
            assert(list.take(k + 1).last() == list[k as int]);
        }
        let ghost so_far = as_ints(order@);
        let ghost mid = order@;
        walk(nodes, children[k], order);
        proof {
            let below = walk_order(views, list[k as int] as int);
            assert(walk_children(views, index as int, list.take(k + 1)) == walk_children(
                views,
                index as int,
                list.take(k as int),
            ) + below);
            assert(so_far + below =~= start + (seq![index as int] + walk_children(
                views,
                index as int,
                list.take(k + 1),
            )));
            assert forall|j: int|
                #![trigger order@[j]]
                old(order)@.len() <= j < order@.len() implies order@[j] < nodes@.len() by {
                if j < mid.len() {
                    assert(order@[j] == mid[j]);
                }
            }
            assert forall|j: int|
                #![trigger order@[j]]
                0 <= j < old(order)@.len() implies order@[j] == old(order)@[j] by {
                assert(order@[j] == mid[j]);
            }
        }
        k = k + 1;
    }
    assert(list.take(k as int) =~= list);
}

/// The order in which nodes are stored: the root first, and every directory before
/// what it holds.
pub fn depth_first_order(nodes: &Vec<BuilderNode>) -> (order: Vec<usize>)
    requires
        parents_first(node_views(nodes@)),
        nodes@.len() > 0,
    ensures
        as_ints(order@) == walk_order(node_views(nodes@), 0),
        forall|k: int| #![trigger order@[k]] 0 <= k < order@.len() ==> order@[k] < nodes@.len(),
        order@.len() > 0,
{
    let mut order: Vec<usize> = Vec::new();
    walk(nodes, 0, &mut order);
    assert(as_ints(order@) =~= walk_order(node_views(nodes@), 0));
    order
}

} // verus!
