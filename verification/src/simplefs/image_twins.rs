//! The order in which files are given plays no part in the image.
use vstd::prelude::*;

use crate::order::{lemma_text_before_irreflexive, lemma_text_before_transitive, text_before};
use crate::simplefs::image_build::{ImageRequest, blocks_upto, child_entries, data_upto, entries_upto, image_fits, image_inodes, image_layout, image_plan, nodes_plan, place_of};
use crate::simplefs::image_nodes::{ImageEntryView, NodeView, find_node, image_nodes, lemma_find_node, node_before, unsorted_nodes, with_dirs};
use crate::simplefs::image_order::{in_order, walk_children, walk_order};
use crate::simplefs::image_places::{lemma_child_held, lemma_held_child, lemma_order_names_all, lemma_place_back, lemma_place_of, names_all};
use crate::simplefs::image_read_back::lemma_same_nodes;
use crate::simplefs::image_tree::{all_held, file_among, files_apart, held, holder, holds_its_own, lemma_files_drop, lemma_found, lemma_names_differ, lemma_sorted_ok, lemma_unsorted_ok, node_kind_ok, nodes_of, nodes_ok, on_the_way, paths_differ, proper, stored_path, well_named};
use crate::simplefs::names::{ancestors, base_text, parent_text, root_path};
use crate::vfs::NodeKind;

verus! {

/// The node of `m` that has the path of node `i` of `n`.
pub open spec fn twin(n: Seq<NodeView>, m: Seq<NodeView>, i: int) -> int {
    find_node(m, n[i].path, 0)->0
}

/// Whether a node has one of its kind, with its contents, under its path elsewhere.
pub open spec fn has_twin(n: Seq<NodeView>, m: Seq<NodeView>, i: int) -> bool {
    let j = twin(n, m, i);
    &&& 0 <= j < m.len()
    &&& m[j].path == n[i].path
    &&& m[j].name == n[i].name
    &&& m[j].kind == n[i].kind
    &&& m[j].data == n[i].data
}

/// Whether every node of `n` has a twin in `m`.
#[verifier::opaque]
pub open spec fn all_twinned(n: Seq<NodeView>, m: Seq<NodeView>) -> bool {
    forall|i: int| #![trigger has_twin(n, m, i)] 0 <= i < n.len() ==> has_twin(n, m, i)
}

/// Whether nodes are those of an image: a tree whose root goes by its path, with every
/// directory's children in order.
pub open spec fn image_nodes_ok(n: Seq<NodeView>) -> bool {
    &&& nodes_ok(n)
    &&& n.len() <= usize::MAX
    &&& n[0].name == root_path()
    &&& children_sorted(n)
}

/// Whether every directory's children are in order of their names.
#[verifier::opaque]
pub open spec fn children_sorted(n: Seq<NodeView>) -> bool {
    forall|p: int, a: int, b: int|
        #![trigger n[p].children[a], n[p].children[b]]
        0 <= p < n.len() && 0 <= a < b < n[p].children.len() ==> text_before(
            n[n[p].children[a] as int].name,
            n[n[p].children[b] as int].name,
        )
}

/// Every directory above a node is a node.
proof fn lemma_ancestor_node(n: Seq<NodeView>, j: int, a: Seq<char>) -> (i: int)
    requires
        nodes_ok(n),
        1 <= j < n.len(),
        ancestors(n[j].path).contains(a),
    ensures
        0 <= i < n.len(),
        n[i].path == a,
    decreases j,
{
    reveal(well_named);
    reveal(all_held);
    assert(held(n, j));
    assert(proper(n[j].path));
    let h = holder(n, j);
    let p = parent_text(n[j].path)->0;
    let up = ancestors(n[j].path);
    assert(up == ancestors(p).push(p));
    let k = choose|k: int| 0 <= k < up.len() && up[k] == a;
    if k == ancestors(p).len() {
        h
    } else {
        assert(ancestors(p)[k] == a);
        if h == 0 {
            assert(ancestors(root_path()).len() == 0);
            h
        } else {
            lemma_ancestor_node(n, h, a)
        }
    }
}

/// Whether two lists hold the same files.
pub open spec fn same_files(a: Seq<ImageEntryView>, b: Seq<ImageEntryView>) -> bool {
    &&& forall|f: int| #![trigger a[f]] 0 <= f < a.len() ==> b.contains(a[f])
    &&& forall|f: int| #![trigger b[f]] 0 <= f < b.len() ==> a.contains(b[f])
}

/// Nodes of the same files are twins.
proof fn lemma_all_twinned(
    a: Seq<ImageEntryView>,
    b: Seq<ImageEntryView>,
    n: Seq<NodeView>,
    m: Seq<NodeView>,
)
    requires
        same_files(a, b),
        image_nodes_ok(n),
        image_nodes_ok(m),
        nodes_of(n, a),
        nodes_of(m, b),
    ensures
        all_twinned(n, m),
{
    reveal(all_twinned);
    assert forall|i: int| #![trigger has_twin(n, m, i)] 0 <= i < n.len() implies has_twin(
        n,
        m,
        i,
    ) by {
        lemma_twin(a, b, n, m, i);
    }
}

proof fn lemma_file_node(
    files: Seq<ImageEntryView>,
    n: Seq<NodeView>,
    entry: ImageEntryView,
) -> (i: int)
    requires
        nodes_of(n, files),
        files.contains(entry),
    ensures
        0 <= i < n.len(),
        n[i].kind == NodeKind::File,
        n[i].path == stored_path(entry),
        n[i].data == entry.data,
{
    let f = choose|f: int| 0 <= f < files.len() && files[f] == entry;
    assert(file_among(n, files[f]));
    choose|i: int|
        #![trigger n[i]]
        0 <= i < n.len() && n[i].kind == NodeKind::File && n[i].path == stored_path(files[f])
            && n[i].data == files[f].data
}

proof fn lemma_twin(
    a: Seq<ImageEntryView>,
    b: Seq<ImageEntryView>,
    n: Seq<NodeView>,
    m: Seq<NodeView>,
    i: int,
)
    requires
        same_files(a, b),
        image_nodes_ok(n),
        image_nodes_ok(m),
        nodes_of(n, a),
        nodes_of(m, b),
        0 <= i < n.len(),
    ensures
        has_twin(n, m, i),
{
    reveal(well_named);
    if i == 0 {
        lemma_found(m, root_path(), 0);
        assert(node_kind_ok(n[0], a));
        assert(node_kind_ok(m[0], b));
        assert(m[0].data =~= n[0].data);
    } else {
        let path = n[i].path;
        assert(on_the_way(path, a));
        let f = choose|f: int|
            #![trigger a[f]]
            0 <= f < a.len() && (stored_path(a[f]) == path || ancestors(
                stored_path(a[f]),
            ).contains(path));
        assert(b.contains(a[f]));
        let j = lemma_file_node(b, m, a[f]);
        let k = if stored_path(a[f]) == path {
            j
        } else {
            if j == 0 {
                assert(ancestors(root_path()).len() == 0);
            }
            lemma_ancestor_node(m, j, path)
        };
        lemma_found(m, path, k);
        assert(k != 0) by {
            assert(proper(path));
        }
        assert(m[k].name == base_text(path) && n[i].name == base_text(path));
        assert(node_kind_ok(n[i], a));
        assert(node_kind_ok(m[k], b));
        lemma_same_kind(a, b, n, m, i, k);
    }
}

proof fn lemma_same_kind(
    a: Seq<ImageEntryView>,
    b: Seq<ImageEntryView>,
    n: Seq<NodeView>,
    m: Seq<NodeView>,
    i: int,
    k: int,
)
    requires
        same_files(a, b),
        paths_differ(n),
        paths_differ(m),
        nodes_of(n, a),
        nodes_of(m, b),
        0 <= i < n.len(),
        0 <= k < m.len(),
        n[i].path == m[k].path,
    ensures
        n[i].kind == m[k].kind,
        n[i].data == m[k].data,
{
    assert(node_kind_ok(n[i], a));
    assert(node_kind_ok(m[k], b));
    if n[i].kind == NodeKind::File {
        let f = choose|f: int|
            #![trigger a[f]]
            0 <= f < a.len() && stored_path(a[f]) == n[i].path && a[f].data == n[i].data;
        assert(b.contains(a[f]));
        let j = lemma_file_node(b, m, a[f]);
        lemma_found(m, m[k].path, k);
        lemma_found(m, m[k].path, j);
    } else if m[k].kind == NodeKind::File {
        let f = choose|f: int|
            #![trigger b[f]]
            0 <= f < b.len() && stored_path(b[f]) == m[k].path && b[f].data == m[k].data;
        assert(a.contains(b[f]));
        let j = lemma_file_node(a, n, b[f]);
        lemma_found(n, n[i].path, i);
        lemma_found(n, n[i].path, j);
    } else {
        assert(n[i].data =~= m[k].data);
    }
}

/// Whether texts come strictly one after the other.
pub open spec fn texts_rise(s: Seq<Seq<char>>) -> bool {
    forall|i: int, j: int| #![trigger s[i], s[j]] 0 <= i < j < s.len() ==> text_before(s[i], s[j])
}

/// Rising lists of the same texts are the same.
proof fn lemma_rising_same(a: Seq<Seq<char>>, b: Seq<Seq<char>>)
    requires
        texts_rise(a),
        texts_rise(b),
        forall|x: Seq<char>| #![trigger a.contains(x)] a.contains(x) ==> b.contains(x),
        forall|x: Seq<char>| #![trigger b.contains(x)] b.contains(x) ==> a.contains(x),
    ensures
        a == b,
    decreases a.len() + b.len(),
{
    if a.len() == 0 {
        if b.len() > 0 {
            assert(b.contains(b[0]));
        }
        assert(a =~= b);
    } else {
        let x = a.last();
        assert(a[a.len() - 1] == x);
        assert(a.contains(x));
        let k = choose|k: int| 0 <= k < b.len() && b[k] == x;
        let y = b.last();
        assert(b[b.len() - 1] == y);
        assert(b.contains(y));
        let l = choose|l: int| 0 <= l < a.len() && a[l] == y;
        if x != y {
            assert(text_before(b[k], b[b.len() - 1]));
            assert(text_before(a[l], a[a.len() - 1]));
            lemma_text_before_transitive(x, y, x);
            lemma_text_before_irreflexive(x);
        }
        let c = a.drop_last();
        let d = b.drop_last();
        lemma_rising_rest(a, b);
        lemma_rising_rest(b, a);
        lemma_rising_same(c, d);
        assert(a =~= c.push(x));
        assert(b =~= d.push(y));
    }
}

proof fn lemma_rising_rest(a: Seq<Seq<char>>, b: Seq<Seq<char>>)
    requires
        a.len() > 0,
        b.len() > 0,
        a.last() == b.last(),
        texts_rise(a),
        forall|x: Seq<char>| #![trigger a.contains(x)] a.contains(x) ==> b.contains(x),
    ensures
        texts_rise(a.drop_last()),
        forall|x: Seq<char>|
            #![trigger a.drop_last().contains(x)]
            a.drop_last().contains(x) ==> b.drop_last().contains(x),
{
    let c = a.drop_last();
    let d = b.drop_last();
    assert forall|i: int, j: int| #![trigger c[i], c[j]] 0 <= i < j < c.len() implies text_before(
        c[i],
        c[j],
    ) by {
        assert(text_before(a[i], a[j]));
    }
    assert forall|x: Seq<char>| #![trigger c.contains(x)] c.contains(x) implies d.contains(x) by {
        let i = choose|i: int| 0 <= i < c.len() && c[i] == x;
        assert(a[i] == x);
        assert(a.contains(x));
        let k = choose|k: int| 0 <= k < b.len() && b[k] == x;
        if k == b.len() - 1 {
            assert(text_before(a[i], a[a.len() - 1]));
            lemma_text_before_irreflexive(x);
        } else {
            assert(d[k] == x);
        }
    }
}

/// The names of a node's children.
pub open spec fn child_names(n: Seq<NodeView>, i: int) -> Seq<Seq<char>> {
    Seq::new(n[i].children.len(), |k: int| n[n[i].children[k] as int].name)
}

/// The twin of a child is a child of the twin.
proof fn lemma_twin_child(n: Seq<NodeView>, m: Seq<NodeView>, i: int, k: int) -> (l: int)
    requires
        image_nodes_ok(n),
        image_nodes_ok(m),
        all_twinned(n, m),
        0 <= i < n.len(),
        0 <= k < n[i].children.len(),
    ensures
        0 <= l < m[twin(n, m, i)].children.len(),
        m[twin(n, m, i)].children[l] == twin(n, m, n[i].children[k] as int),
{
    reveal(all_twinned);
    lemma_child_held(n, i, k);
    let c = n[i].children[k] as int;
    assert(has_twin(n, m, i));
    assert(has_twin(n, m, c));
    let j = twin(n, m, i);
    let d = twin(n, m, c);
    assert(parent_text(n[c].path) == Some(n[i].path)) by {
        reveal(holds_its_own);
    }
    assert(d != 0) by {
        reveal(well_named);
    }
    lemma_found(m, m[j].path, j);
    lemma_held_child(m, d);
    assert(holder(m, d) == j);
    choose|l: int|
        #![trigger m[j].children[l]]
        0 <= l < m[j].children.len() && m[j].children[l] == d
}

proof fn lemma_twin_names(n: Seq<NodeView>, m: Seq<NodeView>, i: int)
    requires
        image_nodes_ok(n),
        image_nodes_ok(m),
        all_twinned(n, m),
        0 <= i < n.len(),
    ensures
        forall|x: Seq<char>|
            #![trigger child_names(n, i).contains(x)]
            child_names(n, i).contains(x) ==> child_names(m, twin(n, m, i)).contains(x),
        texts_rise(child_names(n, i)),
{
    let a = child_names(n, i);
    let b = child_names(m, twin(n, m, i));
    assert forall|x: Seq<char>| #![trigger a.contains(x)] a.contains(x) implies b.contains(x) by {
        let k = choose|k: int| 0 <= k < a.len() && a[k] == x;
        let l = lemma_twin_child(n, m, i, k);
        lemma_child_held(n, i, k);
        reveal(all_twinned);
        assert(has_twin(n, m, n[i].children[k] as int));
        assert(b[l] == x);
    }
    assert forall|k: int, l: int| #![trigger a[k], a[l]] 0 <= k < l < a.len() implies text_before(
        a[k],
        a[l],
    ) by {
        reveal(children_sorted);
        assert(text_before(n[n[i].children[k] as int].name, n[n[i].children[l] as int].name));
    }
}

/// A node's twin is the twin's twin.
proof fn lemma_twin_back(n: Seq<NodeView>, m: Seq<NodeView>, i: int)
    requires
        nodes_ok(n),
        all_twinned(n, m),
        0 <= i < n.len(),
    ensures
        twin(m, n, twin(n, m, i)) == i,
        0 <= twin(n, m, i) < m.len(),
{
    reveal(all_twinned);
    assert(has_twin(n, m, i));
    lemma_found(n, n[i].path, i);
}

/// The children of twins are twins, one by one.
proof fn lemma_twin_children(n: Seq<NodeView>, m: Seq<NodeView>, i: int)
    requires
        image_nodes_ok(n),
        image_nodes_ok(m),
        all_twinned(n, m),
        all_twinned(m, n),
        0 <= i < n.len(),
    ensures
        ({
            let j = twin(n, m, i);
            &&& m[j].children.len() == n[i].children.len()
            &&& forall|k: int|
                #![trigger m[j].children[k]]
                #![trigger n[i].children[k]]
                0 <= k < n[i].children.len() ==> m[j].children[k] == twin(
                    n,
                    m,
                    n[i].children[k] as int,
                )
        }),
{
    let j = twin(n, m, i);
    lemma_twin_back(n, m, i);
    lemma_twin_names(n, m, i);
    lemma_twin_names(m, n, j);
    let a = child_names(n, i);
    let b = child_names(m, j);
    lemma_rising_same(a, b);
    assert forall|k: int|
        #![trigger m[j].children[k]]
        #![trigger n[i].children[k]]
        0 <= k < n[i].children.len() implies m[j].children[k] == twin(
        n,
        m,
        n[i].children[k] as int,
    ) by {
        let l = lemma_twin_child(n, m, i, k);
        lemma_child_held(n, i, k);
        reveal(all_twinned);
        assert(has_twin(n, m, n[i].children[k] as int));
        assert(b[l] == a[k]);
        assert(a[k] == b[k]);
        if l < k {
            assert(text_before(b[l], b[k]));
            lemma_text_before_irreflexive(a[k]);
        } else if k < l {
            assert(text_before(b[k], b[l]));
            lemma_text_before_irreflexive(a[k]);
        }
    }
}

/// An order of nodes, with each node's twin in its place.
pub open spec fn twins_of(n: Seq<NodeView>, m: Seq<NodeView>, s: Seq<int>) -> Seq<int> {
    Seq::new(s.len(), |k: int| twin(n, m, s[k]))
}

proof fn lemma_twin_walk(n: Seq<NodeView>, m: Seq<NodeView>, i: int)
    requires
        image_nodes_ok(n),
        image_nodes_ok(m),
        all_twinned(n, m),
        all_twinned(m, n),
        0 <= i < n.len(),
    ensures
        walk_order(m, twin(n, m, i)) == twins_of(n, m, walk_order(n, i)),
    decreases n.len() - i, 1int, 0int,
{
    let j = twin(n, m, i);
    let k = n[i].children.len() as int;
    lemma_twin_children(n, m, i);
    lemma_twin_list(n, m, i, k);
    assert(n[i].children.take(k) =~= n[i].children);
    assert(m[j].children.take(k) =~= m[j].children);
    assert(walk_order(m, j) =~= twins_of(n, m, walk_order(n, i)));
}

proof fn lemma_twin_list(n: Seq<NodeView>, m: Seq<NodeView>, i: int, k: int)
    requires
        image_nodes_ok(n),
        image_nodes_ok(m),
        all_twinned(n, m),
        all_twinned(m, n),
        0 <= i < n.len(),
        0 <= k <= n[i].children.len(),
    ensures
        walk_children(m, twin(n, m, i), m[twin(n, m, i)].children.take(k)) == twins_of(
            n,
            m,
            walk_children(n, i, n[i].children.take(k)),
        ),
    decreases n.len() - i, 0int, k,
{
    let j = twin(n, m, i);
    lemma_twin_children(n, m, i);
    lemma_twin_back(n, m, i);
    let a = n[i].children.take(k);
    let b = m[j].children.take(k);
    if k > 0 {
        assert(a.drop_last() =~= n[i].children.take(k - 1));
        assert(b.drop_last() =~= m[j].children.take(k - 1));
        let c = n[i].children[k - 1] as int;
        assert(a.last() == c);
        assert(m[j].children[k - 1] == twin(n, m, c));
        assert(b.last() == twin(n, m, c));
        lemma_child_held(n, i, k - 1);
        lemma_child_held(m, j, k - 1);
        lemma_twin_list(n, m, i, k - 1);
        lemma_twin_walk(n, m, c);
    }
    assert(walk_children(m, j, b) =~= twins_of(n, m, walk_children(n, i, a)));
}

/// Twins have the same place.
proof fn lemma_twin_place(n: Seq<NodeView>, m: Seq<NodeView>, c: int)
    requires
        image_nodes_ok(n),
        image_nodes_ok(m),
        all_twinned(n, m),
        all_twinned(m, n),
        0 <= c < n.len(),
    ensures
        walk_order(m, 0) == twins_of(n, m, walk_order(n, 0)),
        names_all(n, walk_order(n, 0)),
        place_of(walk_order(m, 0), twin(n, m, c)) == place_of(walk_order(n, 0), c),
{
    let order = walk_order(n, 0);
    let other = walk_order(m, 0);
    lemma_order_names_all(n);
    lemma_order_names_all(m);
    assert(twin(n, m, 0) == 0) by {
        reveal(well_named);
        lemma_found(m, root_path(), 0);
    }
    lemma_twin_walk(n, m, 0);
    lemma_place_of(n, order, c);
    let k = place_of(order, c);
    assert(other[k] == twin(n, m, c));
    lemma_place_back(m, other, k);
}

/// The entries of twins are the same.
proof fn lemma_twin_entries(n: Seq<NodeView>, m: Seq<NodeView>, k: int)
    requires
        image_nodes_ok(n),
        image_nodes_ok(m),
        all_twinned(n, m),
        all_twinned(m, n),
        0 <= k <= walk_order(n, 0).len(),
    ensures
        entries_upto(m, walk_order(m, 0), k) == entries_upto(n, walk_order(n, 0), k),
        blocks_upto(m, walk_order(m, 0), k) == blocks_upto(n, walk_order(n, 0), k),
        data_upto(m, walk_order(m, 0), k) == data_upto(n, walk_order(n, 0), k),
    decreases k,
{
    let order = walk_order(n, 0);
    let other = walk_order(m, 0);
    if k > 0 {
        lemma_twin_entries(n, m, k - 1);
        lemma_twin_place(n, m, 0);
        let i = order[k - 1];
        assert(0 <= i < n.len());
        assert(other[k - 1] == twin(n, m, i));
        lemma_twin_child_entries(n, m, i);
        reveal(all_twinned);
        assert(has_twin(n, m, i));
    }
}

proof fn lemma_twin_child_entries(n: Seq<NodeView>, m: Seq<NodeView>, i: int)
    requires
        image_nodes_ok(n),
        image_nodes_ok(m),
        all_twinned(n, m),
        all_twinned(m, n),
        0 <= i < n.len(),
    ensures
        child_entries(m, walk_order(m, 0), twin(n, m, i)) == child_entries(
            n,
            walk_order(n, 0),
            i,
        ),
{
    let order = walk_order(n, 0);
    let other = walk_order(m, 0);
    let j = twin(n, m, i);
    let a = child_entries(n, order, i);
    let b = child_entries(m, other, j);
    lemma_twin_children(n, m, i);
    assert(m[j].kind == n[i].kind) by {
        reveal(all_twinned);
        assert(has_twin(n, m, i));
    }
    assert forall|k: int| 0 <= k < a.len() implies a[k] == b[k] by {
        let c = n[i].children[k] as int;
        lemma_child_held(n, i, k);
        lemma_twin_place(n, m, c);
        reveal(all_twinned);
        assert(has_twin(n, m, c));
        assert(m[j].children[k] == twin(n, m, c));
    }
    assert(a =~= b);
}

/// Twin nodes make the same image.
proof fn lemma_twin_plan(n: Seq<NodeView>, m: Seq<NodeView>, q: ImageRequest, r: ImageRequest)
    requires
        image_nodes_ok(n),
        image_nodes_ok(m),
        all_twinned(n, m),
        all_twinned(m, n),
        r == (ImageRequest { files: r.files, ..q }),
    ensures
        nodes_plan(m, r) == nodes_plan(n, q),
{
    let order = walk_order(n, 0);
    let other = walk_order(m, 0);
    let len = order.len() as int;
    lemma_twin_place(n, m, 0);
    lemma_twin_entries(n, m, len);
    let l = image_layout(
        q.version,
        order.len() + q.extra_inodes,
        entries_upto(n, order, len).len() + q.extra_entries,
        q.extra_xattrs,
    );
    assert forall|k: int| 0 <= k < len implies #[trigger] other[k] == twin(n, m, order[k])
        && m[other[k]].data == n[order[k]].data && m[other[k]].kind == n[order[k]].kind && m[other[
        k]].children.len() == n[order[k]].children.len() by {
        let i = order[k];
        assert(0 <= i < n.len());
        lemma_twin_children(n, m, i);
        reveal(all_twinned);
        assert(has_twin(n, m, i));
    }
    assert(image_fits(n, order, l, q.extra_blocks) == image_fits(m, other, l, q.extra_blocks)) by {
        if image_fits(n, order, l, q.extra_blocks) {
            assert forall|k: int| #![trigger other[k]] 0 <= k < other.len() implies m[other[
                k]].data.len() <= u32::MAX by {
                assert(n[order[k]].data.len() <= u32::MAX);
            }
        }
        if image_fits(m, other, l, q.extra_blocks) {
            assert forall|k: int| #![trigger order[k]] 0 <= k < order.len() implies n[order[
                k]].data.len() <= u32::MAX by {
                assert(m[other[k]].data.len() <= u32::MAX);
            }
        }
    }
    let a = image_inodes(n, order, l.data_start);
    let b = image_inodes(m, other, l.data_start);
    assert forall|k: int| 0 <= k < len implies a[k] == b[k] by {
        lemma_twin_entries(n, m, k);
        assert(other[k] == twin(n, m, order[k]));
    }
    assert(a =~= b);
}

/// What an image holds does not depend on the order in which its files are given.
pub proof fn lemma_plans_agree(q: ImageRequest, r: ImageRequest)
    requires
        r == (ImageRequest { files: r.files, ..q }),
        same_files(q.files, r.files),
        files_apart(q.files),
        files_apart(r.files),
        image_nodes(q.files) is Ok,
        image_nodes(r.files) is Ok,
        image_nodes(q.files)->Ok_0.len() <= usize::MAX,
        image_nodes(r.files)->Ok_0.len() <= usize::MAX,
    ensures
        image_plan(r) == image_plan(q),
{
    let n = image_nodes(q.files)->Ok_0;
    let m = image_nodes(r.files)->Ok_0;
    lemma_image_nodes_ok(q.files);
    lemma_image_nodes_ok(r.files);
    lemma_all_twinned(q.files, r.files, n, m);
    lemma_all_twinned(r.files, q.files, m, n);
    lemma_twin_plan(n, m, q, r);
}

proof fn lemma_root_name(files: Seq<ImageEntryView>)
    requires
        files_apart(files),
        unsorted_nodes(files) is Ok,
    ensures
        unsorted_nodes(files)->Ok_0.len() > 0,
        unsorted_nodes(files)->Ok_0[0].name == root_path(),
    decreases files.len(),
{
    if files.len() > 0 {
        lemma_files_drop(files);
        lemma_root_name(files.drop_last());
        let n = unsorted_nodes(files.drop_last())->Ok_0;
        let path = stored_path(files.last());
        lemma_root_name_dirs(n, ancestors(path));
        let m = with_dirs(n, ancestors(path))->Ok_0;
        if parent_text(path) is Some {
            lemma_find_node(m, parent_text(path)->0, 0);
        }
    }
}

proof fn lemma_root_name_dirs(n: Seq<NodeView>, paths: Seq<Seq<char>>)
    requires
        with_dirs(n, paths) is Ok,
        n.len() > 0,
    ensures
        with_dirs(n, paths)->Ok_0.len() > 0,
        with_dirs(n, paths)->Ok_0[0].name == n[0].name,
    decreases paths.len(),
{
    if paths.len() > 0 {
        lemma_root_name_dirs(n, paths.drop_last());
        let m = with_dirs(n, paths.drop_last())->Ok_0;
        if parent_text(paths.last()) is Some {
            lemma_find_node(m, parent_text(paths.last())->0, 0);
        }
    }
}

pub proof fn lemma_image_nodes_ok(files: Seq<ImageEntryView>)
    requires
        files_apart(files),
        image_nodes(files) is Ok,
        image_nodes(files)->Ok_0.len() <= usize::MAX,
    ensures
        image_nodes_ok(image_nodes(files)->Ok_0),
        nodes_of(image_nodes(files)->Ok_0, files),
{
    let u = unsorted_nodes(files)->Ok_0;
    let n = image_nodes(files)->Ok_0;
    lemma_unsorted_ok(files);
    lemma_sorted_ok(u);
    lemma_same_nodes(files, u, n);
    lemma_root_name(files);
    assert(children_sorted(n)) by {
        reveal(children_sorted);
        assert forall|p: int, a: int, b: int|
            #![trigger n[p].children[a], n[p].children[b]]
            0 <= p < n.len() && 0 <= a < b < n[p].children.len() implies text_before(
            n[n[p].children[a] as int].name,
            n[n[p].children[b] as int].name,
        ) by {
            assert(in_order(u, n[p].children));
            assert(node_before(u, n[p].children[a], n[p].children[b]));
            lemma_child_held(n, p, a);
            lemma_child_held(n, p, b);
            lemma_names_differ(n, p, a, b);
        }
    }
}

} // verus!
