//! The nodes of an image make up a tree.
use vstd::prelude::*;
use vstd::string::*;

use crate::order::lemma_text_before_irreflexive;
use crate::simplefs::image_nodes::{ImageEntryView, NodeView, find_node, lemma_find_node, lemma_sorted_members, node_before, root_node, unsorted_nodes, with_dirs, with_node, with_sorted_children};
use crate::simplefs::image_order::{in_order, law_children_in_order};
use crate::simplefs::lookup::{is_here, is_up};
use crate::simplefs::names::{ancestors, base_text, image_path, parent_text, path_height, root_path};
use crate::text::trim_end;
use crate::vfs::NodeKind;

verus! {

/// The path of a node in a directory.
pub open spec fn joined(parent: Seq<char>, name: Seq<char>) -> Seq<char> {
    if parent == root_path() {
        parent + name
    } else {
        parent + seq!['/'] + name
    }
}

/// Whether a path is in normal form: it goes down from the root, name by name, and no name
/// is empty or one of the dot names.
pub open spec fn proper(path: Seq<char>) -> bool
    decreases path_height(path),
{
    &&& path != root_path()
    &&& trim_end(path, '/').len() > 0
    &&& parent_text(path) matches Some(p) && {
        &&& path_height(p) < path_height(path)
        &&& path == joined(p, base_text(path))
        &&& !is_here(base_text(path))
        &&& !is_up(base_text(path))
        &&& p == root_path() || proper(p)
    }
}

/// The path under which a file of an image is stored.
pub open spec fn stored_path(entry: ImageEntryView) -> Seq<char> {
    image_path(entry.path)->Ok_0
}

/// Whether the files of an image stand apart: their paths are in normal form, no two are the
/// same, and none leads through another.
pub open spec fn files_apart(files: Seq<ImageEntryView>) -> bool {
    &&& forall|f: int|
        #![trigger files[f]]
        0 <= f < files.len() ==> image_path(files[f].path) is Ok && proper(stored_path(files[f]))
    &&& forall|f: int, h: int|
        #![trigger files[f], files[h]]
        0 <= f < files.len() && 0 <= h < files.len() && f != h ==> stored_path(files[f])
            != stored_path(files[h]) && !ancestors(stored_path(files[h])).contains(
            stored_path(files[f]),
        )
}

/// Whether the root comes first, and every other node has a path in normal form that ends in
/// its name.
#[verifier::opaque]
pub open spec fn well_named(n: Seq<NodeView>) -> bool {
    &&& n[0].path == root_path()
    &&& n[0].kind == NodeKind::Directory
    &&& forall|i: int|
        #![trigger n[i]]
        1 <= i < n.len() ==> proper(n[i].path) && n[i].name == base_text(n[i].path)
}

/// Whether no two nodes have the same path.
pub open spec fn paths_differ(n: Seq<NodeView>) -> bool {
    forall|i: int, j: int|
        #![trigger n[i], n[j]]
        0 <= i < j < n.len() ==> n[i].path != n[j].path
}

/// Whether every node but the root is held by one before it.
#[verifier::opaque]
pub open spec fn all_held(n: Seq<NodeView>) -> bool {
    forall|i: int| #![trigger held(n, i)] 1 <= i < n.len() ==> held(n, i)
}

/// Whether a directory holds later nodes only, each once and under its own path.
#[verifier::opaque]
pub open spec fn holds_its_own(n: Seq<NodeView>) -> bool {
    &&& forall|p: int, k: int|
        #![trigger n[p].children[k]]
        0 <= p < n.len() && 0 <= k < n[p].children.len() ==> p < n[p].children[k] < n.len()
            && parent_text(n[n[p].children[k] as int].path) == Some(n[p].path)
    &&& forall|p: int|
        #![trigger n[p].children]
        0 <= p < n.len() ==> n[p].children.no_duplicates()
}

/// Whether nodes make up a tree: the root first, every other node after the one directory
/// that holds it, each under a path of its own.
pub open spec fn nodes_ok(n: Seq<NodeView>) -> bool {
    &&& n.len() > 0
    &&& well_named(n)
    &&& paths_differ(n)
    &&& all_held(n)
    &&& holds_its_own(n)
}

/// The node that holds node `i`.
pub open spec fn holder(n: Seq<NodeView>, i: int) -> int {
    find_node(n, parent_text(n[i].path)->0, 0)->0
}

/// Whether a node is held by one before it.
pub open spec fn held(n: Seq<NodeView>, i: int) -> bool {
    let p = holder(n, i);
    &&& find_node(n, parent_text(n[i].path)->0, 0) is Some
    &&& 0 <= p < i
    &&& n[p].path == parent_text(n[i].path)->0
    &&& n[p].children.contains(i as usize)
}

/// Whether nodes are only added: what was there keeps its path, kind and contents.
pub open spec fn nodes_grow(n: Seq<NodeView>, m: Seq<NodeView>) -> bool {
    &&& n.len() <= m.len()
    &&& forall|i: int|
        #![trigger m[i]]
        0 <= i < n.len() ==> m[i].path == n[i].path && m[i].kind == n[i].kind && m[i].data
            == n[i].data
}

pub proof fn lemma_found(n: Seq<NodeView>, path: Seq<char>, i: int)
    requires
        forall|a: int, b: int|
            #![trigger n[a], n[b]]
            0 <= a < b < n.len() ==> n[a].path != n[b].path,
        0 <= i < n.len(),
        n[i].path == path,
    ensures
        find_node(n, path, 0) == Some(i),
{
    lemma_find_node(n, path, 0);
    let k = find_node(n, path, 0)->0;
    assert(n[k].path == path);
    if k < i {
        assert(n[k].path != n[i].path);
    } else if i < k {
        assert(n[i].path != n[k].path);
    }
}

/// Nodes with one more at the end, held by node `p`.
spec fn one_more(n: Seq<NodeView>, m: Seq<NodeView>, p: int, path: Seq<char>) -> bool {
    let last = n.len() as int;
    &&& m.len() == last + 1
    &&& 0 <= p < last
    &&& n[p].path == parent_text(path)->0
    &&& parent_text(path) is Some
    &&& forall|i: int|
        #![trigger m[i]]
        0 <= i < last ==> m[i].path == n[i].path && m[i].kind == n[i].kind && m[i].data == n[i].data
            && m[i].name == n[i].name && (i != p ==> m[i].children == n[i].children)
    &&& m[p].children == n[p].children.push(last as usize)
    &&& m[last].path == path
    &&& m[last].name == base_text(path)
    &&& m[last].children.len() == 0
    &&& forall|i: int| #![trigger n[i]] 0 <= i < last ==> n[i].path != path
}

proof fn lemma_more_named(n: Seq<NodeView>, m: Seq<NodeView>, p: int, path: Seq<char>)
    requires
        one_more(n, m, p, path),
        well_named(n),
        paths_differ(n),
        proper(path),
    ensures
        well_named(m),
        paths_differ(m),
{
    reveal(well_named);
    assert forall|i: int| #![trigger m[i]] 1 <= i < m.len() implies proper(m[i].path) && m[i].name
        == base_text(m[i].path) by {
        if i < n.len() {
            assert(proper(n[i].path));
        }
    }
    assert forall|i: int, j: int| #![trigger m[i], m[j]] 0 <= i < j < m.len() implies m[i].path
        != m[j].path by {
        if j < n.len() {
            assert(n[i].path != n[j].path);
        } else {
            assert(n[i].path != path);
        }
    }
}

proof fn lemma_more_held(n: Seq<NodeView>, m: Seq<NodeView>, p: int, path: Seq<char>)
    requires
        one_more(n, m, p, path),
        all_held(n),
        paths_differ(m),
        n.len() < usize::MAX,
    ensures
        all_held(m),
{
    reveal(all_held);
    let last = n.len() as int;
    assert forall|i: int| #![trigger held(m, i)] 1 <= i < m.len() implies held(m, i) by {
        if i < last {
            assert(held(n, i));
            let h = holder(n, i);
            assert(m[i].path == n[i].path);
            assert(m[h].path == n[h].path);
            lemma_found(m, parent_text(m[i].path)->0, h);
            let k = choose|k: int| 0 <= k < n[h].children.len() && n[h].children[k] == i as usize;
            assert(n[h].children[k] == i as usize);
            assert(m[h].children[k] == i as usize);
        } else {
            assert(m[p].path == n[p].path);
            lemma_found(m, parent_text(path)->0, p);
            assert(m[p].children[n[p].children.len() as int] == i as usize);
        }
    }
}

proof fn lemma_more_holds(n: Seq<NodeView>, m: Seq<NodeView>, p: int, path: Seq<char>)
    requires
        one_more(n, m, p, path),
        holds_its_own(n),
        n.len() < usize::MAX,
    ensures
        holds_its_own(m),
{
    reveal(holds_its_own);
    let last = n.len() as int;
    assert(m[p].path == n[p].path);
    assert forall|a: int, k: int|
        #![trigger m[a].children[k]]
        0 <= a < m.len() && 0 <= k < m[a].children.len() implies a < m[a].children[k] < m.len()
        && parent_text(m[m[a].children[k] as int].path) == Some(m[a].path) by {
        if a == p && k == n[p].children.len() {
            assert(m[p].children[k] == last as usize);
        } else if a < last {
            assert(m[a].children[k] == n[a].children[k]);
            let c = n[a].children[k] as int;
            assert(m[c].path == n[c].path);
            assert(m[a].path == n[a].path);
        }
    }
    assert forall|a: int|
        #![trigger m[a].children]
        0 <= a < m.len() implies m[a].children.no_duplicates() by {
        if a == p {
            let c = n[p].children;
            assert(n[p].children.no_duplicates());
            assert forall|i: int, j: int|
                0 <= i < m[p].children.len() && 0 <= j < m[p].children.len() && i
                    != j implies m[p].children[i] != m[p].children[j] by {
                if i < c.len() {
                    assert(n[p].children[i] < n.len());
                }
                if j < c.len() {
                    assert(n[p].children[j] < n.len());
                }
            }
        } else if a < last {
            assert(n[a].children.no_duplicates());
        }
    }
}

proof fn lemma_with_node_ok(n: Seq<NodeView>, path: Seq<char>, kind: NodeKind, data: Seq<u8>)
    requires
        nodes_ok(n),
        proper(path),
        with_node(n, path, kind, data) is Ok,
        with_node(n, path, kind, data)->Ok_0.len() <= usize::MAX,
    ensures
        ({
            let m = with_node(n, path, kind, data)->Ok_0;
            &&& nodes_ok(m)
            &&& nodes_grow(n, m)
            &&& find_node(n, path, 0) is Some ==> m == n
            &&& find_node(n, path, 0) is None ==> m.len() == n.len() + 1 && m[n.len() as int].path
                == path && m[n.len() as int].kind == kind && m[n.len() as int].data == data
        }),
{
    let m = with_node(n, path, kind, data)->Ok_0;
    if find_node(n, path, 0) is None {
        lemma_find_node(n, path, 0);
        let q = parent_text(path)->0;
        lemma_find_node(n, q, 0);
        let p = find_node(n, q, 0)->0;
        assert(one_more(n, m, p, path));
        lemma_more_named(n, m, p, path);
        lemma_more_held(n, m, p, path);
        lemma_more_holds(n, m, p, path);
    }
}

/// Adding a node takes none away.
proof fn lemma_node_grows(n: Seq<NodeView>, path: Seq<char>, kind: NodeKind, data: Seq<u8>)
    requires
        with_node(n, path, kind, data) is Ok,
    ensures
        with_node(n, path, kind, data)->Ok_0.len() >= n.len(),
{
    if parent_text(path) is Some {
        lemma_find_node(n, parent_text(path)->0, 0);
    }
}

proof fn lemma_with_dirs_ok(n: Seq<NodeView>, paths: Seq<Seq<char>>)
    requires
        nodes_ok(n),
        forall|j: int|
            #![trigger paths[j]]
            0 <= j < paths.len() ==> paths[j] == root_path() || proper(paths[j]),
        with_dirs(n, paths) is Ok,
        with_dirs(n, paths)->Ok_0.len() <= usize::MAX,
    ensures
        ({
            let m = with_dirs(n, paths)->Ok_0;
            &&& nodes_ok(m)
            &&& nodes_grow(n, m)
            &&& forall|i: int|
                #![trigger m[i]]
                n.len() <= i < m.len() ==> m[i].kind == NodeKind::Directory && m[i].data.len() == 0
                    && paths.contains(m[i].path)
        }),
    decreases paths.len(),
{
    if paths.len() > 0 {
        let d = paths.drop_last();
        let a = with_dirs(n, d)->Ok_0;
        let m = with_dirs(n, paths)->Ok_0;
        let path = paths.last();
        lemma_node_grows(a, path, NodeKind::Directory, Seq::empty());
        assert forall|j: int| #![trigger d[j]] 0 <= j < d.len() implies d[j] == root_path()
            || proper(d[j]) by {
            assert(paths[j] == d[j]);
        }
        lemma_with_dirs_ok(n, d);
        assert(paths[paths.len() - 1] == path);
        if path == root_path() {
            assert(a[0].path == root_path()) by {
                reveal(well_named);
            }
            lemma_found(a, path, 0);
            assert(m == a);
        } else {
            lemma_with_node_ok(a, path, NodeKind::Directory, Seq::empty());
        }
        assert forall|i: int| #![trigger m[i]] n.len() <= i < m.len() implies m[i].kind
            == NodeKind::Directory && m[i].data.len() == 0 && paths.contains(m[i].path) by {
            if i < a.len() {
                assert(d.contains(a[i].path));
                let j = choose|j: int| 0 <= j < d.len() && d[j] == a[i].path;
                assert(paths[j] == a[i].path);
                assert(m[i].path == a[i].path);
            } else {
                assert(paths[paths.len() - 1] == m[i].path);
            }
        }
    }
}

proof fn lemma_ancestors_proper(path: Seq<char>)
    requires
        proper(path),
    ensures
        forall|j: int|
            #![trigger ancestors(path)[j]]
            0 <= j < ancestors(path).len() ==> (ancestors(path)[j] == root_path() || proper(
                ancestors(path)[j],
            )) && path_height(ancestors(path)[j]) < path_height(path),
        ancestors(path).contains(parent_text(path)->0),
    decreases path_height(path),
{
    let p = parent_text(path)->0;
    let up = ancestors(path);
    assert(up == ancestors(p).push(p));
    if p != root_path() {
        lemma_ancestors_proper(p);
    } else {
        assert(ancestors(p).len() == 0);
    }
    assert forall|j: int| #![trigger up[j]] 0 <= j < up.len() implies (up[j] == root_path()
        || proper(up[j])) && path_height(up[j]) < path_height(path) by {
        if j < ancestors(p).len() {
            assert(up[j] == ancestors(p)[j]);
        }
    }
    assert(up[up.len() - 1] == p);
}

/// What lies above a directory above a path lies above the path.
proof fn lemma_ancestors_closed(path: Seq<char>, a: Seq<char>)
    requires
        proper(path),
        a != root_path(),
        ancestors(path).contains(a),
    ensures
        parent_text(a) is Some,
        ancestors(path).contains(parent_text(a)->0),
    decreases path_height(path),
{
    lemma_ancestors_proper(path);
    let p = parent_text(path)->0;
    let up = ancestors(path);
    assert(up == ancestors(p).push(p));
    let j = choose|j: int| 0 <= j < up.len() && up[j] == a;
    assert(up[j] == a);
    if p == root_path() {
        assert(ancestors(p).len() == 0);
    } else {
        lemma_ancestors_proper(p);
        if a == p {
            let q = parent_text(p)->0;
            let k = choose|k: int| 0 <= k < ancestors(p).len() && ancestors(p)[k] == q;
            assert(up[k] == q);
        } else {
            assert(ancestors(p)[j] == a);
            lemma_ancestors_closed(p, a);
            let q = parent_text(a)->0;
            let k = choose|k: int| 0 <= k < ancestors(p).len() && ancestors(p)[k] == q;
            assert(up[k] == q);
        }
    }
}

/// Whether a node is a directory, or a file of the image.
pub open spec fn node_kind_ok(node: NodeView, files: Seq<ImageEntryView>) -> bool {
    (node.kind == NodeKind::Directory && node.data.len() == 0) || (node.kind == NodeKind::File
        && exists|f: int|
        #![trigger files[f]]
        0 <= f < files.len() && stored_path(files[f]) == node.path && files[f].data == node.data)
}

/// Whether a node lies on the way to a file of the image.
pub open spec fn on_the_way(path: Seq<char>, files: Seq<ImageEntryView>) -> bool {
    exists|f: int|
        #![trigger files[f]]
        0 <= f < files.len() && (stored_path(files[f]) == path || ancestors(
            stored_path(files[f]),
        ).contains(path))
}

/// Whether a file of the image is among the nodes.
pub open spec fn file_among(n: Seq<NodeView>, entry: ImageEntryView) -> bool {
    exists|i: int|
        #![trigger n[i]]
        0 <= i < n.len() && n[i].kind == NodeKind::File && n[i].path == stored_path(entry)
            && n[i].data == entry.data
}

/// Whether nodes are those of these files: every file, and the directories on the way.
pub open spec fn nodes_of(n: Seq<NodeView>, files: Seq<ImageEntryView>) -> bool {
    &&& forall|i: int| #![trigger n[i]] 0 <= i < n.len() ==> node_kind_ok(n[i], files)
    &&& forall|i: int| #![trigger n[i]] 1 <= i < n.len() ==> on_the_way(n[i].path, files)
    &&& forall|f: int| #![trigger files[f]] 0 <= f < files.len() ==> file_among(n, files[f])
}

pub proof fn lemma_files_drop(files: Seq<ImageEntryView>)
    requires
        files_apart(files),
        files.len() > 0,
    ensures
        files_apart(files.drop_last()),
{
    let d = files.drop_last();
    assert forall|f: int| #![trigger d[f]] 0 <= f < d.len() implies image_path(d[f].path) is Ok
        && proper(stored_path(d[f])) by {
        assert(files[f] == d[f]);
    }
    assert forall|f: int, h: int|
        #![trigger d[f], d[h]]
        0 <= f < d.len() && 0 <= h < d.len() && f != h implies stored_path(d[f]) != stored_path(
        d[h],
    ) && !ancestors(stored_path(d[h])).contains(stored_path(d[f])) by {
        assert(files[f] == d[f] && files[h] == d[h]);
    }
}

/// The nodes of files that stand apart make up a tree, of just those files and the
/// directories on the way to them.
pub proof fn lemma_unsorted_ok(files: Seq<ImageEntryView>)
    requires
        files_apart(files),
        unsorted_nodes(files) is Ok,
        unsorted_nodes(files)->Ok_0.len() <= usize::MAX,
    ensures
        nodes_ok(unsorted_nodes(files)->Ok_0),
        nodes_of(unsorted_nodes(files)->Ok_0, files),
    decreases files.len(),
{
    if files.len() == 0 {
        let n = unsorted_nodes(files)->Ok_0;
        assert(n.len() == 1 && n[0] == root_node());
        reveal(well_named);
        reveal(all_held);
        reveal(holds_its_own);
    } else {
        let d = files.drop_last();
        let n = unsorted_nodes(d)->Ok_0;
        let entry = files.last();
        let last = files.len() - 1;
        assert(files[last] == entry);
        let path = stored_path(entry);
        let m = with_dirs(n, ancestors(path))->Ok_0;
        let r = unsorted_nodes(files)->Ok_0;
        assert(proper(path));
        lemma_files_drop(files);
        lemma_grown(n, ancestors(path));
        lemma_node_grows(m, path, NodeKind::File, entry.data);
        lemma_unsorted_ok(d);
        assert(n[0].kind == NodeKind::Directory) by {
            reveal(well_named);
        }
        lemma_ancestors_proper(path);
        lemma_with_dirs_ok(n, ancestors(path));
        lemma_file_is_new(files, n, m);
        lemma_with_node_ok(m, path, NodeKind::File, entry.data);
        lemma_nodes_of_grow(files, n, m, r);
    }
}

proof fn lemma_grown(n: Seq<NodeView>, paths: Seq<Seq<char>>)
    requires
        with_dirs(n, paths) is Ok,
    ensures
        with_dirs(n, paths)->Ok_0.len() >= n.len(),
    decreases paths.len(),
{
    if paths.len() > 0 {
        lemma_grown(n, paths.drop_last());
        let a = with_dirs(n, paths.drop_last())->Ok_0;
        lemma_node_grows(a, paths.last(), NodeKind::Directory, Seq::empty());
    }
}

/// The last of files that stand apart is not there yet.
proof fn lemma_file_is_new(files: Seq<ImageEntryView>, n: Seq<NodeView>, m: Seq<NodeView>)
    requires
        files.len() > 0,
        files_apart(files),
        nodes_ok(m),
        nodes_of(n, files.drop_last()),
        nodes_grow(n, m),
        forall|i: int|
            #![trigger m[i]]
            n.len() <= i < m.len() ==> m[i].kind == NodeKind::Directory && ancestors(
                stored_path(files.last()),
            ).contains(m[i].path),
    ensures
        find_node(m, stored_path(files.last()), 0) is None,
{
    let path = stored_path(files.last());
    let last = files.len() - 1;
    reveal(well_named);
    lemma_find_node(m, path, 0);
    assert(files[last] == files.last());
    assert(proper(path));
    lemma_ancestors_proper(path);
    if find_node(m, path, 0) is Some {
        let i = find_node(m, path, 0)->0;
        assert(m[i].path == path);
        if i >= n.len() {
            let j = choose|j: int| 0 <= j < ancestors(path).len() && ancestors(path)[j] == path;
            assert(path_height(ancestors(path)[j]) < path_height(path));
        } else if i > 0 {
            assert(n[i].path == path);
            let d = files.drop_last();
            assert(on_the_way(n[i].path, d));
            let f = choose|f: int|
                #![trigger d[f]]
                0 <= f < d.len() && (stored_path(d[f]) == path || ancestors(
                    stored_path(d[f]),
                ).contains(path));
            assert(files[f] == d[f]);
            assert(stored_path(files[last]) != stored_path(files[f]));
        }
    }
}

proof fn lemma_nodes_of_grow(
    files: Seq<ImageEntryView>,
    n: Seq<NodeView>,
    m: Seq<NodeView>,
    r: Seq<NodeView>,
)
    requires
        files.len() > 0,
        nodes_of(n, files.drop_last()),
        nodes_grow(n, m),
        nodes_grow(m, r),
        n.len() > 0,
        n[0].kind == NodeKind::Directory,
        forall|i: int|
            #![trigger m[i]]
            n.len() <= i < m.len() ==> m[i].kind == NodeKind::Directory && m[i].data.len() == 0
                && ancestors(stored_path(files.last())).contains(m[i].path),
        r.len() == m.len() + 1,
        r[m.len() as int].path == stored_path(files.last()),
        r[m.len() as int].kind == NodeKind::File,
        r[m.len() as int].data == files.last().data,
    ensures
        nodes_of(r, files),
{
    let d = files.drop_last();
    let last = files.len() - 1;
    assert(files[last] == files.last());
    assert forall|i: int| #![trigger r[i]] 0 <= i < r.len() implies node_kind_ok(r[i], files) by {
        if i < n.len() {
            assert(m[i].kind == n[i].kind && m[i].path == n[i].path && m[i].data == n[i].data);
            assert(node_kind_ok(n[i], d));
            if n[i].kind != NodeKind::Directory {
                let f = choose|f: int|
                    #![trigger d[f]]
                    0 <= f < d.len() && stored_path(d[f]) == n[i].path && d[f].data == n[i].data;
                assert(files[f] == d[f]);
            }
        } else if i < m.len() {
            assert(m[i].kind == NodeKind::Directory);
        }
    }
    assert forall|i: int| #![trigger r[i]] 1 <= i < r.len() implies on_the_way(
        r[i].path,
        files,
    ) by {
        if i < n.len() {
            assert(m[i].path == n[i].path);
            assert(on_the_way(n[i].path, d));
            let f = choose|f: int|
                #![trigger d[f]]
                0 <= f < d.len() && (stored_path(d[f]) == n[i].path || ancestors(
                    stored_path(d[f]),
                ).contains(n[i].path));
            assert(files[f] == d[f]);
        } else if i < m.len() {
            assert(ancestors(stored_path(files[last])).contains(m[i].path));
        }
    }
    assert forall|f: int| #![trigger files[f]] 0 <= f < files.len() implies file_among(
        r,
        files[f],
    ) by {
        if f < last {
            assert(d[f] == files[f]);
            assert(file_among(n, d[f]));
            let i = choose|i: int|
                #![trigger n[i]]
                0 <= i < n.len() && n[i].kind == NodeKind::File && n[i].path == stored_path(d[f])
                    && n[i].data == d[f].data;
            assert(m[i].path == n[i].path && m[i].kind == n[i].kind && m[i].data == n[i].data);
            assert(r[i].path == m[i].path && r[i].kind == m[i].kind && r[i].data == m[i].data);
        } else {
            assert(r[m.len() as int].kind == NodeKind::File);
        }
    }
}

/// Of nodes of files that stand apart only directories hold others.
pub proof fn lemma_only_dirs_hold(files: Seq<ImageEntryView>, n: Seq<NodeView>, p: int)
    requires
        files_apart(files),
        nodes_ok(n),
        nodes_of(n, files),
        0 <= p < n.len(),
        n[p].children.len() > 0,
    ensures
        n[p].kind == NodeKind::Directory,
{
    reveal(well_named);
    reveal(holds_its_own);
    if n[p].kind != NodeKind::Directory {
        let c = n[p].children[0] as int;
        assert(p < n[p].children[0] < n.len());
        assert(on_the_way(n[c].path, files));
        let f = choose|f: int|
            #![trigger files[f]]
            0 <= f < files.len() && (stored_path(files[f]) == n[c].path || ancestors(
                stored_path(files[f]),
            ).contains(n[c].path));
        let path = stored_path(files[f]);
        assert(proper(path));
        lemma_ancestors_proper(path);
        assert(proper(n[c].path));
        if path != n[c].path {
            lemma_ancestors_closed(path, n[c].path);
        }
        assert(ancestors(path).contains(n[p].path));
        assert(node_kind_ok(n[p], files));
        let h = choose|h: int|
            #![trigger files[h]]
            0 <= h < files.len() && stored_path(files[h]) == n[p].path && files[h].data
                == n[p].data;
        if h == f {
            let j = choose|j: int| 0 <= j < ancestors(path).len() && ancestors(path)[j] == path;
            assert(path_height(ancestors(path)[j]) < path_height(path));
        } else {
            assert(!ancestors(stored_path(files[f])).contains(stored_path(files[h])));
        }
    }
}

/// Two nodes of one directory have different names.
pub proof fn lemma_names_differ(n: Seq<NodeView>, p: int, a: int, b: int)
    requires
        nodes_ok(n),
        0 <= p < n.len(),
        0 <= a < n[p].children.len(),
        0 <= b < n[p].children.len(),
        a != b,
    ensures
        n[n[p].children[a] as int].name != n[n[p].children[b] as int].name,
{
    reveal(well_named);
    reveal(holds_its_own);
    let x = n[p].children[a] as int;
    let y = n[p].children[b] as int;
    assert(p < n[p].children[a] < n.len());
    assert(p < n[p].children[b] < n.len());
    assert(n[p].children.no_duplicates());
    assert(proper(n[x].path) && proper(n[y].path));
    if n[x].name == n[y].name {
        assert(n[x].path == n[y].path);
        if x < y {
            assert(n[x].path != n[y].path);
        } else {
            assert(n[y].path != n[x].path);
        }
    }
}

/// Putting the children of a directory in order changes no child.
proof fn lemma_sorted_list(u: Seq<NodeView>, p: int)
    requires
        holds_its_own(u),
        0 <= p < u.len(),
    ensures
        ({
            let r = with_sorted_children(u)[p].children;
            &&& in_order(u, r)
            &&& r.no_duplicates()
            &&& forall|x: usize| #![trigger r.contains(x)] r.contains(x) == u[p].children.contains(x)
        }),
{
    reveal(holds_its_own);
    let s = u[p].children;
    assert(u[p].children.no_duplicates());
    law_children_in_order(u, s);
    let r = with_sorted_children(u)[p].children;
    assert forall|i: int, j: int| 0 <= i < r.len() && 0 <= j < r.len() && i != j implies r[i]
        != r[j] by {
        if i < j {
            assert(node_before(u, r[i], r[j]));
        } else {
            assert(node_before(u, r[j], r[i]));
        }
        lemma_text_before_irreflexive(u[r[i] as int].name);
    }
    lemma_sorted_members(u, s);
    s.to_multiset_ensures();
    r.to_multiset_ensures();
    assert forall|x: usize| #![trigger r.contains(x)] r.contains(x) == u[p].children.contains(x) by {
        assert(r.contains(x) <==> r.to_multiset().count(x) > 0);
        assert(s.contains(x) <==> s.to_multiset().count(x) > 0);
    }
}

/// Putting children in order keeps a tree a tree.
pub proof fn lemma_sorted_ok(u: Seq<NodeView>)
    requires
        nodes_ok(u),
    ensures
        nodes_ok(with_sorted_children(u)),
        nodes_grow(u, with_sorted_children(u)),
        forall|p: int|
            #![trigger with_sorted_children(u)[p]]
            0 <= p < u.len() ==> in_order(u, with_sorted_children(u)[p].children),
{
    let n = with_sorted_children(u);
    assert forall|p: int| #![trigger n[p]] 0 <= p < n.len() implies in_order(u, n[p].children) by {
        lemma_sorted_list(u, p);
    }
    assert(paths_differ(n)) by {
        assert forall|i: int, j: int| #![trigger n[i], n[j]] 0 <= i < j < n.len() implies n[i].path
            != n[j].path by {
            assert(u[i].path != u[j].path);
        }
    }
    assert(well_named(n)) by {
        reveal(well_named);
        assert forall|i: int| #![trigger n[i]] 1 <= i < n.len() implies proper(n[i].path)
            && n[i].name == base_text(n[i].path) by {
            assert(proper(u[i].path));
        }
    }
    assert(all_held(n)) by {
        reveal(all_held);
        assert forall|i: int| #![trigger held(n, i)] 1 <= i < n.len() implies held(n, i) by {
            assert(held(u, i));
            let h = holder(u, i);
            assert(n[h].path == u[h].path);
            lemma_found(n, parent_text(n[i].path)->0, h);
            lemma_sorted_list(u, h);
            assert(n[h].children.contains(i as usize) == u[h].children.contains(i as usize));
        }
    }
    assert(holds_its_own(n)) by {
        reveal(holds_its_own);
        assert forall|p: int, k: int|
            #![trigger n[p].children[k]]
            0 <= p < n.len() && 0 <= k < n[p].children.len() implies p < n[p].children[k] < n.len()
            && parent_text(n[n[p].children[k] as int].path) == Some(n[p].path) by {
            let s = u[p].children;
            let x = n[p].children[k];
            lemma_sorted_list(u, p);
            assert(n[p].children.contains(x) == s.contains(x));
            let j = choose|j: int| 0 <= j < s.len() && s[j] == x;
            assert(u[p].children[j] == x);
            assert(n[x as int].path == u[x as int].path);
        }
        assert forall|p: int|
            #![trigger n[p].children]
            0 <= p < n.len() implies n[p].children.no_duplicates() by {
            lemma_sorted_list(u, p);
        }
    }
}

} // verus!
