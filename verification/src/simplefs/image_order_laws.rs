//! The image of a list of files is that of every other order of the list.
use vstd::prelude::*;
use vstd::utf8::*;

use crate::error::Error;
use crate::simplefs::constants::DIRENT_NAME_MAX;
use crate::simplefs::image::{lemma_entries_named, lemma_image_named};
use crate::simplefs::image_build::{ImageRequest, entries_upto, holds_plan, image_plan};
use crate::simplefs::image_bytes::{law_image_is_unique, plan_fits};
use crate::simplefs::image_nodes::{ImageEntryView, NodeView, find_node, image_nodes, lemma_find_node, parents_first, unsorted_nodes, with_dirs, with_node};
use crate::simplefs::image_order::walk_order;
use crate::simplefs::image_places::lemma_order_names_all;
use crate::simplefs::image_tree::{files_apart, holds_its_own, lemma_files_drop, proper, stored_path};
use crate::simplefs::image_twins::{lemma_image_nodes_ok, lemma_plans_agree, same_files};
use crate::simplefs::names::{ancestors, base_text, image_path, name_ok, parent_text, path_height, root_path};
use crate::vfs::NodeKind;

verus! {

/// Whether every name on the way of a path can be kept in an entry.
pub open spec fn path_named(path: Seq<char>) -> bool
    decreases path_height(path),
{
    path == root_path() || {
        &&& name_ok(base_text(path))
        &&& parent_text(path) matches Some(p) && path_height(p) < path_height(path) && path_named(p)
    }
}

/// Whether every node but the root has a path whose last name can be kept.
spec fn bases_named(n: Seq<NodeView>) -> bool {
    forall|i: int|
        #![trigger n[i]]
        0 <= i < n.len() ==> n[i].path == root_path() || name_ok(base_text(n[i].path))
}

/// Whether a path has a node.
spec fn present(n: Seq<NodeView>, path: Seq<char>) -> bool {
    find_node(n, path, 0) is Some
}

proof fn lemma_present(n: Seq<NodeView>, m: Seq<NodeView>, path: Seq<char>)
    requires
        n.len() <= m.len(),
        forall|i: int| #![trigger m[i]] 0 <= i < n.len() ==> m[i].path == n[i].path,
        present(n, path),
    ensures
        present(m, path),
{
    lemma_find_node(n, path, 0);
    lemma_find_node(m, path, 0);
    let i = find_node(n, path, 0)->0;
    assert(m[i].path == path);
}

/// A node is added where its name can be kept and there is a directory for it.
proof fn lemma_node_added(n: Seq<NodeView>, path: Seq<char>, kind: NodeKind, data: Seq<u8>)
    requires
        present(n, path) || (name_ok(base_text(path)) && parent_text(path) is Some && present(
            n,
            parent_text(path)->0,
        )),
    ensures
        with_node(n, path, kind, data) is Ok,
        present(with_node(n, path, kind, data)->Ok_0, path),
        forall|x: Seq<char>|
            #![trigger present(n, x)]
            present(n, x) ==> present(with_node(n, path, kind, data)->Ok_0, x),
{
    let m = with_node(n, path, kind, data)->Ok_0;
    lemma_find_node(n, path, 0);
    lemma_find_node(n, parent_text(path)->0, 0);
    if !present(n, path) {
        assert(m[n.len() as int].path == path);
        lemma_find_node(m, path, 0);
        assert forall|x: Seq<char>| #![trigger present(n, x)] present(n, x) implies present(
            m,
            x,
        ) by {
            lemma_present(n, m, x);
        }
    }
}

/// Where a node could be added, its name can be kept.
proof fn lemma_added_named(n: Seq<NodeView>, path: Seq<char>, kind: NodeKind, data: Seq<u8>)
    requires
        bases_named(n),
        with_node(n, path, kind, data) is Ok,
    ensures
        bases_named(with_node(n, path, kind, data)->Ok_0),
        path == root_path() || name_ok(base_text(path)),
{
    let m = with_node(n, path, kind, data)->Ok_0;
    lemma_find_node(n, path, 0);
    if parent_text(path) is Some {
        lemma_find_node(n, parent_text(path)->0, 0);
    }
    if present(n, path) {
        assert(n[find_node(n, path, 0)->0].path == path);
    } else {
        assert forall|i: int| #![trigger m[i]] 0 <= i < m.len() implies m[i].path == root_path()
            || name_ok(base_text(m[i].path)) by {
            if i < n.len() {
                assert(n[i].path == m[i].path);
            }
        }
    }
}

/// The directories above a path can be made where their names can be kept.
proof fn lemma_dirs_made(n: Seq<NodeView>, path: Seq<char>)
    requires
        present(n, root_path()),
        proper(path),
        path_named(path),
    ensures
        with_dirs(n, ancestors(path)) is Ok,
        present(with_dirs(n, ancestors(path))->Ok_0, parent_text(path)->0),
        present(with_dirs(n, ancestors(path))->Ok_0, root_path()),
    decreases path_height(path),
{
    let p = parent_text(path)->0;
    let up = ancestors(path);
    assert(up == ancestors(p).push(p));
    assert(up.drop_last() =~= ancestors(p));
    assert(up.last() == p);
    if p == root_path() {
        assert(ancestors(p).len() == 0);
        assert(with_dirs(n, ancestors(p)) == Ok::<Seq<NodeView>, Error>(n));
        lemma_node_added(n, p, NodeKind::Directory, Seq::empty());
    } else {
        reveal_with_fuel(path_named, 3);
        reveal_with_fuel(proper, 3);
        lemma_dirs_made(n, p);
        let m = with_dirs(n, ancestors(p))->Ok_0;
        lemma_node_added(m, p, NodeKind::Directory, Seq::empty());
        assert(present(m, root_path()));
    }
}

/// Where the directories above a path could be made, their names can be kept.
proof fn lemma_made_named(n: Seq<NodeView>, path: Seq<char>)
    requires
        bases_named(n),
        proper(path),
        with_dirs(n, ancestors(path)) is Ok,
    ensures
        bases_named(with_dirs(n, ancestors(path))->Ok_0),
        path_named(parent_text(path)->0),
    decreases path_height(path),
{
    let p = parent_text(path)->0;
    let up = ancestors(path);
    assert(up == ancestors(p).push(p));
    assert(up.drop_last() =~= ancestors(p));
    assert(up.last() == p);
    if p == root_path() {
        assert(ancestors(p).len() == 0);
        assert(with_dirs(n, ancestors(p)) == Ok::<Seq<NodeView>, Error>(n));
        lemma_added_named(n, p, NodeKind::Directory, Seq::empty());
    } else {
        reveal_with_fuel(path_named, 3);
        reveal_with_fuel(proper, 3);
        lemma_made_named(n, p);
        let m = with_dirs(n, ancestors(p))->Ok_0;
        lemma_added_named(m, p, NodeKind::Directory, Seq::empty());
    }
}

/// Whether every name on the way to a file can be kept.
pub open spec fn files_named(files: Seq<ImageEntryView>) -> bool {
    forall|f: int| #![trigger files[f]] 0 <= f < files.len() ==> path_named(stored_path(files[f]))
}

/// The nodes of files that stand apart can be made exactly where every name on the way can
/// be kept in an entry.
pub proof fn law_nodes_can_be_made(files: Seq<ImageEntryView>)
    requires
        files_apart(files),
    ensures
        image_nodes(files) is Ok <==> files_named(files),
{
    if files_named(files) {
        lemma_nodes_made(files);
    }
    if image_nodes(files) is Ok {
        lemma_nodes_named(files);
    }
}

proof fn lemma_nodes_made(files: Seq<ImageEntryView>)
    requires
        files_apart(files),
        files_named(files),
    ensures
        unsorted_nodes(files) is Ok,
        present(unsorted_nodes(files)->Ok_0, root_path()),
    decreases files.len(),
{
    if files.len() == 0 {
        let n = unsorted_nodes(files)->Ok_0;
        assert(n[0].path == root_path());
    } else {
        let d = files.drop_last();
        lemma_files_drop(files);
        assert forall|f: int| #![trigger d[f]] 0 <= f < d.len() implies path_named(
            stored_path(d[f]),
        ) by {
            assert(files[f] == d[f]);
        }
        lemma_nodes_made(d);
        let n = unsorted_nodes(d)->Ok_0;
        let entry = files.last();
        assert(files[files.len() - 1] == entry);
        let path = stored_path(entry);
        lemma_dirs_made(n, path);
        let m = with_dirs(n, ancestors(path))->Ok_0;
        lemma_node_added(m, path, NodeKind::File, entry.data);
        assert(present(m, root_path()));
    }
}

proof fn lemma_nodes_named(files: Seq<ImageEntryView>)
    requires
        files_apart(files),
        unsorted_nodes(files) is Ok,
    ensures
        files_named(files),
        bases_named(unsorted_nodes(files)->Ok_0),
    decreases files.len(),
{
    if files.len() > 0 {
        let d = files.drop_last();
        lemma_files_drop(files);
        lemma_nodes_named(d);
        let n = unsorted_nodes(d)->Ok_0;
        let entry = files.last();
        assert(files[files.len() - 1] == entry);
        let path = stored_path(entry);
        lemma_made_named(n, path);
        let m = with_dirs(n, ancestors(path))->Ok_0;
        lemma_added_named(m, path, NodeKind::File, entry.data);
        assert forall|f: int| #![trigger files[f]] 0 <= f < files.len() implies path_named(
            stored_path(files[f]),
        ) by {
            if f < d.len() {
                assert(d[f] == files[f]);
            }
        }
    }
}

/// Whether one list is the other in another order.
pub open spec fn reordered(a: Seq<ImageEntryView>, b: Seq<ImageEntryView>) -> bool {
    a.to_multiset() == b.to_multiset()
}

/// Files in another order stand apart as well, and are the same.
proof fn lemma_reordered(a: Seq<ImageEntryView>, b: Seq<ImageEntryView>)
    requires
        files_apart(a),
        reordered(a, b),
    ensures
        files_apart(b),
        same_files(a, b),
{
    a.to_multiset_ensures();
    b.to_multiset_ensures();
    assert(a.no_duplicates()) by {
        assert forall|i: int, j: int|
            0 <= i < a.len() && 0 <= j < a.len() && i != j implies a[i] != a[j] by {
            assert(stored_path(a[i]) != stored_path(a[j]));
        }
    }
    a.lemma_multiset_has_no_duplicates();
    b.lemma_multiset_has_no_duplicates_conv();
    assert forall|f: int| #![trigger a[f]] 0 <= f < a.len() implies b.contains(a[f]) by {
        assert(a.contains(a[f]));
        assert(a.to_multiset().count(a[f]) > 0);
    }
    assert forall|f: int| #![trigger b[f]] 0 <= f < b.len() implies a.contains(b[f]) by {
        assert(b.contains(b[f]));
        assert(b.to_multiset().count(b[f]) > 0);
    }
    assert forall|f: int| #![trigger b[f]] 0 <= f < b.len() implies image_path(b[f].path) is Ok
        && proper(stored_path(b[f])) by {
        let i = choose|i: int| 0 <= i < a.len() && a[i] == b[f];
        assert(image_path(a[i].path) is Ok);
    }
    assert forall|f: int, h: int|
        #![trigger b[f], b[h]]
        0 <= f < b.len() && 0 <= h < b.len() && f != h implies stored_path(b[f]) != stored_path(
        b[h],
    ) && !ancestors(stored_path(b[h])).contains(stored_path(b[f])) by {
        let i = choose|i: int| 0 <= i < a.len() && a[i] == b[f];
        let j = choose|j: int| 0 <= j < a.len() && a[j] == b[h];
        assert(b[f] != b[h]);
        assert(stored_path(a[i]) != stored_path(a[j]));
    }
}

/// An image's bytes do not depend on the order in which its files are given: whatever order
/// they come in, the image can be built or not alike, and is the same where it is built.
/// What an image is built from has to fit in memory.
pub proof fn law_image_order_is_irrelevant(
    q: ImageRequest,
    r: ImageRequest,
    label: Seq<char>,
    x: Seq<u8>,
    y: Seq<u8>,
)
    requires
        r == (ImageRequest { files: r.files, ..q }),
        reordered(q.files, r.files),
        files_apart(q.files),
        0 <= q.extra_inodes,
        0 <= q.extra_entries,
        image_nodes(q.files) matches Ok(n) ==> n.len() <= usize::MAX,
        image_nodes(r.files) matches Ok(n) ==> n.len() <= usize::MAX,
    ensures
        image_nodes(r.files) is Ok <==> image_nodes(q.files) is Ok,
        image_nodes(q.files) is Ok ==> image_plan(r) == image_plan(q),
        image_plan(q) is Ok && holds_plan(
            x,
            label,
            q.version,
            image_plan(q)->Ok_0,
            q.extra_blocks,
        ) && holds_plan(y, label, r.version, image_plan(r)->Ok_0, r.extra_blocks) ==> x == y,
{
    lemma_reordered(q.files, r.files);
    law_nodes_can_be_made(q.files);
    law_nodes_can_be_made(r.files);
    assert(files_named(q.files) <==> files_named(r.files)) by {
        if files_named(q.files) {
            lemma_same_named(q.files, r.files);
        }
        if files_named(r.files) {
            lemma_same_named(r.files, q.files);
        }
    }
    if image_nodes(q.files) is Ok {
        lemma_plans_agree(q, r);
        if image_plan(q) is Ok && holds_plan(
            x,
            label,
            q.version,
            image_plan(q)->Ok_0,
            q.extra_blocks,
        ) && holds_plan(y, label, r.version, image_plan(r)->Ok_0, r.extra_blocks) {
            lemma_plan_fits(q);
            law_image_is_unique(x, y, label, q.version, image_plan(q)->Ok_0, q.extra_blocks);
        }
    }
}

proof fn lemma_same_named(a: Seq<ImageEntryView>, b: Seq<ImageEntryView>)
    requires
        same_files(a, b),
        files_named(a),
    ensures
        files_named(b),
{
    assert forall|f: int| #![trigger b[f]] 0 <= f < b.len() implies path_named(
        stored_path(b[f]),
    ) by {
        let i = choose|i: int| 0 <= i < a.len() && a[i] == b[f];
        assert(path_named(stored_path(a[i])));
    }
}

/// What an image holds fits its tables.
proof fn lemma_plan_fits(q: ImageRequest)
    requires
        files_apart(q.files),
        image_plan(q) is Ok,
        image_nodes(q.files)->Ok_0.len() <= usize::MAX,
        0 <= q.extra_inodes,
        0 <= q.extra_entries,
    ensures
        plan_fits(image_plan(q)->Ok_0),
{
    let n = image_nodes(q.files)->Ok_0;
    let plan = image_plan(q)->Ok_0;
    let order = walk_order(n, 0);
    lemma_image_nodes_ok(q.files);
    lemma_order_names_all(n);
    lemma_image_named(q.files);
    assert(parents_first(n)) by {
        reveal(holds_its_own);
    }
    lemma_entries_named(n, order, order.len() as int);
    assert forall|k: int| #![trigger plan.entries[k]] 0 <= k < plan.entries.len() implies
        encode_utf8(plan.entries[k].name).len() <= DIRENT_NAME_MAX by {
        assert(name_ok(entries_upto(n, order, order.len() as int)[k].name));
    }
}

} // verus!
