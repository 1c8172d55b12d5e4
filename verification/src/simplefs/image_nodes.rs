//! From a flat list of files to a tree in table order.
use vstd::prelude::*;
use vstd::string::*;

use crate::error::{Error, Result};
use crate::order::{comes_before, text_before};
use crate::simplefs::names::{ancestors, base_name, base_text, image_path, lemma_parent_is_higher, name_ok, parent_path, parent_text, path_height, root_path, validate_dir_entry_name};
use crate::text::str_eq;
use crate::vfs::NodeKind;

verus! {

/// One file of an image that is built.
#[derive(Clone, Copy)]
pub struct ImageEntry<'a> {
    pub path: &'a str,
    pub data: &'a [u8],
}

/// A path and what is stored under it.
pub struct ImageEntryView {
    pub path: Seq<char>,
    pub data: Seq<u8>,
}

/// Image entries as paths and contents.
pub open spec fn image_entry_views(files: Seq<ImageEntry>) -> Seq<ImageEntryView> {
    Seq::new(files.len(), |i: int| ImageEntryView { path: files[i].path@, data: files[i].data@ })
}

/// A node of an image that is built.
pub struct BuilderNode<'a> {
    pub path: String,
    pub name: String,
    pub kind: NodeKind,
    pub data: &'a [u8],
    pub children: Vec<usize>,
}

/// What a node of an image stands for.
pub struct NodeView {
    pub path: Seq<char>,
    pub name: Seq<char>,
    pub kind: NodeKind,
    pub data: Seq<u8>,
    pub children: Seq<usize>,
}

impl View for BuilderNode<'_> {
    type V = NodeView;

    open spec fn view(&self) -> NodeView {
        NodeView {
            path: self.path@,
            name: self.name@,
            kind: self.kind,
            data: self.data@,
            children: self.children@,
        }
    }
}

/// What a list of nodes stands for.
pub open spec fn node_views(v: Seq<BuilderNode>) -> Seq<NodeView> {
    Seq::new(v.len(), |i: int| v[i]@)
}

/// The first node under a path.
pub open spec fn find_node(nodes: Seq<NodeView>, path: Seq<char>, from: int) -> Option<int>
    decreases nodes.len() - from,
{
    if from >= nodes.len() {
        None
    } else if nodes[from].path == path {
        Some(from)
    } else {
        find_node(nodes, path, from + 1)
    }
}

/// The root directory that every image starts from.
pub open spec fn root_node() -> NodeView {
    NodeView {
        path: root_path(),
        name: root_path(),
        kind: NodeKind::Directory,
        data: Seq::empty(),
        children: Seq::empty(),
    }
}

/// The nodes once there is one under `path`: one that is there already stays as it
/// is, and a new one becomes the last child of the directory it lies in.
pub open spec fn with_node(
    nodes: Seq<NodeView>,
    path: Seq<char>,
    kind: NodeKind,
    data: Seq<u8>,
) -> core::result::Result<Seq<NodeView>, Error> {
    if find_node(nodes, path, 0) is Some {
        Ok(nodes)
    } else if !name_ok(base_text(path)) {
        Err(Error::InvalidArgument)
    } else {
        let added = nodes.push(
            NodeView {
                path,
                name: base_text(path),
                kind,
                data,
                children: Seq::empty(),
            },
        );
        match parent_text(path) {
            None => Ok(added),
            Some(p) => match find_node(nodes, p, 0) {
                None => Err(Error::InternalError),
                Some(i) => Ok(
                    added.update(
                        i,
                        NodeView {
                            children: nodes[i].children.push(nodes.len() as usize),
                            ..nodes[i]
                        },
                    ),
                ),
            },
        }
    }
}

/// The nodes once there are directories under all of `paths`.
pub open spec fn with_dirs(nodes: Seq<NodeView>, paths: Seq<Seq<char>>) -> core::result::Result<
    Seq<NodeView>,
    Error,
>
    decreases paths.len(),
{
    if paths.len() == 0 {
        Ok(nodes)
    } else {
        match with_dirs(nodes, paths.drop_last()) {
            Err(e) => Err(e),
            Ok(n) => with_node(n, paths.last(), NodeKind::Directory, Seq::empty()),
        }
    }
}

/// The nodes once a file was added, with the directories above it.
pub open spec fn with_file(nodes: Seq<NodeView>, entry: ImageEntryView) -> core::result::Result<
    Seq<NodeView>,
    Error,
> {
    match image_path(entry.path) {
        Err(e) => Err(e),
        Ok(path) => match with_dirs(nodes, ancestors(path)) {
            Err(e) => Err(e),
            Ok(n) => with_node(n, path, NodeKind::File, entry.data),
        },
    }
}

/// The nodes of an image, children in the order they were added.
pub open spec fn unsorted_nodes(files: Seq<ImageEntryView>) -> core::result::Result<
    Seq<NodeView>,
    Error,
>
    decreases files.len(),
{
    if files.len() == 0 {
        Ok(seq![root_node()])
    } else {
        match unsorted_nodes(files.drop_last()) {
            Err(e) => Err(e),
            Ok(n) => with_file(n, files.last()),
        }
    }
}

/// Whether node `a` comes before node `b` in a directory: by name, then by number.
pub open spec fn node_before(nodes: Seq<NodeView>, a: usize, b: usize) -> bool {
    let x = nodes[a as int].name;
    let y = nodes[b as int].name;
    text_before(x, y) || (x == y && a < b)
}

/// A sorted list of nodes with one more in its place.
pub open spec fn inserted(nodes: Seq<NodeView>, s: Seq<usize>, x: usize) -> Seq<usize>
    decreases s.len(),
{
    if s.len() == 0 || node_before(nodes, s.last(), x) {
        s.push(x)
    } else {
        inserted(nodes, s.drop_last(), x).push(s.last())
    }
}

/// The nodes of a list in order.
pub open spec fn sorted(nodes: Seq<NodeView>, s: Seq<usize>) -> Seq<usize>
    decreases s.len(),
{
    if s.len() == 0 {
        Seq::empty()
    } else {
        inserted(nodes, sorted(nodes, s.drop_last()), s.last())
    }
}

/// The nodes with every directory's children in order.
pub open spec fn with_sorted_children(nodes: Seq<NodeView>) -> Seq<NodeView> {
    Seq::new(
        nodes.len(),
        |i: int| NodeView { children: sorted(nodes, nodes[i].children), ..nodes[i] },
    )
}

/// The nodes of an image.
pub open spec fn image_nodes(files: Seq<ImageEntryView>) -> core::result::Result<
    Seq<NodeView>,
    Error,
> {
    match unsorted_nodes(files) {
        Err(e) => Err(e),
        Ok(n) => Ok(with_sorted_children(n)),
    }
}

/// Whether every node's children come after it.
pub open spec fn parents_first(nodes: Seq<NodeView>) -> bool {
    forall|i: int, k: int|
        #![trigger nodes[i].children[k]]
        0 <= i < nodes.len() && 0 <= k < nodes[i].children.len() ==> i < nodes[i].children[k]
            < nodes.len()
}

/// Whether the first node is the root.
pub open spec fn rooted(nodes: Seq<NodeView>) -> bool {
    nodes.len() > 0 && nodes[0].path == root_path()
}

pub proof fn lemma_find_node(nodes: Seq<NodeView>, path: Seq<char>, from: int)
    requires
        0 <= from,
    ensures
        match find_node(nodes, path, from) {
            Some(i) => from <= i < nodes.len() && nodes[i].path == path,
            None => forall|i: int| from <= i < nodes.len() ==> nodes[i].path != path,
        },
    decreases nodes.len() - from,
{
    if from < nodes.len() && nodes[from].path != path {
        lemma_find_node(nodes, path, from + 1);
    }
}

fn find_index(nodes: &Vec<BuilderNode>, path: &str) -> (r: Option<usize>)
    ensures
        match r {
            Some(i) => find_node(node_views(nodes@), path@, 0) == Some(i as int) && i
                < nodes@.len(),
            None => find_node(node_views(nodes@), path@, 0) is None,
        },
{
    let ghost views = node_views(nodes@);
    let mut k: usize = 0;
    while k < nodes.len()
        invariant
            k <= nodes@.len(),
            views == node_views(nodes@),
            find_node(views, path@, 0) == find_node(views, path@, k as int),
        decreases nodes@.len() - k,
    {
        assert(views[k as int] == nodes@[k as int]@);
        if str_eq(nodes[k].path.as_str(), path) {
            return Some(k);
        }
        k = k + 1;
    }
    None
}

/// Adds a node unless there is one under that path, as the last child of the directory
/// it lies in.
pub fn ensure_node<'a>(
    nodes: &mut Vec<BuilderNode<'a>>,
    path: &str,
    kind: NodeKind,
    data: &'a [u8],
) -> (r: Result<()>)
    requires
        parents_first(node_views(old(nodes)@)),
    ensures
        match with_node(node_views(old(nodes)@), path@, kind, data@) {
            Ok(n) => r is Ok && node_views(final(nodes)@) == n && parents_first(n) && n.len()
                >= old(nodes)@.len(),
            Err(e) => r == Err::<(), Error>(e),
        },
{
    let ghost before = node_views(nodes@);
    if find_index(nodes, path).is_some() {
        return Ok(());
    }
    let name = base_name(path);
    validate_dir_entry_name(name)?;
    let index: usize = nodes.len();
    let parent = match parent_path(path) {
        None => {
            nodes.push(
                BuilderNode {
                    path: path.to_owned(),
                    name: name.to_owned(),
                    kind,
                    data,
                    children: Vec::new(),
                },
            );
            proof {
                let n = with_node(before, path@, kind, data@)->Ok_0;
                assert(node_views(nodes@) =~= n);
                assert forall|i: int, k: int|
                    #![trigger n[i].children[k]]
                    0 <= i < n.len() && 0 <= k < n[i].children.len() implies i < n[i].children[k]
                    < n.len() by {
                    assert(n[i] == before[i]);
                    assert(i < before[i].children[k] < before.len());
                }
            }
            return Ok(());
        },
        Some(p) => p,
    };
    let parent_index = match find_index(nodes, parent.as_str()) {
        None => {
            return Err(Error::InternalError);
        },
        Some(i) => i,
    };
    nodes.push(
        BuilderNode {
            path: path.to_owned(),
            name: name.to_owned(),
            kind,
            data,
            children: Vec::new(),
        },
    );
    nodes[parent_index].children.push(index);
    proof {
        let n = with_node(before, path@, kind, data@)->Ok_0;
        assert(node_views(nodes@) =~= n) by {
            assert forall|i: int| 0 <= i < nodes@.len() implies #[trigger] nodes@[i]@ == n[i] by {
                if i == parent_index {
                    assert(nodes@[i]@.children =~= before[i].children.push(index));
                }
            }
        }
        assert forall|i: int, k: int|
            #![trigger n[i].children[k]]
            0 <= i < n.len() && 0 <= k < n[i].children.len() implies i < n[i].children[k]
            < n.len() by {
            if i < before.len() && k < before[i].children.len() {
                assert(i < before[i].children[k] < before.len());
            }
        }
    }
    Ok(())
}

/// A node that was there or was just added is found.
proof fn lemma_with_node_found(
    nodes: Seq<NodeView>,
    path: Seq<char>,
    kind: NodeKind,
    data: Seq<u8>,
    other: Seq<char>,
)
    requires
        with_node(nodes, path, kind, data) is Ok,
        other == path || find_node(nodes, other, 0) is Some,
    ensures
        find_node(with_node(nodes, path, kind, data)->Ok_0, other, 0) is Some,
        rooted(nodes) ==> rooted(with_node(nodes, path, kind, data)->Ok_0),
{
    let n = with_node(nodes, path, kind, data)->Ok_0;
    lemma_find_node(nodes, path, 0);
    lemma_find_node(nodes, other, 0);
    lemma_find_node(n, other, 0);
    if parent_text(path) is Some {
        lemma_find_node(nodes, parent_text(path)->0, 0);
    }
    if find_node(nodes, path, 0) is None {
        assert(n.len() == nodes.len() + 1);
        assert forall|i: int| 0 <= i < nodes.len() implies #[trigger] n[i].path == nodes[i].path by {}
        assert(n[nodes.len() as int].path == path);
        if other != path {
            let i = find_node(nodes, other, 0)->0;
            assert(n[i].path == other);
        }
        if rooted(nodes) {
            assert(n[0].path == nodes[0].path);
        }
    }
}

/// Once the directories above a path are there, so is the one it lies in; where they
/// cannot be made, it is for a name no entry can carry.
pub proof fn lemma_with_ancestors(nodes: Seq<NodeView>, path: Seq<char>)
    requires
        rooted(nodes),
    ensures
        match with_dirs(nodes, ancestors(path)) {
            Ok(n) => rooted(n) && (parent_text(path) matches Some(p) ==> find_node(n, p, 0)
                is Some),
            Err(e) => e == Error::InvalidArgument,
        },
    decreases path_height(path),
{
    lemma_parent_is_higher(path);
    match parent_text(path) {
        None => {},
        Some(p) => {
            lemma_with_ancestors(nodes, p);
            let a = ancestors(path);
            assert(a.drop_last() =~= ancestors(p));
            assert(a.last() == p);
            match with_dirs(nodes, ancestors(p)) {
                Ok(n) => {
                    if p == root_path() {
                        lemma_find_node(n, p, 0);
                        assert(n[0].path == p);
                    }
                    if with_node(n, p, NodeKind::Directory, Seq::empty()) is Ok {
                        lemma_with_node_found(n, p, NodeKind::Directory, Seq::empty(), p);
                    }
                },
                Err(_) => {},
            }
        },
    }
}

/// The nodes of an image are only ever refused for a path they cannot hold.
pub proof fn law_image_nodes_refused_for_paths(files: Seq<ImageEntryView>)
    ensures
        match unsorted_nodes(files) {
            Ok(n) => rooted(n),
            Err(e) => e == Error::InvalidArgument,
        },
    decreases files.len(),
{
    if files.len() > 0 {
        law_image_nodes_refused_for_paths(files.drop_last());
        match unsorted_nodes(files.drop_last()) {
            Err(_) => {},
            Ok(n) => match image_path(files.last().path) {
                Err(_) => {},
                Ok(path) => {
                    lemma_with_ancestors(n, path);
                    match with_dirs(n, ancestors(path)) {
                        Err(_) => {},
                        Ok(m) => {
                            if path == root_path() {
                                lemma_find_node(m, path, 0);
                                assert(m[0].path == path);
                            }
                            if with_node(m, path, NodeKind::File, files.last().data) is Ok {
                                lemma_with_node_found(
                                    m,
                                    path,
                                    NodeKind::File,
                                    files.last().data,
                                    path,
                                );
                            }
                        },
                    }
                },
            },
        }
    }
}

/// Whether a node comes before another in a directory.
fn is_before(names: &Vec<Vec<char>>, Ghost(nodes): Ghost<Seq<NodeView>>, a: usize, b: usize) -> (r:
    bool)
    requires
        names@.len() == nodes.len(),
        forall|i: int| #![trigger names@[i]] 0 <= i < names@.len() ==> names@[i]@ == nodes[i].name,
        a < nodes.len(),
        b < nodes.len(),
    ensures
        r == node_before(nodes, a, b),
{
    if comes_before(&names[a], &names[b]) {
        return true;
    }
    if a >= b {
        return false;
    }
    let x = &names[a];
    let y = &names[b];
    assert(x@ == nodes[a as int].name && y@ == nodes[b as int].name);
    if x.len() != y.len() {
        return false;
    }
    let mut k: usize = 0;
    while k < x.len()
        invariant
            k <= x@.len(),
            x@.len() == y@.len(),
            x@ == nodes[a as int].name,
            y@ == nodes[b as int].name,
            !text_before(x@, y@),
            forall|j: int| 0 <= j < k ==> x@[j] == y@[j],
        decreases x@.len() - k,
    {
        if x[k] != y[k] {
            assert(x@[k as int] != y@[k as int]);
            return false;
        }
        k = k + 1;
    }
    assert(x@ =~= y@);
    true
}

/// Puts a node into its place in a sorted list.
fn insert_in_order(
    names: &Vec<Vec<char>>,
    Ghost(nodes): Ghost<Seq<NodeView>>,
    list: &mut Vec<usize>,
    x: usize,
)
    requires
        names@.len() == nodes.len(),
        forall|i: int| #![trigger names@[i]] 0 <= i < names@.len() ==> names@[i]@ == nodes[i].name,
        x < nodes.len(),
        forall|k: int| 0 <= k < old(list)@.len() ==> old(list)@[k] < nodes.len(),
    ensures
        final(list)@ == inserted(nodes, old(list)@, x),
        forall|k: int| 0 <= k < final(list)@.len() ==> final(list)@[k] < nodes.len(),
{
    let ghost all = list@;
    let mut at: usize = list.len();
    assert(all.take(at as int) =~= all);
    assert(inserted(nodes, all, x) =~= inserted(nodes, all.take(at as int), x) + all.skip(at as int));
    while at > 0 && !is_before(names, Ghost(nodes), list[at - 1], x)
        invariant
            at <= list@.len(),
            list@ == all,
            names@.len() == nodes.len(),
            forall|i: int|
                #![trigger names@[i]]
                0 <= i < names@.len() ==> names@[i]@ == nodes[i].name,
            x < nodes.len(),
            forall|k: int| 0 <= k < all.len() ==> all[k] < nodes.len(),
            inserted(nodes, all, x) == inserted(nodes, all.take(at as int), x) + all.skip(
                at as int,
            ),
        decreases at,
    {
        proof {
            let t = all.take(at as int);
            assert(t.drop_last() =~= all.take(at - 1));
            assert(inserted(nodes, t, x) == inserted(nodes, all.take(at - 1), x).push(t.last()));
            assert(inserted(nodes, all.take(at - 1), x).push(t.last()) + all.skip(at as int)
                =~= inserted(nodes, all.take(at - 1), x) + all.skip(at - 1));
        }
        at = at - 1;
    }
    assert(inserted(nodes, all.take(at as int), x) =~= all.take(at as int).push(x));
    list.insert(at, x);
    assert(list@ =~= inserted(nodes, all, x));
}

/// The nodes of a list in order.
pub fn sort_children(
    names: &Vec<Vec<char>>,
    Ghost(nodes): Ghost<Seq<NodeView>>,
    list: &Vec<usize>,
) -> (r: Vec<usize>)
    requires
        names@.len() == nodes.len(),
        forall|i: int| #![trigger names@[i]] 0 <= i < names@.len() ==> names@[i]@ == nodes[i].name,
        forall|k: int| 0 <= k < list@.len() ==> list@[k] < nodes.len(),
    ensures
        r@ == sorted(nodes, list@),
{
    let mut out: Vec<usize> = Vec::new();
    let mut k: usize = 0;
    while k < list.len()
        invariant
            k <= list@.len(),
            names@.len() == nodes.len(),
            forall|i: int|
                #![trigger names@[i]]
                0 <= i < names@.len() ==> names@[i]@ == nodes[i].name,
            forall|j: int| 0 <= j < list@.len() ==> list@[j] < nodes.len(),
            forall|j: int| 0 <= j < out@.len() ==> out@[j] < nodes.len(),
            out@ == sorted(nodes, list@.take(k as int)),
        decreases list@.len() - k,
    {
        assert(list@.take(k + 1).drop_last() =~= list@.take(k as int));
        insert_in_order(names, Ghost(nodes), &mut out, list[k]);
        k = k + 1;
    }
    assert(list@.take(k as int) =~= list@);
    out
}

/// A sorted list holds the nodes of the list it was made from.
pub proof fn lemma_sorted_members(nodes: Seq<NodeView>, s: Seq<usize>)
    ensures
        sorted(nodes, s).to_multiset() == s.to_multiset(),
        sorted(nodes, s).len() == s.len(),
    decreases s.len(),
{
    if s.len() > 0 {
        lemma_sorted_members(nodes, s.drop_last());
        lemma_inserted_members(nodes, sorted(nodes, s.drop_last()), s.last());
        assert(s =~= s.drop_last().push(s.last()));
        s.drop_last().to_multiset_ensures();
    } else {
        assert(sorted(nodes, s) =~= s);
    }
}

proof fn lemma_inserted_members(nodes: Seq<NodeView>, s: Seq<usize>, x: usize)
    ensures
        inserted(nodes, s, x).to_multiset() == s.to_multiset().insert(x),
        inserted(nodes, s, x).len() == s.len() + 1,
    decreases s.len(),
{
    s.to_multiset_ensures();
    if !(s.len() == 0 || node_before(nodes, s.last(), x)) {
        let d = s.drop_last();
        lemma_inserted_members(nodes, d, x);
        inserted(nodes, d, x).to_multiset_ensures();
        d.to_multiset_ensures();
        assert(s =~= d.push(s.last()));
        assert(d.to_multiset().insert(x).insert(s.last()) =~= d.to_multiset().insert(
            s.last(),
        ).insert(x));
    }
}

} // verus!
