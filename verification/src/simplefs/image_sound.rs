//! The tree of a new image is sound.
use vstd::prelude::*;

use crate::error::Error;
use crate::simplefs::encode::{all_as_stored, as_stored};
use crate::simplefs::image::{all_named, lemma_blocks_grow};
use crate::simplefs::image_build::{blocks_upto, child_entries, entries_upto, image_inode, image_inodes, node_blocks, place_of};
use crate::simplefs::image_nodes::NodeView;
use crate::simplefs::image_places::{lemma_child_held, lemma_held_child, lemma_place_back, lemma_place_of, names_all};
use crate::simplefs::image_tree::{all_held, held, holder, holds_its_own, nodes_ok, proper, well_named};
use crate::simplefs::lookup::{entry_matches, lookup};
use crate::simplefs::mount::{lemma_sole_cover, lemma_sole_ref};
use crate::simplefs::names::{base_text, name_ok, parent_text, same_name};
use crate::simplefs::path_laws::{lemma_lookup_parent, lemma_walk_one};
use crate::simplefs::reach::{all_reached, leads_to, lemma_reached_step, reached, reached_within};
use crate::simplefs::state::TreeView;
use crate::simplefs::tree_laws::lemma_unique_match;
use crate::simplefs::types::SimpleFsFormatVersion;
use crate::simplefs::validate::{cover_count, covers, dirs_ok, entry_ok, extent_end, extent_ok, extents_apart, live_dir, metadata_valid, ref_count, slice_end, slice_names_distinct};
use crate::vfs::NodeKind;

verus! {

/// The tree that an image is made of.
pub open spec fn image_tree_ok(nodes: Seq<NodeView>, order: Seq<int>) -> bool {
    &&& nodes_ok(nodes)
    &&& all_named(nodes)
    &&& names_all(nodes, order)
    &&& nodes.len() <= u32::MAX
    &&& order.len() <= u32::MAX
    &&& entries_upto(nodes, order, order.len() as int).len() <= u32::MAX
    &&& only_dirs_hold(nodes)
}

/// Whether only directories hold others, and all the rest are files whose size fits.
pub open spec fn only_dirs_hold(nodes: Seq<NodeView>) -> bool {
    forall|p: int|
        #![trigger nodes[p]]
        0 <= p < nodes.len() ==> nodes[p].kind == NodeKind::Directory || (nodes[p].kind
            == NodeKind::File && nodes[p].children.len() == 0)
}

/// Whether no two nodes of one directory go by the same name.
pub open spec fn siblings_apart(nodes: Seq<NodeView>, case_sensitive: bool) -> bool {
    forall|p: int, a: int, b: int|
        #![trigger nodes[p].children[a], nodes[p].children[b]]
        0 <= p < nodes.len() && 0 <= a < b < nodes[p].children.len() ==> !same_name(
            nodes[nodes[p].children[a] as int].name,
            nodes[nodes[p].children[b] as int].name,
            case_sensitive,
        )
}

/// Where the entries of the `k`-th node start.
pub open spec fn entries_before(nodes: Seq<NodeView>, order: Seq<int>, k: int) -> int {
    entries_upto(nodes, order, k).len() as int
}

proof fn lemma_entries_grow(nodes: Seq<NodeView>, order: Seq<int>, k: int, m: int)
    requires
        0 <= k <= m,
    ensures
        entries_before(nodes, order, k) <= entries_before(nodes, order, m),
        forall|d: int|
            #![trigger entries_upto(nodes, order, m)[d]]
            0 <= d < entries_before(nodes, order, k) ==> entries_upto(nodes, order, m)[d]
                == entries_upto(nodes, order, k)[d],
    decreases m,
{
    if k < m {
        lemma_entries_grow(nodes, order, k, m - 1);
        let a = entries_upto(nodes, order, m - 1);
        assert forall|d: int|
            #![trigger entries_upto(nodes, order, m)[d]]
            0 <= d < entries_before(nodes, order, k) implies entries_upto(nodes, order, m)[d]
            == entries_upto(nodes, order, k)[d] by {
            assert(entries_upto(nodes, order, m)[d] == a[d]);
        }
    }
}

/// The entries of the `k`-th node lie together, from where they start.
proof fn lemma_entries_at(nodes: Seq<NodeView>, order: Seq<int>, k: int, j: int)
    requires
        0 <= k < order.len(),
        0 <= j < child_entries(nodes, order, order[k]).len(),
    ensures
        ({
            let all = entries_upto(nodes, order, order.len() as int);
            let d = entries_before(nodes, order, k) + j;
            &&& 0 <= d < all.len()
            &&& all[d] == child_entries(nodes, order, order[k])[j]
            &&& d < entries_before(nodes, order, k + 1)
        }),
{
    let d = entries_before(nodes, order, k) + j;
    lemma_entries_grow(nodes, order, k + 1, order.len() as int);
    assert(entries_upto(nodes, order, k + 1) == entries_upto(nodes, order, k) + child_entries(
        nodes,
        order,
        order[k],
    ));
    assert(entries_upto(nodes, order, order.len() as int)[d] == entries_upto(
        nodes,
        order,
        k + 1,
    )[d]);
}

/// The node whose entry an entry is.
proof fn lemma_entry_home(nodes: Seq<NodeView>, order: Seq<int>, m: int, d: int) -> (k: int)
    requires
        0 <= d < entries_before(nodes, order, m),
        0 <= m,
    ensures
        0 <= k < m,
        entries_before(nodes, order, k) <= d < entries_before(nodes, order, k + 1),
    decreases m,
{
    if m > 0 && d < entries_before(nodes, order, m - 1) {
        lemma_entry_home(nodes, order, m - 1, d)
    } else {
        m - 1
    }
}

/// An entry of an image: the directory it lies in, and its number there.
proof fn lemma_entry_of(nodes: Seq<NodeView>, order: Seq<int>, d: int) -> (r: (int, int))
    requires
        image_tree_ok(nodes, order),
        0 <= d < entries_before(nodes, order, order.len() as int),
    ensures
        ({
            let (k, j) = r;
            let p = order[k];
            let c = nodes[p].children[j] as int;
            let e = entries_upto(nodes, order, order.len() as int)[d];
            &&& 0 <= k < order.len()
            &&& 0 <= p < nodes.len()
            &&& nodes[p].kind == NodeKind::Directory
            &&& 0 <= j < nodes[p].children.len()
            &&& d == entries_before(nodes, order, k) + j
            &&& p < c < nodes.len()
            &&& holder(nodes, c) == p
            &&& e.inode_index == place_of(order, c)
            &&& e.kind == nodes[c].kind
            &&& e.name == nodes[c].name
        }),
{
    let k = lemma_entry_home(nodes, order, order.len() as int, d);
    let p = order[k];
    assert(0 <= p < nodes.len());
    let list = child_entries(nodes, order, p);
    assert(entries_upto(nodes, order, k + 1) == entries_upto(nodes, order, k) + list);
    let j = d - entries_before(nodes, order, k);
    lemma_entries_at(nodes, order, k, j);
    lemma_child_held(nodes, p, j);
    lemma_place_of(nodes, order, nodes[p].children[j] as int);
    (k, j)
}

/// The entry that names a node.
proof fn lemma_entry_for(nodes: Seq<NodeView>, order: Seq<int>, c: int) -> (d: int)
    requires
        image_tree_ok(nodes, order),
        1 <= c < nodes.len(),
    ensures
        ({
            let p = holder(nodes, c);
            let k = place_of(order, p);
            let e = entries_upto(nodes, order, order.len() as int)[d];
            &&& 0 <= p < c
            &&& 0 <= k < order.len()
            &&& nodes[p].kind == NodeKind::Directory
            &&& entries_before(nodes, order, k) <= d < entries_before(nodes, order, k)
                + nodes[p].children.len()
            &&& 0 <= d < entries_before(nodes, order, order.len() as int)
            &&& e.inode_index == place_of(order, c)
            &&& e.kind == nodes[c].kind
            &&& e.name == nodes[c].name
        }),
{
    lemma_held_child(nodes, c);
    let p = holder(nodes, c);
    let j = choose|j: int|
        #![trigger nodes[p].children[j]]
        0 <= j < nodes[p].children.len() && nodes[p].children[j] == c;
    lemma_place_of(nodes, order, p);
    lemma_place_of(nodes, order, c);
    let k = place_of(order, p);
    assert(nodes[p].kind == NodeKind::Directory);
    lemma_entries_at(nodes, order, k, j);
    entries_before(nodes, order, k) + j
}

/// Two entries that name one node are the same.
proof fn lemma_named_once(nodes: Seq<NodeView>, order: Seq<int>, d: int, e: int)
    requires
        image_tree_ok(nodes, order),
        0 <= d < entries_before(nodes, order, order.len() as int),
        0 <= e < entries_before(nodes, order, order.len() as int),
        entries_upto(nodes, order, order.len() as int)[d].inode_index == entries_upto(
            nodes,
            order,
            order.len() as int,
        )[e].inode_index,
    ensures
        d == e,
{
    let (k, j) = lemma_entry_of(nodes, order, d);
    let (m, i) = lemma_entry_of(nodes, order, e);
    let c = nodes[order[k]].children[j] as int;
    let x = nodes[order[m]].children[i] as int;
    lemma_place_of(nodes, order, c);
    lemma_place_of(nodes, order, x);
    assert(c == x);
    assert(order[k] == order[m]);
    assert(k == m);
    reveal(holds_its_own);
    assert(nodes[order[k]].children.no_duplicates());
}

proof fn lemma_image_dirs(nodes: Seq<NodeView>, order: Seq<int>, start: int, cs: bool)
    requires
        image_tree_ok(nodes, order),
        siblings_apart(nodes, cs),
    ensures
        dirs_ok(
            image_inodes(nodes, order, start),
            entries_upto(nodes, order, order.len() as int),
            cs,
        ),
{
    let inodes = image_inodes(nodes, order, start);
    let all = entries_upto(nodes, order, order.len() as int);
    assert forall|i: int|
        #![trigger inodes[i]]
        0 <= i < inodes.len() && inodes[i].kind == NodeKind::Directory implies {
        &&& slice_end(inodes[i]) <= all.len()
        &&& !inodes[i].deleted ==> slice_names_distinct(
            all,
            inodes[i].entry_start as int,
            slice_end(inodes[i]),
            cs,
        )
    } by {
        lemma_slice(nodes, order, start, i);
        let p = order[i];
        let from = entries_before(nodes, order, i);
        assert forall|a: int, b: int|
            #![trigger all[a], all[b]]
            from <= a < b < from + nodes[p].children.len() implies !same_name(
            all[a].name,
            all[b].name,
            cs,
        ) by {
            lemma_entries_at(nodes, order, i, a - from);
            lemma_entries_at(nodes, order, i, b - from);
            assert(!same_name(
                nodes[nodes[p].children[a - from] as int].name,
                nodes[nodes[p].children[b - from] as int].name,
                cs,
            ));
        }
    }
}

/// The slice of a directory of an image.
proof fn lemma_slice(nodes: Seq<NodeView>, order: Seq<int>, start: int, k: int)
    requires
        image_tree_ok(nodes, order),
        0 <= k < order.len(),
    ensures
        ({
            let inode = image_inode(nodes, order, k, start);
            let from = entries_before(nodes, order, k);
            let to = entries_before(nodes, order, k + 1);
            &&& 0 <= order[k] < nodes.len()
            &&& to <= entries_before(nodes, order, order.len() as int)
            &&& inode.kind == NodeKind::Directory ==> inode.entry_start == from && slice_end(inode)
                == to && to == from + nodes[order[k]].children.len()
        }),
{
    lemma_entries_grow(nodes, order, k, order.len() as int);
    lemma_entries_grow(nodes, order, k + 1, order.len() as int);
    assert(entries_upto(nodes, order, k + 1) == entries_upto(nodes, order, k) + child_entries(
        nodes,
        order,
        order[k],
    ));
}

proof fn lemma_image_covers(nodes: Seq<NodeView>, order: Seq<int>, start: int, d: int)
    requires
        image_tree_ok(nodes, order),
        0 <= d < entries_before(nodes, order, order.len() as int),
    ensures
        cover_count(image_inodes(nodes, order, start), d) == 1,
{
    let inodes = image_inodes(nodes, order, start);
    let (k, j) = lemma_entry_of(nodes, order, d);
    lemma_slice(nodes, order, start, k);
    assert forall|i: int|
        #![trigger inodes[i]]
        0 <= i < inodes.len() && i != k implies !covers(inodes[i], d) by {
        lemma_slice(nodes, order, start, i);
        if i < k {
            lemma_entries_grow(nodes, order, i + 1, k);
        } else {
            lemma_entries_grow(nodes, order, k + 1, i);
        }
    }
    assert(covers(inodes[k], d));
    lemma_sole_cover(inodes, d, k);
}

proof fn lemma_image_refs(nodes: Seq<NodeView>, order: Seq<int>, i: int)
    requires
        image_tree_ok(nodes, order),
        1 <= i < order.len(),
    ensures
        ref_count(entries_upto(nodes, order, order.len() as int), i) == 1,
{
    let all = entries_upto(nodes, order, order.len() as int);
    let c = order[i];
    lemma_place_back(nodes, order, i);
    lemma_place_of(nodes, order, c);
    let d = lemma_entry_for(nodes, order, c);
    assert forall|e: int| #![trigger all[e]] 0 <= e < all.len() && e != d implies all[e].inode_index
        != i by {
        if all[e].inode_index == i {
            lemma_named_once(nodes, order, d, e);
        }
    }
    lemma_sole_ref(all, i, d);
}

proof fn lemma_image_reached(nodes: Seq<NodeView>, order: Seq<int>, start: int, c: int)
    requires
        image_tree_ok(nodes, order),
        0 <= c < nodes.len(),
    ensures
        reached(
            image_inodes(nodes, order, start),
            entries_upto(nodes, order, order.len() as int),
            place_of(order, c),
        ),
    decreases c,
{
    let inodes = image_inodes(nodes, order, start);
    let all = entries_upto(nodes, order, order.len() as int);
    lemma_place_of(nodes, order, c);
    if c == 0 {
        assert(reached_within(inodes, all, 0, 0));
    } else {
        let d = lemma_entry_for(nodes, order, c);
        let p = holder(nodes, c);
        let k = place_of(order, p);
        lemma_place_of(nodes, order, p);
        lemma_slice(nodes, order, start, k);
        lemma_image_reached(nodes, order, start, p);
        assert(inodes[k] == image_inode(nodes, order, k, start));
        assert(leads_to(inodes, all, k, d, place_of(order, c)));
        lemma_reached_step(inodes, all, k, d, place_of(order, c));
    }
}

proof fn lemma_image_extents(nodes: Seq<NodeView>, order: Seq<int>, start: int, blocks: int, i: int)
    requires
        image_tree_ok(nodes, order),
        0 <= i < order.len(),
        0 <= start,
        start + blocks_upto(nodes, order, order.len() as int) <= blocks,
        start + blocks_upto(nodes, order, order.len() as int) <= u32::MAX,
        nodes[order[i]].data.len() <= u32::MAX,
    ensures
        extent_ok(image_inode(nodes, order, i, start), start, blocks),
        nodes[order[i]].kind != NodeKind::Directory ==> {
            let inode = image_inode(nodes, order, i, start);
            &&& inode.data_block == start + blocks_upto(nodes, order, i)
            &&& extent_end(inode) == start + blocks_upto(nodes, order, i + 1)
        },
{
    assert(0 <= order[i] < nodes.len());
    lemma_blocks_grow(nodes, order, i, order.len() as int);
    lemma_blocks_grow(nodes, order, i + 1, order.len() as int);
    assert(blocks_upto(nodes, order, i + 1) == blocks_upto(nodes, order, i) + node_blocks(
        nodes[order[i]],
    ));
    assert(nodes[order[i]].kind == NodeKind::Directory || nodes[order[i]].kind == NodeKind::File);
}

/// The tree of a new image can be mounted.
pub proof fn lemma_image_valid(
    nodes: Seq<NodeView>,
    order: Seq<int>,
    start: int,
    blocks: int,
    cs: bool,
)
    requires
        image_tree_ok(nodes, order),
        siblings_apart(nodes, cs),
        0 <= start,
        start + blocks_upto(nodes, order, order.len() as int) <= blocks,
        start + blocks_upto(nodes, order, order.len() as int) <= u32::MAX,
        forall|k: int|
            #![trigger order[k]]
            0 <= k < order.len() ==> nodes[order[k]].data.len() <= u32::MAX,
    ensures
        metadata_valid(
            image_inodes(nodes, order, start),
            entries_upto(nodes, order, order.len() as int),
            start,
            blocks,
            cs,
        ),
{
    let inodes = image_inodes(nodes, order, start);
    let all = entries_upto(nodes, order, order.len() as int);
    assert(live_dir(inodes[0])) by {
        reveal(well_named);
        assert(order[0] == 0);
    }
    lemma_image_dirs(nodes, order, start, cs);
    assert forall|i: int| #![trigger inodes[i]] 0 <= i < inodes.len() implies extent_ok(
        inodes[i],
        start,
        blocks,
    ) by {
        assert(nodes[order[i]].data.len() <= u32::MAX);
        lemma_image_extents(nodes, order, start, blocks, i);
    }
    assert forall|i: int, j: int|
        #![trigger inodes[i], inodes[j]]
        0 <= i < j < inodes.len() implies extents_apart(inodes[i], inodes[j]) by {
        assert(nodes[order[i]].data.len() <= u32::MAX);
        assert(nodes[order[j]].data.len() <= u32::MAX);
        lemma_image_extents(nodes, order, start, blocks, i);
        lemma_image_extents(nodes, order, start, blocks, j);
        lemma_blocks_grow(nodes, order, i + 1, j);
    }
    assert forall|d: int| #![trigger cover_count(inodes, d)] 0 <= d < all.len() implies cover_count(
        inodes,
        d,
    ) == 1 by {
        lemma_image_covers(nodes, order, start, d);
    }
    assert forall|d: int| #![trigger all[d]] 0 <= d < all.len() implies entry_ok(
        all[d],
        inodes,
    ) by {
        let (k, j) = lemma_entry_of(nodes, order, d);
        let c = nodes[order[k]].children[j] as int;
        lemma_place_of(nodes, order, c);
        assert(name_ok(nodes[c].name));
        assert(inodes[place_of(order, c)].kind == nodes[c].kind);
    }
    assert forall|i: int|
        #![trigger ref_count(all, i)]
        1 <= i < inodes.len() && !inodes[i].deleted implies ref_count(all, i) == 1 by {
        lemma_image_refs(nodes, order, i);
    }
    assert(all_reached(inodes, all)) by {
        reveal(all_reached);
        assert forall|i: int|
            #![trigger inodes[i]]
            0 <= i < inodes.len() && !inodes[i].deleted implies reached(inodes, all, i) by {
            lemma_place_back(nodes, order, i);
            lemma_image_reached(nodes, order, start, order[i]);
        }
    }
}

/// A tree with the inodes and entries of an image is searched like the image's nodes: the
/// path of a node leads to the node's place.
pub proof fn lemma_image_lookup(
    nodes: Seq<NodeView>,
    order: Seq<int>,
    start: int,
    t: TreeView,
    version: SimpleFsFormatVersion,
    cs: bool,
    c: int,
)
    requires
        image_tree_ok(nodes, order),
        siblings_apart(nodes, cs),
        t.inodes == all_as_stored(image_inodes(nodes, order, start), version),
        t.entries == entries_upto(nodes, order, order.len() as int),
        0 <= c < nodes.len(),
    ensures
        lookup(t, nodes[c].path, cs) == Ok::<int, Error>(place_of(order, c)),
    decreases c,
{
    reveal(well_named);
    lemma_place_of(nodes, order, c);
    if c > 0 {
        let path = nodes[c].path;
        let d = lemma_entry_for(nodes, order, c);
        let p = holder(nodes, c);
        let k = place_of(order, p);
        lemma_place_of(nodes, order, p);
        lemma_slice(nodes, order, start, k);
        lemma_image_lookup(nodes, order, start, t, version, cs, p);
        assert(proper(path));
        assert(nodes[p].path == parent_text(path)->0) by {
            reveal(all_held);
            assert(held(nodes, c));
        }
        lemma_lookup_parent(t, path, cs);
        lemma_walk_one(t, base_text(path), k, cs);
        let inodes = image_inodes(nodes, order, start);
        lemma_image_dirs(nodes, order, start, cs);
        assert(inodes[k].kind == NodeKind::Directory);
        assert(t.inodes[k] == as_stored(inodes[k], version));
        assert(entry_matches(t.inodes, t.entries[d], base_text(path), cs));
        lemma_unique_match(
            t,
            t.inodes[k].entry_start as int,
            slice_end(t.inodes[k]),
            base_text(path),
            cs,
            d,
        );
    }
}

} // verus!
