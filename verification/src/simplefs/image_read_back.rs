//! What a new image is mounted with is what went into it.
use vstd::prelude::*;
use vstd::utf8::*;

use crate::block::BlockDevice;
use crate::bytes::zeros;
use crate::error::Error;
use crate::simplefs::constants::{DIRENT_NAME_MAX, SUPERBLOCK_LABEL_LEN};
use crate::simplefs::encode::{all_as_stored, as_stored, names_fit};
use crate::simplefs::file_read::file_bytes;
use crate::simplefs::image::{lemma_blocks_grow, lemma_image_named};
use crate::simplefs::image_build::{ImageLayout, ImageRequest, blocks_upto, data_upto, entries_upto, holds_plan, image_inode, image_layout, image_plan, is_image, place_of};
use crate::simplefs::image_laws::{image_geometry, law_image_holds_contents, law_image_then_mount, layout_fits, lemma_data_len, lemma_image_parts, one_superblock_left};
use crate::simplefs::image_nodes::{ImageEntryView, NodeView, image_nodes, unsorted_nodes};
use crate::simplefs::image_order::walk_order;
use crate::simplefs::image_places::{lemma_order_names_all, lemma_place_back, lemma_place_of};
use crate::simplefs::image_sound::{image_tree_ok, lemma_image_lookup, lemma_image_valid, only_dirs_hold, siblings_apart};
use crate::simplefs::image_tree::{file_among, files_apart, lemma_found, lemma_names_differ, lemma_only_dirs_hold, lemma_sorted_ok, lemma_unsorted_ok, node_kind_ok, nodes_grow, nodes_of, nodes_ok, on_the_way, stored_path, well_named};
use crate::simplefs::lookup::lookup;
use crate::simplefs::mount_laws::tree_storable;
use crate::simplefs::names::{ancestors, root_path, same_name};
use crate::simplefs::open::{clamped, open_outcome};
use crate::simplefs::state::TreeView;
use crate::simplefs::tree::VolumeGeometry;
use crate::simplefs::types::SimpleFsFormatVersion;
use crate::simplefs::validate::entry_ok;
use crate::vfs::NodeKind;

verus! {

/// Whether a path leads to a file with these contents.
pub open spec fn reads_back(
    image: Seq<u8>,
    t: TreeView,
    path: Seq<char>,
    data: Seq<u8>,
    case_sensitive: bool,
) -> bool {
    lookup(t, path, case_sensitive) matches Ok(x) && {
        &&& 0 <= x < t.inodes.len()
        &&& t.inodes[x].kind == NodeKind::File
        &&& !t.inodes[x].deleted
        &&& t.inodes[x].size == data.len()
        &&& data.len() > 0 ==> file_bytes(image, t.inodes[x]) == data
    }
}

/// Whether a path leads to a directory above a file.
pub open spec fn above_some(path: Seq<char>, files: Seq<ImageEntryView>) -> bool {
    exists|f: int|
        #![trigger files[f]]
        0 <= f < files.len() && ancestors(stored_path(files[f])).contains(path)
}

/// Whether an inode is in use for one of the files, or for a directory on the way to one.
pub open spec fn accounted_for(
    t: TreeView,
    files: Seq<ImageEntryView>,
    case_sensitive: bool,
    x: int,
    path: Seq<char>,
) -> bool {
    &&& lookup(t, path, case_sensitive) == Ok::<int, Error>(x)
    &&& !t.inodes[x].deleted
    &&& if t.inodes[x].kind == NodeKind::Directory {
        path == root_path() || above_some(path, files)
    } else {
        t.inodes[x].kind == NodeKind::File && exists|f: int|
            #![trigger files[f]]
            0 <= f < files.len() && stored_path(files[f]) == path
    }
}

/// Whether an inode is found under some path, as a file or as a directory on the way to one.
pub open spec fn accounted(
    t: TreeView,
    files: Seq<ImageEntryView>,
    case_sensitive: bool,
    x: int,
) -> bool {
    exists|path: Seq<char>| accounted_for(t, files, case_sensitive, x, path)
}

/// Whether the numbers of nodes, inodes and entries of an image fit the superblock's fields.
pub open spec fn image_counts_fit(q: ImageRequest) -> bool {
    &&& image_nodes(q.files)->Ok_0.len() <= u32::MAX
    &&& image_plan(q)->Ok_0.inodes.len() <= u32::MAX
    &&& image_plan(q)->Ok_0.entries.len() <= u32::MAX
}

/// Whether no two files or directories of an image fall together where case is ignored.
pub open spec fn image_names_apart(q: ImageRequest, case_sensitive: bool) -> bool {
    case_sensitive || siblings_apart(image_nodes(q.files)->Ok_0, false)
}

/// The nodes of files that stand apart make up an image's tree.
proof fn lemma_request_tree(q: ImageRequest, case_sensitive: bool)
    requires
        files_apart(q.files),
        image_plan(q) is Ok,
        image_counts_fit(q),
        image_names_apart(q, case_sensitive),
    ensures
        ({
            let nodes = image_nodes(q.files)->Ok_0;
            &&& image_tree_ok(nodes, walk_order(nodes, 0))
            &&& nodes_of(nodes, q.files)
            &&& siblings_apart(nodes, case_sensitive)
        }),
{
    let u = unsorted_nodes(q.files)->Ok_0;
    let nodes = image_nodes(q.files)->Ok_0;
    lemma_unsorted_ok(q.files);
    lemma_sorted_ok(u);
    lemma_image_named(q.files);
    lemma_order_names_all(nodes);
    lemma_same_nodes(q.files, u, nodes);
    assert(only_dirs_hold(nodes)) by {
        assert forall|p: int| #![trigger nodes[p]] 0 <= p < nodes.len() implies nodes[p].kind
            == NodeKind::Directory || (nodes[p].kind == NodeKind::File && nodes[p].children.len()
            == 0) by {
            assert(node_kind_ok(nodes[p], q.files));
            if nodes[p].children.len() > 0 {
                lemma_only_dirs_hold(q.files, nodes, p);
            }
        }
    }
    if case_sensitive {
        assert forall|p: int, a: int, b: int|
            #![trigger nodes[p].children[a], nodes[p].children[b]]
            0 <= p < nodes.len() && 0 <= a < b < nodes[p].children.len() implies !same_name(
            nodes[nodes[p].children[a] as int].name,
            nodes[nodes[p].children[b] as int].name,
            true,
        ) by {
            lemma_names_differ(nodes, p, a, b);
        }
    }
}

pub proof fn lemma_same_nodes(files: Seq<ImageEntryView>, u: Seq<NodeView>, n: Seq<NodeView>)
    requires
        nodes_of(u, files),
        nodes_grow(u, n),
        n.len() == u.len(),
    ensures
        nodes_of(n, files),
{
    assert forall|i: int| #![trigger n[i]] 0 <= i < n.len() implies node_kind_ok(n[i], files) by {
        assert(node_kind_ok(u[i], files));
    }
    assert forall|i: int| #![trigger n[i]] 1 <= i < n.len() implies on_the_way(
        n[i].path,
        files,
    ) by {
        assert(on_the_way(u[i].path, files));
    }
    assert forall|f: int| #![trigger files[f]] 0 <= f < files.len() implies file_among(
        n,
        files[f],
    ) by {
        assert(file_among(u, files[f]));
        let i = choose|i: int|
            #![trigger u[i]]
            0 <= i < u.len() && u[i].kind == NodeKind::File && u[i].path == stored_path(files[f])
                && u[i].data == files[f].data;
        assert(n[i].path == u[i].path && n[i].kind == u[i].kind && n[i].data == u[i].data);
    }
}

/// The geometry that a mount gives a new image.
spec fn new_geometry(
    l: ImageLayout,
    version: SimpleFsFormatVersion,
    total: int,
    case_sensitive: bool,
) -> VolumeGeometry {
    VolumeGeometry {
        label: vstd::pervasive::arbitrary(),
        format_version: version,
        case_sensitive,
        inode_table_blocks: l.inode_blocks as u32,
        dirent_table_blocks: l.dirent_blocks as u32,
        xattr_table_blocks: l.xattr_blocks as u32,
        data_block_start: l.data_start as u32,
        block_limit: total as u64,
        inode_capacity: clamped(l.inode_blocks * 16) as u32,
        dirent_capacity: clamped(l.dirent_blocks * 8) as u32,
        xattr_capacity: clamped(l.xattr_blocks * 512 / 336) as u32,
    }
}

/// The layout of an image that can be built fits.
proof fn lemma_new_layout(
    l: ImageLayout,
    version: SimpleFsFormatVersion,
    inodes: int,
    entries: int,
    xattrs: int,
    total: int,
    case_sensitive: bool,
)
    requires
        l == image_layout(version, inodes, entries, xattrs),
        1 <= inodes,
        0 <= entries,
        0 <= xattrs,
        l.data_start <= total <= u32::MAX,
        total * 512 <= usize::MAX,
    ensures
        layout_fits(l, version, total),
        image_geometry(new_geometry(l, version, total, case_sensitive), l, version),
        inodes <= u32::MAX ==> inodes <= clamped(l.inode_blocks * 16),
        entries <= u32::MAX ==> entries <= clamped(l.dirent_blocks * 8),
{
    assert(l.inode_blocks * 512 >= inodes * 32);
    assert(l.dirent_blocks * 512 >= entries * 64);
}

/// An image that was built from files that stand apart is mounted with its tree.
#[verifier::spinoff_prover]
#[verifier::rlimit(40)]
proof fn lemma_built_image_mounts<D: BlockDevice>(
    device: D,
    whole: Seq<u8>,
    label: Seq<char>,
    q: ImageRequest,
    case_sensitive: bool,
)
    requires
        device.reliable(),
        0 <= q.extra_inodes,
        0 <= q.extra_entries,
        0 <= q.extra_xattrs,
        0 <= q.extra_blocks,
        files_apart(q.files),
        image_plan(q) is Ok,
        image_counts_fit(q),
        image_names_apart(q, case_sensitive),
        holds_plan(whole, label, q.version, image_plan(q)->Ok_0, q.extra_blocks),
        one_superblock_left(device, whole),
    ensures
        open_outcome(device, case_sensitive) is Ok,
        ({
            let plan = image_plan(q)->Ok_0;
            let v = open_outcome(device, case_sensitive)->Ok_0.0;
            &&& v.inodes == all_as_stored(plan.inodes, q.version)
            &&& v.entries == plan.entries
            &&& v.parsed.format_version == q.version
            &&& encode_utf8(label).len() <= SUPERBLOCK_LABEL_LEN && !encode_utf8(label).contains(
                0u8,
            ) ==> v.label == label
        }),
{
    let nodes = image_nodes(q.files)->Ok_0;
    let order = walk_order(nodes, 0);
    let plan = image_plan(q)->Ok_0;
    let l = plan.layout;
    let entries = entries_upto(nodes, order, order.len() as int);
    let total = l.data_start + blocks_upto(nodes, order, order.len() as int) + q.extra_blocks;
    lemma_request_tree(q, case_sensitive);
    lemma_plan_parts(q, whole, label);
    lemma_blocks_grow(nodes, order, 0, order.len() as int);
    lemma_new_layout(
        l,
        q.version,
        order.len() + q.extra_inodes,
        entries.len() + q.extra_entries,
        q.extra_xattrs,
        total,
        case_sensitive,
    );
    assert(order.len() <= clamped(l.inode_blocks * 16));
    assert(entries.len() <= clamped(l.dirent_blocks * 8));
    lemma_image_valid(nodes, order, l.data_start, total, case_sensitive);
    let g = new_geometry(l, q.version, total, case_sensitive);
    let stored = TreeView {
        inodes: plan.inodes,
        entries: plan.entries,
        xattrs: Seq::empty(),
        ..vstd::pervasive::arbitrary()
    };
    assert(names_fit(plan.entries)) by {
        assert forall|k: int| #![trigger plan.entries[k]] 0 <= k < plan.entries.len() implies
            encode_utf8(plan.entries[k].name).len() <= DIRENT_NAME_MAX by {
            assert(entry_ok(plan.entries[k], plan.inodes));
        }
    }
    assert(tree_storable(g, stored, total));
    law_image_then_mount(device, whole, label, q.version, plan, q.extra_blocks, g, stored);
}

/// Mounting an image that was built from files that stand apart finds every file under its
/// path, with its contents, and besides them only the directories on the way; also when one
/// of the superblocks was destroyed.
#[verifier::spinoff_prover]
#[verifier::rlimit(40)]
pub proof fn law_built_image_reads_back<D: BlockDevice>(
    device: D,
    whole: Seq<u8>,
    label: Seq<char>,
    q: ImageRequest,
    case_sensitive: bool,
    t: TreeView,
)
    requires
        device.reliable(),
        0 <= q.extra_inodes,
        0 <= q.extra_entries,
        0 <= q.extra_xattrs,
        0 <= q.extra_blocks,
        files_apart(q.files),
        image_plan(q) is Ok,
        image_counts_fit(q),
        image_names_apart(q, case_sensitive),
        holds_plan(whole, label, q.version, image_plan(q)->Ok_0, q.extra_blocks),
        one_superblock_left(device, whole),
    ensures
        open_outcome(device, case_sensitive) is Ok,
        ({
            let plan = image_plan(q)->Ok_0;
            let v = open_outcome(device, case_sensitive)->Ok_0.0;
            &&& v.inodes == all_as_stored(plan.inodes, q.version)
            &&& v.entries == plan.entries
            &&& v.parsed.format_version == q.version
            &&& encode_utf8(label).len() <= SUPERBLOCK_LABEL_LEN && !encode_utf8(label).contains(
                0u8,
            ) ==> v.label == label
            &&& t.inodes == v.inodes && t.entries == v.entries ==> forall|f: int|
                #![trigger q.files[f]]
                0 <= f < q.files.len() ==> reads_back(
                    device.image(),
                    t,
                    stored_path(q.files[f]),
                    q.files[f].data,
                    case_sensitive,
                )
            &&& t.inodes == v.inodes && t.entries == v.entries ==> forall|x: int|
                #![trigger accounted(t, q.files, case_sensitive, x)]
                0 <= x < t.inodes.len() ==> accounted(t, q.files, case_sensitive, x)
        }),
{
    lemma_built_image_mounts(device, whole, label, q, case_sensitive);
    lemma_request_tree(q, case_sensitive);
    lemma_plan_parts(q, whole, label);
    let v = open_outcome(device, case_sensitive)->Ok_0.0;
    if t.inodes == v.inodes && t.entries == v.entries {
        lemma_files_read(q, case_sensitive, t, device.image(), whole);
        lemma_all_accounted(q, case_sensitive, t);
    }
}

/// Every file of an image is found and read.
proof fn lemma_files_read(
    q: ImageRequest,
    case_sensitive: bool,
    t: TreeView,
    image: Seq<u8>,
    whole: Seq<u8>,
)
    requires
        image_plan(q) is Ok,
        0 <= q.extra_blocks,
        ({
            let nodes = image_nodes(q.files)->Ok_0;
            let order = walk_order(nodes, 0);
            let plan = image_plan(q)->Ok_0;
            let start = plan.layout.data_start;
            &&& image_tree_ok(nodes, order)
            &&& nodes_of(nodes, q.files)
            &&& siblings_apart(nodes, case_sensitive)
            &&& t.inodes == all_as_stored(plan.inodes, q.version)
            &&& t.entries == plan.entries
            &&& start >= 2
            &&& start * 512 + plan.data.len() <= whole.len()
            &&& whole.subrange(start * 512, start * 512 + plan.data.len()) == plan.data
        }),
        image.len() == whole.len(),
        forall|i: int| #![trigger image[i]] 1024 <= i < image.len() ==> image[i] == whole[i],
    ensures
        forall|f: int|
            #![trigger q.files[f]]
            0 <= f < q.files.len() ==> reads_back(
                image,
                t,
                stored_path(q.files[f]),
                q.files[f].data,
                case_sensitive,
            ),
{
    let nodes = image_nodes(q.files)->Ok_0;
    let order = walk_order(nodes, 0);
    let plan = image_plan(q)->Ok_0;
    let l = plan.layout;
    assert forall|f: int| #![trigger q.files[f]] 0 <= f < q.files.len() implies reads_back(
        image,
        t,
        stored_path(q.files[f]),
        q.files[f].data,
        case_sensitive,
    ) by {
        assert(file_among(nodes, q.files[f]));
        let c = choose|c: int|
            #![trigger nodes[c]]
            0 <= c < nodes.len() && nodes[c].kind == NodeKind::File && nodes[c].path
                == stored_path(q.files[f]) && nodes[c].data == q.files[f].data;
        lemma_image_lookup(nodes, order, l.data_start, t, q.version, case_sensitive, c);
        lemma_place_of(nodes, order, c);
        let k = place_of(order, c);
        assert(nodes[order[k]].data.len() <= u32::MAX);
        lemma_file_on_disk(nodes, order, l.data_start, k, image, whole, plan.data);
        assert(t.inodes[k] == as_stored(plan.inodes[k], q.version));
    }
}

/// Every inode of an image is in use for a file or for a directory on the way to one.
proof fn lemma_all_accounted(q: ImageRequest, case_sensitive: bool, t: TreeView)
    requires
        image_plan(q) is Ok,
        ({
            let nodes = image_nodes(q.files)->Ok_0;
            let plan = image_plan(q)->Ok_0;
            &&& image_tree_ok(nodes, walk_order(nodes, 0))
            &&& nodes_of(nodes, q.files)
            &&& siblings_apart(nodes, case_sensitive)
            &&& t.inodes == all_as_stored(plan.inodes, q.version)
            &&& t.entries == plan.entries
        }),
    ensures
        forall|x: int|
            #![trigger accounted(t, q.files, case_sensitive, x)]
            0 <= x < t.inodes.len() ==> accounted(t, q.files, case_sensitive, x),
{
    let nodes = image_nodes(q.files)->Ok_0;
    let order = walk_order(nodes, 0);
    let plan = image_plan(q)->Ok_0;
    assert forall|x: int|
        #![trigger accounted(t, q.files, case_sensitive, x)]
        0 <= x < t.inodes.len() implies accounted(
        t,
        q.files,
        case_sensitive,
        x,
    ) by {
        lemma_place_back(nodes, order, x);
        let c = order[x];
        lemma_image_lookup(
            nodes,
            order,
            plan.layout.data_start,
            t,
            q.version,
            case_sensitive,
            c,
        );
        assert(t.inodes[x] == as_stored(plan.inodes[x], q.version));
        lemma_node_accounted(q.files, nodes, c);
        assert(accounted_for(t, q.files, case_sensitive, x, nodes[c].path));
    }
}

/// A node of an image is one of the files, or a directory on the way to one.
proof fn lemma_node_accounted(files: Seq<ImageEntryView>, nodes: Seq<NodeView>, c: int)
    requires
        nodes_ok(nodes),
        nodes_of(nodes, files),
        0 <= c < nodes.len(),
    ensures
        if nodes[c].kind == NodeKind::Directory {
            nodes[c].path == root_path() || above_some(nodes[c].path, files)
        } else {
            nodes[c].kind == NodeKind::File && exists|f: int|
                #![trigger files[f]]
                0 <= f < files.len() && stored_path(files[f]) == nodes[c].path
        },
{
    reveal(well_named);
    assert(node_kind_ok(nodes[c], files));
    if nodes[c].kind == NodeKind::Directory && c > 0 {
        assert(on_the_way(nodes[c].path, files));
        let f = choose|f: int|
            #![trigger files[f]]
            0 <= f < files.len() && (stored_path(files[f]) == nodes[c].path || ancestors(
                stored_path(files[f]),
            ).contains(nodes[c].path));
        if stored_path(files[f]) == nodes[c].path {
            assert(file_among(nodes, files[f]));
            let i = choose|i: int|
                #![trigger nodes[i]]
                0 <= i < nodes.len() && nodes[i].kind == NodeKind::File && nodes[i].path
                    == stored_path(files[f]) && nodes[i].data == files[f].data;
            lemma_found(nodes, nodes[c].path, c);
            lemma_found(nodes, nodes[c].path, i);
        }
        assert(ancestors(stored_path(files[f])).contains(nodes[c].path));
    }
}

/// How long an image is, and where the contents of its files lie.
proof fn lemma_plan_parts(q: ImageRequest, whole: Seq<u8>, label: Seq<char>)
    requires
        image_plan(q) is Ok,
        0 <= q.extra_inodes,
        0 <= q.extra_entries,
        0 <= q.extra_xattrs,
        0 <= q.extra_blocks,
        holds_plan(whole, label, q.version, image_plan(q)->Ok_0, q.extra_blocks),
    ensures
        ({
            let nodes = image_nodes(q.files)->Ok_0;
            let order = walk_order(nodes, 0);
            let plan = image_plan(q)->Ok_0;
            let l = plan.layout;
            let total = l.data_start + blocks_upto(nodes, order, order.len() as int)
                + q.extra_blocks;
            &&& whole.len() == total * 512
            &&& l.data_start >= 2
            &&& plan.data.len() == blocks_upto(nodes, order, order.len() as int) * 512
            &&& whole.subrange(l.data_start * 512, l.data_start * 512 + plan.data.len())
                == plan.data
        }),
{
    reveal(is_image);
    let plan = image_plan(q)->Ok_0;
    let nodes = image_nodes(q.files)->Ok_0;
    let order = walk_order(nodes, 0);
    let l = plan.layout;
    let (superblock, inode_table, dirent_table) = choose|
        superblock: Seq<u8>,
        inode_table: Seq<u8>,
        dirent_table: Seq<u8>,
    |
        is_image(
            whole,
            label,
            q.version,
            plan,
            q.extra_blocks,
            superblock,
            inode_table,
            dirent_table,
        );
    lemma_data_len(nodes, order, order.len() as int);
    lemma_image_parts(
        whole,
        superblock,
        inode_table,
        dirent_table,
        zeros((l.xattr_blocks * 512) as nat),
        plan.data,
        zeros((q.extra_blocks * 512) as nat),
        l,
    );
}

/// The contents of a file lie where its inode says.
proof fn lemma_file_on_disk(
    nodes: Seq<NodeView>,
    order: Seq<int>,
    start: int,
    k: int,
    image: Seq<u8>,
    whole: Seq<u8>,
    data: Seq<u8>,
)
    requires
        0 <= k < order.len(),
        nodes[order[k]].kind == NodeKind::File,
        nodes[order[k]].data.len() <= u32::MAX,
        data == data_upto(nodes, order, order.len() as int),
        2 <= start,
        start + blocks_upto(nodes, order, order.len() as int) <= u32::MAX,
        start * 512 + data.len() <= whole.len(),
        whole.subrange(start * 512, start * 512 + data.len()) == data,
        image.len() == whole.len(),
        forall|i: int| #![trigger image[i]] 1024 <= i < image.len() ==> image[i] == whole[i],
    ensures
        ({
            let inode = image_inode(nodes, order, k, start);
            &&& inode.kind == NodeKind::File
            &&& !inode.deleted
            &&& inode.size == nodes[order[k]].data.len()
            &&& file_bytes(image, inode) == nodes[order[k]].data
        }),
{
    let n = order.len() as int;
    let inode = image_inode(nodes, order, k, start);
    let bytes = nodes[order[k]].data;
    law_image_holds_contents(nodes, order, k, n);
    lemma_blocks_grow(nodes, order, k, n);
    let from = blocks_upto(nodes, order, k) * 512;
    let at = inode.data_block * 512;
    assert(at == start * 512 + from);
    assert(image.subrange(at, at + bytes.len()) =~= bytes) by {
        assert forall|i: int| 0 <= i < bytes.len() implies image[at + i] == bytes[i] by {
            assert(data.subrange(from, from + bytes.len())[i] == data[from + i]);
            assert(whole.subrange(start * 512, start * 512 + data.len())[from + i] == whole[at + i]);
        }
    }
}

} // verus!
