//! Building images, and what a mount finds of them.
use vstd::prelude::*;
use vstd::string::*;

use crate::block::{BLOCK_SIZE, MemoryBlockDevice};
use crate::bytes::{copy_range, write_bytes, zero_vec, zeros};
use crate::error::{Error, Result};
use crate::simplefs::encode::{dirents_written, inodes_written, names_fit, write_runtime_dir_entry_table, write_runtime_inode_table};
use crate::simplefs::file_ops::with_length;
use crate::simplefs::image_build::{ImageLayout, ImagePlan, ImageRequest, blocks_upto, child_entries, data_upto, entries_upto, holds_plan, image_fits, image_inode, image_inodes, image_layout, image_plan, image_record, is_image, nodes_plan, place_of};
use crate::simplefs::image_nodes::{BuilderNode, ImageEntry, ImageEntryView, NodeView, image_entry_views, image_nodes, lemma_find_node, node_views, parents_first, unsorted_nodes, with_dirs, with_node};
use crate::simplefs::image_order::{as_ints, build_nodes, depth_first_order};
use crate::simplefs::names::{ancestors, block_span, blocks_for, image_path, name_ok, parent_text};
use crate::simplefs::superblock::write_superblock;
use crate::simplefs::types::{OnDiskDirEntry, OnDiskInode, SimpleFsFormatVersion, SuperblockRecord, entry_views};
use crate::simplefs::volume::SimpleFs;
use crate::vfs::NodeKind;

verus! {

/// Whether every node but the root has a name an entry can carry.
pub open spec fn all_named(nodes: Seq<NodeView>) -> bool {
    forall|i: int| #![trigger nodes[i]] 1 <= i < nodes.len() ==> name_ok(nodes[i].name)
}

proof fn lemma_with_node_named(nodes: Seq<NodeView>, path: Seq<char>, kind: NodeKind, data: Seq<u8>)
    requires
        nodes.len() > 0,
        all_named(nodes),
        with_node(nodes, path, kind, data) is Ok,
    ensures
        all_named(with_node(nodes, path, kind, data)->Ok_0),
        with_node(nodes, path, kind, data)->Ok_0.len() > 0,
{
    let n = with_node(nodes, path, kind, data)->Ok_0;
    if parent_text(path) is Some {
        lemma_find_node(nodes, parent_text(path)->0, 0);
    }
    assert forall|i: int| #![trigger n[i]] 1 <= i < n.len() implies name_ok(n[i].name) by {
        if i < nodes.len() {
            assert(name_ok(nodes[i].name));
        }
    }
}

proof fn lemma_with_dirs_named(nodes: Seq<NodeView>, paths: Seq<Seq<char>>)
    requires
        nodes.len() > 0,
        all_named(nodes),
        with_dirs(nodes, paths) is Ok,
    ensures
        all_named(with_dirs(nodes, paths)->Ok_0),
        with_dirs(nodes, paths)->Ok_0.len() > 0,
    decreases paths.len(),
{
    if paths.len() > 0 {
        lemma_with_dirs_named(nodes, paths.drop_last());
        lemma_with_node_named(
            with_dirs(nodes, paths.drop_last())->Ok_0,
            paths.last(),
            NodeKind::Directory,
            Seq::empty(),
        );
    }
}

proof fn lemma_unsorted_named(files: Seq<ImageEntryView>)
    requires
        unsorted_nodes(files) is Ok,
    ensures
        all_named(unsorted_nodes(files)->Ok_0),
        unsorted_nodes(files)->Ok_0.len() > 0,
    decreases files.len(),
{
    if files.len() > 0 {
        lemma_unsorted_named(files.drop_last());
        let n = unsorted_nodes(files.drop_last())->Ok_0;
        let path = image_path(files.last().path)->Ok_0;
        lemma_with_dirs_named(n, ancestors(path));
        lemma_with_node_named(
            with_dirs(n, ancestors(path))->Ok_0,
            path,
            NodeKind::File,
            files.last().data,
        );
    }
}

/// Every node of an image but the root has a name an entry can carry.
pub proof fn lemma_image_named(files: Seq<ImageEntryView>)
    requires
        image_nodes(files) is Ok,
    ensures
        all_named(image_nodes(files)->Ok_0),
        image_nodes(files)->Ok_0.len() > 0,
{
    lemma_unsorted_named(files);
    let u = unsorted_nodes(files)->Ok_0;
    let n = image_nodes(files)->Ok_0;
    assert forall|i: int| #![trigger n[i]] 1 <= i < n.len() implies name_ok(n[i].name) by {
        assert(name_ok(u[i].name));
    }
}

/// Where each node comes in an order.
fn places(order: &Vec<usize>, count: usize) -> (r: Vec<usize>)
    requires
        forall|k: int| #![trigger order@[k]] 0 <= k < order@.len() ==> order@[k] < count,
    ensures
        r@.len() == count,
        forall|c: int|
            #![trigger r@[c]]
            0 <= c < count ==> r@[c] == place_of(as_ints(order@), c),
{
    let ghost all = as_ints(order@);
    let mut out: Vec<usize> = Vec::new();
    let mut i: usize = 0;
    while i < count
        invariant
            i <= count,
            out@.len() == i,
            forall|c: int| #![trigger out@[c]] 0 <= c < i ==> out@[c] == 0,
        decreases count - i,
    {
        out.push(0);
        i = i + 1;
    }
    let mut k: usize = 0;
    while k < order.len()
        invariant
            k <= order@.len(),
            all == as_ints(order@),
            out@.len() == count,
            forall|j: int| #![trigger order@[j]] 0 <= j < order@.len() ==> order@[j] < count,
            forall|c: int|
                #![trigger out@[c]]
                0 <= c < count ==> out@[c] == place_of(all.take(k as int), c),
        decreases order@.len() - k,
    {
        assert(all.take(k + 1).drop_last() =~= all.take(k as int));
        assert(all.take(k + 1).last() == order@[k as int]);
        let c: usize = order[k];
        out[c] = k;
        k = k + 1;
    }
    assert(all.take(k as int) =~= all);
    out
}

/// The entries of one directory.
fn push_children(
    nodes: &Vec<BuilderNode>,
    order: &Vec<usize>,
    place: &Vec<usize>,
    node: usize,
    entries: &mut Vec<OnDiskDirEntry>,
)
    requires
        node < nodes@.len(),
        nodes@[node as int].kind == NodeKind::Directory,
        parents_first(node_views(nodes@)),
        place@.len() == nodes@.len(),
        forall|c: int|
            #![trigger place@[c]]
            0 <= c < place@.len() ==> place@[c] == place_of(as_ints(order@), c),
    ensures
        entry_views(final(entries)@) == entry_views(old(entries)@) + child_entries(
            node_views(nodes@),
            as_ints(order@),
            node as int,
        ),
{
    let ghost views = node_views(nodes@);
    let ghost all = child_entries(views, as_ints(order@), node as int);
    let ghost before = entry_views(entries@);
    assert(views[node as int] == nodes@[node as int]@);
    let children = &nodes[node].children;
    let mut k: usize = 0;
    assert(before + all.take(0) =~= before);
    while k < children.len()
        invariant
            node < nodes@.len(),
            views == node_views(nodes@),
            parents_first(views),
            children@ == views[node as int].children,
            views[node as int].kind == NodeKind::Directory,
            place@.len() == nodes@.len(),
            forall|c: int|
                #![trigger place@[c]]
                0 <= c < place@.len() ==> place@[c] == place_of(as_ints(order@), c),
            all == child_entries(views, as_ints(order@), node as int),
            k <= children@.len(),
            entry_views(entries@) == before + all.take(k as int),
        decreases children@.len() - k,
    {
        assert(node < views[node as int].children[k as int] < views.len());
        let c: usize = children[k];
        assert(views[c as int] == nodes@[c as int]@);
        let entry = OnDiskDirEntry {
            inode_index: place[c] as u32,
            kind: nodes[c].kind,
            name: nodes[c].name.clone(),
        };
        assert(entry@ == all[k as int]);
        let ghost so_far = entry_views(entries@);
        entries.push(entry);
        assert(entry_views(entries@) =~= so_far.push(entry@));
        assert(before + all.take(k + 1) =~= (before + all.take(k as int)).push(entry@));
        k = k + 1;
    }
    assert(all.take(k as int) =~= all);
}

/// The entries of an image, and where those of each node start.
fn build_entries(nodes: &Vec<BuilderNode>, order: &Vec<usize>) -> (r: (
    Vec<OnDiskDirEntry>,
    Vec<usize>,
))
    requires
        parents_first(node_views(nodes@)),
        forall|k: int| #![trigger order@[k]] 0 <= k < order@.len() ==> order@[k] < nodes@.len(),
    ensures
        entry_views(r.0@) == entries_upto(
            node_views(nodes@),
            as_ints(order@),
            order@.len() as int,
        ),
        r.1@.len() == order@.len(),
        forall|k: int|
            #![trigger r.1@[k]]
            0 <= k < order@.len() ==> r.1@[k] == entries_upto(
                node_views(nodes@),
                as_ints(order@),
                k,
            ).len(),
{
    let ghost views = node_views(nodes@);
    let ghost all = as_ints(order@);
    let place = places(order, nodes.len());
    let mut entries: Vec<OnDiskDirEntry> = Vec::new();
    let mut starts: Vec<usize> = Vec::new();
    assert(entry_views(entries@) =~= entries_upto(views, all, 0));
    let mut k: usize = 0;
    while k < order.len()
        invariant
            k <= order@.len(),
            views == node_views(nodes@),
            all == as_ints(order@),
            parents_first(views),
            forall|j: int| #![trigger order@[j]] 0 <= j < order@.len() ==> order@[j] < nodes@.len(),
            place@.len() == nodes@.len(),
            forall|c: int|
                #![trigger place@[c]]
                0 <= c < place@.len() ==> place@[c] == place_of(all, c),
            entry_views(entries@) == entries_upto(views, all, k as int),
            starts@.len() == k,
            forall|j: int|
                #![trigger starts@[j]]
                0 <= j < k ==> starts@[j] == entries_upto(views, all, j).len(),
        decreases order@.len() - k,
    {
        assert(entry_views(entries@).len() == entries@.len());
        starts.push(entries.len());
        let node: usize = order[k];
        assert(all[k as int] == node);
        assert(views[node as int] == nodes@[node as int]@);
        match nodes[node].kind {
            NodeKind::Directory => {
                push_children(nodes, order, &place, node, &mut entries);
            },
            NodeKind::File | NodeKind::Device | NodeKind::Symlink => {
                assert(entries_upto(views, all, k as int) + child_entries(views, all, node as int)
                    =~= entries_upto(views, all, k as int));
            },
        }
        k = k + 1;
    }
    (entries, starts)
}

/// The blocks that an image's contents take, unless one file is too large.
fn count_blocks(nodes: &Vec<BuilderNode>, order: &Vec<usize>) -> (r: Option<u128>)
    requires
        forall|k: int| #![trigger order@[k]] 0 <= k < order@.len() ==> order@[k] < nodes@.len(),
    ensures
        match r {
            Some(n) => n == blocks_upto(
                node_views(nodes@),
                as_ints(order@),
                order@.len() as int,
            ) && n <= order@.len() * 0x1000_0000 && forall|k: int|
                #![trigger order@[k]]
                0 <= k < order@.len() ==> node_views(nodes@)[order@[k] as int].data.len()
                    <= u32::MAX,
            None => exists|k: int|
                #![trigger order@[k]]
                0 <= k < order@.len() && node_views(nodes@)[order@[k] as int].data.len() > u32::MAX,
        },
{
    let ghost views = node_views(nodes@);
    let ghost all = as_ints(order@);
    let mut total: u128 = 0;
    let mut k: usize = 0;
    let count: usize = order.len();
    while k < count
        invariant
            k <= count,
            count == order@.len(),
            views == node_views(nodes@),
            all == as_ints(order@),
            forall|j: int| #![trigger order@[j]] 0 <= j < order@.len() ==> order@[j] < nodes@.len(),
            total == blocks_upto(views, all, k as int),
            total <= k * 0x1000_0000,
            forall|j: int|
                #![trigger order@[j]]
                0 <= j < k ==> views[order@[j] as int].data.len() <= u32::MAX,
        decreases count - k,
    {
        let node: usize = order[k];
        assert(all[k as int] == node);
        assert(views[node as int] == nodes@[node as int]@);
        let len: usize = nodes[node].data.len();
        if len as u64 > u32::MAX as u64 {
            assert(views[order@[k as int] as int].data.len() > u32::MAX);
            return None;
        }
        match nodes[node].kind {
            NodeKind::Directory => {},
            NodeKind::File | NodeKind::Device | NodeKind::Symlink => {
                total = total + blocks_for(len) as u128;
            },
        }
        k = k + 1;
    }
    Some(total)
}

/// The inodes of an image.
fn build_inodes(
    nodes: &Vec<BuilderNode>,
    order: &Vec<usize>,
    starts: &Vec<usize>,
    data_start: u32,
) -> (r: Vec<OnDiskInode>)
    requires
        forall|k: int| #![trigger order@[k]] 0 <= k < order@.len() ==> order@[k] < nodes@.len(),
        starts@.len() == order@.len(),
        forall|k: int|
            #![trigger starts@[k]]
            0 <= k < order@.len() ==> starts@[k] == entries_upto(
                node_views(nodes@),
                as_ints(order@),
                k,
            ).len(),
        data_start + blocks_upto(node_views(nodes@), as_ints(order@), order@.len() as int)
            <= u32::MAX,
    ensures
        r@ == image_inodes(node_views(nodes@), as_ints(order@), data_start as int),
{
    let ghost views = node_views(nodes@);
    let ghost all = as_ints(order@);
    let mut out: Vec<OnDiskInode> = Vec::new();
    let mut next: u32 = data_start;
    let mut k: usize = 0;
    while k < order.len()
        invariant
            k <= order@.len(),
            views == node_views(nodes@),
            all == as_ints(order@),
            forall|j: int| #![trigger order@[j]] 0 <= j < order@.len() ==> order@[j] < nodes@.len(),
            starts@.len() == order@.len(),
            forall|j: int|
                #![trigger starts@[j]]
                0 <= j < order@.len() ==> starts@[j] == entries_upto(views, all, j).len(),
            data_start + blocks_upto(views, all, order@.len() as int) <= u32::MAX,
            next == data_start + blocks_upto(views, all, k as int),
            out@.len() == k,
            forall|j: int|
                #![trigger out@[j]]
                0 <= j < k ==> out@[j] == image_inode(views, all, j, data_start as int),
        decreases order@.len() - k,
    {
        let node: usize = order[k];
        assert(all[k as int] == node);
        assert(views[node as int] == nodes@[node as int]@);
        proof {
            lemma_blocks_grow(views, all, k + 1, order@.len() as int);
        }
        let mut inode = OnDiskInode {
            kind: nodes[node].kind,
            deleted: false,
            entry_start: 0,
            entry_count: 0,
            data_block: 0,
            block_count: 0,
            size: 0,
            persistent_security: None,
            data_checksum: 0,
            compressed: false,
            deduped: false,
        };
        match nodes[node].kind {
            NodeKind::Directory => {
                inode.entry_start = starts[k] as u32;
                inode.entry_count = nodes[node].children.len() as u32;
            },
            NodeKind::File | NodeKind::Device | NodeKind::Symlink => {
                let blocks = blocks_for(nodes[node].data.len());
                inode.data_block = next;
                inode.block_count = blocks as u32;
                inode.size = nodes[node].data.len() as u32;
                next = next + blocks as u32;
            },
        }
        assert(inode == image_inode(views, all, k as int, data_start as int));
        out.push(inode);
        k = k + 1;
    }
    assert(out@ =~= image_inodes(views, all, data_start as int));
    out
}

pub proof fn lemma_blocks_grow(nodes: Seq<NodeView>, order: Seq<int>, k: int, n: int)
    requires
        0 <= k <= n,
    ensures
        blocks_upto(nodes, order, k) <= blocks_upto(nodes, order, n),
        0 <= blocks_upto(nodes, order, k),
    decreases n,
{
    if k < n {
        lemma_blocks_grow(nodes, order, k, n - 1);
    } else if k > 0 {
        lemma_blocks_grow(nodes, order, k - 1, n - 1);
    }
}

/// The contents of an image's files, each filled up to whole blocks.
fn build_data(nodes: &Vec<BuilderNode>, order: &Vec<usize>) -> (r: Vec<u8>)
    requires
        forall|k: int| #![trigger order@[k]] 0 <= k < order@.len() ==> order@[k] < nodes@.len(),
        blocks_upto(node_views(nodes@), as_ints(order@), order@.len() as int) * 512 <= usize::MAX,
    ensures
        r@ == data_upto(node_views(nodes@), as_ints(order@), order@.len() as int),
        r@.len() == blocks_upto(node_views(nodes@), as_ints(order@), order@.len() as int) * 512,
{
    let ghost views = node_views(nodes@);
    let ghost all = as_ints(order@);
    let mut out: Vec<u8> = Vec::new();
    let mut k: usize = 0;
    assert(out@ =~= data_upto(views, all, 0));
    while k < order.len()
        invariant
            k <= order@.len(),
            views == node_views(nodes@),
            all == as_ints(order@),
            forall|j: int| #![trigger order@[j]] 0 <= j < order@.len() ==> order@[j] < nodes@.len(),
            blocks_upto(views, all, order@.len() as int) * 512 <= usize::MAX,
            out@ == data_upto(views, all, k as int),
            out@.len() == blocks_upto(views, all, k as int) * 512,
        decreases order@.len() - k,
    {
        let node: usize = order[k];
        assert(all[k as int] == node);
        assert(views[node as int] == nodes@[node as int]@);
        proof {
            lemma_blocks_grow(views, all, k + 1, order@.len() as int);
            lemma_blocks_grow(views, all, k as int, k as int);
        }
        match nodes[node].kind {
            NodeKind::Directory => {
                assert(data_upto(views, all, k + 1) =~= data_upto(views, all, k as int));
            },
            NodeKind::File | NodeKind::Device | NodeKind::Symlink => {
                let data = nodes[node].data;
                let blocks = blocks_for(data.len());
                let mut piece = zero_vec(blocks * 512);
                write_bytes(piece.as_mut_slice(), 0, data);
                assert(piece@ =~= with_length(data@, blocks * 512));
                out.append(&mut piece);
            },
        }
        k = k + 1;
    }
    out
}

/// The number of blocks for so many bytes.
fn span_of(bytes: u128) -> (r: u128)
    requires
        bytes <= 0x1_0000_0000_0000_0000_0000,
    ensures
        r == block_span(bytes as int),
{
    (bytes + 511) / 512
}

/// The entries of an image carry names that fit.
pub proof fn lemma_entries_named(nodes: Seq<NodeView>, order: Seq<int>, k: int)
    requires
        all_named(nodes),
        parents_first(nodes),
        0 <= k <= order.len(),
        forall|j: int| #![trigger order[j]] 0 <= j < order.len() ==> 0 <= order[j] < nodes.len(),
    ensures
        forall|d: int|
            #![trigger entries_upto(nodes, order, k)[d]]
            0 <= d < entries_upto(nodes, order, k).len() ==> name_ok(
                entries_upto(nodes, order, k)[d].name,
            ),
    decreases k,
{
    if k > 0 {
        lemma_entries_named(nodes, order, k - 1);
        let before = entries_upto(nodes, order, k - 1);
        let node = order[k - 1];
        let more = child_entries(nodes, order, node);
        let all = entries_upto(nodes, order, k);
        assert forall|d: int| #![trigger all[d]] 0 <= d < all.len() implies name_ok(all[d].name) by {
            if d < before.len() {
                assert(all[d] == before[d]);
            } else {
                let e = d - before.len();
                assert(all[d] == more[e]);
                let c = nodes[node].children[e] as int;
                assert(node < nodes[node].children[e] < nodes.len());
                assert(name_ok(nodes[c].name));
            }
        }
    }
}

/// The tables of an image, one after the other.
fn build_slot(
    version: SimpleFsFormatVersion,
    inodes: &Vec<OnDiskInode>,
    entries: &Vec<OnDiskDirEntry>,
    inode_blocks: u32,
    dirent_blocks: u32,
    xattr_blocks: u32,
) -> (r: (Vec<u8>, Ghost<Seq<u8>>, Ghost<Seq<u8>>))
    requires
        inodes@.len() * 32 <= inode_blocks * 512,
        entries@.len() * 64 <= dirent_blocks * 512,
        (inode_blocks + dirent_blocks + xattr_blocks) * 512 <= usize::MAX,
        names_fit(entry_views(entries@)),
    ensures
        r.0@ == r.1@ + r.2@ + zeros((xattr_blocks * 512) as nat),
        inodes_written(zeros((inode_blocks * 512) as nat), r.1@, 0, inodes@, version),
        dirents_written(
            zeros((dirent_blocks * 512) as nat),
            r.2@,
            0,
            entry_views(entries@),
        ),
{
    let mut slot = zero_vec(inode_blocks as usize * 512);
    let _r = write_runtime_inode_table(slot.as_mut_slice(), version, 0, inodes.as_slice());
    let ghost inode_table = slot@;
    let mut dirents = zero_vec(dirent_blocks as usize * 512);
    let _r = write_runtime_dir_entry_table(
        dirents.as_mut_slice(),
        version,
        0,
        entries.as_slice(),
    );
    let ghost dirent_table = dirents@;
    slot.append(&mut dirents);
    let mut xattrs = zero_vec(xattr_blocks as usize * 512);
    slot.append(&mut xattrs);
    assert(slot@ =~= inode_table + dirent_table + zeros((xattr_blocks * 512) as nat));
    (slot, Ghost(inode_table), Ghost(dirent_table))
}

/// The layout of an image in numbers that fit.
#[derive(Clone, Copy)]
pub struct LayoutBlocks {
    pub inode_blocks: u32,
    pub dirent_blocks: u32,
    pub xattr_blocks: u32,
    pub data_start: u32,
}

impl LayoutBlocks {
    /// The layout these numbers describe.
    pub open spec fn layout(self) -> ImageLayout {
        ImageLayout {
            inode_blocks: self.inode_blocks as int,
            dirent_blocks: self.dirent_blocks as int,
            xattr_blocks: self.xattr_blocks as int,
            data_start: self.data_start as int,
        }
    }
}

/// Lays out an image, unless it would be too large.
fn lay_out(
    version: SimpleFsFormatVersion,
    inodes: u128,
    entries: u128,
    xattrs: u128,
    blocks: u128,
) -> (r: Option<LayoutBlocks>)
    requires
        inodes <= 0x2_0000_0000_0000_0000,
        entries <= 0x2_0000_0000_0000_0000,
        xattrs <= 0x1_0000_0000_0000_0000,
        blocks <= 0x1_0000_0000_0000_0000_0000_0000,
    ensures
        ({
            let l = image_layout(version, inodes as int, entries as int, xattrs as int);
            let total = l.data_start + blocks;
            match r {
                Some(b) => b.layout() == l && total <= u32::MAX && total * 512 <= usize::MAX,
                None => total > u32::MAX || total * 512 > usize::MAX,
            }
        }),
{
    let inode_blocks: u128 = span_of(inodes * 32);
    let dirent_blocks: u128 = span_of(entries * 64);
    let xattr_blocks: u128 = if !version.supports_persistent_xattrs() {
        0
    } else if xattrs == 0 {
        1
    } else {
        span_of(xattrs * 336)
    };
    let data_start: u128 = 2 + 2 * (inode_blocks + dirent_blocks + xattr_blocks);
    let total: u128 = data_start + blocks;
    if total > u32::MAX as u128 || total * 512 > usize::MAX as u128 {
        return None;
    }
    Some(
        LayoutBlocks {
            inode_blocks: inode_blocks as u32,
            dirent_blocks: dirent_blocks as u32,
            xattr_blocks: xattr_blocks as u32,
            data_start: data_start as u32,
        },
    )
}

/// The superblock record of a new image.
fn make_record(b: LayoutBlocks, version: SimpleFsFormatVersion, inodes: u32, entries: u32) -> (r:
    SuperblockRecord)
    requires
        b.data_start == 2 + 2 * (b.inode_blocks + b.dirent_blocks + b.xattr_blocks),
    ensures
        r == image_record(b.layout(), version, inodes as int, entries as int),
{
    let slot: u32 = b.inode_blocks + b.dirent_blocks + b.xattr_blocks;
    let stores_xattrs: bool = version.supports_persistent_xattrs();
    SuperblockRecord {
        inode_count: inodes,
        dirent_count: entries,
        active_inode_table_block: 2,
        active_dirent_table_block: 2 + b.inode_blocks,
        shadow_inode_table_block: 2 + slot,
        shadow_dirent_table_block: 2 + slot + b.inode_blocks,
        inode_table_blocks: b.inode_blocks,
        dirent_table_blocks: b.dirent_blocks,
        data_block_start: b.data_start,
        generation: 0,
        pending_commit: 0,
        active_xattr_table_block: if stores_xattrs {
            2 + b.inode_blocks + b.dirent_blocks
        } else {
            0
        },
        shadow_xattr_table_block: if stores_xattrs {
            2 + slot + b.inode_blocks + b.dirent_blocks
        } else {
            0
        },
        xattr_table_blocks: b.xattr_blocks,
        xattr_count: 0,
    }
}

/// Puts the parts of an image together.
fn assemble(
    label: &str,
    version: SimpleFsFormatVersion,
    b: LayoutBlocks,
    inodes: &Vec<OnDiskInode>,
    entries: &Vec<OnDiskDirEntry>,
    data: Vec<u8>,
    extra_blocks: usize,
) -> (image: Vec<u8>)
    requires
        b.data_start == 2 + 2 * (b.inode_blocks + b.dirent_blocks + b.xattr_blocks),
        b.data_start * 512 + data@.len() + extra_blocks * 512 <= usize::MAX,
        inodes@.len() * 32 <= b.inode_blocks * 512,
        entries@.len() * 64 <= b.dirent_blocks * 512,
        names_fit(entry_views(entries@)),
    ensures
        holds_plan(
            image@,
            label@,
            version,
            (ImagePlan {
                layout: b.layout(),
                inodes: inodes@,
                entries: entry_views(entries@),
                data: data@,
            }),
            extra_blocks as int,
        ),
{
    assert(entry_views(entries@).len() == entries@.len());
    let record = make_record(b, version, inodes.len() as u32, entries.len() as u32);
    let mut image = zero_vec(BLOCK_SIZE);
    write_superblock(image.as_mut_slice(), label, version, record);
    let ghost superblock = image@;
    let mut mirror = copy_range(image.as_slice(), 0, BLOCK_SIZE);
    assert(mirror@ =~= superblock);
    image.append(&mut mirror);
    let (mut slot, Ghost(inode_table), Ghost(dirent_table)) = build_slot(
        version,
        inodes,
        entries,
        b.inode_blocks,
        b.dirent_blocks,
        b.xattr_blocks,
    );
    let ghost tables = slot@;
    let mut shadow = copy_range(slot.as_slice(), 0, slot.len());
    assert(shadow@ =~= tables);
    image.append(&mut slot);
    image.append(&mut shadow);
    let mut contents = data;
    image.append(&mut contents);
    let mut spare = zero_vec(extra_blocks * BLOCK_SIZE);
    image.append(&mut spare);
    proof {
        let plan = ImagePlan {
            layout: b.layout(),
            inodes: inodes@,
            entries: entry_views(entries@),
            data: data@,
        };
        reveal(is_image);
        assert(image@ =~= superblock + superblock + tables + tables + data@ + zeros(
            (extra_blocks * 512) as nat,
        ));
        assert(is_image(
            image@,
            label@,
            version,
            plan,
            extra_blocks as int,
            superblock,
            inode_table,
            dirent_table,
        ));
    }
    image
}

/// What building an image answers.
pub open spec fn image_outcome(
    label: Seq<char>,
    q: ImageRequest,
    r: core::result::Result<Seq<u8>, Error>,
) -> bool {
    plan_outcome(label, q, image_plan(q), r)
}

/// What building the image of a plan answers.
pub open spec fn plan_outcome(
    label: Seq<char>,
    q: ImageRequest,
    plan: core::result::Result<ImagePlan, Error>,
    r: core::result::Result<Seq<u8>, Error>,
) -> bool {
    match plan {
        Err(e) => r == Err::<Seq<u8>, Error>(e),
        Ok(plan) => r is Ok && holds_plan(r->Ok_0, label, q.version, plan, q.extra_blocks),
    }
}

/// An answer with its bytes.
pub open spec fn bytes_answer(r: core::result::Result<Vec<u8>, Error>) -> core::result::Result<
    Seq<u8>,
    Error,
> {
    match r {
        Ok(v) => Ok(v@),
        Err(e) => Err(e),
    }
}

impl SimpleFs<MemoryBlockDevice> {
    /// Builds an image without room to grow.
    pub fn build_image(label: &str, files: &[ImageEntry<'_>]) -> (r: Result<Vec<u8>>)
        ensures
            image_outcome(
                label@,
                (ImageRequest {
                    files: image_entry_views(files@),
                    version: SimpleFsFormatVersion::V2,
                    extra_inodes: 0,
                    extra_entries: 0,
                    extra_xattrs: 0,
                    extra_blocks: 0,
                }),
                bytes_answer(r),
            ),
    {
        Self::build_image_with_headroom(label, files, 0, 0, 0)
    }

    /// Builds an image with room for more nodes and contents.
    pub fn build_image_with_headroom(
        label: &str,
        files: &[ImageEntry<'_>],
        extra_inodes: usize,
        extra_dir_entries: usize,
        extra_data_blocks: usize,
    ) -> (r: Result<Vec<u8>>)
        ensures
            image_outcome(
                label@,
                (ImageRequest {
                    files: image_entry_views(files@),
                    version: SimpleFsFormatVersion::V2,
                    extra_inodes: extra_inodes as int,
                    extra_entries: extra_dir_entries as int,
                    extra_xattrs: 0,
                    extra_blocks: extra_data_blocks as int,
                }),
                bytes_answer(r),
            ),
    {
        Self::build_image_internal(
            label,
            files,
            extra_inodes,
            extra_dir_entries,
            extra_data_blocks,
            SimpleFsFormatVersion::V2,
            0,
        )
    }

    /// Builds an image that stores descriptors and attributes, with room for more
    /// nodes, attributes and contents.
    pub fn build_v4_image_with_headroom(
        label: &str,
        files: &[ImageEntry<'_>],
        extra_inodes: usize,
        extra_dir_entries: usize,
        extra_xattrs: usize,
        extra_data_blocks: usize,
    ) -> (r: Result<Vec<u8>>)
        ensures
            image_outcome(
                label@,
                (ImageRequest {
                    files: image_entry_views(files@),
                    version:
                        SimpleFsFormatVersion::V4PersistentSecurityDescriptorsWithXattrs,
                    extra_inodes: extra_inodes as int,
                    extra_entries: extra_dir_entries as int,
                    extra_xattrs: extra_xattrs as int,
                    extra_blocks: extra_data_blocks as int,
                }),
                bytes_answer(r),
            ),
    {
        Self::build_image_internal(
            label,
            files,
            extra_inodes,
            extra_dir_entries,
            extra_data_blocks,
            SimpleFsFormatVersion::V4PersistentSecurityDescriptorsWithXattrs,
            extra_xattrs,
        )
    }

    /// Builds an image.
    pub fn build_image_internal(
        label: &str,
        files: &[ImageEntry<'_>],
        extra_inodes: usize,
        extra_dir_entries: usize,
        extra_data_blocks: usize,
        format_version: SimpleFsFormatVersion,
        extra_xattr_capacity: usize,
    ) -> (r: Result<Vec<u8>>)
        ensures
            image_outcome(
                label@,
                (ImageRequest {
                    files: image_entry_views(files@),
                    version: format_version,
                    extra_inodes: extra_inodes as int,
                    extra_entries: extra_dir_entries as int,
                    extra_xattrs: extra_xattr_capacity as int,
                    extra_blocks: extra_data_blocks as int,
                }),
                bytes_answer(r),
            ),
    {
        let nodes = build_nodes(files)?;
        proof {
            lemma_image_named(image_entry_views(files@));
        }
        let ghost q = ImageRequest {
            files: image_entry_views(files@),
            version: format_version,
            extra_inodes: extra_inodes as int,
            extra_entries: extra_dir_entries as int,
            extra_xattrs: extra_xattr_capacity as int,
            extra_blocks: extra_data_blocks as int,
        };
        build_from_nodes(
            label,
            &nodes,
            extra_inodes,
            extra_dir_entries,
            extra_data_blocks,
            format_version,
            extra_xattr_capacity,
            Ghost(q),
        )
    }
}

/// Builds the image of a tree of nodes.
fn build_from_nodes(
    label: &str,
    nodes: &Vec<BuilderNode>,
    extra_inodes: usize,
    extra_dir_entries: usize,
    extra_data_blocks: usize,
    format_version: SimpleFsFormatVersion,
    extra_xattr_capacity: usize,
    Ghost(q): Ghost<ImageRequest>,
) -> (r: Result<Vec<u8>>)
    requires
        parents_first(node_views(nodes@)),
        all_named(node_views(nodes@)),
        nodes@.len() > 0,
        q.version == format_version,
        q.extra_inodes == extra_inodes,
        q.extra_entries == extra_dir_entries,
        q.extra_xattrs == extra_xattr_capacity,
        q.extra_blocks == extra_data_blocks,
    ensures
        plan_outcome(label@, q, nodes_plan(node_views(nodes@), q), bytes_answer(r)),
{
    let ghost tree = node_views(nodes@);
    let order = depth_first_order(nodes);
    let ghost all = as_ints(order@);
    proof {
        assert forall|j: int| #![trigger all[j]] 0 <= j < all.len() implies 0 <= all[j]
            < tree.len() by {
            assert(order@[j] == all[j]);
        }
    }
    let (entries, starts) = build_entries(nodes, &order);
    assert(entry_views(entries@).len() == entries@.len());
    let data_blocks: u128 = match count_blocks(nodes, &order) {
        Some(n) => n,
        None => {
            proof {
                let k = choose|k: int|
                    #![trigger order@[k]]
                    0 <= k < order@.len() && tree[order@[k] as int].data.len() > u32::MAX;
                assert(all[k] == order@[k]);
            }
            return Err(Error::InvalidArgument);
        },
    };
    let layout: LayoutBlocks = match lay_out(
        format_version,
        order.len() as u128 + extra_inodes as u128,
        entries.len() as u128 + extra_dir_entries as u128,
        extra_xattr_capacity as u128,
        data_blocks + extra_data_blocks as u128,
    ) {
        Some(layout) => layout,
        None => {
            return Err(Error::InvalidArgument);
        },
    };
    proof {
        assert forall|k: int| #![trigger all[k]] 0 <= k < all.len() implies
            tree[all[k]].data.len() <= u32::MAX by {
            assert(order@[k] == all[k]);
        }
        lemma_entries_named(tree, all, all.len() as int);
        assert(image_fits(tree, all, layout.layout(), extra_data_blocks as int));
    }
    let inodes = build_inodes(nodes, &order, &starts, layout.data_start);
    let data = build_data(nodes, &order);
    let ghost plan = ImagePlan {
        layout: layout.layout(),
        inodes: inodes@,
        entries: entry_views(entries@),
        data: data@,
    };
    let image = assemble(
        label,
        format_version,
        layout,
        &inodes,
        &entries,
        data,
        extra_data_blocks,
    );
    proof {
        assert(nodes_plan(tree, q) == Ok::<ImagePlan, Error>(plan));
    }
    Ok(image)
}

} // verus!
