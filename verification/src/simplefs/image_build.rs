//! Building the image of a new volume.
use vstd::prelude::*;
use vstd::string::*;

use crate::bytes::zeros;
use crate::error::Error;
use crate::simplefs::encode::{dirents_written, inodes_written};
use crate::simplefs::file_ops::with_length;
use crate::simplefs::image_nodes::{ImageEntryView, NodeView, image_nodes};
use crate::simplefs::image_order::walk_order;
use crate::simplefs::names::block_span;
use crate::simplefs::superblock::is_superblock;
use crate::simplefs::types::{DirEntryView, OnDiskInode, SimpleFsFormatVersion, SuperblockRecord};
use crate::vfs::NodeKind;

verus! {

/// Where the parts of a new image lie, in blocks.
pub struct ImageLayout {
    pub inode_blocks: int,
    pub dirent_blocks: int,
    pub xattr_blocks: int,
    pub data_start: int,
}

/// The layout for tables with room for so many records. The first slot follows the
/// superblocks, the second one follows the first, and the data follows both.
pub open spec fn image_layout(
    version: SimpleFsFormatVersion,
    inodes: int,
    entries: int,
    xattrs: int,
) -> ImageLayout {
    let ib = block_span(inodes * 32);
    let db = block_span(entries * 64);
    let xb = if !version.stores_xattrs() {
        0
    } else if xattrs == 0 {
        1
    } else {
        block_span(xattrs * 336)
    };
    ImageLayout {
        inode_blocks: ib,
        dirent_blocks: db,
        xattr_blocks: xb,
        data_start: 2 + 2 * (ib + db + xb),
    }
}

/// The superblock record of a new image.
pub open spec fn image_record(
    l: ImageLayout,
    version: SimpleFsFormatVersion,
    inodes: int,
    entries: int,
) -> SuperblockRecord {
    let slot = l.inode_blocks + l.dirent_blocks + l.xattr_blocks;
    SuperblockRecord {
        inode_count: inodes as u32,
        dirent_count: entries as u32,
        active_inode_table_block: 2,
        active_dirent_table_block: (2 + l.inode_blocks) as u32,
        shadow_inode_table_block: (2 + slot) as u32,
        shadow_dirent_table_block: (2 + slot + l.inode_blocks) as u32,
        inode_table_blocks: l.inode_blocks as u32,
        dirent_table_blocks: l.dirent_blocks as u32,
        data_block_start: l.data_start as u32,
        generation: 0,
        pending_commit: 0,
        active_xattr_table_block: if version.stores_xattrs() {
            (2 + l.inode_blocks + l.dirent_blocks) as u32
        } else {
            0
        },
        shadow_xattr_table_block: if version.stores_xattrs() {
            (2 + slot + l.inode_blocks + l.dirent_blocks) as u32
        } else {
            0
        },
        xattr_table_blocks: l.xattr_blocks as u32,
        xattr_count: 0,
    }
}

/// Where a node comes in an order; where it comes twice, the later place.
pub open spec fn place_of(order: Seq<int>, node: int) -> int
    decreases order.len(),
{
    if order.len() == 0 {
        0
    } else if order.last() == node {
        order.len() - 1
    } else {
        place_of(order.drop_last(), node)
    }
}

/// The entries of one directory.
pub open spec fn child_entries(nodes: Seq<NodeView>, order: Seq<int>, node: int) -> Seq<
    DirEntryView,
> {
    if nodes[node].kind == NodeKind::Directory {
        Seq::new(
            nodes[node].children.len(),
            |k: int|
                {
                    let c = nodes[node].children[k] as int;
                    DirEntryView {
                        inode_index: place_of(order, c) as u32,
                        kind: nodes[c].kind,
                        name: nodes[c].name,
                    }
                },
        )
    } else {
        Seq::empty()
    }
}

/// The entries of the first `k` nodes in order, directory after directory.
pub open spec fn entries_upto(nodes: Seq<NodeView>, order: Seq<int>, k: int) -> Seq<DirEntryView>
    decreases k,
{
    if k <= 0 {
        Seq::empty()
    } else {
        entries_upto(nodes, order, k - 1) + child_entries(nodes, order, order[k - 1])
    }
}

/// The blocks that one node's contents take.
pub open spec fn node_blocks(node: NodeView) -> int {
    if node.kind == NodeKind::Directory {
        0
    } else {
        block_span(node.data.len() as int)
    }
}

/// The blocks that the contents of the first `k` nodes in order take.
pub open spec fn blocks_upto(nodes: Seq<NodeView>, order: Seq<int>, k: int) -> int
    decreases k,
{
    if k <= 0 {
        0
    } else {
        blocks_upto(nodes, order, k - 1) + node_blocks(nodes[order[k - 1]])
    }
}

/// The contents of the first `k` nodes in order, each filled up to whole blocks.
pub open spec fn data_upto(nodes: Seq<NodeView>, order: Seq<int>, k: int) -> Seq<u8>
    decreases k,
{
    if k <= 0 {
        Seq::empty()
    } else {
        let node = nodes[order[k - 1]];
        data_upto(nodes, order, k - 1) + if node.kind == NodeKind::Directory {
            Seq::empty()
        } else {
            with_length(node.data, node_blocks(node) * 512)
        }
    }
}

/// The inode of the `k`-th node in order.
pub open spec fn image_inode(nodes: Seq<NodeView>, order: Seq<int>, k: int, data_start: int) ->
    OnDiskInode {
    let node = nodes[order[k]];
    let dir = node.kind == NodeKind::Directory;
    OnDiskInode {
        kind: node.kind,
        deleted: false,
        entry_start: if dir {
            entries_upto(nodes, order, k).len() as u32
        } else {
            0
        },
        entry_count: if dir {
            node.children.len() as u32
        } else {
            0
        },
        data_block: if dir {
            0
        } else {
            (data_start + blocks_upto(nodes, order, k)) as u32
        },
        block_count: node_blocks(node) as u32,
        size: if dir {
            0
        } else {
            node.data.len() as u32
        },
        persistent_security: None,
        data_checksum: 0,
        compressed: false,
        deduped: false,
    }
}

/// The inodes of an image.
pub open spec fn image_inodes(nodes: Seq<NodeView>, order: Seq<int>, data_start: int) -> Seq<
    OnDiskInode,
> {
    Seq::new(order.len(), |k: int| image_inode(nodes, order, k, data_start))
}

/// Whether every number of an image fits its field, and memory can hold it.
pub open spec fn image_fits(
    nodes: Seq<NodeView>,
    order: Seq<int>,
    l: ImageLayout,
    extra_blocks: int,
) -> bool {
    let total = l.data_start + blocks_upto(nodes, order, order.len() as int) + extra_blocks;
    &&& total <= u32::MAX
    &&& total * 512 <= usize::MAX
    &&& forall|k: int|
        #![trigger order[k]]
        0 <= k < order.len() ==> nodes[order[k]].data.len() <= u32::MAX
}

/// What an image is built from and how much room it leaves.
pub struct ImageRequest {
    pub files: Seq<ImageEntryView>,
    pub version: SimpleFsFormatVersion,
    pub extra_inodes: int,
    pub extra_entries: int,
    pub extra_xattrs: int,
    pub extra_blocks: int,
}

/// What a new image holds.
pub struct ImagePlan {
    pub layout: ImageLayout,
    pub inodes: Seq<OnDiskInode>,
    pub entries: Seq<DirEntryView>,
    pub data: Seq<u8>,
}

/// What the image of these nodes holds, or why it cannot be built.
pub open spec fn nodes_plan(nodes: Seq<NodeView>, q: ImageRequest) -> core::result::Result<
    ImagePlan,
    Error,
> {
    let order = walk_order(nodes, 0);
    let entries = entries_upto(nodes, order, order.len() as int);
    let l = image_layout(
        q.version,
        order.len() + q.extra_inodes,
        entries.len() + q.extra_entries,
        q.extra_xattrs,
    );
    if !image_fits(nodes, order, l, q.extra_blocks) {
        Err(Error::InvalidArgument)
    } else {
        Ok(
            ImagePlan {
                layout: l,
                inodes: image_inodes(nodes, order, l.data_start),
                entries,
                data: data_upto(nodes, order, order.len() as int),
            },
        )
    }
}

/// What an image holds, or why it cannot be built.
pub open spec fn image_plan(q: ImageRequest) -> core::result::Result<ImagePlan, Error> {
    match image_nodes(q.files) {
        Err(e) => Err(e),
        Ok(nodes) => nodes_plan(nodes, q),
    }
}

/// Whether `image` is the image of a plan, byte for byte: two superblocks, two copies of
/// the tables, the contents of the files, and room to grow.
#[verifier::opaque]
pub open spec fn is_image(
    image: Seq<u8>,
    label: Seq<char>,
    version: SimpleFsFormatVersion,
    plan: ImagePlan,
    extra_blocks: int,
    superblock: Seq<u8>,
    inode_table: Seq<u8>,
    dirent_table: Seq<u8>,
) -> bool {
    let l = plan.layout;
    let slot = inode_table + dirent_table + zeros((l.xattr_blocks * 512) as nat);
    &&& is_superblock(
        superblock,
        label,
        version,
        image_record(l, version, plan.inodes.len() as int, plan.entries.len() as int),
    )
    &&& inodes_written(
        zeros((l.inode_blocks * 512) as nat),
        inode_table,
        0,
        plan.inodes,
        version,
    )
    &&& dirents_written(zeros((l.dirent_blocks * 512) as nat), dirent_table, 0, plan.entries)
    &&& image == superblock + superblock + slot + slot + plan.data + zeros(
        (extra_blocks * 512) as nat,
    )
}

/// Whether `image` is an image of a plan.
pub open spec fn holds_plan(
    image: Seq<u8>,
    label: Seq<char>,
    version: SimpleFsFormatVersion,
    plan: ImagePlan,
    extra_blocks: int,
) -> bool {
    exists|superblock: Seq<u8>, inode_table: Seq<u8>, dirent_table: Seq<u8>|
        is_image(
            image,
            label,
            version,
            plan,
            extra_blocks,
            superblock,
            inode_table,
            dirent_table,
        )
}

} // verus!
