//! What a mount finds of a new image.
use vstd::prelude::*;
use vstd::string::*;
use vstd::utf8::*;

use crate::block::BlockDevice;
use crate::bytes::zeros;
use crate::simplefs::constants::SUPERBLOCK_LABEL_LEN;
use crate::simplefs::encode::{all_as_stored, dirents_written, inodes_written};
use crate::simplefs::file_ops::with_length;
use crate::simplefs::image::lemma_blocks_grow;
use crate::simplefs::image_build::{ImageLayout, ImagePlan, blocks_upto, data_upto, holds_plan, image_record, is_image, node_blocks};
use crate::simplefs::image_nodes::NodeView;
use crate::simplefs::mount_laws::{blocks_at, capacities_full, describes, lemma_mounts_from_slot, slot_holds, superblocks_say, tree_storable};
use crate::simplefs::open::open_outcome;
use crate::simplefs::state::{TableSlot, TreeView};
use crate::simplefs::superblock::{is_superblock, law_superblock_round_trip, record_valid, stored_superblock, superblock_contents};
use crate::simplefs::tree::VolumeGeometry;
use crate::simplefs::types::{ParsedSuperblock, SimpleFsFormatVersion, SuperblockRecord, XattrView};
use crate::simplefs::volume::geometry_ok;
use crate::vfs::NodeKind;

verus! {

/// The first slot of a new image.
pub open spec fn image_slot(l: ImageLayout, version: SimpleFsFormatVersion) -> TableSlot {
    TableSlot {
        inode_block: 2,
        dirent_block: (2 + l.inode_blocks) as u32,
        xattr_block: if version.stores_xattrs() {
            (2 + l.inode_blocks + l.dirent_blocks) as u32
        } else {
            0
        },
    }
}

/// Whether a layout is consistent and its numbers fit.
pub open spec fn layout_fits(l: ImageLayout, version: SimpleFsFormatVersion, total: int) -> bool {
    &&& 0 < l.inode_blocks
    &&& 0 <= l.dirent_blocks
    &&& 0 <= l.xattr_blocks
    &&& !version.stores_xattrs() ==> l.xattr_blocks == 0
    &&& l.data_start == 2 + 2 * (l.inode_blocks + l.dirent_blocks + l.xattr_blocks)
    &&& l.data_start <= total <= u32::MAX
}

/// Whether a geometry is that of a new image.
pub open spec fn image_geometry(g: VolumeGeometry, l: ImageLayout, version: SimpleFsFormatVersion) ->
    bool {
    &&& g.format_version == version
    &&& g.inode_table_blocks == l.inode_blocks
    &&& g.dirent_table_blocks == l.dirent_blocks
    &&& g.xattr_table_blocks == l.xattr_blocks
    &&& g.data_block_start == l.data_start
    &&& geometry_ok(g)
    &&& capacities_full(g)
}

/// Where the parts of an image lie.
pub proof fn lemma_image_parts(
    image: Seq<u8>,
    superblock: Seq<u8>,
    inode_table: Seq<u8>,
    dirent_table: Seq<u8>,
    xattr_table: Seq<u8>,
    data: Seq<u8>,
    spare: Seq<u8>,
    l: ImageLayout,
)
    requires
        0 <= l.inode_blocks && 0 <= l.dirent_blocks && 0 <= l.xattr_blocks,
        superblock.len() == 512,
        inode_table.len() == l.inode_blocks * 512,
        dirent_table.len() == l.dirent_blocks * 512,
        xattr_table.len() == l.xattr_blocks * 512,
        ({
            let slot = inode_table + dirent_table + xattr_table;
            image == superblock + superblock + slot + slot + data + spare
        }),
    ensures
        image.subrange(0, 512) == superblock,
        image.subrange(512, 1024) == superblock,
        blocks_at(image, 2, l.inode_blocks) == inode_table,
        blocks_at(image, 2 + l.inode_blocks, l.dirent_blocks) == dirent_table,
        blocks_at(image, 2 + l.inode_blocks + l.dirent_blocks, l.xattr_blocks) == xattr_table,
        image.len() == (2 + 2 * (l.inode_blocks + l.dirent_blocks + l.xattr_blocks)) * 512
            + data.len() + spare.len(),
        ({
            let start = (2 + 2 * (l.inode_blocks + l.dirent_blocks + l.xattr_blocks)) * 512;
            image.subrange(start, start + data.len()) == data
        }),
{
    let start = (2 + 2 * (l.inode_blocks + l.dirent_blocks + l.xattr_blocks)) * 512;
    assert(image.subrange(0, 512) =~= superblock);
    assert(image.subrange(512, 1024) =~= superblock);
    assert(blocks_at(image, 2, l.inode_blocks) =~= inode_table);
    assert(blocks_at(image, 2 + l.inode_blocks, l.dirent_blocks) =~= dirent_table);
    assert(blocks_at(image, 2 + l.inode_blocks + l.dirent_blocks, l.xattr_blocks) =~= xattr_table);
    assert(image.subrange(start, start + data.len()) =~= data);
}

/// Whether a block of a device is as it was.
pub open spec fn block_kept(image: Seq<u8>, whole: Seq<u8>, b: int) -> bool {
    image.subrange(b * 512, b * 512 + 512) == whole.subrange(b * 512, b * 512 + 512)
}

/// Whether a device holds `whole`, but for at most one superblock, which can then no longer
/// be read.
pub open spec fn one_superblock_left<D: BlockDevice>(device: D, whole: Seq<u8>) -> bool {
    let image = device.image();
    &&& image.len() == whole.len()
    &&& forall|i: int| #![trigger image[i]] 1024 <= i < image.len() ==> image[i] == whole[i]
    &&& block_kept(image, whole, 0) || block_kept(image, whole, 1)
    &&& block_kept(image, whole, 0) || stored_superblock(device, 0) is Err
    &&& block_kept(image, whole, 1) || stored_superblock(device, 1) is Err
}

/// Mounting a new image whose tree is sound finds exactly that tree, without attributes,
/// also when one of its superblocks was destroyed.
pub proof fn law_image_then_mount<D: BlockDevice>(
    device: D,
    whole: Seq<u8>,
    label: Seq<char>,
    version: SimpleFsFormatVersion,
    plan: ImagePlan,
    extra_blocks: int,
    g: VolumeGeometry,
    t: TreeView,
)
    requires
        device.reliable(),
        0 <= extra_blocks,
        holds_plan(whole, label, version, plan, extra_blocks),
        one_superblock_left(device, whole),
        layout_fits(plan.layout, version, (whole.len() / 512) as int),
        image_geometry(g, plan.layout, version),
        t.inodes == plan.inodes,
        t.entries == plan.entries,
        t.xattrs == Seq::<XattrView>::empty(),
        tree_storable(g, t, (whole.len() / 512) as int),
    ensures
        open_outcome(device, g.case_sensitive) is Ok,
        ({
            let v = open_outcome(device, g.case_sensitive)->Ok_0.0;
            &&& v.inodes == all_as_stored(plan.inodes, version)
            &&& v.entries == plan.entries
            &&& v.parsed.format_version == version
            &&& v.parsed.record.generation == 0
            &&& version.stores_xattrs() ==> open_outcome(device, g.case_sensitive)->Ok_0.1
                == Seq::<XattrView>::empty()
            &&& encode_utf8(label).len() <= SUPERBLOCK_LABEL_LEN && !encode_utf8(label).contains(
                0u8,
            ) ==> v.label == label
        }),
{
    let l = plan.layout;
    let (superblock, inode_table, dirent_table) = choose|
        superblock: Seq<u8>,
        inode_table: Seq<u8>,
        dirent_table: Seq<u8>,
    |
        is_image(
            whole,
            label,
            version,
            plan,
            extra_blocks,
            superblock,
            inode_table,
            dirent_table,
        );
    lemma_image_found(
        whole,
        label,
        version,
        plan,
        extra_blocks,
        superblock,
        inode_table,
        dirent_table,
        g,
        t,
    );
    lemma_slot_kept(device.image(), whole, g, l, version, t);
    let record = image_record(l, version, plan.inodes.len() as int, plan.entries.len() as int);
    lemma_image_superblocks(device, whole, label, version, record, superblock);
    lemma_mounts_from_slot(
        device,
        superblock_contents(superblock)->Ok_0.0,
        ParsedSuperblock { format_version: version, record },
        g,
        t,
        image_slot(l, version),
    );
}

/// Damage to the superblocks does not reach the tables.
proof fn lemma_slot_kept(
    image: Seq<u8>,
    whole: Seq<u8>,
    g: VolumeGeometry,
    l: ImageLayout,
    version: SimpleFsFormatVersion,
    t: TreeView,
)
    requires
        image.len() == whole.len(),
        forall|i: int| #![trigger image[i]] 1024 <= i < image.len() ==> image[i] == whole[i],
        layout_fits(l, version, (whole.len() / 512) as int),
        image_geometry(g, l, version),
        slot_holds(whole, image_slot(l, version), g, t),
    ensures
        slot_holds(image, image_slot(l, version), g, t),
{
    assert(l.data_start * 512 <= image.len());
    assert(blocks_at(image, 2, l.inode_blocks) =~= blocks_at(whole, 2, l.inode_blocks));
    assert(blocks_at(image, 2 + l.inode_blocks, l.dirent_blocks) =~= blocks_at(
        whole,
        2 + l.inode_blocks,
        l.dirent_blocks,
    ));
    assert(blocks_at(image, 2 + l.inode_blocks + l.dirent_blocks, l.xattr_blocks) =~= blocks_at(
        whole,
        2 + l.inode_blocks + l.dirent_blocks,
        l.xattr_blocks,
    ));
}

/// The superblocks of a new image that can be read say the same.
proof fn lemma_image_superblocks<D: BlockDevice>(
    device: D,
    whole: Seq<u8>,
    label: Seq<char>,
    version: SimpleFsFormatVersion,
    record: SuperblockRecord,
    superblock: Seq<u8>,
)
    requires
        device.reliable(),
        whole.len() >= 1024,
        whole.subrange(0, 512) == superblock,
        whole.subrange(512, 1024) == superblock,
        one_superblock_left(device, whole),
        is_superblock(superblock, label, version, record),
        record_valid(record),
        record.pending_commit == 0,
    ensures
        superblock_contents(superblock) is Ok,
        superblocks_say(
            device,
            superblock_contents(superblock)->Ok_0.0,
            (ParsedSuperblock { format_version: version, record }),
        ),
        encode_utf8(label).len() <= SUPERBLOCK_LABEL_LEN && !encode_utf8(label).contains(0u8)
            ==> superblock_contents(superblock)->Ok_0.0 == label,
{
    law_superblock_round_trip(superblock, label, version, record);
    device.lemma_reliable_read(0, 512);
    device.lemma_reliable_read(1, 512);
}

/// What an image consists of, as a mount looks at it.
proof fn lemma_image_found(
    image: Seq<u8>,
    label: Seq<char>,
    version: SimpleFsFormatVersion,
    plan: ImagePlan,
    extra_blocks: int,
    superblock: Seq<u8>,
    inode_table: Seq<u8>,
    dirent_table: Seq<u8>,
    g: VolumeGeometry,
    t: TreeView,
)
    requires
        0 <= extra_blocks,
        is_image(
            image,
            label,
            version,
            plan,
            extra_blocks,
            superblock,
            inode_table,
            dirent_table,
        ),
        layout_fits(plan.layout, version, (image.len() / 512) as int),
        image_geometry(g, plan.layout, version),
        t.inodes == plan.inodes,
        t.entries == plan.entries,
        t.xattrs == Seq::<XattrView>::empty(),
        g.tables_fit(t),
    ensures
        image.len() >= 1024,
        image.subrange(0, 512) == superblock,
        image.subrange(512, 1024) == superblock,
        ({
            let record = image_record(
                plan.layout,
                version,
                plan.inodes.len() as int,
                plan.entries.len() as int,
            );
            &&& is_superblock(superblock, label, version, record)
            &&& record_valid(record)
            &&& record.pending_commit == 0
            &&& describes(
                ParsedSuperblock { format_version: version, record },
                g,
                t,
                image_slot(plan.layout, version),
            )
        }),
        slot_holds(image, image_slot(plan.layout, version), g, t),
{
    reveal(is_image);
    let l = plan.layout;
    lemma_image_parts(
        image,
        superblock,
        inode_table,
        dirent_table,
        zeros((l.xattr_blocks * 512) as nat),
        plan.data,
        zeros((extra_blocks * 512) as nat),
        l,
    );
    lemma_image_slot_holds(image, g, t, l, version, inode_table, dirent_table);
}

proof fn lemma_image_slot_holds(
    image: Seq<u8>,
    g: VolumeGeometry,
    t: TreeView,
    l: ImageLayout,
    version: SimpleFsFormatVersion,
    inode_table: Seq<u8>,
    dirent_table: Seq<u8>,
)
    requires
        layout_fits(l, version, (image.len() / 512) as int),
        image_geometry(g, l, version),
        t.xattrs == Seq::<XattrView>::empty(),
        blocks_at(image, 2, l.inode_blocks) == inode_table,
        blocks_at(image, 2 + l.inode_blocks, l.dirent_blocks) == dirent_table,
        blocks_at(image, 2 + l.inode_blocks + l.dirent_blocks, l.xattr_blocks) == zeros(
            (l.xattr_blocks * 512) as nat,
        ),
        inodes_written(zeros((l.inode_blocks * 512) as nat), inode_table, 0, t.inodes, version),
        dirents_written(zeros((l.dirent_blocks * 512) as nat), dirent_table, 0, t.entries),
    ensures
        slot_holds(image, image_slot(l, version), g, t),
{
    assert(l.data_start * 512 <= image.len());
}

/// A new image holds the contents of each of its files where the file's inode says.
pub proof fn law_image_holds_contents(nodes: Seq<NodeView>, order: Seq<int>, k: int, n: int)
    requires
        0 <= k < n <= order.len(),
        nodes[order[k]].kind != NodeKind::Directory,
    ensures
        ({
            let from = blocks_upto(nodes, order, k) * 512;
            let data = nodes[order[k]].data;
            &&& data_upto(nodes, order, n).len() == blocks_upto(nodes, order, n) * 512
            &&& 0 <= from
            &&& from + data.len() <= data_upto(nodes, order, n).len()
            &&& data_upto(nodes, order, n).subrange(from, from + data.len()) == data
        }),
    decreases n,
{
    lemma_data_len(nodes, order, n);
    lemma_data_len(nodes, order, k);
    let data = nodes[order[k]].data;
    let from = blocks_upto(nodes, order, k) * 512;
    lemma_blocks_grow(nodes, order, k, n);
    if k == n - 1 {
        let piece = with_length(data, node_blocks(nodes[order[k]]) * 512);
        assert(data_upto(nodes, order, n) == data_upto(nodes, order, k) + piece);
        assert(data_upto(nodes, order, n).subrange(from, from + data.len()) =~= data);
    } else {
        law_image_holds_contents(nodes, order, k, n - 1);
        let before = data_upto(nodes, order, n - 1);
        assert(before.subrange(from, from + data.len()) == data);
        assert(data_upto(nodes, order, n).subrange(from, from + data.len()) =~= before.subrange(
            from,
            from + data.len(),
        ));
    }
}

pub proof fn lemma_data_len(nodes: Seq<NodeView>, order: Seq<int>, n: int)
    ensures
        n >= 0 ==> data_upto(nodes, order, n).len() == blocks_upto(nodes, order, n) * 512,
        blocks_upto(nodes, order, n) >= 0,
    decreases n,
{
    if n > 0 {
        lemma_data_len(nodes, order, n - 1);
    }
}

} // verus!
