//! What a mount finds of what was committed.
use vstd::prelude::*;
use vstd::string::*;
use vstd::utf8::*;

use crate::block::BlockDevice;
use crate::bytes::{put, zeros};
use crate::error::Error;
use crate::simplefs::constants::{DIRENT_NAME_LEN_OFFSET, DIRENT_NAME_MAX, DIRENT_NAME_OFFSET, SUPERBLOCK_LABEL_LEN, XATTR_NAME_OFFSET, XATTR_VALUE_OFFSET};
use crate::simplefs::encode::{all_as_stored, law_dirent_table_round_trip, law_inode_table_round_trip, names_fit};
use crate::simplefs::mount::{LoadedView, loadable, mount_order, mountable};
use crate::simplefs::open::{clamped, open_outcome};
use crate::simplefs::reach::lemma_all_reached_same;
use crate::simplefs::resize::{lemma_cover_count_resized, same_node};
use crate::simplefs::settle::lemma_layout_swaps;
use crate::simplefs::state::{RestView, TableSlot, TreeView};
use crate::simplefs::superblock::{law_superblock_round_trip, record_valid, stored_superblock, superblock_contents};
use crate::simplefs::tables::{dirent_at, dirents_in, inode_at, inodes_in, kind_of_code, padded, stored_dirents, stored_inodes};
use crate::simplefs::tree::VolumeGeometry;
use crate::simplefs::types::{DirEntryView, OnDiskInode, ParsedSuperblock, SimpleFsFormatVersion, XattrView};
use crate::simplefs::validate::{cover_count, dirs_ok, entry_ok, extent_ok, extents_apart, live_dir, metadata_valid, ref_count, slice_end, slice_names_distinct};
use crate::simplefs::volume::{CommitParts, commit_steps, committed, geometry_ok, mirrored, slot_on_device, tables_stored};
use crate::simplefs::xattr_table::{law_xattr_table_round_trip, stored_xattrs, xattr_at, xattr_run, xattr_storable};
use crate::vfs::NodeKind;

verus! {

/// A tree is as mountable as it is once its inodes are kept in a table.
proof fn lemma_stored_valid(
    inodes: Seq<OnDiskInode>,
    entries: Seq<DirEntryView>,
    version: SimpleFsFormatVersion,
    start: int,
    blocks: int,
    cs: bool,
)
    requires
        metadata_valid(inodes, entries, start, blocks, cs),
    ensures
        metadata_valid(all_as_stored(inodes, version), entries, start, blocks, cs),
{
    let n = all_as_stored(inodes, version);
    assert forall|i: int| #![trigger n[i]] 0 <= i < n.len() implies same_node(inodes[i], n[i])
        && extent_ok(n[i], start, blocks) by {
        assert(extent_ok(inodes[i], start, blocks));
    }
    assert(same_node(inodes[0], n[0]));
    assert(dirs_ok(n, entries, cs)) by {
        assert forall|i: int|
            #![trigger n[i]]
            0 <= i < n.len() && n[i].kind == NodeKind::Directory implies slice_end(n[i])
            <= entries.len() by {
            assert(slice_end(inodes[i]) <= entries.len());
        }
        assert forall|i: int|
            #![trigger n[i]]
            0 <= i < n.len() && live_dir(n[i]) implies slice_names_distinct(
            entries,
            n[i].entry_start as int,
            slice_end(n[i]),
            cs,
        ) by {
            assert(live_dir(inodes[i]));
        }
    }
    assert forall|i: int, j: int| #![trigger n[i], n[j]] 0 <= i < j < n.len() implies extents_apart(
        n[i],
        n[j],
    ) by {
        assert(extents_apart(inodes[i], inodes[j]));
    }
    assert forall|d: int| #![trigger cover_count(n, d)] 0 <= d < entries.len() implies cover_count(
        n,
        d,
    ) == 1 by {
        assert(cover_count(inodes, d) == 1);
        lemma_cover_count_resized(inodes, n, d);
    }
    assert forall|d: int| #![trigger entries[d]] 0 <= d < entries.len() implies entry_ok(
        entries[d],
        n,
    ) by {
        assert(entry_ok(entries[d], inodes));
        assert(same_node(
            inodes[entries[d].inode_index as int],
            n[entries[d].inode_index as int],
        ));
    }
    assert forall|i: int|
        #![trigger ref_count(entries, i)]
        1 <= i < n.len() && !n[i].deleted implies ref_count(entries, i) == 1 by {
        assert(same_node(inodes[i], n[i]));
        assert(ref_count(entries, i) == 1);
    }
    lemma_all_reached_same(inodes, n, entries);
}

/// The bytes of `blocks` blocks from block `at` on.
pub open spec fn blocks_at(image: Seq<u8>, at: int, blocks: int) -> Seq<u8> {
    image.subrange(at * 512, at * 512 + blocks * 512)
}

/// Whether a slot on a device holds the tables of a tree.
pub open spec fn slot_holds(
    image: Seq<u8>,
    slot: TableSlot,
    g: VolumeGeometry,
    t: TreeView,
) -> bool {
    &&& slot_on_device(slot, g, image.len())
    &&& g.is_inode_table(blocks_at(image, slot.inode_block as int, g.inode_table_blocks as int), t)
    &&& g.is_dirent_table(
        blocks_at(image, slot.dirent_block as int, g.dirent_table_blocks as int),
        t,
    )
    &&& g.format_version.stores_xattrs() ==> g.is_xattr_table(
        blocks_at(image, slot.xattr_block as int, g.xattr_table_blocks as int),
        t,
    )
}

/// Whether a geometry's capacities are those of its tables.
pub open spec fn capacities_full(g: VolumeGeometry) -> bool {
    &&& g.inode_capacity == clamped(g.inode_table_blocks * 16)
    &&& g.dirent_capacity == clamped(g.dirent_table_blocks * 8)
    &&& g.xattr_capacity == clamped(g.xattr_table_blocks * 512 / 336)
}

/// Whether a tree can be kept in a volume's tables and mounted from them.
pub open spec fn tree_storable(g: VolumeGeometry, t: TreeView, blocks: int) -> bool {
    &&& g.tables_fit(t)
    &&& metadata_valid(
        t.inodes,
        t.entries,
        g.data_block_start as int,
        blocks,
        g.case_sensitive,
    )
    &&& forall|k: int| #![trigger t.xattrs[k]] 0 <= k < t.xattrs.len() ==> xattr_storable(
        t.xattrs[k],
    )
}

/// Whether a superblock describes a tree whose tables are in a slot.
pub open spec fn describes(
    parsed: ParsedSuperblock,
    g: VolumeGeometry,
    t: TreeView,
    slot: TableSlot,
) -> bool {
    let r = parsed.record;
    &&& parsed.format_version == g.format_version
    &&& r.inode_count == t.inodes.len()
    &&& r.dirent_count == t.entries.len()
    &&& r.active_inode_table_block == slot.inode_block
    &&& r.active_dirent_table_block == slot.dirent_block
    &&& r.active_xattr_table_block == slot.xattr_block
    &&& r.inode_table_blocks == g.inode_table_blocks
    &&& r.dirent_table_blocks == g.dirent_table_blocks
    &&& r.xattr_table_blocks == g.xattr_table_blocks
    &&& r.data_block_start == g.data_block_start
}

proof fn lemma_inodes_in_prefix(
    a: Seq<u8>,
    b: Seq<u8>,
    version: SimpleFsFormatVersion,
    count: nat,
)
    requires
        count * 32 <= a.len(),
        count * 32 <= b.len(),
        a.take(count as int * 32) == b.take(count as int * 32),
    ensures
        inodes_in(a, version, count) == inodes_in(b, version, count),
{
    assert forall|i: int| 0 <= i < count * 32 implies a[i] == b[i] by {
        assert(a.take(count as int * 32)[i] == a[i] && b.take(count as int * 32)[i] == b[i]);
    }
    assert forall|i: int| 0 <= i < count implies a[i * 32] == b[i * 32] && #[trigger] inode_at(
        a,
        i * 32,
        version,
    ) == inode_at(b, i * 32, version) by {
        assert(i * 32 + 32 <= count * 32);
    }
    if forall|i: int| 0 <= i < count ==> (#[trigger] kind_of_code(a[i * 32])) is Ok {
        assert forall|i: int| 0 <= i < count implies (#[trigger] kind_of_code(b[i * 32])) is Ok by {
            assert(kind_of_code(a[i * 32]) is Ok);
            assert(inode_at(a, i * 32, version) == inode_at(b, i * 32, version));
        }
        assert(Seq::new(count, |i: int| inode_at(a, i * 32, version)) =~= Seq::new(
            count,
            |i: int| inode_at(b, i * 32, version),
        ));
    } else {
        let i = choose|i: int| 0 <= i < count && !((#[trigger] kind_of_code(a[i * 32])) is Ok);
        assert(inode_at(a, i * 32, version) == inode_at(b, i * 32, version));
        assert(!(kind_of_code(b[i * 32]) is Ok));
    }
}

proof fn lemma_dirents_in_prefix(a: Seq<u8>, b: Seq<u8>, count: nat)
    requires
        count * 64 <= a.len(),
        count * 64 <= b.len(),
        a.take(count as int * 64) == b.take(count as int * 64),
    ensures
        dirents_in(a, count) == dirents_in(b, count),
{
    assert forall|i: int| 0 <= i < count * 64 implies a[i] == b[i] by {
        assert(a.take(count as int * 64)[i] == a[i] && b.take(count as int * 64)[i] == b[i]);
    }
    assert forall|i: int| 0 <= i < count implies #[trigger] dirent_at(a, i * 64) == dirent_at(
        b,
        i * 64,
    ) by {
        let base = i * 64;
        assert(base + 64 <= count * 64);
        let n = a[base + DIRENT_NAME_LEN_OFFSET];
        if n <= DIRENT_NAME_MAX {
            assert(a.subrange(base + DIRENT_NAME_OFFSET, base + DIRENT_NAME_OFFSET + n)
                =~= b.subrange(base + DIRENT_NAME_OFFSET, base + DIRENT_NAME_OFFSET + n));
        }
    }
    if forall|i: int| 0 <= i < count ==> (#[trigger] dirent_at(a, i * 64)) is Ok {
        assert forall|i: int| 0 <= i < count implies (#[trigger] dirent_at(b, i * 64)) is Ok by {
            assert(dirent_at(a, i * 64) is Ok);
        }
        assert(Seq::new(count, |i: int| dirent_at(a, i * 64)->Ok_0) =~= Seq::new(
            count,
            |i: int| dirent_at(b, i * 64)->Ok_0,
        ));
    } else {
        let i = choose|i: int| 0 <= i < count && !((#[trigger] dirent_at(a, i * 64)) is Ok);
        assert(!(dirent_at(b, i * 64) is Ok));
    }
}

/// An inode table on a device that works is read back as it is kept.
proof fn lemma_inode_table_loads<D: BlockDevice>(
    device: D,
    g: VolumeGeometry,
    t: TreeView,
    block: int,
)
    requires
        device.reliable(),
        0 <= block,
        g.inode_table_blocks * 512 <= usize::MAX,
        block * 512 + g.inode_table_blocks * 512 <= device.image().len(),
        t.inodes.len() * 32 <= g.inode_table_blocks * 512,
        g.is_inode_table(blocks_at(device.image(), block, g.inode_table_blocks as int), t),
    ensures
        stored_inodes(device, g.format_version, block, t.inodes.len()) == Ok::<
            Seq<OnDiskInode>,
            Error,
        >(all_as_stored(t.inodes, g.format_version)),
{
    let image = device.image();
    let table = blocks_at(image, block, g.inode_table_blocks as int);
    let n = t.inodes.len();
    let len = padded(n as int * 32);
    device.lemma_reliable_read(block, len);
    let read = image.subrange(block * 512, block * 512 + len);
    law_inode_table_round_trip(
        zeros((g.inode_table_blocks * 512) as nat),
        table,
        t.inodes,
        g.format_version,
    );
    assert(read.take(n as int * 32) =~= table.take(n as int * 32));
    lemma_inodes_in_prefix(read, table, g.format_version, n);
}

/// An entry table on a device that works is read back.
proof fn lemma_dirent_table_loads<D: BlockDevice>(
    device: D,
    g: VolumeGeometry,
    t: TreeView,
    block: int,
)
    requires
        device.reliable(),
        0 <= block,
        g.dirent_table_blocks * 512 <= usize::MAX,
        block * 512 + g.dirent_table_blocks * 512 <= device.image().len(),
        t.entries.len() * 64 <= g.dirent_table_blocks * 512,
        names_fit(t.entries),
        g.is_dirent_table(blocks_at(device.image(), block, g.dirent_table_blocks as int), t),
    ensures
        stored_dirents(device, block, t.entries.len()) == Ok::<Seq<DirEntryView>, Error>(t.entries),
{
    let image = device.image();
    let table = blocks_at(image, block, g.dirent_table_blocks as int);
    let n = t.entries.len();
    let len = padded(n as int * 64);
    device.lemma_reliable_read(block, len);
    let read = image.subrange(block * 512, block * 512 + len);
    law_dirent_table_round_trip(zeros((g.dirent_table_blocks * 512) as nat), table, t.entries);
    assert(read.take(n as int * 64) =~= table.take(n as int * 64));
    lemma_dirents_in_prefix(read, table, n);
}

proof fn lemma_xattr_run_prefix(a: Seq<u8>, b: Seq<u8>, k: int, capacity: int)
    requires
        0 <= k <= capacity,
        capacity * 336 <= a.len(),
        capacity * 336 <= b.len(),
        forall|i: int| 0 <= i < capacity * 336 ==> a[i] == b[i],
    ensures
        xattr_run(a, k, capacity) == xattr_run(b, k, capacity),
    decreases capacity - k,
{
    if k < capacity {
        assert(a.subrange(k * 336, k * 336 + 336) =~= b.subrange(k * 336, k * 336 + 336));
        let base = k * 336;
        assert(xattr_at(a, base) == xattr_at(b, base)) by {
            assert(a.subrange(base + XATTR_NAME_OFFSET, base + XATTR_VALUE_OFFSET) =~= b.subrange(
                base + XATTR_NAME_OFFSET,
                base + XATTR_VALUE_OFFSET,
            ));
            assert(a.subrange(base + XATTR_VALUE_OFFSET, base + 336) =~= b.subrange(
                base + XATTR_VALUE_OFFSET,
                base + 336,
            ));
        }
        lemma_xattr_run_prefix(a, b, k + 1, capacity);
    }
}

/// An attribute table on a device that works is read back.
pub proof fn lemma_xattr_table_loads<D: BlockDevice>(
    device: D,
    g: VolumeGeometry,
    t: TreeView,
    block: int,
)
    requires
        device.reliable(),
        0 <= block,
        g.xattr_table_blocks * 512 <= usize::MAX,
        block * 512 + g.xattr_table_blocks * 512 <= device.image().len(),
        g.xattr_capacity * 336 <= g.xattr_table_blocks * 512,
        t.xattrs.len() <= g.xattr_capacity,
        g.format_version.stores_xattrs(),
        forall|k: int| #![trigger t.xattrs[k]] 0 <= k < t.xattrs.len() ==> xattr_storable(
            t.xattrs[k],
        ),
        g.is_xattr_table(blocks_at(device.image(), block, g.xattr_table_blocks as int), t),
    ensures
        stored_xattrs(device, block, g.xattr_capacity as nat) == Ok::<Seq<XattrView>, Error>(
            t.xattrs,
        ),
{
    let image = device.image();
    let table = blocks_at(image, block, g.xattr_table_blocks as int);
    let cap = g.xattr_capacity as int;
    let len = padded(cap * 336);
    device.lemma_reliable_read(block, len);
    let read = image.subrange(block * 512, block * 512 + len);
    law_xattr_table_round_trip(table, t.xattrs, cap);
    lemma_xattr_run_prefix(read, table, 0, cap);
}

/// Tables in a slot are loaded by any superblock that describes them.
pub proof fn lemma_slot_loads<D: BlockDevice>(
    device: D,
    parsed: ParsedSuperblock,
    g: VolumeGeometry,
    t: TreeView,
    slot: TableSlot,
)
    requires
        device.reliable(),
        geometry_ok(g),
        describes(parsed, g, t, slot),
        slot_holds(device.image(), slot, g, t),
        tree_storable(g, t, (device.image().len() / 512) as int),
    ensures
        loadable(device, parsed, g.case_sensitive) == Ok::<
            (Seq<OnDiskInode>, Seq<DirEntryView>),
            Error,
        >((all_as_stored(t.inodes, g.format_version), t.entries)),
{
    lemma_inode_table_loads(device, g, t, slot.inode_block as int);
    lemma_dirent_table_loads(device, g, t, slot.dirent_block as int);
    lemma_stored_valid(
        t.inodes,
        t.entries,
        g.format_version,
        g.data_block_start as int,
        (device.image().len() / 512) as int,
        g.case_sensitive,
    );
}

/// Whether a slot's attribute table keeps clear of the superblocks and of the slot's
/// other tables.
pub open spec fn xattr_table_apart(slot: TableSlot, g: VolumeGeometry) -> bool {
    g.format_version.stores_xattrs() ==> {
        &&& 2 <= slot.xattr_block
        &&& slot.xattr_block + g.xattr_table_blocks <= slot.inode_block || slot.dirent_block
            + g.dirent_table_blocks <= slot.xattr_block
    }
}

/// A commit leaves both superblocks and the slot's tables in place.
pub proof fn lemma_commit_places(
    image: Seq<u8>,
    g: VolumeGeometry,
    r: RestView,
    publish: Seq<u8>,
    marked: Seq<u8>,
    inode_table: Seq<u8>,
    dirent_table: Seq<u8>,
    xattr_table: Seq<u8>,
)
    requires
        marked.len() == image.len(),
        publish.len() == 512,
        inode_table.len() == g.inode_table_blocks * 512,
        dirent_table.len() == g.dirent_table_blocks * 512,
        g.format_version.stores_xattrs() ==> xattr_table.len() == g.xattr_table_blocks * 512,
        !g.format_version.stores_xattrs() ==> xattr_table.len() == 0,
        image == mirrored(
            tables_stored(marked, r.shadow, inode_table, dirent_table, xattr_table),
            publish,
        ),
        slot_on_device(r.shadow, g, image.len()),
        2 <= r.shadow.inode_block,
        r.shadow.dirent_block == r.shadow.inode_block + g.inode_table_blocks,
        xattr_table_apart(r.shadow, g),
    ensures
        image.subrange(0, 512) == publish,
        image.subrange(512, 1024) == publish,
        blocks_at(image, r.shadow.inode_block as int, g.inode_table_blocks as int) == inode_table,
        blocks_at(image, r.shadow.dirent_block as int, g.dirent_table_blocks as int)
            == dirent_table,
        g.format_version.stores_xattrs() ==> blocks_at(
            image,
            r.shadow.xattr_block as int,
            g.xattr_table_blocks as int,
        ) == xattr_table,
{
    let s1 = put(marked, r.shadow.inode_block * 512, inode_table);
    let s2 = put(s1, r.shadow.dirent_block * 512, dirent_table);
    let s3 = put(s2, r.shadow.xattr_block * 512, xattr_table);
    if !g.format_version.stores_xattrs() {
        assert(s3 =~= s2);
    }
    assert(image == put(put(s3, 512, publish), 0, publish));
    assert(image.subrange(0, 512) =~= publish);
    assert(image.subrange(512, 1024) =~= publish);
    assert(blocks_at(image, r.shadow.inode_block as int, g.inode_table_blocks as int)
        =~= inode_table);
    assert(blocks_at(image, r.shadow.dirent_block as int, g.dirent_table_blocks as int)
        =~= dirent_table);
    if g.format_version.stores_xattrs() {
        assert(blocks_at(image, r.shadow.xattr_block as int, g.xattr_table_blocks as int)
            =~= xattr_table);
    }
}

/// Whether a device has a readable superblock, and every readable one says the same.
pub open spec fn superblocks_say<D: BlockDevice>(
    device: D,
    label: Seq<char>,
    parsed: ParsedSuperblock,
) -> bool {
    let said = Ok::<(Seq<char>, ParsedSuperblock), Error>((label, parsed));
    &&& stored_superblock(device, 0) == said || stored_superblock(device, 1) == said
    &&& stored_superblock(device, 0) is Ok ==> stored_superblock(device, 0) == said
    &&& stored_superblock(device, 1) is Ok ==> stored_superblock(device, 1) == said
}

/// A device whose readable superblocks describe one slot is mounted from that slot.
pub proof fn lemma_mounts_from_slot<D: BlockDevice>(
    device: D,
    label: Seq<char>,
    parsed: ParsedSuperblock,
    g: VolumeGeometry,
    t: TreeView,
    slot: TableSlot,
)
    requires
        device.reliable(),
        geometry_ok(g),
        capacities_full(g),
        superblocks_say(device, label, parsed),
        describes(parsed, g, t, slot),
        slot_holds(device.image(), slot, g, t),
        tree_storable(g, t, (device.image().len() / 512) as int),
    ensures
        open_outcome(device, g.case_sensitive) is Ok,
        open_outcome(device, g.case_sensitive)->Ok_0.0 == (LoadedView {
            label,
            parsed,
            inodes: all_as_stored(t.inodes, g.format_version),
            entries: t.entries,
        }),
        g.format_version.stores_xattrs() ==> open_outcome(device, g.case_sensitive)->Ok_0.1
            == t.xattrs,
{
    lemma_slot_loads(device, parsed, g, t, slot);
    assert(mount_order(device)[0] == (label, parsed));
    if g.format_version.stores_xattrs() {
        lemma_xattr_table_loads(device, g, t, slot.xattr_block as int);
    }
}

/// What was committed is what the next mount finds: every inode as the table keeps
/// it, every directory entry, and every attribute.
pub proof fn law_commit_then_mount<D: BlockDevice>(
    before: Seq<u8>,
    device: D,
    g: VolumeGeometry,
    t: TreeView,
    r: RestView,
)
    requires
        device.reliable(),
        geometry_ok(g),
        capacities_full(g),
        r.generation < u32::MAX,
        before.len() == device.image().len(),
        committed(before, device.image(), g, t, r),
        slot_on_device(r.shadow, g, device.image().len()),
        tree_storable(g, t, (device.image().len() / 512) as int),
        record_valid(g.record_of(t, r)),
        xattr_table_apart(r.shadow, g),
    ensures
        open_outcome(device, g.case_sensitive) is Ok,
        ({
            let v = open_outcome(device, g.case_sensitive)->Ok_0.0;
            let xattrs = open_outcome(device, g.case_sensitive)->Ok_0.1;
            &&& v.parsed.format_version == g.format_version
            &&& v.parsed.record == g.published_record(t, r, (r.generation + 1) as u32)
            &&& v.inodes == all_as_stored(t.inodes, g.format_version)
            &&& v.entries == t.entries
            &&& g.format_version.stores_xattrs() ==> xattrs == t.xattrs
            &&& encode_utf8(g.label@).len() <= SUPERBLOCK_LABEL_LEN && !encode_utf8(
                g.label@,
            ).contains(0u8) ==> v.label == g.label@
        }),
{
    let image = device.image();
    let p = choose|p: CommitParts| #[trigger] commit_steps(before, image, g, t, r, p);
    let publish = p.publish;
    let next = (r.generation + 1) as u32;
    lemma_commit_places(
        image,
        g,
        r,
        publish,
        before,
        p.inode_table,
        p.dirent_table,
        p.xattr_table,
    );
    let record = g.published_record(t, r, next);
    let parsed = ParsedSuperblock { format_version: g.format_version, record };
    lemma_layout_swaps(g, t, t, r);
    law_superblock_round_trip(publish, g.label@, g.format_version, record);
    device.lemma_reliable_read(0, 512);
    device.lemma_reliable_read(1, 512);
    assert(stored_superblock(device, 0) == superblock_contents(publish));
    assert(stored_superblock(device, 1) == superblock_contents(publish));
    assert(slot_holds(image, r.shadow, g, t));
    assert(describes(parsed, g, t, r.shadow));
    lemma_mounts_from_slot(
        device,
        superblock_contents(publish)->Ok_0.0,
        parsed,
        g,
        t,
        r.shadow,
    );
}

/// Whether a superblock of a device is unreadable, or describes the old tree, or
/// describes the new one, whose tables are then in place.
pub open spec fn superblock_settled<D: BlockDevice>(
    device: D,
    block: int,
    g: VolumeGeometry,
    old_tree: TreeView,
    old_slot: TableSlot,
    new_tree: TreeView,
    new_slot: TableSlot,
) -> bool {
    match stored_superblock(device, block) {
        Err(_) => true,
        Ok((_, parsed)) => describes(parsed, g, old_tree, old_slot) || (describes(
            parsed,
            g,
            new_tree,
            new_slot,
        ) && slot_holds(device.image(), new_slot, g, new_tree)),
    }
}

/// However far a commit got before it was cut off, the next mount finds the tree from
/// before it or the tree from after it, and nothing in between, as long as each
/// superblock is as it was, is the new one, or cannot be read, and one can be read.
pub proof fn law_interrupted_commit_is_atomic<D: BlockDevice>(
    device: D,
    g: VolumeGeometry,
    old_tree: TreeView,
    old_slot: TableSlot,
    new_tree: TreeView,
    new_slot: TableSlot,
)
    requires
        device.reliable(),
        geometry_ok(g),
        tree_storable(g, old_tree, (device.image().len() / 512) as int),
        tree_storable(g, new_tree, (device.image().len() / 512) as int),
        slot_holds(device.image(), old_slot, g, old_tree),
        superblock_settled(device, 0, g, old_tree, old_slot, new_tree, new_slot),
        superblock_settled(device, 1, g, old_tree, old_slot, new_tree, new_slot),
        stored_superblock(device, 0) is Ok || stored_superblock(device, 1) is Ok,
    ensures
        mountable(device, g.case_sensitive) is Ok,
        ({
            let v = mountable(device, g.case_sensitive)->Ok_0;
            ||| v.inodes == all_as_stored(old_tree.inodes, g.format_version) && v.entries
                == old_tree.entries
            ||| v.inodes == all_as_stored(new_tree.inodes, g.format_version) && v.entries
                == new_tree.entries
        }),
{
    let order = mount_order(device);
    assert(order.len() > 0);
    let parsed = order[0].1;
    if describes(parsed, g, old_tree, old_slot) {
        lemma_slot_loads(device, parsed, g, old_tree, old_slot);
    } else {
        lemma_slot_loads(device, parsed, g, new_tree, new_slot);
    }
}

} // verus!
