//! What reads and writes of files promise each other.
use vstd::prelude::*;

use crate::block::{BlockDevice, DeviceHealth};
use crate::bytes::put;
use crate::error::Error;
use crate::simplefs::create::best_start;
use crate::simplefs::create_file::lemma_free_run;
use crate::simplefs::extents::run_starts_at;
use crate::simplefs::file_ops::{append_step, holding, length_step, overlaid, overwrite_step, relengthened, set_len_outcome, unshare_step, unshared, with_length, write_outcome};
use crate::simplefs::file_read::{blocks_read, data_checksum, file_bytes, read_count};
use crate::simplefs::file_write::{capacity_step, file_fault, file_settled, grow_place, grown_data, held_blocks, lemma_best_start, steady};
use crate::simplefs::names::block_span;
use crate::simplefs::superblock::record_valid;
use crate::simplefs::types::OnDiskInode;
use crate::simplefs::validate::{extent_end, extent_ok, owns_extent};
use crate::simplefs::volume::{SimpleFs, in_metadata_slot, same_outside};
use crate::vfs::NodeKind;

verus! {

/// Whether both attribute tables of a volume lie before its data, as a sound image
/// lays them out.
pub open spec fn xattrs_before_data<D: BlockDevice>(fs: SimpleFs<D>) -> bool {
    fs.geometry.format_version.stores_xattrs() ==> {
        &&& fs.state.active.xattr_block + fs.geometry.xattr_table_blocks
            <= fs.geometry.data_block_start
        &&& fs.state.shadow.xattr_block + fs.geometry.xattr_table_blocks
            <= fs.geometry.data_block_start
    }
}

/// Whether the layout of a volume keeps all metadata out of the data area.
pub open spec fn layout_apart<D: BlockDevice>(fs: SimpleFs<D>) -> bool {
    &&& record_valid(fs.geometry.record_of(fs.state.tree(), fs.state.rest()))
    &&& xattrs_before_data(fs)
}

/// No metadata lies in the data area of a volume with such a layout.
pub proof fn lemma_layout_below<D: BlockDevice>(fs: SimpleFs<D>, i: int)
    requires
        layout_apart(fs),
        i >= fs.geometry.data_block_start * 512,
    ensures
        !in_metadata_slot(i, fs.state.shadow, fs.geometry),
{
    assert(record_valid(fs.geometry.record_of(fs.state.tree(), fs.state.rest())));
}

/// No metadata lies in the data area.
pub proof fn lemma_metadata_below<D: BlockDevice>(fs: SimpleFs<D>, i: int)
    requires
        fs.wf(),
        xattrs_before_data(fs),
        i >= fs.geometry.data_block_start * 512,
    ensures
        !in_metadata_slot(i, fs.state.shadow, fs.geometry),
{
    assert(record_valid(fs.geometry.record_of(fs.state.tree(), fs.state.rest())));
}

/// What is committed is what was written to the data area.
proof fn lemma_settled_data<D: BlockDevice, T>(
    a: SimpleFs<D>,
    b: SimpleFs<D>,
    x: int,
    inode: OnDiskInode,
    data: Seq<u8>,
    lo: int,
    hi: int,
    r: core::result::Result<T, Error>,
    from: int,
    to: int,
)
    requires
        a.wf(),
        xattrs_before_data(a),
        file_settled(a, b, x, inode, data, lo, hi, r),
        r is Ok,
        data.len() == a.device.image().len(),
        a.geometry.data_block_start * 512 <= from <= to <= a.device.image().len(),
    ensures
        b.device.image().subrange(from, to) == data.subrange(from, to),
{
    assert forall|i: int| from <= i < to implies b.device.image()[i] == data[i] by {
        lemma_metadata_below(a, i);
    }
    assert(b.device.image().subrange(from, to) =~= data.subrange(from, to));
}

/// A file's place on the device is sound.
proof fn lemma_file_place<D: BlockDevice>(fs: SimpleFs<D>, i: int)
    requires
        fs.wf(),
        0 <= i < fs.state.tree().inodes.len(),
        owns_extent(fs.state.tree().inodes[i]),
    ensures
        ({
            let inode = fs.state.tree().inodes[i];
            &&& fs.geometry.data_block_start <= inode.data_block
            &&& extent_end(inode) * 512 <= fs.device.image().len()
            &&& inode.size <= inode.block_count * 512
        }),
{
    let blocks = (fs.device.image().len() / 512) as int;
    assert(extent_ok(fs.state.tree().inodes[i], fs.geometry.data_block_start as int, blocks));
}

/// Making room for a file changes none of its contents.
pub proof fn law_capacity_keeps_contents<D: BlockDevice>(
    a: SimpleFs<D>,
    m: SimpleFs<D>,
    x: int,
    len: int,
    r: core::result::Result<OnDiskInode, Error>,
)
    requires
        a.wf(),
        xattrs_before_data(a),
        0 <= x,
        0 <= len <= u32::MAX,
        capacity_step(a, m, x, len, r),
        r is Ok,
    ensures
        ({
            let before = a.state.tree().inodes[x];
            let after = m.state.tree().inodes[x];
            &&& xattrs_before_data(m)
            &&& after.size == before.size
            &&& after.block_count >= block_span(len)
            &&& before.size > 0 ==> file_bytes(m.device.image(), after) == file_bytes(
                a.device.image(),
                before,
            )
        }),
{
    let t = a.state.tree();
    let inode = t.inodes[x];
    let image = a.device.image();
    let required = block_span(len);
    let blocks = (image.len() / 512) as int;
    assert(extent_ok(inode, a.geometry.data_block_start as int, blocks));
    if required > inode.block_count {
        let start = grow_place(t, blocks, inode, required)->Ok_0;
        lemma_grow_place(a, x, required, start);
        let grown = OnDiskInode {
            data_block: start as u32,
            block_count: required as u32,
            ..inode
        };
        let data = grown_data(image, inode, start, required);
        if inode.size > 0 {
            lemma_settled_data(
                a,
                m,
                x,
                grown,
                data,
                if inode.block_count > 0 && start == inode.data_block {
                    extent_end(inode) * 512
                } else {
                    start * 512
                },
                (start + required) * 512,
                r,
                start * 512,
                start * 512 + inode.size,
            );
            assert(file_bytes(data, grown) =~= file_bytes(image, inode));
        }
    }
}

/// Where a file finds room there are free blocks of the data area, on the device.
proof fn lemma_grow_place<D: BlockDevice>(fs: SimpleFs<D>, x: int, required: int, start: int)
    requires
        fs.wf(),
        0 <= x < fs.state.tree().inodes.len(),
        fs.state.tree().inodes[x].kind == NodeKind::File,
        !fs.state.tree().inodes[x].deleted,
        fs.state.tree().inodes[x].block_count < required,
        grow_place(
            fs.state.tree(),
            (fs.device.image().len() / 512) as int,
            fs.state.tree().inodes[x],
            required,
        ) == Ok::<int, Error>(start),
    ensures
        fs.geometry.data_block_start <= start,
        start + required <= fs.device.image().len() / 512,
        start + required <= 0x1_0000_0000,
        ({
            let inode = fs.state.tree().inodes[x];
            let from = if inode.block_count > 0 && start == inode.data_block {
                extent_end(inode)
            } else {
                start
            };
            forall|i: int|
                #![trigger fs.state.tree().inodes[i]]
                0 <= i < fs.state.tree().inodes.len() && owns_extent(fs.state.tree().inodes[i])
                    ==> extent_end(fs.state.tree().inodes[i]) <= from || start + required
                    <= fs.state.tree().inodes[i].data_block
        }),
{
    let t = fs.state.tree();
    let g = fs.geometry;
    let inode = t.inodes[x];
    let blocks = (fs.device.image().len() / 512) as int;
    assert(extent_ok(inode, g.data_block_start as int, blocks));
    if inode.block_count > 0 && run_starts_at(
        t.free,
        extent_end(inode),
        required - inode.block_count,
    ) && inode.data_block + required <= blocks {
        lemma_free_run(t, g, blocks, extent_end(inode), required - inode.block_count);
    } else {
        lemma_best_start(t.free, required);
        lemma_free_run(t, g, blocks, start, required);
        if inode.block_count > 0 {
            assert(owns_extent(t.inodes[x]));
        }
    }
}

/// What a file holds, given its inode.
pub open spec fn contents_of<D: BlockDevice>(fs: SimpleFs<D>, x: int) -> Seq<u8> {
    let inode = fs.state.tree().inodes[x];
    if inode.size > 0 {
        file_bytes(fs.device.image(), inode)
    } else {
        Seq::empty()
    }
}

/// Overwriting leaves a file with what was written over what it held.
pub proof fn law_overwrite_contents<D: BlockDevice>(
    a: SimpleFs<D>,
    b: SimpleFs<D>,
    x: int,
    offset: int,
    buf: Seq<u8>,
    n: usize,
)
    requires
        a.wf(),
        xattrs_before_data(a),
        0 <= x < a.state.tree().inodes.len(),
        file_fault(a.state.tree(), x) is None,
        0 <= offset < a.state.tree().inodes[x].size,
        offset + buf.len() <= u32::MAX,
        overwrite_step(a, b, x, offset, buf, Ok(n)),
    ensures
        n == buf.len(),
        contents_of(b, x) == overlaid(contents_of(a, x), offset, buf),
        b.state.tree().inodes[x].data_checksum == data_checksum(contents_of(b, x)),
{
    let t = a.state.tree();
    let inode = t.inodes[x];
    let image = a.device.image();
    let blocks = (image.len() / 512) as int;
    lemma_file_place(a, x);
    let r: core::result::Result<usize, Error> = Ok(n);
    let contents = overlaid(file_bytes(image, inode), offset, buf);
    let span = block_span(contents.len() as int);
    assert(contents.len() >= inode.size);
    let start = best_start(t.free, span)->0;
    lemma_best_start(t.free, span);
    lemma_free_run(t, a.geometry, blocks, start, span);
    let after = holding(
        OnDiskInode { data_block: start as u32, block_count: span as u32, ..inode },
        contents,
    );
    let data = put(image, start * 512, with_length(contents, span * 512));
    lemma_settled_data(
        a,
        b,
        x,
        after,
        data,
        start * 512,
        (start + span) * 512,
        r,
        start * 512,
        start * 512 + contents.len(),
    );
    assert(file_bytes(data, after) =~= contents);
    assert(b.state.tree().inodes[x] == after);
}

/// A node that got blocks of its own holds what it held, shares nothing, and its blocks
/// were nobody's. Every other inode is as it was, and so is what it holds.
pub proof fn law_unshare_keeps_contents<D: BlockDevice>(
    a: SimpleFs<D>,
    b: SimpleFs<D>,
    x: int,
)
    requires
        a.wf(),
        xattrs_before_data(a),
        0 <= x < a.state.tree().inodes.len(),
        owns_extent(a.state.tree().inodes[x]),
        !a.state.tree().inodes[x].compressed,
        unshare_step(a, b, x, Ok(())),
    ensures
        contents_of(b, x) == contents_of(a, x),
        !b.state.tree().inodes[x].deduped,
        b.state.tree().inodes[x].data_block == best_start(
            a.state.tree().free,
            a.state.tree().inodes[x].block_count as int,
        )->0,
        b.state.tree().inodes.len() == a.state.tree().inodes.len(),
        forall|y: int|
            #![trigger b.state.tree().inodes[y]]
            0 <= y < a.state.tree().inodes.len() && y != x ==> b.state.tree().inodes[y]
                == a.state.tree().inodes[y],
        forall|y: int|
            #![trigger contents_of(b, y)]
            0 <= y < a.state.tree().inodes.len() && y != x && owns_extent(
                a.state.tree().inodes[y],
            ) ==> contents_of(b, y) == contents_of(a, y),
{
    let t = a.state.tree();
    let inode = t.inodes[x];
    let image = a.device.image();
    let blocks = (image.len() / 512) as int;
    let count = inode.block_count as int;
    lemma_file_place(a, x);
    let r: core::result::Result<(), Error> = Ok(());
    let start = best_start(t.free, count)->0;
    lemma_best_start(t.free, count);
    lemma_free_run(t, a.geometry, blocks, start, count);
    let after = unshared(inode, start);
    let held = held_blocks(image, inode);
    let data = put(image, start * 512, held);
    assert(held.len() == count * 512);
    lemma_settled_data(
        a,
        b,
        x,
        after,
        data,
        start * 512,
        (start + count) * 512,
        r,
        start * 512,
        start * 512 + inode.size,
    );
    assert(file_bytes(data, after) =~= file_bytes(image, inode));
    assert(b.state.tree().inodes[x] == after);
    assert forall|y: int|
        #![trigger contents_of(b, y)]
        0 <= y < t.inodes.len() && y != x && owns_extent(t.inodes[y]) implies contents_of(b, y)
        == contents_of(a, y) by {
        let other = t.inodes[y];
        lemma_file_place(a, y);
        let from = other.data_block * 512;
        lemma_settled_data(
            a,
            b,
            x,
            after,
            data,
            start * 512,
            (start + count) * 512,
            r,
            from,
            from + other.size,
        );
        assert(extent_end(other) <= start || start + count <= other.data_block);
        assert(file_bytes(data, other) =~= file_bytes(image, other));
    }
}

/// Writing at or past its end leaves a file with what it held, zeros up to the
/// write, and what was written.
pub proof fn law_append_contents<D: BlockDevice>(
    a: SimpleFs<D>,
    b: SimpleFs<D>,
    x: int,
    offset: int,
    buf: Seq<u8>,
    n: usize,
)
    requires
        a.wf(),
        xattrs_before_data(a),
        0 <= x < a.state.tree().inodes.len(),
        file_fault(a.state.tree(), x) is None,
        a.state.tree().inodes[x].size <= offset,
        buf.len() > 0,
        offset + buf.len() <= u32::MAX,
        block_span(offset + buf.len()) <= a.state.tree().inodes[x].block_count,
        append_step(a, b, x, offset, buf, Ok(n)),
    ensures
        n == buf.len(),
        contents_of(b, x) == overlaid(contents_of(a, x), offset, buf),
        b.state.tree().inodes[x].data_checksum == data_checksum(contents_of(b, x)),
{
    let inode = a.state.tree().inodes[x];
    let image = a.device.image();
    lemma_file_place(a, x);
    let r: core::result::Result<usize, Error> = Ok(n);
    let before = file_bytes(image, inode);
    let contents = overlaid(before, offset, buf);
    let base = inode.data_block * 512;
    let after = holding(inode, contents);
    let data = put(image, base, contents);
    assert(contents.len() == offset + buf.len());
    lemma_settled_data(
        a,
        b,
        x,
        after,
        data,
        base + inode.size / 512 * 512,
        extent_end(inode) * 512,
        r,
        base,
        base + contents.len(),
    );
    assert(file_bytes(data, after) =~= contents);
    assert(b.state.tree().inodes[x] == after);
    if inode.size == 0 {
        assert(before =~= Seq::<u8>::empty());
    }
}

/// After a successful write the file holds what was written, where it was written,
/// and what it held before everywhere else; a gap reads as zeros.
pub proof fn law_write_then_contents<D: BlockDevice>(
    a: SimpleFs<D>,
    b: SimpleFs<D>,
    x: int,
    offset: int,
    buf: Seq<u8>,
    n: usize,
)
    requires
        a.wf(),
        xattrs_before_data(a),
        0 <= x,
        0 <= offset,
        buf.len() > 0,
        write_outcome(a, b, x, offset, buf, Ok(n)),
    ensures
        n == buf.len(),
        contents_of(b, x) == overlaid(contents_of(a, x), offset, buf),
        b.state.tree().inodes[x].data_checksum == data_checksum(contents_of(b, x)),
{
    let inode = a.state.tree().inodes[x];
    let r: core::result::Result<usize, Error> = Ok(n);
    if offset < inode.size {
        law_overwrite_contents(a, b, x, offset, buf, n);
    } else {
        let (m, room) = choose|
            m: SimpleFs<D>,
            room: core::result::Result<OnDiskInode, Error>,
        |
            #![trigger capacity_step(a, m, x, offset + buf.len(), room)]
            m.wf() && capacity_step(a, m, x, offset + buf.len(), room) && match room {
                Err(e) => r == Err::<usize, Error>(e) && b == m,
                Ok(_) => append_step(m, b, x, offset, buf, r),
            };
        law_capacity_keeps_contents(a, m, x, offset + buf.len(), room);
        law_append_contents(m, b, x, offset, buf, n);
    }
}

/// After its length was set a file holds what it held before up to that length, and
/// zeros where it grew.
pub proof fn law_set_len_then_contents<D: BlockDevice>(
    a: SimpleFs<D>,
    b: SimpleFs<D>,
    x: int,
    len: int,
)
    requires
        a.wf(),
        xattrs_before_data(a),
        0 <= x,
        0 <= len,
        set_len_outcome(a, b, x, len, Ok(())),
    ensures
        contents_of(b, x) == with_length(contents_of(a, x), len),
        b.state.tree().inodes[x].size == len,
{
    let r: core::result::Result<(), Error> = Ok(());
    let (m, room) = choose|m: SimpleFs<D>, room: core::result::Result<OnDiskInode, Error>|
        #![trigger capacity_step(a, m, x, len, room)]
        m.wf() && capacity_step(a, m, x, len, room) && match room {
            Err(e) => r == Err::<(), Error>(e) && b == m,
            Ok(_) => length_step(m, b, x, len, r),
        };
    law_capacity_keeps_contents(a, m, x, len, room);
    lemma_length_contents(m, b, x, len);
}

proof fn lemma_length_contents<D: BlockDevice>(a: SimpleFs<D>, b: SimpleFs<D>, x: int, len: int)
    requires
        a.wf(),
        xattrs_before_data(a),
        0 <= x < a.state.tree().inodes.len(),
        file_fault(a.state.tree(), x) is None,
        0 <= len <= u32::MAX,
        block_span(len) <= a.state.tree().inodes[x].block_count,
        length_step(a, b, x, len, Ok(())),
    ensures
        contents_of(b, x) == with_length(contents_of(a, x), len),
        b.state.tree().inodes[x].size == len,
{
    let inode = a.state.tree().inodes[x];
    let image = a.device.image();
    let r: core::result::Result<(), Error> = Ok(());
    let before = file_bytes(image, inode);
    let contents = with_length(before, len);
    if inode.block_count > 0 {
        lemma_file_place(a, x);
        assert(before.len() == inode.size);
        if len == inode.size {
            assert(contents =~= before);
            assert(with_length(contents_of(a, x), len) =~= contents_of(a, x));
        } else {
            let base = inode.data_block * 512;
            let after = relengthened(inode, contents);
            let data = if len > inode.size {
                put(image, base, contents)
            } else {
                image
            };
            lemma_settled_data(
                a,
                b,
                x,
                after,
                data,
                base + inode.size / 512 * 512,
                extent_end(inode) * 512,
                r,
                base,
                base + len,
            );
            assert(b.state.tree().inodes[x] == after);
            if len > 0 {
                assert(file_bytes(data, after) =~= contents);
            }
            if inode.size == 0 {
                assert(before =~= Seq::<u8>::empty());
            }
            assert(contents_of(b, x) =~= contents);
        }
    } else {
        let blocks = (image.len() / 512) as int;
        assert(extent_ok(inode, a.geometry.data_block_start as int, blocks));
        assert(len == 0);
        assert(with_length(contents_of(a, x), len) =~= contents_of(a, x));
    }
}

/// A read of a sound file from a device that works yields its contents.
pub proof fn law_read_yields_contents<D: BlockDevice>(
    device: D,
    inode: OnDiskInode,
    offset: int,
    room: int,
)
    requires
        device.reliable(),
        device.health() != DeviceHealth::Failed,
        extent_end(inode) * 512 <= device.image().len(),
        inode.size <= inode.block_count * 512,
        inode.block_count * 512 <= usize::MAX,
        0 <= offset < inode.size,
        0 <= room,
    ensures
        ({
            let count = read_count(inode, offset, room);
            let from = offset % 512;
            &&& blocks_read(device, inode, offset, count) is Ok
            &&& blocks_read(device, inode, offset, count)->Ok_0.subrange(from, from + count)
                == file_bytes(device.image(), inode).subrange(offset, offset + count)
        }),
{
    let count = read_count(inode, offset, room);
    let first = offset / 512;
    let end = block_span(offset + count);
    assert(end <= inode.block_count);
    assert(first <= end);
    device.lemma_reliable_read(inode.data_block + first, (end - first) * 512);
    let blocks = blocks_read(device, inode, offset, count)->Ok_0;
    let from = offset % 512;
    assert(blocks.subrange(from, from + count) =~= file_bytes(device.image(), inode).subrange(
        offset,
        offset + count,
    ));
}

/// A step on one file leaves every other file's inode and contents as they were.
pub proof fn law_file_step_keeps_others<D: BlockDevice, T>(
    a: SimpleFs<D>,
    b: SimpleFs<D>,
    x: int,
    inode: OnDiskInode,
    data: Seq<u8>,
    lo: int,
    hi: int,
    r: core::result::Result<T, Error>,
    other: int,
)
    requires
        a.wf(),
        xattrs_before_data(a),
        file_settled(a, b, x, inode, data, lo, hi, r),
        same_outside(a.device.image(), data, lo, hi),
        0 <= x < a.state.tree().inodes.len(),
        0 <= other < a.state.tree().inodes.len(),
        other != x,
        owns_extent(a.state.tree().inodes[other]),
        extent_end(a.state.tree().inodes[other]) * 512 <= lo || hi
            <= a.state.tree().inodes[other].data_block * 512,
    ensures
        b.state.tree().inodes[other] == a.state.tree().inodes[other],
        file_bytes(b.device.image(), b.state.tree().inodes[other]) == file_bytes(
            a.device.image(),
            a.state.tree().inodes[other],
        ),
{
    let o = a.state.tree().inodes[other];
    lemma_file_place(a, other);
    let from = o.data_block * 512;
    let to = from + o.size;
    if r is Ok {
        lemma_settled_data(a, b, x, inode, data, lo, hi, r, from, to);
        lemma_subrange_outside(a.device.image(), data, lo, hi, from, to);
    } else {
        lemma_unsettled_data(a, b, x, inode, data, lo, hi, r, from, to);
    }
}

proof fn lemma_subrange_outside(a: Seq<u8>, b: Seq<u8>, lo: int, hi: int, from: int, to: int)
    requires
        same_outside(a, b, lo, hi),
        0 <= from <= to <= a.len(),
        to <= lo || hi <= from,
    ensures
        b.subrange(from, to) == a.subrange(from, to),
{
    assert(b.subrange(from, to) =~= a.subrange(from, to));
}

/// Where a change failed, data outside the range it touched is as it was.
proof fn lemma_unsettled_data<D: BlockDevice, T>(
    a: SimpleFs<D>,
    b: SimpleFs<D>,
    x: int,
    inode: OnDiskInode,
    data: Seq<u8>,
    lo: int,
    hi: int,
    r: core::result::Result<T, Error>,
    from: int,
    to: int,
)
    requires
        a.wf(),
        xattrs_before_data(a),
        file_settled(a, b, x, inode, data, lo, hi, r),
        r is Err,
        a.geometry.data_block_start * 512 <= from <= to <= a.device.image().len(),
        to <= lo || hi <= from,
    ensures
        b.device.image().subrange(from, to) == a.device.image().subrange(from, to),
{
    assert forall|i: int| from <= i < to implies b.device.image()[i] == a.device.image()[i] by {
        lemma_metadata_below(a, i);
    }
    assert(b.device.image().subrange(from, to) =~= a.device.image().subrange(from, to));
}

/// Where a change failed on a device that fails no transfer, data that the change was not
/// to touch is as it was.
proof fn lemma_steady_data<D: BlockDevice, T>(
    a: SimpleFs<D>,
    b: SimpleFs<D>,
    x: int,
    inode: OnDiskInode,
    data: Seq<u8>,
    lo: int,
    hi: int,
    r: core::result::Result<T, Error>,
    from: int,
    to: int,
)
    requires
        a.wf(),
        xattrs_before_data(a),
        file_settled(a, b, x, inode, data, lo, hi, r),
        r is Err,
        steady(a.device),
        data.len() == a.device.image().len(),
        a.geometry.data_block_start * 512 <= from <= to <= a.device.image().len(),
        data.subrange(from, to) == a.device.image().subrange(from, to),
    ensures
        b.device.image().subrange(from, to) == a.device.image().subrange(from, to),
{
    if b.device.image() != a.device.image() {
        assert forall|i: int| from <= i < to implies b.device.image()[i] == a.device.image()[i] by {
            lemma_metadata_below(a, i);
            assert(data[i] == data.subrange(from, to)[i - from]);
            assert(a.device.image()[i] == a.device.image().subrange(from, to)[i - from]);
        }
        assert(b.device.image().subrange(from, to) =~= a.device.image().subrange(from, to));
    }
}

/// Where no room was made for a file, it holds what it held.
proof fn lemma_no_room_keeps<D: BlockDevice>(
    a: SimpleFs<D>,
    m: SimpleFs<D>,
    x: int,
    len: int,
    r: core::result::Result<OnDiskInode, Error>,
)
    requires
        a.wf(),
        xattrs_before_data(a),
        0 <= x < a.state.tree().inodes.len(),
        0 <= len <= u32::MAX,
        capacity_step(a, m, x, len, r),
        r is Err,
    ensures
        m.state.tree().inodes[x] == a.state.tree().inodes[x],
        contents_of(m, x) == contents_of(a, x),
{
    let t = a.state.tree();
    let inode = t.inodes[x];
    let required = block_span(len);
    let blocks = (a.device.image().len() / 512) as int;
    if file_fault(t, x) is None && required > inode.block_count && required * 512 <= usize::MAX
        && grow_place(t, blocks, inode, required) is Ok && inode.size > 0 {
        assert(extent_ok(inode, a.geometry.data_block_start as int, blocks));
        assert(owns_extent(inode));
        lemma_file_place(a, x);
        let start = grow_place(t, blocks, inode, required)->Ok_0;
        lemma_grow_place(a, x, required, start);
        let grown = OnDiskInode {
            data_block: start as u32,
            block_count: required as u32,
            ..inode
        };
        let lo = if inode.block_count > 0 && start == inode.data_block {
            extent_end(inode) * 512
        } else {
            start * 512
        };
        let base = inode.data_block * 512;
        assert(extent_end(t.inodes[x]) * 512 <= lo || (start + required) * 512 <= base);
        lemma_unsettled_data(
            a,
            m,
            x,
            grown,
            grown_data(a.device.image(), inode, start, required),
            lo,
            (start + required) * 512,
            r,
            base,
            base + inode.size,
        );
    }
}

/// A failed overwrite leaves a file with what it held, whatever the device did.
proof fn lemma_failed_overwrite_keeps<D: BlockDevice>(
    a: SimpleFs<D>,
    b: SimpleFs<D>,
    x: int,
    offset: int,
    buf: Seq<u8>,
    r: core::result::Result<usize, Error>,
)
    requires
        a.wf(),
        xattrs_before_data(a),
        0 <= x < a.state.tree().inodes.len(),
        file_fault(a.state.tree(), x) is None,
        0 <= offset < a.state.tree().inodes[x].size,
        offset + buf.len() <= u32::MAX,
        overwrite_step(a, b, x, offset, buf, r),
        r is Err,
    ensures
        b.state.tree().inodes[x] == a.state.tree().inodes[x],
        contents_of(b, x) == contents_of(a, x),
{
    let t = a.state.tree();
    let inode = t.inodes[x];
    let image = a.device.image();
    let blocks = (image.len() / 512) as int;
    assert(extent_ok(inode, a.geometry.data_block_start as int, blocks));
    assert(owns_extent(inode));
    lemma_file_place(a, x);
    let contents = overlaid(file_bytes(image, inode), offset, buf);
    let span = block_span(contents.len() as int);
    if span * 512 <= usize::MAX && inode.block_count * 512 <= usize::MAX && best_start(
        t.free,
        span,
    ) is Some {
        let start = best_start(t.free, span)->0;
        lemma_best_start(t.free, span);
        lemma_free_run(t, a.geometry, blocks, start, span);
        let after = holding(
            OnDiskInode { data_block: start as u32, block_count: span as u32, ..inode },
            contents,
        );
        let base = inode.data_block * 512;
        assert(owns_extent(t.inodes[x]));
        assert(extent_end(t.inodes[x]) <= start || start + span <= inode.data_block);
        lemma_unsettled_data(
            a,
            b,
            x,
            after,
            put(image, start * 512, with_length(contents, span * 512)),
            start * 512,
            (start + span) * 512,
            r,
            base,
            base + inode.size,
        );
    }
}

/// A failed write leaves the file with what it held. An overwrite does so whatever the device
/// did; a write at or past the end where the device fails no transfer.
pub proof fn law_failed_write_keeps_contents<D: BlockDevice>(
    a: SimpleFs<D>,
    b: SimpleFs<D>,
    x: int,
    offset: int,
    buf: Seq<u8>,
    r: core::result::Result<usize, Error>,
)
    requires
        a.wf(),
        xattrs_before_data(a),
        0 <= x < a.state.tree().inodes.len(),
        0 <= offset,
        write_outcome(a, b, x, offset, buf, r),
        r is Err,
        offset < a.state.tree().inodes[x].size || a.device.reliable(),
    ensures
        b.state.tree().inodes[x].size == a.state.tree().inodes[x].size,
        contents_of(b, x) == contents_of(a, x),
{
    let t = a.state.tree();
    if a.device.write_protected() || offset + buf.len() > u32::MAX || file_fault(t, x) is Some {
    } else if offset < t.inodes[x].size {
        lemma_failed_overwrite_keeps(a, b, x, offset, buf, r);
    } else {
        let (m, room) = choose|
            m: SimpleFs<D>,
            room: core::result::Result<OnDiskInode, Error>,
        |
            #![trigger capacity_step(a, m, x, offset + buf.len(), room)]
            m.wf() && capacity_step(a, m, x, offset + buf.len(), room) && match room {
                Err(e) => r == Err::<usize, Error>(e) && b == m,
                Ok(_) => append_step(m, b, x, offset, buf, r),
            };
        if room is Err {
            lemma_no_room_keeps(a, m, x, offset + buf.len(), room);
        } else {
            law_capacity_keeps_contents(a, m, x, offset + buf.len(), room);
            let inode = m.state.tree().inodes[x];
            let image = m.device.image();
            let base = inode.data_block * 512;
            if inode.size > 0 && inode.block_count * 512 <= usize::MAX {
                lemma_file_place(m, x);
                let contents = overlaid(file_bytes(image, inode), offset, buf);
                let data = put(image, base, contents);
                assert(data.subrange(base, base + inode.size) =~= image.subrange(
                    base,
                    base + inode.size,
                ));
                lemma_steady_data(
                    m,
                    b,
                    x,
                    holding(inode, contents),
                    data,
                    base + inode.size / 512 * 512,
                    extent_end(inode) * 512,
                    r,
                    base,
                    base + inode.size,
                );
            }
        }
    }
}

/// Setting a length that failed leaves the file with what it held where the device fails no
/// transfer.
pub proof fn law_failed_set_len_keeps_contents<D: BlockDevice>(
    a: SimpleFs<D>,
    b: SimpleFs<D>,
    x: int,
    len: int,
    r: core::result::Result<(), Error>,
)
    requires
        a.wf(),
        xattrs_before_data(a),
        0 <= x < a.state.tree().inodes.len(),
        0 <= len,
        set_len_outcome(a, b, x, len, r),
        r is Err,
        a.device.reliable(),
    ensures
        b.state.tree().inodes[x].size == a.state.tree().inodes[x].size,
        contents_of(b, x) == contents_of(a, x),
{
    if a.device.write_protected() || len > u32::MAX {
    } else {
        let (m, room) = choose|m: SimpleFs<D>, room: core::result::Result<OnDiskInode, Error>|
            #![trigger capacity_step(a, m, x, len, room)]
            m.wf() && capacity_step(a, m, x, len, room) && match room {
                Err(e) => r == Err::<(), Error>(e) && b == m,
                Ok(_) => length_step(m, b, x, len, r),
            };
        if room is Err {
            lemma_no_room_keeps(a, m, x, len, room);
        } else {
            law_capacity_keeps_contents(a, m, x, len, room);
            let inode = m.state.tree().inodes[x];
            let image = m.device.image();
            let base = inode.data_block * 512;
            let blocks = (image.len() / 512) as int;
            assert(extent_ok(inode, m.geometry.data_block_start as int, blocks));
            if inode.size > 0 && inode.block_count * 512 <= usize::MAX {
                lemma_file_place(m, x);
                let contents = with_length(file_bytes(image, inode), len);
                let data = if len > inode.size {
                    put(image, base, contents)
                } else {
                    image
                };
                assert(data.subrange(base, base + inode.size) =~= image.subrange(
                    base,
                    base + inode.size,
                ));
                lemma_steady_data(
                    m,
                    b,
                    x,
                    relengthened(inode, contents),
                    data,
                    base + inode.size / 512 * 512,
                    extent_end(inode) * 512,
                    r,
                    base,
                    base + inode.size,
                );
            }
        }
    }
}

} // verus!
