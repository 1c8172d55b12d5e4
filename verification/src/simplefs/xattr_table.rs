//! The attribute table.
use vstd::prelude::*;

use crate::block::BlockDevice;
use crate::bytes::{all_zero, field_at, get_u32, is_all_zero, store_u32, u32_at, write_bytes, zeros};
use crate::error::{Error, Result};
use crate::simplefs::constants::{XATTR_NAME_OFFSET, XATTR_RECORD_SIZE, XATTR_VALUE_OFFSET};
use crate::simplefs::encode::same_range;
use crate::simplefs::tables::{read_table, table_bytes};
use crate::simplefs::types::{SimpleFsFormatVersion, XattrRecord, XattrView, xattr_views};

verus! {

/// The attribute record stored at `base`.
pub open spec fn xattr_at(s: Seq<u8>, base: int) -> XattrView {
    XattrView {
        inode_index: u32_at(s, base),
        name_len: u32_at(s, base + 4),
        value_len: u32_at(s, base + 8),
        status: u32_at(s, base + 12),
        name: s.subrange(base + XATTR_NAME_OFFSET, base + XATTR_VALUE_OFFSET),
        value: s.subrange(base + XATTR_VALUE_OFFSET, base + XATTR_RECORD_SIZE),
    }
}

/// The records from slot `k` on, up to the first slot that is all zeros.
pub open spec fn xattr_run(s: Seq<u8>, k: int, capacity: int) -> Seq<XattrView>
    decreases capacity - k,
{
    if k >= capacity || all_zero(s.subrange(k * 336, k * 336 + 336)) {
        Seq::empty()
    } else {
        seq![xattr_at(s, k * 336)] + xattr_run(s, k + 1, capacity)
    }
}

/// The records an attribute table on a device holds.
pub open spec fn stored_xattrs<D: BlockDevice>(
    device: D,
    table_block: int,
    capacity: nat,
) -> core::result::Result<Seq<XattrView>, Error> {
    match table_bytes(device, table_block, capacity as int * 336) {
        Ok(s) => Ok(xattr_run(s, 0, capacity as int)),
        Err(e) => Err(e),
    }
}

fn load_name(buffer: &[u8], base: usize) -> (r: [u8; 64])
    requires
        base + 336 <= buffer@.len(),
    ensures
        r@ == buffer@.subrange(base + XATTR_NAME_OFFSET, base + XATTR_VALUE_OFFSET),
{
    let _len: usize = buffer.len();
    let mut out: [u8; 64] = [0u8; 64];
    let mut i: usize = 0;
    while i < 64
        invariant
            i <= 64,
            base + 336 <= buffer@.len(),
            _len == buffer@.len(),
            forall|j: int| 0 <= j < i ==> out@[j] == buffer@[base + XATTR_NAME_OFFSET + j],
        decreases 64 - i,
    {
        out[i] = buffer[base + XATTR_NAME_OFFSET + i];
        i = i + 1;
    }
    out
}

fn load_value(buffer: &[u8], base: usize) -> (r: [u8; 256])
    requires
        base + 336 <= buffer@.len(),
    ensures
        r@ == buffer@.subrange(base + XATTR_VALUE_OFFSET, base + XATTR_RECORD_SIZE),
{
    let _len: usize = buffer.len();
    let mut out: [u8; 256] = [0u8; 256];
    let mut i: usize = 0;
    while i < 256
        invariant
            i <= 256,
            base + 336 <= buffer@.len(),
            _len == buffer@.len(),
            forall|j: int| 0 <= j < i ==> out@[j] == buffer@[base + XATTR_VALUE_OFFSET + j],
        decreases 256 - i,
    {
        out[i] = buffer[base + XATTR_VALUE_OFFSET + i];
        i = i + 1;
    }
    out
}

/// Decodes the written records of a table.
pub fn decode_xattrs(buffer: &[u8], capacity: usize) -> (r: Vec<XattrRecord>)
    requires
        capacity * 336 <= buffer@.len(),
    ensures
        xattr_views(r@) == xattr_run(buffer@, 0, capacity as int),
{
    let _len: usize = buffer.len();
    let mut records: Vec<XattrRecord> = Vec::new();
    let mut index: usize = 0;
    assert(xattr_views(records@) =~= Seq::empty());
    while index < capacity
        invariant
            index <= capacity,
            capacity * 336 <= buffer@.len(),
            _len == buffer@.len(),
            xattr_views(records@) + xattr_run(buffer@, index as int, capacity as int) == xattr_run(
                buffer@,
                0,
                capacity as int,
            ),
        decreases capacity - index,
    {
        let base: usize = index * XATTR_RECORD_SIZE;
        let slot = vstd::slice::slice_subrange(buffer, base, base + XATTR_RECORD_SIZE);
        if is_all_zero(slot) {
            assert(xattr_run(buffer@, index as int, capacity as int) =~= Seq::empty());
            return records;
        }
        let ghost before = xattr_views(records@);
        records.push(
            XattrRecord {
                inode_index: get_u32(buffer, base),
                name_len: get_u32(buffer, base + 4),
                value_len: get_u32(buffer, base + 8),
                status: get_u32(buffer, base + 12),
                name: load_name(buffer, base),
                value: load_value(buffer, base),
            },
        );
        proof {
            let here = xattr_at(buffer@, index * 336);
            let rest = xattr_run(buffer@, index + 1, capacity as int);
            assert(xattr_views(records@) =~= before.push(here));
            assert(before + (seq![here] + rest) =~= before.push(here) + rest);
        }
        index = index + 1;
    }
    assert(xattr_run(buffer@, index as int, capacity as int) =~= Seq::empty());
    records
}

/// Reads the written records of the attribute table that starts at `table_block`.
///
/// Records lie side by side from the first slot on and the rest of the table is
/// zeros, while a written record never is; so the run up to the first all-zero
/// slot is the whole list.
pub fn read_xattr_records<D: BlockDevice>(device: &D, table_block: u32, capacity: u64) -> (r: Result<
    Vec<XattrRecord>,
>)
    requires
        capacity <= 0x2_0000_0000,
    ensures
        match r {
            Ok(v) => stored_xattrs(*device, table_block as int, capacity as nat) == Ok::<
                Seq<XattrView>,
                Error,
            >(xattr_views(v@)),
            Err(e) => stored_xattrs(*device, table_block as int, capacity as nat) == Err::<
                Seq<XattrView>,
                Error,
            >(e),
        },
{
    let buffer = read_table(device, table_block, capacity * 336)?;
    Ok(decode_xattrs(buffer.as_slice(), capacity as usize))
}

/// Whether `after` is `before` with the records written to the table at `start`.
pub open spec fn xattrs_written(
    before: Seq<u8>,
    after: Seq<u8>,
    start: int,
    records: Seq<XattrView>,
) -> bool {
    &&& after.len() == before.len()
    &&& forall|k: int|
        #![trigger records[k]]
        0 <= k < records.len() ==> xattr_at(after, start + 336 * k) == records[k]
    &&& forall|i: int|
        #![trigger after[i]]
        0 <= i < before.len() && !(start <= i < start + 336 * records.len()) ==> after[i]
            == before[i]
}

fn store_xattr(image: &mut [u8], base: usize, record: &XattrRecord)
    requires
        base + 336 <= old(image)@.len(),
    ensures
        final(image)@.len() == old(image)@.len(),
        xattr_at(final(image)@, base as int) == record@,
        forall|i: int|
            #![trigger final(image)@[i]]
            0 <= i < old(image)@.len() && !(base <= i < base + 336) ==> final(image)@[i] == old(
                image,
            )@[i],
{
    let _len: usize = image.len();
    let ghost before = image@;
    write_bytes(image, base + XATTR_NAME_OFFSET, record.name.as_slice());
    write_bytes(image, base + XATTR_VALUE_OFFSET, record.value.as_slice());
    store_u32(image, base, record.inode_index);
    store_u32(image, base + 4, record.name_len);
    store_u32(image, base + 8, record.value_len);
    store_u32(image, base + 12, record.status);
    proof {
        reveal(field_at);
        assert(image@.subrange(base + XATTR_NAME_OFFSET, base + XATTR_VALUE_OFFSET)
            =~= record.name@);
        assert(image@.subrange(base + XATTR_VALUE_OFFSET, base + XATTR_RECORD_SIZE)
            =~= record.value@);
    }
}

/// An attribute record depends on its own bytes only.
pub proof fn lemma_xattr_local(a: Seq<u8>, b: Seq<u8>, base: int)
    requires
        0 <= base,
        base + 336 <= a.len(),
        a.len() == b.len(),
        same_range(a, b, base, base + 336),
    ensures
        xattr_at(a, base) == xattr_at(b, base),
{
    assert(a.subrange(base + XATTR_NAME_OFFSET, base + XATTR_VALUE_OFFSET) =~= b.subrange(
        base + XATTR_NAME_OFFSET,
        base + XATTR_VALUE_OFFSET,
    ));
    assert(a.subrange(base + XATTR_VALUE_OFFSET, base + XATTR_RECORD_SIZE) =~= b.subrange(
        base + XATTR_VALUE_OFFSET,
        base + XATTR_RECORD_SIZE,
    ));
}

/// Writes a mounted volume's attribute records to the table at `table_block`.
pub fn write_runtime_xattr_table(
    image: &mut [u8],
    format_version: SimpleFsFormatVersion,
    table_block: usize,
    xattrs: &[XattrRecord],
) -> (r: Result<()>)
    requires
        table_block * 512 + 336 * xattrs@.len() <= old(image)@.len(),
    ensures
        r is Ok,
        xattrs_written(old(image)@, final(image)@, table_block * 512, xattr_views(xattrs@)),
{
    let len: usize = image.len();
    let ghost start = table_block * 512;
    let ghost all = xattr_views(xattrs@);
    let mut index: usize = 0;
    while index < xattrs.len()
        invariant
            index <= xattrs@.len(),
            len == image@.len(),
            len == old(image)@.len(),
            all == xattr_views(xattrs@),
            start == table_block * 512,
            start + 336 * xattrs@.len() <= len,
            xattrs_written(old(image)@, image@, start, all.take(index as int)),
        decreases xattrs@.len() - index,
    {
        let base: usize = format_version.xattr_table_entry_offset(table_block, index)?;
        let ghost before = image@;
        assert(all[index as int] == xattrs@[index as int]@);
        store_xattr(image, base, &xattrs[index]);
        proof {
            let prior = all.take(index as int);
            let done = all.take(index + 1);
            assert forall|k: int| #![trigger done[k]] 0 <= k < done.len() implies xattr_at(
                image@,
                start + 336 * k,
            ) == done[k] by {
                assert(all[k] == done[k]);
                if k < index {
                    assert(prior[k] == done[k]);
                    lemma_xattr_local(before, image@, start + 336 * k);
                }
            }
        }
        index = index + 1;
    }
    assert(all.take(index as int) == all);
    Ok(())
}

/// Whether a record can be told apart from an unused slot.
pub open spec fn xattr_storable(x: XattrView) -> bool {
    x.name_len != 0 || x.status != 0
}

/// Records that were written to an empty table are read back unchanged.
pub proof fn law_xattr_table_round_trip(after: Seq<u8>, records: Seq<XattrView>, capacity: int)
    requires
        after.len() >= capacity * 336,
        xattrs_written(zeros(after.len()), after, 0, records),
        records.len() <= capacity,
        forall|k: int| 0 <= k < records.len() ==> xattr_storable(#[trigger] records[k]),
    ensures
        xattr_run(after, 0, capacity) == records,
{
    lemma_xattr_run_from(after, records, 0, capacity);
    assert(records.skip(0) =~= records);
}

proof fn lemma_xattr_run_from(after: Seq<u8>, records: Seq<XattrView>, k: int, capacity: int)
    requires
        after.len() >= capacity * 336,
        xattrs_written(zeros(after.len()), after, 0, records),
        0 <= k <= records.len() <= capacity,
        forall|j: int| 0 <= j < records.len() ==> xattr_storable(#[trigger] records[j]),
    ensures
        xattr_run(after, k, capacity) == records.skip(k as int),
    decreases capacity - k,
{
    if k < capacity {
        let slot = after.subrange(k * 336, k * 336 + 336);
        if k < records.len() {
            assert(xattr_at(after, 0 + 336 * k) == records[k as int]);
            assert(xattr_storable(records[k as int]));
            if all_zero(slot) {
                assert(slot[4] == 0 && slot[5] == 0 && slot[6] == 0 && slot[7] == 0);
                assert(slot[12] == 0 && slot[13] == 0 && slot[14] == 0 && slot[15] == 0);
            }
            lemma_xattr_run_from(after, records, k + 1, capacity);
            assert(seq![records[k as int]] + records.skip(k + 1) =~= records.skip(k as int));
        } else {
            assert forall|i: int| 0 <= i < slot.len() implies slot[i] == 0 by {
                assert(after[k * 336 + i] == 0);
            }
            assert(records.skip(k as int) =~= Seq::empty());
        }
    } else {
        assert(records.skip(k as int) =~= Seq::empty());
    }
}

} // verus!
