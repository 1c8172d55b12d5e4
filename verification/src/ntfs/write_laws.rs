//! What writing a file and storing its attributes puts where.
use vstd::prelude::*;

use crate::block::BlockDevice;
use crate::bytes::{le16, le32, put, u16_at};
use crate::error::{Error, Result};
use crate::ntfs::attributes::{AttrView, IndexEntry, attr_of_type};
use crate::ntfs::runs::DataRun;
use crate::ntfs::types::ATTR_TYPE_DATA;
use crate::ntfs::volume::{NtfsFs, NtfsVnode, WriteState, child_of, record_attrs, run_written, runs_written, stored_from, stored_header, write_end};
use crate::order::smaller;
use crate::spelling::{has_at, lemma_spells_moved, spells};
use crate::vfs::NodeKind;

verus! {

// ── Data ──

proof fn lemma_whole_clusters(lcn: int, d: int, n: int, cluster: int)
    requires
        0 < cluster,
        0 <= d,
        0 < n,
        d % cluster == 0,
        n % cluster == 0,
    ensures
        (lcn + d / cluster) * cluster == lcn * cluster + d,
        n / cluster * cluster == n,
{
    vstd::arithmetic::div_mod::lemma_fundamental_div_mod(d, cluster);
    vstd::arithmetic::div_mod::lemma_fundamental_div_mod(n, cluster);
    assert((lcn + d / cluster) * cluster == lcn * cluster + cluster * (d / cluster)) by (nonlinear_arith);
    assert(n / cluster * cluster == cluster * (n / cluster)) by (nonlinear_arith);
}

/// Whole clusters of data that fall on one run end up on the volume where they are for, byte by
/// byte, and nothing else changes.
pub proof fn law_data_is_written_to_its_place(
    run: DataRun,
    cluster: int,
    data: Seq<u8>,
    s: WriteState,
    i: int,
)
    requires
        0 < cluster,
        0 <= run.lcn,
        0 <= s.from < data.len(),
        run.lcn * cluster <= s.at,
        s.at + (data.len() - s.from) <= run.lcn * cluster + run.cluster_count * cluster,
        run.lcn * cluster + run.cluster_count * cluster <= s.image.len(),
        (s.at - run.lcn * cluster) % cluster == 0,
        (data.len() - s.from) % cluster == 0,
        0 <= i < s.image.len(),
    ensures
        ({
            let left = data.len() - s.from;
            let t = run_written(run, cluster, data, s);
            &&& t.image.len() == s.image.len()
            &&& s.at <= i < s.at + left ==> t.image[i] == data[s.from + i - s.at]
            &&& !(s.at <= i < s.at + left) ==> t.image[i] == s.image[i]
            &&& t.at == s.at + left
            &&& t.from == data.len()
        }),
{
    let base = run.lcn * cluster;
    let left = data.len() - s.from;
    lemma_whole_clusters(run.lcn as int, s.at - base, left, cluster);
}

/// A write changes no byte outside the runs, wherever it starts and whatever it writes.
pub proof fn law_write_stays_in_its_run(
    run: DataRun,
    cluster: int,
    data: Seq<u8>,
    s: WriteState,
    i: int,
)
    requires
        0 < cluster,
        0 <= s.from <= data.len(),
        0 <= s.at,
        0 <= i < s.image.len(),
        run.lcn >= 0 ==> run.lcn * cluster + run.cluster_count * cluster <= s.image.len(),
        run.lcn >= 0 ==> !(run.lcn * cluster <= i < run.lcn * cluster + run.cluster_count
            * cluster),
    ensures
        run_written(run, cluster, data, s).image.len() == s.image.len(),
        run_written(run, cluster, data, s).image[i] == s.image[i],
{
    let base = run.lcn * cluster;
    let size = run.cluster_count * cluster;
    let left = data.len() - s.from;
    if !(run.lcn < 0 || s.at >= base + size || left <= 0) {
        let from = if s.at > base {
            s.at - base
        } else {
            0
        };
        let to = smaller(
            if s.at + left > base {
                s.at + left - base
            } else {
                0
            },
            size,
        );
        let n = to - from;
        if n > 0 {
            vstd::arithmetic::div_mod::lemma_fundamental_div_mod(from, cluster);
            vstd::arithmetic::div_mod::lemma_fundamental_div_mod(n, cluster);
            let (p, q) = (from / cluster, n / cluster);
            assert((run.lcn + p) * cluster == base + cluster * p) by (nonlinear_arith)
                requires
                    base == run.lcn * cluster,
            ;
            assert(q * cluster == cluster * q) by (nonlinear_arith);
            assert(0 <= cluster * p) by (nonlinear_arith)
                requires
                    0 < cluster,
                    0 <= p,
            ;
            assert(0 <= cluster * q) by (nonlinear_arith)
                requires
                    0 < cluster,
                    0 <= q,
            ;
        }
    }
}

// ── Attributes ──

/// Where the attribute with number `k` is stored: behind the header of the record and the
/// attributes before it, each with 24 bytes of its own header.
pub open spec fn attr_place(attrs: Seq<AttrView>, k: int) -> int
    decreases k,
{
    if k <= 0 {
        48
    } else {
        attr_place(attrs, k - 1) + 24 + attrs[k - 1].content.len()
    }
}

proof fn lemma_place_order(attrs: Seq<AttrView>, j: int, k: int)
    requires
        0 <= j <= k,
    ensures
        attr_place(attrs, j) <= attr_place(attrs, k),
        j < k ==> attr_place(attrs, j) + 24 + attrs[j].content.len() <= attr_place(attrs, k),
        48 <= attr_place(attrs, j),
    decreases k,
{
    if j < k {
        lemma_place_order(attrs, j, k - 1);
    } else if j > 0 {
        lemma_place_order(attrs, j - 1, k - 1);
    }
}

proof fn lemma_stored_front(record: Seq<u8>, attrs: Seq<AttrView>, k: int, at: int, i: int)
    requires
        0 <= i < at,
        0 <= k,
        i < record.len(),
    ensures
        stored_from(record, attrs, k, at).len() == record.len(),
        stored_from(record, attrs, k, at)[i] == record[i],
    decreases attrs.len() - k,
{
    if k < attrs.len() {
        if at + 24 > record.len() {
            lemma_stored_front(record, attrs, k + 1, at, i);
        } else {
            let a = attrs[k];
            let h = put(record, at, stored_header(a));
            assert(h.len() == record.len() && h[i] == record[i]);
            if at + 24 + a.content.len() > record.len() {
                lemma_stored_front(h, attrs, k + 1, at + 24, i);
            } else {
                let c = put(h, at + 24, a.content);
                assert(c.len() == record.len() && c[i] == record[i]);
                lemma_stored_front(c, attrs, k + 1, at + 24 + a.content.len(), i);
            }
        }
    }
}

proof fn lemma_stored_reaches(record: Seq<u8>, attrs: Seq<AttrView>, k: int) -> (r: Seq<u8>)
    requires
        0 <= k <= attrs.len(),
        attr_place(attrs, k) <= record.len(),
    ensures
        r.len() == record.len(),
        stored_from(record, attrs, 0, 48) == stored_from(r, attrs, k, attr_place(attrs, k)),
        forall|i: int|
            #![trigger r[i]]
            0 <= i < 48 || attr_place(attrs, k) <= i < r.len() ==> r[i] == record[i],
    decreases k,
{
    if k == 0 {
        record
    } else {
        let r = lemma_stored_reaches(record, attrs, k - 1);
        lemma_place_order(attrs, 0, k - 1);
        let at = attr_place(attrs, k - 1);
        let a = attrs[k - 1];
        put(put(r, at, stored_header(a)), at + 24, a.content)
    }
}

proof fn lemma_word_spelled(v: u32)
    ensures
        spells(le32(v), 0, v as int, 4),
{
    reveal_with_fuel(spells, 5);
    assert(v as int / 256 / 256 == v as int / 0x1_0000);
    assert(v as int / 256 / 256 / 256 == v as int / 0x100_0000);
}

proof fn lemma_half_spelled(v: u16)
    ensures
        spells(le16(v), 0, v as int, 2),
{
    reveal_with_fuel(spells, 3);
}

proof fn lemma_header_spelled(a: AttrView)
    requires
        a.content.len() < 0x1000_0000,
    ensures
        ({
            let h = stored_header(a);
            &&& h.len() == 24
            &&& spells(h, 0, a.attr_type as int, 4)
            &&& spells(h, 4, 24int + a.content.len(), 4)
            &&& h[8] == if a.data_runs_offset is Some {
                1u8
            } else {
                0u8
            }
            &&& spells(h, 16, a.data_size as int, 4)
            &&& a.data_runs_offset matches Some(o) ==> o < 0x1_0000 ==> spells(h, 20, o as int, 2)
            &&& a.data_runs_offset is None ==> h[20] == 0 && h[21] == 0
        }),
{
    let h = stored_header(a);
    let kind = le32(a.attr_type);
    let len = le32((24 + a.content.len()) as u32);
    let size = le32(a.data_size);
    lemma_word_spelled(a.attr_type);
    lemma_word_spelled((24 + a.content.len()) as u32);
    lemma_word_spelled(a.data_size);
    lemma_spells_moved(kind, 0, h, 0, a.attr_type as int, 4);
    lemma_spells_moved(len, 0, h, 4, 24int + a.content.len(), 4);
    lemma_spells_moved(size, 0, h, 16, a.data_size as int, 4);
    if let Some(o) = a.data_runs_offset {
        if o < 0x1_0000 {
            let runs = le16(o as u16);
            lemma_half_spelled(o as u16);
            lemma_spells_moved(runs, 0, h, 20, o as int, 2);
        }
    }
}

/// Each attribute of a record is stored behind the ones before it: its type, its length, a
/// mark of whether it has runs, its size, where the runs are, and its contents. What lies
/// before the attributes and behind them stays.
pub proof fn law_attributes_are_stored(record: Seq<u8>, attrs: Seq<AttrView>, k: int, i: int)
    requires
        0 <= k < attrs.len(),
        attr_place(attrs, attrs.len() as int) <= record.len(),
        attrs[k].content.len() < 0x1000_0000,
        0 <= i < 48 || attr_place(attrs, attrs.len() as int) <= i < record.len(),
    ensures
        ({
            let r = stored_from(record, attrs, 0, 48);
            let at = attr_place(attrs, k);
            let a = attrs[k];
            &&& r.len() == record.len()
            &&& spells(r, at, a.attr_type as int, 4)
            &&& spells(r, at + 4, 24int + a.content.len(), 4)
            &&& r[at + 8] == if a.data_runs_offset is Some {
                1u8
            } else {
                0u8
            }
            &&& spells(r, at + 16, a.data_size as int, 4)
            &&& a.data_runs_offset matches Some(o) ==> o < 0x1_0000 ==> spells(
                r,
                at + 20,
                o as int,
                2,
            )
            &&& has_at(r, at + 24, a.content)
            &&& r[i] == record[i]
        }),
{
    let n = attrs.len() as int;
    let all = stored_from(record, attrs, 0, 48);
    lemma_place_order(attrs, k, n);
    lemma_place_order(attrs, k, k + 1);
    let last = lemma_stored_reaches(record, attrs, n);
    assert(all == last);
    let at = attr_place(attrs, k);
    let next = attr_place(attrs, k + 1);
    let a = attrs[k];
    let before = lemma_stored_reaches(record, attrs, k);
    let h = stored_header(a);
    lemma_header_spelled(a);
    let here = put(put(before, at, h), at + 24, a.content);
    lemma_place_order(attrs, k + 1, n);
    assert(all == stored_from(here, attrs, k + 1, next));
    assert forall|j: int| at <= j < next implies #[trigger] all[j] == here[j] by {
        lemma_stored_front(here, attrs, k + 1, next, j);
    }
    assert forall|j: int| 0 <= j < 24 implies #[trigger] all[at + j] == h[j] by {
        assert(all[at + j] == here[at + j]);
    }
    lemma_spells_moved(h, 0, all, at, a.attr_type as int, 4);
    lemma_spells_at(h, 4, all, at, 24int + a.content.len(), 4);
    lemma_spells_at(h, 16, all, at, a.data_size as int, 4);
    if let Some(o) = a.data_runs_offset {
        if o < 0x1_0000 {
            lemma_spells_at(h, 20, all, at, o as int, 2);
        }
    }
    assert(all[at + 8] == h[8]);
    assert(all.subrange(at + 24, at + 24 + a.content.len()) =~= a.content) by {
        assert forall|j: int| 0 <= j < a.content.len() implies #[trigger] all[at + 24 + j]
            == a.content[j] by {
            assert(all[at + 24 + j] == here[at + 24 + j]);
        }
    }
}

proof fn lemma_spells_at(h: Seq<u8>, off: int, all: Seq<u8>, at: int, v: int, n: nat)
    requires
        0 <= off,
        off + n <= 24,
        spells(h, off, v, n),
        forall|j: int| 0 <= j < 24 ==> #[trigger] all[at + j] == h[j],
    ensures
        spells(all, at + off, v, n),
{
    assert forall|i: int| #![trigger all[at + off + i]] 0 <= i < n implies all[at + off + i] == h[off
        + i] by {
        assert(all[at + (off + i)] == h[off + i]);
    }
    lemma_spells_moved(h, off, all, at + off, v, n);
}

/// Writing through several runs changes no byte outside all of them.
pub proof fn law_write_stays_in_the_runs(
    runs: Seq<DataRun>,
    k: int,
    cluster: int,
    data: Seq<u8>,
    s: WriteState,
    i: int,
)
    requires
        0 <= k,
        0 < cluster,
        0 <= s.from <= data.len(),
        0 <= s.at,
        0 <= i < s.image.len(),
        forall|j: int|
            #![trigger runs[j]]
            0 <= j < runs.len() && runs[j].lcn >= 0 ==> runs[j].lcn * cluster
                + runs[j].cluster_count * cluster <= s.image.len() && !(runs[j].lcn * cluster <= i
                < runs[j].lcn * cluster + runs[j].cluster_count * cluster),
    ensures
        runs_written(runs, k, cluster, data, s).image.len() == s.image.len(),
        runs_written(runs, k, cluster, data, s).image[i] == s.image[i],
    decreases runs.len() - k,
{
    if k < runs.len() {
        law_write_stays_in_its_run(runs[k], cluster, data, s, i);
        law_write_stays_in_the_runs(
            runs,
            k + 1,
            cluster,
            data,
            run_written(runs[k], cluster, data, s),
            i,
        );
    }
}

/// A write past the end of the data is refused, and changes nothing.
pub proof fn law_write_past_the_end_is_refused<D: BlockDevice>(
    a: NtfsFs<D>,
    b: NtfsFs<D>,
    before: Seq<u8>,
    after: Seq<u8>,
    offset: int,
    data: Seq<u8>,
    r: Result<usize>,
    attrs: Seq<AttrView>,
    k: int,
)
    requires
        write_end(a, b, before, after, offset, data, r),
        record_attrs(before) == Ok::<Seq<AttrView>, Error>(attrs),
        0 <= k < attrs.len(),
        attrs[k].attr_type == 0x80,
        forall|j: int| #![trigger attrs[j]] 0 <= j < k ==> attrs[j].attr_type != 0x80,
        offset + data.len() > attrs[k].data_size,
    ensures
        r == Err::<usize, Error>(Error::NotImplemented),
        b.device.image() == a.device.image(),
        after == before,
{
    lemma_first_of_type(attrs, 0, k);
}

proof fn lemma_first_of_type(attrs: Seq<AttrView>, i: int, k: int)
    requires
        0 <= i <= k < attrs.len(),
        attrs[k].attr_type == 0x80,
        forall|j: int| #![trigger attrs[j]] 0 <= j < k ==> attrs[j].attr_type != 0x80,
    ensures
        attr_of_type(attrs, ATTR_TYPE_DATA, i) == Some(k),
    decreases k - i,
{
    if i < k {
        assert(attrs[i].attr_type != 0x80);
        lemma_first_of_type(attrs, i + 1, k);
    }
}

/// A node of a directory has the name and the number of its entry, and is a directory where
/// the second flag of its record says so.
pub proof fn law_node_of_an_entry<D: BlockDevice>(
    fs: NtfsFs<D>,
    e: IndexEntry,
    n: (String, NtfsVnode),
)
    requires
        child_of(fs, e, n),
    ensures
        n.0@ == e.1.name,
        n.1.mft_record_number == e.0,
        fs.record(e.0) == Ok::<Seq<u8>, Error>(n.1.mft_record@),
        n.1.mft_record@[22] as int / 2 % 2 == 1 ==> n.1.kind == NodeKind::Directory,
        n.1.mft_record@[22] as int / 2 % 2 == 0 ==> n.1.kind == NodeKind::File,
{
    let f = u16_at(n.1.mft_record@, 22);
    assert((f & 2 != 0) == (f / 2 % 2 == 1)) by (bit_vector);
    let low = n.1.mft_record@[22] as int;
    let high = n.1.mft_record@[23] as int;
    assert(f == low + 256 * high);
    assert((low + 256 * high) / 2 % 2 == low / 2 % 2);
}

} // verus!
