//! What a directory index lists, said from the writer's side: every file that was put in.
use vstd::prelude::*;

use crate::bytes::{u32_at, u64_at};
use crate::ntfs::attributes::{IndexEntry, entry_for, index_from, index_in, merged_upto, next_entry, record_number};
use crate::ntfs::names::{NameView, file_name_in, units_le};
use crate::spelling::{has_at, law_eight_bytes, law_four_bytes, law_two_bytes, lemma_between, lemma_low_first, lemma_part_at, lemma_spelled_at, low_first, spells};
use crate::text::utf16_lossy;

verus! {

/// A name as a volume stores it, and the record it belongs to.
pub struct StoredName {
    pub record: int,
    pub sequence: int,
    pub parent: int,
    pub times: Seq<int>,
    pub sizes: Seq<u8>,
    pub attributes: int,
    pub reparse: Seq<u8>,
    pub namespace: u8,
    pub units: Seq<int>,
}

/// Code units of two bytes each.
pub open spec fn unit_bytes(units: Seq<int>) -> Seq<u8> {
    Seq::new(
        2 * units.len(),
        |i: int|
            if i % 2 == 0 {
                (units[i / 2] % 256) as u8
            } else {
                (units[i / 2] / 256) as u8
            },
    )
}

/// Whether the parts of a name fit where they are stored.
pub open spec fn storable_name(f: StoredName) -> bool {
    &&& 0 <= f.record < 0x1_0000_0000_0000
    &&& 0 <= f.sequence < 0x1_0000
    &&& 0 <= f.parent < 0x1_0000_0000_0000_0000
    &&& f.times.len() == 4
    &&& forall|i: int| #![trigger f.times[i]] 0 <= i < 4 ==> 0 <= f.times[i] < 0x1_0000_0000_0000_0000
    &&& f.sizes.len() == 16
    &&& 0 <= f.attributes < 0x1_0000_0000
    &&& f.reparse.len() == 4
    &&& f.units.len() < 256
    &&& forall|i: int| #![trigger f.units[i]] 0 <= i < f.units.len() ==> 0 <= f.units[i] < 0x1_0000
}

/// The bytes of a name: the directory it lies in, when it was made, changed, changed in its
/// record and read, two sizes, its attributes, its length and namespace, and the name itself.
#[verifier::opaque]
pub open spec fn name_bytes(f: StoredName) -> Seq<u8> {
    low_first(f.parent, 8) + low_first(f.times[0], 8) + low_first(f.times[1], 8) + low_first(
        f.times[2],
        8,
    ) + low_first(f.times[3], 8) + f.sizes + low_first(f.attributes, 4) + f.reparse + seq![
        f.units.len() as u8,
        f.namespace,
    ] + unit_bytes(f.units)
}

/// What is read from a stored name.
pub open spec fn name_read(f: StoredName) -> NameView {
    NameView {
        parent_directory: f.parent as u64,
        created: f.times[0] as u64,
        modified: f.times[1] as u64,
        mft_changed: f.times[2] as u64,
        accessed: f.times[3] as u64,
        file_attributes: f.attributes as u32,
        name: utf16_lossy(Seq::new(f.units.len(), |i: int| f.units[i] as u16)),
        namespace: f.namespace,
    }
}

/// An entry of an index: the record and its sequence number, the length of the entry, where
/// the name starts in it, no flags, and the name.
#[verifier::opaque]
pub open spec fn entry_of_name(f: StoredName) -> Seq<u8> {
    low_first(f.record, 6) + low_first(f.sequence, 2) + low_first(16int + name_bytes(f).len(), 2)
        + low_first(16, 2) + low_first(0, 4) + name_bytes(f)
}

pub open spec fn entries_of_names(names: Seq<StoredName>) -> Seq<u8>
    decreases names.len(),
{
    if names.len() == 0 {
        seq![]
    } else {
        entry_of_name(names[0]) + entries_of_names(names.skip(1))
    }
}

/// An index: eight bytes that nobody reads, where the entries start and where they end, four
/// more such bytes, and the entries.
pub open spec fn index_of_names(front: Seq<u8>, names: Seq<StoredName>, middle: Seq<u8>) -> Seq<u8> {
    front + low_first(16, 2) + low_first(16int + entries_of_names(names).len(), 2) + middle
        + entries_of_names(names)
}

pub open spec fn entries_read(names: Seq<StoredName>) -> Seq<IndexEntry> {
    Seq::new(names.len(), |i: int| (names[i].record as u64, name_read(names[i])))
}

// ── Laws ──

#[verifier::rlimit(40)]
proof fn lemma_name_parts(f: StoredName)
    requires
        storable_name(f),
    ensures
        ({
            let b = name_bytes(f);
            &&& b.len() == 66 + 2 * f.units.len()
            &&& has_at(b, 0, low_first(f.parent, 8))
            &&& has_at(b, 8, low_first(f.times[0], 8))
            &&& has_at(b, 16, low_first(f.times[1], 8))
            &&& has_at(b, 24, low_first(f.times[2], 8))
            &&& has_at(b, 32, low_first(f.times[3], 8))
            &&& has_at(b, 56, low_first(f.attributes, 4))
            &&& has_at(b, 64, seq![f.units.len() as u8, f.namespace])
            &&& has_at(b, 66, unit_bytes(f.units))
        }),
{
    reveal(name_bytes);
    lemma_low_first(f.parent, 8);
    lemma_low_first(f.times[0], 8);
    lemma_low_first(f.times[1], 8);
    lemma_low_first(f.times[2], 8);
    lemma_low_first(f.times[3], 8);
    lemma_low_first(f.attributes, 4);
    let b = name_bytes(f);
    assert(b.len() == 66 + 2 * f.units.len());
    assert(b.subrange(0, 8) =~= low_first(f.parent, 8));
    assert(b.subrange(8, 16) =~= low_first(f.times[0], 8));
    assert(b.subrange(16, 24) =~= low_first(f.times[1], 8));
    assert(b.subrange(24, 32) =~= low_first(f.times[2], 8));
    assert(b.subrange(32, 40) =~= low_first(f.times[3], 8));
    assert(b.subrange(56, 60) =~= low_first(f.attributes, 4));
    assert(b.subrange(64, 66) =~= seq![f.units.len() as u8, f.namespace]);
    assert(b.subrange(66, b.len() as int) =~= unit_bytes(f.units));
}

proof fn lemma_wide_part(buf: Seq<u8>, b: Seq<u8>, off: int, v: int)
    requires
        has_at(buf, 0, b),
        has_at(b, off, low_first(v, 8)),
        0 <= v < 0x1_0000_0000_0000_0000,
    ensures
        u64_at(buf, off) == v,
{
    lemma_part_at(buf, 0, b, off, low_first(v, 8));
    lemma_spelled_at(buf, off, v, 8);
    law_eight_bytes(buf, off, v as u64);
}

/// A stored name is read back, whatever follows it.
pub proof fn law_name_is_read(buf: Seq<u8>, f: StoredName)
    requires
        storable_name(f),
        has_at(buf, 0, name_bytes(f)),
    ensures
        file_name_in(buf) == Some(name_read(f)),
{
    let b = name_bytes(f);
    lemma_name_parts(f);
    lemma_wide_part(buf, b, 0, f.parent);
    lemma_wide_part(buf, b, 8, f.times[0]);
    lemma_wide_part(buf, b, 16, f.times[1]);
    lemma_wide_part(buf, b, 24, f.times[2]);
    lemma_wide_part(buf, b, 32, f.times[3]);
    lemma_part_at(buf, 0, b, 56, low_first(f.attributes, 4));
    lemma_spelled_at(buf, 56, f.attributes, 4);
    law_four_bytes(buf, 56, f.attributes as u32);
    lemma_part_at(buf, 0, b, 64, seq![f.units.len() as u8, f.namespace]);
    lemma_part_at(buf, 0, b, 66, unit_bytes(f.units));
    let pair = seq![f.units.len() as u8, f.namespace];
    assert(buf[64] == buf.subrange(64, 66)[0]);
    assert(buf[65] == buf.subrange(64, 66)[1]);
    let n = f.units.len() as int;
    let stored = unit_bytes(f.units);
    assert forall|i: int| 0 <= i < n implies units_le(buf, 66, n)[i] == f.units[i] as u16 by {
        assert(buf[66 + 2 * i] == buf.subrange(66, 66 + 2 * n)[2 * i]);
        assert(buf[66 + 2 * i + 1] == buf.subrange(66, 66 + 2 * n)[2 * i + 1]);
        assert(stored[2 * i] == (f.units[i] % 256) as u8);
        assert(stored[2 * i + 1] == (f.units[i] / 256) as u8);
    }
    assert(units_le(buf, 66, n) =~= Seq::new(f.units.len(), |i: int| f.units[i] as u16));
}

proof fn lemma_reference(t: Seq<u8>, at: int, record: int, sequence: int)
    requires
        0 <= record < 0x1_0000_0000_0000,
        0 <= sequence < 0x1_0000,
        has_at(t, at, low_first(record, 6)),
        has_at(t, at + 6, low_first(sequence, 2)),
    ensures
        record_number(u64_at(t, at)) == record,
{
    lemma_spelled_at(t, at, record, 6);
    lemma_spelled_at(t, at + 6, sequence, 2);
    let q1 = record / 256;
    let q2 = q1 / 256;
    let q3 = q2 / 256;
    let q4 = q3 / 256;
    let q5 = q4 / 256;
    assert(q5 < 256);
    reveal_with_fuel(spells, 7);
    assert(t[at] == record % 256 && t[at + 1] == q1 % 256 && t[at + 2] == q2 % 256 && t[at + 3]
        == q3 % 256 && t[at + 4] == q4 % 256 && t[at + 5] == q5);
    assert(t[at + 6] == sequence % 256 && t[at + 7] == sequence / 256);
    let v = u64_at(t, at);
    assert(u32_at(t, at) == record - 0x1_0000_0000 * q4);
    assert(u32_at(t, at + 4) == q4 + 0x1_0000 * sequence);
    assert(v == record + 0x1_0000_0000_0000 * sequence);
    assert(v & 0x0000_FFFF_FFFF_FFFF == v % 0x1_0000_0000_0000) by (bit_vector);
}

proof fn lemma_entry_parts(f: StoredName)
    requires
        storable_name(f),
    ensures
        ({
            let b = entry_of_name(f);
            let n = name_bytes(f);
            &&& n.len() == 66 + 2 * f.units.len()
            &&& b.len() == 16int + n.len()
            &&& has_at(b, 0, low_first(f.record, 6))
            &&& has_at(b, 6, low_first(f.sequence, 2))
            &&& has_at(b, 8, low_first(16int + n.len(), 2))
            &&& has_at(b, 10, low_first(16, 2))
            &&& has_at(b, 12, low_first(0, 4))
            &&& has_at(b, 16, n)
        }),
{
    reveal(entry_of_name);
    let b = entry_of_name(f);
    let n = name_bytes(f);
    lemma_name_parts(f);
    lemma_low_first(f.record, 6);
    lemma_low_first(f.sequence, 2);
    lemma_low_first(16int + n.len(), 2);
    lemma_low_first(16, 2);
    lemma_low_first(0, 4);
    assert(b.subrange(0, 6) =~= low_first(f.record, 6));
    assert(b.subrange(6, 8) =~= low_first(f.sequence, 2));
    assert(b.subrange(8, 10) =~= low_first(16int + n.len(), 2));
    assert(b.subrange(10, 12) =~= low_first(16, 2));
    assert(b.subrange(12, 16) =~= low_first(0, 4));
    assert(b.subrange(16, b.len() as int) =~= n);
}

proof fn lemma_entry_read(buf: Seq<u8>, at: int, end: int, f: StoredName)
    requires
        storable_name(f),
        has_at(buf, at, entry_of_name(f)),
        at + entry_of_name(f).len() <= end <= buf.len(),
    ensures
        index_from(buf, at, end) == seq![(f.record as u64, name_read(f))] + index_from(
            buf,
            at + entry_of_name(f).len(),
            end,
        ),
{
    let b = entry_of_name(f);
    let n = name_bytes(f);
    lemma_entry_parts(f);
    lemma_part_at(buf, at, b, 0, low_first(f.record, 6));
    lemma_part_at(buf, at, b, 6, low_first(f.sequence, 2));
    lemma_part_at(buf, at, b, 8, low_first(16int + n.len(), 2));
    lemma_part_at(buf, at, b, 10, low_first(16, 2));
    lemma_part_at(buf, at, b, 12, low_first(0, 4));
    lemma_part_at(buf, at, b, 16, n);
    lemma_reference(buf, at, f.record, f.sequence);
    lemma_spelled_at(buf, at + 8, 16int + n.len(), 2);
    lemma_spelled_at(buf, at + 10, 16, 2);
    lemma_spelled_at(buf, at + 12, 0, 4);
    law_two_bytes(buf, at + 8, (16int + n.len()) as u16);
    law_two_bytes(buf, at + 10, 16);
    law_four_bytes(buf, at + 12, 0);
    assert(0u32 & 0x02 == 0) by (bit_vector);
    assert(next_entry(buf, at) == at + b.len());
    let tail = buf.skip(at + 16);
    assert(tail.subrange(0, n.len() as int) =~= buf.subrange(at + 16, at + 16int + n.len()));
    law_name_is_read(tail, f);
}

#[verifier::spinoff_prover]
#[verifier::rlimit(80)]
proof fn lemma_entries_read(front: Seq<u8>, names: Seq<StoredName>)
    requires
        forall|i: int| #![trigger names[i]] 0 <= i < names.len() ==> storable_name(names[i]),
    ensures
        ({
            let buf = front + entries_of_names(names);
            index_from(buf, front.len() as int, buf.len() as int) == entries_read(names)
        }),
    decreases names.len(),
{
    let all = entries_of_names(names);
    let buf = front + all;
    if names.len() == 0 {
        assert(index_from(buf, front.len() as int, buf.len() as int) =~= entries_read(names));
    } else {
        let f = names[0];
        let first = entry_of_name(f);
        let rest = names.skip(1);
        let more = front + first;
        lemma_between(front, first, entries_of_names(rest));
        assert(front.len() + first.len() <= buf.len());
        lemma_entry_read(buf, front.len() as int, buf.len() as int, f);
        assert forall|i: int| #![trigger rest[i]] 0 <= i < rest.len() implies storable_name(rest[i]) by {
            assert(rest[i] == names[i + 1]);
        }
        lemma_entries_read(more, rest);
        assert(seq![(f.record as u64, name_read(f))] + entries_read(rest) =~= entries_read(names));
    }
}

/// What merging keeps: every record that occurs, each under a name that one of its entries has.
proof fn lemma_merged(entries: Seq<IndexEntry>, n: int)
    requires
        0 <= n <= entries.len(),
    ensures
        forall|i: int| 0 <= i < n ==> lists(merged_upto(entries, n), #[trigger] entries[i].0),
        forall|j: int|
            0 <= j < merged_upto(entries, n).len() ==> entries.take(n).contains(
                #[trigger] merged_upto(entries, n)[j],
            ),
        forall|j: int, i: int|
            #![trigger merged_upto(entries, n)[j], entries[i]]
            0 <= j < merged_upto(entries, n).len() && 0 <= i < n && merged_upto(entries, n)[j].0
                == entries[i].0 ==> at_least_as_good(
                merged_upto(entries, n)[j].1.namespace,
                entries[i].1.namespace,
            ),
    decreases n,
{
    if n > 0 {
        lemma_merged(entries, n - 1);
        let best = merged_upto(entries, n - 1);
        let now = merged_upto(entries, n);
        let e = entries[n - 1];
        lemma_entry_for(best, e.0, 0);
        let spot = entry_for(best, e.0, 0);
        assert forall|i: int| 0 <= i < n implies lists(now, #[trigger] entries[i].0) by {
            if i < n - 1 {
                assert(lists(best, entries[i].0));
                let k = choose|k: int| 0 <= k < best.len() && #[trigger] best[k].0 == entries[i].0;
                assert(now[k].0 == best[k].0);
            } else {
                match spot {
                    None => {
                        assert(now[best.len() as int].0 == e.0);
                    },
                    Some(k) => {
                        assert(now[k].0 == e.0);
                    },
                }
            }
        }
        assert forall|j: int| 0 <= j < now.len() implies entries.take(n).contains(
            #[trigger] now[j],
        ) by {
            if now[j] == e {
                assert(entries.take(n)[n - 1] == e);
            } else {
                assert(now[j] == best[j]);
                let known = entries.take(n - 1);
                assert(known.contains(best[j]));
                let i = choose|i: int| 0 <= i < known.len() && #[trigger] known[i] == best[j];
                assert(entries.take(n)[i] == entries.take(n - 1)[i]);
            }
        }
        lemma_once(entries, n - 1);
        assert forall|j: int, i: int|
            #![trigger now[j], entries[i]]
            0 <= j < now.len() && 0 <= i < n && now[j].0 == entries[i].0 implies at_least_as_good(
            now[j].1.namespace,
            entries[i].1.namespace,
        ) by {
            if j < best.len() && now[j] == best[j] {
                if i == n - 1 {
                    assert(spot is Some);
                    assert(best[spot->0].0 == best[j].0);
                    assert(spot->0 == j);
                } else {
                    assert(at_least_as_good(best[j].1.namespace, entries[i].1.namespace));
                }
            } else {
                assert(now[j] == e);
                if i < n - 1 {
                    match spot {
                        None => {
                            assert(lists(best, entries[i].0));
                        },
                        Some(k) => {
                            assert(k == j);
                            assert(at_least_as_good(best[k].1.namespace, entries[i].1.namespace));
                        },
                    }
                }
            }
        }
    }
}

/// Whether a listing has a record.
pub open spec fn lists(listing: Seq<IndexEntry>, record: u64) -> bool {
    exists|k: int| 0 <= k < listing.len() && #[trigger] listing[k].0 == record
}

/// Whether a name of one namespace is shown where one of another could be: a Win32 name, or
/// no DOS name, or both are DOS names.
pub open spec fn at_least_as_good(shown: u8, other: u8) -> bool {
    ||| shown == 1 || shown == 3
    ||| shown != 2 && other != 1 && other != 3
    ||| shown == 2 && other == 2
}

proof fn lemma_entry_for(entries: Seq<IndexEntry>, record: u64, i: int)
    requires
        0 <= i,
    ensures
        match entry_for(entries, record, i) {
            Some(k) => i <= k < entries.len() && entries[k].0 == record,
            None => forall|j: int|
                #![trigger entries[j]]
                i <= j < entries.len() ==> entries[j].0 != record,
        },
    decreases entries.len() - i,
{
    if i < entries.len() && entries[i].0 != record {
        lemma_entry_for(entries, record, i + 1);
    }
}

proof fn lemma_once(entries: Seq<IndexEntry>, n: int)
    requires
        n <= entries.len(),
    ensures
        forall|i: int, j: int|
            #![trigger merged_upto(entries, n)[i], merged_upto(entries, n)[j]]
            0 <= i < j < merged_upto(entries, n).len() ==> merged_upto(entries, n)[i].0
                != merged_upto(entries, n)[j].0,
    decreases n,
{
    if n > 0 {
        lemma_once(entries, n - 1);
        lemma_entry_for(merged_upto(entries, n - 1), entries[n - 1].0, 0);
    }
}

proof fn lemma_merged_apart(entries: Seq<IndexEntry>, n: int)
    requires
        0 <= n <= entries.len(),
        forall|i: int, j: int|
            #![trigger entries[i], entries[j]]
            0 <= i < j < entries.len() ==> entries[i].0 != entries[j].0,
    ensures
        merged_upto(entries, n) == entries.take(n),
    decreases n,
{
    if n > 0 {
        lemma_merged_apart(entries, n - 1);
        let best = merged_upto(entries, n - 1);
        lemma_entry_for(best, entries[n - 1].0, 0);
        if let Some(k) = entry_for(best, entries[n - 1].0, 0) {
            assert(best[k] == entries[k]);
        }
        assert(best.push(entries[n - 1]) =~= entries.take(n));
    } else {
        assert(merged_upto(entries, n) =~= entries.take(n));
    }
}

/// An index lists every file that an entry names, and nothing else: each record under a name
/// that one of its entries has, a Win32 name where it has one, and a DOS name only where it has
/// no other. Where no file has two names, the listing is the entries in their order.
pub proof fn law_index_lists_every_file(front: Seq<u8>, names: Seq<StoredName>, middle: Seq<u8>)
    requires
        front.len() == 8,
        middle.len() == 4,
        forall|i: int| #![trigger names[i]] 0 <= i < names.len() ==> storable_name(names[i]),
        16int + entries_of_names(names).len() <= 0xffff,
        names.len() > 0,
    ensures
        ({
            let listing = index_in(index_of_names(front, names, middle));
            &&& forall|i: int|
                0 <= i < names.len() ==> lists(listing, #[trigger] names[i].record as u64)
            &&& forall|j: int|
                0 <= j < listing.len() ==> entries_read(names).contains(#[trigger] listing[j])
            &&& forall|j: int, i: int|
                #![trigger listing[j], names[i]]
                0 <= j < listing.len() && 0 <= i < names.len() && listing[j].0 == names[i].record
                    ==> at_least_as_good(listing[j].1.namespace, names[i].namespace)
            &&& (forall|i: int, j: int|
                #![trigger names[i], names[j]]
                0 <= i < j < names.len() ==> names[i].record != names[j].record) ==> listing
                == entries_read(names)
        }),
{
    let buf = index_of_names(front, names, middle);
    let total = 16int + entries_of_names(names).len();
    let head = front + low_first(16, 2) + low_first(total, 2) + middle;
    lemma_low_first(16, 2);
    lemma_low_first(total, 2);
    assert(buf =~= head + entries_of_names(names));
    assert(buf.subrange(8, 10) =~= low_first(16, 2));
    assert(buf.subrange(10, 12) =~= low_first(total, 2));
    lemma_spelled_at(buf, 8, 16, 2);
    lemma_spelled_at(buf, 10, total, 2);
    law_two_bytes(buf, 8, 16);
    law_two_bytes(buf, 10, total as u16);
    lemma_entries_read(head, names);
    lemma_entry_parts(names[0]);
    let all = entries_read(names);
    assert(index_from(buf, 16, total) == all);
    lemma_merged(all, all.len() as int);
    assert(all.take(all.len() as int) =~= all);
    let listing = index_in(buf);
    assert(listing == merged_upto(all, all.len() as int));
    assert forall|i: int| 0 <= i < names.len() implies lists(
        listing,
        #[trigger] names[i].record as u64,
    ) by {
        assert(lists(listing, all[i].0));
    }
    assert forall|j: int, i: int|
        #![trigger listing[j], names[i]]
        0 <= j < listing.len() && 0 <= i < names.len() && listing[j].0 == names[i].record implies at_least_as_good(
        listing[j].1.namespace,
        names[i].namespace,
    ) by {
        assert(all[i].0 == names[i].record as u64);
    }
    if forall|i: int, j: int|
        #![trigger names[i], names[j]]
        0 <= i < j < names.len() ==> names[i].record != names[j].record {
        assert forall|i: int, j: int|
            #![trigger all[i], all[j]]
            0 <= i < j < all.len() implies all[i].0 != all[j].0 by {
            assert(names[i].record != names[j].record);
        }
        lemma_merged_apart(all, all.len() as int);
    }
}

} // verus!
