//! What directory records, names and Rock Ridge entries say, told from the writer's side.
use vstd::prelude::*;
use vstd::utf8::*;

use crate::bytes::u32_at;
use crate::iso9660::records::{RecordView, ascii_lower, iso_name, joliet_name, last_byte, record_at, system_use_start, units_be, without_tail};
use crate::iso9660::susp::{SuspView, components, susp_from};
use crate::iso9660::volume::{is_dot_record, records_from};
use crate::spelling::{has_at, law_four_bytes, lemma_between, lemma_low_first, lemma_part_at, lemma_spelled_at, low_first};
use crate::text::{utf16_lossy, utf8_lossy};

verus! {

/// A directory record as a disk holds it.
pub struct StoredRecord {
    pub attribute_length: u8,
    pub location: u32,
    pub location_again: Seq<u8>,
    pub size: u32,
    pub size_again: Seq<u8>,
    pub date: Seq<u8>,
    pub flags: u8,
    pub interleave: Seq<u8>,
    pub identifier: Seq<u8>,
    pub area: Seq<u8>,
}

/// A byte that makes the length of the part before the area even.
pub open spec fn identifier_padding(id: Seq<u8>) -> Seq<u8> {
    if id.len() % 2 == 0 {
        seq![]
    } else {
        seq![0u8]
    }
}

/// The bytes of a record: its length, the length of its attributes, where its extent lies and
/// how long it is, each number again with its high byte first, the date, the flags, how it is
/// interleaved, and its identifier; then an area for others to use.
#[verifier::opaque]
pub open spec fn record_bytes(r: StoredRecord) -> Seq<u8> {
    seq![
        (33 + r.identifier.len() + identifier_padding(r.identifier).len() + r.area.len()) as u8,
        r.attribute_length,
    ] + low_first(r.location as int, 4) + r.location_again + low_first(r.size as int, 4)
        + r.size_again + r.date + seq![r.flags] + r.interleave + seq![r.identifier.len() as u8]
        + r.identifier + identifier_padding(r.identifier) + r.area
}

/// Whether the parts of a record have the lengths they are stored with.
pub open spec fn storable_record(r: StoredRecord) -> bool {
    &&& r.location_again.len() == 4
    &&& r.size_again.len() == 4
    &&& r.date.len() == 7
    &&& r.interleave.len() == 6
    &&& 33 + r.identifier.len() + identifier_padding(r.identifier).len() + r.area.len() <= 255
}

/// What a stored record says.
pub open spec fn record_says(r: StoredRecord, joliet: bool) -> RecordView {
    let s = susp_from(r.area, 0, SuspView { name: None, posix: None, link: None });
    RecordView {
        extent_location: r.location,
        extent_size: r.size,
        flags: r.flags,
        identifier: r.identifier,
        rr_name: s.name,
        rr_posix: s.posix,
        rr_symlink: s.link,
        joliet,
    }
}

#[verifier::rlimit(60)]
proof fn lemma_record_parts(r: StoredRecord)
    requires
        storable_record(r),
    ensures
        ({
            let b = record_bytes(r);
            let n = r.identifier.len() as int;
            let pad = identifier_padding(r.identifier).len() as int;
            &&& b.len() == 33 + n + pad + r.area.len()
            &&& b[0] == b.len()
            &&& has_at(b, 2, low_first(r.location as int, 4))
            &&& has_at(b, 10, low_first(r.size as int, 4))
            &&& b[25] == r.flags
            &&& b[32] == n
            &&& has_at(b, 33, r.identifier)
            &&& has_at(b, 33 + n + pad, r.area)
        }),
{
    reveal(record_bytes);
    lemma_low_first(r.location as int, 4);
    lemma_low_first(r.size as int, 4);
    let b = record_bytes(r);
    let n = r.identifier.len() as int;
    let pad = identifier_padding(r.identifier).len() as int;
    assert(b.subrange(2, 6) =~= low_first(r.location as int, 4));
    assert(b.subrange(10, 14) =~= low_first(r.size as int, 4));
    assert(b.subrange(33, 33 + n) =~= r.identifier);
    assert(b.subrange(33 + n + pad, b.len() as int) =~= r.area);
}

/// A stored record is read back: where its extent lies and how long it is, its flags, its
/// identifier, and what its area says.
pub proof fn law_record_is_read(data: Seq<u8>, at: int, r: StoredRecord, joliet: bool)
    requires
        storable_record(r),
        has_at(data, at, record_bytes(r)),
    ensures
        record_at(data, at, joliet) == Some(record_says(r, joliet)),
        data[at] == record_bytes(r).len(),
{
    let b = record_bytes(r);
    let n = r.identifier.len() as int;
    let pad = identifier_padding(r.identifier).len() as int;
    lemma_record_parts(r);
    assert forall|j: int| 0 <= j < b.len() implies #[trigger] data[at + j] == b[j] by {
        assert(data.subrange(at, at + b.len())[j] == data[at + j]);
    }
    assert(data[at + 0] == b[0] && data[at + 25] == b[25] && data[at + 32] == b[32]);
    lemma_part_at(data, at, b, 2, low_first(r.location as int, 4));
    lemma_part_at(data, at, b, 10, low_first(r.size as int, 4));
    lemma_part_at(data, at, b, 33, r.identifier);
    lemma_part_at(data, at, b, 33 + n + pad, r.area);
    lemma_spelled_at(data, at + 2, r.location as int, 4);
    lemma_spelled_at(data, at + 10, r.size as int, 4);
    law_four_bytes(data, at + 2, r.location);
    law_four_bytes(data, at + 10, r.size);
    assert(system_use_start(n) == 33 + n + pad);
    if r.area.len() == 0 {
        assert(r.area =~= seq![]);
    }
}

/// The records of one sector, and zeros up to its end.
pub open spec fn records_in_turn(records: Seq<StoredRecord>) -> Seq<u8>
    decreases records.len(),
{
    if records.len() == 0 {
        seq![]
    } else {
        record_bytes(records[0]) + records_in_turn(records.skip(1))
    }
}

pub open spec fn sector_of_records(records: Seq<StoredRecord>) -> Seq<u8> {
    records_in_turn(records) + Seq::new(
        (2048 - records_in_turn(records).len()) as nat,
        |i: int| 0u8,
    )
}

/// The sectors of a directory.
pub open spec fn directory_bytes(sectors: Seq<Seq<StoredRecord>>) -> Seq<u8>
    decreases sectors.len(),
{
    if sectors.len() == 0 {
        seq![]
    } else {
        sector_of_records(sectors[0]) + directory_bytes(sectors.skip(1))
    }
}

/// Whether a record stands for the directory itself or the one above it.
pub open spec fn stands_for_dots(id: Seq<u8>, joliet: bool) -> bool {
    ||| !joliet && (id == seq![0u8] || id == seq![1u8])
    ||| joliet && (id == seq![0u8, 0u8] || id == seq![0u8, 1u8])
}

/// What a listing shows of records: all but those that stand for dots.
pub open spec fn shown_records(records: Seq<StoredRecord>, joliet: bool) -> Seq<RecordView>
    decreases records.len(),
{
    if records.len() == 0 {
        seq![]
    } else {
        let rest = shown_records(records.skip(1), joliet);
        if stands_for_dots(records[0].identifier, joliet) {
            rest
        } else {
            seq![record_says(records[0], joliet)] + rest
        }
    }
}

pub open spec fn shown_sectors(sectors: Seq<Seq<StoredRecord>>, joliet: bool) -> Seq<RecordView>
    decreases sectors.len(),
{
    if sectors.len() == 0 {
        seq![]
    } else {
        shown_records(sectors[0], joliet) + shown_sectors(sectors.skip(1), joliet)
    }
}

/// Whether the records of a sector can be stored and fit into it.
pub open spec fn storable_sector(records: Seq<StoredRecord>) -> bool {
    &&& forall|i: int| #![trigger records[i]] 0 <= i < records.len() ==> storable_record(records[i])
    &&& records_in_turn(records).len() <= 2048
}

proof fn lemma_dots(r: StoredRecord, joliet: bool)
    ensures
        is_dot_record(record_says(r, joliet)) == stands_for_dots(r.identifier, joliet),
{
    let id = r.identifier;
    if joliet && id.len() == 2 && id[0] == 0 && id[1] <= 1 {
        assert(id =~= seq![0u8, id[1]]);
    }
    if !joliet && id.len() == 1 && id[0] <= 1 {
        assert(id =~= seq![id[0]]);
    }
}

proof fn lemma_record_step(data: Seq<u8>, at: int, r: StoredRecord, joliet: bool)
    requires
        storable_record(r),
        has_at(data, at, record_bytes(r)),
    ensures
        records_from(data, at, joliet) == (if stands_for_dots(r.identifier, joliet) {
            seq![]
        } else {
            seq![record_says(r, joliet)]
        }) + records_from(data, at + record_bytes(r).len(), joliet),
{
    lemma_record_parts(r);
    law_record_is_read(data, at, r, joliet);
    lemma_dots(r, joliet);
    let rest = records_from(data, at + record_bytes(r).len(), joliet);
    assert(Seq::<RecordView>::empty() + rest =~= rest);
}

proof fn lemma_padding_step(data: Seq<u8>, at: int, end: int, joliet: bool)
    requires
        0 <= at <= end <= data.len(),
        end % 2048 == 0,
        end - 2048 <= at,
        at < end ==> data[at] == 0,
    ensures
        records_from(data, at, joliet) == records_from(data, end, joliet),
{
    if at < end {
        assert(record_at(data, at, joliet) is None);
        assert((at / 2048 + 1) * 2048 == end);
    }
}

/// A sector's records are shown, and then those that follow the sector.
proof fn lemma_records_shown(data: Seq<u8>, at: int, end: int, records: Seq<StoredRecord>, joliet: bool)
    requires
        0 <= at <= end <= data.len(),
        end % 2048 == 0,
        end - 2048 <= at,
        forall|i: int| #![trigger records[i]] 0 <= i < records.len() ==> storable_record(records[i]),
        at + records_in_turn(records).len() <= end,
        has_at(data, at, records_in_turn(records)),
        forall|i: int| #![trigger data[i]] at + records_in_turn(records).len() <= i < end ==> data[i] == 0,
    ensures
        records_from(data, at, joliet) == shown_records(records, joliet) + records_from(
            data,
            end,
            joliet,
        ),
    decreases records.len(),
{
    let after = records_from(data, end, joliet);
    if records.len() == 0 {
        assert(shown_records(records, joliet) + after =~= after);
        lemma_padding_step(data, at, end, joliet);
    } else {
        let r = records[0];
        let first = record_bytes(r);
        let rest = records.skip(1);
        let tail = records_in_turn(rest);
        let whole = records_in_turn(records);
        let none = Seq::<u8>::empty();
        assert(none + (first + tail) =~= whole);
        lemma_between(none, first, tail);
        lemma_part_at(data, at, whole, 0, first);
        lemma_part_at(data, at, whole, first.len() as int, tail);
        lemma_record_parts(r);
        lemma_record_step(data, at, r, joliet);
        assert forall|i: int| #![trigger rest[i]] 0 <= i < rest.len() implies storable_record(rest[i]) by {
            assert(rest[i] == records[i + 1]);
        }
        lemma_records_shown(data, at + first.len(), end, rest, joliet);
        let shown = shown_records(rest, joliet);
        let here: Seq<RecordView> = if stands_for_dots(r.identifier, joliet) {
            seq![]
        } else {
            seq![record_says(r, joliet)]
        };
        assert(shown_records(records, joliet) =~= here + shown);
        assert((here + shown) + after =~= here + (shown + after));
    }
}

proof fn lemma_sectors_shown(front: Seq<u8>, sectors: Seq<Seq<StoredRecord>>, joliet: bool)
    requires
        front.len() % 2048 == 0,
        forall|i: int| #![trigger sectors[i]] 0 <= i < sectors.len() ==> storable_sector(sectors[i]),
    ensures
        records_from(front + directory_bytes(sectors), front.len() as int, joliet) == shown_sectors(
            sectors,
            joliet,
        ),
    decreases sectors.len(),
{
    let data = front + directory_bytes(sectors);
    if sectors.len() > 0 {
        let first = sector_of_records(sectors[0]);
        let rest = sectors.skip(1);
        let turn = records_in_turn(sectors[0]);
        assert(storable_sector(sectors[0]));
        lemma_between(front, first, directory_bytes(rest));
        assert forall|i: int| #![trigger rest[i]] 0 <= i < rest.len() implies storable_sector(rest[i]) by {
            assert(rest[i] == sectors[i + 1]);
        }
        lemma_sectors_shown(front + first, rest, joliet);
        assert(first.subrange(0, turn.len() as int) =~= turn);
        lemma_part_at(data, front.len() as int, first, 0, turn);
        let end = front.len() + 2048;
        assert forall|i: int| #![trigger data[i]] front.len() + turn.len() <= i < end implies data[i] == 0 by {
            assert(data[i] == first[i - front.len()]);
        }
        lemma_records_shown(data, front.len() as int, end as int, sectors[0], joliet);
    }
}

/// A directory lists every record in it, in order, but the ones that stand for dots: all
/// records of a sector, and then those of the next.
pub proof fn law_directory_lists_every_record(sectors: Seq<Seq<StoredRecord>>, joliet: bool)
    requires
        forall|i: int| #![trigger sectors[i]] 0 <= i < sectors.len() ==> storable_sector(sectors[i]),
    ensures
        records_from(directory_bytes(sectors), 0, joliet) == shown_sectors(sectors, joliet),
{
    let none = Seq::<u8>::empty();
    assert(none + directory_bytes(sectors) =~= directory_bytes(sectors));
    lemma_sectors_shown(none, sectors, joliet);
}

// ── Rock Ridge ──

proof fn lemma_entry_bytes(data: Seq<u8>, at: int, entry: Seq<u8>)
    requires
        has_at(data, at, entry),
    ensures
        forall|j: int| #![trigger data[at + j]] 0 <= j < entry.len() ==> data[at + j] == entry[j],
{
    assert forall|j: int| #![trigger data[at + j]] 0 <= j < entry.len() implies data[at + j] == entry[j] by {
        assert(data.subrange(at, at + entry.len())[j] == data[at + j]);
    }
}

/// An entry `PX` gives the mode, the number of links, the owner and the group.
pub proof fn law_posix_entry(
    data: Seq<u8>,
    at: int,
    mode: u32,
    links: u32,
    uid: u32,
    gid: u32,
    more: Seq<u8>,
    s: SuspView,
)
    requires
        more.len() <= 235,
        has_at(
            data,
            at,
            seq![80u8, 88u8, (20 + more.len()) as u8, 1u8] + low_first(mode as int, 4) + low_first(
                links as int,
                4,
            ) + low_first(uid as int, 4) + low_first(gid as int, 4) + more,
        ),
    ensures
        susp_from(data, at, s) == susp_from(
            data,
            at + 20 + more.len(),
            SuspView { posix: Some((mode, links, uid, gid)), ..s },
        ),
{
    let entry = seq![80u8, 88u8, (20 + more.len()) as u8, 1u8] + low_first(mode as int, 4)
        + low_first(links as int, 4) + low_first(uid as int, 4) + low_first(gid as int, 4) + more;
    lemma_low_first(mode as int, 4);
    lemma_low_first(links as int, 4);
    lemma_low_first(uid as int, 4);
    lemma_low_first(gid as int, 4);
    lemma_entry_bytes(data, at, entry);
    assert(data[at + 0] == 80 && data[at + 1] == 88 && data[at + 2] == 20 + more.len());
    assert(entry.subrange(4, 8) =~= low_first(mode as int, 4));
    assert(entry.subrange(8, 12) =~= low_first(links as int, 4));
    assert(entry.subrange(12, 16) =~= low_first(uid as int, 4));
    assert(entry.subrange(16, 20) =~= low_first(gid as int, 4));
    lemma_field(data, at, entry, 4, mode);
    lemma_field(data, at, entry, 8, links);
    lemma_field(data, at, entry, 12, uid);
    lemma_field(data, at, entry, 16, gid);
}

proof fn lemma_field(data: Seq<u8>, at: int, entry: Seq<u8>, off: int, v: u32)
    requires
        has_at(data, at, entry),
        has_at(entry, off, low_first(v as int, 4)),
    ensures
        u32_at(data, at + off) == v,
{
    lemma_part_at(data, at, entry, off, low_first(v as int, 4));
    lemma_spelled_at(data, at + off, v as int, 4);
    law_four_bytes(data, at + off, v);
}

/// An entry `NM` gives the name in full, whatever the case of its letters.
pub proof fn law_name_entry(data: Seq<u8>, at: int, flags: u8, name: Seq<u8>, s: SuspView)
    requires
        0 < name.len() <= 250,
        has_at(data, at, seq![78u8, 77u8, (5 + name.len()) as u8, 1u8, flags] + name),
    ensures
        susp_from(data, at, s) == susp_from(
            data,
            at + 5 + name.len(),
            SuspView { name: Some(utf8_lossy(name)), ..s },
        ),
{
    let entry = seq![78u8, 77u8, (5 + name.len()) as u8, 1u8, flags] + name;
    lemma_entry_bytes(data, at, entry);
    assert(data[at + 0] == 78 && data[at + 1] == 77 && data[at + 2] == 5 + name.len());
    assert(data.subrange(at + 5, at + 5 + name.len()) =~= name) by {
        assert forall|j: int| 0 <= j < name.len() implies data.subrange(at + 5, at + 5 + name.len())[j]
            == name[j] by {
            assert(data[at + (5 + j)] == entry[5 + j]);
        }
    }
}

/// An entry of a kind that nobody reads is passed over.
pub proof fn law_other_entry(data: Seq<u8>, at: int, a: u8, b: u8, body: Seq<u8>, s: SuspView)
    requires
        body.len() <= 251,
        has_at(data, at, seq![a, b, (4 + body.len()) as u8, 1u8] + body),
        !(a == 80 && b == 88),
        !(a == 78 && b == 77),
        !(a == 83 && (b == 76 || b == 84)),
    ensures
        susp_from(data, at, s) == susp_from(data, at + 4 + body.len(), s),
{
    let entry = seq![a, b, (4 + body.len()) as u8, 1u8] + body;
    lemma_entry_bytes(data, at, entry);
    assert(data[at + 0] == a && data[at + 1] == b && data[at + 2] == 4 + body.len());
}

/// The components of a link whose parts are all names: each but the last goes on.
pub open spec fn name_components(names: Seq<Seq<u8>>) -> Seq<u8>
    decreases names.len(),
{
    if names.len() == 0 {
        seq![]
    } else {
        seq![
            if names.len() == 1 {
                0u8
            } else {
                1u8
            },
            names[0].len() as u8,
        ] + names[0] + name_components(names.skip(1))
    }
}

/// Names with a slash after each.
pub open spec fn slash_after_each(names: Seq<Seq<u8>>) -> Seq<u8>
    decreases names.len(),
{
    if names.len() == 0 {
        seq![]
    } else {
        names[0] + seq![47u8] + slash_after_each(names.skip(1))
    }
}

proof fn lemma_components(data: Seq<u8>, at: int, names: Seq<Seq<u8>>, link: Seq<u8>)
    requires
        names.len() > 0,
        forall|i: int| #![trigger names[i]] 0 <= i < names.len() ==> names[i].len() <= 255,
        has_at(data, at, name_components(names)),
    ensures
        components(data, at, at + name_components(names).len(), link, true) == link
            + slash_after_each(names),
    decreases names.len(),
{
    let whole = name_components(names);
    let rest = names.skip(1);
    let n = names[0].len() as int;
    lemma_entry_bytes(data, at, whole);
    assert(whole.len() == 2 + n + name_components(rest).len());
    assert(data[at + 0] == whole[0] && data[at + 1] == whole[1]);
    assert(data.subrange(at + 2, at + 2 + n) =~= names[0]) by {
        assert forall|j: int| 0 <= j < n implies data.subrange(at + 2, at + 2 + n)[j] == names[0][j] by {
            assert(data[at + (2 + j)] == whole[2 + j]);
        }
    }
    assert(1u8 & 0x08 == 0 && 1u8 & 0x04 == 0 && 1u8 & 0x02 == 0 && 1u8 & 0x01 != 0) by (bit_vector);
    assert(0u8 & 0x08 == 0 && 0u8 & 0x04 == 0 && 0u8 & 0x02 == 0 && 0u8 & 0x01 == 0) by (bit_vector);
    let longer = link + names[0].push(47);
    if names.len() == 1 {
        assert(rest =~= seq![]);
        reveal_with_fuel(slash_after_each, 2);
        assert(longer =~= link + slash_after_each(names));
    } else {
        assert(whole.subrange(2 + n, whole.len() as int) =~= name_components(rest));
        lemma_part_at(data, at, whole, 2 + n, name_components(rest));
        assert forall|i: int| #![trigger rest[i]] 0 <= i < rest.len() implies rest[i].len() <= 255 by {
            assert(rest[i] == names[i + 1]);
        }
        lemma_components(data, at + 2 + n, rest, longer);
        assert(longer + slash_after_each(rest) =~= link + slash_after_each(names));
    }
}

/// An entry `SL` of names gives a link: the names with a slash between each two.
pub proof fn law_link_entry(data: Seq<u8>, at: int, names: Seq<Seq<u8>>, s: SuspView)
    requires
        names.len() > 0,
        name_components(names).len() <= 250,
        forall|i: int| #![trigger names[i]] 0 <= i < names.len() ==> names[i].len() <= 255,
        s.link is None,
        has_at(
            data,
            at,
            seq![83u8, 76u8, (5 + name_components(names).len()) as u8, 1u8, 0u8]
                + name_components(names),
        ),
    ensures
        susp_from(data, at, s) == susp_from(
            data,
            at + 5 + name_components(names).len(),
            SuspView { link: Some(slash_after_each(names).drop_last()), ..s },
        ),
{
    let parts = name_components(names);
    let entry = seq![83u8, 76u8, (5 + parts.len()) as u8, 1u8, 0u8] + parts;
    lemma_entry_bytes(data, at, entry);
    assert(data[at + 0] == 83 && data[at + 1] == 76 && data[at + 2] == 5 + parts.len());
    assert(entry.subrange(5, entry.len() as int) =~= parts);
    lemma_part_at(data, at, entry, 5, parts);
    lemma_components(data, at + 5, names, seq![]);
    assert(Seq::<u8>::empty() + slash_after_each(names) =~= slash_after_each(names));
    lemma_ends_in_slash(names);
}

proof fn lemma_ends_in_slash(names: Seq<Seq<u8>>)
    requires
        names.len() > 0,
    ensures
        slash_after_each(names).len() > 0,
        slash_after_each(names).last() == 47,
    decreases names.len(),
{
    if names.len() > 1 {
        lemma_ends_in_slash(names.skip(1));
    } else {
        reveal_with_fuel(slash_after_each, 2);
    }
}

// ── Names ──

/// Bytes below 128 stand for the characters with their numbers.
pub proof fn law_ascii_text(bytes: Seq<u8>)
    requires
        forall|i: int| #![trigger bytes[i]] 0 <= i < bytes.len() ==> bytes[i] < 128,
    ensures
        utf8_lossy(bytes) == Seq::new(bytes.len(), |i: int| bytes[i] as char),
{
    let chars = Seq::new(bytes.len(), |i: int| bytes[i] as char);
    assert(is_ascii_chars(chars));
    is_ascii_chars_encode_utf8(chars);
    assert(encode_utf8(chars) =~= bytes) by {
        assert forall|i: int| 0 <= i < bytes.len() implies encode_utf8(chars)[i] == bytes[i] by {
            assert(chars[i] as u8 == encode_utf8(chars)[i]);
        }
    }
    encode_utf8_valid_utf8(chars);
    encode_utf8_decode_utf8(chars);
}

proof fn lemma_last_byte(s: Seq<u8>, c: u8)
    ensures
        ({
            let p = last_byte(s, c);
            &&& -1 <= p < s.len()
            &&& p >= 0 ==> s[p] == c
            &&& forall|i: int| #![trigger s[i]] p < i < s.len() ==> s[i] != c
        }),
    decreases s.len(),
{
    if s.len() > 0 && s.last() != c {
        let r = s.drop_last();
        lemma_last_byte(r, c);
        assert forall|i: int| #![trigger s[i]] last_byte(r, c) < i < s.len() implies s[i] != c by {
            if i < r.len() {
                assert(r[i] == s[i]);
            }
        }
    }
}

/// An identifier of plain characters, with or without a version after a semicolon and with
/// spaces at its end, stands for the characters before those, capital letters in lower case.
pub proof fn law_identifier_names_the_file(name: Seq<u8>, spaces: nat, version: Seq<u8>, versioned: bool)
    requires
        forall|i: int| #![trigger name[i]] 0 <= i < name.len() ==> name[i] < 128 && name[i] != 59,
        name.len() > 0 ==> name.last() != 32,
        forall|i: int| #![trigger version[i]] 0 <= i < version.len() ==> version[i] != 59,
    ensures
        ({
            let padded = name + Seq::new(spaces, |i: int| 32u8);
            let raw = if versioned {
                padded + seq![59u8] + version
            } else {
                padded
            };
            iso_name(raw) == Seq::new(
                name.len(),
                |i: int|
                    if 65 <= name[i] <= 90 {
                        (name[i] + 32) as char
                    } else {
                        name[i] as char
                    },
            )
        }),
{
    let padded = name + Seq::new(spaces, |i: int| 32u8);
    let raw = if versioned {
        padded + seq![59u8] + version
    } else {
        padded
    };
    lemma_last_byte(raw, 59);
    if versioned {
        assert(raw[padded.len() as int] == 59);
        assert forall|i: int| padded.len() < i < raw.len() implies raw[i] != 59 by {
            assert(raw[i] == version[i - padded.len() - 1]);
        }
        assert(last_byte(raw, 59) == padded.len());
        assert(raw.take(padded.len() as int) =~= padded);
    } else {
        assert forall|i: int| 0 <= i < raw.len() implies raw[i] != 59 by {
            if i < name.len() {
                assert(raw[i] == name[i]);
            }
        }
        assert(last_byte(raw, 59) < 0);
    }
    lemma_spaces_dropped(name, spaces);
    let lowered = Seq::new(name.len(), |i: int| ascii_lower(name[i]));
    assert forall|i: int| #![trigger lowered[i]] 0 <= i < lowered.len() implies lowered[i] < 128 by {
        assert(name[i] < 128);
    }
    law_ascii_text(lowered);
    assert(iso_name(raw) =~= Seq::new(
        name.len(),
        |i: int|
            if 65 <= name[i] <= 90 {
                (name[i] + 32) as char
            } else {
                name[i] as char
            },
    ));
}

proof fn lemma_spaces_dropped(name: Seq<u8>, spaces: nat)
    requires
        name.len() > 0 ==> name.last() != 32,
    ensures
        without_tail(name + Seq::new(spaces, |i: int| 32u8), 32u8) == name,
    decreases spaces,
{
    let s = name + Seq::new(spaces, |i: int| 32u8);
    if spaces == 0 {
        assert(s =~= name);
    } else {
        assert(s.last() == 32);
        assert(s.drop_last() =~= name + Seq::new((spaces - 1) as nat, |i: int| 32u8));
        lemma_spaces_dropped(name, (spaces - 1) as nat);
    }
}

/// A Joliet identifier stands for its code units, high bytes first, without the version.
pub proof fn law_joliet_identifier_names_the_file(units: Seq<u16>, raw: Seq<u8>, versioned: bool)
    requires
        units.len() > 0,
        units.last() != 32,
        !versioned ==> units.last() != 0x31,
        raw.len() == 2 * units.len() + if versioned {
            4int
        } else {
            0
        },
        forall|i: int|
            #![trigger units[i]]
            0 <= i < units.len() ==> raw[2 * i] == units[i] / 256 && raw[2 * i + 1] == units[i] % 256,
        versioned ==> raw.skip(2 * units.len() as int) == seq![0u8, 0x3bu8, 0u8, 0x31u8],
    ensures
        joliet_name(raw) == utf16_lossy(units),
{
    let all = units_be(raw);
    let n = units.len() as int;
    assert forall|i: int| 0 <= i < n implies all[i] == units[i] by {
        assert(raw[2 * i] == units[i] / 256);
    }
    if versioned {
        let v = raw.skip(2 * n);
        assert(v[0] == raw[2 * n] && v[1] == raw[2 * n + 1] && v[2] == raw[2 * n + 2] && v[3]
            == raw[2 * n + 3]);
        assert(all.len() == n + 2);
        assert(all[n] == 0x3b);
        assert(all[n + 1] == 0x31);
        assert(all.take(n) =~= units);
    } else {
        assert(all =~= units);
    }
}

} // verus!
