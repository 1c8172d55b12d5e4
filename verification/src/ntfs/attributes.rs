//! The attributes of a record, and the directory index in one of them.
use vstd::prelude::*;

use crate::bytes::{copy_range, get_u16, get_u32, get_u64, u16_at, u32_at, u64_at};
use crate::error::Result;
use crate::ntfs::names::{FileName, NameView, file_name_in, supersedes};
use crate::ntfs::runs::{DataRun, parse_data_runs, runs_from};
use crate::ntfs::types::{ATTR_TYPE_END, ATTR_TYPE_FILENAME, ATTR_TYPE_STANDARD_INFO, StandardInfoAttr, standard_info_in};

verus! {

/// An attribute of a record.
#[derive(Debug)]
pub struct ParsedAttr {
    pub attr_type: u32,
    pub content: Vec<u8>,
    pub data_runs_offset: Option<usize>,
    pub data_runs: Vec<DataRun>,
    pub data_size: u32,
}

/// What an attribute says.
pub struct AttrView {
    pub attr_type: u32,
    pub content: Seq<u8>,
    pub data_runs_offset: Option<usize>,
    pub data_runs: Seq<DataRun>,
    pub data_size: u32,
}

impl View for ParsedAttr {
    type V = AttrView;

    open spec fn view(&self) -> AttrView {
        AttrView {
            attr_type: self.attr_type,
            content: self.content@,
            data_runs_offset: self.data_runs_offset,
            data_runs: self.data_runs@,
            data_size: self.data_size,
        }
    }
}

/// What the attributes in a list say.
pub open spec fn attr_views(v: Seq<ParsedAttr>) -> Seq<AttrView> {
    Seq::new(v.len(), |i: int| v[i]@)
}

/// The attribute whose header is at `at`. The contents of a resident attribute start 28
/// bytes into the buffer, those of another 32; they are empty where the buffer is
/// shorter. The runs of a non-resident attribute start where its header says.
pub open spec fn attr_at(buf: Seq<u8>, at: int) -> AttrView {
    let non_resident = buf[at + 8] != 0;
    let from = if non_resident {
        32int
    } else {
        28
    };
    let size = if non_resident {
        u64_at(buf, at + 48) as u32
    } else {
        u32_at(buf, at + 16)
    };
    let runs = u16_at(buf, at + 32) as int;
    let placed = non_resident && runs > 0 && runs + 2 <= buf.len();
    AttrView {
        attr_type: u32_at(buf, at),
        content: if from + size <= buf.len() {
            buf.subrange(from, from + size)
        } else {
            seq![]
        },
        data_runs_offset: if placed {
            Some(runs as usize)
        } else {
            None
        },
        data_runs: if placed {
            runs_from(buf.skip(runs), 0, 0)
        } else {
            seq![]
        },
        data_size: size,
    }
}

/// Whether no attribute can be read at `at`: the buffer or the list ends there.
pub open spec fn attrs_end(buf: Seq<u8>, at: int) -> bool {
    at + 24 > buf.len() || u32_at(buf, at) == ATTR_TYPE_END || u32_at(buf, at + 4) == 0 || at
        + u32_at(buf, at + 4) > buf.len() || (buf[at + 8] != 0 && at + 56 > buf.len())
}

/// The attributes from `at` on.
pub open spec fn attrs_from(buf: Seq<u8>, at: int) -> Seq<AttrView>
    decreases buf.len() - at,
{
    if attrs_end(buf, at) {
        seq![]
    } else {
        seq![attr_at(buf, at)] + attrs_from(buf, at + u32_at(buf, at + 4))
    }
}

fn read_attr(buf: &[u8], at: usize) -> (r: ParsedAttr)
    requires
        at + 24 <= buf@.len(),
        buf@[at + 8] != 0 ==> at + 56 <= buf@.len(),
    ensures
        r@ == attr_at(buf@, at as int),
{
    let total: usize = buf.len();
    let non_resident = buf[at + 8] != 0;
    let from: usize = if non_resident {
        32
    } else {
        28
    };
    let size: u32 = if non_resident {
        get_u64(buf, at + 48) as u32
    } else {
        get_u32(buf, at + 16)
    };
    let mut content: Vec<u8> = Vec::new();
    assert(content@ =~= seq![]);
    if total >= from && size as u64 <= (total - from) as u64 {
        content = copy_range(buf, from, from + size as usize);
    }
    let mut data_runs_offset: Option<usize> = None;
    let mut data_runs: Vec<DataRun> = Vec::new();
    assert(data_runs@ =~= seq![]);
    if non_resident {
        let runs: usize = get_u16(buf, at + 32) as usize;
        if runs > 0 && total >= 2 && runs <= total - 2 {
            data_runs_offset = Some(runs);
            let tail = vstd::slice::slice_subrange(buf, runs, total);
            assert(tail@ =~= buf@.skip(runs as int));
            data_runs = parse_data_runs(tail);
        }
    }
    ParsedAttr {
        attr_type: get_u32(buf, at),
        content,
        data_runs_offset,
        data_runs,
        data_size: size,
    }
}

/// Parses all attributes of a record.
pub fn parse_attributes(buf: &[u8]) -> (r: Vec<ParsedAttr>)
    ensures
        attr_views(r@) == attrs_from(buf@, 0),
{
    let mut attrs: Vec<ParsedAttr> = Vec::new();
    let total: usize = buf.len();
    let mut at: usize = 0;
    assert(attr_views(attrs@) + attrs_from(buf@, 0) =~= attrs_from(buf@, 0));
    while total - at >= 24
        invariant
            total == buf@.len(),
            at <= total,
            attrs_from(buf@, 0) == attr_views(attrs@) + attrs_from(buf@, at as int),
        decreases total - at,
    {
        let ghost before = attr_views(attrs@);
        assert(before + Seq::<AttrView>::empty() =~= before);
        let len: u32 = get_u32(buf, at + 4);
        if get_u32(buf, at) == ATTR_TYPE_END || len == 0 || len as u64 > (total - at) as u64 {
            return attrs;
        }
        if buf[at + 8] != 0 && total - at < 56 {
            return attrs;
        }
        let attr = read_attr(buf, at);
        let ghost view = attr@;
        attrs.push(attr);
        proof {
            assert(attr_views(attrs@) =~= before.push(view));
            let rest = attrs_from(buf@, at + len);
            assert(before + (seq![view] + rest) =~= before.push(view) + rest);
        }
        at = at + len as usize;
    }
    assert(attr_views(attrs@) + Seq::<AttrView>::empty() =~= attr_views(attrs@));
    attrs
}

/// The names in the first `n` attributes that hold one.
pub open spec fn names_upto(attrs: Seq<AttrView>, n: int) -> Seq<NameView>
    decreases n,
{
    if n <= 0 {
        seq![]
    } else {
        let rest = names_upto(attrs, n - 1);
        let a = attrs[n - 1];
        if a.attr_type != ATTR_TYPE_FILENAME {
            rest
        } else {
            match file_name_in(a.content) {
                Some(f) => rest.push(f),
                None => rest,
            }
        }
    }
}

/// What the names in a list say.
pub open spec fn name_views(v: Seq<FileName>) -> Seq<NameView> {
    Seq::new(v.len(), |i: int| v[i]@)
}

/// The names among the attributes.
pub fn parse_filename_attributes(attrs: &[ParsedAttr]) -> (r: Vec<FileName>)
    ensures
        name_views(r@) == names_upto(attr_views(attrs@), attrs@.len() as int),
{
    let mut names: Vec<FileName> = Vec::new();
    let mut i: usize = 0;
    assert(name_views(names@) =~= seq![]);
    while i < attrs.len()
        invariant
            i <= attrs@.len(),
            name_views(names@) == names_upto(attr_views(attrs@), i as int),
        decreases attrs@.len() - i,
    {
        assert(attr_views(attrs@)[i as int] == attrs@[i as int]@);
        if attrs[i].attr_type == ATTR_TYPE_FILENAME {
            if let Some(f) = FileName::parse(attrs[i].content.as_slice()) {
                let ghost before = name_views(names@);
                let ghost view = f@;
                names.push(f);
                assert(name_views(names@) =~= before.push(view));
            }
        }
        i = i + 1;
    }
    names
}

/// The name that stands after the first `n` names of a file: each takes the place of one
/// that it supersedes.
pub open spec fn best_upto(names: Seq<NameView>, n: int) -> Option<NameView>
    decreases n,
{
    if n <= 0 {
        None
    } else {
        let f = names[n - 1];
        match best_upto(names, n - 1) {
            None => Some(f),
            Some(b) => if supersedes(f, b) {
                Some(f)
            } else {
                Some(b)
            },
        }
    }
}

/// The best name among the attributes: Win32 names before others, DOS names last.
pub fn get_best_filename(attrs: &[ParsedAttr]) -> (r: Option<FileName>)
    ensures
        ({
            let names = names_upto(attr_views(attrs@), attrs@.len() as int);
            match r {
                Some(f) => best_upto(names, names.len() as int) == Some(f@),
                None => best_upto(names, names.len() as int) is None,
            }
        }),
{
    let mut best: Option<FileName> = None;
    let mut i: usize = 0;
    while i < attrs.len()
        invariant
            i <= attrs@.len(),
            ({
                let names = names_upto(attr_views(attrs@), i as int);
                match best {
                    Some(f) => best_upto(names, names.len() as int) == Some(f@),
                    None => best_upto(names, names.len() as int) is None,
                }
            }),
        decreases attrs@.len() - i,
    {
        assert(attr_views(attrs@)[i as int] == attrs@[i as int]@);
        let ghost names = names_upto(attr_views(attrs@), i as int);
        if attrs[i].attr_type == ATTR_TYPE_FILENAME {
            if let Some(f) = FileName::parse(attrs[i].content.as_slice()) {
                proof {
                    let longer = names.push(f@);
                    lemma_best_of_prefix(names, longer, names.len() as int);
                    assert(longer[longer.len() - 1] == f@);
                }
                match &best {
                    None => {
                        best = Some(f);
                    },
                    Some(current) => {
                        if f.better_than(current) {
                            best = Some(f);
                        }
                    },
                }
            }
        }
        i = i + 1;
    }
    best
}

proof fn lemma_best_of_prefix(a: Seq<NameView>, b: Seq<NameView>, n: int)
    requires
        0 <= n <= a.len() <= b.len(),
        forall|i: int| #![trigger b[i]] 0 <= i < a.len() ==> b[i] == a[i],
    ensures
        best_upto(a, n) == best_upto(b, n),
    decreases n,
{
    if n > 0 {
        lemma_best_of_prefix(a, b, n - 1);
        assert(b[n - 1] == a[n - 1]);
    }
}

/// The first standard information from attribute `i` on that can be read.
pub open spec fn standard_info_from(attrs: Seq<AttrView>, i: int) -> Option<StandardInfoAttr>
    decreases attrs.len() - i,
{
    if i < 0 || i >= attrs.len() {
        None
    } else if attrs[i].attr_type == ATTR_TYPE_STANDARD_INFO && standard_info_in(
        attrs[i].content,
    ) is Some {
        standard_info_in(attrs[i].content)
    } else {
        standard_info_from(attrs, i + 1)
    }
}

/// The standard information among the attributes.
pub fn get_standard_info(attrs: &[ParsedAttr]) -> (r: Option<StandardInfoAttr>)
    ensures
        r == standard_info_from(attr_views(attrs@), 0),
{
    let mut i: usize = 0;
    while i < attrs.len()
        invariant
            i <= attrs@.len(),
            standard_info_from(attr_views(attrs@), 0) == standard_info_from(
                attr_views(attrs@),
                i as int,
            ),
        decreases attrs@.len() - i,
    {
        assert(attr_views(attrs@)[i as int] == attrs@[i as int]@);
        if attrs[i].attr_type == ATTR_TYPE_STANDARD_INFO {
            if let Some(si) = StandardInfoAttr::parse(attrs[i].content.as_slice()) {
                return Some(si);
            }
        }
        i = i + 1;
    }
    None
}

/// Where the first attribute of a type is, from `i` on.
pub open spec fn attr_of_type(attrs: Seq<AttrView>, kind: u32, i: int) -> Option<int>
    decreases attrs.len() - i,
{
    if i < 0 || i >= attrs.len() {
        None
    } else if attrs[i].attr_type == kind {
        Some(i)
    } else {
        attr_of_type(attrs, kind, i + 1)
    }
}

/// Finds the first attribute of a type.
pub fn find_attr(attrs: &Vec<ParsedAttr>, kind: u32) -> (r: Option<usize>)
    ensures
        match r {
            Some(k) => k < attrs@.len() && attr_of_type(attr_views(attrs@), kind, 0) == Some(
                k as int,
            ),
            None => attr_of_type(attr_views(attrs@), kind, 0) is None,
        },
{
    let mut i: usize = 0;
    while i < attrs.len()
        invariant
            i <= attrs@.len(),
            attr_of_type(attr_views(attrs@), kind, 0) == attr_of_type(
                attr_views(attrs@),
                kind,
                i as int,
            ),
        decreases attrs@.len() - i,
    {
        assert(attr_views(attrs@)[i as int] == attrs@[i as int]@);
        if attrs[i].attr_type == kind {
            return Some(i);
        }
        i = i + 1;
    }
    None
}

/// An entry of a directory index: the record it points to, and a name.
pub type IndexEntry = (u64, NameView);

/// The record number in a reference, which is its low 48 bits.
pub open spec fn record_number(reference: u64) -> u64 {
    reference & 0x0000_FFFF_FFFF_FFFF
}

/// Where the entry after the one at `at` starts: the last of a node is padded to eight
/// bytes.
pub open spec fn next_entry(buf: Seq<u8>, at: int) -> int {
    let end = at + u16_at(buf, at + 8);
    if u32_at(buf, at + 12) & 0x02 != 0 {
        (end + 7) / 8 * 8
    } else {
        end
    }
}

/// The named entries between `at` and `end`.
pub open spec fn index_from(buf: Seq<u8>, at: int, end: int) -> Seq<IndexEntry>
    decreases end + 8 - at,
{
    let len = u16_at(buf, at + 8) as int;
    let content = at + u16_at(buf, at + 10);
    if at + 16 > end || len == 0 || at + len > end {
        seq![]
    } else {
        let rest = index_from(buf, next_entry(buf, at), end);
        if content >= buf.len() {
            rest
        } else {
            match file_name_in(buf.skip(content)) {
                None => rest,
                Some(f) => seq![(record_number(u64_at(buf, at)), f)] + rest,
            }
        }
    }
}

/// The position of the entry for a record.
pub open spec fn entry_for(entries: Seq<IndexEntry>, record: u64, i: int) -> Option<int>
    decreases entries.len() - i,
{
    if i < 0 || i >= entries.len() {
        None
    } else if entries[i].0 == record {
        Some(i)
    } else {
        entry_for(entries, record, i + 1)
    }
}

/// The first `n` entries with one entry per record: the first place, the best name.
pub open spec fn merged_upto(entries: Seq<IndexEntry>, n: int) -> Seq<IndexEntry>
    decreases n,
{
    if n <= 0 {
        seq![]
    } else {
        let best = merged_upto(entries, n - 1);
        let e = entries[n - 1];
        match entry_for(best, e.0, 0) {
            None => best.push(e),
            Some(k) => if supersedes(e.1, best[k].1) {
                best.update(k, e)
            } else {
                best
            },
        }
    }
}

/// The contents of a directory: one name per record.
pub open spec fn index_in(buf: Seq<u8>) -> Seq<IndexEntry> {
    let from = u16_at(buf, 8) as int;
    let end = u16_at(buf, 10) as int;
    if buf.len() < 16 || from >= buf.len() || end > buf.len() {
        seq![]
    } else {
        let all = index_from(buf, from, end);
        merged_upto(all, all.len() as int)
    }
}

/// What the entries in a list say.
pub open spec fn entry_views(v: Seq<(u64, FileName)>) -> Seq<IndexEntry> {
    Seq::new(v.len(), |i: int| (v[i].0, v[i].1@))
}

fn read_index(buf: &[u8], from: usize, end: usize) -> (r: Vec<(u64, FileName)>)
    requires
        end <= buf@.len(),
        end <= 0xffff,
        from <= 0xffff,
    ensures
        entry_views(r@) == index_from(buf@, from as int, end as int),
{
    let mut entries: Vec<(u64, FileName)> = Vec::new();
    let total: usize = buf.len();
    let mut at: usize = from;
    assert(entry_views(entries@) + index_from(buf@, from as int, end as int) =~= index_from(
        buf@,
        from as int,
        end as int,
    ));
    while at + 16 <= end
        invariant
            total == buf@.len(),
            end <= total,
            end <= 0xffff,
            at <= 0x1_0000 + 8,
            index_from(buf@, from as int, end as int) == entry_views(entries@) + index_from(
                buf@,
                at as int,
                end as int,
            ),
        decreases 0x1_0000 + 8 - at,
    {
        let ghost before = entry_views(entries@);
        assert(before + Seq::<IndexEntry>::empty() =~= before);
        let len: usize = get_u16(buf, at + 8) as usize;
        if len == 0 || at + len > end {
            return entries;
        }
        let content: usize = at + get_u16(buf, at + 10) as usize;
        let flags: u32 = get_u32(buf, at + 12);
        let next: usize = if flags & 0x02 != 0 {
            (at + len + 7) / 8 * 8
        } else {
            at + len
        };
        if content < total {
            let tail = vstd::slice::slice_subrange(buf, content, total);
            assert(tail@ =~= buf@.skip(content as int));
            if let Some(f) = FileName::parse(tail) {
                let number: u64 = get_u64(buf, at) & 0x0000_FFFF_FFFF_FFFF;
                let ghost view = (number, f@);
                entries.push((number, f));
                proof {
                    assert(entry_views(entries@) =~= before.push(view));
                    let rest = index_from(buf@, next as int, end as int);
                    assert(before + (seq![view] + rest) =~= before.push(view) + rest);
                }
            }
        }
        at = next;
    }
    assert(entry_views(entries@) + Seq::<IndexEntry>::empty() =~= entry_views(entries@));
    entries
}

fn find_entry_for(entries: &Vec<(u64, FileName)>, record: u64) -> (r: Option<usize>)
    ensures
        match r {
            Some(k) => k < entries@.len() && entry_for(entry_views(entries@), record, 0) == Some(
                k as int,
            ),
            None => entry_for(entry_views(entries@), record, 0) is None,
        },
{
    let mut i: usize = 0;
    while i < entries.len()
        invariant
            i <= entries@.len(),
            entry_for(entry_views(entries@), record, 0) == entry_for(
                entry_views(entries@),
                record,
                i as int,
            ),
        decreases entries@.len() - i,
    {
        assert(entry_views(entries@)[i as int].0 == entries@[i as int].0);
        if entries[i].0 == record {
            return Some(i);
        }
        i = i + 1;
    }
    None
}

fn copy_name(f: &FileName) -> (r: FileName)
    ensures
        r@ == f@,
{
    FileName {
        parent_directory: f.parent_directory,
        created: f.created,
        modified: f.modified,
        mft_changed: f.mft_changed,
        accessed: f.accessed,
        file_attributes: f.file_attributes,
        name: f.name.as_str().to_owned(),
        namespace: f.namespace,
    }
}

/// Parses the entries of a directory index: names and record numbers. A file with names
/// in several namespaces is listed once, at its first place, under its best name.
pub fn parse_index_entries(buf: &[u8]) -> (r: Result<Vec<(String, u64)>>)
    ensures
        r matches Ok(v) && v@.len() == index_in(buf@).len() && forall|i: int|
            #![trigger v@[i]]
            0 <= i < v@.len() ==> v@[i].0@ == index_in(buf@)[i].1.name && v@[i].1 == index_in(
                buf@,
            )[i].0,
{
    let mut out: Vec<(String, u64)> = Vec::new();
    if buf.len() < 16 {
        return Ok(out);
    }
    let from: usize = get_u16(buf, 8) as usize;
    let end: usize = get_u16(buf, 10) as usize;
    if from >= buf.len() || end > buf.len() {
        return Ok(out);
    }
    let all = read_index(buf, from, end);
    let mut best: Vec<(u64, FileName)> = Vec::new();
    let mut i: usize = 0;
    assert(entry_views(best@) =~= seq![]);
    while i < all.len()
        invariant
            i <= all@.len(),
            entry_views(best@) == merged_upto(entry_views(all@), i as int),
        decreases all@.len() - i,
    {
        let entry = &all[i];
        assert(entry_views(all@)[i as int] == (entry.0, entry.1@));
        let ghost before = entry_views(best@);
        match find_entry_for(&best, entry.0) {
            None => {
                best.push((entry.0, copy_name(&entry.1)));
                assert(entry_views(best@) =~= before.push((entry.0, entry.1@)));
            },
            Some(k) => {
                assert(before[k as int].1 == best@[k as int].1@);
                if entry.1.better_than(&best[k].1) {
                    best.set(k, (entry.0, copy_name(&entry.1)));
                    assert(entry_views(best@) =~= before.update(k as int, (entry.0, entry.1@)));
                }
            },
        }
        i = i + 1;
    }
    let ghost list = entry_views(best@);
    assert(list == index_in(buf@));
    let mut j: usize = 0;
    while j < best.len()
        invariant
            j <= best@.len(),
            list == entry_views(best@),
            out@.len() == j,
            forall|k: int|
                #![trigger out@[k]]
                0 <= k < j ==> out@[k].0@ == list[k].1.name && out@[k].1 == list[k].0,
        decreases best@.len() - j,
    {
        out.push((best[j].1.name.as_str().to_owned(), best[j].0));
        j = j + 1;
    }
    Ok(out)
}

proof fn lemma_entry_for_sound(entries: Seq<IndexEntry>, record: u64, i: int)
    requires
        0 <= i,
    ensures
        match entry_for(entries, record, i) {
            Some(k) => i <= k < entries.len() && entries[k].0 == record,
            None => forall|j: int|
                #![trigger entries[j]]
                i <= j < entries.len() ==> entries[j].0 != record,
        },
    decreases entries.len() - i,
{
    if i < entries.len() && entries[i].0 != record {
        lemma_entry_for_sound(entries, record, i + 1);
    }
}

/// In the contents of a directory no record occurs twice.
pub proof fn law_index_names_each_record_once(buf: Seq<u8>)
    ensures
        forall|i: int, j: int|
            #![trigger index_in(buf)[i], index_in(buf)[j]]
            0 <= i < j < index_in(buf).len() ==> index_in(buf)[i].0 != index_in(buf)[j].0,
{
    let all = index_from(buf, u16_at(buf, 8) as int, u16_at(buf, 10) as int);
    lemma_merged_distinct(all, all.len() as int);
}

proof fn lemma_merged_distinct(entries: Seq<IndexEntry>, n: int)
    ensures
        forall|i: int, j: int|
            #![trigger merged_upto(entries, n)[i], merged_upto(entries, n)[j]]
            0 <= i < j < merged_upto(entries, n).len() ==> merged_upto(entries, n)[i].0
                != merged_upto(entries, n)[j].0,
    decreases n,
{
    if n > 0 {
        lemma_merged_distinct(entries, n - 1);
        let best = merged_upto(entries, n - 1);
        let e = entries[n - 1];
        lemma_entry_for_sound(best, e.0, 0);
        let now = merged_upto(entries, n);
        assert forall|i: int, j: int| #![trigger now[i], now[j]] 0 <= i < j < now.len() implies now[i].0
            != now[j].0 by {
            match entry_for(best, e.0, 0) {
                None => {
                    assert(now == best.push(e));
                    assert(best[i].0 != e.0);
                    if j < best.len() {
                        assert(best[i].0 != best[j].0);
                    }
                },
                Some(k) => {
                    assert(best[i].0 != best[j].0);
                },
            }
        }
    }
}

} // verus!
