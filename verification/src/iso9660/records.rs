//! Directory records and the names in them.
use vstd::prelude::*;

use crate::bytes::{copy_all, copy_range, get_u16_be, get_u32, u16_be_at, u32_at};
use crate::iso9660::susp::{PosixAttributes, SuspView, parse_susp_entries, susp_from, susp_view};
use crate::text::{from_utf16_lossy, from_utf8_lossy, utf16_lossy, utf8_lossy};
use crate::vfs::NodeKind;

verus! {

/// What a directory record says.
pub struct RecordView {
    pub extent_location: u32,
    pub extent_size: u32,
    pub flags: u8,
    pub identifier: Seq<u8>,
    pub rr_name: Option<Seq<char>>,
    pub rr_posix: Option<PosixAttributes>,
    pub rr_symlink: Option<Seq<u8>>,
    pub joliet: bool,
}

/// A directory record.
pub struct DirRecord {
    /// First logical block of the extent.
    pub extent_location: u32,
    /// Length of the extent in bytes.
    pub extent_size: u32,
    pub flags: u8,
    pub identifier: Vec<u8>,
    pub rr_name: Option<String>,
    pub rr_posix: Option<PosixAttributes>,
    pub rr_symlink: Option<Vec<u8>>,
    /// Whether the identifier is in two-byte characters.
    pub joliet: bool,
}

impl View for DirRecord {
    type V = RecordView;

    open spec fn view(&self) -> RecordView {
        let s = susp_view(self.rr_name, self.rr_posix, self.rr_symlink);
        RecordView {
            extent_location: self.extent_location,
            extent_size: self.extent_size,
            flags: self.flags,
            identifier: self.identifier@,
            rr_name: s.name,
            rr_posix: s.posix,
            rr_symlink: s.link,
            joliet: self.joliet,
        }
    }
}

/// Where the system use area of a record starts: after the identifier, which is padded to
/// an even length.
pub open spec fn system_use_start(id_len: int) -> int {
    33 + id_len + id_len % 2
}

/// The record at `offset`. There is none where its length is zero, or too small for the
/// fixed fields, or more than the data holds.
pub open spec fn record_at(data: Seq<u8>, offset: int, joliet: bool) -> Option<RecordView> {
    if offset >= data.len() || data[offset] < 33 || offset + data[offset] > data.len() {
        None
    } else {
        let n = data[offset] as int;
        let id_len = data[offset + 32] as int;
        let su = system_use_start(id_len);
        let none = SuspView { name: None, posix: None, link: None };
        let s = if su < n {
            susp_from(data.subrange(offset + su, offset + n), 0, none)
        } else {
            none
        };
        Some(
            RecordView {
                extent_location: u32_at(data, offset + 2),
                extent_size: u32_at(data, offset + 10),
                flags: data[offset + 25],
                identifier: if 33 + id_len <= n {
                    data.subrange(offset + 33, offset + 33 + id_len)
                } else {
                    seq![]
                },
                rr_name: s.name,
                rr_posix: s.posix,
                rr_symlink: s.link,
                joliet,
            },
        )
    }
}

/// `s` without its trailing run of `c`.
pub open spec fn without_tail<A>(s: Seq<A>, c: A) -> Seq<A>
    decreases s.len(),
{
    if s.len() > 0 && s.last() == c {
        without_tail(s.drop_last(), c)
    } else {
        s
    }
}

/// Position of the last `c` in `s`, or -1 where there is none.
pub open spec fn last_byte(s: Seq<u8>, c: u8) -> int
    decreases s.len(),
{
    if s.len() == 0 {
        -1
    } else if s.last() == c {
        s.len() - 1
    } else {
        last_byte(s.drop_last(), c)
    }
}

/// The lower-case form of an ASCII letter; any other byte as it is.
pub open spec fn ascii_lower(b: u8) -> u8 {
    if 65 <= b <= 90 {
        (b + 32) as u8
    } else {
        b
    }
}

/// The name that an identifier stands for: without the version, without spaces at the
/// end, in lower case.
pub open spec fn iso_name(raw: Seq<u8>) -> Seq<char> {
    let cut = if last_byte(raw, 59) < 0 {
        raw
    } else {
        raw.take(last_byte(raw, 59))
    };
    let bare = without_tail(cut, 32u8);
    utf8_lossy(Seq::new(bare.len(), |i: int| ascii_lower(bare[i])))
}

/// The big-endian code units in a run of bytes. An odd byte at the end is ignored.
pub open spec fn units_be(raw: Seq<u8>) -> Seq<u16> {
    Seq::new(raw.len() / 2, |i: int| u16_be_at(raw, 2 * i))
}

/// The name that a two-byte identifier stands for: without the version `;1`, without
/// spaces at the end.
pub open spec fn joliet_name(raw: Seq<u8>) -> Seq<char> {
    let units = units_be(raw);
    let n = units.len() as int;
    let cut = if n >= 2 && units[n - 2] == 0x3b && units[n - 1] == 0x31 {
        units.take(n - 2)
    } else {
        units
    };
    utf16_lossy(without_tail(cut, 0x20u16))
}

/// The name a record goes by: the Rock Ridge name if there is one.
pub open spec fn best_name_of(r: RecordView) -> Seq<char> {
    match r.rr_name {
        Some(n) => n,
        None => if r.joliet {
            joliet_name(r.identifier)
        } else {
            iso_name(r.identifier)
        },
    }
}

/// Decodes an identifier to a readable name.
pub fn decode_iso_filename(raw: &[u8]) -> (r: String)
    ensures
        r@ == iso_name(raw@),
{
    let mut end: usize = raw.len();
    assert(raw@.take(end as int) =~= raw@);
    while end > 0 && raw[end - 1] != 59
        invariant
            end <= raw@.len(),
            last_byte(raw@, 59) == last_byte(raw@.take(end as int), 59),
        decreases end,
    {
        assert(raw@.take(end as int).drop_last() =~= raw@.take(end - 1));
        end = end - 1;
    }
    let cut: usize = if end == 0 {
        raw.len()
    } else {
        end - 1
    };
    let ghost kept = raw@.take(cut as int);
    proof {
        if end > 0 {
            assert(raw@.take(end as int).last() == 59);
            assert(last_byte(raw@, 59) == cut);
        } else {
            assert(last_byte(raw@, 59) == -1);
            assert(kept =~= raw@);
        }
    }
    let mut last: usize = cut;
    assert(kept.take(last as int) =~= kept);
    while last > 0 && raw[last - 1] == 32
        invariant
            last <= cut <= raw@.len(),
            kept == raw@.take(cut as int),
            without_tail(kept, 32u8) == without_tail(kept.take(last as int), 32u8),
        decreases last,
    {
        assert(kept.take(last as int).drop_last() =~= kept.take(last - 1));
        last = last - 1;
    }
    let ghost bare = kept.take(last as int);
    assert(bare == without_tail(kept, 32u8));
    let mut lowered: Vec<u8> = Vec::new();
    let mut i: usize = 0;
    while i < last
        invariant
            i <= last <= cut <= raw@.len(),
            kept == raw@.take(cut as int),
            bare == kept.take(last as int),
            lowered@.len() == i,
            forall|k: int| #![trigger lowered@[k]] 0 <= k < i ==> lowered@[k] == ascii_lower(bare[k]),
        decreases last - i,
    {
        let b: u8 = raw[i];
        lowered.push(
            if 65 <= b && b <= 90 {
                b + 32
            } else {
                b
            },
        );
        i = i + 1;
    }
    assert(lowered@ =~= Seq::new(bare.len(), |i: int| ascii_lower(bare[i])));
    from_utf8_lossy(lowered.as_slice())
}

/// Decodes a two-byte identifier to a readable name.
pub fn decode_joliet_filename(raw: &[u8]) -> (r: String)
    ensures
        r@ == joliet_name(raw@),
{
    let mut units: Vec<u16> = Vec::new();
    let half: usize = raw.len() / 2;
    let mut i: usize = 0;
    while i < half
        invariant
            i <= half,
            half == raw@.len() / 2,
            units@.len() == i,
            forall|k: int| #![trigger units@[k]] 0 <= k < i ==> units@[k] == u16_be_at(raw@, 2 * k),
        decreases half - i,
    {
        let _total: usize = raw.len();
        units.push(get_u16_be(raw, 2 * i));
        i = i + 1;
    }
    assert(units@ =~= units_be(raw@));
    let ghost all = units@;
    let n: usize = units.len();
    if n >= 2 && units[n - 2] == 0x3b && units[n - 1] == 0x31 {
        units.truncate(n - 2);
        assert(units@ =~= all.take(n - 2));
    }
    let ghost cut = units@;
    while units.len() > 0 && units[units.len() - 1] == 0x20
        invariant
            without_tail(cut, 0x20u16) == without_tail(units@, 0x20u16),
        decreases units@.len(),
    {
        let _ = units.pop();
    }
    from_utf16_lossy(units.as_slice())
}

impl DirRecord {
    /// Parses the record at `offset`, with one-byte characters in its name. Returns the
    /// offset of the next record too.
    pub fn parse(sector_data: &[u8], offset: usize) -> (r: Option<(Self, usize)>)
        ensures
            match r {
                Some(v) => record_at(sector_data@, offset as int, false) == Some(v.0@) && v.1
                    == offset + sector_data@[offset as int],
                None => record_at(sector_data@, offset as int, false) is None,
            },
    {
        Self::parse_inner(sector_data, offset, false)
    }

    /// Parses the record at `offset`, with two-byte characters in its name.
    pub fn parse_joliet(sector_data: &[u8], offset: usize) -> (r: Option<(Self, usize)>)
        ensures
            match r {
                Some(v) => record_at(sector_data@, offset as int, true) == Some(v.0@) && v.1
                    == offset + sector_data@[offset as int],
                None => record_at(sector_data@, offset as int, true) is None,
            },
    {
        Self::parse_inner(sector_data, offset, true)
    }

    /// Parses the record at `offset`.
    pub fn parse_inner(sector_data: &[u8], offset: usize, joliet: bool) -> (r: Option<
        (Self, usize),
    >)
        ensures
            match r {
                Some(v) => record_at(sector_data@, offset as int, joliet) == Some(v.0@) && v.1
                    == offset + sector_data@[offset as int] && v.1 <= sector_data@.len() && v.1
                    > offset,
                None => record_at(sector_data@, offset as int, joliet) is None,
            },
    {
        let total: usize = sector_data.len();
        if offset >= total {
            return None;
        }
        let n: usize = sector_data[offset] as usize;
        if n < 33 || n > total - offset {
            return None;
        }
        let id_len: usize = sector_data[offset + 32] as usize;
        let identifier = if 33 + id_len <= n {
            copy_range(sector_data, offset + 33, offset + 33 + id_len)
        } else {
            let none: Vec<u8> = Vec::new();
            assert(none@ =~= seq![]);
            none
        };
        let su: usize = 33 + id_len + id_len % 2;
        let mut rr_name: Option<String> = None;
        let mut rr_posix: Option<PosixAttributes> = None;
        let mut rr_symlink: Option<Vec<u8>> = None;
        if su < n {
            let area = copy_range(sector_data, offset + su, offset + n);
            parse_susp_entries(area.as_slice(), &mut rr_name, &mut rr_posix, &mut rr_symlink);
        }
        Some(
            (
                DirRecord {
                    extent_location: get_u32(sector_data, offset + 2),
                    extent_size: get_u32(sector_data, offset + 10),
                    flags: sector_data[offset + 25],
                    identifier,
                    rr_name,
                    rr_posix,
                    rr_symlink,
                    joliet,
                },
                offset + n,
            ),
        )
    }

    /// The name the record goes by: the Rock Ridge name, else the decoded identifier.
    pub fn best_name(&self) -> (r: String)
        ensures
            r@ == best_name_of(self@),
    {
        match &self.rr_name {
            Some(n) => n.as_str().to_owned(),
            None => if self.joliet {
                decode_joliet_filename(self.identifier.as_slice())
            } else {
                decode_iso_filename(self.identifier.as_slice())
            },
        }
    }

    /// Whether the record is a directory's.
    pub fn is_dir(&self) -> (r: bool)
        ensures
            r == is_dir_record(self@),
    {
        self.flags & 0x02 != 0
    }

    /// A copy of the record.
    pub fn duplicate(&self) -> (r: Self)
        ensures
            r@ == self@,
    {
        DirRecord {
            extent_location: self.extent_location,
            extent_size: self.extent_size,
            flags: self.flags,
            identifier: copy_all(self.identifier.as_slice()),
            rr_name: match &self.rr_name {
                Some(n) => Some(n.as_str().to_owned()),
                None => None,
            },
            rr_posix: self.rr_posix,
            rr_symlink: match &self.rr_symlink {
                Some(l) => Some(copy_all(l.as_slice())),
                None => None,
            },
            joliet: self.joliet,
        }
    }
}

/// Whether a record is a directory's.
pub open spec fn is_dir_record(r: RecordView) -> bool {
    r.flags & 0x02 != 0
}

/// What kind of node a record describes.
pub open spec fn record_kind(r: RecordView) -> NodeKind {
    if is_dir_record(r) {
        NodeKind::Directory
    } else if r.rr_symlink is Some {
        NodeKind::Symlink
    } else {
        NodeKind::File
    }
}

} // verus!
