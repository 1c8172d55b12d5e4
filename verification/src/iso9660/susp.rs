//! Rock Ridge entries in the system use area of a directory record.
use vstd::prelude::*;

use crate::bytes::{copy_range, get_u32, u32_at};
use crate::text::{from_utf8_lossy, utf8_lossy};

verus! {

/// POSIX attributes: mode, links, owner and group.
pub type PosixAttributes = (u32, u32, u32, u32);

/// What the entries of a system use area say so far.
pub struct SuspView {
    pub name: Option<Seq<char>>,
    pub posix: Option<PosixAttributes>,
    pub link: Option<Seq<u8>>,
}

/// What one component adds to a symbolic link. The flags mark the root, the parent and
/// the current directory.
pub open spec fn component_text(flags: u8, name: Seq<u8>) -> Seq<u8> {
    if flags & 0x08 != 0 {
        seq![47u8]
    } else if flags & 0x04 != 0 {
        seq![46u8, 46u8]
    } else if flags & 0x02 != 0 {
        seq![46u8]
    } else {
        name.push(47)
    }
}

/// A link with the components from `at` to `end` appended. In the first entry of a link
/// a component that is not continued is the last.
pub open spec fn components(
    data: Seq<u8>,
    at: int,
    end: int,
    link: Seq<u8>,
    first: bool,
) -> Seq<u8>
    decreases end - at,
{
    if at + 2 > end || at + 2 + data[at + 1] > end {
        link
    } else {
        let flags = data[at];
        let next = at + 2 + data[at + 1];
        let longer = link + component_text(flags, data.subrange(at + 2, next));
        if first && flags & 0x01 == 0 {
            longer
        } else {
            components(data, next, end, longer, first)
        }
    }
}

/// A link without a slash at its end.
pub open spec fn slash_dropped(link: Seq<u8>) -> Seq<u8> {
    if link.len() > 0 && link.last() == 47 {
        link.drop_last()
    } else {
        link
    }
}

/// A link after the entry whose body lies between `at` and `end`.
pub open spec fn link_after(data: Seq<u8>, at: int, end: int, link: Option<Seq<u8>>) -> Seq<u8> {
    match link {
        None => slash_dropped(components(data, at + 1, end, seq![], true)),
        Some(l) => {
            let longer = components(data, at + 1, end, l, false);
            if at < end && data[at] & 0x01 != 0 {
                longer
            } else {
                slash_dropped(longer)
            }
        },
    }
}

/// What is known after the entry with signature `a`, `b` whose body lies between `at` and
/// `end`.
pub open spec fn susp_entry(data: Seq<u8>, a: u8, b: u8, at: int, end: int, s: SuspView) -> SuspView {
    if a == 80 && b == 88 && end - at >= 16 {
        SuspView {
            posix: Some(
                (
                    u32_at(data, at),
                    u32_at(data, at + 4),
                    u32_at(data, at + 8),
                    u32_at(data, at + 12),
                ),
            ),
            ..s
        }
    } else if a == 78 && b == 77 && end - at >= 2 {
        SuspView { name: Some(utf8_lossy(data.subrange(at + 1, end))), ..s }
    } else if a == 83 && b == 76 {
        SuspView { link: Some(link_after(data, at, end, s.link)), ..s }
    } else {
        s
    }
}

/// What is known after the entries from `at` on. A terminator or an impossible length
/// ends them.
pub open spec fn susp_from(data: Seq<u8>, at: int, s: SuspView) -> SuspView
    decreases data.len() - at,
{
    if at + 4 > data.len() || data[at + 2] < 4 || at + data[at + 2] > data.len() || (data[at] == 83
        && data[at + 1] == 84) {
        s
    } else {
        let end = at + data[at + 2];
        susp_from(data, end, susp_entry(data, data[at], data[at + 1], at + 4, end, s))
    }
}

/// Appends the components between `from` and `end` to a link.
fn append_components(data: &[u8], from: usize, end: usize, link: &mut Vec<u8>, first: bool)
    requires
        from <= end <= data@.len(),
    ensures
        final(link)@ == components(data@, from as int, end as int, old(link)@, first),
{
    let ghost start = link@;
    let mut at: usize = from;
    let _total: usize = data.len();
    while end - at >= 2
        invariant
            from <= at <= end <= data@.len(),
            start == old(link)@,
            components(data@, from as int, end as int, start, first) == components(
                data@,
                at as int,
                end as int,
                link@,
                first,
            ),
        decreases end - at,
    {
        let flags: u8 = data[at];
        let count: usize = data[at + 1] as usize;
        if count > end - at - 2 {
            return ;
        }
        let next: usize = at + 2 + count;
        let ghost before = link@;
        if flags & 0x08 != 0 {
            link.push(47);
            assert(link@ =~= before + seq![47u8]);
        } else if flags & 0x04 != 0 {
            link.push(46);
            link.push(46);
            assert(link@ =~= before + seq![46u8, 46u8]);
        } else if flags & 0x02 != 0 {
            link.push(46);
            assert(link@ =~= before + seq![46u8]);
        } else {
            let mut name = copy_range(data, at + 2, next);
            let ghost text = name@;
            link.append(&mut name);
            link.push(47);
            assert(link@ =~= before + text.push(47));
        }
        if first && flags & 0x01 == 0 {
            return ;
        }
        at = next;
    }
}

/// Drops a slash at the end of a link.
fn drop_slash(link: &mut Vec<u8>)
    ensures
        final(link)@ == slash_dropped(old(link)@),
{
    let n: usize = link.len();
    if n > 0 && link[n - 1] == 47 {
        let _ = link.pop();
    }
}

/// Parses the Rock Ridge entries of a system use area.
pub fn parse_susp_entries(
    data: &[u8],
    rr_name: &mut Option<String>,
    rr_posix: &mut Option<PosixAttributes>,
    rr_symlink: &mut Option<Vec<u8>>,
)
    ensures
        susp_view(*final(rr_name), *final(rr_posix), *final(rr_symlink)) == susp_from(
            data@,
            0,
            susp_view(*old(rr_name), *old(rr_posix), *old(rr_symlink)),
        ),
{
    let ghost start = susp_view(*rr_name, *rr_posix, *rr_symlink);
    let total: usize = data.len();
    let mut at: usize = 0;
    while total - at >= 4
        invariant
            total == data@.len(),
            at <= total,
            start == susp_view(*old(rr_name), *old(rr_posix), *old(rr_symlink)),
            susp_from(data@, 0, start) == susp_from(
                data@,
                at as int,
                susp_view(*rr_name, *rr_posix, *rr_symlink),
            ),
        decreases total - at,
    {
        let a: u8 = data[at];
        let b: u8 = data[at + 1];
        let count: usize = data[at + 2] as usize;
        if count < 4 || count > total - at || (a == 83 && b == 84) {
            return ;
        }
        let body: usize = at + 4;
        let end: usize = at + count;
        if a == 80 && b == 88 {
            if end - body >= 16 {
                *rr_posix = Some(
                    (
                        get_u32(data, body),
                        get_u32(data, body + 4),
                        get_u32(data, body + 8),
                        get_u32(data, body + 12),
                    ),
                );
            }
        } else if a == 78 && b == 77 {
            if end - body >= 2 {
                let name = copy_range(data, body + 1, end);
                *rr_name = Some(from_utf8_lossy(name.as_slice()));
            }
        } else if a == 83 && b == 76 {
            let first: usize = if body < end {
                body + 1
            } else {
                end
            };
            match rr_symlink.take() {
                Some(l) => {
                    let mut link = l;
                    append_components(data, first, end, &mut link, false);
                    if !(body < end && data[body] & 0x01 != 0) {
                        drop_slash(&mut link);
                    }
                    *rr_symlink = Some(link);
                },
                None => {
                    let mut link: Vec<u8> = Vec::new();
                    assert(link@ =~= seq![]);
                    append_components(data, first, end, &mut link, true);
                    drop_slash(&mut link);
                    *rr_symlink = Some(link);
                },
            }
        }
        at = end;
    }
}

/// What three results of parsing say together.
pub open spec fn susp_view(
    name: Option<String>,
    posix: Option<PosixAttributes>,
    link: Option<Vec<u8>>,
) -> SuspView {
    SuspView {
        name: match name {
            Some(n) => Some(n@),
            None => None,
        },
        posix,
        link: match link {
            Some(l) => Some(l@),
            None => None,
        },
    }
}

} // verus!
