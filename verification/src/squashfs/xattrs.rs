//! Extended attributes.
use vstd::prelude::*;

use crate::bytes::{copy_range, get_u16, get_u32, u16_at, u32_at};
use crate::squashfs::types::block_field;

verus! {

/// Length of an entry of the attribute id table.
pub const XATTR_ID_TABLE_ENTRY_SIZE: usize = 16;

/// What the number of a namespace puts before a name: `user.`, `trusted.`, `security.` or
/// `system.`.
pub open spec fn xattr_prefix(kind: int) -> Seq<u8> {
    if kind == 0 {
        seq![0x75u8, 0x73, 0x65, 0x72, 0x2e]
    } else if kind == 1 {
        seq![0x74u8, 0x72, 0x75, 0x73, 0x74, 0x65, 0x64, 0x2e]
    } else if kind == 2 {
        seq![0x73u8, 0x65, 0x63, 0x75, 0x72, 0x69, 0x74, 0x79, 0x2e]
    } else if kind == 3 {
        seq![0x73u8, 0x79, 0x73, 0x74, 0x65, 0x6d, 0x2e]
    } else {
        seq![]
    }
}

fn prefix_of(kind: u8) -> (r: Vec<u8>)
    ensures
        r@ == xattr_prefix(kind as int),
{
    let r: Vec<u8> = if kind == 0 {
        vec![0x75u8, 0x73, 0x65, 0x72, 0x2e]
    } else if kind == 1 {
        vec![0x74u8, 0x72, 0x75, 0x73, 0x74, 0x65, 0x64, 0x2e]
    } else if kind == 2 {
        vec![0x73u8, 0x65, 0x63, 0x75, 0x72, 0x69, 0x74, 0x79, 0x2e]
    } else if kind == 3 {
        vec![0x73u8, 0x79, 0x73, 0x74, 0x65, 0x6d, 0x2e]
    } else {
        Vec::new()
    };
    assert(r@ =~= xattr_prefix(kind as int));
    r
}

/// Where the entry at `off` ends, if it is whole. Its value is stored elsewhere, or as a
/// length and bytes; the bytes are left out where they do not fit.
pub open spec fn xattr_end(data: Seq<u8>, off: int) -> Option<int> {
    let value = off + 4 + u16_at(data, off + 2);
    if off + 4 > data.len() || value > data.len() {
        None
    } else if data[off + 1] % 2 == 1 {
        if value + 8 > data.len() {
            None
        } else {
            Some(value + 8)
        }
    } else if value + 4 > data.len() {
        None
    } else {
        let size = u32_at(data, value) as int;
        if value + 4 + size <= data.len() {
            Some(value + 4 + size)
        } else {
            Some(value + 4)
        }
    }
}

/// The entry at `off`, which ends at `end`: the name with its prefix, and the value, empty
/// where it is stored elsewhere.
pub open spec fn xattr_at(data: Seq<u8>, off: int, end: int) -> (Seq<u8>, Seq<u8>) {
    let value = off + 4 + u16_at(data, off + 2);
    (
        xattr_prefix(data[off] as int) + data.subrange(off + 4, value),
        if data[off + 1] % 2 == 1 {
            seq![]
        } else {
            data.subrange(value + 4, end)
        },
    )
}

/// At most `count` entries from `off` on.
pub open spec fn squashfs_xattrs_from(data: Seq<u8>, off: int, count: int) -> Seq<(Seq<u8>, Seq<u8>)>
    decreases count,
{
    if count <= 0 {
        seq![]
    } else {
        match xattr_end(data, off) {
            None => seq![],
            Some(end) => seq![xattr_at(data, off, end)] + squashfs_xattrs_from(data, end, count - 1),
        }
    }
}

/// The names and values in a list.
pub open spec fn pair_views(v: Seq<(Vec<u8>, Vec<u8>)>) -> Seq<(Seq<u8>, Seq<u8>)> {
    Seq::new(v.len(), |i: int| (v[i].0@, v[i].1@))
}

fn find_xattr_end(data: &[u8], off: usize) -> (r: Option<usize>)
    requires
        off <= data@.len(),
    ensures
        match r {
            Some(e) => xattr_end(data@, off as int) == Some(e as int) && off < e <= data@.len(),
            None => xattr_end(data@, off as int) is None,
        },
{
    let total: usize = data.len();
    if total - off < 4 {
        return None;
    }
    let name_len: usize = get_u16(data, off + 2) as usize;
    if name_len > total - off - 4 {
        return None;
    }
    let value: usize = off + 4 + name_len;
    if data[off + 1] % 2 == 1 {
        if total - value < 8 {
            return None;
        }
        return Some(value + 8);
    }
    if total - value < 4 {
        return None;
    }
    let size: u32 = get_u32(data, value);
    if size as u64 <= (total - value - 4) as u64 {
        Some(value + 4 + size as usize)
    } else {
        Some(value + 4)
    }
}

/// Parses at most `count` extended attributes.
pub fn parse_squashfs_xattrs(data: &[u8], count: u32) -> (r: Vec<(Vec<u8>, Vec<u8>)>)
    ensures
        pair_views(r@) == squashfs_xattrs_from(data@, 0, count as int),
{
    let mut out: Vec<(Vec<u8>, Vec<u8>)> = Vec::new();
    let mut off: usize = 0;
    let mut left: u32 = count;
    assert(pair_views(out@) + squashfs_xattrs_from(data@, 0, count as int) =~= squashfs_xattrs_from(
        data@,
        0,
        count as int,
    ));
    while left > 0
        invariant
            off <= data@.len(),
            squashfs_xattrs_from(data@, 0, count as int) == pair_views(out@)
                + squashfs_xattrs_from(data@, off as int, left as int),
        decreases left,
    {
        let ghost before = pair_views(out@);
        assert(before + Seq::<(Seq<u8>, Seq<u8>)>::empty() =~= before);
        let end: usize = match find_xattr_end(data, off) {
            None => {
                return out;
            },
            Some(e) => e,
        };
        let value_at: usize = off + 4 + get_u16(data, off + 2) as usize;
        let mut name = prefix_of(data[off]);
        let mut rest = copy_range(data, off + 4, value_at);
        name.append(&mut rest);
        let value = if data[off + 1] % 2 == 1 {
            let empty: Vec<u8> = Vec::new();
            assert(empty@ =~= seq![]);
            empty
        } else {
            copy_range(data, value_at + 4, end)
        };
        let ghost view = (name@, value@);
        out.push((name, value));
        proof {
            assert(pair_views(out@) =~= before.push(view));
            let tail = squashfs_xattrs_from(data@, end as int, left - 1);
            assert(before + (seq![view] + tail) =~= before.push(view) + tail);
        }
        off = end;
        left = left - 1;
    }
    assert(pair_views(out@) + Seq::<(Seq<u8>, Seq<u8>)>::empty() =~= pair_views(out@));
    out
}

/// The attribute index of an extended inode at `off`, and how many bytes the inode takes
/// from there: directories have the index among their fields, files and links after them.
pub open spec fn xattr_index_at(table: Seq<u8>, off: int, kind: u8) -> Option<(u32, int)> {
    if kind == 8 {
        if off + 24 > table.len() {
            None
        } else {
            Some((u32_at(table, off + 16), 24))
        }
    } else if kind == 9 {
        let at = block_field(table, off) + 4;
        if off + 20 > table.len() || at + 4 > table.len() {
            None
        } else {
            Some((u32_at(table, at), at + 4 - off))
        }
    } else if kind == 10 {
        let at = off + 10 + u32_at(table, off + 6);
        if off + 10 > table.len() || at + 4 > table.len() {
            None
        } else {
            Some((u32_at(table, at), at + 4 - off))
        }
    } else {
        None
    }
}

/// Finds the attribute index of an extended inode. Returns how many bytes the inode takes
/// too.
pub fn parse_extended_inode_xattr_idx(table: &[u8], offset: u32, inode_type: u8) -> (r: Option<
    (u32, usize),
>)
    ensures
        match r {
            Some(v) => xattr_index_at(table@, offset as int, inode_type) == Some((v.0, v.1 as int)),
            None => xattr_index_at(table@, offset as int, inode_type) is None,
        },
{
    let total: usize = table.len();
    let off: usize = offset as usize;
    if off > total {
        return None;
    }
    let left: usize = total - off;
    if inode_type == 8 {
        if left < 24 {
            return None;
        }
        return Some((get_u32(table, off + 16), 24));
    }
    if inode_type == 9 {
        if left < 20 {
            return None;
        }
        let skip: usize = if get_u32(table, off + 16) != 0xFFFF_FFFF {
            28
        } else {
            24
        };
        if left < skip + 4 {
            return None;
        }
        return Some((get_u32(table, off + skip), skip + 4));
    }
    if inode_type == 10 {
        if left < 10 {
            return None;
        }
        let n: u32 = get_u32(table, off + 6);
        if left < 14 || n as u64 > (left - 14) as u64 {
            return None;
        }
        let at: usize = off + 10 + n as usize;
        return Some((get_u32(table, at), 14 + n as usize));
    }
    None
}

} // verus!
