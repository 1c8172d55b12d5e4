//! What holds of directory listings.
use vstd::prelude::*;

use crate::bytes::{u16_at, u32_at};
use crate::squashfs::types::{DirEntryView, dir_entries_from, group_entries, lemma_name_end, name_end};

verus! {

/// Whether every name from the entry at `at` on is closed by a zero byte.
pub open spec fn names_closed(data: Seq<u8>, at: int) -> bool
    decreases data.len() - at,
{
    at + 2 > data.len() || {
        let stop = name_end(data, at + 2, data.len() as int);
        &&& 0 <= at
        &&& at + 2 <= stop < data.len()
        &&& names_closed(data, stop + 1)
    }
}

/// Whether the bytes are one whole group whose names are all closed.
pub open spec fn is_group(data: Seq<u8>) -> bool {
    &&& data.len() > 8
    &&& data.len() == 8 + u16_at(data, 0) + 1
    &&& names_closed(data, 8)
}

/// What follows a closed name plays no part in where it ends.
proof fn lemma_name_end_in_front(a: Seq<u8>, b: Seq<u8>, i: int, end: int)
    requires
        0 <= i,
        name_end(a, i, a.len() as int) < a.len(),
    ensures
        name_end(a + b, i, end) == name_end(a, i, a.len() as int),
    decreases a.len() - i,
{
    if i < a.len() {
        assert((a + b)[i] == a[i]);
        if a[i] != 0 {
            lemma_name_end_in_front(a, b, i + 1, end);
        }
    }
}

proof fn lemma_group_in_front(a: Seq<u8>, b: Seq<u8>, at: int, inode: u32)
    requires
        0 <= at,
        names_closed(a, at),
    ensures
        group_entries(a + b, at, a.len() as int, inode) == group_entries(
            a,
            at,
            a.len() as int,
            inode,
        ),
    decreases a.len() - at,
{
    let end = a.len() as int;
    if at + 2 <= end {
        let stop = name_end(a, at + 2, end);
        lemma_name_end_in_front(a, b, at + 2, end);
        assert((a + b).subrange(at + 2, stop) =~= a.subrange(at + 2, stop));
        assert((a + b)[at] == a[at] && (a + b)[at + 1] == a[at + 1]);
        lemma_group_in_front(a, b, stop + 1, inode);
    }
}

proof fn lemma_name_end_behind(a: Seq<u8>, b: Seq<u8>, i: int, end: int)
    requires
        0 <= i,
    ensures
        name_end(a + b, a.len() + i, a.len() + end) == a.len() + name_end(b, i, end),
    decreases b.len() - i,
{
    if i < b.len() {
        assert((a + b)[a.len() + i] == b[i]);
        if b[i] != 0 {
            lemma_name_end_behind(a, b, i + 1, end);
        }
    }
}

proof fn lemma_group_behind(a: Seq<u8>, b: Seq<u8>, at: int, end: int, inode: u32)
    requires
        0 <= at,
    ensures
        group_entries(a + b, a.len() + at, a.len() + end, inode) == group_entries(
            b,
            at,
            end,
            inode,
        ),
    decreases b.len() + 1 - at,
{
    if end <= b.len() && at + 2 <= end {
        let stop = name_end(b, at + 2, end);
        let n = a.len() as int;
        lemma_name_end(b, at + 2, end);
        lemma_name_end_behind(a, b, at + 2, end);
        assert((a + b).subrange(n + at + 2, n + stop) =~= b.subrange(at + 2, stop));
        assert((a + b)[n + at] == b[at] && (a + b)[n + at + 1] == b[at + 1]);
        lemma_group_behind(a, b, stop + 1, end, inode);
    }
}

proof fn lemma_entries_behind(a: Seq<u8>, b: Seq<u8>, at: int)
    requires
        0 <= at,
    ensures
        dir_entries_from(a + b, a.len() + at) == dir_entries_from(b, at),
    decreases b.len() - at,
{
    if at + 8 < b.len() {
        let s = a + b;
        let n = a.len() as int;
        assert(s[n + at] == b[at] && s[n + at + 1] == b[at + 1]);
        assert(s[n + at + 4] == b[at + 4] && s[n + at + 5] == b[at + 5] && s[n + at + 6] == b[at
            + 6] && s[n + at + 7] == b[at + 7]);
        assert(u16_at(s, n + at) == u16_at(b, at));
        assert(u32_at(s, n + at + 4) == u32_at(b, at + 4));
        let next = at + 8 + u16_at(b, at) + 1;
        let end = if next < b.len() {
            next
        } else {
            b.len() as int
        };
        lemma_group_behind(a, b, at + 8, end, u32_at(b, at + 4));
        if next < b.len() {
            lemma_entries_behind(a, b, next);
        }
    }
}

/// A group in front of a listing puts its entries in front of the listing's.
pub proof fn law_joined_listings(a: Seq<u8>, b: Seq<u8>)
    requires
        is_group(a),
    ensures
        dir_entries_from(a + b, 0) == dir_entries_from(a, 0) + dir_entries_from(b, 0),
{
    let s = a + b;
    assert(s[0] == a[0] && s[1] == a[1] && s[4] == a[4] && s[5] == a[5] && s[6] == a[6] && s[7]
        == a[7]);
    assert(u16_at(s, 0) == u16_at(a, 0));
    assert(u32_at(s, 4) == u32_at(a, 4));
    lemma_group_in_front(a, b, 8, u32_at(a, 4));
    lemma_entries_behind(a, b, 0);
    let none = Seq::<DirEntryView>::empty();
    assert(dir_entries_from(a, 0) =~= group_entries(a, 8, a.len() as int, u32_at(a, 4)));
    if b.len() == 0 {
        assert(dir_entries_from(s, 0) =~= group_entries(s, 8, a.len() as int, u32_at(a, 4)));
        assert(dir_entries_from(b, 0) =~= none);
    }
    assert(dir_entries_from(s, 0) =~= dir_entries_from(a, 0) + dir_entries_from(b, 0));
}

} // verus!
