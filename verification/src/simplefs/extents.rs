//! The free list: which data blocks no inode owns.
use vstd::prelude::*;

use crate::simplefs::types::OnDiskInode;
use crate::simplefs::validate::{extent_end, extents_apart, owns_extent};
use crate::vfs::NodeKind;

verus! {

/// A run of free data blocks.
#[derive(Debug, Clone, Copy, PartialEq, Eq, Structural)]
pub struct Extent {
    pub start: u64,
    pub count: u64,
}

/// First block past a run.
pub open spec fn run_end(e: Extent) -> int {
    e.start + e.count
}

/// Whether a free list is sorted, holds no empty run, keeps its runs apart by at
/// least one block, and stays inside `lo..hi`.
pub open spec fn list_ok(list: Seq<Extent>, lo: int, hi: int) -> bool {
    &&& forall|k: int|
        #![trigger list[k]]
        0 <= k < list.len() ==> list[k].count > 0 && lo <= list[k].start && run_end(list[k]) <= hi
    &&& forall|i: int, j: int|
        #![trigger list[i], list[j]]
        0 <= i < j < list.len() ==> run_end(list[i]) < list[j].start
}

/// Whether block `b` lies in a run.
pub open spec fn in_run(e: Extent, b: int) -> bool {
    e.start <= b < run_end(e)
}

/// Whether block `b` is free.
pub open spec fn is_free(list: Seq<Extent>, b: int) -> bool {
    exists|k: int| #![trigger list[k]] 0 <= k < list.len() && in_run(list[k], b)
}

/// Whether some inode in use owns block `b`.
pub open spec fn is_owned(inodes: Seq<OnDiskInode>, b: int) -> bool {
    exists|i: int|
        #![trigger inodes[i]]
        0 <= i < inodes.len() && owns_extent(inodes[i]) && inodes[i].data_block <= b < extent_end(
            inodes[i],
        )
}

/// Whether the free list is exactly what is left of `lo..hi`.
pub open spec fn free_is_rest(list: Seq<Extent>, inodes: Seq<OnDiskInode>, lo: int, hi: int) -> bool {
    &&& list_ok(list, lo, hi)
    &&& forall|b: int|
        #![trigger is_free(list, b)]
        lo <= b < hi ==> is_free(list, b) == !is_owned(inodes, b)
}

/// First position whose run starts past `block`.
fn position_after(list: &Vec<Extent>, block: u64) -> (p: usize)
    ensures
        p <= list@.len(),
        forall|k: int| #![trigger list@[k]] 0 <= k < p ==> list@[k].start <= block,
        p < list@.len() ==> list@[p as int].start > block,
{
    let mut p: usize = 0;
    while p < list.len() && list[p].start <= block
        invariant
            p <= list@.len(),
            forall|k: int| #![trigger list@[k]] 0 <= k < p ==> list@[k].start <= block,
        decreases list@.len() - p,
    {
        p = p + 1;
    }
    p
}

/// Removing a run frees nothing else.
proof fn lemma_remove_run(list: Seq<Extent>, p: int, lo: int, hi: int)
    requires
        list_ok(list, lo, hi),
        0 <= p < list.len(),
    ensures
        list_ok(list.remove(p), lo, hi),
        forall|b: int|
            #![trigger is_free(list.remove(p), b)]
            is_free(list.remove(p), b) == (is_free(list, b) && !in_run(list[p], b)),
{
    let next = list.remove(p);
    assert forall|b: int| #![trigger is_free(next, b)] is_free(next, b) == (is_free(list, b)
        && !in_run(list[p], b)) by {
        if is_free(next, b) {
            let k = choose|k: int| #![trigger next[k]] 0 <= k < next.len() && in_run(next[k], b);
            let j = if k < p {
                k
            } else {
                k + 1
            };
            assert(next[k] == list[j]);
        }
        if is_free(list, b) && !in_run(list[p], b) {
            let j = choose|j: int| #![trigger list[j]] 0 <= j < list.len() && in_run(list[j], b);
            let k = if j < p {
                j
            } else {
                j - 1
            };
            assert(next[k] == list[j]);
        }
    }
}

/// Inserting a run in order adds its blocks and nothing else.
proof fn lemma_insert_run(list: Seq<Extent>, p: int, e: Extent, lo: int, hi: int)
    requires
        list_ok(list, lo, hi),
        0 <= p <= list.len(),
        e.count > 0,
        lo <= e.start,
        run_end(e) <= hi,
        p > 0 ==> run_end(list[p - 1]) < e.start,
        p < list.len() ==> run_end(e) < list[p].start,
    ensures
        list_ok(list.insert(p, e), lo, hi),
        forall|b: int|
            #![trigger is_free(list.insert(p, e), b)]
            is_free(list.insert(p, e), b) == (is_free(list, b) || in_run(e, b)),
{
    let next = list.insert(p, e);
    assert forall|i: int, j: int| #![trigger next[i], next[j]] 0 <= i < j < next.len() implies run_end(
        next[i],
    ) < next[j].start by {
        if i < p && j > p {
            assert(list[i] == next[i]);
            assert(list[j - 1] == next[j]);
        } else if j < p {
            assert(list[i] == next[i] && list[j] == next[j]);
        } else if i > p {
            assert(list[i - 1] == next[i] && list[j - 1] == next[j]);
        } else if i == p {
            assert(list[j - 1] == next[j]);
            assert(list[p].start <= list[j - 1].start);
        } else {
            assert(list[i] == next[i]);
            assert(list[i].start <= list[p - 1].start);
            assert(run_end(list[i]) <= run_end(list[p - 1]));
        }
    }
    assert forall|b: int| #![trigger is_free(next, b)] is_free(next, b) == (is_free(list, b)
        || in_run(e, b)) by {
        assert(next[p] == e);
        if is_free(next, b) {
            let k = choose|k: int| #![trigger next[k]] 0 <= k < next.len() && in_run(next[k], b);
            if k < p {
                assert(list[k] == next[k]);
            } else if k > p {
                assert(list[k - 1] == next[k]);
            }
        }
        if is_free(list, b) {
            let j = choose|j: int| #![trigger list[j]] 0 <= j < list.len() && in_run(list[j], b);
            if j < p {
                assert(next[j] == list[j]);
            } else {
                assert(next[j + 1] == list[j]);
            }
        }
    }
}

/// The position of the run that starts at `start`, if there is one.
fn find_run(list: &Vec<Extent>, start: u64) -> (r: Option<usize>)
    ensures
        match r {
            Some(p) => p < list@.len() && list@[p as int].start == start,
            None => forall|k: int|
                #![trigger list@[k]]
                0 <= k < list@.len() ==> list@[k].start != start,
        },
{
    let mut p: usize = 0;
    while p < list.len()
        invariant
            p <= list@.len(),
            forall|k: int| #![trigger list@[k]] 0 <= k < p ==> list@[k].start != start,
        decreases list@.len() - p,
    {
        if list[p].start == start {
            return Some(p);
        }
        p = p + 1;
    }
    None
}

/// Whether a run starts at `start` and has room for `count` blocks.
pub open spec fn run_starts_at(list: Seq<Extent>, start: int, count: int) -> bool {
    exists|k: int|
        #![trigger list[k]]
        0 <= k < list.len() && list[k].start == start && list[k].count >= count
}

/// Takes `count` blocks from the front of the run that starts at `start`. Where
/// no such run is large enough, nothing changes.
pub fn mark_extent_allocated(list: &mut Vec<Extent>, start: u64, count: u64, lo: u64, hi: u64)
    requires
        list_ok(old(list)@, lo as int, hi as int),
    ensures
        list_ok(final(list)@, lo as int, hi as int),
        run_starts_at(old(list)@, start as int, count as int) ==> forall|b: int|
            #![trigger is_free(final(list)@, b)]
            is_free(final(list)@, b) == (is_free(old(list)@, b) && !(start <= b < start + count)),
        !run_starts_at(old(list)@, start as int, count as int) ==> final(list)@ == old(list)@,
{
    if count == 0 {
        return;
    }
    match find_run(list, start) {
        None => {},
        Some(p) => {
            let free_count: u64 = list[p].count;
            let ghost before = list@;
            assert forall|k: int| #![trigger before[k]] 0 <= k < before.len() && before[k].start
                == start implies k == p by {
                if k < p {
                    assert(run_end(before[k]) < before[p as int].start);
                } else if k > p {
                    assert(run_end(before[p as int]) < before[k].start);
                }
            }
            if free_count >= count {
                let _e = list.remove(p);
                proof {
                    lemma_remove_run(before, p as int, lo as int, hi as int);
                }
                let ghost gone = list@;
                assert(gone == before.remove(p as int));
                if free_count > count {
                    assert(before[p as int].start + before[p as int].count <= hi);
                    let rest = Extent { start: start + count, count: free_count - count };
                    list.insert(p, rest);
                    proof {
                        if p > 0 {
                            assert(gone[p - 1] == before[p - 1]);
                        }
                        if p < gone.len() {
                            assert(gone[p as int] == before[p + 1]);
                        }
                        lemma_insert_run(gone, p as int, rest, lo as int, hi as int);
                    }
                }
                assert(in_run(before[p as int], start as int));
                assert forall|b: int| #![trigger is_free(list@, b)] is_free(list@, b) == (is_free(
                    before,
                    b,
                ) && !(start <= b < start + count)) by {
                    if start + count <= b < start + free_count {
                        assert(in_run(before[p as int], b));
                    }
                }
            }
        },
    }
}

/// Returns the blocks `start..start + count` that lie in `lo..hi` to the list,
/// joining them with the runs they touch.
pub fn mark_extent_free(list: &mut Vec<Extent>, start: u64, count: u64, lo: u64, hi: u64)
    requires
        list_ok(old(list)@, lo as int, hi as int),
        start + count <= u64::MAX,
        forall|b: int| start <= b < start + count ==> !is_free(old(list)@, b),
    ensures
        list_ok(final(list)@, lo as int, hi as int),
        forall|b: int|
            #![trigger is_free(final(list)@, b)]
            is_free(final(list)@, b) == (is_free(old(list)@, b) || (start <= b < start + count && lo
                <= b < hi)),
{
    let from: u64 = if start < lo {
        lo
    } else {
        start
    };
    let to: u64 = if start + count > hi {
        hi
    } else {
        start + count
    };
    if to <= from {
        return;
    }
    let mut new_start: u64 = from;
    let mut new_end: u64 = to;
    let mut p: usize = position_after(list, new_start);
    let ghost listed = list@;
    if p > 0 {
        assert(run_end(listed[p - 1]) <= from) by {
            if run_end(listed[p - 1]) > from {
                assert(in_run(listed[p - 1], from as int));
                assert(is_free(listed, from as int));
            }
        }
    }
    if p < list.len() {
        assert(to <= listed[p as int].start) by {
            if listed[p as int].start < to {
                assert(in_run(listed[p as int], listed[p as int].start as int));
                assert(is_free(listed, listed[p as int].start as int));
            }
        }
    }
    let ghost mid0 = listed;
    if p > 0 && list[p - 1].start + list[p - 1].count == from {
        new_start = list[p - 1].start;
        proof {
            lemma_remove_run(listed, p - 1, lo as int, hi as int);
        }
        let _prev = list.remove(p - 1);
        p = p - 1;
    }
    let ghost mid = list@;
    assert(list_ok(mid, lo as int, hi as int));
    assert(p > 0 ==> mid[p - 1] == listed[p - 1]);
    let ghost q = if mid.len() == listed.len() {
        p as int
    } else {
        p + 1
    };
    assert(p < mid.len() ==> mid[p as int] == listed[q]);
    assert(p > 0 ==> run_end(mid[p - 1]) < new_start) by {
        if p > 0 && mid.len() < listed.len() {
            assert(run_end(listed[p - 1]) < listed[p as int].start);
        }
    }
    if p < list.len() && list[p].start == to {
        new_end = list[p].start + list[p].count;
        proof {
            lemma_remove_run(mid, p as int, lo as int, hi as int);
        }
        let _next = list.remove(p);
    }
    let ghost low = list@;
    assert(p > 0 ==> low[p - 1] == mid[p - 1]);
    assert(p < low.len() ==> new_end < low[p as int].start) by {
        if p < low.len() {
            if low.len() < mid.len() {
                assert(low[p as int] == mid[p + 1]);
                assert(run_end(mid[p as int]) < mid[p + 1].start);
            } else {
                assert(low[p as int] == mid[p as int]);
            }
        }
    }
    let whole = Extent { start: new_start, count: new_end - new_start };
    proof {
        lemma_insert_run(low, p as int, whole, lo as int, hi as int);
    }
    list.insert(p, whole);
    assert forall|b: int| #![trigger is_free(list@, b)] is_free(list@, b) == (is_free(listed, b)
        || (from <= b < to)) by {
        assert(is_free(list@, b) == (is_free(low, b) || in_run(whole, b)));
        if new_start <= b < from {
            assert(in_run(listed[q - 1], b));
        }
        if to <= b < new_end {
            assert(in_run(listed[q], b));
        }
        if mid.len() < listed.len() {
            assert(is_free(mid, b) == (is_free(listed, b) && !in_run(listed[q - 1], b)));
        }
        if low.len() < mid.len() {
            assert(is_free(low, b) == (is_free(mid, b) && !in_run(mid[p as int], b)));
        }
    }
}

/// Whether the run at `k` is the one a best-fit search settles on: large enough,
/// no larger than any other that is, and the first of its size.
pub open spec fn best_fit(list: Seq<Extent>, required: int, k: int) -> bool {
    &&& 0 <= k < list.len()
    &&& list[k].count >= required
    &&& forall|j: int|
        #![trigger list[j]]
        0 <= j < list.len() && list[j].count >= required ==> list[k].count < list[j].count || (
        list[k].count == list[j].count && k <= j)
}

/// Start of the smallest run that holds `required` blocks.
pub fn find_best_fit(list: &Vec<Extent>, required: u64) -> (r: Option<u64>)
    ensures
        match r {
            Some(start) => exists|k: int|
                #![trigger list@[k]]
                best_fit(list@, required as int, k) && list@[k].start == start,
            None => forall|k: int|
                #![trigger list@[k]]
                0 <= k < list@.len() ==> list@[k].count < required,
        },
{
    let mut best: Option<usize> = None;
    let mut i: usize = 0;
    while i < list.len()
        invariant
            i <= list@.len(),
            match best {
                Some(k) => k < i && best_fit(list@.take(i as int), required as int, k as int),
                None => forall|k: int|
                    #![trigger list@[k]]
                    0 <= k < i ==> list@[k].count < required,
            },
        decreases list@.len() - i,
    {
        let ghost prior = list@.take(i as int);
        let ghost next = list@.take(i + 1);
        assert forall|j: int| #![trigger next[j]] 0 <= j < i implies next[j] == prior[j] by {
        }
        assert(next[i as int] == list@[i as int]);
        if list[i].count >= required {
            match best {
                None => {
                    best = Some(i);
                    assert forall|j: int| #![trigger next[j]] 0 <= j < i implies next[j].count
                        < required by {
                        assert(list@[j].count < required);
                    }
                },
                Some(k) => {
                    assert(list@[k as int] == prior[k as int]);
                    if list[i].count < list[k].count {
                        best = Some(i);
                    }
                },
            }
        }
        i = i + 1;
    }
    assert(list@.take(i as int) == list@);
    match best {
        Some(k) => {
            assert(best_fit(list@, required as int, k as int));
            Some(list[k].start)
        },
        None => None,
    }
}

/// The next owned run at or past `cursor`, if there is one.
fn next_owned(inodes: &[OnDiskInode], cursor: u64) -> (r: Option<(u64, u64)>)
    ensures
        match r {
            Some((start, end)) => {
                &&& cursor <= start < end <= 0x2_0000_0000
                &&& exists|i: int|
                    #![trigger inodes@[i]]
                    0 <= i < inodes@.len() && owns_extent(inodes@[i]) && inodes@[i].data_block
                        == start && extent_end(inodes@[i]) == end
                &&& forall|i: int|
                    #![trigger inodes@[i]]
                    0 <= i < inodes@.len() && owns_extent(inodes@[i]) && inodes@[i].data_block
                        >= cursor ==> start <= inodes@[i].data_block
            },
            None => forall|i: int|
                #![trigger inodes@[i]]
                0 <= i < inodes@.len() && owns_extent(inodes@[i]) ==> inodes@[i].data_block
                    < cursor,
        },
{
    let mut best: Option<(u64, u64)> = None;
    let mut i: usize = 0;
    while i < inodes.len()
        invariant
            i <= inodes@.len(),
            match best {
                Some((start, end)) => {
                    &&& cursor <= start < end <= 0x2_0000_0000
                    &&& exists|k: int|
                        #![trigger inodes@[k]]
                        0 <= k < inodes@.len() && owns_extent(inodes@[k]) && inodes@[k].data_block
                            == start && extent_end(inodes@[k]) == end
                    &&& forall|k: int|
                        #![trigger inodes@[k]]
                        0 <= k < i && owns_extent(inodes@[k]) && inodes@[k].data_block >= cursor
                            ==> start <= inodes@[k].data_block
                },
                None => forall|k: int|
                    #![trigger inodes@[k]]
                    0 <= k < i && owns_extent(inodes@[k]) ==> inodes@[k].data_block < cursor,
            },
        decreases inodes@.len() - i,
    {
        let inode = inodes[i];
        if !inode.deleted && !matches!(inode.kind, NodeKind::Directory) && inode.block_count > 0
            && inode.data_block as u64 >= cursor {
            let start: u64 = inode.data_block as u64;
            let end: u64 = start + inode.block_count as u64;
            assert(owns_extent(inodes@[i as int]));
            match best {
                None => {
                    best = Some((start, end));
                },
                Some((s, _e)) => {
                    if start < s {
                        best = Some((start, end));
                    }
                },
            }
        }
        i = i + 1;
    }
    best
}

/// Builds the free list of a volume: the gaps that live extents leave in `lo..hi`.
pub fn rebuild_free_data_extents(inodes: &[OnDiskInode], lo: u64, hi: u64) -> (list: Vec<Extent>)
    requires
        lo <= hi <= 0x1_0000_0000,
        forall|i: int|
            #![trigger inodes@[i]]
            0 <= i < inodes@.len() && owns_extent(inodes@[i]) ==> lo <= inodes@[i].data_block,
        forall|i: int, j: int|
            #![trigger inodes@[i], inodes@[j]]
            0 <= i < j < inodes@.len() ==> extents_apart(inodes@[i], inodes@[j]),
    ensures
        free_is_rest(list@, inodes@, lo as int, hi as int),
{
    let mut list: Vec<Extent> = Vec::new();
    let mut cursor: u64 = lo;
    while cursor < hi
        invariant
            lo <= cursor <= 0x2_0000_0000,
            lo <= hi <= 0x1_0000_0000,
            forall|i: int|
                #![trigger inodes@[i]]
                0 <= i < inodes@.len() && owns_extent(inodes@[i]) ==> lo <= inodes@[i].data_block,
            forall|i: int, j: int|
                #![trigger inodes@[i], inodes@[j]]
                0 <= i < j < inodes@.len() ==> extents_apart(inodes@[i], inodes@[j]),
            forall|i: int|
                #![trigger inodes@[i]]
                0 <= i < inodes@.len() && owns_extent(inodes@[i]) ==> extent_end(inodes@[i])
                    <= cursor || cursor <= inodes@[i].data_block,
            list_ok(list@, lo as int, hi as int),
            forall|k: int| #![trigger list@[k]] 0 <= k < list@.len() ==> run_end(list@[k]) <= cursor,
            list@.len() > 0 && cursor < hi ==> run_end(list@.last()) < cursor,
            forall|b: int|
                #![trigger is_free(list@, b)]
                lo <= b < cursor && b < hi ==> is_free(list@, b) == !is_owned(inodes@, b),
        decreases 0x2_0000_0000 - cursor,
    {
        let ghost before = list@;
        match next_owned(inodes, cursor) {
            None => {
                let gap = Extent { start: cursor, count: hi - cursor };
                proof {
                    lemma_insert_run(before, before.len() as int, gap, lo as int, hi as int);
                    assert(before.insert(before.len() as int, gap) =~= before.push(gap));
                }
                list.push(gap);
                assert forall|b: int| #![trigger is_free(list@, b)] lo <= b < hi implies is_free(
                    list@,
                    b,
                ) == !is_owned(inodes@, b) by {
                    if b >= cursor {
                        assert(in_run(gap, b));
                        assert(!is_owned(inodes@, b));
                    } else {
                        assert(is_free(before, b) == !is_owned(inodes@, b));
                    }
                }
                cursor = hi;
            },
            Some((start, end)) => {
                let ghost w = choose|i: int|
                    #![trigger inodes@[i]]
                    0 <= i < inodes@.len() && owns_extent(inodes@[i]) && inodes@[i].data_block
                        == start && extent_end(inodes@[i]) == end;
                let stop: u64 = if start < hi {
                    start
                } else {
                    hi
                };
                if cursor < stop {
                    let gap = Extent { start: cursor, count: stop - cursor };
                    proof {
                        lemma_insert_run(before, before.len() as int, gap, lo as int, hi as int);
                        assert(before.insert(before.len() as int, gap) =~= before.push(gap));
                    }
                    list.push(gap);
                    assert(list@.last() == gap);
                }
                assert forall|b: int| #![trigger is_free(list@, b)] lo <= b < end && b
                    < hi implies is_free(list@, b) == !is_owned(inodes@, b) by {
                    if b < cursor {
                        assert(is_free(before, b) == !is_owned(inodes@, b));
                    } else if b < start {
                        if cursor < stop {
                            assert(in_run(list@.last(), b));
                        }
                        assert(!is_owned(inodes@, b));
                    } else {
                        assert(is_owned(inodes@, b)) by {
                            assert(owns_extent(inodes@[w]));
                        }
                        if is_free(list@, b) {
                            let k = choose|k: int|
                                #![trigger list@[k]]
                                0 <= k < list@.len() && in_run(list@[k], b);
                            if k < before.len() {
                                assert(before[k] == list@[k]);
                            }
                        }
                    }
                }
                assert forall|i: int|
                    #![trigger inodes@[i]]
                    0 <= i < inodes@.len() && owns_extent(inodes@[i]) implies extent_end(inodes@[i])
                    <= end || end <= inodes@[i].data_block by {
                    if i < w {
                        assert(extents_apart(inodes@[i], inodes@[w]));
                    } else if i > w {
                        assert(extents_apart(inodes@[w], inodes@[i]));
                    }
                }
                assert forall|k: int| #![trigger list@[k]] 0 <= k < list@.len() implies run_end(
                    list@[k],
                ) <= end by {
                    if k < before.len() {
                        assert(before[k] == list@[k]);
                    }
                }
                cursor = end;
            },
        }
    }
    list
}

} // verus!
