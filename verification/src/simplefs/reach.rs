//! Which inodes are reached from the root.
use vstd::prelude::*;

use crate::simplefs::resize::same_node;
use crate::simplefs::types::{DirEntryView, OnDiskDirEntry, OnDiskInode, entry_views};
use crate::simplefs::validate::{covers, live_dir, slice_end};
use crate::vfs::NodeKind;

verus! {

/// Whether entry `d` of directory `p` names inode `i`.
pub open spec fn leads_to(
    inodes: Seq<OnDiskInode>,
    entries: Seq<DirEntryView>,
    p: int,
    d: int,
    i: int,
) -> bool {
    &&& 0 <= p < inodes.len()
    &&& 0 <= d < entries.len()
    &&& covers(inodes[p], d)
    &&& entries[d].inode_index == i
}

/// Whether inode `i` is reached from the root over at most `n` entries.
pub open spec fn reached_within(
    inodes: Seq<OnDiskInode>,
    entries: Seq<DirEntryView>,
    i: int,
    n: nat,
) -> bool
    decreases n,
{
    i == 0 || (n > 0 && exists|p: int, d: int| #[trigger]
        leads_to(inodes, entries, p, d, i) && reached_within(inodes, entries, p, (n - 1) as nat))
}

/// Whether inode `i` is reached from the root.
pub open spec fn reached(inodes: Seq<OnDiskInode>, entries: Seq<DirEntryView>, i: int) -> bool {
    exists|n: nat| #[trigger] reached_within(inodes, entries, i, n)
}

/// Whether every inode in use is reached from the root.
#[verifier::opaque]
pub open spec fn all_reached(inodes: Seq<OnDiskInode>, entries: Seq<DirEntryView>) -> bool {
    forall|i: int|
        #![trigger inodes[i]]
        0 <= i < inodes.len() && !inodes[i].deleted ==> reached(inodes, entries, i)
}

/// What a directory that is reached names is reached too.
pub proof fn lemma_reached_step(
    inodes: Seq<OnDiskInode>,
    entries: Seq<DirEntryView>,
    p: int,
    d: int,
    i: int,
)
    requires
        reached(inodes, entries, p),
        leads_to(inodes, entries, p, d, i),
    ensures
        reached(inodes, entries, i),
{
    let n = choose|n: nat| #[trigger] reached_within(inodes, entries, p, n);
    assert(reached_within(inodes, entries, i, n + 1));
}

/// Inodes that differ in nothing but their contents are reached alike.
pub proof fn lemma_reached_same(
    a: Seq<OnDiskInode>,
    b: Seq<OnDiskInode>,
    entries: Seq<DirEntryView>,
    i: int,
    n: nat,
)
    requires
        a.len() == b.len(),
        forall|k: int| #![trigger b[k]] 0 <= k < b.len() ==> same_node(a[k], b[k]),
        reached_within(a, entries, i, n),
    ensures
        reached_within(b, entries, i, n),
    decreases n,
{
    if i != 0 {
        let (p, d) = choose|p: int, d: int| #[trigger]
            leads_to(a, entries, p, d, i) && reached_within(a, entries, p, (n - 1) as nat);
        lemma_reached_same(a, b, entries, p, (n - 1) as nat);
        assert(same_node(a[p], b[p]));
        assert(leads_to(b, entries, p, d, i));
    }
}

pub proof fn lemma_all_reached_same(
    a: Seq<OnDiskInode>,
    b: Seq<OnDiskInode>,
    entries: Seq<DirEntryView>,
)
    requires
        a.len() == b.len(),
        forall|k: int| #![trigger b[k]] 0 <= k < b.len() ==> same_node(a[k], b[k]),
        all_reached(a, entries),
    ensures
        all_reached(b, entries),
{
    reveal(all_reached);
    assert forall|i: int| #![trigger b[i]] 0 <= i < b.len() && !b[i].deleted implies reached(
        b,
        entries,
        i,
    ) by {
        assert(same_node(a[i], b[i]));
        assert(reached(a, entries, i));
        let n = choose|n: nat| #[trigger] reached_within(a, entries, i, n);
        lemma_reached_same(a, b, entries, i, n);
    }
}

/// How many marks are missing.
spec fn unmarked(marks: Seq<bool>) -> nat
    decreases marks.len(),
{
    if marks.len() == 0 {
        0
    } else {
        unmarked(marks.drop_last()) + if marks.last() {
            0nat
        } else {
            1nat
        }
    }
}

proof fn lemma_marked_one(marks: Seq<bool>, i: int)
    requires
        0 <= i < marks.len(),
        !marks[i],
    ensures
        unmarked(marks.update(i, true)) + 1 == unmarked(marks),
    decreases marks.len(),
{
    let u = marks.update(i, true);
    if i < marks.len() - 1 {
        lemma_marked_one(marks.drop_last(), i);
        assert(u.drop_last() =~= marks.drop_last().update(i, true));
    } else {
        assert(u.drop_last() =~= marks.drop_last());
    }
}

/// Whether what a marked directory names is marked.
spec fn closed_marks(inodes: Seq<OnDiskInode>, entries: Seq<DirEntryView>, marks: Seq<bool>) -> bool {
    forall|p: int, d: int|
        #![trigger inodes[p], entries[d]]
        0 <= p < inodes.len() && 0 <= d < entries.len() && covers(inodes[p], d) && marks[p]
            ==> marks[entries[d].inode_index as int]
}

proof fn lemma_closed_marks(
    inodes: Seq<OnDiskInode>,
    entries: Seq<DirEntryView>,
    marks: Seq<bool>,
    i: int,
    n: nat,
)
    requires
        closed_marks(inodes, entries, marks),
        marks[0],
        reached_within(inodes, entries, i, n),
    ensures
        marks[i],
    decreases n,
{
    if i != 0 {
        let (p, d) = choose|p: int, d: int| #[trigger]
            leads_to(inodes, entries, p, d, i) && reached_within(inodes, entries, p, (n - 1) as nat);
        lemma_closed_marks(inodes, entries, marks, p, (n - 1) as nat);
        assert(covers(inodes[p], d) && entries[d].inode_index == i);
    }
}

/// Marks what one directory names. Says whether anything was not marked before.
fn mark_children(
    inodes: &[OnDiskInode],
    dir_entries: &[OnDiskDirEntry],
    marks: &mut Vec<bool>,
    p: usize,
) -> (changed: bool)
    requires
        p < inodes@.len(),
        live_dir(inodes@[p as int]),
        slice_end(inodes@[p as int]) <= dir_entries@.len(),
        old(marks)@.len() == inodes@.len(),
        old(marks)@[p as int],
        forall|d: int|
            #![trigger entry_views(dir_entries@)[d]]
            0 <= d < dir_entries@.len() ==> entry_views(dir_entries@)[d].inode_index < inodes@.len(),
        forall|i: int|
            #![trigger old(marks)@[i]]
            0 <= i < old(marks)@.len() && old(marks)@[i] ==> reached(
                inodes@,
                entry_views(dir_entries@),
                i,
            ),
    ensures
        final(marks)@.len() == inodes@.len(),
        forall|i: int|
            #![trigger final(marks)@[i]]
            0 <= i < final(marks)@.len() && final(marks)@[i] ==> reached(
                inodes@,
                entry_views(dir_entries@),
                i,
            ),
        !changed ==> final(marks)@ == old(marks)@ && forall|d: int|
            #![trigger entry_views(dir_entries@)[d]]
            0 <= d < dir_entries@.len() && covers(inodes@[p as int], d) ==> old(marks)@[entry_views(
                dir_entries@,
            )[d].inode_index as int],
        changed ==> unmarked(final(marks)@) < unmarked(old(marks)@),
        old(marks)@[0] ==> final(marks)@[0],
{
    let ghost entries = entry_views(dir_entries@);
    let ghost start = marks@;
    let inode = inodes[p];
    let _count: usize = dir_entries.len();
    let mut changed = false;
    let mut k: u32 = 0;
    while k < inode.entry_count
        invariant
            k <= inode.entry_count,
            p < inodes@.len(),
            inode == inodes@[p as int],
            live_dir(inode),
            slice_end(inode) <= dir_entries@.len(),
            _count == dir_entries@.len(),
            entries == entry_views(dir_entries@),
            start.len() == inodes@.len(),
            start[p as int],
            marks@.len() == inodes@.len(),
            forall|d: int|
                #![trigger entries[d]]
                0 <= d < dir_entries@.len() ==> entries[d].inode_index < inodes@.len(),
            reached(inodes@, entries, p as int),
            forall|i: int|
                #![trigger marks@[i]]
                0 <= i < marks@.len() && marks@[i] ==> reached(inodes@, entries, i),
            !changed ==> marks@ == start && forall|d: int|
                #![trigger entries[d]]
                inode.entry_start <= d < inode.entry_start + k
                    ==> start[entries[d].inode_index as int],
            changed ==> unmarked(marks@) < unmarked(start),
            start[0] ==> marks@[0],
        decreases inode.entry_count - k,
    {
        let d: usize = (inode.entry_start as u64 + k as u64) as usize;
        assert(entries[d as int] == dir_entries@[d as int]@);
        let c: usize = dir_entries[d].inode_index as usize;
        if !marks[c] {
            proof {
                lemma_marked_one(marks@, c as int);
                assert(leads_to(inodes@, entries, p as int, d as int, c as int));
                lemma_reached_step(inodes@, entries, p as int, d as int, c as int);
            }
            marks.set(c, true);
            changed = true;
        }
        k = k + 1;
    }
    changed
}

/// Whether every inode in use is reached from the root.
pub fn inodes_are_reached(inodes: &[OnDiskInode], dir_entries: &[OnDiskDirEntry]) -> (r: bool)
    requires
        inodes@.len() > 0,
        forall|i: int|
            #![trigger inodes@[i]]
            0 <= i < inodes@.len() && live_dir(inodes@[i]) ==> slice_end(inodes@[i])
                <= dir_entries@.len(),
        forall|d: int|
            #![trigger entry_views(dir_entries@)[d]]
            0 <= d < dir_entries@.len() ==> entry_views(dir_entries@)[d].inode_index < inodes@.len(),
    ensures
        r == all_reached(inodes@, entry_views(dir_entries@)),
{
    let ghost entries = entry_views(dir_entries@);
    let total: usize = inodes.len();
    let mut marks: Vec<bool> = vec![false; total];
    marks.set(0, true);
    assert(reached_within(inodes@, entries, 0, 0));
    let mut again = true;
    while again
        invariant
            total == inodes@.len(),
            total > 0,
            marks@.len() == total,
            marks@[0],
            entries == entry_views(dir_entries@),
            forall|i: int|
                #![trigger inodes@[i]]
                0 <= i < inodes@.len() && live_dir(inodes@[i]) ==> slice_end(inodes@[i])
                    <= dir_entries@.len(),
            forall|d: int|
                #![trigger entries[d]]
                0 <= d < dir_entries@.len() ==> entries[d].inode_index < inodes@.len(),
            forall|i: int|
                #![trigger marks@[i]]
                0 <= i < marks@.len() && marks@[i] ==> reached(inodes@, entries, i),
            !again ==> closed_marks(inodes@, entries, marks@),
        decreases unmarked(marks@) + (if again { 1nat } else { 0nat }),
    {
        let ghost start = marks@;
        again = false;
        let mut p: usize = 0;
        while p < total
            invariant
                p <= total,
                total == inodes@.len(),
                total > 0,
                marks@.len() == total,
                marks@[0],
                entries == entry_views(dir_entries@),
                forall|i: int|
                    #![trigger inodes@[i]]
                    0 <= i < inodes@.len() && live_dir(inodes@[i]) ==> slice_end(inodes@[i])
                        <= dir_entries@.len(),
                forall|d: int|
                    #![trigger entries[d]]
                    0 <= d < dir_entries@.len() ==> entries[d].inode_index < inodes@.len(),
                forall|i: int|
                    #![trigger marks@[i]]
                    0 <= i < marks@.len() && marks@[i] ==> reached(inodes@, entries, i),
                !again ==> marks@ == start,
                !again ==> forall|q: int, d: int|
                    #![trigger inodes@[q], entries[d]]
                    0 <= q < p && 0 <= d < entries.len() && covers(inodes@[q], d) && marks@[q]
                        ==> marks@[entries[d].inode_index as int],
                again ==> unmarked(marks@) < unmarked(start),
            decreases total - p,
        {
            if marks[p] && matches!(inodes[p].kind, NodeKind::Directory) && !inodes[p].deleted {
                let ghost before = marks@;
                let changed = mark_children(inodes, dir_entries, &mut marks, p);
                if changed {
                    again = true;
                }
            }
            p = p + 1;
        }
    }
    let mut i: usize = 0;
    while i < total
        invariant
            i <= total,
            total == inodes@.len(),
            marks@.len() == total,
            marks@[0],
            entries == entry_views(dir_entries@),
            closed_marks(inodes@, entries, marks@),
            forall|j: int|
                #![trigger marks@[j]]
                0 <= j < marks@.len() && marks@[j] ==> reached(inodes@, entries, j),
            forall|j: int|
                #![trigger inodes@[j]]
                0 <= j < i && !inodes@[j].deleted ==> reached(inodes@, entries, j),
        decreases total - i,
    {
        if !inodes[i].deleted && !marks[i] {
            proof {
                if reached(inodes@, entries, i as int) {
                    let n = choose|n: nat| #[trigger] reached_within(inodes@, entries, i as int, n);
                    lemma_closed_marks(inodes@, entries, marks@, i as int, n);
                }
                assert(!inodes@[i as int].deleted);
                reveal(all_reached);
            }
            return false;
        }
        assert(marks@[i as int] ==> reached(inodes@, entries, i as int));
        i = i + 1;
    }
    proof {
        reveal(all_reached);
    }
    true
}

} // verus!
