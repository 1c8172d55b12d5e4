//! How many inodes share an extent, and how the pool's counts follow from their marks.
//!
//! A mark on an inode says that its extent is pooled. The counts of a pool are not stored:
//! they are rebuilt from the marks, so they survive a crash.
use vstd::prelude::*;

use crate::simplefs::dedup::{DedupChoice, DedupPool, ExtentUse, users_of};
use crate::simplefs::types::OnDiskInode;

verus! {

/// Whether an inode in use is marked as a user of an extent.
pub open spec fn shares(inode: OnDiskInode, data_block: u32, block_count: u32) -> bool {
    !inode.deleted && inode.deduped && inode.block_count > 0 && inode.data_block == data_block
        && inode.block_count == block_count
}

/// How many inodes are marked as users of an extent.
pub open spec fn sharers(inodes: Seq<OnDiskInode>, data_block: u32, block_count: u32) -> nat
    decreases inodes.len(),
{
    if inodes.len() == 0 {
        0
    } else {
        sharers(inodes.drop_last(), data_block, block_count) + if shares(
            inodes.last(),
            data_block,
            block_count,
        ) {
            1nat
        } else {
            0
        }
    }
}

/// Whether each extent is counted as often as inodes are marked as its users.
pub open spec fn counts_follow(uses: Seq<ExtentUse>, inodes: Seq<OnDiskInode>) -> bool {
    forall|d: u32, b: u32|
        #![trigger users_of(uses, d, b)]
        users_of(uses, d, b) == sharers(inodes, d, b)
}

proof fn lemma_sharers_bound(inodes: Seq<OnDiskInode>, d: u32, b: u32)
    ensures
        sharers(inodes, d, b) <= inodes.len(),
    decreases inodes.len(),
{
    if inodes.len() > 0 {
        lemma_sharers_bound(inodes.drop_last(), d, b);
    }
}

proof fn lemma_sharers_update(inodes: Seq<OnDiskInode>, x: int, inode: OnDiskInode, d: u32, b: u32)
    requires
        0 <= x < inodes.len(),
    ensures
        sharers(inodes.update(x, inode), d, b) + (if shares(inodes[x], d, b) {
            1nat
        } else {
            0
        }) == sharers(inodes, d, b) + (if shares(inode, d, b) {
            1nat
        } else {
            0
        }),
    decreases inodes.len(),
{
    let after = inodes.update(x, inode);
    if x < inodes.len() - 1 {
        lemma_sharers_update(inodes.drop_last(), x, inode, d, b);
        assert(after.drop_last() =~= inodes.drop_last().update(x, inode));
        assert(after.last() == inodes.last());
    } else {
        assert(after.drop_last() =~= inodes.drop_last());
        assert(after.last() == inode);
    }
}

impl DedupPool {
    /// A pool whose counts are those of the marks of a volume's inodes. No contents are
    /// known to it yet.
    pub fn rebuilt(inodes: &[OnDiskInode]) -> (r: Self)
        ensures
            r.wf(),
            r.extents@.len() == 0,
            counts_follow(r.uses@, inodes@),
    {
        let mut pool = DedupPool::new();
        let mut k: usize = 0;
        while k < inodes.len()
            invariant
                k <= inodes@.len(),
                pool.wf(),
                pool.extents@.len() == 0,
                counts_follow(pool.uses@, inodes@.take(k as int)),
            decreases inodes@.len() - k,
        {
            let inode = inodes[k];
            proof {
                assert(inodes@.take(k + 1).drop_last() =~= inodes@.take(k as int));
                lemma_sharers_bound(
                    inodes@.take(k as int),
                    inode.data_block,
                    inode.block_count,
                );
            }
            if !inode.deleted && inode.deduped && inode.block_count > 0 {
                pool.acquire(inode.data_block, inode.block_count);
            }
            k = k + 1;
        }
        assert(inodes@.take(k as int) =~= inodes@);
        pool
    }
}

/// An inode after its extent was pooled, or another one taken in its place.
pub open spec fn chosen(inode: OnDiskInode, choice: DedupChoice) -> OnDiskInode {
    match choice {
        DedupChoice::Share { data_block, block_count } => OnDiskInode {
            data_block,
            block_count,
            deduped: true,
            ..inode
        },
        DedupChoice::Pool => OnDiskInode { deduped: true, ..inode },
        DedupChoice::Nothing => inode,
    }
}

/// Makes an inode follow what was decided on its extent. Its own extent is handed back
/// where it is no longer needed.
pub fn follow_choice(inode: OnDiskInode, choice: DedupChoice) -> (r: (
    OnDiskInode,
    Option<(u32, u32)>,
))
    ensures
        r.0 == chosen(inode, choice),
        r.1 == (if inode.block_count > 0 && (r.0.data_block != inode.data_block || r.0.block_count
            != inode.block_count) {
            Some((inode.data_block, inode.block_count))
        } else {
            None
        }),
{
    let mut after = inode;
    match choice {
        DedupChoice::Share { data_block, block_count } => {
            after.data_block = data_block;
            after.block_count = block_count;
            after.deduped = true;
        },
        DedupChoice::Pool => {
            after.deduped = true;
        },
        DedupChoice::Nothing => {},
    }
    if inode.block_count > 0 && (after.data_block != inode.data_block || after.block_count
        != inode.block_count) {
        (after, Some((inode.data_block, inode.block_count)))
    } else {
        (after, None)
    }
}

// ── Laws ──

/// Counts that follow from the marks still do after one more user of an extent was counted
/// and a private inode was made to use it.
pub proof fn law_joining_keeps_counts(
    before: Seq<ExtentUse>,
    after: Seq<ExtentUse>,
    inodes: Seq<OnDiskInode>,
    x: int,
    choice: DedupChoice,
)
    requires
        0 <= x < inodes.len(),
        !inodes[x].deleted,
        !inodes[x].deduped,
        !(choice is Nothing),
        chosen(inodes[x], choice).block_count > 0,
        counts_follow(before, inodes),
        forall|d: u32, b: u32|
            #![trigger users_of(after, d, b)]
            users_of(after, d, b) == users_of(before, d, b) + if d == chosen(
                inodes[x],
                choice,
            ).data_block && b == chosen(inodes[x], choice).block_count {
                1nat
            } else {
                0
            },
    ensures
        counts_follow(after, inodes.update(x, chosen(inodes[x], choice))),
{
    let inode = chosen(inodes[x], choice);
    let joined = inodes.update(x, inode);
    assert forall|d: u32, b: u32|
        #![trigger users_of(after, d, b)]
        users_of(after, d, b) == sharers(joined, d, b) by {
        lemma_sharers_update(inodes, x, inode, d, b);
        assert(users_of(before, d, b) == sharers(inodes, d, b));
    }
}

/// Where the counts follow from the marks, giving up a shared extent says that it is free
/// exactly when no other inode uses it, and the counts follow from the marks afterwards.
pub proof fn law_leaving_keeps_counts(
    before: Seq<ExtentUse>,
    after: Seq<ExtentUse>,
    inodes: Seq<OnDiskInode>,
    x: int,
    inode: OnDiskInode,
    free: bool,
)
    requires
        0 <= x < inodes.len(),
        shares(inodes[x], inodes[x].data_block, inodes[x].block_count),
        inode.deleted || !inode.deduped,
        counts_follow(before, inodes),
        free == (users_of(before, inodes[x].data_block, inodes[x].block_count) <= 1),
        forall|d: u32, b: u32|
            #![trigger users_of(after, d, b)]
            users_of(after, d, b) == if d == inodes[x].data_block && b == inodes[x].block_count {
                if free {
                    0nat
                } else {
                    (users_of(before, d, b) - 1) as nat
                }
            } else {
                users_of(before, d, b)
            },
    ensures
        counts_follow(after, inodes.update(x, inode)),
        free == (sharers(inodes.update(x, inode), inodes[x].data_block, inodes[x].block_count)
            == 0),
{
    let left = inodes.update(x, inode);
    let data_block = inodes[x].data_block;
    let block_count = inodes[x].block_count;
    lemma_sharers_update(inodes, x, inode, data_block, block_count);
    assert(users_of(before, data_block, block_count) == sharers(inodes, data_block, block_count));
    assert forall|d: u32, b: u32|
        #![trigger users_of(after, d, b)]
        users_of(after, d, b) == sharers(left, d, b) by {
        lemma_sharers_update(inodes, x, inode, d, b);
        assert(users_of(before, d, b) == sharers(inodes, d, b));
    }
}

} // verus!
