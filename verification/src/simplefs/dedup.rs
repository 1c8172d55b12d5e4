//! Storing identical contents once.
//!
//! Extents that may be shared are pooled: the pool counts how many inodes use each of
//! them, and knows each by a hash of its contents. A sole owner's extent is pooled too,
//! so that sharing and letting go always go through the count.
use vstd::prelude::*;

use crate::block::BlockDevice;
use crate::bytes::{bytes_eq, copy_range};
use crate::error::{Error, Result};
use crate::simplefs::types::OnDiskInode;
use crate::simplefs::volume::{cached_read_blocks, volume_read};

verus! {

/// One step of the content hash.
pub open spec fn hash_step(hash: u64, byte: u8) -> u64 {
    ((hash ^ (byte as u64)) as nat * 0x0000_0100_0000_01b3 % 0x1_0000_0000_0000_0000) as u64
}

/// The hash by which pooled contents are found: 64-bit FNV-1a.
pub open spec fn content_hash_of(contents: Seq<u8>) -> u64
    decreases contents.len(),
{
    if contents.len() == 0 {
        0xcbf2_9ce4_8422_2325
    } else {
        hash_step(content_hash_of(contents.drop_last()), contents.last())
    }
}

/// The hash by which pooled contents are found.
pub fn content_hash(contents: &[u8]) -> (r: u64)
    ensures
        r == content_hash_of(contents@),
{
    let mut hash: u64 = 0xcbf2_9ce4_8422_2325;
    let mut k: usize = 0;
    while k < contents.len()
        invariant
            k <= contents@.len(),
            hash == content_hash_of(contents@.take(k as int)),
        decreases contents@.len() - k,
    {
        proof {
            assert(contents@.take(k + 1).drop_last() =~= contents@.take(k as int));
            assert(contents@.take(k + 1).last() == contents@[k as int]);
        }
        hash = (hash ^ contents[k] as u64).wrapping_mul(0x0000_0100_0000_01b3);
        k = k + 1;
    }
    assert(contents@.take(k as int) =~= contents@);
    hash
}

/// A pooled extent: where it is, how large, and how many bytes of it are contents.
#[derive(Debug, Clone, Copy, PartialEq, Eq, Structural)]
pub struct PooledExtent {
    pub hash: u64,
    pub data_block: u32,
    pub block_count: u32,
    pub size: u32,
}

/// How many inodes use an extent.
#[derive(Debug, Clone, Copy, PartialEq, Eq, Structural)]
pub struct ExtentUse {
    pub data_block: u32,
    pub block_count: u32,
    pub users: u64,
}

/// The extents that may be shared.
pub struct DedupPool {
    pub extents: Vec<PooledExtent>,
    pub uses: Vec<ExtentUse>,
}

/// How many inodes use an extent.
pub open spec fn users_of(uses: Seq<ExtentUse>, data_block: u32, block_count: u32) -> nat
    decreases uses.len(),
{
    if uses.len() == 0 {
        0
    } else if uses.last().data_block == data_block && uses.last().block_count == block_count {
        uses.last().users as nat
    } else {
        users_of(uses.drop_last(), data_block, block_count)
    }
}

/// The pooled extents but one.
pub open spec fn without_extent(
    extents: Seq<PooledExtent>,
    data_block: u32,
    block_count: u32,
) -> Seq<PooledExtent>
    decreases extents.len(),
{
    if extents.len() == 0 {
        seq![]
    } else {
        let rest = without_extent(extents.drop_last(), data_block, block_count);
        if extents.last().data_block == data_block && extents.last().block_count == block_count {
            rest
        } else {
            rest.push(extents.last())
        }
    }
}

/// Whether no extent is counted twice.
pub open spec fn counted_once(uses: Seq<ExtentUse>) -> bool {
    forall|i: int, j: int|
        #![trigger uses[i], uses[j]]
        0 <= i < j < uses.len() ==> !(uses[i].data_block == uses[j].data_block
            && uses[i].block_count == uses[j].block_count)
}

proof fn lemma_users_at(uses: Seq<ExtentUse>, k: int)
    requires
        counted_once(uses),
        0 <= k < uses.len(),
    ensures
        users_of(uses, uses[k].data_block, uses[k].block_count) == uses[k].users,
    decreases uses.len(),
{
    if k < uses.len() - 1 {
        let d = uses.drop_last();
        assert forall|i: int, j: int|
            #![trigger d[i], d[j]]
            0 <= i < j < d.len() implies !(d[i].data_block == d[j].data_block && d[i].block_count
            == d[j].block_count) by {
            assert(uses[i] == d[i] && uses[j] == d[j]);
        }
        assert(d[k] == uses[k]);
        lemma_users_at(d, k);
        assert(uses[k].data_block != uses[uses.len() - 1].data_block || uses[k].block_count
            != uses[uses.len() - 1].block_count);
    }
}

proof fn lemma_users_none(uses: Seq<ExtentUse>, data_block: u32, block_count: u32)
    requires
        forall|i: int|
            #![trigger uses[i]]
            0 <= i < uses.len() ==> !(uses[i].data_block == data_block && uses[i].block_count
                == block_count),
    ensures
        users_of(uses, data_block, block_count) == 0,
    decreases uses.len(),
{
    if uses.len() > 0 {
        assert(uses[uses.len() - 1] == uses.last());
        let d = uses.drop_last();
        assert forall|i: int| #![trigger d[i]] 0 <= i < d.len() implies !(d[i].data_block
            == data_block && d[i].block_count == block_count) by {
            assert(uses[i] == d[i]);
        }
        lemma_users_none(d, data_block, block_count);
    }
}

/// Changing one count changes no other.
proof fn lemma_users_update(
    uses: Seq<ExtentUse>,
    k: int,
    users: u64,
    data_block: u32,
    block_count: u32,
)
    requires
        counted_once(uses),
        0 <= k < uses.len(),
    ensures
        users_of(uses.update(k, ExtentUse { users, ..uses[k] }), data_block, block_count) == if (
        uses[k].data_block == data_block && uses[k].block_count == block_count) {
            users as nat
        } else {
            users_of(uses, data_block, block_count)
        },
        counted_once(uses.update(k, ExtentUse { users, ..uses[k] })),
    decreases uses.len(),
{
    let n = uses.update(k, ExtentUse { users, ..uses[k] });
    assert forall|i: int, j: int|
        #![trigger n[i], n[j]]
        0 <= i < j < n.len() implies !(n[i].data_block == n[j].data_block && n[i].block_count
        == n[j].block_count) by {
        assert(!(uses[i].data_block == uses[j].data_block && uses[i].block_count
            == uses[j].block_count));
    }
    if uses[k].data_block == data_block && uses[k].block_count == block_count {
        lemma_users_at(n, k);
    } else {
        lemma_users_other(uses, n, k, data_block, block_count);
    }
}

proof fn lemma_users_other(
    uses: Seq<ExtentUse>,
    n: Seq<ExtentUse>,
    k: int,
    data_block: u32,
    block_count: u32,
)
    requires
        uses.len() == n.len(),
        forall|i: int| #![trigger n[i]] 0 <= i < uses.len() && i != k ==> n[i] == uses[i],
        0 <= k < uses.len() ==> n[k].data_block == uses[k].data_block && n[k].block_count
            == uses[k].block_count && !(uses[k].data_block == data_block && uses[k].block_count
            == block_count),
    ensures
        users_of(n, data_block, block_count) == users_of(uses, data_block, block_count),
    decreases uses.len(),
{
    if uses.len() > 0 {
        let d = uses.drop_last();
        let e = n.drop_last();
        assert forall|i: int| #![trigger e[i]] 0 <= i < d.len() && i != k implies e[i] == d[i] by {
            assert(n[i] == uses[i]);
        }
        assert(n[n.len() - 1] == n.last());
        if 0 <= k < d.len() {
            assert(e[k] == n[k] && d[k] == uses[k]);
        }
        lemma_users_other(d, e, k, data_block, block_count);
    }
}

impl DedupPool {
    /// What holds of a pool: no extent is counted twice.
    pub open spec fn wf(&self) -> bool {
        counted_once(self.uses@)
    }

    /// An empty pool.
    pub fn new() -> (r: Self)
        ensures
            r.wf(),
            r.extents@.len() == 0,
            forall|d: u32, b: u32| #![trigger users_of(r.uses@, d, b)] users_of(r.uses@, d, b) == 0,
    {
        DedupPool { extents: Vec::new(), uses: Vec::new() }
    }

    fn find_use(&self, data_block: u32, block_count: u32) -> (r: Option<usize>)
        ensures
            match r {
                Some(k) => k < self.uses@.len() && self.uses@[k as int].data_block == data_block
                    && self.uses@[k as int].block_count == block_count,
                None => forall|i: int|
                    #![trigger self.uses@[i]]
                    0 <= i < self.uses@.len() ==> !(self.uses@[i].data_block == data_block
                        && self.uses@[i].block_count == block_count),
            },
    {
        let mut k: usize = 0;
        while k < self.uses.len()
            invariant
                k <= self.uses@.len(),
                forall|i: int|
                    #![trigger self.uses@[i]]
                    0 <= i < k ==> !(self.uses@[i].data_block == data_block
                        && self.uses@[i].block_count == block_count),
            decreases self.uses@.len() - k,
        {
            if self.uses[k].data_block == data_block && self.uses[k].block_count == block_count {
                return Some(k);
            }
            k = k + 1;
        }
        None
    }

    /// Counts one more user of an extent.
    pub fn acquire(&mut self, data_block: u32, block_count: u32)
        requires
            old(self).wf(),
            users_of(old(self).uses@, data_block, block_count) < u64::MAX,
        ensures
            final(self).wf(),
            final(self).extents == old(self).extents,
            forall|d: u32, b: u32|
                #![trigger users_of(final(self).uses@, d, b)]
                users_of(final(self).uses@, d, b) == users_of(old(self).uses@, d, b) + if d
                    == data_block && b == block_count {
                    1nat
                } else {
                    0
                },
    {
        let ghost before = self.uses@;
        match self.find_use(data_block, block_count) {
            Some(k) => {
                proof {
                    lemma_users_at(before, k as int);
                }
                let users: u64 = self.uses[k].users + 1;
                self.uses.set(k, ExtentUse { data_block, block_count, users });
                proof {
                    assert(self.uses@ =~= before.update(
                        k as int,
                        ExtentUse { users, ..before[k as int] },
                    ));
                    assert forall|d: u32, b: u32|
                        #![trigger users_of(self.uses@, d, b)]
                        users_of(self.uses@, d, b) == users_of(before, d, b) + if d == data_block
                            && b == block_count {
                            1nat
                        } else {
                            0
                        } by {
                        lemma_users_update(before, k as int, users, d, b);
                    }
                    lemma_users_update(before, k as int, users, data_block, block_count);
                }
            },
            None => {
                proof {
                    lemma_users_none(before, data_block, block_count);
                }
                self.uses.push(ExtentUse { data_block, block_count, users: 1 });
                proof {
                    assert(self.uses@.drop_last() =~= before);
                    assert forall|i: int, j: int|
                        #![trigger self.uses@[i], self.uses@[j]]
                        0 <= i < j < self.uses@.len() implies !(self.uses@[i].data_block
                        == self.uses@[j].data_block && self.uses@[i].block_count
                        == self.uses@[j].block_count) by {
                        assert(self.uses@[i] == before[i]);
                        if j < before.len() {
                            assert(self.uses@[j] == before[j]);
                        }
                    }
                }
            },
        }
    }

    /// Counts one user of an extent less. Says whether its blocks become free: they do
    /// with the last user, and where nobody was counted.
    pub fn release(&mut self, data_block: u32, block_count: u32) -> (free: bool)
        requires
            old(self).wf(),
        ensures
            final(self).wf(),
            free == (users_of(old(self).uses@, data_block, block_count) <= 1),
            forall|d: u32, b: u32|
                #![trigger users_of(final(self).uses@, d, b)]
                users_of(final(self).uses@, d, b) == if d == data_block && b == block_count {
                    if free {
                        0nat
                    } else {
                        (users_of(old(self).uses@, d, b) - 1) as nat
                    }
                } else {
                    users_of(old(self).uses@, d, b)
                },
            final(self).extents@ == if free {
                without_extent(old(self).extents@, data_block, block_count)
            } else {
                old(self).extents@
            },
    {
        let ghost before = self.uses@;
        match self.find_use(data_block, block_count) {
            Some(k) => {
                proof {
                    lemma_users_at(before, k as int);
                    assert forall|d: u32, b: u32|
                        #![trigger users_of(before, d, b)]
                        d == data_block && b == block_count implies users_of(before, d, b)
                        == before[k as int].users by {}
                }
                let users: u64 = self.uses[k].users;
                let left: u64 = if users == 0 {
                    0
                } else {
                    users - 1
                };
                self.uses.set(k, ExtentUse { data_block, block_count, users: left });
                proof {
                    assert(self.uses@ =~= before.update(
                        k as int,
                        ExtentUse { users: left, ..before[k as int] },
                    ));
                    assert forall|d: u32, b: u32|
                        #![trigger users_of(self.uses@, d, b)]
                        users_of(self.uses@, d, b) == if d == data_block && b == block_count {
                            left as nat
                        } else {
                            users_of(before, d, b)
                        } by {
                        lemma_users_update(before, k as int, left, d, b);
                    }
                    lemma_users_update(before, k as int, left, data_block, block_count);
                }
                if left == 0 {
                    self.forget(data_block, block_count);
                    return true;
                }
                false
            },
            None => {
                proof {
                    lemma_users_none(before, data_block, block_count);
                }
                self.forget(data_block, block_count);
                true
            },
        }
    }

    /// Forgets the contents of an extent.
    fn forget(&mut self, data_block: u32, block_count: u32)
        ensures
            final(self).uses == old(self).uses,
            final(self).extents@ == without_extent(old(self).extents@, data_block, block_count),
    {
        let mut kept: Vec<PooledExtent> = Vec::new();
        let mut k: usize = 0;
        while k < self.extents.len()
            invariant
                *self == *old(self),
                k <= self.extents@.len(),
                kept@ == without_extent(self.extents@.take(k as int), data_block, block_count),
            decreases self.extents@.len() - k,
        {
            proof {
                let head = self.extents@.take(k + 1);
                assert(head.drop_last() =~= self.extents@.take(k as int));
                assert(head.last() == self.extents@[k as int]);
            }
            let e = self.extents[k];
            if !(e.data_block == data_block && e.block_count == block_count) {
                kept.push(e);
            }
            k = k + 1;
        }
        assert(self.extents@.take(k as int) =~= self.extents@);
        self.extents = kept;
    }
}

/// Whether an extent's blocks start with these contents.
pub open spec fn extent_holds<D: BlockDevice>(
    device: D,
    data_block: int,
    block_count: int,
    contents: Seq<u8>,
) -> core::result::Result<bool, Error> {
    if block_count == 0 {
        Ok(contents.len() == 0)
    } else if block_count * 512 > usize::MAX {
        Err(Error::OutOfMemory)
    } else {
        match volume_read(device, data_block, block_count * 512) {
            Err(e) => Err(e),
            Ok(data) => Ok(
                contents.len() <= block_count * 512 && data.take(contents.len() as int) == contents,
            ),
        }
    }
}

/// Whether an extent's blocks start with these contents.
pub fn extent_content_matches<D: BlockDevice>(
    device: &D,
    data_block: u32,
    block_count: u32,
    contents: &[u8],
) -> (r: Result<bool>)
    ensures
        r == extent_holds(*device, data_block as int, block_count as int, contents@),
{
    if block_count == 0 {
        return Ok(contents.len() == 0);
    }
    let span: u64 = block_count as u64 * 512;
    if span > usize::MAX as u64 {
        return Err(Error::OutOfMemory);
    }
    let extent = cached_read_blocks(device, data_block as u64, span as usize)?;
    if contents.len() > extent.len() {
        return Ok(false);
    }
    let head = copy_range(extent.as_slice(), 0, contents.len());
    assert(head@ =~= extent@.take(contents@.len() as int));
    Ok(bytes_eq(head.as_slice(), contents))
}

/// The first pooled extent from `k` on with exactly these contents.
pub open spec fn shareable<D: BlockDevice>(
    device: D,
    extents: Seq<PooledExtent>,
    hash: u64,
    contents: Seq<u8>,
    k: int,
) -> core::result::Result<Option<int>, Error>
    decreases extents.len() - k,
{
    if k >= extents.len() {
        Ok(None)
    } else if extents[k].hash != hash || extents[k].size != contents.len() {
        shareable(device, extents, hash, contents, k + 1)
    } else {
        match extent_holds(
            device,
            extents[k].data_block as int,
            extents[k].block_count as int,
            contents,
        ) {
            Err(e) => Err(e),
            Ok(true) => Ok(Some(k)),
            Ok(false) => shareable(device, extents, hash, contents, k + 1),
        }
    }
}

/// What to do with a file's extent after its contents changed.
#[derive(Debug, Clone, Copy, PartialEq, Eq, Structural)]
pub enum DedupChoice {
    /// Point the file at this extent instead of its own.
    Share { data_block: u32, block_count: u32 },
    /// Pool the file's own extent.
    Pool,
    /// The file has no extent.
    Nothing,
}

impl DedupPool {
    /// Decides whether a file can share a pooled extent with the same contents, or adds
    /// its own extent to the pool.
    pub fn dedup_share_or_pool<D: BlockDevice>(
        &mut self,
        device: &D,
        inode: OnDiskInode,
        contents: &[u8],
    ) -> (r: Result<DedupChoice>)
        requires
            old(self).wf(),
            forall|d: u32, b: u32|
                #![trigger users_of(old(self).uses@, d, b)]
                users_of(old(self).uses@, d, b) < u64::MAX,
        ensures
            final(self).wf(),
            ({
                let hash = content_hash_of(contents@);
                match shareable(*device, old(self).extents@, hash, contents@, 0) {
                    Err(e) => r == Err::<DedupChoice, Error>(e) && *final(self) == *old(self),
                    Ok(Some(k)) => {
                        let e = old(self).extents@[k];
                        &&& r == Ok::<DedupChoice, Error>(
                            DedupChoice::Share {
                                data_block: e.data_block,
                                block_count: e.block_count,
                            },
                        )
                        &&& final(self).extents@ == old(self).extents@
                        &&& forall|d: u32, b: u32|
                            #![trigger users_of(final(self).uses@, d, b)]
                            users_of(final(self).uses@, d, b) == users_of(old(self).uses@, d, b)
                                + if d == e.data_block && b == e.block_count {
                                1nat
                            } else {
                                0
                            }
                    },
                    Ok(None) => if inode.block_count == 0 {
                        r == Ok::<DedupChoice, Error>(DedupChoice::Nothing) && *final(self) == *old(
                            self,
                        )
                    } else {
                        let e = PooledExtent {
                            hash,
                            data_block: inode.data_block,
                            block_count: inode.block_count,
                            size: inode.size,
                        };
                        &&& r == Ok::<DedupChoice, Error>(DedupChoice::Pool)
                        &&& final(self).extents@ == if old(self).extents@.contains(e) {
                            old(self).extents@
                        } else {
                            old(self).extents@.push(e)
                        }
                        &&& forall|d: u32, b: u32|
                            #![trigger users_of(final(self).uses@, d, b)]
                            users_of(final(self).uses@, d, b) == users_of(old(self).uses@, d, b)
                                + if d == e.data_block && b == e.block_count {
                                1nat
                            } else {
                                0
                            }
                    },
                }
            }),
    {
        let hash = content_hash(contents);
        let ghost pooled = self.extents@;
        let mut k: usize = 0;
        while k < self.extents.len()
            invariant
                *self == *old(self),
                self.wf(),
                pooled == self.extents@,
                k <= pooled.len(),
                hash == content_hash_of(contents@),
                forall|d: u32, b: u32|
                    #![trigger users_of(self.uses@, d, b)]
                    users_of(self.uses@, d, b) < u64::MAX,
                shareable(*device, pooled, hash, contents@, 0) == shareable(
                    *device,
                    pooled,
                    hash,
                    contents@,
                    k as int,
                ),
            decreases pooled.len() - k,
        {
            let e = self.extents[k];
            if e.hash == hash && e.size as u64 == contents.len() as u64 {
                if extent_content_matches(device, e.data_block, e.block_count, contents)? {
                    self.acquire(e.data_block, e.block_count);
                    return Ok(
                        DedupChoice::Share {
                            data_block: e.data_block,
                            block_count: e.block_count,
                        },
                    );
                }
            }
            k = k + 1;
        }
        if inode.block_count == 0 {
            return Ok(DedupChoice::Nothing);
        }
        let entry = PooledExtent {
            hash,
            data_block: inode.data_block,
            block_count: inode.block_count,
            size: inode.size,
        };
        let mut known: bool = false;
        let mut j: usize = 0;
        while j < self.extents.len()
            invariant
                *self == *old(self),
                pooled == self.extents@,
                j <= pooled.len(),
                known == exists|i: int| 0 <= i < j && pooled[i] == entry,
            decreases pooled.len() - j,
        {
            if self.extents[j] == entry {
                known = true;
                assert(pooled[j as int] == entry);
            }
            j = j + 1;
        }
        assert(known == pooled.contains(entry));
        self.acquire(inode.data_block, inode.block_count);
        if !known {
            self.extents.push(entry);
        }
        Ok(DedupChoice::Pool)
    }
}

} // verus!
