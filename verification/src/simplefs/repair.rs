//! Checking a mounted volume and putting right what a crash left behind.
use vstd::prelude::*;
use vstd::string::*;

use crate::block::{BLOCK_SIZE, BlockDevice};
use crate::bytes::{zero_vec, zeros};
use crate::error::Error;
use crate::simplefs::commit::writable;
use crate::simplefs::create::lemma_lookup_live;
use crate::simplefs::file_write::only_device_differs;
use crate::simplefs::lookup::lookup;
use crate::simplefs::remove_tree::recursive_removal_outcome;
use crate::simplefs::state::{RestView, TreeView};
use crate::simplefs::tree::VolumeGeometry;
use crate::simplefs::types::OnDiskInode;
use crate::simplefs::validate::{block_referenced, high_water, live_dir, orphans_below, referenced_blocks, slice_end};
use crate::simplefs::volume::{SimpleFs, same_device};
use crate::text::{join3, str_eq, texts};
use crate::vfs::NodeKind;

verus! {

/// Whether one removal leads from `a` to `b`, after `before` and with now `cleaned`
/// successful ones.
pub open spec fn removal_step<D: BlockDevice>(
    a: SimpleFs<D>,
    b: SimpleFs<D>,
    path: Seq<char>,
    before: nat,
    cleaned: nat,
    r: core::result::Result<(), Error>,
) -> bool {
    &&& a.wf()
    &&& recursive_removal_outcome(a, b, path, r)
    &&& cleaned == before + (if r is Ok {
        1nat
    } else {
        0
    })
}

/// Whether removing `paths` one after the other leads from `a` to `b`, with `cleaned`
/// of the removals succeeding.
pub open spec fn removals<D: BlockDevice>(
    a: SimpleFs<D>,
    b: SimpleFs<D>,
    paths: Seq<Seq<char>>,
    cleaned: nat,
) -> bool
    decreases paths.len(),
{
    if paths.len() == 0 {
        b == a && cleaned == 0
    } else {
        exists|m: SimpleFs<D>, before: nat, r: core::result::Result<(), Error>|
            #![trigger removal_step(m, b, paths.last(), before, cleaned, r)]
            removals(a, m, paths.drop_last(), before) && removal_step(
                m,
                b,
                paths.last(),
                before,
                cleaned,
                r,
            )
    }
}

/// One more removal.
proof fn lemma_removals_step<D: BlockDevice>(
    a: SimpleFs<D>,
    m: SimpleFs<D>,
    b: SimpleFs<D>,
    paths: Seq<Seq<char>>,
    k: int,
    before: nat,
    r: core::result::Result<(), Error>,
)
    requires
        0 <= k < paths.len(),
        removals(a, m, paths.take(k), before),
        m.wf(),
        recursive_removal_outcome(m, b, paths[k], r),
        m.geometry == a.geometry,
        same_device(a.device, m.device),
    ensures
        removals(a, b, paths.take(k + 1), before + (if r is Ok {
            1nat
        } else {
            0
        })),
        b.geometry == a.geometry,
        same_device(a.device, b.device),
{
    reveal(recursive_removal_outcome);
    let next = paths.take(k + 1);
    assert(next.drop_last() =~= paths.take(k));
    assert(next.last() == paths[k]);
    assert(removals(a, m, next.drop_last(), before));
    assert(removal_step(m, b, next.last(), before, before + (if r is Ok {
        1nat
    } else {
        0
    }), r));
}

/// The paths of everything in a staging directory; none where there is no such
/// directory.
pub open spec fn staged_under(t: TreeView, g: VolumeGeometry, root: Seq<char>) -> Seq<Seq<char>> {
    match lookup(t, root, g.case_sensitive) {
        Ok(i) if t.inodes[i].kind == NodeKind::Directory => Seq::new(
            t.inodes[i].entry_count as nat,
            |k: int| root + "/"@ + t.entries[t.inodes[i].entry_start + k].name,
        ),
        _ => Seq::empty(),
    }
}

/// The paths of everything in the registered staging directories.
pub open spec fn staged_paths(t: TreeView, g: VolumeGeometry, roots: Seq<Seq<char>>) -> Seq<
    Seq<char>,
>
    decreases roots.len(),
{
    if roots.len() == 0 {
        Seq::empty()
    } else {
        staged_paths(t, g, roots.drop_last()) + staged_under(t, g, roots.last())
    }
}

impl<D: BlockDevice> SimpleFs<D> {
    /// Remembers a staging directory, so that a check clears what was left in it.
    pub fn register_staging_root(&mut self, path: &str)
        ensures
            final(self).geometry == old(self).geometry,
            final(self).device == old(self).device,
            final(self).state.tree() == old(self).state.tree(),
            final(self).state.rest() == (RestView {
                staging: if old(self).state.rest().staging.contains(path@) {
                    old(self).state.rest().staging
                } else {
                    old(self).state.rest().staging.push(path@)
                },
                ..old(self).state.rest()
            }),
    {
        let ghost roots = self.state.rest().staging;
        let mut k: usize = 0;
        while k < self.state.staging_roots.len()
            invariant
                *self == *old(self),
                roots == self.state.rest().staging,
                k <= self.state.staging_roots@.len(),
                forall|j: int| 0 <= j < k ==> roots[j] != path@,
            decreases self.state.staging_roots@.len() - k,
        {
            if str_eq(self.state.staging_roots[k].as_str(), path) {
                assert(roots[k as int] == path@);
                return;
            }
            k = k + 1;
        }
        self.state.staging_roots.push(path.to_owned());
        proof {
            assert(self.state.rest().staging =~= roots.push(path@));
            assert(self.state.tree() == old(self).state.tree());
        }
    }

    /// The paths of everything in the registered staging directories.
    fn collect_staged(&self) -> (r: Vec<String>)
        requires
            self.wf(),
        ensures
            texts(r@) == staged_paths(
                self.state.tree(),
                self.geometry,
                self.state.rest().staging,
            ),
    {
        let ghost t = self.state.tree();
        let ghost g = self.geometry;
        let ghost roots = self.state.rest().staging;
        let ghost blocks = (self.device.image().len() / 512) as int;
        let mut out: Vec<String> = Vec::new();
        let mut k: usize = 0;
        assert(texts(out@) =~= staged_paths(t, g, roots.take(0)));
        while k < self.state.staging_roots.len()
            invariant
                self.wf(),
                t == self.state.tree(),
                g == self.geometry,
                roots == self.state.rest().staging,
                blocks == (self.device.image().len() / 512) as int,
                k <= self.state.staging_roots@.len(),
                texts(out@) == staged_paths(t, g, roots.take(k as int)),
            decreases self.state.staging_roots@.len() - k,
        {
            let ghost before = texts(out@);
            let root = self.state.staging_roots[k].as_str();
            proof {
                assert(roots.take(k + 1).drop_last() =~= roots.take(k as int));
                assert(roots.take(k + 1).last() == root@);
                lemma_lookup_live(t, g, blocks, root@);
            }
            match self.geometry.lookup_index_locked(&self.state, root) {
                Ok(index) => {
                    let inode = self.state.inodes[index];
                    assert(inode == t.inodes[index as int]);
                    if matches!(inode.kind, NodeKind::Directory) {
                        assert(live_dir(t.inodes[index as int]));
                        assert(slice_end(inode) <= t.entries.len());
                        let ghost under = staged_under(t, g, root@);
                        let mut e: u32 = 0;
                        assert(before + under.take(0) =~= before);
                        while e < inode.entry_count
                            invariant
                                t == self.state.tree(),
                                g == self.geometry,
                                inode == t.inodes[index as int],
                                slice_end(inode) <= t.entries.len(),
                                e <= inode.entry_count,
                                under == staged_under(t, g, root@),
                                lookup(t, root@, g.case_sensitive) == Ok::<int, Error>(
                                    index as int,
                                ),
                                inode.kind == NodeKind::Directory,
                                texts(out@) == before + under.take(e as int),
                            decreases inode.entry_count - e,
                        {
                            assert(t.entries.len() == self.state.dir_entries@.len());
                            let _count: usize = self.state.dir_entries.len();
                            let d: usize = (inode.entry_start as u64 + e as u64) as usize;
                            assert(self.state.dir_entries@[d as int]@ == t.entries[d as int]);
                            let ghost so_far = texts(out@);
                            let path = join3(root, "/", self.state.dir_entries[d].name.as_str());
                            assert(path@ == under[e as int]);
                            out.push(path);
                            assert(texts(out@) =~= so_far.push(path@));
                            assert(under.take(e + 1) =~= under.take(e as int).push(path@));
                            assert(before + under.take(e + 1) =~= (before + under.take(
                                e as int,
                            )).push(path@));
                            e = e + 1;
                        }
                        assert(under.take(e as int) =~= under);
                    } else {
                        assert(before + staged_under(t, g, root@) =~= before);
                    }
                },
                Err(_) => {
                    assert(before + staged_under(t, g, root@) =~= before);
                },
            }
            k = k + 1;
        }
        assert(roots.take(k as int) =~= roots);
        out
    }

    /// Removes everything in the registered staging directories, as far as that
    /// succeeds.
    pub fn cleanup_staging_orphans_locked(&mut self) -> (cleaned: usize)
        requires
            old(self).wf(),
        ensures
            final(self).wf(),
            final(self).geometry == old(self).geometry,
            same_device(old(self).device, final(self).device),
            removals(
                *old(self),
                *final(self),
                staged_paths(
                    old(self).state.tree(),
                    old(self).geometry,
                    old(self).state.rest().staging,
                ),
                cleaned as nat,
            ),
    {
        let paths = self.collect_staged();
        let ghost all = texts(paths@);
        let ghost a = *self;
        let mut cleaned: usize = 0;
        let mut k: usize = 0;
        while k < paths.len()
            invariant
                self.wf(),
                a.wf(),
                self.geometry == a.geometry,
                same_device(a.device, self.device),
                all == texts(paths@),
                k <= paths@.len(),
                cleaned <= k,
                removals(a, *self, all.take(k as int), cleaned as nat),
            decreases paths@.len() - k,
        {
            let ghost m = *self;
            let ghost before = cleaned as nat;
            let r = self.remove_path_recursive(paths[k].as_str());
            proof {
                lemma_removals_step(a, m, *self, all, k as int, before, r);
            }
            if r.is_ok() {
                cleaned = cleaned + 1;
            }
            k = k + 1;
        }
        assert(all.take(k as int) =~= all);
        cleaned
    }
}

// ── Data blocks nothing refers to ──

/// Whether a block below the high-water mark is claimed by no inode in use.
pub open spec fn is_orphan(inodes: Seq<OnDiskInode>, b: int, data_start: int, total: int) -> bool {
    &&& data_start <= b < high_water(inodes, data_start)
    &&& !block_referenced(inodes, b, data_start, total)
}

/// The number of blocks below the high-water mark that no inode in use claims.
pub open spec fn orphan_count<D: BlockDevice>(fs: SimpleFs<D>, inodes: Seq<OnDiskInode>) -> nat {
    orphans_below(
        inodes,
        fs.geometry.data_block_start as int,
        (fs.device.image().len() / 512) as int,
        high_water(inodes, fs.geometry.data_block_start as int),
    )
}

/// What clearing the blocks that nothing refers to does: `zeroed` of them are cleared,
/// all of them where the device works and holds them, and nothing else is touched.
pub open spec fn zeroing<D: BlockDevice>(
    a: SimpleFs<D>,
    b: SimpleFs<D>,
    inodes: Seq<OnDiskInode>,
    zeroed: nat,
) -> bool {
    let start = a.geometry.data_block_start as int;
    let total = (a.device.image().len() / 512) as int;
    &&& only_device_differs(a, b)
    &&& zeroed <= orphan_count(a, inodes)
    &&& forall|i: int|
        #![trigger b.device.image()[i]]
        0 <= i < a.device.image().len() && !is_orphan(inodes, i / 512, start, total)
            ==> b.device.image()[i] == a.device.image()[i]
    &&& writable(a.device) && high_water(inodes, start) <= total ==> zeroed == orphan_count(
        a,
        inodes,
    ) && forall|i: int|
        #![trigger b.device.image()[i]]
        0 <= i < a.device.image().len() && is_orphan(inodes, i / 512, start, total)
            ==> b.device.image()[i] == 0
}

impl<D: BlockDevice> SimpleFs<D> {
    /// Clears the blocks that none of `inodes` refers to, so that stale contents cannot
    /// be recovered from them.
    pub fn cleanup_orphan_data_blocks_locked(&mut self, inodes: &Vec<OnDiskInode>) -> (zeroed: usize)
        requires
            high_water(inodes@, old(self).geometry.data_block_start as int) <= usize::MAX,
        ensures
            zeroing(*old(self), *final(self), inodes@, zeroed as nat),
    {
        let ghost a = *self;
        let start: u32 = self.geometry.data_block_start;
        let total: u64 = self.device.block_count();
        let ghost high = high_water(inodes@, start as int);
        let referenced = referenced_blocks(inodes.as_slice(), start, total);
        let zero_block = zero_vec(BLOCK_SIZE);
        let mut zeroed: usize = 0;
        let mut k: usize = 0;
        while k < referenced.len()
            invariant
                a.geometry.data_block_start == start,
                total == a.device.image().len() / 512,
                high == high_water(inodes@, start as int),
                high <= usize::MAX,
                referenced@.len() == high - start,
                forall|j: int|
                    #![trigger referenced@[j]]
                    0 <= j < referenced@.len() ==> referenced@[j] == block_referenced(
                        inodes@,
                        start + j,
                        start as int,
                        total as int,
                    ),
                zero_block@ == zeros(512),
                k <= referenced@.len(),
                zeroed <= k,
                only_device_differs(a, *self),
                zeroed <= orphans_below(inodes@, start as int, total as int, start + k),
                forall|i: int|
                    #![trigger self.device.image()[i]]
                    0 <= i < a.device.image().len() && !is_orphan(
                        inodes@,
                        i / 512,
                        start as int,
                        total as int,
                    ) ==> self.device.image()[i] == a.device.image()[i],
                writable(a.device) && high <= total ==> writable(self.device) && zeroed
                    == orphans_below(inodes@, start as int, total as int, start + k)
                    && forall|i: int|
                    #![trigger self.device.image()[i]]
                    0 <= i < a.device.image().len() && i / 512 < start + k && is_orphan(
                        inodes@,
                        i / 512,
                        start as int,
                        total as int,
                    ) ==> self.device.image()[i] == 0,
            decreases referenced@.len() - k,
        {
            if !referenced[k] {
                let lba: u64 = start as u64 + k as u64;
                let ghost before = *self;
                proof {
                    if writable(self.device) && high <= total {
                        self.device.lemma_reliable_write(lba as int, zero_block@);
                    }
                    assert(is_orphan(inodes@, lba as int, start as int, total as int));
                }
                if self.device.write_blocks(lba, zero_block.as_slice()).is_ok() {
                    zeroed = zeroed + 1;
                }
                proof {
                    assert forall|i: int|
                        #![trigger self.device.image()[i]]
                        0 <= i < a.device.image().len() && !is_orphan(
                            inodes@,
                            i / 512,
                            start as int,
                            total as int,
                        ) implies self.device.image()[i] == a.device.image()[i] by {
                        assert(i / 512 != lba);
                        assert(before.device.image()[i] == a.device.image()[i]);
                    }
                }
            }
            k = k + 1;
        }
        zeroed
    }
}

} // verus!
