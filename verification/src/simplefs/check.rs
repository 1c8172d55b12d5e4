//! The check a volume goes through after it is mounted.
use vstd::prelude::*;

use crate::block::BlockDevice;
use crate::error::{Error, Result};
use crate::simplefs::extents::{Extent, free_is_rest, rebuild_free_data_extents};
use crate::simplefs::health::{checksum_failures, commit_pending, is_health};
use crate::simplefs::remove::lemma_shape_ignores_free;
use crate::simplefs::repair::{orphan_count, removals, staged_paths, zeroing};
use crate::simplefs::settle::{same_nodes, settled};
use crate::simplefs::state::undo_kept;
use crate::simplefs::tree_steps::{lemma_kept_trans, lemma_kept_way_back};
use crate::simplefs::types::{RuntimeHealthSnapshot, mismatch};
use crate::simplefs::undo::copy_vec;
use crate::simplefs::validate::{extent_ok, high_water, owns_extent};
use crate::simplefs::volume::SimpleFs;
use crate::vfs::VolumeCheckReport;

verus! {

/// Mirrors that disagree with the mounted volume, and those that announce a commit
/// where the format has the marker.
pub open spec fn interrupted_commits<D: BlockDevice>(
    fs: SimpleFs<D>,
    health: RuntimeHealthSnapshot,
) -> nat {
    mismatch(health.primary_superblock_matches) + mismatch(health.secondary_superblock_matches)
        + if fs.geometry.format_version.stores_security() {
        mismatch(!commit_pending(fs.device, 0)) + mismatch(!commit_pending(fs.device, 1))
    } else {
        0
    }
}

/// What a check reports.
pub open spec fn check_report(
    found: RuntimeHealthSnapshot,
    left: RuntimeHealthSnapshot,
    orphans: nat,
    failures: nat,
    cleaned: nat,
    zeroed: nat,
    interrupted: nat,
) -> VolumeCheckReport {
    VolumeCheckReport {
        issues_detected: (found.issues() + orphans + failures) as usize,
        repairs_applied: (if found.issues() >= left.issues() {
            found.issues() - left.issues()
        } else {
            0
        }) as usize,
        orphan_data_blocks: orphans as usize,
        checksum_failures: failures as usize,
        staging_orphans_cleaned: cleaned as usize,
        orphan_blocks_cleaned: zeroed as usize,
        interrupted_commits: interrupted as usize,
    }
}

/// Whether a commit without a change leads from `a` to `b`.
pub open spec fn republished<D: BlockDevice>(
    a: SimpleFs<D>,
    b: SimpleFs<D>,
    r: core::result::Result<(), Error>,
) -> bool {
    settled(a, a.device.image(), a.state.tree(), b, r)
}

/// What up to `tries` commits without a change come to: they stop once every copy on
/// the device agrees with the mounted volume.
pub open spec fn republishing<D: BlockDevice>(
    a: SimpleFs<D>,
    b: SimpleFs<D>,
    tries: nat,
    r: core::result::Result<RuntimeHealthSnapshot, Error>,
) -> bool
    decreases tries,
{
    if tries == 0 {
        r == Err::<RuntimeHealthSnapshot, Error>(Error::InternalError) && b == a
    } else {
        exists|m: SimpleFs<D>, done: core::result::Result<(), Error>|
            #![trigger republished(a, m, done)]
            republished(a, m, done) && m.wf() && match done {
                Err(e) => r == Err::<RuntimeHealthSnapshot, Error>(e) && b == m,
                Ok(()) => exists|h: RuntimeHealthSnapshot| #[trigger]
                    is_health(m, h) && if h.issues() == 0 {
                        r == Ok::<RuntimeHealthSnapshot, Error>(h) && b == m
                    } else {
                        republishing(m, b, (tries - 1) as nat, r)
                    },
            }
    }
}

/// The first part of a check: what it finds, and what it cleans up.
pub open spec fn cleanup_steps<D: BlockDevice>(
    a: SimpleFs<D>,
    health: RuntimeHealthSnapshot,
    m: SimpleFs<D>,
    cleaned: nat,
    c: SimpleFs<D>,
    zeroed: nat,
) -> bool {
    is_health(a, health) && cleaned_up(a, m, cleaned, c, zeroed)
}

/// Whether cleaning up leads from `a` to `c`: first the staging directories, then the
/// blocks that nothing refers to.
pub open spec fn cleaned_up<D: BlockDevice>(
    a: SimpleFs<D>,
    m: SimpleFs<D>,
    cleaned: nat,
    c: SimpleFs<D>,
    zeroed: nat,
) -> bool {
    let inodes = a.state.tree().inodes;
    &&& removals(a, m, staged_paths(a.state.tree(), a.geometry, a.state.rest().staging), cleaned)
    &&& if orphan_count(a, inodes) > 0 {
        zeroing(m, c, inodes, zeroed)
    } else {
        c == m && zeroed == 0
    }
}

/// What a check does after its cleanup left the volume as `c`, and what it answers.
pub open spec fn check_end<D: BlockDevice>(
    a: SimpleFs<D>,
    health: RuntimeHealthSnapshot,
    cleaned: nat,
    c: SimpleFs<D>,
    zeroed: nat,
    b: SimpleFs<D>,
    r: core::result::Result<VolumeCheckReport, Error>,
) -> bool {
    let orphans = orphan_count(a, a.state.tree().inodes);
    let failures = checksum_failures(a.device, a.state.tree().inodes);
    let interrupted = interrupted_commits(c, health);
    if health.issues() == 0 {
        &&& r == Ok::<VolumeCheckReport, Error>(
            check_report(health, health, orphans, failures, cleaned, zeroed, interrupted),
        )
        &&& b.geometry == c.geometry
        &&& b.device == c.device
        &&& same_nodes(c.state.tree(), b.state.tree())
        &&& b.state.rest() == c.state.rest()
    } else {
        exists|end: core::result::Result<RuntimeHealthSnapshot, Error>| #[trigger]
            republishing(c, b, 2, end) && match end {
                Err(e) => r == Err::<VolumeCheckReport, Error>(e),
                Ok(left) => r == Ok::<VolumeCheckReport, Error>(
                    check_report(health, left, orphans, failures, cleaned, zeroed, interrupted),
                ),
            }
    }
}

/// What a check does, and what it answers.
pub open spec fn check_outcome<D: BlockDevice>(
    a: SimpleFs<D>,
    b: SimpleFs<D>,
    r: core::result::Result<VolumeCheckReport, Error>,
) -> bool {
    exists|
        health: RuntimeHealthSnapshot,
        m: SimpleFs<D>,
        cleaned: nat,
        c: SimpleFs<D>,
        zeroed: nat,
    |
        #![trigger cleanup_steps(a, health, m, cleaned, c, zeroed)]
        cleanup_steps(a, health, m, cleaned, c, zeroed) && check_end(
            a,
            health,
            cleaned,
            c,
            zeroed,
            b,
            r,
        )
}

impl<D: BlockDevice> SimpleFs<D> {
    /// The free list as the inodes leave it.
    fn fresh_free_list(&self) -> (list: Vec<Extent>)
        requires
            self.txn_ok(),
        ensures
            free_is_rest(
                list@,
                self.state.tree().inodes,
                self.geometry.data_block_start as int,
                self.geometry.block_limit as int,
            ),
    {
        proof {
            let t = self.state.tree();
            let blocks = (self.device.image().len() / 512) as int;
            assert forall|i: int|
                #![trigger self.state.inodes@[i]]
                0 <= i < self.state.inodes@.len() && owns_extent(self.state.inodes@[i]) implies
                self.geometry.data_block_start <= self.state.inodes@[i].data_block by {
                assert(extent_ok(t.inodes[i], self.geometry.data_block_start as int, blocks));
            }
        }
        rebuild_free_data_extents(
            self.state.inodes.as_slice(),
            self.geometry.data_block_start as u64,
            self.geometry.block_limit,
        )
    }

    /// Rebuilds the free list from the inodes within a transaction.
    fn rebuild_free_list(&mut self)
        requires
            old(self).txn_ok(),
        ensures
            final(self).txn_ok(),
            final(self).geometry == old(self).geometry,
            final(self).device == old(self).device,
            final(self).state.rest() == old(self).state.rest(),
            undo_kept(old(self).state, final(self).state),
            same_nodes(old(self).state.tree(), final(self).state.tree()),
    {
        let list = self.fresh_free_list();
        self.state.save_free_extents_for_undo();
        let ghost mid = self.state;
        self.state.free_data_extents = list;
        proof {
            lemma_kept_trans(old(self).state, mid, self.state);
            lemma_kept_way_back(old(self).state, self.state);
            lemma_shape_ignores_free(
                old(self).state.tree(),
                self.state.tree(),
                self.geometry,
                (self.device.image().len() / 512) as int,
                None,
            );
        }
    }

    /// Commits the mounted volume as it is.
    fn republish(&mut self) -> (r: Result<()>)
        requires
            old(self).wf(),
        ensures
            final(self).wf(),
            republished(*old(self), *final(self), r),
    {
        let ghost a = *self;
        self.begin();
        self.rebuild_free_list();
        self.settle(Ok(()), Ghost(a))
    }

    /// Commits the mounted volume as it is until every copy on the device agrees with
    /// it, twice at most.
    fn republish_until_clean(&mut self, tries: u32) -> (r: Result<RuntimeHealthSnapshot>)
        requires
            old(self).wf(),
        ensures
            final(self).wf(),
            republishing(*old(self), *final(self), tries as nat, r),
        decreases tries,
    {
        if tries == 0 {
            return Err(Error::InternalError);
        }
        let ghost a = *self;
        let done = self.republish();
        let ghost m = *self;
        assert(republished(a, m, done));
        match done {
            Ok(()) => {},
            Err(error) => {
                return Err(error);
            },
        }
        let health = self.inspect_runtime_health();
        assert(is_health(m, health));
        if health.is_clean() {
            return Ok(health);
        }
        self.republish_until_clean(tries - 1)
    }

    /// Rebuilds the free list of a mounted volume.
    fn refresh_free_list(&mut self)
        requires
            old(self).wf(),
        ensures
            final(self).wf(),
            final(self).geometry == old(self).geometry,
            final(self).device == old(self).device,
            final(self).state.rest() == old(self).state.rest(),
            same_nodes(old(self).state.tree(), final(self).state.tree()),
    {
        let ghost a = *self;
        self.begin();
        self.rebuild_free_list();
        self.state.commit_undo();
    }

    /// Removes what was left in staging directories and clears blocks that nothing
    /// refers to.
    fn clean_up(&mut self, orphans: usize) -> (r: (usize, usize))
        requires
            old(self).wf(),
            orphans == orphan_count(*old(self), old(self).state.tree().inodes),
            high_water(
                old(self).state.tree().inodes,
                old(self).geometry.data_block_start as int,
            ) <= usize::MAX,
        ensures
            final(self).wf(),
            final(self).geometry == old(self).geometry,
            exists|m: SimpleFs<D>| #[trigger]
                cleaned_up(*old(self), m, r.0 as nat, *final(self), r.1 as nat),
    {
        let snapshot = copy_vec(&self.state.inodes);
        let ghost inodes = self.state.tree().inodes;
        assert(snapshot@ == inodes);
        let ghost a = *self;
        let cleaned = self.cleanup_staging_orphans_locked();
        let ghost m = *self;
        let zeroed: usize = if orphans > 0 {
            self.cleanup_orphan_data_blocks_locked(&snapshot)
        } else {
            0
        };
        let r: (usize, usize) = (cleaned, zeroed);
        assert(cleaned_up(*old(self), m, r.0 as nat, *self, r.1 as nat));
        r
    }

    /// Mirrors that disagree with the mounted volume or announce a commit.
    fn count_interrupted(&self, health: RuntimeHealthSnapshot) -> (r: usize)
        ensures
            r == interrupted_commits(*self, health),
    {
        let mut interrupted: usize = 0;
        if !health.primary_superblock_matches {
            interrupted = interrupted + 1;
        }
        if !health.secondary_superblock_matches {
            interrupted = interrupted + 1;
        }
        if self.geometry.format_version.persistent_security_descriptor_layout().is_some() {
            interrupted = interrupted + self.count_pending_commit_on_disk();
        }
        interrupted
    }

    /// Checks a mounted volume: reports what is wrong with it, removes what was left
    /// in staging directories, clears blocks that nothing refers to, and commits the
    /// volume anew where a copy of its metadata is stale or torn.
    pub fn check_and_repair(&mut self) -> (r: Result<VolumeCheckReport>)
        requires
            old(self).wf(),
            old(self).countable(),
        ensures
            final(self).wf(),
            check_outcome(*old(self), *final(self), r),
    {
        let ghost a = *self;
        self.validate_runtime_state()?;
        let health = self.inspect_runtime_health();
        let orphans = self.count_orphan_data_blocks();
        let failures = self.count_checksum_failures_locked();
        let (cleaned, zeroed) = self.clean_up(orphans);
        let ghost c = *self;
        let ghost m = choose|m: SimpleFs<D>| #[trigger]
            cleaned_up(a, m, cleaned as nat, c, zeroed as nat);
        assert(cleanup_steps(a, health, m, cleaned as nat, c, zeroed as nat));
        let interrupted = self.count_interrupted(health);
        let r = if health.is_clean() {
            if zeroed > 0 {
                self.refresh_free_list();
            }
            Ok(health.report(orphans, failures, cleaned, zeroed, interrupted))
        } else {
            let end = self.republish_until_clean(2);
            assert(republishing(c, *self, 2, end));
            match end {
                Ok(left) => Ok(
                    health.repaired_report(left, orphans, failures, cleaned, zeroed, interrupted),
                ),
                Err(error) => Err(error),
            }
        };
        assert(check_end(a, health, cleaned as nat, c, zeroed as nat, *self, r));
        r
    }
}

} // verus!
