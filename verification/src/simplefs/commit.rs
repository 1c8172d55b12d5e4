//! Committing a mounted volume's metadata, or going back.
use vstd::prelude::*;
use vstd::string::*;

use crate::block::{BlockDevice, DeviceHealth};
use crate::bytes::copy_all;
use crate::error::{Error, Result};
use crate::simplefs::constants::{PRIMARY_SUPERBLOCK_BLOCK, SECONDARY_SUPERBLOCK_BLOCK};
use crate::simplefs::state::{RestView, SimpleFsState, TableSlot, TreeView, lemma_replayed_len, or_current, rolled_back};
use crate::simplefs::superblock::{record_valid, validate_superblock_record};
use crate::simplefs::tree::VolumeGeometry;
use crate::simplefs::types::RuntimeMetadataImage;
use crate::simplefs::validate::{metadata_valid, validate_loaded_metadata};
use crate::simplefs::volume::{CommitParts, SimpleFs, commit_cut_off, commit_failed, commit_parts, commit_steps, commit_writes, committed, geometry_ok, in_metadata_slot, is_pending_mark, mirrored, rest_committed, same_device, slot_differs_only, slot_on_device, tables_stored};
use crate::simplefs::writes::{BlockWrite, WriteView, cut_off, done, lemma_done_elsewhere, lemma_done_len, write_in_turn, write_views, writes_fit};

verus! {

/// Whether a superblock can count the records of a tree.
pub open spec fn counts_fit(t: TreeView) -> bool {
    t.inodes.len() <= u32::MAX && t.entries.len() <= u32::MAX && t.xattrs.len() <= u32::MAX
}

/// Whether the device takes every write it has room for.
pub open spec fn writable<D: BlockDevice>(device: D) -> bool {
    device.reliable() && !device.write_protected() && device.health() != DeviceHealth::Failed
}

impl SimpleFsState {
    /// How many records of each kind the tree had when the log began.
    fn logged_counts(&self) -> (r: (usize, usize, usize))
        ensures
            r.0 == rolled_back(self.tree(), self.undo@).inodes.len(),
            r.1 == rolled_back(self.tree(), self.undo@).entries.len(),
            r.2 == rolled_back(self.tree(), self.undo@).xattrs.len(),
    {
        let ghost t = self.tree();
        let ghost u = self.undo@;
        proof {
            lemma_replayed_len(u.inodes, t.inodes);
            lemma_replayed_len(u.entries, or_current(u.all_entries, t.entries));
            lemma_replayed_len(u.xattrs, t.xattrs);
            assert(t.entries.len() == self.dir_entries@.len());
            assert(t.xattrs.len() == self.xattrs@.len());
        }
        let inodes: usize = match self.undo.inodes_len {
            Some(n) => if n <= self.inodes.len() {
                n
            } else {
                self.inodes.len()
            },
            None => self.inodes.len(),
        };
        let entries: usize = match &self.undo.all_dirents {
            Some(saved) => saved.len(),
            None => self.dir_entries.len(),
        };
        let xattrs: usize = match self.undo.xattr_len {
            Some(n) => if n <= self.xattrs.len() {
                n
            } else {
                self.xattrs.len()
            },
            None => self.xattrs.len(),
        };
        (inodes, entries, xattrs)
    }
}

/// Whether these are the writes of a commit of `t` after `base`.
pub open spec fn commit_plan(
    g: VolumeGeometry,
    base: TreeView,
    t: TreeView,
    r: RestView,
    writes: Seq<WriteView>,
) -> bool {
    exists|p: CommitParts| #[trigger]
        commit_writes(g, r, p) == writes && commit_parts(g, t, r, p) && is_pending_mark(
            p.pending,
            g,
            base,
            r,
        )
}

pub proof fn lemma_part_lens(g: VolumeGeometry, base: TreeView, t: TreeView, r: RestView, p: CommitParts)
    requires
        commit_parts(g, t, r, p),
        is_pending_mark(p.pending, g, base, r),
    ensures
        p.pending.len() == 512,
        p.publish.len() == 512,
        p.inode_table.len() == g.inode_table_blocks * 512,
        p.dirent_table.len() == g.dirent_table_blocks * 512,
        g.format_version.stores_xattrs() ==> p.xattr_table.len() == g.xattr_table_blocks * 512,
        !g.format_version.stores_xattrs() ==> p.xattr_table.len() == 0,
{
}

/// Every write of a commit is one of these.
pub proof fn lemma_write_of(g: VolumeGeometry, r: RestView, p: CommitParts, k: int)
    requires
        0 <= k < commit_writes(g, r, p).len(),
    ensures
        ({
            let w = commit_writes(g, r, p)[k];
            ||| g.format_version.stores_security() && (w == (512int, p.pending) || w == (
                0int,
                p.pending,
            ))
            ||| w == (r.shadow.inode_block * 512, p.inode_table)
            ||| w == (r.shadow.dirent_block * 512, p.dirent_table)
            ||| g.format_version.stores_xattrs() && w == (r.shadow.xattr_block * 512, p.xattr_table)
            ||| w == (512int, p.publish)
            ||| w == (0int, p.publish)
        }),
{
}

proof fn lemma_plan_fits(
    g: VolumeGeometry,
    base: TreeView,
    t: TreeView,
    r: RestView,
    writes: Seq<WriteView>,
    len: nat,
)
    requires
        commit_plan(g, base, t, r, writes),
        slot_on_device(r.shadow, g, len),
    ensures
        writes_fit(writes, len),
{
    let p = choose|p: CommitParts| #[trigger]
        commit_writes(g, r, p) == writes && commit_parts(g, t, r, p) && is_pending_mark(
            p.pending,
            g,
            base,
            r,
        );
    lemma_part_lens(g, base, t, r, p);
    assert forall|k: int| #![trigger writes[k]] 0 <= k < writes.len() implies writes[k].1.len() % 512
        == 0 && writes[k].0 + writes[k].1.len() <= len by {
        lemma_write_of(g, r, p, k);
    }
}

/// Every write of a commit stays in the superblocks and the slot's tables.
proof fn lemma_plan_places(
    g: VolumeGeometry,
    base: TreeView,
    t: TreeView,
    r: RestView,
    writes: Seq<WriteView>,
    j: int,
    i: int,
)
    requires
        commit_plan(g, base, t, r, writes),
        0 <= j < writes.len(),
        writes[j].0 <= i < writes[j].0 + writes[j].1.len(),
    ensures
        in_metadata_slot(i, r.shadow, g),
{
    let p = choose|p: CommitParts| #[trigger]
        commit_writes(g, r, p) == writes && commit_parts(g, t, r, p) && is_pending_mark(
            p.pending,
            g,
            base,
            r,
        );
    lemma_part_lens(g, base, t, r, p);
    lemma_write_of(g, r, p, j);
}

proof fn lemma_plan_elsewhere(
    before: Seq<u8>,
    g: VolumeGeometry,
    base: TreeView,
    t: TreeView,
    r: RestView,
    writes: Seq<WriteView>,
    k: int,
)
    requires
        commit_plan(g, base, t, r, writes),
        0 <= k <= writes.len(),
    ensures
        slot_differs_only(before, done(before, writes, k), r.shadow, g),
{
    let after = done(before, writes, k);
    lemma_done_len(before, writes, k);
    assert forall|i: int|
        #![trigger after[i]]
        0 <= i < before.len() && !in_metadata_slot(i, r.shadow, g) implies after[i] == before[i] by {
        assert forall|j: int| #![trigger writes[j]] 0 <= j < k implies !(writes[j].0 <= i
            < writes[j].0 + writes[j].1.len()) by {
            if writes[j].0 <= i < writes[j].0 + writes[j].1.len() {
                lemma_plan_places(g, base, t, r, writes, j, i);
            }
        }
        lemma_done_elsewhere(before, writes, k, i);
    }
}

proof fn lemma_plan_cut(
    before: Seq<u8>,
    after: Seq<u8>,
    g: VolumeGeometry,
    base: TreeView,
    t: TreeView,
    r: RestView,
    writes: Seq<WriteView>,
    k: int,
)
    requires
        commit_plan(g, base, t, r, writes),
        cut_off(before, after, writes, k),
    ensures
        commit_failed(before, after, g, base, t, r),
        slot_differs_only(before, after, r.shadow, g),
{
    lemma_plan_elsewhere(before, g, base, t, r, writes, k);
    let mid = done(before, writes, k);
    assert forall|i: int|
        #![trigger after[i]]
        0 <= i < before.len() && !in_metadata_slot(i, r.shadow, g) implies after[i] == before[i] by {
        if writes[k].0 <= i < writes[k].0 + writes[k].1.len() {
            lemma_plan_places(g, base, t, r, writes, k, i);
        }
        assert(after[i] == mid[i]);
    }
    let p = choose|p: CommitParts| #[trigger]
        commit_writes(g, r, p) == writes && commit_parts(g, t, r, p) && is_pending_mark(
            p.pending,
            g,
            base,
            r,
        );
    assert(cut_off(before, after, commit_writes(g, r, p), k));
    assert(commit_cut_off(before, after, g, base, t, r));
}

/// All writes of a commit together leave the tables in their slot and both superblocks
/// publishing them.
proof fn lemma_plan_done(
    before: Seq<u8>,
    g: VolumeGeometry,
    base: TreeView,
    t: TreeView,
    r: RestView,
    writes: Seq<WriteView>,
)
    requires
        commit_plan(g, base, t, r, writes),
    ensures
        committed(before, done(before, writes, writes.len() as int), g, t, r),
        slot_differs_only(before, done(before, writes, writes.len() as int), r.shadow, g),
{
    let n = writes.len() as int;
    lemma_plan_elsewhere(before, g, base, t, r, writes, n);
    let p = choose|p: CommitParts| #[trigger]
        commit_writes(g, r, p) == writes && commit_parts(g, t, r, p) && is_pending_mark(
            p.pending,
            g,
            base,
            r,
        );
    lemma_part_lens(g, base, t, r, p);
    lemma_writes_done(before, g, r, p);
    assert(commit_steps(before, done(before, writes, n), g, t, r, p));
}

proof fn lemma_writes_done(before: Seq<u8>, g: VolumeGeometry, r: RestView, p: CommitParts)
    requires
        p.pending.len() == 512,
        p.publish.len() == 512,
        !g.format_version.stores_xattrs() ==> p.xattr_table.len() == 0,
    ensures
        ({
            let writes = commit_writes(g, r, p);
            done(before, writes, writes.len() as int) == mirrored(
                tables_stored(before, r.shadow, p.inode_table, p.dirent_table, p.xattr_table),
                p.publish,
            )
        }),
{
    let writes = commit_writes(g, r, p);
    let want = mirrored(
        tables_stored(before, r.shadow, p.inode_table, p.dirent_table, p.xattr_table),
        p.publish,
    );
    reveal_with_fuel(done, 9);
    assert(done(before, writes, writes.len() as int) =~= want);
}

/// The writes of a commit, in order.
fn plan_commit(
    g: &VolumeGeometry,
    slot: TableSlot,
    image: RuntimeMetadataImage,
    pending: Vec<u8>,
    publish: Vec<u8>,
) -> (r: Vec<BlockWrite>)
    ensures
        forall|rest: RestView, p: CommitParts|
            #![trigger commit_writes(*g, rest, p)]
            rest.shadow == slot && p == (CommitParts {
                pending: pending@,
                inode_table: image.inode_table@,
                dirent_table: image.dirent_table@,
                xattr_table: image.xattr_table@,
                publish: publish@,
            }) ==> write_views(r@) == commit_writes(*g, rest, p),
{
    let mut plan: Vec<BlockWrite> = Vec::new();
    if g.format_version.persistent_security_descriptor_layout().is_some() {
        let twin = copy_all(pending.as_slice());
        plan.push(BlockWrite { block: SECONDARY_SUPERBLOCK_BLOCK, data: twin });
        plan.push(BlockWrite { block: PRIMARY_SUPERBLOCK_BLOCK, data: pending });
    }
    plan.push(BlockWrite { block: slot.inode_block, data: image.inode_table });
    plan.push(BlockWrite { block: slot.dirent_block, data: image.dirent_table });
    if g.format_version.supports_persistent_xattrs() {
        plan.push(BlockWrite { block: slot.xattr_block, data: image.xattr_table });
    }
    let twin = copy_all(publish.as_slice());
    plan.push(BlockWrite { block: SECONDARY_SUPERBLOCK_BLOCK, data: twin });
    plan.push(BlockWrite { block: PRIMARY_SUPERBLOCK_BLOCK, data: publish });
    assert forall|rest: RestView, p: CommitParts|
        #![trigger commit_writes(*g, rest, p)]
        rest.shadow == slot && p == (CommitParts {
            pending: pending@,
            inode_table: image.inode_table@,
            dirent_table: image.dirent_table@,
            xattr_table: image.xattr_table@,
            publish: publish@,
        }) implies write_views(plan@) == commit_writes(*g, rest, p) by {
        assert(write_views(plan@) =~= commit_writes(*g, rest, p));
    }
    plan
}

impl<D: BlockDevice> SimpleFs<D> {
    /// Writes the mounted metadata to the device in two phases.
    ///
    /// Formats that store a marker first note the coming generation in both
    /// superblocks, which still point to the active tables. The tables then go to
    /// the shadow slot, and only after that do both superblocks point to it. The
    /// mounted state follows once every write succeeded; until then the active
    /// tables are never touched.
    pub fn flush_metadata(&mut self) -> (r: Result<()>)
        requires
            geometry_ok(old(self).geometry),
            old(self).geometry.tables_fit(old(self).state.tree()),
            counts_fit(rolled_back(old(self).state.tree(), old(self).state.undo@)),
        ensures
            final(self).geometry == old(self).geometry,
            final(self).state.tree() == old(self).state.tree(),
            final(self).state.undo == old(self).state.undo,
            same_device(old(self).device, final(self).device),
            slot_differs_only(
                old(self).device.image(),
                final(self).device.image(),
                old(self).state.shadow,
                old(self).geometry,
            ),
            r is Ok ==> {
                &&& old(self).state.generation < u32::MAX
                &&& final(self).state.rest() == rest_committed(old(self).state.rest())
                &&& !final(self).state.inode_table_dirty
                &&& !final(self).state.dirent_table_dirty
                &&& !final(self).state.xattr_table_dirty
                &&& committed(
                    old(self).device.image(),
                    final(self).device.image(),
                    old(self).geometry,
                    old(self).state.tree(),
                    old(self).state.rest(),
                )
            },
            r is Err ==> commit_failed(
                old(self).device.image(),
                final(self).device.image(),
                old(self).geometry,
                rolled_back(old(self).state.tree(), old(self).state.undo@),
                old(self).state.tree(),
                old(self).state.rest(),
            ),
            r is Err ==> final(self).state == old(self).state,
            old(self).state.generation == u32::MAX ==> r == Err::<(), Error>(
                Error::InvalidArgument,
            ) && final(self).device == old(self).device,
            old(self).state.generation < u32::MAX && writable(old(self).device) && slot_on_device(
                old(self).state.shadow,
                old(self).geometry,
                old(self).device.image().len(),
            ) ==> r is Ok,
    {
        if self.state.generation == u32::MAX {
            return Err(Error::InvalidArgument);
        }
        let next_generation: u32 = self.state.generation + 1;
        let ghost t = self.state.tree();
        let ghost rest = self.state.rest();
        let ghost g = self.geometry;
        let ghost base = rolled_back(t, self.state.undo@);
        let ghost before = self.device.image();
        let plan = self.prepare_commit();
        let ghost writes = write_views(plan@);
        proof {
            if slot_on_device(rest.shadow, g, before.len()) {
                lemma_plan_fits(g, base, t, rest, writes, before.len());
            }
        }
        let r = write_in_turn(&mut self.device, &plan);
        let ghost after = self.device.image();
        match r {
            Ok(_) => {},
            Err(error) => {
                proof {
                    let k = choose|k: int| #[trigger] cut_off(before, after, writes, k);
                    lemma_plan_cut(before, after, g, base, t, rest, writes, k);
                }
                return Err(error);
            },
        }
        let old_active = self.state.active;
        self.state.active = self.state.shadow;
        self.state.shadow = old_active;
        self.state.generation = next_generation;
        self.state.inode_table_dirty = false;
        self.state.dirent_table_dirty = false;
        self.state.xattr_table_dirty = false;
        self.state.needs_shadow_sync = false;
        proof {
            lemma_plan_done(before, g, base, t, rest, writes);
        }
        Ok(())
    }

    /// What a commit of the mounted metadata writes.
    fn prepare_commit(&self) -> (plan: Vec<BlockWrite>)
        requires
            geometry_ok(self.geometry),
            self.geometry.tables_fit(self.state.tree()),
            counts_fit(rolled_back(self.state.tree(), self.state.undo@)),
            self.state.generation < u32::MAX,
        ensures
            commit_plan(
                self.geometry,
                rolled_back(self.state.tree(), self.state.undo@),
                self.state.tree(),
                self.state.rest(),
                write_views(plan@),
            ),
    {
        let image = self.geometry.runtime_metadata_image(&self.state);
        let next_generation: u32 = self.state.generation + 1;
        let ghost t = self.state.tree();
        let ghost rest = self.state.rest();
        let ghost g = self.geometry;
        let ghost base = rolled_back(t, self.state.undo@);
        assert(t.entries.len() == self.state.dir_entries@.len());
        assert(t.xattrs.len() == self.state.xattrs@.len());
        let record = self.geometry.runtime_superblock_record(&self.state);
        let (inode_count, dirent_count, xattr_count) = self.state.logged_counts();
        let mut pending_record = record;
        pending_record.inode_count = inode_count as u32;
        pending_record.dirent_count = dirent_count as u32;
        pending_record.xattr_count = xattr_count as u32;
        pending_record.pending_commit = next_generation;
        let mut publish_record = record;
        publish_record.active_inode_table_block = self.state.shadow.inode_block;
        publish_record.active_dirent_table_block = self.state.shadow.dirent_block;
        publish_record.active_xattr_table_block = self.state.shadow.xattr_block;
        publish_record.shadow_inode_table_block = self.state.active.inode_block;
        publish_record.shadow_dirent_table_block = self.state.active.dirent_block;
        publish_record.shadow_xattr_table_block = self.state.active.xattr_block;
        publish_record.generation = next_generation;
        let pending_sb = self.geometry.superblock_bytes(pending_record);
        let publish_sb = self.geometry.superblock_bytes(publish_record);
        let ghost parts = CommitParts {
            pending: pending_sb@,
            inode_table: image.inode_table@,
            dirent_table: image.dirent_table@,
            xattr_table: image.xattr_table@,
            publish: publish_sb@,
        };
        let plan = plan_commit(&self.geometry, self.state.shadow, image, pending_sb, publish_sb);
        proof {
            assert(publish_record == g.published_record(t, rest, next_generation));
            assert(commit_parts(g, t, rest, parts));
            assert(is_pending_mark(parts.pending, g, base, rest));
            assert(write_views(plan@) == commit_writes(g, rest, parts));
        }
        plan
    }

    /// Whether the mounted metadata could be mounted again.
    pub open spec fn runtime_valid(&self) -> bool {
        let t = self.state.tree();
        &&& t.inodes.len() <= self.geometry.inode_capacity
        &&& t.entries.len() <= self.geometry.dirent_capacity
        &&& record_valid(self.geometry.record_of(t, self.state.rest()))
        &&& metadata_valid(
            t.inodes,
            t.entries,
            self.geometry.data_block_start as int,
            (self.device.image().len() / 512) as int,
            self.geometry.case_sensitive,
        )
    }

    /// Accepts the mounted metadata exactly when it could be mounted again.
    pub fn validate_runtime_state(&self) -> (r: Result<()>)
        requires
            self.state.xattrs@.len() <= u32::MAX,
        ensures
            r == (if self.runtime_valid() {
                Ok::<(), Error>(())
            } else {
                Err(Error::InternalError)
            }),
    {
        if self.state.inodes.len() > self.geometry.inode_capacity as usize
            || self.state.dir_entries.len() > self.geometry.dirent_capacity as usize {
            return Err(Error::InternalError);
        }
        let record = self.geometry.runtime_superblock_record(&self.state);
        if validate_superblock_record(record).is_err() {
            return Err(Error::InternalError);
        }
        if validate_loaded_metadata(
            self.state.inodes.as_slice(),
            self.state.dir_entries.as_slice(),
            self.geometry.data_block_start,
            self.device.block_count(),
            self.geometry.case_sensitive,
        ).is_err() {
            return Err(Error::InternalError);
        }
        Ok(())
    }

    /// Makes a mutation durable: checks the tree, then commits it. Where either
    /// fails, the tree goes back to where the log began.
    pub fn finish_commit(&mut self) -> (r: Result<()>)
        requires
            geometry_ok(old(self).geometry),
            old(self).geometry.tables_fit(old(self).state.tree()),
            counts_fit(rolled_back(old(self).state.tree(), old(self).state.undo@)),
        ensures
            final(self).geometry == old(self).geometry,
            same_device(old(self).device, final(self).device),
            slot_differs_only(
                old(self).device.image(),
                final(self).device.image(),
                old(self).state.shadow,
                old(self).geometry,
            ),
            r is Ok ==> {
                &&& old(self).runtime_valid()
                &&& final(self).state.tree() == old(self).state.tree()
                &&& final(self).state.rest() == rest_committed(old(self).state.rest())
                &&& old(self).state.generation < u32::MAX
                &&& committed(
                    old(self).device.image(),
                    final(self).device.image(),
                    old(self).geometry,
                    old(self).state.tree(),
                    old(self).state.rest(),
                )
            },
            r is Err ==> {
                &&& final(self).state.tree() == rolled_back(
                    old(self).state.tree(),
                    old(self).state.undo@,
                )
                &&& final(self).state.rest() == old(self).state.rest()
                &&& commit_failed(
                    old(self).device.image(),
                    final(self).device.image(),
                    old(self).geometry,
                    rolled_back(old(self).state.tree(), old(self).state.undo@),
                    old(self).state.tree(),
                    old(self).state.rest(),
                )
            },
            !old(self).runtime_valid() ==> r == Err::<(), Error>(Error::InternalError)
                && final(self).device == old(self).device,
            old(self).runtime_valid() && old(self).state.generation == u32::MAX ==> r == Err::<
                (),
                Error,
            >(Error::InvalidArgument) && final(self).device == old(self).device,
            old(self).runtime_valid() && old(self).state.generation < u32::MAX && writable(
                old(self).device,
            ) && slot_on_device(
                old(self).state.shadow,
                old(self).geometry,
                old(self).device.image().len(),
            ) ==> r is Ok,
    {
        self.state.inode_table_dirty = true;
        assert(self.state.tree() == old(self).state.tree());
        assert(self.state.tree().xattrs.len() == self.state.xattrs@.len());
        match self.validate_runtime_state() {
            Ok(()) => {},
            Err(error) => {
                self.state.rollback_undo();
                return Err(error);
            },
        }
        match self.flush_metadata() {
            Ok(()) => {},
            Err(error) => {
                self.state.rollback_undo();
                return Err(error);
            },
        }
        self.state.commit_undo();
        Ok(())
    }
}

} // verus!
