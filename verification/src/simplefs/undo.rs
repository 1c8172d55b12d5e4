//! Recording old values before a mutation, and putting them back.
use vstd::prelude::*;
use vstd::string::*;

use crate::luks2::base64::is_blank;
use crate::simplefs::state::{SimpleFsState, TreeView, UndoLog, UndoView, cut, inode_covered, lemma_replay_saved, lemma_replayed_len, logged, or_current, replayed, rolled_back, undo_kept, undo_ok};
use crate::simplefs::types::{OnDiskDirEntry, OnDiskInode, XattrRecord, entry_views, xattr_views};

verus! {

/// A copy of a directory entry.
pub fn copy_entry(e: &OnDiskDirEntry) -> (r: OnDiskDirEntry)
    ensures
        r == *e,
{
    OnDiskDirEntry { inode_index: e.inode_index, kind: e.kind, name: e.name.clone() }
}

/// A copy of a list of directory entries.
pub fn copy_entries(v: &Vec<OnDiskDirEntry>) -> (r: Vec<OnDiskDirEntry>)
    ensures
        r@ == v@,
{
    let mut out: Vec<OnDiskDirEntry> = Vec::new();
    let mut i: usize = 0;
    while i < v.len()
        invariant
            i <= v@.len(),
            out@ == v@.take(i as int),
        decreases v@.len() - i,
    {
        out.push(copy_entry(&v[i]));
        i = i + 1;
    }
    assert(v@.take(i as int) == v@);
    out
}

/// A copy of a list of plain values.
pub fn copy_vec<T: Copy>(v: &Vec<T>) -> (r: Vec<T>)
    ensures
        r@ == v@,
{
    vstd::slice::slice_to_vec(v.as_slice())
}

/// Whether only the undo log differs.
pub open spec fn only_undo_differs(a: SimpleFsState, b: SimpleFsState) -> bool {
    &&& a.tree() == b.tree()
    &&& a.rest() == b.rest()
    &&& a.inode_table_dirty == b.inode_table_dirty
    &&& a.dirent_table_dirty == b.dirent_table_dirty
    &&& a.xattr_table_dirty == b.xattr_table_dirty
}

/// Puts logged plain values back, latest first.
fn replay_log<T: Copy>(v: &mut Vec<T>, log: &Vec<(usize, T)>)
    ensures
        final(v)@ == replayed(log@, old(v)@),
{
    let mut k: usize = log.len();
    assert(log@.take(k as int) =~= log@);
    while k > 0
        invariant
            k <= log@.len(),
            replayed(log@.take(k as int), v@) == replayed(log@, old(v)@),
        decreases k,
    {
        k = k - 1;
        let (i, value) = log[k];
        assert(log@.take(k + 1).drop_last() =~= log@.take(k as int));
        assert(log@.take(k + 1).last() == log@[k as int]);
        if i < v.len() {
            v[i] = value;
        }
    }
}

/// Puts logged directory entries back, latest first.
fn replay_entries(v: &mut Vec<OnDiskDirEntry>, log: &Vec<(usize, OnDiskDirEntry)>)
    ensures
        final(v)@ == replayed(log@, old(v)@),
{
    let mut k: usize = log.len();
    assert(log@.take(k as int) =~= log@);
    while k > 0
        invariant
            k <= log@.len(),
            replayed(log@.take(k as int), v@) == replayed(log@, old(v)@),
        decreases k,
    {
        k = k - 1;
        let i: usize = log[k].0;
        assert(log@.take(k + 1).drop_last() =~= log@.take(k as int));
        assert(log@.take(k + 1).last() == log@[k as int]);
        if i < v.len() {
            let entry = copy_entry(&log[k].1);
            v[i] = entry;
        }
    }
}

/// Puts a saved copy back, if there is one.
fn restore_vec<T: Copy>(v: &mut Vec<T>, saved: &Option<Vec<T>>)
    ensures
        final(v)@ == (match *saved {
            Some(s) => s@,
            None => old(v)@,
        }),
{
    match saved {
        Some(s) => {
            *v = copy_vec(s);
        },
        None => {},
    }
}

/// Puts a saved entry table back, if there is one.
fn restore_entries(v: &mut Vec<OnDiskDirEntry>, saved: &Option<Vec<OnDiskDirEntry>>)
    ensures
        final(v)@ == (match *saved {
            Some(s) => s@,
            None => old(v)@,
        }),
{
    match saved {
        Some(s) => {
            *v = copy_entries(s);
        },
        None => {},
    }
}

/// Cuts a list back to a recorded length.
fn cut_vec<T>(v: &mut Vec<T>, len: Option<usize>)
    ensures
        final(v)@ == cut(old(v)@, len),
{
    match len {
        Some(n) => {
            if n <= v.len() {
                v.truncate(n);
            }
        },
        None => {},
    }
}

/// Replaying commutes with looking at what the values say.
proof fn lemma_replay_entry_views(
    log: Seq<(usize, OnDiskDirEntry)>,
    s: Seq<OnDiskDirEntry>,
)
    ensures
        entry_views(replayed(log, s)) == replayed(
            Seq::new(log.len(), |i: int| (log[i].0, log[i].1@)),
            entry_views(s),
        ),
    decreases log.len(),
{
    let views = Seq::new(log.len(), |i: int| (log[i].0, log[i].1@));
    if log.len() > 0 {
        let (i, v) = log.last();
        let s1 = if i < s.len() {
            s.update(i as int, v)
        } else {
            s
        };
        lemma_replay_entry_views(log.drop_last(), s1);
        let rest = log.drop_last();
        assert(Seq::new(rest.len(), |i: int| (rest[i].0, rest[i].1@)) =~= views.drop_last());
        assert(entry_views(s1) =~= if i < s.len() {
            entry_views(s).update(i as int, v@)
        } else {
            entry_views(s)
        });
    }
}

/// Replaying commutes with looking at what the values say.
proof fn lemma_replay_xattr_views(log: Seq<(usize, XattrRecord)>, s: Seq<XattrRecord>)
    ensures
        xattr_views(replayed(log, s)) == replayed(
            Seq::new(log.len(), |i: int| (log[i].0, log[i].1@)),
            xattr_views(s),
        ),
    decreases log.len(),
{
    let views = Seq::new(log.len(), |i: int| (log[i].0, log[i].1@));
    if log.len() > 0 {
        let (i, v) = log.last();
        let s1 = if i < s.len() {
            s.update(i as int, v)
        } else {
            s
        };
        lemma_replay_xattr_views(log.drop_last(), s1);
        let rest = log.drop_last();
        assert(Seq::new(rest.len(), |i: int| (rest[i].0, rest[i].1@)) =~= views.drop_last());
        assert(xattr_views(s1) =~= if i < s.len() {
            xattr_views(s).update(i as int, v@)
        } else {
            xattr_views(s)
        });
    }
}

impl UndoLog {
    /// A log that undoes nothing.
    pub fn empty() -> (r: Self)
        ensures
            r.is_blank(),
            r.old_inode_table_dirty is None,
            r.old_dirent_table_dirty is None,
    {
        let r = UndoLog {
            inodes: Vec::new(),
            dirents: Vec::new(),
            all_dirents: None,
            all_positions: None,
            parent_of: Vec::new(),
            inodes_len: None,
            free_data_extents: None,
            free_inode_slots: None,
            dir_inode_indices: None,
            old_inode_table_dirty: None,
            old_dirent_table_dirty: None,
            xattrs: Vec::new(),
            xattr_len: None,
        };
        assert(r@.entries =~= Seq::empty());
        assert(r@.xattrs =~= Seq::empty());
        r
    }

    /// Whether the log holds no old tree values.
    pub open spec fn is_blank(&self) -> bool {
        self@ == (UndoView {
            inodes: Seq::empty(),
            entries: Seq::empty(),
            all_entries: None,
            all_positions: None,
            parents: Seq::empty(),
            inodes_len: None,
            free: None,
            free_slots: None,
            dirs: None,
            xattrs: Seq::empty(),
            xattr_len: None,
        })
    }
}

impl SimpleFsState {
    /// Starts a fresh log at the current tree.
    pub fn begin_undo(&mut self)
        ensures
            only_undo_differs(*old(self), *final(self)),
            final(self).undo.is_blank(),
            undo_ok(final(self).tree(), final(self).undo@, old(self).tree()),
            final(self).undo.old_inode_table_dirty == Some(old(self).inode_table_dirty),
            final(self).undo.old_dirent_table_dirty == Some(old(self).dirent_table_dirty),
    {
        self.undo = UndoLog::empty();
        self.undo.old_inode_table_dirty = Some(self.inode_table_dirty);
        self.undo.old_dirent_table_dirty = Some(self.dirent_table_dirty);
    }

    /// Drops the log once the mutation is durable.
    pub fn commit_undo(&mut self)
        ensures
            only_undo_differs(*old(self), *final(self)),
            final(self).undo.is_blank(),
    {
        self.undo = UndoLog::empty();
    }

    /// Records inode `index` before it changes.
    pub fn save_inode_for_undo(&mut self, index: usize)
        ensures
            only_undo_differs(*old(self), *final(self)),
            undo_kept(*old(self), *final(self)),
            index < old(self).inodes@.len() ==> inode_covered(final(self).undo@, index as int),
            final(self).undo@ == (UndoView { inodes: final(self).undo@.inodes, ..old(self).undo@ }),
    {
        if index < self.inodes.len() {
            let inode = self.inodes[index];
            let ghost before = self.undo@;
            self.undo.inodes.push((index, inode));
            proof {
                lemma_replay_saved(before.inodes, self.inodes@, index);
                assert(self.undo@ =~= (UndoView {
                    inodes: before.inodes.push((index, inode)),
                    ..before
                }));
                assert forall|base: TreeView|
                    #![trigger undo_ok(self.tree(), self.undo@, base)]
                    undo_ok(old(self).tree(), before, base) implies undo_ok(
                    self.tree(),
                    self.undo@,
                    base,
                ) by {
                    lemma_push_keeps_cover(before, (index, inode));
                }
            }
        } else {
            assert(self.undo@ =~= (UndoView { inodes: self.undo@.inodes, ..old(self).undo@ }));
        }
    }

    /// Records the name of entry `index` before it changes. Once the whole entry
    /// table was recorded there is nothing to add.
    pub fn save_dirent_for_undo(&mut self, index: usize)
        ensures
            only_undo_differs(*old(self), *final(self)),
            undo_kept(*old(self), *final(self)),
            index < old(self).dir_entries@.len() ==> final(self).undo@.all_entries is Some || logged(
                final(self).undo@.entries,
                index as int,
            ),
    {
        if index < self.dir_entries.len() && self.undo.all_dirents.is_none() {
            let entry = copy_entry(&self.dir_entries[index]);
            let ghost before = self.undo@;
            let ghost view = entry@;
            self.undo.dirents.push((index, entry));
            proof {
                assert(self.tree().entries[index as int] == view);
                lemma_replay_saved(before.entries, self.tree().entries, index);
                assert(self.undo@.entries =~= before.entries.push((index, view)));
                assert(self.undo@ =~= (UndoView {
                    entries: before.entries.push((index, view)),
                    ..before
                }));
            }
        }
    }

    /// Records the parent of inode `index` before it changes.
    pub fn save_parent_of_for_undo(&mut self, index: usize)
        ensures
            only_undo_differs(*old(self), *final(self)),
            undo_kept(*old(self), *final(self)),
            index < old(self).parent_of@.len() ==> logged(final(self).undo@.parents, index as int),
            final(self).undo@ == (UndoView {
                parents: final(self).undo@.parents,
                ..old(self).undo@
            }),
    {
        if index < self.parent_of.len() {
            let value = self.parent_of[index];
            let ghost before = self.undo@;
            self.undo.parent_of.push((index, value));
            proof {
                assert(self.undo@ =~= (UndoView {
                    parents: before.parents.push((index, value)),
                    ..before
                }));
                assert(self.undo@.parents[before.parents.len() as int].0 == index);
                assert forall|base: TreeView|
                    #![trigger undo_ok(self.tree(), self.undo@, base)]
                    undo_ok(old(self).tree(), before, base) implies undo_ok(
                    self.tree(),
                    self.undo@,
                    base,
                ) by {
                    let s = cut(self.parent_of@, before.inodes_len);
                    if index < s.len() {
                        lemma_replay_saved(before.parents, s, index);
                        assert(s[index as int] == value);
                    } else {
                        let next = before.parents.push((index, value));
                        assert(next.drop_last() =~= before.parents);
                        assert(next.last() == (index, value));
                    }
                }
            }
        } else {
            assert(self.undo@ =~= (UndoView { parents: self.undo@.parents, ..old(self).undo@ }));
        }
    }

    /// Records attribute record `index` before it changes.
    pub fn save_xattr_for_undo(&mut self, index: usize)
        ensures
            only_undo_differs(*old(self), *final(self)),
            undo_kept(*old(self), *final(self)),
            index < old(self).xattrs@.len() ==> logged(final(self).undo@.xattrs, index as int),
    {
        if index < self.xattrs.len() {
            let record = self.xattrs[index];
            let ghost before = self.undo@;
            self.undo.xattrs.push((index, record));
            proof {
                assert(self.tree().xattrs[index as int] == record@);
                lemma_replay_saved(before.xattrs, self.tree().xattrs, index);
                assert(self.undo@.xattrs =~= before.xattrs.push((index, record@)));
                assert(self.undo@ =~= (UndoView {
                    xattrs: before.xattrs.push((index, record@)),
                    ..before
                }));
            }
        }
    }

    /// Records the number of attribute records before the first one is added.
    pub fn save_xattr_len_for_undo(&mut self)
        ensures
            only_undo_differs(*old(self), *final(self)),
            undo_kept(*old(self), *final(self)),
            final(self).undo@.xattr_len is Some,
    {
        if self.undo.xattr_len.is_none() {
            let ghost before = self.undo@;
            self.undo.xattr_len = Some(self.xattrs.len());
            proof {
                let s = replayed(before.xattrs, self.tree().xattrs);
                lemma_replayed_len(before.xattrs, self.tree().xattrs);
                assert(s.take(self.xattrs@.len() as int) =~= s);
                assert(self.undo@ =~= (UndoView { xattr_len: self.undo.xattr_len, ..before }));
            }
        }
    }

    /// Records the free list before it first changes.
    pub fn save_free_extents_for_undo(&mut self)
        ensures
            only_undo_differs(*old(self), *final(self)),
            undo_kept(*old(self), *final(self)),
            final(self).undo@.free is Some,
    {
        if self.undo.free_data_extents.is_none() {
            let ghost before = self.undo@;
            self.undo.free_data_extents = Some(copy_vec(&self.free_data_extents));
            proof {
                assert(self.undo@ =~= (UndoView {
                    free: Some(self.free_data_extents@),
                    ..before
                }));
            }
        }
    }

    /// Records the reusable inode slots before they first change.
    pub fn save_free_slots_for_undo(&mut self)
        ensures
            only_undo_differs(*old(self), *final(self)),
            undo_kept(*old(self), *final(self)),
            final(self).undo@.free_slots is Some,
            final(self).undo@ == (UndoView {
                free_slots: final(self).undo@.free_slots,
                ..old(self).undo@
            }),
    {
        if self.undo.free_inode_slots.is_none() {
            let ghost before = self.undo@;
            self.undo.free_inode_slots = Some(copy_vec(&self.free_inode_slots));
            proof {
                assert(self.undo@ =~= (UndoView {
                    free_slots: Some(self.free_inode_slots@),
                    ..before
                }));
            }
        } else {
            assert(self.undo@ =~= (UndoView {
                free_slots: self.undo@.free_slots,
                ..old(self).undo@
            }));
        }
    }

    /// Records the directories in use before they first change.
    pub fn save_dir_indices_for_undo(&mut self)
        ensures
            only_undo_differs(*old(self), *final(self)),
            undo_kept(*old(self), *final(self)),
            final(self).undo@.dirs is Some,
            final(self).undo@ == (UndoView { dirs: final(self).undo@.dirs, ..old(self).undo@ }),
    {
        if self.undo.dir_inode_indices.is_none() {
            let ghost before = self.undo@;
            self.undo.dir_inode_indices = Some(copy_vec(&self.dir_inode_indices));
            proof {
                assert(self.undo@ =~= (UndoView {
                    dirs: Some(self.dir_inode_indices@),
                    ..before
                }));
            }
        } else {
            assert(self.undo@ =~= (UndoView { dirs: self.undo@.dirs, ..old(self).undo@ }));
        }
    }

    /// Records the number of inode slots before the first one is added.
    pub fn save_inodes_len_for_undo(&mut self)
        requires
            old(self).parent_of@.len() == old(self).inodes@.len(),
            old(self).inode_to_entry_index@.len() == old(self).inodes@.len(),
            old(self).undo@.inodes_len is None ==> (old(self).undo@.all_positions matches Some(p)
                ==> p.len() == old(self).inodes@.len()),
        ensures
            only_undo_differs(*old(self), *final(self)),
            undo_kept(*old(self), *final(self)),
            final(self).undo@.inodes_len is Some,
            final(self).undo@ == (UndoView {
                inodes_len: final(self).undo@.inodes_len,
                ..old(self).undo@
            }),
    {
        if self.undo.inodes_len.is_none() {
            let ghost before = self.undo@;
            self.undo.inodes_len = Some(self.inodes.len());
            proof {
                let n = self.inodes@.len() as int;
                lemma_replayed_len(before.inodes, self.inodes@);
                assert(replayed(before.inodes, self.inodes@).take(n) =~= replayed(
                    before.inodes,
                    self.inodes@,
                ));
                assert(self.parent_of@.take(n) =~= self.parent_of@);
                let p = or_current(before.all_positions, self.inode_to_entry_index@);
                assert(p.take(n) =~= p);
                assert(self.undo@ =~= (UndoView { inodes_len: self.undo.inodes_len, ..before }));
                assert forall|base: TreeView|
                    #![trigger undo_ok(self.tree(), self.undo@, base)]
                    undo_ok(old(self).tree(), before, base) implies undo_ok(
                    self.tree(),
                    self.undo@,
                    base,
                ) by {
                    let t = self.tree();
                    if before.all_entries is Some {
                        assert forall|k: int|
                            #![trigger t.dirs[k]]
                            0 <= k < t.dirs.len() implies inode_covered(
                            self.undo@,
                            t.dirs[k] as int,
                        ) by {
                            assert(inode_covered(before, old(self).tree().dirs[k] as int));
                        }
                    }
                }
            }
        } else {
            assert(self.undo@ =~= (UndoView {
                inodes_len: self.undo@.inodes_len,
                ..old(self).undo@
            }));
        }
    }

    /// Records the whole entry table, and with it every directory inode, before
    /// entries first move.
    pub fn save_all_dirents_and_dir_inodes_for_undo(&mut self)
        requires
            forall|k: int|
                #![trigger old(self).dir_inode_indices@[k]]
                0 <= k < old(self).dir_inode_indices@.len() ==> old(self).dir_inode_indices@[k]
                    < old(self).inodes@.len(),
            old(self).undo@.inodes_len matches Some(n) ==> n
                <= old(self).inode_to_entry_index@.len(),
        ensures
            only_undo_differs(*old(self), *final(self)),
            undo_kept(*old(self), *final(self)),
            final(self).undo@.all_entries is Some,
            final(self).undo@.inodes_len == old(self).undo@.inodes_len,
            old(self).undo@.all_entries is Some ==> final(self).undo@.all_positions == old(
                self,
            ).undo@.all_positions,
            old(self).undo@.all_entries is None ==> final(self).undo@.all_positions == Some(
                old(self).inode_to_entry_index@,
            ),
    {
        if self.undo.all_dirents.is_none() {
            let ghost u0 = self.undo@;
            let mut k: usize = 0;
            while k < self.dir_inode_indices.len()
                invariant
                    k <= self.dir_inode_indices@.len(),
                    self.undo.all_dirents is None,
                    only_undo_differs(*old(self), *self),
                    undo_kept(*old(self), *self),
                    self.undo@ == (UndoView { inodes: self.undo@.inodes, ..u0 }),
                    u0 == old(self).undo@,
                    forall|j: int|
                        #![trigger self.dir_inode_indices@[j]]
                        0 <= j < self.dir_inode_indices@.len() ==> self.dir_inode_indices@[j]
                            < self.inodes@.len(),
                    forall|j: int|
                        #![trigger self.dir_inode_indices@[j]]
                        0 <= j < k ==> logged(
                            self.undo@.inodes,
                            self.dir_inode_indices@[j] as int,
                        ),
                decreases self.dir_inode_indices@.len() - k,
            {
                let dir: usize = self.dir_inode_indices[k];
                let inode = self.inodes[dir];
                let ghost before = self.undo@;
                let ghost mid = *self;
                self.undo.inodes.push((dir, inode));
                proof {
                    let next = before.inodes.push((dir, inode));
                    lemma_replay_saved(before.inodes, self.inodes@, dir);
                    assert(self.undo@ =~= (UndoView { inodes: next, ..before }));
                    assert forall|j: int|
                        #![trigger self.dir_inode_indices@[j]]
                        0 <= j < k + 1 implies logged(
                        self.undo@.inodes,
                        self.dir_inode_indices@[j] as int,
                    ) by {
                        if j < k {
                            assert(logged(before.inodes, mid.dir_inode_indices@[j] as int));
                            lemma_push_keeps_logged(
                                before.inodes,
                                (dir, inode),
                                self.dir_inode_indices@[j] as int,
                            );
                        }
                    }
                    assert forall|base: TreeView|
                        #![trigger undo_ok(self.tree(), self.undo@, base)]
                        undo_ok(old(self).tree(), u0, base) implies undo_ok(
                        self.tree(),
                        self.undo@,
                        base,
                    ) by {
                        assert(undo_ok(mid.tree(), mid.undo@, base));
                    }
                }
                k = k + 1;
            }
            let ghost before = *self;
            self.undo.all_dirents = Some(copy_entries(&self.dir_entries));
            self.undo.all_positions = Some(copy_vec(&self.inode_to_entry_index));
            proof {
                assert(self.undo@ =~= (UndoView {
                    all_entries: Some(self.tree().entries),
                    all_positions: Some(self.inode_to_entry_index@),
                    ..before.undo@
                }));
                assert forall|base: TreeView|
                    #![trigger undo_ok(self.tree(), self.undo@, base)]
                    undo_ok(old(self).tree(), u0, base) implies undo_ok(
                    self.tree(),
                    self.undo@,
                    base,
                ) by {
                    assert(undo_ok(before.tree(), before.undo@, base));
                    let t = self.tree();
                    assert forall|j: int|
                        #![trigger t.dirs[j]]
                        0 <= j < t.dirs.len() implies inode_covered(self.undo@, t.dirs[j] as int) by {
                        assert(logged(before.undo@.inodes, before.dir_inode_indices@[j] as int));
                    }
                }
            }
        }
    }

    /// Puts the tree back to where the log began.
    pub fn rollback_undo(&mut self)
        ensures
            final(self).tree() == rolled_back(old(self).tree(), old(self).undo@),
            final(self).rest() == old(self).rest(),
            final(self).xattr_table_dirty == old(self).xattr_table_dirty,
            final(self).inode_table_dirty == (match old(self).undo.old_inode_table_dirty {
                Some(d) => d,
                None => old(self).inode_table_dirty,
            }),
            final(self).dirent_table_dirty == (match old(self).undo.old_dirent_table_dirty {
                Some(d) => d,
                None => old(self).dirent_table_dirty,
            }),
    {
        let ghost u = self.undo@;
        restore_entries(&mut self.dir_entries, &self.undo.all_dirents);
        let ghost entries = self.dir_entries@;
        replay_entries(&mut self.dir_entries, &self.undo.dirents);
        proof {
            lemma_replay_entry_views(self.undo.dirents@, entries);
        }
        restore_vec(&mut self.inode_to_entry_index, &self.undo.all_positions);
        replay_log(&mut self.inodes, &self.undo.inodes);
        replay_log(&mut self.xattrs, &self.undo.xattrs);
        let ghost records = self.xattrs@;
        cut_vec(&mut self.xattrs, self.undo.xattr_len);
        proof {
            lemma_replay_xattr_views(self.undo.xattrs@, old(self).xattrs@);
            assert(xattr_views(self.xattrs@) =~= cut(xattr_views(records), u.xattr_len));
        }
        cut_vec(&mut self.inodes, self.undo.inodes_len);
        cut_vec(&mut self.parent_of, self.undo.inodes_len);
        cut_vec(&mut self.inode_to_entry_index, self.undo.inodes_len);
        restore_vec(&mut self.free_data_extents, &self.undo.free_data_extents);
        restore_vec(&mut self.free_inode_slots, &self.undo.free_inode_slots);
        restore_vec(&mut self.dir_inode_indices, &self.undo.dir_inode_indices);
        replay_log(&mut self.parent_of, &self.undo.parent_of);
        self.inode_table_dirty = match self.undo.old_inode_table_dirty {
            Some(dirty) => dirty,
            None => self.inode_table_dirty,
        };
        self.dirent_table_dirty = match self.undo.old_dirent_table_dirty {
            Some(dirty) => dirty,
            None => self.dirent_table_dirty,
        };
        assert(self.tree() =~= rolled_back(old(self).tree(), old(self).undo@));
    }
}

/// A longer log covers what a shorter one did.
proof fn lemma_push_keeps_logged<T>(log: Seq<(usize, T)>, e: (usize, T), i: int)
    requires
        logged(log, i),
    ensures
        logged(log.push(e), i),
{
    let k = choose|k: int| #![trigger log[k]] 0 <= k < log.len() && log[k].0 == i;
    assert(log.push(e)[k] == log[k]);
}

/// A longer log covers what a shorter one did.
proof fn lemma_push_keeps_cover(u: UndoView, e: (usize, OnDiskInode))
    ensures
        forall|i: int|
            #![trigger inode_covered(u, i)]
            inode_covered(u, i) ==> inode_covered(
                (UndoView { inodes: u.inodes.push(e), ..u }),
                i,
            ),
{
    assert forall|i: int|
        #![trigger inode_covered(u, i)]
        inode_covered(u, i) implies inode_covered(
        (UndoView { inodes: u.inodes.push(e), ..u }),
        i,
    ) by {
        if logged(u.inodes, i) {
            lemma_push_keeps_logged(u.inodes, e, i);
        }
    }
}

} // verus!
