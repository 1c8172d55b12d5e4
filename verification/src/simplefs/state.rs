//! The mounted tree and the undo log that protects it.
use vstd::prelude::*;
use vstd::string::*;

use crate::simplefs::extents::Extent;
use crate::simplefs::types::{DirEntryView, OnDiskDirEntry, OnDiskInode, XattrRecord, XattrView, entry_views, xattr_views};
use crate::text::texts;

verus! {

/// Where one copy of the metadata tables lies.
#[derive(Debug, Clone, Copy, PartialEq, Eq, Structural)]
pub struct TableSlot {
    pub inode_block: u32,
    pub dirent_block: u32,
    pub xattr_block: u32,
}

/// What has to be put back if the mutation under way fails.
pub struct UndoLog {
    pub inodes: Vec<(usize, OnDiskInode)>,
    pub dirents: Vec<(usize, OnDiskDirEntry)>,
    pub all_dirents: Option<Vec<OnDiskDirEntry>>,
    pub all_positions: Option<Vec<Option<usize>>>,
    pub parent_of: Vec<(usize, Option<usize>)>,
    /// Number of inode slots before the first one was added.
    pub inodes_len: Option<usize>,
    pub free_data_extents: Option<Vec<Extent>>,
    pub free_inode_slots: Option<Vec<usize>>,
    pub dir_inode_indices: Option<Vec<usize>>,
    pub old_inode_table_dirty: Option<bool>,
    pub old_dirent_table_dirty: Option<bool>,
    pub xattrs: Vec<(usize, XattrRecord)>,
    /// Number of attribute records before the first one was added.
    pub xattr_len: Option<usize>,
}

/// A mounted volume's metadata.
pub struct SimpleFsState {
    pub inodes: Vec<OnDiskInode>,
    pub dir_entries: Vec<OnDiskDirEntry>,
    pub active: TableSlot,
    pub shadow: TableSlot,
    pub generation: u32,
    pub inode_table_dirty: bool,
    pub dirent_table_dirty: bool,
    pub xattr_table_dirty: bool,
    pub needs_shadow_sync: bool,
    pub staging_roots: Vec<String>,
    /// Deleted inodes that may be handed out again, last one first.
    pub free_inode_slots: Vec<usize>,
    /// For each inode the directory it lies in.
    pub parent_of: Vec<Option<usize>>,
    /// For each inode the entry that names it.
    pub inode_to_entry_index: Vec<Option<usize>>,
    pub free_data_extents: Vec<Extent>,
    /// The directories in use.
    pub dir_inode_indices: Vec<usize>,
    pub xattrs: Vec<XattrRecord>,
    /// The inode of every open handle.
    pub open_handles: Vec<usize>,
    pub undo: UndoLog,
}

/// The part of the metadata that the undo log protects.
#[verifier::ext_equal]
pub struct TreeView {
    pub inodes: Seq<OnDiskInode>,
    pub entries: Seq<DirEntryView>,
    pub parents: Seq<Option<usize>>,
    pub positions: Seq<Option<usize>>,
    pub free_slots: Seq<usize>,
    pub dirs: Seq<usize>,
    pub free: Seq<Extent>,
    pub xattrs: Seq<XattrView>,
}

/// What an undo log holds.
#[verifier::ext_equal]
pub struct UndoView {
    pub inodes: Seq<(usize, OnDiskInode)>,
    pub entries: Seq<(usize, DirEntryView)>,
    pub all_entries: Option<Seq<DirEntryView>>,
    pub all_positions: Option<Seq<Option<usize>>>,
    pub parents: Seq<(usize, Option<usize>)>,
    pub inodes_len: Option<usize>,
    pub free: Option<Seq<Extent>>,
    pub free_slots: Option<Seq<usize>>,
    pub dirs: Option<Seq<usize>>,
    pub xattrs: Seq<(usize, XattrView)>,
    pub xattr_len: Option<usize>,
}

/// Everything in the metadata beside the tree.
pub struct RestView {
    pub active: TableSlot,
    pub shadow: TableSlot,
    pub generation: u32,
    pub needs_shadow_sync: bool,
    pub staging: Seq<Seq<char>>,
    pub handles: Seq<usize>,
}

impl UndoLog {
    /// What the log holds of the tree. Contracts speak of the two saved flags by their own
    /// names.
    pub open spec fn view(&self) -> UndoView {
        UndoView {
            inodes: self.inodes@,
            entries: Seq::new(
                self.dirents@.len(),
                |i: int| (self.dirents@[i].0, self.dirents@[i].1@),
            ),
            all_entries: match self.all_dirents {
                Some(v) => Some(entry_views(v@)),
                None => None,
            },
            all_positions: match self.all_positions {
                Some(v) => Some(v@),
                None => None,
            },
            parents: self.parent_of@,
            inodes_len: self.inodes_len,
            free: match self.free_data_extents {
                Some(v) => Some(v@),
                None => None,
            },
            free_slots: match self.free_inode_slots {
                Some(v) => Some(v@),
                None => None,
            },
            dirs: match self.dir_inode_indices {
                Some(v) => Some(v@),
                None => None,
            },
            xattrs: Seq::new(
                self.xattrs@.len(),
                |i: int| (self.xattrs@[i].0, self.xattrs@[i].1@),
            ),
            xattr_len: self.xattr_len,
        }
    }
}

impl SimpleFsState {
    /// The protected part of the metadata.
    pub open spec fn tree(&self) -> TreeView {
        TreeView {
            inodes: self.inodes@,
            entries: entry_views(self.dir_entries@),
            parents: self.parent_of@,
            positions: self.inode_to_entry_index@,
            free_slots: self.free_inode_slots@,
            dirs: self.dir_inode_indices@,
            free: self.free_data_extents@,
            xattrs: xattr_views(self.xattrs@),
        }
    }

    /// The unprotected part of the metadata, apart from the dirty flags.
    pub open spec fn rest(&self) -> RestView {
        RestView {
            active: self.active,
            shadow: self.shadow,
            generation: self.generation,
            needs_shadow_sync: self.needs_shadow_sync,
            staging: texts(self.staging_roots@),
            handles: self.open_handles@,
        }
    }
}

// ── What rolling back does ──

/// `s` with the logged values put back, latest first.
pub open spec fn replayed<T>(log: Seq<(usize, T)>, s: Seq<T>) -> Seq<T>
    decreases log.len(),
{
    if log.len() == 0 {
        s
    } else {
        let (i, v) = log.last();
        replayed(
            log.drop_last(),
            if i < s.len() {
                s.update(i as int, v)
            } else {
                s
            },
        )
    }
}

/// `s` cut back to a recorded length.
pub open spec fn cut<T>(s: Seq<T>, len: Option<usize>) -> Seq<T> {
    match len {
        Some(n) => if n <= s.len() {
            s.take(n as int)
        } else {
            s
        },
        None => s,
    }
}

/// The saved copy where there is one, the current value otherwise.
pub open spec fn or_current<T>(saved: Option<T>, current: T) -> T {
    match saved {
        Some(v) => v,
        None => current,
    }
}

/// The tree that an undo log leads back to.
pub open spec fn rolled_back(t: TreeView, u: UndoView) -> TreeView {
    TreeView {
        inodes: cut(replayed(u.inodes, t.inodes), u.inodes_len),
        entries: replayed(u.entries, or_current(u.all_entries, t.entries)),
        parents: replayed(u.parents, cut(t.parents, u.inodes_len)),
        positions: cut(or_current(u.all_positions, t.positions), u.inodes_len),
        free_slots: or_current(u.free_slots, t.free_slots),
        dirs: or_current(u.dirs, t.dirs),
        free: or_current(u.free, t.free),
        xattrs: cut(replayed(u.xattrs, t.xattrs), u.xattr_len),
    }
}

/// Whether a log holds a value for position `i`.
pub open spec fn logged<T>(log: Seq<(usize, T)>, i: int) -> bool {
    exists|k: int| #![trigger log[k]] 0 <= k < log.len() && log[k].0 == i
}

/// Whether a change to inode `i` is undone by the log.
pub open spec fn inode_covered(u: UndoView, i: int) -> bool {
    logged(u.inodes, i) || (u.inodes_len matches Some(n) && n <= i)
}

/// Whether the log leads back to `base`, and already covers every directory once
/// the entry table was saved.
pub open spec fn undo_ok(t: TreeView, u: UndoView, base: TreeView) -> bool {
    &&& rolled_back(t, u) == base
    &&& u.all_entries is Some == u.all_positions is Some
    &&& u.all_entries is Some ==> forall|k: int|
        #![trigger t.dirs[k]]
        0 <= k < t.dirs.len() ==> inode_covered(u, t.dirs[k] as int)
    &&& u.inodes_len matches Some(n) ==> n <= t.inodes.len() && n <= t.parents.len() && n
        <= t.positions.len() && (u.all_positions matches Some(p) ==> n <= p.len())
    &&& u.all_positions matches Some(p) ==> (u.inodes_len is None ==> p.len()
        == t.positions.len())
    &&& u.xattr_len matches Some(n) ==> n <= t.xattrs.len()
}

/// Whether a step keeps every way back.
pub open spec fn undo_kept(before: SimpleFsState, after: SimpleFsState) -> bool {
    &&& after.undo.old_inode_table_dirty == before.undo.old_inode_table_dirty
    &&& after.undo.old_dirent_table_dirty == before.undo.old_dirent_table_dirty
    &&& forall|base: TreeView|
        #![trigger undo_ok(after.tree(), after.undo@, base)]
        undo_ok(before.tree(), before.undo@, base) ==> undo_ok(after.tree(), after.undo@, base)
}

pub proof fn lemma_replayed_len<T>(log: Seq<(usize, T)>, s: Seq<T>)
    ensures
        replayed(log, s).len() == s.len(),
    decreases log.len(),
{
    if log.len() > 0 {
        let (i, v) = log.last();
        lemma_replayed_len(
            log.drop_last(),
            if i < s.len() {
                s.update(i as int, v)
            } else {
                s
            },
        );
    }
}

/// Logging the current value of a position changes nothing.
pub proof fn lemma_replay_saved<T>(log: Seq<(usize, T)>, s: Seq<T>, i: usize)
    requires
        i < s.len(),
    ensures
        replayed(log.push((i, s[i as int])), s) == replayed(log, s),
        logged(log.push((i, s[i as int])), i as int),
{
    let next = log.push((i, s[i as int]));
    assert(next.drop_last() =~= log);
    assert(s.update(i as int, s[i as int]) =~= s);
    assert(next[log.len() as int].0 == i);
}

/// A logged position may change freely.
pub proof fn lemma_replay_covered<T>(log: Seq<(usize, T)>, s: Seq<T>, i: int, v: T)
    requires
        logged(log, i),
        0 <= i < s.len(),
    ensures
        replayed(log, s.update(i, v)) == replayed(log, s),
    decreases log.len(),
{
    let (j, w) = log.last();
    let k = choose|k: int| #![trigger log[k]] 0 <= k < log.len() && log[k].0 == i;
    if j == i {
        assert(s.update(i, v).update(i, w) =~= s.update(i, w));
    } else {
        assert(log.drop_last()[k] == log[k]);
        if j < s.len() {
            assert(s.update(i, v).update(j as int, w) =~= s.update(j as int, w).update(i, v));
            lemma_replay_covered(log.drop_last(), s.update(j as int, w), i, v);
        } else {
            lemma_replay_covered(log.drop_last(), s, i, v);
        }
    }
}

/// Positions past a cut may change freely.
pub proof fn lemma_replay_past_cut<T>(log: Seq<(usize, T)>, s: Seq<T>, t: Seq<T>, n: int)
    requires
        0 <= n <= s.len(),
        n <= t.len(),
        s.take(n) == t.take(n),
    ensures
        replayed(log, s).take(n) == replayed(log, t).take(n),
    decreases log.len(),
{
    if log.len() > 0 {
        let (i, v) = log.last();
        let s1 = if i < s.len() {
            s.update(i as int, v)
        } else {
            s
        };
        let t1 = if i < t.len() {
            t.update(i as int, v)
        } else {
            t
        };
        assert(s1.take(n) =~= t1.take(n)) by {
            assert forall|k: int| 0 <= k < n implies s1[k] == t1[k] by {
                assert(s.take(n)[k] == s[k]);
                assert(t.take(n)[k] == t[k]);
                assert(i == k || s1[k] == s[k]);
                assert(i == k || t1[k] == t[k]);
            }
        }
        lemma_replay_past_cut(log.drop_last(), s1, t1, n);
    }
}

/// A covered inode may change freely.
pub proof fn lemma_inode_change_undone(t: TreeView, u: UndoView, i: int, v: OnDiskInode)
    requires
        0 <= i < t.inodes.len(),
        inode_covered(u, i),
        u.inodes_len matches Some(n) ==> n <= t.inodes.len(),
    ensures
        cut(replayed(u.inodes, t.inodes.update(i, v)), u.inodes_len) == cut(
            replayed(u.inodes, t.inodes),
            u.inodes_len,
        ),
{
    lemma_replayed_len(u.inodes, t.inodes);
    lemma_replayed_len(u.inodes, t.inodes.update(i, v));
    if logged(u.inodes, i) {
        lemma_replay_covered(u.inodes, t.inodes, i, v);
    } else {
        let n = u.inodes_len->0;
        assert(t.inodes.take(n as int) =~= t.inodes.update(i, v).take(n as int));
        lemma_replay_past_cut(u.inodes, t.inodes, t.inodes.update(i, v), n as int);
    }
}

} // verus!
