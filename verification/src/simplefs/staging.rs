//! Preparing content out of sight and putting it in place at once.
use vstd::prelude::*;
use vstd::string::*;

use crate::block::BlockDevice;
use crate::error::{Error, Result};
use crate::simplefs::create::lemma_lookup_live;
use crate::simplefs::lookup::{lookup, plain_lookup};
use crate::simplefs::names::is_root;
use crate::simplefs::ops::{below_root, dir_creation, refused, rename_outcome, swap_outcome, taken_back};
use crate::simplefs::remove_tree::recursive_removal_outcome;
use crate::simplefs::rename::rename_tree;
use crate::simplefs::settle::settled;
use crate::simplefs::state::{RestView, TreeView, undo_kept};
use crate::simplefs::tree::VolumeGeometry;
use crate::simplefs::tree_steps::lemma_kept_trans;
use crate::simplefs::validate::{live_dir, slice_end};
use crate::simplefs::volume::SimpleFs;
use crate::text::{contains_char, join2, join3, texts};
use crate::vfs::NodeKind;

verus! {

/// A directory in which content is prepared before it is published.
pub struct StagingArea {
    pub staging_root: String,
}

/// A published item whose former version, if there was one, is still kept.
pub struct VersionSwitch {
    pub target: String,
    pub backup_path: String,
    pub backup_exists: bool,
}

/// Whether a staging directory was remembered, and nothing else changed.
pub open spec fn root_registered<D: BlockDevice>(
    a: SimpleFs<D>,
    b: SimpleFs<D>,
    root: Seq<char>,
) -> bool {
    &&& b.geometry == a.geometry
    &&& b.device == a.device
    &&& b.state.tree() == a.state.tree()
    &&& b.state.rest() == (RestView {
        staging: if a.state.rest().staging.contains(root) {
            a.state.rest().staging
        } else {
            a.state.rest().staging.push(root)
        },
        ..a.state.rest()
    })
}

/// The answer without its value.
pub open spec fn bare<T>(r: core::result::Result<T, Error>) -> core::result::Result<(), Error> {
    match r {
        Ok(_) => Ok(()),
        Err(e) => Err(e),
    }
}

/// The path of an item in a staging directory.
pub open spec fn staged_path(root: Seq<char>, name: Seq<char>) -> Seq<char> {
    root + "/"@ + name
}

/// What setting up a staging directory does: it is made where it is missing, and
/// remembered.
pub open spec fn staging_created<D: BlockDevice>(
    a: SimpleFs<D>,
    b: SimpleFs<D>,
    root: Seq<char>,
    r: core::result::Result<(), Error>,
) -> bool {
    if !below_root(root) {
        refused(a, b, r, Error::InvalidArgument)
    } else {
        match plain_lookup(a.state.tree(), root, a.geometry.case_sensitive) {
            Ok(_) => r is Ok && root_registered(a, b, root),
            Err(e) => if e != Error::NotFound {
                refused(a, b, r, e)
            } else {
                exists|m: SimpleFs<D>, made: core::result::Result<(), Error>|
                    #![trigger dir_creation(a, m, root, None, made)]
                    dir_creation(a, m, root, None, made) && match made {
                        Err(e) => r == Err::<(), Error>(e) && b == m,
                        Ok(()) => r is Ok && root_registered(m, b, root),
                    }
            },
        }
    }
}

/// What removing `paths` one after the other does where the first failure ends it.
pub open spec fn removed_in_turn<D: BlockDevice>(
    a: SimpleFs<D>,
    b: SimpleFs<D>,
    paths: Seq<Seq<char>>,
    r: core::result::Result<(), Error>,
) -> bool
    decreases paths.len(),
{
    if paths.len() == 0 {
        r is Ok && b == a
    } else {
        exists|m: SimpleFs<D>, before: core::result::Result<(), Error>|
            #![trigger turn_taken(m, b, paths.last(), before, r)]
            removed_in_turn(a, m, paths.drop_last(), before) && turn_taken(
                m,
                b,
                paths.last(),
                before,
                r,
            )
    }
}

/// One more removal, unless an earlier one failed.
pub open spec fn turn_taken<D: BlockDevice>(
    a: SimpleFs<D>,
    b: SimpleFs<D>,
    path: Seq<char>,
    before: core::result::Result<(), Error>,
    r: core::result::Result<(), Error>,
) -> bool {
    match before {
        Err(e) => r == Err::<(), Error>(e) && b == a,
        Ok(()) => recursive_removal_outcome(a, b, path, r),
    }
}

/// The names in a directory, in table order.
pub open spec fn dir_names(t: TreeView, i: int) -> Seq<Seq<char>> {
    Seq::new(
        t.inodes[i].entry_count as nat,
        |k: int| t.entries[t.inodes[i].entry_start + k].name,
    )
}

/// The names in a staging directory, or why they cannot be listed.
pub open spec fn staged_names<D: BlockDevice>(fs: SimpleFs<D>, root: Seq<char>) ->
    core::result::Result<Seq<Seq<char>>, Error> {
    let t = fs.state.tree();
    match lookup(t, root, fs.geometry.case_sensitive) {
        Err(e) => Err(e),
        Ok(i) => if t.inodes[i].kind != NodeKind::Directory {
            Err(Error::InvalidArgument)
        } else {
            Ok(dir_names(t, i))
        },
    }
}

/// The path under which a replaced target is kept.
pub open spec fn backup_of(target: Seq<char>) -> Seq<char> {
    target + ".bak"@
}

/// The tree after an item took the place of a target, which moved aside where there was
/// one; or why it cannot.
pub open spec fn publish_tree(
    t: TreeView,
    g: VolumeGeometry,
    staged: Seq<char>,
    target: Seq<char>,
) -> core::result::Result<TreeView, Error> {
    if plain_lookup(t, target, g.case_sensitive) is Err {
        rename_tree(t, g, staged, target)
    } else {
        match rename_tree(t, g, target, backup_of(target)) {
            Err(e) => Err(e),
            Ok(m) => rename_tree(m, g, staged, target),
        }
    }
}

/// What publishing with a backup does, and what it answers. Both renames are one
/// transaction: they are committed together, or nothing has changed.
pub open spec fn published_with_backup<D: BlockDevice>(
    a: SimpleFs<D>,
    b: SimpleFs<D>,
    staged: Seq<char>,
    target: Seq<char>,
    r: core::result::Result<(), Error>,
) -> bool {
    if !below_root(target) {
        refused(a, b, r, Error::InvalidArgument)
    } else if a.device.write_protected() {
        refused(a, b, r, Error::PermissionDenied)
    } else {
        match publish_tree(a.state.tree(), a.geometry, staged, target) {
            Err(e) => taken_back(a, b, r, e),
            Ok(n) => settled(a, a.device.image(), n, b, r),
        }
    }
}

impl<D: BlockDevice> SimpleFs<D> {
    /// Puts an item in place within a transaction, moving aside what was there.
    fn publish_locked(&mut self, staged: &str, target: &str, backup: &str, exists: bool) -> (r:
        Result<()>)
        requires
            old(self).txn_ok(),
            backup@ == backup_of(target@),
            exists == plain_lookup(
                old(self).state.tree(),
                target@,
                old(self).geometry.case_sensitive,
            ) is Ok,
        ensures
            final(self).geometry == old(self).geometry,
            final(self).device == old(self).device,
            undo_kept(old(self).state, final(self).state),
            final(self).state.rest() == old(self).state.rest(),
            match publish_tree(old(self).state.tree(), old(self).geometry, staged@, target@) {
                Ok(n) => r is Ok && final(self).state.tree() == n && final(self).txn_ok(),
                Err(e) => r == Err::<(), Error>(e),
            },
    {
        if !exists {
            return self.rename_locked(staged, target);
        }
        self.rename_locked(target, backup)?;
        let ghost mid = self.state;
        let r = self.rename_locked(staged, target);
        proof {
            lemma_kept_trans(old(self).state, mid, self.state);
        }
        r
    }
}

impl StagingArea {
    /// Sets up a staging directory.
    pub fn create<D: BlockDevice>(fs: &mut SimpleFs<D>, staging_root: &str) -> (r: Result<Self>)
        requires
            old(fs).wf(),
        ensures
            final(fs).wf(),
            staging_created(*old(fs), *final(fs), staging_root@, bare(r)),
            r matches Ok(s) ==> s.staging_root@ == staging_root@,
    {
        if staging_root.is_empty() || is_root(staging_root) {
            return Err(Error::InvalidArgument);
        }
        let ghost a = *fs;
        match fs.geometry.lookup_index(&fs.state, staging_root) {
            Ok(_) => {},
            Err(Error::NotFound) => {
                let made = fs.create_dir(staging_root);
                assert(dir_creation(a, *fs, staging_root@, None, made));
                match made {
                    Ok(()) => {},
                    Err(error) => {
                        return Err(error);
                    },
                }
            },
            Err(error) => {
                return Err(error);
            },
        }
        fs.register_staging_root(staging_root);
        Ok(StagingArea { staging_root: staging_root.to_owned() })
    }

    /// The path of the staging directory.
    pub fn root(&self) -> (r: &str)
        ensures
            r@ == self.staging_root@,
    {
        self.staging_root.as_str()
    }

    /// Starts an item: makes a directory for it and says where.
    pub fn prepare<D: BlockDevice>(&self, fs: &mut SimpleFs<D>, name: &str) -> (r: Result<String>)
        requires
            old(fs).wf(),
        ensures
            final(fs).wf(),
            if name@.len() == 0 || name@.contains('/') {
                refused(*old(fs), *final(fs), r, Error::InvalidArgument)
            } else {
                &&& dir_creation(
                    *old(fs),
                    *final(fs),
                    staged_path(self.staging_root@, name@),
                    None,
                    bare(r),
                )
                &&& r matches Ok(p) ==> p@ == staged_path(self.staging_root@, name@)
            },
    {
        if name.is_empty() || contains_char(name, '/') {
            return Err(Error::InvalidArgument);
        }
        let path = join3(self.staging_root.as_str(), "/", name);
        fs.create_dir(path.as_str())?;
        Ok(path)
    }

    /// Puts an item in place. There must be nothing in its place yet.
    pub fn publish<D: BlockDevice>(&self, fs: &mut SimpleFs<D>, name: &str, target: &str) -> (r:
        Result<()>)
        requires
            old(fs).wf(),
        ensures
            final(fs).wf(),
            rename_outcome(
                *old(fs),
                *final(fs),
                staged_path(self.staging_root@, name@),
                target@,
                r,
            ),
    {
        let path = join3(self.staging_root.as_str(), "/", name);
        fs.rename(path.as_str(), target)
    }

    /// Gives an item up.
    pub fn abort<D: BlockDevice>(&self, fs: &mut SimpleFs<D>, name: &str) -> (r: Result<()>)
        requires
            old(fs).wf(),
        ensures
            final(fs).wf(),
            recursive_removal_outcome(
                *old(fs),
                *final(fs),
                staged_path(self.staging_root@, name@),
                r,
            ),
    {
        let path = join3(self.staging_root.as_str(), "/", name);
        fs.remove_path_recursive(path.as_str())
    }

    /// The names of all items, in table order.
    pub fn list<D: BlockDevice>(&self, fs: &SimpleFs<D>) -> (r: Result<Vec<String>>)
        requires
            fs.wf(),
        ensures
            match r {
                Ok(v) => staged_names(*fs, self.staging_root@) == Ok::<Seq<Seq<char>>, Error>(
                    texts(v@),
                ),
                Err(e) => staged_names(*fs, self.staging_root@) == Err::<Seq<Seq<char>>, Error>(e),
            },
    {
        let ghost t = fs.state.tree();
        let index = fs.geometry.lookup_index_locked(&fs.state, self.staging_root.as_str())?;
        proof {
            lemma_lookup_live(
                t,
                fs.geometry,
                (fs.device.image().len() / 512) as int,
                self.staging_root@,
            );
        }
        let inode = fs.state.inodes[index];
        if !matches!(inode.kind, NodeKind::Directory) {
            return Err(Error::InvalidArgument);
        }
        let ghost all = staged_names(*fs, self.staging_root@)->Ok_0;
        assert(live_dir(t.inodes[index as int]));
        assert(slice_end(inode) <= t.entries.len());
        assert(t.entries.len() == fs.state.dir_entries@.len());
        let mut names: Vec<String> = Vec::new();
        let mut k: u32 = 0;
        assert(texts(names@) =~= all.take(0));
        while k < inode.entry_count
            invariant
                k <= inode.entry_count,
                t == fs.state.tree(),
                t.entries.len() == fs.state.dir_entries@.len(),
                slice_end(inode) <= t.entries.len(),
                all.len() == inode.entry_count,
                forall|j: int|
                    #![trigger all[j]]
                    0 <= j < all.len() ==> all[j] == t.entries[inode.entry_start + j].name,
                texts(names@) == all.take(k as int),
            decreases inode.entry_count - k,
        {
            let _count: usize = fs.state.dir_entries.len();
            let d: usize = (inode.entry_start as u64 + k as u64) as usize;
            assert(fs.state.dir_entries@[d as int]@ == t.entries[d as int]);
            let ghost before = texts(names@);
            names.push(fs.state.dir_entries[d].name.clone());
            assert(texts(names@) =~= before.push(all[k as int]));
            assert(all.take(k + 1) =~= all.take(k as int).push(all[k as int]));
            k = k + 1;
        }
        assert(all.take(k as int) =~= all);
        Ok(names)
    }

    /// Gives all items up. Says how many there were.
    pub fn cleanup<D: BlockDevice>(&self, fs: &mut SimpleFs<D>) -> (r: Result<usize>)
        requires
            old(fs).wf(),
        ensures
            final(fs).wf(),
            match staged_names(*old(fs), self.staging_root@) {
                Err(e) => refused(*old(fs), *final(fs), r, e),
                Ok(names) => {
                    &&& removed_in_turn(
                        *old(fs),
                        *final(fs),
                        Seq::new(names.len(), |k: int| staged_path(self.staging_root@, names[k])),
                        bare(r),
                    )
                    &&& r matches Ok(n) ==> n == names.len()
                },
            },
    {
        let ghost a = *fs;
        let names = self.list(fs)?;
        let ghost all = texts(names@);
        let ghost paths = Seq::new(all.len(), |k: int| staged_path(self.staging_root@, all[k]));
        let mut k: usize = 0;
        let done: Result<()> = Ok(());
        assert(paths.take(0) =~= Seq::<Seq<char>>::empty());
        while k < names.len()
            invariant
                fs.wf(),
                all == texts(names@),
                paths == Seq::new(all.len(), |k: int| staged_path(self.staging_root@, all[k])),
                staged_names(a, self.staging_root@) == Ok::<Seq<Seq<char>>, Error>(all),
                a == *old(fs),
                done == Ok::<(), Error>(()),
                k <= names@.len(),
                removed_in_turn(a, *fs, paths.take(k as int), done),
            decreases names@.len() - k,
        {
            let ghost m = *fs;
            let r = self.abort(fs, names[k].as_str());
            proof {
                assert(paths[k as int] == staged_path(self.staging_root@, names@[k as int]@));
                lemma_turn(a, m, *fs, paths, k as int, r);
            }
            match r {
                Ok(u) => {
                    assert(u == ());
                },
                Err(error) => {
                    proof {
                        lemma_turns_after_failure(a, *fs, paths, k + 1, r);
                    }
                    return Err(error);
                },
            }
            k = k + 1;
        }
        assert(paths.take(k as int) =~= paths);
        Ok(names.len())
    }

    /// Puts an item in place, keeping what was there under a name of its own. Both happen in
    /// one transaction.
    pub fn publish_with_backup<D: BlockDevice>(
        &self,
        fs: &mut SimpleFs<D>,
        name: &str,
        target: &str,
    ) -> (r: Result<VersionSwitch>)
        requires
            old(fs).wf(),
        ensures
            final(fs).wf(),
            published_with_backup(
                *old(fs),
                *final(fs),
                staged_path(self.staging_root@, name@),
                target@,
                bare(r),
            ),
            r matches Ok(s) ==> {
                &&& s.target@ == target@
                &&& s.backup_path@ == backup_of(target@)
                &&& s.backup_exists == plain_lookup(
                    old(fs).state.tree(),
                    target@,
                    old(fs).geometry.case_sensitive,
                ) is Ok
            },
    {
        if target.is_empty() || is_root(target) {
            return Err(Error::InvalidArgument);
        }
        if fs.device.is_read_only() {
            return Err(Error::PermissionDenied);
        }
        let ghost a = *fs;
        let staged = join3(self.staging_root.as_str(), "/", name);
        let backup_path = join2(target, ".bak");
        let target_exists = fs.geometry.lookup_index(&fs.state, target).is_ok();
        fs.begin();
        let outcome = fs.publish_locked(
            staged.as_str(),
            target,
            backup_path.as_str(),
            target_exists,
        );
        let end = fs.settle(outcome, Ghost(a));
        match end {
            Ok(u) => {
                assert(u == ());
            },
            Err(error) => {
                return Err(error);
            },
        }
        Ok(
            VersionSwitch {
                target: target.to_owned(),
                backup_path,
                backup_exists: target_exists,
            },
        )
    }
}

proof fn lemma_turn<D: BlockDevice>(
    a: SimpleFs<D>,
    m: SimpleFs<D>,
    b: SimpleFs<D>,
    paths: Seq<Seq<char>>,
    k: int,
    r: core::result::Result<(), Error>,
)
    requires
        0 <= k < paths.len(),
        removed_in_turn(a, m, paths.take(k), Ok::<(), Error>(())),
        recursive_removal_outcome(m, b, paths[k], r),
    ensures
        removed_in_turn(a, b, paths.take(k + 1), r),
{
    let next = paths.take(k + 1);
    assert(next.drop_last() =~= paths.take(k));
    assert(next.last() == paths[k]);
    assert(turn_taken(m, b, next.last(), Ok::<(), Error>(()), r));
}

proof fn lemma_turns_after_failure<D: BlockDevice>(
    a: SimpleFs<D>,
    b: SimpleFs<D>,
    paths: Seq<Seq<char>>,
    k: int,
    r: core::result::Result<(), Error>,
)
    requires
        0 <= k <= paths.len(),
        removed_in_turn(a, b, paths.take(k), r),
        r is Err,
    ensures
        removed_in_turn(a, b, paths, r),
    decreases paths.len() - k,
{
    if k < paths.len() {
        let next = paths.take(k + 1);
        assert(next.drop_last() =~= paths.take(k));
        assert(turn_taken(b, b, next.last(), r, r));
        lemma_turns_after_failure(a, b, paths, k + 1, r);
    } else {
        assert(paths.take(k) =~= paths);
    }
}

impl VersionSwitch {
    /// Makes the new version final: the former one goes.
    pub fn commit<D: BlockDevice>(self, fs: &mut SimpleFs<D>) -> (r: Result<()>)
        requires
            old(fs).wf(),
        ensures
            final(fs).wf(),
            if self.backup_exists {
                recursive_removal_outcome(*old(fs), *final(fs), self.backup_path@, r)
            } else {
                r is Ok && *final(fs) == *old(fs)
            },
    {
        if self.backup_exists {
            fs.remove_path_recursive(self.backup_path.as_str())?;
        }
        Ok(())
    }

    /// Goes back to the former version: the two change places.
    pub fn rollback<D: BlockDevice>(self, fs: &mut SimpleFs<D>) -> (r: Result<()>)
        requires
            old(fs).wf(),
        ensures
            final(fs).wf(),
            if self.backup_exists {
                swap_outcome(*old(fs), *final(fs), self.backup_path@, self.target@, r)
            } else {
                r is Ok && *final(fs) == *old(fs)
            },
    {
        if self.backup_exists {
            fs.swap_paths(self.backup_path.as_str(), self.target.as_str())?;
        }
        Ok(())
    }

    /// Where the former version is kept, if there was one.
    pub fn backup_path(&self) -> (r: Option<&str>)
        ensures
            match r {
                Some(p) => self.backup_exists && p@ == self.backup_path@,
                None => !self.backup_exists,
            },
    {
        if self.backup_exists {
            Some(self.backup_path.as_str())
        } else {
            None
        }
    }
}

} // verus!
