//! Several changes in one commit.
use vstd::prelude::*;
use vstd::string::*;

use crate::block::BlockDevice;
use crate::error::{Error, Result};
use crate::simplefs::create::create_dir_outcome;
use crate::simplefs::lookup::lookup;
use crate::simplefs::ops::{described, dir_created, refused};
use crate::simplefs::remove::{after_unlink, remove_plan};
use crate::simplefs::settle::{same_nodes, settled, unchanged};
use crate::simplefs::state::{TreeView, undo_kept};
use crate::simplefs::symlink::follow;
use crate::simplefs::tree::{VolumeGeometry, entry_linked, shape_ok};
use crate::simplefs::tree_steps::lemma_kept_way_back;
use crate::simplefs::volume::{SimpleFs, same_device};
use crate::simplefs::xattr::{erased_xattr, find_xattr, lemma_find_deleted_sound, lemma_find_xattr_sound, xattr_set};
use crate::vfs::{MAX_PERMISSION_MODE, SecurityDescriptor};

verus! {

/// What a transaction's steps work on: a volume between the start of a
/// transaction and its end.
pub struct TransactionContext<'a, D: BlockDevice> {
    pub fs: &'a mut SimpleFs<D>,
}

/// Whether the steps of a transaction kept to its rules: a sound tree where they
/// succeeded, and a way back in any case.
pub open spec fn steps_ok<D: BlockDevice>(
    a: SimpleFs<D>,
    b: SimpleFs<D>,
    succeeded: bool,
) -> bool {
    &&& b.geometry == a.geometry
    &&& b.state.rest() == a.state.rest()
    &&& same_device(a.device, b.device)
    &&& undo_kept(a.state, b.state)
    &&& succeeded ==> b.txn_ok()
}

/// Whether `c` is a transaction's start on a volume.
pub open spec fn begun<D: BlockDevice>(a: SimpleFs<D>, c: SimpleFs<D>) -> bool {
    &&& c.geometry == a.geometry
    &&& c.device == a.device
    &&& c.state.tree() == a.state.tree()
    &&& c.state.rest() == a.state.rest()
    &&& c.txn_ok()
}

/// How a transaction ends whose steps left the volume as `c` with the answer
/// `outcome`.
pub open spec fn transaction_end<D: BlockDevice, T>(
    a: SimpleFs<D>,
    c: SimpleFs<D>,
    outcome: core::result::Result<T, Error>,
    b: SimpleFs<D>,
    r: core::result::Result<T, Error>,
) -> bool {
    match outcome {
        Err(e) => r == Err::<T, Error>(e) && unchanged(a, b) && b.device == c.device,
        Ok(v) => (r matches Ok(w) ==> w == v) && settled(
            a,
            c.device.image(),
            c.state.tree(),
            b,
            r,
        ),
    }
}

/// The tree after an attribute was set on the node a path leads to, or why it
/// cannot be.
pub open spec fn xattr_set_tree<D: BlockDevice>(
    fs: SimpleFs<D>,
    path: Seq<char>,
    name: Seq<u8>,
    value: Seq<u8>,
) -> core::result::Result<TreeView, Error> {
    let t = fs.state.tree();
    match follow(t, fs.device, path, 0, fs.geometry.case_sensitive) {
        Err(e) => Err(e),
        Ok(i) => match xattr_set(
            t.xattrs,
            i,
            t.inodes.len() as int,
            fs.geometry.xattr_capacity as int,
            name,
            value,
        ) {
            Err(e) => Err(e),
            Ok(xs) => Ok(TreeView { xattrs: xs, ..t }),
        },
    }
}

/// The tree after an attribute was removed from the node a path leads to, or why
/// it cannot be.
pub open spec fn xattr_removed_tree<D: BlockDevice>(
    fs: SimpleFs<D>,
    path: Seq<char>,
    name: Seq<u8>,
) -> core::result::Result<TreeView, Error> {
    let t = fs.state.tree();
    match follow(t, fs.device, path, 0, fs.geometry.case_sensitive) {
        Err(e) => Err(e),
        Ok(i) => match find_xattr(t.xattrs, i, name, 0) {
            None => Err(Error::NotFound),
            Some(k) => Ok(
                TreeView { xattrs: t.xattrs.update(k, erased_xattr(t.xattrs[k])), ..t },
            ),
        },
    }
}

/// Attributes play no part in a tree's shape.
pub proof fn lemma_shape_ignores_xattrs(
    t: TreeView,
    n: TreeView,
    g: VolumeGeometry,
    blocks: int,
    orphan: Option<usize>,
)
    requires
        shape_ok(t, g, blocks, orphan),
        n == (TreeView { xattrs: n.xattrs, ..t }),
    ensures
        shape_ok(n, g, blocks, orphan),
{
    assert(n.inodes == t.inodes && n.entries == t.entries && n.parents == t.parents && n.positions
        == t.positions && n.dirs == t.dirs && n.free_slots == t.free_slots);
    assert forall|d: int| #![trigger n.entries[d]] 0 <= d < n.entries.len() implies entry_linked(
        n,
        d,
    ) by {
        assert(entry_linked(t, d));
    }
}

impl<D: BlockDevice> TransactionContext<'_, D> {
    /// Creates an empty directory.
    pub fn create_dir(&mut self, path: &str) -> (r: Result<()>)
        requires
            old(self).fs.txn_ok(),
        ensures
            steps_ok(*old(self).fs, *final(self).fs, true),
            final(self).fs.device == old(self).fs.device,
            *final(final(self).fs) == *final(old(self).fs),
            match create_dir_outcome(
                old(self).fs.state.tree(),
                old(self).fs.geometry,
                path@,
                None,
            ) {
                Ok(parent) => r is Ok && final(self).fs.state.tree() == dir_created(
                    old(self).fs.state.tree(),
                    old(self).fs.geometry,
                    path@,
                    None,
                    parent,
                ),
                Err(e) => r == Err::<(), Error>(e) && *final(self).fs == *old(self).fs,
            },
    {
        self.create_dir_with_security(path, None)
    }

    /// Creates an empty directory, with a descriptor of its own.
    pub fn create_dir_with_security(
        &mut self,
        path: &str,
        security: Option<SecurityDescriptor>,
    ) -> (r: Result<()>)
        requires
            old(self).fs.txn_ok(),
        ensures
            steps_ok(*old(self).fs, *final(self).fs, true),
            final(self).fs.device == old(self).fs.device,
            *final(final(self).fs) == *final(old(self).fs),
            match create_dir_outcome(
                old(self).fs.state.tree(),
                old(self).fs.geometry,
                path@,
                security,
            ) {
                Ok(parent) => r is Ok && final(self).fs.state.tree() == dir_created(
                    old(self).fs.state.tree(),
                    old(self).fs.geometry,
                    path@,
                    security,
                    parent,
                ),
                Err(e) => r == Err::<(), Error>(e) && *final(self).fs == *old(self).fs,
            },
    {
        self.fs.create_dir_locked(path, security)
    }

    /// Removes a file, a symlink or an empty directory.
    pub fn remove_path(&mut self, path: &str) -> (r: Result<()>)
        requires
            old(self).fs.txn_ok(),
        ensures
            steps_ok(*old(self).fs, *final(self).fs, true),
            final(self).fs.device == old(self).fs.device,
            *final(final(self).fs) == *final(old(self).fs),
            match remove_plan(old(self).fs.state.tree(), old(self).fs.geometry, path@) {
                Ok((parent, d)) => r is Ok && same_nodes(
                    after_unlink(
                        old(self).fs.state.tree(),
                        parent,
                        d,
                        old(self).fs.state.rest().handles,
                    ),
                    final(self).fs.state.tree(),
                ),
                Err(e) => r == Err::<(), Error>(e) && *final(self).fs == *old(self).fs,
            },
    {
        self.fs.remove_path_locked(path)
    }

    /// Replaces the stored descriptor of a node.
    pub fn update_security_descriptor(&mut self, path: &str, security: SecurityDescriptor) -> (r:
        Result<()>)
        requires
            old(self).fs.txn_ok(),
        ensures
            steps_ok(*old(self).fs, *final(self).fs, true),
            final(self).fs.device == old(self).fs.device,
            *final(final(self).fs) == *final(old(self).fs),
            if !old(self).fs.geometry.format_version.stores_security() {
                r == Err::<(), Error>(Error::Unsupported) && *final(self).fs == *old(self).fs
            } else if security.mode > MAX_PERMISSION_MODE {
                r == Err::<(), Error>(Error::InvalidArgument) && *final(self).fs == *old(self).fs
            } else {
                match lookup(
                    old(self).fs.state.tree(),
                    path@,
                    old(self).fs.geometry.case_sensitive,
                ) {
                    Ok(i) => r is Ok && final(self).fs.state.tree() == described(
                        old(self).fs.state.tree(),
                        i,
                        security,
                    ),
                    Err(e) => r == Err::<(), Error>(e) && *final(self).fs == *old(self).fs,
                }
            },
    {
        self.fs.update_security_descriptor_locked(path, security)
    }

    /// Sets an attribute of the node a path leads to, symlinks followed.
    pub fn set_xattr(&mut self, path: &str, name: &[u8], value: &[u8]) -> (r: Result<()>)
        requires
            old(self).fs.txn_ok(),
        ensures
            steps_ok(*old(self).fs, *final(self).fs, true),
            final(self).fs.device == old(self).fs.device,
            *final(final(self).fs) == *final(old(self).fs),
            match xattr_set_tree(*old(self).fs, path@, name@, value@) {
                Ok(n) => r is Ok && final(self).fs.state.tree() == n,
                Err(e) => r == Err::<(), Error>(e) && *final(self).fs == *old(self).fs,
            },
    {
        let ghost fs = *self.fs;
        let index = self.fs.geometry.resolve_path_locked(&self.fs.state, &self.fs.device, path)?;
        self.fs.geometry.set_xattr_for_inode(&mut self.fs.state, index, name, value)?;
        proof {
            lemma_shape_ignores_xattrs(
                fs.state.tree(),
                self.fs.state.tree(),
                fs.geometry,
                (fs.device.image().len() / 512) as int,
                None,
            );
            lemma_kept_way_back(fs.state, self.fs.state);
            lemma_find_xattr_sound(fs.state.tree().xattrs, index as int, name@, 0);
            lemma_find_deleted_sound(fs.state.tree().xattrs, 0);
        }
        Ok(())
    }

    /// Removes an attribute of the node a path leads to, symlinks followed.
    pub fn remove_xattr(&mut self, path: &str, name: &[u8]) -> (r: Result<()>)
        requires
            old(self).fs.txn_ok(),
        ensures
            steps_ok(*old(self).fs, *final(self).fs, true),
            final(self).fs.device == old(self).fs.device,
            *final(final(self).fs) == *final(old(self).fs),
            match xattr_removed_tree(*old(self).fs, path@, name@) {
                Ok(n) => r is Ok && final(self).fs.state.tree() == n,
                Err(e) => r == Err::<(), Error>(e) && *final(self).fs == *old(self).fs,
            },
    {
        let ghost fs = *self.fs;
        let index = self.fs.geometry.resolve_path_locked(&self.fs.state, &self.fs.device, path)?;
        self.fs.state.remove_xattr_for_inode(index, name)?;
        proof {
            lemma_shape_ignores_xattrs(
                fs.state.tree(),
                self.fs.state.tree(),
                fs.geometry,
                (fs.device.image().len() / 512) as int,
                None,
            );
            lemma_find_xattr_sound(fs.state.tree().xattrs, index as int, name@, 0);
            lemma_kept_way_back(fs.state, self.fs.state);
        }
        Ok(())
    }
}

impl<D: BlockDevice> SimpleFs<D> {
    /// Runs `f` as one transaction: what its steps did is committed as a whole where
    /// `f` succeeds, and taken back as a whole where it fails.
    pub fn transaction<T, F: FnOnce(&mut TransactionContext<D>) -> Result<T>>(&mut self, f: F) -> (r:
        Result<T>)
        requires
            old(self).wf(),
            forall|c: &mut TransactionContext<D>|
                #![trigger call_requires(f, (c,))]
                c.fs.txn_ok() ==> call_requires(f, (c,)),
            forall|c: &mut TransactionContext<D>, r: Result<T>|
                #![trigger call_ensures(f, (c,), r)]
                call_ensures(f, (c,), r) ==> steps_ok(*c.fs, *final(c).fs, r is Ok)
                    && *final(final(c).fs) == *final(c.fs),
        ensures
            final(self).wf(),
            old(self).device.write_protected() ==> refused(
                *old(self),
                *final(self),
                r,
                Error::PermissionDenied,
            ),
            !old(self).device.write_protected() ==> exists|
                c: &mut TransactionContext<D>,
                outcome: Result<T>,
            |
                #![trigger call_ensures(f, (c,), outcome)]
                begun(*old(self), *c.fs) && call_ensures(f, (c,), outcome) && transaction_end(
                    *old(self),
                    *final(c).fs,
                    outcome,
                    *final(self),
                    r,
                ),
    {
        if self.device.is_read_only() {
            return Err(Error::PermissionDenied);
        }
        let ghost a = *self;
        self.begin();
        let mut ctx = TransactionContext { fs: self };
        let outcome = f(&mut ctx);
        self.settle(outcome, Ghost(a))
    }
}

} // verus!
