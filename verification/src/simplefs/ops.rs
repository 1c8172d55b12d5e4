//! The operations of a mounted volume that change its tree, one commit each.
use vstd::prelude::*;
use vstd::string::*;
use vstd::utf8::*;

use crate::block::BlockDevice;
use crate::bytes::{put, zeros};
use crate::error::{Error, Result};
use crate::simplefs::constants::MAX_INLINE_SYMLINK_LEN;
use crate::simplefs::create::{after_create, check_nameable, create_dir_outcome, lemma_lookup_live, mode_ok, new_dir_inode, path_nameable};
use crate::simplefs::create_file::{create_file_plan, create_symlink_plan, new_file_inode, new_symlink_inode};
use crate::simplefs::inode_slots::alloc_index;
use crate::simplefs::lookup::{lies_under, lookup};
use crate::simplefs::names::{base_name, base_text, is_root, name_ok, parent_path, parent_text, root_path, validate_dir_entry_name};
use crate::simplefs::remove::{after_unlink, remove_plan};
use crate::simplefs::rename::rename_tree;
use crate::simplefs::settle::{settled, unchanged};
use crate::simplefs::state::{TreeView, undo_kept, undo_ok};
use crate::simplefs::tree::VolumeGeometry;
use crate::simplefs::tree_steps::lemma_kept_trans;
use crate::simplefs::types::{OnDiskInode, OnDiskPersistentSecurityDescriptor};
use crate::simplefs::undo::only_undo_differs;
use crate::simplefs::volume::{SimpleFs, same_outside, volume_write_fault};
use crate::text::{decimal, join2, join3, str_eq, to_decimal};
use crate::vfs::{MAX_PERMISSION_MODE, NodeKind, SecurityDescriptor, SecurityDescriptorMutationSupport};

verus! {

/// Whether an operation was refused for `e` without touching anything.
pub open spec fn refused<D: BlockDevice, T>(
    a: SimpleFs<D>,
    b: SimpleFs<D>,
    r: core::result::Result<T, Error>,
    e: Error,
) -> bool {
    r == Err::<T, Error>(e) && b == a
}

/// Whether a transaction was given up for `e` and taken back.
pub open spec fn taken_back<D: BlockDevice, T>(
    a: SimpleFs<D>,
    b: SimpleFs<D>,
    r: core::result::Result<T, Error>,
    e: Error,
) -> bool {
    r == Err::<T, Error>(e) && unchanged(a, b) && b.device == a.device
}

/// The tree after a new file took its place.
pub open spec fn file_created(
    t: TreeView,
    g: VolumeGeometry,
    path: Seq<char>,
    security: Option<SecurityDescriptor>,
    parent: int,
    block: int,
) -> TreeView {
    after_create(t, parent, new_file_inode(t, g, parent, security, block), base_text(path))
}

/// The tree after a new directory took its place.
pub open spec fn dir_created(
    t: TreeView,
    g: VolumeGeometry,
    path: Seq<char>,
    security: Option<SecurityDescriptor>,
    parent: int,
) -> TreeView {
    after_create(t, parent, new_dir_inode(t, g, parent, security), base_text(path))
}

/// The name that holds one of two swapped nodes in between.
pub open spec fn swap_name(generation: u32) -> Seq<char> {
    ".swap-tmp-"@ + decimal(generation as nat)
}

/// The path that holds the first of two swapped nodes in between.
pub open spec fn swap_path(path_a: Seq<char>, generation: u32) -> Seq<char> {
    parent_text(path_a)->0 + "/"@ + swap_name(generation)
}

/// Whether one of two nodes is a directory that holds the other.
pub open spec fn swap_allowed(t: TreeView, a: int, b: int) -> core::result::Result<(), Error> {
    let first = if t.inodes[a].kind == NodeKind::Directory {
        lies_under(t, b, a, t.parents.len())
    } else {
        Ok(false)
    };
    let second = if t.inodes[b].kind == NodeKind::Directory {
        lies_under(t, a, b, t.parents.len())
    } else {
        Ok(false)
    };
    match first {
        Err(e) => Err(e),
        Ok(true) => Err(Error::InvalidArgument),
        Ok(false) => match second {
            Err(e) => Err(e),
            Ok(true) => Err(Error::InvalidArgument),
            Ok(false) => Ok(()),
        },
    }
}

/// The tree after two nodes changed places, or why they cannot.
pub open spec fn swap_tree(
    t: TreeView,
    g: VolumeGeometry,
    generation: u32,
    path_a: Seq<char>,
    path_b: Seq<char>,
) -> core::result::Result<TreeView, Error> {
    let tmp = swap_path(path_a, generation);
    match (lookup(t, path_a, g.case_sensitive), lookup(t, path_b, g.case_sensitive)) {
        (Err(e), _) => Err(e),
        (Ok(_), Err(e)) => Err(e),
        (Ok(a), Ok(b)) => match swap_allowed(t, a, b) {
            Err(e) => Err(e),
            Ok(()) => match rename_tree(t, g, path_a, tmp) {
                Err(e) => Err(e),
                Ok(t1) => match rename_tree(t1, g, path_b, path_a) {
                    Err(e) => Err(e),
                    Ok(t2) => rename_tree(t2, g, tmp, path_b),
                },
            },
        },
    }
}

/// Whether a path names a node below the root.
pub open spec fn below_root(path: Seq<char>) -> bool {
    path.len() > 0 && path != root_path()
}

/// The tree after a node's descriptor was replaced.
pub open spec fn described(t: TreeView, i: int, security: SecurityDescriptor) -> TreeView {
    TreeView {
        inodes: t.inodes.update(
            i,
            OnDiskInode {
                persistent_security: Some(
                    OnDiskPersistentSecurityDescriptor {
                        owner_uid: security.owner_uid,
                        owner_gid: security.owner_gid,
                        mode: security.mode,
                    },
                ),
                ..t.inodes[i]
            },
        ),
        ..t
    }
}

impl<D: BlockDevice> SimpleFs<D> {
    /// Starts a transaction.
    pub fn begin(&mut self)
        requires
            old(self).wf(),
        ensures
            final(self).txn_ok(),
            final(self).geometry == old(self).geometry,
            final(self).device == old(self).device,
            only_undo_differs(old(self).state, final(self).state),
            final(self).state.tree() == old(self).state.tree(),
            final(self).state.rest() == old(self).state.rest(),
            undo_ok(final(self).state.tree(), final(self).state.undo@, old(self).state.tree()),
    {
        self.state.begin_undo();
    }

    /// Creates an empty file of one block.
    pub fn create_file(&mut self, path: &str) -> (r: Result<usize>)
        requires
            old(self).wf(),
        ensures
            final(self).wf(),
            file_creation(*old(self), *final(self), path@, None, r),
    {
        self.create_file_with_security(path, None)
    }

    /// Creates an empty file of one block, with a descriptor of its own.
    pub fn create_file_with_security(
        &mut self,
        path: &str,
        security: Option<SecurityDescriptor>,
    ) -> (r: Result<usize>)
        requires
            old(self).wf(),
        ensures
            final(self).wf(),
            file_creation(*old(self), *final(self), path@, security, r),
    {
        match security {
            Some(s) => {
                if s.mode > MAX_PERMISSION_MODE {
                    return Err(Error::InvalidArgument);
                }
            },
            None => {},
        }
        if self.device.is_read_only() {
            return Err(Error::PermissionDenied);
        }
        check_nameable(path)?;
        let ghost a = *self;
        self.begin();
        let outcome = self.create_file_locked(path, security);
        self.settle(outcome, Ghost(a))
    }

    /// Creates a symlink to `target`.
    pub fn create_symlink(&mut self, target: &str, link_path: &str) -> (r: Result<usize>)
        requires
            old(self).wf(),
            symlink_storable(*old(self), target@, link_path@),
        ensures
            final(self).wf(),
            symlink_creation(*old(self), *final(self), target@, link_path@, r),
    {
        if target.is_empty() {
            return Err(Error::InvalidArgument);
        }
        if self.device.is_read_only() {
            return Err(Error::PermissionDenied);
        }
        check_nameable(link_path)?;
        let ghost a = *self;
        self.begin();
        let outcome = self.create_symlink_locked(target, link_path);
        self.settle(outcome, Ghost(a))
    }

    /// Creates an empty directory.
    pub fn create_dir(&mut self, path: &str) -> (r: Result<()>)
        requires
            old(self).wf(),
        ensures
            final(self).wf(),
            dir_creation(*old(self), *final(self), path@, None, r),
    {
        self.create_dir_with_security(path, None)
    }

    /// Creates an empty directory, with a descriptor of its own.
    pub fn create_dir_with_security(
        &mut self,
        path: &str,
        security: Option<SecurityDescriptor>,
    ) -> (r: Result<()>)
        requires
            old(self).wf(),
        ensures
            final(self).wf(),
            dir_creation(*old(self), *final(self), path@, security, r),
    {
        proof {
            reveal(dir_creation);
        }
        if self.device.is_read_only() {
            return Err(Error::PermissionDenied);
        }
        let ghost a = *self;
        self.begin();
        let outcome = self.create_dir_locked(path, security);
        self.settle(outcome, Ghost(a))
    }

    /// Removes a file, a symlink or an empty directory.
    pub fn remove_path(&mut self, path: &str) -> (r: Result<()>)
        requires
            old(self).wf(),
        ensures
            final(self).wf(),
            removal_outcome(*old(self), *final(self), path@, r),
    {
        if self.device.is_read_only() {
            return Err(Error::PermissionDenied);
        }
        let ghost a = *self;
        self.begin();
        let outcome = self.remove_path_locked(path);
        self.settle(outcome, Ghost(a))
    }

    /// How far descriptors of this volume can be changed.
    pub fn security_descriptor_mutation_support(&self) -> (r: SecurityDescriptorMutationSupport)
        ensures
            r == (if !self.geometry.format_version.stores_security() {
                SecurityDescriptorMutationSupport::LayoutDerivedOnly
            } else if self.device.write_protected() {
                SecurityDescriptorMutationSupport::PersistentReadOnly
            } else {
                SecurityDescriptorMutationSupport::Persistent
            }),
    {
        if self.geometry.format_version.persistent_security_descriptor_layout().is_none() {
            SecurityDescriptorMutationSupport::LayoutDerivedOnly
        } else if self.device.is_read_only() {
            SecurityDescriptorMutationSupport::PersistentReadOnly
        } else {
            SecurityDescriptorMutationSupport::Persistent
        }
    }

    /// Accepts exactly the volumes on which descriptors can be written.
    pub fn require_persistent_security_descriptor_writes(&self) -> (r: Result<()>)
        ensures
            r == (if self.device.write_protected() {
                Err(Error::PermissionDenied)
            } else if !self.geometry.format_version.stores_security() {
                Err(Error::Unsupported)
            } else {
                Ok::<(), Error>(())
            }),
    {
        if self.device.is_read_only() {
            return Err(Error::PermissionDenied);
        }
        if self.geometry.format_version.persistent_security_descriptor_layout().is_none() {
            return Err(Error::Unsupported);
        }
        Ok(())
    }

    /// Replaces the stored descriptor of a node.
    pub fn update_security_descriptor(&mut self, path: &str, security: SecurityDescriptor) -> (r:
        Result<()>)
        requires
            old(self).wf(),
        ensures
            final(self).wf(),
            security_update(*old(self), *final(self), path@, security, r),
    {
        self.require_persistent_security_descriptor_writes()?;
        if security.mode > MAX_PERMISSION_MODE {
            return Err(Error::InvalidArgument);
        }
        let ghost a = *self;
        self.begin();
        let outcome = self.update_security_descriptor_locked(path, security);
        self.settle(outcome, Ghost(a))
    }

    /// Renames or moves a node.
    pub fn rename(&mut self, old_path: &str, new_path: &str) -> (r: Result<()>)
        requires
            old(self).wf(),
        ensures
            final(self).wf(),
            rename_outcome(*old(self), *final(self), old_path@, new_path@, r),
    {
        proof {
            reveal(rename_outcome);
        }
        if self.device.is_read_only() {
            return Err(Error::PermissionDenied);
        }
        if old_path.is_empty() || is_root(old_path) || new_path.is_empty() || is_root(new_path) {
            return Err(Error::InvalidArgument);
        }
        validate_dir_entry_name(base_name(new_path))?;
        let ghost a = *self;
        self.begin();
        let outcome = self.rename_locked(old_path, new_path);
        self.settle(outcome, Ghost(a))
    }

    /// Exchanges two nodes within a transaction, by three renames.
    fn swap_locked(&mut self, path_a: &str, path_b: &str) -> (r: Result<()>)
        requires
            old(self).txn_ok(),
            below_root(path_a@),
            below_root(path_b@),
        ensures
            final(self).geometry == old(self).geometry,
            final(self).device == old(self).device,
            undo_kept(old(self).state, final(self).state),
            final(self).state.rest() == old(self).state.rest(),
            match swap_tree(
                old(self).state.tree(),
                old(self).geometry,
                old(self).state.generation,
                path_a@,
                path_b@,
            ) {
                Ok(n) => r is Ok && final(self).state.tree() == n && final(self).txn_ok(),
                Err(e) => r == Err::<(), Error>(e),
            },
    {
        let ghost t = self.state.tree();
        let ghost blocks = (self.device.image().len() / 512) as int;
        let parent_a = match parent_path(path_a) {
            Some(p) => p,
            None => {
                return Err(Error::InvalidArgument);
            },
        };
        let number = to_decimal(self.state.generation as u64);
        let tmp_name = join2(".swap-tmp-", number.as_str());
        let tmp_path = join3(parent_a.as_str(), "/", tmp_name.as_str());
        let a = self.geometry.lookup_index_locked(&self.state, path_a)?;
        let b = self.geometry.lookup_index_locked(&self.state, path_b)?;
        proof {
            lemma_lookup_live(t, self.geometry, blocks, path_a@);
            lemma_lookup_live(t, self.geometry, blocks, path_b@);
        }
        if matches!(self.state.inodes[a].kind, NodeKind::Directory)
            && self.geometry.is_descendant_index_locked(&self.state, b, a)? {
            return Err(Error::InvalidArgument);
        }
        if matches!(self.state.inodes[b].kind, NodeKind::Directory)
            && self.geometry.is_descendant_index_locked(&self.state, a, b)? {
            return Err(Error::InvalidArgument);
        }
        self.rename_locked(path_a, tmp_path.as_str())?;
        let ghost s1 = self.state;
        self.rename_locked(path_b, path_a)?;
        proof {
            lemma_kept_trans(old(self).state, s1, self.state);
        }
        let ghost s2 = self.state;
        let r = self.rename_locked(tmp_path.as_str(), path_b);
        proof {
            lemma_kept_trans(old(self).state, s2, self.state);
        }
        r
    }

    /// Exchanges two nodes in one commit: afterwards each path leads to what the
    /// other led to, or nothing has changed.
    pub fn swap_paths(&mut self, path_a: &str, path_b: &str) -> (r: Result<()>)
        requires
            old(self).wf(),
        ensures
            final(self).wf(),
            swap_outcome(*old(self), *final(self), path_a@, path_b@, r),
    {
        proof {
            reveal(swap_outcome);
        }
        if self.device.is_read_only() {
            return Err(Error::PermissionDenied);
        }
        if path_a.is_empty() || is_root(path_a) || path_b.is_empty() || is_root(path_b)
            || str_eq(path_a, path_b) {
            return Err(Error::InvalidArgument);
        }
        let ghost a = *self;
        self.begin();
        let outcome = self.swap_locked(path_a, path_b);
        self.settle(outcome, Ghost(a))
    }
}

/// What creating a file does, and what it answers.
pub open spec fn file_creation<D: BlockDevice>(
    a: SimpleFs<D>,
    b: SimpleFs<D>,
    path: Seq<char>,
    security: Option<SecurityDescriptor>,
    r: core::result::Result<usize, Error>,
) -> bool {
    let t = a.state.tree();
    if !mode_ok(security) {
        refused(a, b, r, Error::InvalidArgument)
    } else if a.device.write_protected() {
        refused(a, b, r, Error::PermissionDenied)
    } else if !path_nameable(path) {
        refused(a, b, r, Error::InvalidArgument)
    } else {
        match create_file_plan(t, a.geometry, path) {
            Err(e) => taken_back(a, b, r, e),
            Ok((parent, block)) => match volume_write_fault(a.device, block, zeros(512)) {
                Some(e) => {
                    &&& r == Err::<usize, Error>(e)
                    &&& unchanged(a, b)
                    &&& same_outside(
                        a.device.image(),
                        b.device.image(),
                        block * 512,
                        block * 512 + 512,
                    )
                },
                None => {
                    &&& r matches Ok(i) ==> i == alloc_index(t)
                    &&& settled(
                        a,
                        put(a.device.image(), block * 512, zeros(512)),
                        file_created(t, a.geometry, path, security, parent, block),
                        b,
                        r,
                    )
                },
            },
        }
    }
}

/// Whether a symlink that would come to be made has a target that a block can hold.
pub open spec fn symlink_storable<D: BlockDevice>(
    a: SimpleFs<D>,
    target: Seq<char>,
    path: Seq<char>,
) -> bool {
    target.len() > 0 && !a.device.write_protected() && path_nameable(path) && create_symlink_plan(
        a.state.tree(),
        a.geometry,
        encode_utf8(target),
        path,
    ) is Ok ==> encode_utf8(target).len() <= 512
}

/// What replacing the stored descriptor of a node comes to.
pub open spec fn security_update<D: BlockDevice>(
    a: SimpleFs<D>,
    b: SimpleFs<D>,
    path: Seq<char>,
    security: SecurityDescriptor,
    r: Result<()>,
) -> bool {
    if a.device.write_protected() {
        refused(a, b, r, Error::PermissionDenied)
    } else if !a.geometry.format_version.stores_security() {
        refused(a, b, r, Error::Unsupported)
    } else if security.mode > MAX_PERMISSION_MODE {
        refused(a, b, r, Error::InvalidArgument)
    } else {
        match lookup(a.state.tree(), path, a.geometry.case_sensitive) {
            Err(e) => taken_back(a, b, r, e),
            Ok(i) => settled(a, a.device.image(), described(a.state.tree(), i, security), b, r),
        }
    }
}

/// What creating a symlink does, and what it answers.
pub open spec fn symlink_creation<D: BlockDevice>(
    a: SimpleFs<D>,
    b: SimpleFs<D>,
    target: Seq<char>,
    path: Seq<char>,
    r: core::result::Result<usize, Error>,
) -> bool {
    let t = a.state.tree();
    let bytes = encode_utf8(target);
    let long = bytes.len() > MAX_INLINE_SYMLINK_LEN;
    let data = bytes + zeros((512 - bytes.len()) as nat);
    if target.len() == 0 {
        refused(a, b, r, Error::InvalidArgument)
    } else if a.device.write_protected() {
        refused(a, b, r, Error::PermissionDenied)
    } else if !path_nameable(path) {
        refused(a, b, r, Error::InvalidArgument)
    } else {
        match create_symlink_plan(t, a.geometry, bytes, path) {
            Err(e) => taken_back(a, b, r, e),
            Ok((parent, block)) => if long && volume_write_fault(a.device, block, data) is Some {
                &&& r == Err::<usize, Error>(volume_write_fault(a.device, block, data)->0)
                &&& unchanged(a, b)
                &&& same_outside(a.device.image(), b.device.image(), block * 512, block * 512 + 512)
            } else {
                &&& r matches Ok(i) ==> i == alloc_index(t)
                &&& settled(
                    a,
                    if long {
                        put(a.device.image(), block * 512, data)
                    } else {
                        a.device.image()
                    },
                    after_create(
                        t,
                        parent,
                        new_symlink_inode(t, a.geometry, parent, bytes, block),
                        base_text(path),
                    ),
                    b,
                    r,
                )
            },
        }
    }
}

/// What creating a directory does, and what it answers.
#[verifier::opaque]
pub open spec fn dir_creation<D: BlockDevice>(
    a: SimpleFs<D>,
    b: SimpleFs<D>,
    path: Seq<char>,
    security: Option<SecurityDescriptor>,
    r: core::result::Result<(), Error>,
) -> bool {
    let t = a.state.tree();
    if a.device.write_protected() {
        refused(a, b, r, Error::PermissionDenied)
    } else {
        match create_dir_outcome(t, a.geometry, path, security) {
            Err(e) => taken_back(a, b, r, e),
            Ok(parent) => settled(
                a,
                a.device.image(),
                dir_created(t, a.geometry, path, security, parent),
                b,
                r,
            ),
        }
    }
}

/// What renaming a node does, and what it answers.
#[verifier::opaque]
pub open spec fn rename_outcome<D: BlockDevice>(
    a: SimpleFs<D>,
    b: SimpleFs<D>,
    old_path: Seq<char>,
    new_path: Seq<char>,
    r: core::result::Result<(), Error>,
) -> bool {
    if a.device.write_protected() {
        refused(a, b, r, Error::PermissionDenied)
    } else if !below_root(old_path) || !below_root(new_path) || !name_ok(base_text(new_path)) {
        refused(a, b, r, Error::InvalidArgument)
    } else {
        match rename_tree(a.state.tree(), a.geometry, old_path, new_path) {
            Err(e) => taken_back(a, b, r, e),
            Ok(n) => settled(a, a.device.image(), n, b, r),
        }
    }
}

/// What exchanging two nodes does, and what it answers.
#[verifier::opaque]
pub open spec fn swap_outcome<D: BlockDevice>(
    a: SimpleFs<D>,
    b: SimpleFs<D>,
    path_a: Seq<char>,
    path_b: Seq<char>,
    r: core::result::Result<(), Error>,
) -> bool {
    if a.device.write_protected() {
        refused(a, b, r, Error::PermissionDenied)
    } else if !below_root(path_a) || !below_root(path_b) || path_a == path_b {
        refused(a, b, r, Error::InvalidArgument)
    } else {
        match swap_tree(a.state.tree(), a.geometry, a.state.generation, path_a, path_b) {
            Err(e) => taken_back(a, b, r, e),
            Ok(n) => settled(a, a.device.image(), n, b, r),
        }
    }
}

/// What removing a node does, and what it answers.
pub open spec fn removal_outcome<D: BlockDevice>(
    a: SimpleFs<D>,
    b: SimpleFs<D>,
    path: Seq<char>,
    r: core::result::Result<(), Error>,
) -> bool {
    if a.device.write_protected() {
        refused(a, b, r, Error::PermissionDenied)
    } else {
        match remove_plan(a.state.tree(), a.geometry, path) {
            Err(e) => taken_back(a, b, r, e),
            Ok((parent, d)) => settled(
                a,
                a.device.image(),
                after_unlink(a.state.tree(), parent, d, a.state.rest().handles),
                b,
                r,
            ),
        }
    }
}

} // verus!
