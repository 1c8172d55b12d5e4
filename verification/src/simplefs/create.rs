//! Creating directories, files and symlinks.
use vstd::prelude::*;
use vstd::string::*;
use vstd::utf8::encode_utf8;

use crate::block::BlockDevice;
use crate::error::{Error, Result};
use crate::simplefs::extents::{Extent, best_fit, find_best_fit, free_is_rest, is_owned, run_starts_at};
use crate::simplefs::inode_slots::{after_alloc, alloc_index, inode_fits, lemma_alloc_shape, slot_available};
use crate::simplefs::lookup::{child_entry, is_here, is_up, lemma_find_entry_sound, lookup, parent_or_root, walk};
use crate::simplefs::names::{base_name, base_text, is_root, name_ok, parent_path, parent_text, root_path, same_name, validate_dir_entry_name};
use crate::simplefs::open::block_limit_of;
use crate::simplefs::path_laws::{lemma_absent_child, lemma_lookup_is_walk};
use crate::simplefs::state::{SimpleFsState, TreeView, undo_kept};
use crate::simplefs::tree::{VolumeGeometry, after_insert, entry_linked, lemma_insert_shape, place_taken, shape_ok};
use crate::simplefs::tree_steps::{has_way_back, lemma_kept_trans, lemma_shape_indexed, place_is_taken, step_frame};
use crate::simplefs::types::{DirEntryView, OnDiskDirEntry, OnDiskInode, OnDiskPersistentSecurityDescriptor, SimpleFsFormatVersion};
use crate::simplefs::validate::{extent_end, live_dir, owns_extent, slice_end};
use crate::simplefs::volume::{SimpleFs, geometry_ok};
use crate::text::{split_on, trim_end};
use crate::vfs::{DEFAULT_DIRECTORY_MODE, MAX_PERMISSION_MODE, NodeKind, ROOT_GROUP_ID, ROOT_OWNER_ID, SecurityDescriptor};

verus! {

/// Where the best-fit search for `required` blocks ends, if anywhere.
pub open spec fn best_start(list: Seq<Extent>, required: int) -> Option<int> {
    if exists|k: int| #![trigger list[k]] best_fit(list, required, k) {
        Some(
            list[choose|k: int| #![trigger list[k]] best_fit(list, required, k)].start as int,
        )
    } else {
        None
    }
}

/// Start of the smallest free run that holds `required` blocks.
pub fn find_free_run(list: &Vec<Extent>, required: u64) -> (r: Result<u64>)
    ensures
        match r {
            Ok(start) => best_start(list@, required as int) == Some(start as int) && run_starts_at(
                list@,
                start as int,
                required as int,
            ),
            Err(e) => e == Error::OutOfMemory && best_start(list@, required as int) is None,
        },
{
    match find_best_fit(list, required) {
        Some(start) => {
            proof {
                let k = choose|k: int|
                    #![trigger list@[k]]
                    best_fit(list@, required as int, k) && list@[k].start == start;
                let j = choose|k: int| #![trigger list@[k]] best_fit(list@, required as int, k);
                assert(list@[j].count >= required && list@[k].count >= required);
                assert(k == j);
            }
            Ok(start)
        },
        None => {
            assert forall|k: int| #![trigger list@[k]] !best_fit(list@, required as int, k) by {
                if 0 <= k < list@.len() {
                    assert(list@[k].count < required);
                }
            }
            Err(Error::OutOfMemory)
        },
    }
}

impl<D: BlockDevice> SimpleFs<D> {
    /// What holds of a volume at every step of a transaction.
    pub open spec fn txn_ok(&self) -> bool {
        let t = self.state.tree();
        let blocks = (self.device.image().len() / 512) as int;
        &&& geometry_ok(self.geometry)
        &&& shape_ok(t, self.geometry, blocks, None)
        &&& free_is_rest(
            t.free,
            t.inodes,
            self.geometry.data_block_start as int,
            self.geometry.block_limit as int,
        )
        &&& t.xattrs.len() <= self.geometry.xattr_capacity
        &&& self.geometry.block_limit == block_limit_of(
            blocks,
            self.geometry.data_block_start as int,
        )
        &&& has_way_back(self.state)
    }
}

/// Whether permission bits are within range.
pub open spec fn mode_ok(security: Option<SecurityDescriptor>) -> bool {
    security matches Some(s) ==> s.mode <= MAX_PERMISSION_MODE
}

/// The descriptor a new node gets where the format stores one: the one asked for,
/// or its directory's owner with default permissions.
pub open spec fn initial_security(
    version: SimpleFsFormatVersion,
    parent: OnDiskInode,
    security: Option<SecurityDescriptor>,
    mode: u16,
) -> Option<OnDiskPersistentSecurityDescriptor> {
    if !version.stores_security() {
        None
    } else {
        match security {
            Some(s) => Some(
                OnDiskPersistentSecurityDescriptor {
                    owner_uid: s.owner_uid,
                    owner_gid: s.owner_gid,
                    mode: s.mode,
                },
            ),
            None => match parent.persistent_security {
                Some(p) => Some(OnDiskPersistentSecurityDescriptor { mode, ..p }),
                None => Some(
                    OnDiskPersistentSecurityDescriptor {
                        owner_uid: ROOT_OWNER_ID,
                        owner_gid: ROOT_GROUP_ID,
                        mode,
                    },
                ),
            },
        }
    }
}

pub fn make_initial_security(
    version: SimpleFsFormatVersion,
    parent: OnDiskInode,
    security: Option<SecurityDescriptor>,
    mode: u16,
) -> (r: Option<OnDiskPersistentSecurityDescriptor>)
    ensures
        r == initial_security(version, parent, security, mode),
{
    if version.persistent_security_descriptor_layout().is_none() {
        return None;
    }
    match security {
        Some(s) => Some(
            OnDiskPersistentSecurityDescriptor {
                owner_uid: s.owner_uid,
                owner_gid: s.owner_gid,
                mode: s.mode,
            },
        ),
        None => match parent.persistent_security {
            Some(p) => Some(
                OnDiskPersistentSecurityDescriptor {
                    owner_uid: p.owner_uid,
                    owner_gid: p.owner_gid,
                    mode,
                },
            ),
            None => Some(
                OnDiskPersistentSecurityDescriptor {
                    owner_uid: ROOT_OWNER_ID,
                    owner_gid: ROOT_GROUP_ID,
                    mode,
                },
            ),
        },
    }
}

/// Whether a path can name a new node.
pub open spec fn path_nameable(path: Seq<char>) -> bool {
    path.len() > 0 && path != root_path() && name_ok(base_text(path))
}

/// The directory a new node at `path` goes to, or why it cannot be created.
pub open spec fn create_parent(t: TreeView, g: VolumeGeometry, path: Seq<char>) -> core::result::Result<
    int,
    Error,
> {
    if lookup(t, path, g.case_sensitive) is Ok {
        Err(Error::AlreadyExists)
    } else if !slot_available(t, g) || t.entries.len() >= g.dirent_capacity {
        Err(Error::OutOfMemory)
    } else {
        match lookup(t, parent_text(path)->0, g.case_sensitive) {
            Err(e) => Err(e),
            Ok(p) => if p >= t.inodes.len() {
                Err(Error::InternalError)
            } else if t.inodes[p].kind != NodeKind::Directory {
                Err(Error::InvalidArgument)
            } else if place_taken(t.inodes, p) {
                Err(Error::InternalError)
            } else {
                Ok(p)
            },
        }
    }
}

/// The tree after `inode` was created as `name` in a directory.
pub open spec fn after_create(
    t: TreeView,
    parent: int,
    inode: OnDiskInode,
    name: Seq<char>,
) -> TreeView {
    after_insert(
        after_alloc(t, inode),
        parent,
        DirEntryView { inode_index: alloc_index(t) as u32, kind: inode.kind, name },
    )
}

/// A directory that a walk leads to is in use.
pub proof fn lemma_walk_live(t: TreeView, g: VolumeGeometry, blocks: int, steps: Seq<Seq<char>>, at: int)
    requires
        shape_ok(t, g, blocks, None),
        0 <= at < t.inodes.len(),
        !t.inodes[at].deleted,
    ensures
        walk(t, steps, at, g.case_sensitive) matches Ok(i) ==> 0 <= i < t.inodes.len()
            && !t.inodes[i].deleted,
    decreases steps.len(),
{
    if steps.len() > 0 {
        let rest = steps.skip(1);
        if is_here(steps[0]) {
            lemma_walk_live(t, g, blocks, rest, at);
        } else if is_up(steps[0]) {
            let up = parent_or_root(t, at);
            if t.parents[at] is Some {
                assert(t.positions[at] is Some);
                let d = t.positions[at]->0 as int;
                assert(entry_linked(t, d));
            }
            lemma_walk_live(t, g, blocks, rest, up);
        } else {
            match child_entry(t, at, steps[0], g.case_sensitive) {
                Ok(d) => {
                    lemma_find_entry_sound(
                        t,
                        t.inodes[at].entry_start as int,
                        slice_end(t.inodes[at]),
                        steps[0],
                        g.case_sensitive,
                    );
                    lemma_walk_live(t, g, blocks, rest, t.entries[d].inode_index as int);
                },
                Err(_) => {},
            }
        }
    }
}

pub proof fn lemma_lookup_live(t: TreeView, g: VolumeGeometry, blocks: int, path: Seq<char>)
    requires
        shape_ok(t, g, blocks, None),
    ensures
        lookup(t, path, g.case_sensitive) matches Ok(i) ==> 0 <= i < t.inodes.len()
            && !t.inodes[i].deleted,
{
    lemma_lookup_is_walk(t, path, g.case_sensitive);
    lemma_walk_live(t, g, blocks, split_on(path, '/'), 0);
}

/// A usable name has something left of its path once slashes are trimmed.
pub proof fn lemma_nameable(path: Seq<char>)
    requires
        path_nameable(path),
    ensures
        trim_end(path, '/').len() > 0,
        parent_text(path) is Some,
{
    if trim_end(path, '/').len() == 0 {
        assert(root_path()[0] == '/');
        assert(base_text(path).contains('/'));
    }
}

/// Where a node can be created, its directory has no entry by its name.
pub proof fn lemma_name_is_new(t: TreeView, g: VolumeGeometry, blocks: int, path: Seq<char>, parent: int)
    requires
        shape_ok(t, g, blocks, None),
        path_nameable(path),
        create_parent(t, g, path) == Ok::<int, Error>(parent),
    ensures
        0 <= parent < t.inodes.len(),
        live_dir(t.inodes[parent]),
        forall|d: int|
            #![trigger t.entries[d]]
            t.inodes[parent].entry_start <= d < slice_end(t.inodes[parent]) ==> !same_name(
                t.entries[d].name,
                base_text(path),
                g.case_sensitive,
            ),
{
    lemma_nameable(path);
    lemma_lookup_live(t, g, blocks, parent_text(path)->0);
    lemma_absent_child(t, path, g.case_sensitive, parent);
    let from = t.inodes[parent].entry_start as int;
    let to = slice_end(t.inodes[parent]);
    assert(live_dir(t.inodes[parent]));
    lemma_find_entry_sound(t, from, to, base_text(path), g.case_sensitive);
    assert forall|d: int| #![trigger t.entries[d]] from <= d < to implies !same_name(
        t.entries[d].name,
        base_text(path),
        g.case_sensitive,
    ) by {
        assert(entry_linked(t, d));
    }
}

/// Handing out a slot does not take anyone's place in the entry table.
pub proof fn lemma_alloc_place(t: TreeView, g: VolumeGeometry, blocks: int, inode: OnDiskInode, parent: int)
    requires
        shape_ok(t, g, blocks, None),
        inode_fits(t, g, blocks, inode),
        slot_available(t, g),
        0 <= parent < t.inodes.len(),
        live_dir(t.inodes[parent]),
        !place_taken(t.inodes, parent),
    ensures
        !place_taken(after_alloc(t, inode).inodes, parent),
        after_alloc(t, inode).inodes[parent] == t.inodes[parent],
{
    let n = after_alloc(t, inode);
    let x = alloc_index(t);
    if t.free_slots.len() > 0 {
        assert(t.inodes[t.free_slots[t.free_slots.len() - 1] as int].deleted);
    }
    assert(parent != x);
    assert forall|i: int| #![trigger n.inodes[i]] 0 <= i < n.inodes.len() && i != parent
        && live_dir(n.inodes[i]) implies !(n.inodes[i].entry_start < slice_end(n.inodes[parent])
        < slice_end(n.inodes[i])) by {
        if i != x {
            assert(n.inodes[i] == t.inodes[i]);
        }
    }
}

/// Creating a node keeps the tree sound.
pub proof fn lemma_create_shape(
    t: TreeView,
    g: VolumeGeometry,
    blocks: int,
    parent: int,
    inode: OnDiskInode,
    name: Seq<char>,
)
    requires
        shape_ok(t, g, blocks, None),
        slot_available(t, g),
        t.entries.len() < g.dirent_capacity,
        inode_fits(t, g, blocks, inode),
        0 <= parent < t.inodes.len(),
        live_dir(t.inodes[parent]),
        !place_taken(t.inodes, parent),
        name_ok(name),
        forall|d: int|
            #![trigger t.entries[d]]
            t.inodes[parent].entry_start <= d < slice_end(t.inodes[parent]) ==> !same_name(
                t.entries[d].name,
                name,
                g.case_sensitive,
            ),
    ensures
        shape_ok(after_create(t, parent, inode, name), g, blocks, None),
        alloc_index(t) <= u32::MAX,
{
    lemma_alloc_shape(t, g, blocks, inode);
    lemma_alloc_place(t, g, blocks, inode, parent);
    lemma_insert_shape(
        after_alloc(t, inode),
        g,
        blocks,
        parent,
        DirEntryView { inode_index: alloc_index(t) as u32, kind: inode.kind, name },
    );
}

impl VolumeGeometry {
    /// Puts a new inode in a slot and its entry in a directory.
    pub fn add_node(
        &self,
        state: &mut SimpleFsState,
        blocks: Ghost<int>,
        parent: usize,
        inode: OnDiskInode,
        name: &str,
    ) -> (r: Result<usize>)
        requires
            shape_ok(old(state).tree(), *self, blocks@, None),
            has_way_back(*old(state)),
            slot_available(old(state).tree(), *self),
            old(state).tree().entries.len() < self.dirent_capacity,
            inode_fits(old(state).tree(), *self, blocks@, inode),
            parent < old(state).tree().inodes.len(),
            live_dir(old(state).tree().inodes[parent as int]),
            !place_taken(old(state).tree().inodes, parent as int),
            name_ok(name@),
            forall|d: int|
                #![trigger old(state).tree().entries[d]]
                old(state).tree().inodes[parent as int].entry_start <= d < slice_end(
                    old(state).tree().inodes[parent as int],
                ) ==> !same_name(old(state).tree().entries[d].name, name@, self.case_sensitive),
        ensures
            r == Ok::<usize, Error>(alloc_index(old(state).tree()) as usize),
            final(state).tree() == after_create(
                old(state).tree(),
                parent as int,
                inode,
                name@,
            ),
            shape_ok(final(state).tree(), *self, blocks@, None),
            step_frame(*old(state), *final(state)),
            undo_kept(*old(state), *final(state)),
            has_way_back(*final(state)),
            alloc_index(old(state).tree()) <= u32::MAX,
    {
        let ghost t = old(state).tree();
        proof {
            lemma_alloc_shape(t, *self, blocks@, inode);
            lemma_alloc_place(t, *self, blocks@, inode, parent as int);
            lemma_create_shape(t, *self, blocks@, parent as int, inode, name@);
        }
        let index = self.allocate_inode_slot(state, inode)?;
        let ghost mid = *state;
        proof {
            lemma_shape_indexed(mid.tree(), *self, blocks@, Some(index));
        }
        let entry = OnDiskDirEntry {
            inode_index: index as u32,
            kind: inode.kind,
            name: name.to_owned(),
        };
        self.insert_dir_entry_locked(state, parent, entry)?;
        proof {
            lemma_kept_trans(*old(state), mid, *state);
        }
        Ok(index)
    }

    /// The directory a new node at `path` goes to.
    pub fn find_create_parent(
        &self,
        state: &SimpleFsState,
        blocks: Ghost<int>,
        path: &str,
    ) -> (r: Result<usize>)
        requires
            shape_ok(state.tree(), *self, blocks@, None),
            path_nameable(path@),
        ensures
            match r {
                Ok(p) => create_parent(state.tree(), *self, path@) == Ok::<int, Error>(p as int)
                    && p < state.inodes@.len(),
                Err(e) => create_parent(state.tree(), *self, path@) == Err::<int, Error>(e),
            },
    {
        proof {
            lemma_nameable(path@);
        }
        if self.lookup_index_locked(state, path).is_ok() {
            return Err(Error::AlreadyExists);
        }
        assert(state.tree().entries.len() == state.dir_entries@.len());
        if !self.has_available_inode_slot(state) || state.dir_entries.len()
            >= self.dirent_capacity as usize {
            return Err(Error::OutOfMemory);
        }
        let parent = match parent_path(path) {
            Some(p) => p,
            None => {
                return Err(Error::InvalidArgument);
            },
        };
        let parent_index = self.lookup_index_locked(state, parent.as_str())?;
        if parent_index >= state.inodes.len() {
            return Err(Error::InternalError);
        }
        if !matches!(state.inodes[parent_index].kind, NodeKind::Directory) {
            return Err(Error::InvalidArgument);
        }
        proof {
            lemma_lookup_live(state.tree(), *self, blocks@, parent@);
            assert(live_dir(state.tree().inodes[parent_index as int]));
        }
        let inode = state.inodes[parent_index];
        let at: usize = (inode.entry_start as u64 + inode.entry_count as u64) as usize;
        if place_is_taken(state, parent_index, at) {
            return Err(Error::InternalError);
        }
        Ok(parent_index)
    }
}

/// Accepts the paths that can name a new node.
pub fn check_nameable(path: &str) -> (r: Result<()>)
    ensures
        r == (if path_nameable(path@) {
            Ok::<(), Error>(())
        } else {
            Err(Error::InvalidArgument)
        }),
{
    if path.is_empty() || is_root(path) {
        return Err(Error::InvalidArgument);
    }
    validate_dir_entry_name(base_name(path))
}

/// A new directory's inode.
pub open spec fn new_dir_inode(
    t: TreeView,
    g: VolumeGeometry,
    parent: int,
    security: Option<SecurityDescriptor>,
) -> OnDiskInode {
    OnDiskInode {
        kind: NodeKind::Directory,
        deleted: false,
        entry_start: t.entries.len() as u32,
        entry_count: 0,
        data_block: 0,
        block_count: 0,
        size: 0,
        persistent_security: initial_security(
            g.format_version,
            t.inodes[parent],
            security,
            DEFAULT_DIRECTORY_MODE,
        ),
        data_checksum: 0,
        compressed: false,
        deduped: false,
    }
}

/// What creating a directory comes to: its parent, or why not.
pub open spec fn create_dir_outcome(
    t: TreeView,
    g: VolumeGeometry,
    path: Seq<char>,
    security: Option<SecurityDescriptor>,
) -> core::result::Result<int, Error> {
    if !mode_ok(security) || !path_nameable(path) {
        Err(Error::InvalidArgument)
    } else {
        create_parent(t, g, path)
    }
}

impl<D: BlockDevice> SimpleFs<D> {
    /// Creates a directory within a transaction.
    pub fn create_dir_locked(&mut self, path: &str, security: Option<SecurityDescriptor>) -> (r:
        Result<()>)
        requires
            old(self).txn_ok(),
        ensures
            final(self).geometry == old(self).geometry,
            final(self).device == old(self).device,
            final(self).txn_ok(),
            undo_kept(old(self).state, final(self).state),
            final(self).state.rest() == old(self).state.rest(),
            match create_dir_outcome(
                old(self).state.tree(),
                old(self).geometry,
                path@,
                security,
            ) {
                Ok(parent) => {
                    &&& r is Ok
                    &&& final(self).state.tree() == after_create(
                        old(self).state.tree(),
                        parent,
                        new_dir_inode(
                            old(self).state.tree(),
                            old(self).geometry,
                            parent,
                            security,
                        ),
                        base_text(path@),
                    )
                },
                Err(e) => r == Err::<(), Error>(e) && *final(self) == *old(self),
            },
    {
        match security {
            Some(s) => {
                if s.mode > MAX_PERMISSION_MODE {
                    return Err(Error::InvalidArgument);
                }
            },
            None => {},
        }
        check_nameable(path)?;
        let ghost blocks = (self.device.image().len() / 512) as int;
        let ghost t = self.state.tree();
        let parent_index = self.geometry.find_create_parent(&self.state, Ghost(blocks), path)?;
        proof {
            lemma_name_is_new(t, self.geometry, blocks, path@, parent_index as int);
        }
        let parent_inode = self.state.inodes[parent_index];
        assert(t.entries.len() == self.state.dir_entries@.len());
        let inode = OnDiskInode {
            kind: NodeKind::Directory,
            deleted: false,
            entry_start: self.state.dir_entries.len() as u32,
            entry_count: 0,
            data_block: 0,
            block_count: 0,
            size: 0,
            persistent_security: make_initial_security(
                self.geometry.format_version,
                parent_inode,
                security,
                DEFAULT_DIRECTORY_MODE,
            ),
            data_checksum: 0,
            compressed: false,
            deduped: false,
        };
        assert(inode_fits(t, self.geometry, blocks, inode));
        let _index = self.geometry.add_node(
            &mut self.state,
            Ghost(blocks),
            parent_index,
            inode,
            base_name(path),
        )?;
        proof {
            lemma_create_owns(t, parent_index as int, inode, base_text(path@));
        }
        Ok(())
    }
}

/// Creating a node that owns no blocks changes no block's owner.
pub proof fn lemma_create_owns(t: TreeView, parent: int, inode: OnDiskInode, name: Seq<char>)
    requires
        !owns_extent(inode),
        t.free_slots.len() > 0 ==> t.free_slots.last() < t.inodes.len()
            && t.inodes[t.free_slots.last() as int].deleted,
    ensures
        forall|b: int|
            #![trigger is_owned(after_create(t, parent, inode, name).inodes, b)]
            is_owned(after_create(t, parent, inode, name).inodes, b) == is_owned(t.inodes, b),
{
    let n = after_create(t, parent, inode, name);
    let x = alloc_index(t);
    assert forall|b: int| #![trigger is_owned(n.inodes, b)] is_owned(n.inodes, b) == is_owned(
        t.inodes,
        b,
    ) by {
        lemma_create_owner(t, parent, inode, name, b);
    }
}

/// Who owns a block after a node was created: whoever owned it before, or the
/// new node.
pub proof fn lemma_create_owner(
    t: TreeView,
    parent: int,
    inode: OnDiskInode,
    name: Seq<char>,
    b: int,
)
    requires
        t.free_slots.len() > 0 ==> t.free_slots.last() < t.inodes.len()
            && t.inodes[t.free_slots.last() as int].deleted,
    ensures
        is_owned(after_create(t, parent, inode, name).inodes, b) == (is_owned(t.inodes, b) || (
        owns_extent(inode) && inode.data_block <= b < extent_end(inode))),
{
    let n = after_create(t, parent, inode, name);
    let x = alloc_index(t);
    let m = after_alloc(t, inode);
    assert(m.inodes[x] == inode);
    if is_owned(n.inodes, b) {
        let i = choose|i: int|
            #![trigger n.inodes[i]]
            0 <= i < n.inodes.len() && owns_extent(n.inodes[i]) && n.inodes[i].data_block <= b
                < extent_end(n.inodes[i]);
        assert(owns_extent(m.inodes[i]));
        if i != x {
            assert(m.inodes[i] == t.inodes[i]);
        }
    }
    if is_owned(t.inodes, b) {
        let i = choose|i: int|
            #![trigger t.inodes[i]]
            0 <= i < t.inodes.len() && owns_extent(t.inodes[i]) && t.inodes[i].data_block <= b
                < extent_end(t.inodes[i]);
        assert(i != x);
        assert(m.inodes[i] == t.inodes[i]);
        assert(owns_extent(n.inodes[i]) && n.inodes[i].data_block == t.inodes[i].data_block);
    }
    if owns_extent(inode) && inode.data_block <= b < extent_end(inode) {
        assert(owns_extent(n.inodes[x]));
    }
}

} // verus!
