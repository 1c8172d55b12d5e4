//! Renaming, moving and swapping nodes.
use vstd::prelude::*;
use vstd::string::*;

use crate::block::BlockDevice;
use crate::error::{Error, Result};
use crate::simplefs::create::lemma_lookup_live;
use crate::simplefs::extents::{free_is_rest, is_free, is_owned};
use crate::simplefs::lookup::{child_entry, entry_matches, lemma_find_entry_sound, lies_under, lookup};
use crate::simplefs::names::{base_name, base_text, name_ok, parent_path, parent_text, same_name, validate_dir_entry_name};
use crate::simplefs::remove::{lemma_insert_owner, lemma_remove_owner};
use crate::simplefs::state::{TreeView, undo_kept};
use crate::simplefs::tree::{VolumeGeometry, after_insert, after_remove, entries_linked, entry_linked, lemma_insert_shape, lemma_remove_shape, place_taken, shape_ok, slices_apart};
use crate::simplefs::tree_laws::{law_remove_listing, lemma_unique_match, listing};
use crate::simplefs::tree_steps::{lemma_kept_trans, lemma_kept_way_back, lemma_shape_indexed};
use crate::simplefs::types::{DirEntryView, OnDiskDirEntry};
use crate::simplefs::validate::{covers, live_dir, slice_end, slice_names_distinct};
use crate::simplefs::volume::SimpleFs;
use crate::vfs::NodeKind;

verus! {

/// What a rename does: give an entry another name, or move it to another directory.
pub enum RenamePlan {
    InPlace { entry: int },
    Move { from: int, entry: int, to: int },
}

/// The directory a path's parent leads to.
pub open spec fn parent_dir(t: TreeView, g: VolumeGeometry, path: Seq<char>) -> core::result::Result<
    int,
    Error,
> {
    match parent_text(path) {
        None => Err(Error::InvalidArgument),
        Some(p) => lookup(t, p, g.case_sensitive),
    }
}

/// What renaming comes to, or why it is refused.
pub open spec fn rename_plan(
    t: TreeView,
    g: VolumeGeometry,
    old_path: Seq<char>,
    new_path: Seq<char>,
) -> core::result::Result<RenamePlan, Error> {
    let cs = g.case_sensitive;
    if !name_ok(base_text(new_path)) || parent_text(old_path) is None || parent_text(new_path)
        is None {
        Err(Error::InvalidArgument)
    } else {
        match (parent_dir(t, g, old_path), parent_dir(t, g, new_path)) {
            (Err(e), _) => Err(e),
            (Ok(_), Err(e)) => Err(e),
            (Ok(from), Ok(to)) => if t.inodes[from].kind != NodeKind::Directory
                || t.inodes[to].kind != NodeKind::Directory {
                Err(Error::InvalidArgument)
            } else {
                match child_entry(t, from, base_text(old_path), cs) {
                    Err(e) => Err(e),
                    Ok(d) => match child_entry(t, to, base_text(new_path), cs) {
                        Ok(e) => if from == to && e == d {
                            Ok(RenamePlan::InPlace { entry: d })
                        } else {
                            Err(Error::AlreadyExists)
                        },
                        Err(e) => if e != Error::NotFound {
                            Err(e)
                        } else if from == to {
                            Ok(RenamePlan::InPlace { entry: d })
                        } else {
                            let c = t.entries[d].inode_index as int;
                            if t.inodes[c].kind == NodeKind::Directory {
                                match lies_under(t, to, c, t.parents.len()) {
                                    Err(e) => Err(e),
                                    Ok(true) => Err(Error::InvalidArgument),
                                    Ok(false) => Ok(RenamePlan::Move { from, entry: d, to }),
                                }
                            } else {
                                Ok(RenamePlan::Move { from, entry: d, to })
                            }
                        },
                    },
                }
            },
        }
    }
}

/// The tree after entry `d` was given another name.
pub open spec fn after_relabel(t: TreeView, d: int, name: Seq<char>) -> TreeView {
    TreeView { entries: t.entries.update(d, DirEntryView { name, ..t.entries[d] }), ..t }
}

/// The tree after a rename, or why it is refused.
pub open spec fn rename_tree(
    t: TreeView,
    g: VolumeGeometry,
    old_path: Seq<char>,
    new_path: Seq<char>,
) -> core::result::Result<TreeView, Error> {
    let name = base_text(new_path);
    match rename_plan(t, g, old_path, new_path) {
        Err(e) => Err(e),
        Ok(RenamePlan::InPlace { entry }) => Ok(after_relabel(t, entry, name)),
        Ok(RenamePlan::Move { from, entry, to }) => {
            let m = after_remove(t, from, entry);
            if place_taken(m.inodes, to) {
                Err(Error::InternalError)
            } else {
                Ok(after_insert(m, to, DirEntryView { name, ..t.entries[entry] }))
            }
        },
    }
}

/// Giving an entry a name that nothing else in its directory goes by keeps the
/// tree sound.
pub proof fn lemma_relabel_entry_shape(
    t: TreeView,
    g: VolumeGeometry,
    blocks: int,
    parent: int,
    d: int,
    name: Seq<char>,
)
    requires
        shape_ok(t, g, blocks, None),
        0 <= parent < t.inodes.len(),
        covers(t.inodes[parent], d),
        name_ok(name),
        forall|e: int|
            #![trigger t.entries[e]]
            t.inodes[parent].entry_start <= e < slice_end(t.inodes[parent]) && e != d
                ==> !same_name(t.entries[e].name, name, g.case_sensitive),
    ensures
        shape_ok(after_relabel(t, d, name), g, blocks, None),
{
    let n = after_relabel(t, d, name);
    let cs = g.case_sensitive;
    assert(slice_end(t.inodes[parent]) <= t.entries.len());
    assert forall|i: int| #![trigger n.inodes[i]] 0 <= i < n.inodes.len() && live_dir(
        n.inodes[i],
    ) implies slice_end(n.inodes[i]) <= n.entries.len() && slice_names_distinct(
        n.entries,
        n.inodes[i].entry_start as int,
        slice_end(n.inodes[i]),
        cs,
    ) by {
        assert(live_dir(t.inodes[i]));
        if i < parent {
            assert(slices_apart(t.inodes[i], t.inodes[parent]));
        } else if i > parent {
            assert(slices_apart(t.inodes[parent], t.inodes[i]));
        }
        let from = n.inodes[i].entry_start as int;
        let to = slice_end(n.inodes[i]);
        assert forall|a: int, b: int| #![trigger n.entries[a], n.entries[b]] from <= a < b
            < to implies !same_name(n.entries[a].name, n.entries[b].name, cs) by {
            assert(!same_name(t.entries[a].name, t.entries[b].name, cs));
            if a == d {
                assert(!same_name(t.entries[b].name, name, cs));
            } else if b == d {
                assert(!same_name(t.entries[a].name, name, cs));
            }
        }
    }
    assert forall|e: int| #![trigger n.entries[e]] 0 <= e < n.entries.len() implies entry_linked(
        n,
        e,
    ) by {
        assert(entry_linked(t, e));
    }
    assert forall|i: int| #![trigger n.positions[i]] 0 <= i < n.inodes.len() implies if i == 0
        || n.inodes[i].deleted {
        n.positions[i] is None && n.parents[i] is None
    } else {
        &&& n.positions[i] is Some
        &&& n.positions[i]->0 < n.entries.len()
        &&& n.entries[n.positions[i]->0 as int].inode_index == i
    } by {
        assert(n.positions[i] == t.positions[i]);
    }
}

/// Where a rename in place is planned, nothing else in the directory goes by the
/// new name.
proof fn lemma_in_place_is_free(
    t: TreeView,
    g: VolumeGeometry,
    blocks: int,
    parent: int,
    d: int,
    name: Seq<char>,
)
    requires
        shape_ok(t, g, blocks, None),
        0 <= parent < t.inodes.len(),
        covers(t.inodes[parent], d),
        match child_entry(t, parent, name, g.case_sensitive) {
            Ok(e) => e == d,
            Err(e) => e == Error::NotFound,
        },
    ensures
        forall|e: int|
            #![trigger t.entries[e]]
            t.inodes[parent].entry_start <= e < slice_end(t.inodes[parent]) && e != d
                ==> !same_name(t.entries[e].name, name, g.case_sensitive),
{
    let cs = g.case_sensitive;
    let from = t.inodes[parent].entry_start as int;
    let to = slice_end(t.inodes[parent]);
    assert(live_dir(t.inodes[parent]));
    lemma_find_entry_sound(t, from, to, name, cs);
    assert forall|e: int| #![trigger t.entries[e]] from <= e < to && e != d implies !same_name(
        t.entries[e].name,
        name,
        cs,
    ) by {
        assert(entry_linked(t, e));
        if same_name(t.entries[e].name, name, cs) {
            assert(entry_matches(t.inodes, t.entries[e], name, cs));
            lemma_unique_match(t, from, to, name, cs, e);
        }
    }
}

/// A name that a directory lacks is still lacking where its listing is unchanged.
proof fn lemma_still_absent(t: TreeView, m: TreeView, to: int, name: Seq<char>, cs: bool)
    requires
        0 <= to < t.inodes.len(),
        0 <= to < m.inodes.len(),
        live_dir(t.inodes[to]),
        slice_end(t.inodes[to]) <= t.entries.len(),
        slice_end(m.inodes[to]) <= m.entries.len(),
        entries_linked(t),
        listing(m, to) == listing(t, to),
        child_entry(t, to, name, cs) == Err::<int, Error>(Error::NotFound),
    ensures
        forall|e: int|
            #![trigger m.entries[e]]
            m.inodes[to].entry_start <= e < slice_end(m.inodes[to]) ==> !same_name(
                m.entries[e].name,
                name,
                cs,
            ),
{
    lemma_find_entry_sound(
        t,
        t.inodes[to].entry_start as int,
        slice_end(t.inodes[to]),
        name,
        cs,
    );
    assert forall|e: int| #![trigger m.entries[e]] m.inodes[to].entry_start <= e < slice_end(
        m.inodes[to],
    ) implies !same_name(m.entries[e].name, name, cs) by {
        let k = e - m.inodes[to].entry_start;
        assert(listing(m, to)[k] == m.entries[e]);
        let o = t.inodes[to].entry_start + k;
        assert(listing(t, to).len() == slice_end(t.inodes[to]) - t.inodes[to].entry_start);
        assert(listing(m, to).len() == slice_end(m.inodes[to]) - m.inodes[to].entry_start);
        assert(listing(t, to)[k] == t.entries[o]);
        assert(entry_linked(t, o));
    }
}

/// Moving an entry leaves the free list what the inodes leave.
proof fn lemma_move_rest(
    t: TreeView,
    g: VolumeGeometry,
    from: int,
    d: int,
    to: int,
    entry: DirEntryView,
)
    requires
        free_is_rest(t.free, t.inodes, g.data_block_start as int, g.block_limit as int),
    ensures
        ({
            let n = after_insert(after_remove(t, from, d), to, entry);
            free_is_rest(n.free, n.inodes, g.data_block_start as int, g.block_limit as int)
        }),
{
    let m = after_remove(t, from, d);
    let n = after_insert(m, to, entry);
    assert forall|b: int|
        #![trigger is_free(n.free, b)]
        g.data_block_start <= b < g.block_limit implies is_free(n.free, b) == !is_owned(
        n.inodes,
        b,
    ) by {
        assert(is_free(t.free, b) == !is_owned(t.inodes, b));
        lemma_remove_owner(t, from, d, b);
        lemma_insert_owner(m, to, entry, b);
    }
}

impl<D: BlockDevice> SimpleFs<D> {
    /// Moves entry `d` of one directory to another, under a name that is free there.
    fn move_entry(&mut self, from: usize, d: usize, to: usize, name: &str) -> (r: Result<()>)
        requires
            old(self).txn_ok(),
            from < old(self).state.tree().inodes.len(),
            to < old(self).state.tree().inodes.len(),
            from != to,
            covers(old(self).state.tree().inodes[from as int], d as int),
            live_dir(old(self).state.tree().inodes[to as int]),
            name_ok(name@),
            child_entry(
                old(self).state.tree(),
                to as int,
                name@,
                old(self).geometry.case_sensitive,
            ) == Err::<int, Error>(Error::NotFound),
        ensures
            final(self).geometry == old(self).geometry,
            final(self).device == old(self).device,
            undo_kept(old(self).state, final(self).state),
            final(self).state.rest() == old(self).state.rest(),
            ({
                let t = old(self).state.tree();
                let m = after_remove(t, from as int, d as int);
                if place_taken(m.inodes, to as int) {
                    r == Err::<(), Error>(Error::InternalError)
                } else {
                    &&& r is Ok
                    &&& final(self).state.tree() == after_insert(
                        m,
                        to as int,
                        (DirEntryView { name: name@, ..t.entries[d as int] }),
                    )
                    &&& final(self).txn_ok()
                }
            }),
    {
        let ghost t = self.state.tree();
        let ghost g = self.geometry;
        let ghost blocks = (self.device.image().len() / 512) as int;
        let ghost child = t.entries[d as int].inode_index;
        let ghost m = after_remove(t, from as int, d as int);
        proof {
            lemma_shape_indexed(t, g, blocks, None);
            assert(slice_end(t.inodes[from as int]) <= t.entries.len());
            assert(slice_end(t.inodes[to as int]) <= t.entries.len());
            assert forall|e: int|
                #![trigger t.entries[e]]
                0 <= e < t.entries.len() implies t.entries[e].inode_index < t.inodes.len() by {
                assert(entry_linked(t, e));
            }
            assert(entry_linked(t, d as int));
            lemma_remove_shape(t, g, blocks, from as int, d as int);
            lemma_shape_indexed(m, g, blocks, Some(child as usize));
            law_remove_listing(t, g, blocks, from as int, d as int, to as int);
        }
        let removed = self.geometry.remove_dir_entry_locked(&mut self.state, from, d)?;
        let ghost mid = self.state;
        assert(mid.tree() == m);
        let entry = OnDiskDirEntry {
            inode_index: removed.inode_index,
            kind: removed.kind,
            name: name.to_owned(),
        };
        assert(removed@.inode_index == removed.inode_index && removed@.kind == removed.kind);
        assert(entry@ == (DirEntryView { name: name@, ..t.entries[d as int] }));
        self.geometry.insert_dir_entry_locked(&mut self.state, to, entry)?;
        proof {
            lemma_kept_trans(old(self).state, mid, self.state);
            lemma_kept_way_back(old(self).state, self.state);
            assert(live_dir(m.inodes[to as int]));
            assert(slice_end(m.inodes[to as int]) <= m.entries.len());
            lemma_still_absent(t, m, to as int, name@, g.case_sensitive);
            lemma_insert_shape(m, g, blocks, to as int, entry@);
            lemma_move_rest(t, g, from as int, d as int, to as int, entry@);
        }
        Ok(())
    }
}

impl<D: BlockDevice> SimpleFs<D> {
    /// Renames or moves a node within a transaction.
    pub fn rename_locked(&mut self, old_path: &str, new_path: &str) -> (r: Result<()>)
        requires
            old(self).txn_ok(),
        ensures
            final(self).geometry == old(self).geometry,
            final(self).device == old(self).device,
            undo_kept(old(self).state, final(self).state),
            final(self).state.rest() == old(self).state.rest(),
            match rename_tree(
                old(self).state.tree(),
                old(self).geometry,
                old_path@,
                new_path@,
            ) {
                Ok(n) => r is Ok && final(self).state.tree() == n && final(self).txn_ok(),
                Err(e) => r == Err::<(), Error>(e),
            },
    {
        let ghost t = self.state.tree();
        let ghost g = self.geometry;
        let ghost blocks = (self.device.image().len() / 512) as int;
        let new_name = base_name(new_path);
        validate_dir_entry_name(new_name)?;
        let old_parent_path = match parent_path(old_path) {
            Some(p) => p,
            None => {
                return Err(Error::InvalidArgument);
            },
        };
        let new_parent_path = match parent_path(new_path) {
            Some(p) => p,
            None => {
                return Err(Error::InvalidArgument);
            },
        };
        let from = self.geometry.lookup_index_locked(&self.state, old_parent_path.as_str())?;
        let to = self.geometry.lookup_index_locked(&self.state, new_parent_path.as_str())?;
        proof {
            lemma_lookup_live(t, g, blocks, old_parent_path@);
            lemma_lookup_live(t, g, blocks, new_parent_path@);
        }
        if !matches!(self.state.inodes[from].kind, NodeKind::Directory) || !matches!(
            self.state.inodes[to].kind, NodeKind::Directory) {
            return Err(Error::InvalidArgument);
        }
        let old_entry = self.geometry.resolve_live_child_dirent_locked(
            &self.state,
            from,
            base_name(old_path),
        )?;
        let d: usize = old_entry.entry_index;
        let same_parent: bool = from == to;
        let in_place: bool = match self.geometry.resolve_live_child_dirent_locked(
            &self.state,
            to,
            new_name,
        ) {
            Ok(target) => {
                if same_parent && target.entry_index == d {
                    true
                } else {
                    return Err(Error::AlreadyExists);
                }
            },
            Err(Error::NotFound) => same_parent,
            Err(error) => {
                return Err(error);
            },
        };
        if in_place {
            proof {
                lemma_in_place_is_free(t, g, blocks, from as int, d as int, new_name@);
                lemma_relabel_entry_shape(t, g, blocks, from as int, d as int, new_name@);
            }
            self.state.rename_entry(d, new_name);
            proof {
                lemma_kept_way_back(old(self).state, self.state);
                assert(self.state.tree() == after_relabel(t, d as int, new_name@));
            }
            return Ok(());
        }
        if matches!(old_entry.inode.kind, NodeKind::Directory)
            && self.geometry.is_descendant_index_locked(
            &self.state,
            to,
            old_entry.inode_index,
        )? {
            return Err(Error::InvalidArgument);
        }
        self.move_entry(from, d, to, new_name)
    }
}

} // verus!
