//! When creating, removing and renaming is refused, and when it is not.
use vstd::prelude::*;
use vstd::utf8::encode_utf8;

use crate::error::Error;
use crate::simplefs::create::{create_parent, new_dir_inode};
use crate::simplefs::lookup::{child_entry, lies_under, lookup};
use crate::simplefs::name_laws::law_parent_and_name;
use crate::simplefs::names::image_path;
use crate::simplefs::remove::remove_plan;
use crate::simplefs::rename::{RenamePlan, rename_plan};
use crate::simplefs::state::TreeView;
use crate::simplefs::tree::VolumeGeometry;
use crate::simplefs::types::SimpleFsFormatVersion;
use crate::text::trimmed;
use crate::vfs::{NodeKind, SecurityDescriptor};

verus! {

/// Removing a name from a directory is refused where the directory has no such name, and where
/// the name is that of a directory that is not empty; otherwise it comes to that entry. The
/// root is never removed.
pub proof fn law_when_removal_is_refused(
    t: TreeView,
    g: VolumeGeometry,
    dir: Seq<char>,
    name: Seq<char>,
    p: int,
)
    requires
        dir.len() > 0,
        name.len() > 0,
        !name.contains('/'),
        lookup(t, dir, g.case_sensitive) == Ok::<int, Error>(p),
        0 <= p < t.inodes.len(),
        t.inodes[p].kind == NodeKind::Directory,
        !t.inodes[p].deleted,
    ensures
        ({
            let plan = remove_plan(t, g, dir + seq!['/'] + name);
            match child_entry(t, p, name, g.case_sensitive) {
                Err(e) => plan == Err::<(int, int), Error>(e),
                Ok(d) => {
                    let node = t.inodes[t.entries[d].inode_index as int];
                    &&& node.kind == NodeKind::Directory && node.entry_count > 0 ==> plan == Err::<
                        (int, int),
                        Error,
                    >(Error::Busy)
                    &&& node.kind != NodeKind::Directory || node.entry_count == 0 ==> plan == Ok::<
                        (int, int),
                        Error,
                    >((p, d))
                },
            }
        }),
        remove_plan(t, g, seq!['/']) == Err::<(int, int), Error>(Error::InvalidArgument),
{
    law_parent_and_name(dir, name);
    let path = dir + seq!['/'] + name;
    assert(path.len() > 1);
}

/// Renaming is refused where there is nothing of the old name, where there is something else of
/// the new name, and where a directory would come to lie in itself.
pub proof fn law_when_renaming_is_refused(
    t: TreeView,
    g: VolumeGeometry,
    dir: Seq<char>,
    name: Seq<char>,
    new_dir: Seq<char>,
    new_name: Seq<char>,
    from: int,
    to: int,
)
    requires
        dir.len() > 0,
        name.len() > 0,
        !name.contains('/'),
        new_dir.len() > 0,
        new_name.len() > 0,
        !new_name.contains('/'),
        encode_utf8(new_name).len() <= 56,
        lookup(t, dir, g.case_sensitive) == Ok::<int, Error>(from),
        lookup(t, new_dir, g.case_sensitive) == Ok::<int, Error>(to),
        t.inodes[from].kind == NodeKind::Directory,
        t.inodes[to].kind == NodeKind::Directory,
    ensures
        ({
            let plan = rename_plan(t, g, dir + seq!['/'] + name, new_dir + seq!['/'] + new_name);
            let old = child_entry(t, from, name, g.case_sensitive);
            let new = child_entry(t, to, new_name, g.case_sensitive);
            &&& old matches Err(e) ==> plan == Err::<RenamePlan, Error>(e)
            &&& old matches Ok(d) ==> new matches Ok(e) ==> !(from == to && e == d) ==> plan == Err::<
                RenamePlan,
                Error,
            >(Error::AlreadyExists)
            &&& old matches Ok(d) ==> new == Err::<int, Error>(Error::NotFound) ==> {
                let c = t.entries[d].inode_index as int;
                &&& from == to ==> plan == Ok::<RenamePlan, Error>(
                    RenamePlan::InPlace { entry: d },
                )
                &&& from != to && t.inodes[c].kind != NodeKind::Directory ==> plan == Ok::<
                    RenamePlan,
                    Error,
                >(RenamePlan::Move { from, entry: d, to })
                &&& from != to && t.inodes[c].kind == NodeKind::Directory && to == c ==> plan
                    == Err::<RenamePlan, Error>(Error::InvalidArgument)
                &&& from != to && t.inodes[c].kind == NodeKind::Directory && 0 < to
                    < t.parents.len() && t.parents[to] == Some(c as usize) && 0 <= c
                    <= usize::MAX ==> plan == Err::<RenamePlan, Error>(Error::InvalidArgument)
            }
        }),
{
    law_parent_and_name(dir, name);
    law_parent_and_name(new_dir, new_name);
    reveal_with_fuel(lies_under, 3);
}

/// Creating is refused where there is something of that name, where there is no room for
/// another node or another entry, and in what is no directory.
pub proof fn law_when_creating_is_refused(
    t: TreeView,
    g: VolumeGeometry,
    dir: Seq<char>,
    name: Seq<char>,
    p: int,
)
    requires
        dir.len() > 0,
        name.len() > 0,
        !name.contains('/'),
        lookup(t, dir, g.case_sensitive) == Ok::<int, Error>(p),
        0 <= p < t.inodes.len(),
    ensures
        ({
            let path = dir + seq!['/'] + name;
            let plan = create_parent(t, g, path);
            let there = lookup(t, path, g.case_sensitive) is Ok;
            let full = (t.free_slots.len() == 0 && t.inodes.len() >= g.inode_capacity)
                || t.entries.len() >= g.dirent_capacity;
            &&& there ==> plan == Err::<int, Error>(Error::AlreadyExists)
            &&& !there && full ==> plan == Err::<int, Error>(Error::OutOfMemory)
            &&& !there && !full && t.inodes[p].kind != NodeKind::Directory ==> plan == Err::<
                int,
                Error,
            >(Error::InvalidArgument)
            &&& plan matches Ok(q) ==> q == p
        }),
{
    law_parent_and_name(dir, name);
}

/// A new directory is empty and in use, has no blocks, and the owner, group and mode that were
/// asked for, where the format stores them.
pub proof fn law_new_directory_is_empty(
    t: TreeView,
    g: VolumeGeometry,
    parent: int,
    s: SecurityDescriptor,
)
    ensures
        ({
            let i = new_dir_inode(t, g, parent, Some(s));
            &&& i.kind == NodeKind::Directory && !i.deleted
            &&& i.entry_count == 0 && i.size == 0 && i.block_count == 0
            &&& g.format_version == SimpleFsFormatVersion::V2 ==> i.persistent_security is None
            &&& g.format_version != SimpleFsFormatVersion::V2 ==> (
            i.persistent_security matches Some(d) && d.owner_uid == s.owner_uid && d.owner_gid
                == s.owner_gid && d.mode == s.mode)
        }),
{
}

/// A path into an image starts at the root, whether it says so or not, and a path with a
/// backslash is refused.
pub proof fn law_image_paths_start_at_the_root(path: Seq<char>)
    requires
        trimmed(path) == path,
    ensures
        path.contains('\\') ==> image_path(path) == Err::<Seq<char>, Error>(Error::InvalidArgument),
        !path.contains('\\') && path.len() > 0 && path[0] == '/' ==> image_path(path) == Ok::<
            Seq<char>,
            Error,
        >(path),
        !path.contains('\\') && (path.len() == 0 || path[0] != '/') ==> image_path(path) == Ok::<
            Seq<char>,
            Error,
        >(seq!['/'] + path),
{
}

} // verus!
