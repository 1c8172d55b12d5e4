//! Finding nodes by name and path, without following symlinks.
use vstd::prelude::*;
use vstd::string::*;

use crate::error::{Error, Result};
use crate::procfs::render::name_text;
use crate::simplefs::names::{is_root, names_match, root_path, same_name};
use crate::simplefs::state::{SimpleFsState, TreeView};
use crate::simplefs::tree::VolumeGeometry;
use crate::simplefs::types::{DirEntryView, OnDiskInode, ResolvedChildEntry};
use crate::simplefs::validate::{covers, live_dir, slice_end};
use crate::text::{split_on, split_str, str_eq, texts, trim_end, trim_end_char, trim_start, trim_start_char};
use crate::vfs::{Metadata, NodeKind, plain_metadata};

verus! {

/// Whether an entry goes by `name` and names a live inode.
pub open spec fn entry_matches(
    inodes: Seq<OnDiskInode>,
    e: DirEntryView,
    name: Seq<char>,
    case_sensitive: bool,
) -> bool {
    &&& same_name(e.name, name, case_sensitive)
    &&& e.inode_index < inodes.len()
    &&& !inodes[e.inode_index as int].deleted
}

/// The first entry in `from..to` that goes by `name`.
pub open spec fn find_entry(
    t: TreeView,
    from: int,
    to: int,
    name: Seq<char>,
    case_sensitive: bool,
) -> Option<int>
    decreases to - from,
{
    if from >= to {
        None
    } else if entry_matches(t.inodes, t.entries[from], name, case_sensitive) {
        Some(from)
    } else {
        find_entry(t, from + 1, to, name, case_sensitive)
    }
}

/// The entry of a directory that goes by `name`.
pub open spec fn child_entry(
    t: TreeView,
    parent: int,
    name: Seq<char>,
    case_sensitive: bool,
) -> core::result::Result<int, Error> {
    if parent >= t.inodes.len() {
        Err(Error::InternalError)
    } else if !live_dir(t.inodes[parent]) {
        Err(Error::NotFound)
    } else if slice_end(t.inodes[parent]) > t.entries.len() {
        Err(Error::InternalError)
    } else {
        match find_entry(
            t,
            t.inodes[parent].entry_start as int,
            slice_end(t.inodes[parent]),
            name,
            case_sensitive,
        ) {
            Some(d) => Ok(d),
            None => Err(Error::NotFound),
        }
    }
}

/// The directory an inode lies in, the root for whatever lies in none.
pub open spec fn parent_or_root(t: TreeView, i: int) -> int {
    if 0 <= i < t.parents.len() && t.parents[i] is Some {
        t.parents[i]->0 as int
    } else {
        0
    }
}

/// Whether a path component leaves the position alone.
pub open spec fn is_here(s: Seq<char>) -> bool {
    s.len() == 0 || s == seq!['.']
}

/// Whether a path component goes up.
pub open spec fn is_up(s: Seq<char>) -> bool {
    s == seq!['.', '.']
}

/// Where a walk from `at` along path components ends.
pub open spec fn walk(t: TreeView, steps: Seq<Seq<char>>, at: int, case_sensitive: bool) -> core::result::Result<
    int,
    Error,
>
    decreases steps.len(),
{
    if steps.len() == 0 {
        Ok(at)
    } else if is_here(steps[0]) {
        walk(t, steps.skip(1), at, case_sensitive)
    } else if is_up(steps[0]) {
        walk(t, steps.skip(1), parent_or_root(t, at), case_sensitive)
    } else {
        match child_entry(t, at, steps[0], case_sensitive) {
            Ok(d) => walk(t, steps.skip(1), t.entries[d].inode_index as int, case_sensitive),
            Err(e) => Err(e),
        }
    }
}

/// A path without the slashes around it.
pub open spec fn unslashed(path: Seq<char>) -> Seq<char> {
    trim_start(trim_end(path, '/'), '/')
}

/// The components of a path.
pub open spec fn path_steps(path: Seq<char>) -> Seq<Seq<char>> {
    split_on(unslashed(path), '/')
}

/// The inode a path leads to.
pub open spec fn lookup(t: TreeView, path: Seq<char>, case_sensitive: bool) -> core::result::Result<
    int,
    Error,
> {
    if path.len() == 0 || path == root_path() {
        Ok(0)
    } else {
        walk(t, path_steps(path), 0, case_sensitive)
    }
}

/// Where a walk ends that takes every component for a name.
pub open spec fn plain_walk(
    t: TreeView,
    steps: Seq<Seq<char>>,
    at: int,
    case_sensitive: bool,
) -> core::result::Result<int, Error>
    decreases steps.len(),
{
    if steps.len() == 0 {
        Ok(at)
    } else {
        match child_entry(t, at, steps[0], case_sensitive) {
            Ok(d) => plain_walk(t, steps.skip(1), t.entries[d].inode_index as int, case_sensitive),
            Err(e) => Err(e),
        }
    }
}

/// The inode a path leads to when every component is taken for a name.
pub open spec fn plain_lookup(
    t: TreeView,
    path: Seq<char>,
    case_sensitive: bool,
) -> core::result::Result<int, Error> {
    if path.len() == 0 || path == root_path() {
        Ok(0)
    } else {
        plain_walk(t, path_steps(path), 0, case_sensitive)
    }
}

/// Whether going up from `at` meets `ancestor` before the root is left behind.
/// A chain longer than `fuel` never ends.
pub open spec fn lies_under(t: TreeView, at: int, ancestor: int, fuel: nat) -> core::result::Result<
    bool,
    Error,
>
    decreases fuel,
{
    if at == ancestor {
        Ok(true)
    } else if at == 0 {
        Ok(false)
    } else if at >= t.parents.len() || t.parents[at] is None || fuel == 0 {
        Err(Error::InternalError)
    } else {
        lies_under(t, t.parents[at]->0 as int, ancestor, (fuel - 1) as nat)
    }
}

pub proof fn lemma_find_entry_sound(
    t: TreeView,
    from: int,
    to: int,
    name: Seq<char>,
    case_sensitive: bool,
)
    ensures
        match find_entry(t, from, to, name, case_sensitive) {
            Some(d) => from <= d < to && entry_matches(
                t.inodes,
                t.entries[d],
                name,
                case_sensitive,
            ),
            None => forall|d: int|
                #![trigger t.entries[d]]
                from <= d < to ==> !entry_matches(t.inodes, t.entries[d], name, case_sensitive),
        },
    decreases to - from,
{
    if from < to && !entry_matches(t.inodes, t.entries[from], name, case_sensitive) {
        lemma_find_entry_sound(t, from + 1, to, name, case_sensitive);
    }
}

/// Whether a path component is the given text.
pub fn is_step(s: &str, dots: usize) -> (r: bool)
    requires
        1 <= dots <= 2,
    ensures
        r == (if dots == 1 {
            s@ == seq!['.']
        } else {
            s@ == seq!['.', '.']
        }),
{
    proof {
        reveal_strlit(".");
        reveal_strlit("..");
    }
    assert("."@ =~= seq!['.']);
    assert(".."@ =~= seq!['.', '.']);
    if dots == 1 {
        str_eq(s, ".")
    } else {
        str_eq(s, "..")
    }
}

/// The components of a path.
pub fn split_path(path: &str) -> (r: Vec<String>)
    ensures
        texts(r@) == path_steps(path@),
{
    let bare = trim_start_char(trim_end_char(path, '/'), '/');
    split_str(bare, '/')
}

impl VolumeGeometry {
    /// The live child of a directory that goes by `segment`, with its entry.
    pub fn resolve_live_child_dirent_locked(
        &self,
        state: &SimpleFsState,
        parent_index: usize,
        segment: &str,
    ) -> (r: Result<ResolvedChildEntry>)
        ensures
            match r {
                Ok(c) => {
                    &&& child_entry(
                        state.tree(),
                        parent_index as int,
                        segment@,
                        self.case_sensitive,
                    ) == Ok::<int, Error>(c.entry_index as int)
                    &&& c.entry_index < state.dir_entries@.len()
                    &&& covers(state.inodes@[parent_index as int], c.entry_index as int)
                    &&& c.inode_index == state.tree().entries[c.entry_index as int].inode_index
                    &&& c.inode_index < state.inodes@.len()
                    &&& c.inode == state.inodes@[c.inode_index as int]
                    &&& !c.inode.deleted
                },
                Err(e) => child_entry(
                    state.tree(),
                    parent_index as int,
                    segment@,
                    self.case_sensitive,
                ) == Err::<int, Error>(e),
            },
    {
        if parent_index >= state.inodes.len() {
            return Err(Error::InternalError);
        }
        let inode = state.inodes[parent_index];
        if !matches!(inode.kind, NodeKind::Directory) || inode.deleted {
            return Err(Error::NotFound);
        }
        let end: u64 = inode.entry_start as u64 + inode.entry_count as u64;
        if end > state.dir_entries.len() as u64 {
            return Err(Error::InternalError);
        }
        let end: usize = end as usize;
        let ghost t = state.tree();
        let mut d: usize = inode.entry_start as usize;
        while d < end
            invariant
                parent_index < state.inodes@.len(),
                inode == state.inodes@[parent_index as int],
                live_dir(inode),
                inode.entry_start <= d <= end <= state.dir_entries@.len(),
                end == slice_end(inode),
                t == state.tree(),
                find_entry(
                    t,
                    inode.entry_start as int,
                    end as int,
                    segment@,
                    self.case_sensitive,
                ) == find_entry(t, d as int, end as int, segment@, self.case_sensitive),
            decreases end - d,
        {
            let entry = &state.dir_entries[d];
            assert(t.entries[d as int] == entry@);
            if names_match(entry.name.as_str(), segment, self.case_sensitive) {
                let inode_index: usize = entry.inode_index as usize;
                if inode_index < state.inodes.len() && !state.inodes[inode_index].deleted {
                    return Ok(
                        ResolvedChildEntry {
                            entry_index: d,
                            inode_index,
                            inode: state.inodes[inode_index],
                        },
                    );
                }
            }
            d = d + 1;
        }
        Err(Error::NotFound)
    }

    /// The live child of a directory that goes by `segment`.
    pub fn find_child(&self, state: &SimpleFsState, parent_index: usize, segment: &str) -> (r: Result<
        usize,
    >)
        ensures
            match r {
                Ok(i) => {
                    let c = child_entry(
                        state.tree(),
                        parent_index as int,
                        segment@,
                        self.case_sensitive,
                    );
                    c is Ok && i == state.tree().entries[c->Ok_0].inode_index && i
                        < state.inodes@.len()
                },
                Err(e) => child_entry(
                    state.tree(),
                    parent_index as int,
                    segment@,
                    self.case_sensitive,
                ) == Err::<int, Error>(e),
            },
    {
        Ok(self.resolve_live_child_dirent_locked(state, parent_index, segment)?.inode_index)
    }

    /// The inode a path leads to, symlinks not followed.
    pub fn lookup_index_locked(&self, state: &SimpleFsState, path: &str) -> (r: Result<usize>)
        ensures
            match r {
                Ok(i) => lookup(state.tree(), path@, self.case_sensitive) == Ok::<int, Error>(
                    i as int,
                ),
                Err(e) => lookup(state.tree(), path@, self.case_sensitive) == Err::<int, Error>(e),
            },
    {
        if path.is_empty() || is_root(path) {
            return Ok(0);
        }
        let steps = split_path(path);
        let ghost all = texts(steps@);
        let ghost t = state.tree();
        let mut current: usize = 0;
        let mut k: usize = 0;
        assert(all.skip(0) =~= all);
        while k < steps.len()
            invariant
                k <= steps@.len(),
                all == texts(steps@),
                t == state.tree(),
                lookup(t, path@, self.case_sensitive) == walk(
                    t,
                    all.skip(k as int),
                    current as int,
                    self.case_sensitive,
                ),
            decreases steps@.len() - k,
        {
            let segment = steps[k].as_str();
            proof {
                let rest = all.skip(k as int);
                assert(rest[0] == segment@);
                assert(rest.skip(1) =~= all.skip(k + 1));
            }
            if segment.is_empty() || is_step(segment, 1) {
            } else if is_step(segment, 2) {
                current = if current < state.parent_of.len() {
                    match state.parent_of[current] {
                        Some(p) => p,
                        None => 0,
                    }
                } else {
                    0
                };
            } else {
                current = self.find_child(state, current, segment)?;
            }
            k = k + 1;
        }
        assert(all.skip(k as int).len() == 0);
        Ok(current)
    }

    /// The inode a path leads to when every component is taken for a name.
    pub fn lookup_index(&self, state: &SimpleFsState, path: &str) -> (r: Result<usize>)
        ensures
            match r {
                Ok(i) => plain_lookup(state.tree(), path@, self.case_sensitive) == Ok::<int, Error>(
                    i as int,
                ),
                Err(e) => plain_lookup(state.tree(), path@, self.case_sensitive) == Err::<
                    int,
                    Error,
                >(e),
            },
    {
        if path.is_empty() || is_root(path) {
            return Ok(0);
        }
        let steps = split_path(path);
        let ghost all = texts(steps@);
        let ghost t = state.tree();
        let mut current: usize = 0;
        let mut k: usize = 0;
        assert(all.skip(0) =~= all);
        while k < steps.len()
            invariant
                k <= steps@.len(),
                all == texts(steps@),
                t == state.tree(),
                plain_lookup(t, path@, self.case_sensitive) == plain_walk(
                    t,
                    all.skip(k as int),
                    current as int,
                    self.case_sensitive,
                ),
            decreases steps@.len() - k,
        {
            let segment = steps[k].as_str();
            proof {
                let rest = all.skip(k as int);
                assert(rest[0] == segment@);
                assert(rest.skip(1) =~= all.skip(k + 1));
            }
            current = self.find_child(state, current, segment)?;
            k = k + 1;
        }
        assert(all.skip(k as int).len() == 0);
        Ok(current)
    }

    /// The directory an inode lies in; the root lies in none.
    pub fn parent_index_of_locked(&self, state: &SimpleFsState, child_index: usize) -> (r: Result<
        Option<usize>,
    >)
        ensures
            r == (if child_index == 0 {
                Ok::<Option<usize>, Error>(None)
            } else if child_index < state.parent_of@.len()
                && state.parent_of@[child_index as int] is Some {
                Ok(state.parent_of@[child_index as int])
            } else {
                Err(Error::InternalError)
            }),
    {
        if child_index == 0 {
            return Ok(None);
        }
        if child_index < state.parent_of.len() {
            match state.parent_of[child_index] {
                Some(p) => Ok(Some(p)),
                None => Err(Error::InternalError),
            }
        } else {
            Err(Error::InternalError)
        }
    }

    /// Whether one inode lies under another, or is that other.
    pub fn is_descendant_index_locked(
        &self,
        state: &SimpleFsState,
        candidate_index: usize,
        ancestor_index: usize,
    ) -> (r: Result<bool>)
        ensures
            r == lies_under(
                state.tree(),
                candidate_index as int,
                ancestor_index as int,
                state.parent_of@.len(),
            ),
    {
        let mut at: usize = candidate_index;
        let mut fuel: usize = state.parent_of.len();
        loop
            invariant
                lies_under(state.tree(), at as int, ancestor_index as int, fuel as nat)
                    == lies_under(
                    state.tree(),
                    candidate_index as int,
                    ancestor_index as int,
                    state.parent_of@.len(),
                ),
            decreases fuel,
        {
            if at == ancestor_index {
                return Ok(true);
            }
            match self.parent_index_of_locked(state, at)? {
                None => {
                    return Ok(false);
                },
                Some(p) => {
                    if fuel == 0 {
                        return Err(Error::InternalError);
                    }
                    fuel = fuel - 1;
                    at = p;
                },
            }
        }
    }
}

impl SimpleFsState {
    /// The name an inode goes by, `?` when nothing names it.
    pub open spec fn name_text(&self, index: int) -> Seq<char> {
        if index == 0 {
            root_path()
        } else if index < self.inode_to_entry_index@.len()
            && self.inode_to_entry_index@[index] is Some && self.inode_to_entry_index@[index]->0
            < self.dir_entries@.len() {
            self.dir_entries@[self.inode_to_entry_index@[index]->0 as int].name@
        } else {
            seq!['?']
        }
    }

    pub fn name_of(&self, index: usize) -> (r: String)
        ensures
            r@ == self.name_text(index as int),
    {
        proof {
            reveal_strlit("/");
            reveal_strlit("?");
        }
        assert("/"@ =~= root_path());
        assert("?"@ =~= seq!['?']);
        if index == 0 {
            return "/".to_owned();
        }
        if index < self.inode_to_entry_index.len() {
            match self.inode_to_entry_index[index] {
                Some(d) => {
                    if d < self.dir_entries.len() {
                        return self.dir_entries[d].name.clone();
                    }
                },
                None => {},
            }
        }
        "?".to_owned()
    }

    pub fn kind_of(&self, index: usize) -> (r: NodeKind)
        ensures
            r == (if index < self.inodes@.len() {
                self.inodes@[index as int].kind
            } else {
                NodeKind::File
            }),
    {
        if index < self.inodes.len() {
            self.inodes[index].kind
        } else {
            NodeKind::File
        }
    }

    pub fn size_of(&self, index: usize) -> (r: usize)
        ensures
            r == (if index < self.inodes@.len() {
                self.inodes@[index as int].size as usize
            } else {
                0
            }),
    {
        if index < self.inodes.len() {
            self.inodes[index].size as usize
        } else {
            0
        }
    }

    pub fn metadata_of(&self, index: usize) -> (r: Result<Metadata>)
        ensures
            r == (if index >= self.inodes@.len() {
                Err::<Metadata, Error>(Error::InternalError)
            } else if self.inodes@[index as int].deleted {
                Err(Error::NotFound)
            } else {
                Ok(inode_metadata(self.inodes@[index as int]))
            }),
    {
        if index >= self.inodes.len() {
            return Err(Error::InternalError);
        }
        let inode = self.inodes[index];
        if inode.deleted {
            return Err(Error::NotFound);
        }
        Ok(metadata_from_inode(inode))
    }
}

/// The attributes an inode stands for: a directory's size is its entry count, and
/// a stored descriptor takes the place of the default one.
pub open spec fn inode_metadata(inode: OnDiskInode) -> Metadata {
    let size = if inode.kind == NodeKind::Directory {
        inode.entry_count as usize
    } else {
        inode.size as usize
    };
    match inode.spec_runtime_security_descriptor() {
        Some(security) => Metadata { security, ..plain_metadata(inode.kind, size) },
        None => plain_metadata(inode.kind, size),
    }
}

pub fn metadata_from_inode(inode: OnDiskInode) -> (r: Metadata)
    ensures
        r == inode_metadata(inode),
{
    let size: usize = match inode.kind {
        NodeKind::Directory => inode.entry_count as usize,
        NodeKind::File | NodeKind::Device | NodeKind::Symlink => inode.size as usize,
    };
    let metadata = Metadata::new(inode.kind, size);
    match inode.runtime_security_descriptor() {
        Some(security) => metadata.with_security(security),
        None => metadata,
    }
}

} // verus!
