//! The nodes of the filesystem, and how a path leads to one.
use vstd::prelude::*;

use crate::error::{Error, Result};
use crate::path::{path_segments, segments};
use crate::text::texts;
use crate::tmpfs::lists::{AttrList, EntryList, TmpEntry, entry_list, find_name, named, names_in_order};
use crate::vfs::{XattrEntry, entry_pairs};

verus! {

/// What a node holds.
pub enum TmpData {
    File(Vec<u8>),
    Directory(Vec<TmpEntry>),
    Symlink(String),
    Device { major: u32, minor: u32 },
}

/// A node.
pub struct TmpInode {
    pub data: TmpData,
    pub nlink: u32,
    pub uid: u32,
    pub gid: u32,
    pub mode: u16,
    pub created: u64,
    pub modified: u64,
    pub accessed: u64,
    pub xattrs: Vec<XattrEntry>,
}

/// The contents of a node.
pub enum DataView {
    File(Seq<u8>),
    Directory(EntryList),
    Symlink(Seq<char>),
    Device { major: u32, minor: u32 },
}

/// What a node says.
pub struct InodeNode {
    pub data: DataView,
    pub nlink: u32,
    pub uid: u32,
    pub gid: u32,
    pub mode: u16,
    pub created: u64,
    pub modified: u64,
    pub accessed: u64,
    pub xattrs: AttrList,
}

impl View for TmpInode {
    type V = InodeNode;

    open spec fn view(&self) -> InodeNode {
        InodeNode {
            data: match self.data {
                TmpData::File(d) => DataView::File(d@),
                TmpData::Directory(e) => DataView::Directory(entry_list(e@)),
                TmpData::Symlink(t) => DataView::Symlink(t@),
                TmpData::Device { major, minor } => DataView::Device { major, minor },
            },
            nlink: self.nlink,
            uid: self.uid,
            gid: self.gid,
            mode: self.mode,
            created: self.created,
            modified: self.modified,
            accessed: self.accessed,
            xattrs: entry_pairs(self.xattrs@),
        }
    }
}

/// The nodes by number: a number that is no longer or not yet in use holds none.
pub type Nodes = Seq<Option<InodeNode>>;

/// What the nodes in a table say.
pub open spec fn table_view(v: Seq<Option<TmpInode>>) -> Nodes {
    Seq::new(
        v.len(),
        |i: int|
            match v[i] {
                Some(n) => Some(n@),
                None => None,
            },
    )
}

/// The number of the root directory.
pub const ROOT_INO: u64 = 1;

/// The node with a number.
pub open spec fn node_at(nodes: Nodes, ino: u64) -> Option<InodeNode> {
    if ino < nodes.len() {
        nodes[ino as int]
    } else {
        None
    }
}

/// The nodes with the one with a number changed.
pub open spec fn with_node_at(nodes: Nodes, ino: u64, node: Option<InodeNode>) -> Nodes {
    if ino < nodes.len() {
        nodes.update(ino as int, node)
    } else {
        nodes
    }
}

/// The bytes that a node counts against the quota: those of a file.
pub open spec fn node_bytes(node: Option<InodeNode>) -> int {
    match node {
        Some(n) => match n.data {
            DataView::File(d) => d.len() as int,
            _ => 0,
        },
        None => 0,
    }
}

/// The bytes of all files.
pub open spec fn total_bytes(nodes: Nodes) -> int
    decreases nodes.len(),
{
    if nodes.len() == 0 {
        0
    } else {
        total_bytes(nodes.drop_last()) + node_bytes(nodes.last())
    }
}

pub proof fn lemma_total_update(nodes: Nodes, k: int, node: Option<InodeNode>)
    requires
        0 <= k < nodes.len(),
    ensures
        total_bytes(nodes.update(k, node)) == total_bytes(nodes) - node_bytes(nodes[k])
            + node_bytes(node),
    decreases nodes.len(),
{
    let n = nodes.update(k, node);
    if k == nodes.len() - 1 {
        assert(n.drop_last() =~= nodes.drop_last());
    } else {
        lemma_total_update(nodes.drop_last(), k, node);
        assert(n.drop_last() =~= nodes.drop_last().update(k, node));
        assert(n.last() == nodes.last());
    }
}

pub proof fn lemma_total_push(nodes: Nodes, node: Option<InodeNode>)
    ensures
        total_bytes(nodes.push(node)) == total_bytes(nodes) + node_bytes(node),
{
    assert(nodes.push(node).drop_last() =~= nodes);
}

pub proof fn lemma_total_bound(nodes: Nodes, k: int)
    requires
        0 <= k < nodes.len(),
    ensures
        0 <= node_bytes(nodes[k]) <= total_bytes(nodes),
    decreases nodes.len(),
{
    if k < nodes.len() - 1 {
        lemma_total_bound(nodes.drop_last(), k);
    } else {
        lemma_total_nonnegative(nodes.drop_last());
    }
}

pub proof fn lemma_total_nonnegative(nodes: Nodes)
    ensures
        0 <= total_bytes(nodes),
    decreases nodes.len(),
{
    if nodes.len() > 0 {
        lemma_total_nonnegative(nodes.drop_last());
    }
}

/// Whether every entry of a node has a number that was given out.
pub open spec fn entries_known(node: Option<InodeNode>, count: int) -> bool {
    match node {
        Some(n) => match n.data {
            DataView::Directory(list) => forall|i: int|
                #![trigger list[i]]
                0 <= i < list.len() ==> list[i].1 < count,
            _ => true,
        },
        None => true,
    }
}

/// Whether the entries of a node are in order.
pub open spec fn node_in_order(node: Option<InodeNode>) -> bool {
    match node {
        Some(n) => match n.data {
            DataView::Directory(list) => names_in_order(list),
            _ => true,
        },
        None => true,
    }
}

/// What the filesystem keeps.
pub struct TmpFsInner {
    /// The nodes by number. The next new one gets the next number.
    pub inodes: Vec<Option<TmpInode>>,
    /// The quota in bytes; zero for none.
    pub max_size: usize,
    pub used_size: usize,
    pub file_mode: u16,
    pub dir_mode: u16,
    pub default_uid: u32,
    pub default_gid: u32,
}

impl TmpFsInner {
    /// The nodes.
    pub open spec fn nodes(&self) -> Nodes {
        table_view(self.inodes@)
    }

    /// What holds of every state: each directory is in order and names only numbers that
    /// were given out, the bytes of all files are accounted for, and they are within the
    /// quota.
    pub open spec fn wf(&self) -> bool {
        &&& self.nodes().len() > ROOT_INO
        &&& forall|k: int|
            #![trigger self.nodes()[k]]
            0 <= k < self.nodes().len() ==> entries_known(
                self.nodes()[k],
                self.nodes().len() as int,
            ) && node_in_order(self.nodes()[k])
        &&& self.used_size == total_bytes(self.nodes())
        &&& self.max_size > 0 ==> self.used_size <= self.max_size
    }

    /// Whether everything but the nodes and the space in use is as in another state.
    pub open spec fn same_settings(&self, other: TmpFsInner) -> bool {
        &&& self.max_size == other.max_size
        &&& self.file_mode == other.file_mode
        &&& self.dir_mode == other.dir_mode
        &&& self.default_uid == other.default_uid
        &&& self.default_gid == other.default_gid
    }

    /// Takes a node out of the table.
    pub fn take_node(&mut self, ino: u64) -> (r: Option<TmpInode>)
        ensures
            match r {
                Some(n) => node_at(old(self).nodes(), ino) == Some(n@),
                None => node_at(old(self).nodes(), ino) is None,
            },
            final(self).nodes() == with_node_at(old(self).nodes(), ino, None),
            final(self).same_settings(*old(self)),
            final(self).used_size == old(self).used_size,
    {
        if ino >= self.inodes.len() as u64 {
            return None;
        }
        let ghost before = self.nodes();
        let k: usize = ino as usize;
        let mut slot: Option<TmpInode> = None;
        std::mem::swap(&mut self.inodes[k], &mut slot);
        assert(self.nodes() =~= before.update(k as int, None));
        slot
    }

    /// Puts a node into the table under a number that was given out.
    pub fn put_node(&mut self, ino: u64, node: TmpInode)
        requires
            ino < old(self).nodes().len(),
        ensures
            final(self).nodes() == with_node_at(old(self).nodes(), ino, Some(node@)),
            final(self).same_settings(*old(self)),
            final(self).used_size == old(self).used_size,
    {
        let ghost before = self.nodes();
        let ghost view = node@;
        let _count: usize = self.inodes.len();
        self.inodes.set(ino as usize, Some(node));
        assert(self.nodes() =~= before.update(ino as int, Some(view)));
    }

    /// The node with a number.
    pub fn get_node(&self, ino: u64) -> (r: Option<&TmpInode>)
        ensures
            match r {
                Some(n) => node_at(self.nodes(), ino) == Some(n@),
                None => node_at(self.nodes(), ino) is None,
            },
    {
        if ino >= self.inodes.len() as u64 {
            return None;
        }
        match &self.inodes[ino as usize] {
            Some(n) => Some(n),
            None => None,
        }
    }
}

/// Where components from `i` on lead from a node: each names an entry of a directory.
pub open spec fn tmp_walk(nodes: Nodes, at: u64, parts: Seq<Seq<char>>, i: int) -> core::result::Result<
    u64,
    Error,
>
    decreases parts.len() - i,
{
    if i < 0 || i >= parts.len() {
        Ok(at)
    } else {
        match node_at(nodes, at) {
            None => Err(Error::NotFound),
            Some(n) => match n.data {
                DataView::Directory(list) => match named(list, parts[i]) {
                    None => Err(Error::NotFound),
                    Some(next) => tmp_walk(nodes, next, parts, i + 1),
                },
                _ => Err(Error::InvalidArgument),
            },
        }
    }
}

/// The number of the node that a path leads to.
pub open spec fn tmp_resolved(nodes: Nodes, path: Seq<char>) -> core::result::Result<u64, Error> {
    tmp_walk(nodes, ROOT_INO, segments(path), 0)
}

/// The node that holds what a path names, and the name in it. The root has none.
pub open spec fn tmp_parent(nodes: Nodes, path: Seq<char>) -> core::result::Result<
    (u64, Seq<char>),
    Error,
> {
    let parts = segments(path);
    if parts.len() == 0 {
        Err(Error::InvalidArgument)
    } else {
        match tmp_walk(nodes, ROOT_INO, parts.drop_last(), 0) {
            Err(e) => Err(e),
            Ok(ino) => Ok((ino, parts.last())),
        }
    }
}

impl TmpFsInner {
    fn walk(&self, parts: &Vec<String>, count: usize) -> (r: Result<u64>)
        requires
            count <= parts@.len(),
        ensures
            r == tmp_walk(self.nodes(), ROOT_INO, texts(parts@).take(count as int), 0),
    {
        let ghost steps = texts(parts@).take(count as int);
        let mut at: u64 = ROOT_INO;
        let mut i: usize = 0;
        while i < count
            invariant
                i <= count <= parts@.len(),
                steps == texts(parts@).take(count as int),
                tmp_walk(self.nodes(), ROOT_INO, steps, 0) == tmp_walk(
                    self.nodes(),
                    at,
                    steps,
                    i as int,
                ),
            decreases count - i,
        {
            assert(steps[i as int] == parts@[i as int]@);
            let node = match self.get_node(at) {
                None => {
                    return Err(Error::NotFound);
                },
                Some(n) => n,
            };
            match &node.data {
                TmpData::Directory(list) => match find_name(list, parts[i].as_str()) {
                    None => {
                        return Err(Error::NotFound);
                    },
                    Some(k) => {
                        at = list[k].ino;
                    },
                },
                _ => {
                    return Err(Error::InvalidArgument);
                },
            }
            i = i + 1;
        }
        Ok(at)
    }

    /// Resolves a path to the number of a node.
    pub fn resolve_path(&self, path: &str) -> (r: Result<u64>)
        ensures
            r == tmp_resolved(self.nodes(), path@),
    {
        let parts = path_segments(path);
        assert(texts(parts@).take(parts@.len() as int) =~= segments(path@));
        self.walk(&parts, parts.len())
    }

    /// Resolves the parent of a path, and the name in it.
    pub fn resolve_parent(&self, path: &str) -> (r: Result<(u64, String)>)
        ensures
            match r {
                Ok(v) => tmp_parent(self.nodes(), path@) == Ok::<(u64, Seq<char>), Error>(
                    (v.0, v.1@),
                ),
                Err(e) => tmp_parent(self.nodes(), path@) == Err::<(u64, Seq<char>), Error>(e),
            },
    {
        let parts = path_segments(path);
        let n: usize = parts.len();
        if n == 0 {
            return Err(Error::InvalidArgument);
        }
        assert(texts(parts@).take(n - 1) =~= segments(path@).drop_last());
        assert(segments(path@).last() == parts@[n - 1]@);
        let ino: u64 = self.walk(&parts, n - 1)?;
        Ok((ino, parts[n - 1].as_str().to_owned()))
    }
}

} // verus!
