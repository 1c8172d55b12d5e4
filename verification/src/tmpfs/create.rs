//! Creating nodes and links.
use vstd::prelude::*;
use vstd::string::*;

use crate::error::{Error, Result};
use crate::tmpfs::lists::{EntryList, entry_list, find_name, lemma_name_at, lemma_name_slot, lemma_with_name_order, name_at, name_slot, named, set_name, with_name};
use crate::tmpfs::state::{DataView, InodeNode, Nodes, TmpData, TmpFsInner, TmpInode, entries_known, lemma_total_push, lemma_total_update, node_at, node_bytes, node_in_order, tmp_parent, total_bytes};
use crate::vfs::entry_pairs;

verus! {

/// A new node.
pub open spec fn fresh_node(data: DataView, s: TmpFsInner, mode: u16, now: u64) -> InodeNode {
    InodeNode {
        data,
        nlink: 1,
        uid: s.default_uid,
        gid: s.default_gid,
        mode,
        created: now,
        modified: now,
        accessed: now,
        xattrs: seq![],
    }
}

/// A directory node with other entries.
pub open spec fn with_entries(node: InodeNode, list: EntryList) -> InodeNode {
    InodeNode { data: DataView::Directory(list), ..node }
}

/// One more link, as far as the count goes.
pub open spec fn one_more(n: u32) -> u32 {
    if n == u32::MAX {
        n
    } else {
        (n + 1) as u32
    }
}

/// One link less.
pub open spec fn one_less(n: u32) -> u32 {
    if n == 0 {
        0
    } else {
        (n - 1) as u32
    }
}

/// Where a new node can be created: a directory that exists and has no entry of the name.
pub open spec fn new_place(nodes: Nodes, path: Seq<char>) -> core::result::Result<
    (u64, Seq<char>, InodeNode, EntryList),
    Error,
> {
    match tmp_parent(nodes, path) {
        Err(e) => Err(e),
        Ok((parent, name)) => match node_at(nodes, parent) {
            None => Err(Error::NotFound),
            Some(n) => match n.data {
                DataView::Directory(list) => if named(list, name) is Some {
                    Err(Error::AlreadyExists)
                } else {
                    Ok((parent, name, n, list))
                },
                _ => Err(Error::InvalidArgument),
            },
        },
    }
}

/// The nodes after a node was created at a place. A directory counts as a link to its
/// parent.
pub open spec fn with_created(
    nodes: Nodes,
    place: (u64, Seq<char>, InodeNode, EntryList),
    node: InodeNode,
) -> Nodes {
    let (parent, name, p, list) = place;
    let linked = with_entries(p, with_name(list, name, nodes.len() as u64));
    nodes.push(Some(node)).update(
        parent as int,
        Some(
            if node.data is Directory {
                InodeNode { nlink: one_more(p.nlink), ..linked }
            } else {
                linked
            },
        ),
    )
}

/// The outcome of creating a node with this contents.
pub open spec fn creation(
    a: TmpFsInner,
    b: TmpFsInner,
    path: Seq<char>,
    node: InodeNode,
    r: Result<u64>,
) -> bool {
    &&& b.wf()
    &&& b.same_settings(a)
    &&& b.used_size == a.used_size
    &&& match new_place(a.nodes(), path) {
        Err(e) => r == Err::<u64, Error>(e) && b == a,
        Ok(place) => r == Ok::<u64, Error>(a.nodes().len() as u64) && b.nodes() == with_created(
            a.nodes(),
            place,
            node,
        ),
    }
}

proof fn lemma_created_wf(
    s: TmpFsInner,
    nodes: Nodes,
    place: (u64, Seq<char>, InodeNode, EntryList),
    node: InodeNode,
)
    requires
        s.wf(),
        nodes == s.nodes(),
        nodes.len() <= u64::MAX,
        node_bytes(Some(node)) == 0,
        node_in_order(Some(node)),
        entries_known(Some(node), 0),
        node_at(nodes, place.0) == Some(place.2),
        place.2.data == DataView::Directory(place.3),
    ensures
        ({
            let now = with_created(nodes, place, node);
            &&& now.len() == nodes.len() + 1
            &&& total_bytes(now) == total_bytes(nodes)
            &&& forall|k: int|
                #![trigger now[k]]
                0 <= k < now.len() ==> entries_known(now[k], now.len() as int) && node_in_order(
                    now[k],
                )
        }),
{
    let (parent, name, p, list) = place;
    let ino = nodes.len() as u64;
    let grown = nodes.push(Some(node));
    let now = with_created(nodes, place, node);
    lemma_total_push(nodes, Some(node));
    assert(grown[parent as int] == nodes[parent as int]);
    lemma_total_update(grown, parent as int, now[parent as int]);
    lemma_with_name_order(list, name, ino);
    lemma_name_at(list, name, 0);
    lemma_name_slot(list, name, 0);
    assert(entries_known(nodes[parent as int], nodes.len() as int));
    let longer = with_name(list, name, ino);
    assert forall|i: int| #![trigger longer[i]] 0 <= i < longer.len() implies longer[i].1
        < now.len() by {
        match name_at(list, name, 0) {
            Some(k) => {
                if i != k {
                    assert(longer[i] == list[i]);
                }
            },
            None => {
                let s = name_slot(list, name, 0);
                if i < s {
                    assert(longer[i] == list[i]);
                } else if i > s {
                    assert(longer[i] == list[i - 1]);
                }
            },
        }
    }
    assert forall|k: int| #![trigger now[k]] 0 <= k < now.len() implies entries_known(
        now[k],
        now.len() as int,
    ) && node_in_order(now[k]) by {
        if k != parent && k < nodes.len() {
            assert(now[k] == nodes[k]);
            assert(entries_known(nodes[k], nodes.len() as int));
        }
    }
}

impl TmpFsInner {
    /// Checks where a new node can be created.
    fn find_place(&self, path: &str) -> (r: Result<(u64, String)>)
        ensures
            match r {
                Ok(v) => new_place(self.nodes(), path@) matches Ok(p) && p.0 == v.0 && p.1 == v.1@
                    && node_at(self.nodes(), p.0) == Some(p.2) && p.2.data == DataView::Directory(
                    p.3,
                ),
                Err(e) => new_place(self.nodes(), path@) == Err::<
                    (u64, Seq<char>, InodeNode, EntryList),
                    Error,
                >(e),
            },
    {
        let (parent, name) = self.resolve_parent(path)?;
        let node = match self.get_node(parent) {
            None => {
                return Err(Error::NotFound);
            },
            Some(n) => n,
        };
        match &node.data {
            TmpData::Directory(list) => {
                if find_name(list, name.as_str()).is_some() {
                    return Err(Error::AlreadyExists);
                }
                Ok((parent, name))
            },
            _ => Err(Error::InvalidArgument),
        }
    }

    /// Creates a node without contents: an empty file or directory, a link or a device.
    pub(crate) fn insert_inode(&mut self, path: &str, data: TmpData, mode: u16, now: u64) -> (r: Result<u64>)
        requires
            old(self).wf(),
            match data {
                TmpData::File(d) => d@.len() == 0,
                TmpData::Directory(e) => e@.len() == 0,
                _ => true,
            },
        ensures
            creation(
                *old(self),
                *final(self),
                path@,
                fresh_node(
                    match data {
                        TmpData::File(d) => DataView::File(d@),
                        TmpData::Directory(e) => DataView::Directory(entry_list(e@)),
                        TmpData::Symlink(t) => DataView::Symlink(t@),
                        TmpData::Device { major, minor } => DataView::Device { major, minor },
                    },
                    *old(self),
                    mode,
                    now,
                ),
                r,
            ),
    {
        let (parent, name) = self.find_place(path)?;
        let ghost before = self.nodes();
        let ghost start = *self;
        let ghost place = new_place(before, path@)->Ok_0;
        let ino: u64 = self.inodes.len() as u64;
        let is_dir = match &data {
            TmpData::Directory(_) => true,
            _ => false,
        };
        let node = TmpInode {
            data,
            nlink: 1,
            uid: self.default_uid,
            gid: self.default_gid,
            mode,
            created: now,
            modified: now,
            accessed: now,
            xattrs: Vec::new(),
        };
        assert(node.xattrs@ =~= seq![]);
        assert(entry_pairs(node.xattrs@) =~= seq![]);
        let ghost view = node@;
        self.inodes.push(Some(node));
        assert(self.nodes() =~= before.push(Some(view)));
        let mut dir = match self.take_node(parent) {
            None => {
                assert(false);
                return Err(Error::NotFound);
            },
            Some(n) => n,
        };
        match &mut dir.data {
            TmpData::Directory(list) => {
                set_name(list, name.as_str(), ino);
            },
            _ => {
                assert(false);
            },
        }
        if is_dir && dir.nlink < u32::MAX {
            dir.nlink = dir.nlink + 1;
        }
        let ghost changed = dir@;
        self.put_node(parent, dir);
        proof {
            assert(self.nodes() =~= with_created(before, place, view));
            lemma_created_wf(start, before, place, view);
        }
        Ok(ino)
    }
}

} // verus!
