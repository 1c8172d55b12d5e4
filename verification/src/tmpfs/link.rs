//! Removing, renaming and linking names.
use vstd::prelude::*;
use vstd::string::*;

use crate::error::{Error, Result};
use crate::tmpfs::create::{one_less, one_more, with_entries};
use crate::tmpfs::lists::{EntryList, entry_list, find_name, lemma_name_at, lemma_name_slot, lemma_with_name_order, lemma_without_name_order, name_at, name_slot, named, set_name, unset_name, with_name, without_name};
use crate::tmpfs::state::{DataView, InodeNode, Nodes, TmpData, TmpFsInner, entries_known, lemma_total_bound, lemma_total_update, node_at, node_bytes, node_in_order, tmp_parent, tmp_resolved, total_bytes, with_node_at};
use crate::tmpfs::subtree::{entries_at, lies_below};

verus! {

/// The nodes with a name of a directory set.
pub open spec fn linked(nodes: Nodes, parent: u64, name: Seq<char>, ino: u64) -> Nodes {
    match node_at(nodes, parent) {
        Some(n) => match n.data {
            DataView::Directory(list) => with_node_at(
                nodes,
                parent,
                Some(with_entries(n, with_name(list, name, ino))),
            ),
            _ => nodes,
        },
        None => nodes,
    }
}

/// The nodes with a name of a directory removed.
pub open spec fn unlinked(nodes: Nodes, parent: u64, name: Seq<char>) -> Nodes {
    match node_at(nodes, parent) {
        Some(n) => match n.data {
            DataView::Directory(list) => with_node_at(
                nodes,
                parent,
                Some(with_entries(n, without_name(list, name))),
            ),
            _ => nodes,
        },
        None => nodes,
    }
}

/// The nodes with the link count of one changed.
pub open spec fn recounted(nodes: Nodes, ino: u64, more: bool) -> Nodes {
    match node_at(nodes, ino) {
        Some(n) => with_node_at(
            nodes,
            ino,
            Some(
                InodeNode {
                    nlink: if more {
                        one_more(n.nlink)
                    } else {
                        one_less(n.nlink)
                    },
                    ..n
                },
            ),
        ),
        None => nodes,
    }
}

/// Whether a node goes away with its next link.
pub open spec fn last_link(nodes: Nodes, ino: u64) -> bool {
    node_at(nodes, ino) matches Some(n) && n.nlink <= 1
}

/// The nodes after one lost a link: it goes away with the last.
pub open spec fn link_lost(nodes: Nodes, ino: u64) -> Nodes {
    if last_link(nodes, ino) {
        with_node_at(nodes, ino, None)
    } else {
        recounted(nodes, ino, false)
    }
}

/// Whether a node is a directory.
pub open spec fn is_dir_node(nodes: Nodes, ino: u64) -> bool {
    node_at(nodes, ino) matches Some(n) && n.data is Directory
}

pub proof fn lemma_node_changed(s: TmpFsInner, ino: u64, node: Option<InodeNode>)
    requires
        s.wf(),
        ino < s.nodes().len(),
        entries_known(node, s.nodes().len() as int),
        node_in_order(node),
    ensures
        ({
            let now = with_node_at(s.nodes(), ino, node);
            &&& now.len() == s.nodes().len()
            &&& total_bytes(now) == s.used_size - node_bytes(s.nodes()[ino as int]) + node_bytes(
                node,
            )
            &&& 0 <= node_bytes(s.nodes()[ino as int]) <= s.used_size
            &&& forall|k: int|
                #![trigger now[k]]
                0 <= k < now.len() ==> entries_known(now[k], now.len() as int) && node_in_order(
                    now[k],
                )
        }),
{
    let nodes = s.nodes();
    let now = with_node_at(nodes, ino, node);
    lemma_total_update(nodes, ino as int, node);
    lemma_total_bound(nodes, ino as int);
    assert forall|k: int| #![trigger now[k]] 0 <= k < now.len() implies entries_known(
        now[k],
        now.len() as int,
    ) && node_in_order(now[k]) by {
        if k != ino {
            assert(now[k] == nodes[k]);
        }
    }
}

proof fn lemma_with_name_known(list: EntryList, name: Seq<char>, ino: u64, count: int)
    requires
        forall|i: int| #![trigger list[i]] 0 <= i < list.len() ==> list[i].1 < count,
        ino < count,
    ensures
        forall|i: int|
            #![trigger with_name(list, name, ino)[i]]
            0 <= i < with_name(list, name, ino).len() ==> with_name(list, name, ino)[i].1 < count,
{
    lemma_name_at(list, name, 0);
    lemma_name_slot(list, name, 0);
    let longer = with_name(list, name, ino);
    assert forall|i: int| #![trigger longer[i]] 0 <= i < longer.len() implies longer[i].1 < count by {
        match name_at(list, name, 0) {
            Some(k) => {
                if i != k {
                    assert(longer[i] == list[i]);
                }
            },
            None => {
                let s = name_slot(list, name, 0);
                if i < s {
                    assert(longer[i] == list[i]);
                } else if i > s {
                    assert(longer[i] == list[i - 1]);
                }
            },
        }
    }
}

proof fn lemma_without_name_known(list: EntryList, name: Seq<char>, count: int)
    requires
        forall|i: int| #![trigger list[i]] 0 <= i < list.len() ==> list[i].1 < count,
    ensures
        forall|i: int|
            #![trigger without_name(list, name)[i]]
            0 <= i < without_name(list, name).len() ==> without_name(list, name)[i].1 < count,
{
    lemma_name_at(list, name, 0);
    let shorter = without_name(list, name);
    assert forall|i: int| #![trigger shorter[i]] 0 <= i < shorter.len() implies shorter[i].1
        < count by {
        match name_at(list, name, 0) {
            Some(k) => {
                if i < k {
                    assert(shorter[i] == list[i]);
                } else {
                    assert(shorter[i] == list[i + 1]);
                }
            },
            None => {},
        }
    }
}

impl TmpFsInner {
    /// Sets a name of a directory.
    fn link(&mut self, parent: u64, name: &str, ino: u64)
        requires
            old(self).wf(),
            ino < old(self).nodes().len(),
        ensures
            final(self).wf(),
            final(self).same_settings(*old(self)),
            final(self).nodes() == linked(old(self).nodes(), parent, name@, ino),
            final(self).nodes().len() == old(self).nodes().len(),
            final(self).used_size == old(self).used_size,
    {
        let ghost start = *self;
        let ghost nodes = self.nodes();
        let mut node = match self.take_node(parent) {
            None => {
                assert(self.nodes() =~= nodes);
                return ;
            },
            Some(n) => n,
        };
        assert(entries_known(nodes[parent as int], nodes.len() as int));
        let ghost view = node@;
        match &mut node.data {
            TmpData::Directory(list) => {
                proof {
                    lemma_with_name_known(entry_list(list@), name@, ino, nodes.len() as int);
                    lemma_with_name_order(entry_list(list@), name@, ino);
                }
                set_name(list, name, ino);
            },
            _ => {},
        }
        let ghost now = node@;
        self.put_node(parent, node);
        proof {
            lemma_node_changed(start, parent, Some(now));
            assert(self.nodes() =~= with_node_at(nodes, parent, Some(now)));
            if !(view.data is Directory) {
                assert(self.nodes() =~= nodes);
            }
            assert(self.nodes() =~= linked(nodes, parent, name@, ino));
        }
    }

    /// Removes a name of a directory.
    fn unlink(&mut self, parent: u64, name: &str)
        requires
            old(self).wf(),
        ensures
            final(self).wf(),
            final(self).same_settings(*old(self)),
            final(self).nodes() == unlinked(old(self).nodes(), parent, name@),
            final(self).nodes().len() == old(self).nodes().len(),
            final(self).used_size == old(self).used_size,
    {
        let ghost start = *self;
        let ghost nodes = self.nodes();
        let mut node = match self.take_node(parent) {
            None => {
                assert(self.nodes() =~= nodes);
                return ;
            },
            Some(n) => n,
        };
        assert(entries_known(nodes[parent as int], nodes.len() as int));
        let ghost view = node@;
        match &mut node.data {
            TmpData::Directory(list) => {
                proof {
                    lemma_without_name_known(entry_list(list@), name@, nodes.len() as int);
                    lemma_without_name_order(entry_list(list@), name@);
                }
                unset_name(list, name);
            },
            _ => {},
        }
        let ghost now = node@;
        self.put_node(parent, node);
        proof {
            lemma_node_changed(start, parent, Some(now));
            assert(self.nodes() =~= with_node_at(nodes, parent, Some(now)));
            if !(view.data is Directory) {
                assert(self.nodes() =~= nodes);
            }
            assert(self.nodes() =~= unlinked(nodes, parent, name@));
        }
    }

    /// Changes the link count of a node by one.
    fn recount(&mut self, ino: u64, more: bool)
        requires
            old(self).wf(),
        ensures
            final(self).wf(),
            final(self).same_settings(*old(self)),
            final(self).nodes() == recounted(old(self).nodes(), ino, more),
            final(self).nodes().len() == old(self).nodes().len(),
            final(self).used_size == old(self).used_size,
    {
        let ghost start = *self;
        let ghost nodes = self.nodes();
        let mut node = match self.take_node(ino) {
            None => {
                assert(self.nodes() =~= nodes);
                return ;
            },
            Some(n) => n,
        };
        assert(entries_known(nodes[ino as int], nodes.len() as int));
        assert(node_in_order(nodes[ino as int]));
        if more {
            if node.nlink < u32::MAX {
                node.nlink = node.nlink + 1;
            }
        } else if node.nlink > 0 {
            node.nlink = node.nlink - 1;
        }
        let ghost now = node@;
        self.put_node(ino, node);
        proof {
            lemma_node_changed(start, ino, Some(now));
            assert(self.nodes() =~= recounted(nodes, ino, more));
        }
    }

    /// Takes a link from a node, which goes away with the last. Says whether it did.
    fn lose_link(&mut self, ino: u64) -> (gone: bool)
        requires
            old(self).wf(),
        ensures
            final(self).wf(),
            final(self).same_settings(*old(self)),
            final(self).nodes() == link_lost(old(self).nodes(), ino),
            final(self).nodes().len() == old(self).nodes().len(),
            gone == last_link(old(self).nodes(), ino),
    {
        let last = match self.get_node(ino) {
            None => false,
            Some(n) => n.nlink <= 1,
        };
        if !last {
            self.recount(ino, false);
            return false;
        }
        let ghost start = *self;
        let ghost nodes = self.nodes();
        proof {
            lemma_node_changed(start, ino, None);
        }
        let node = self.take_node(ino);
        match node {
            Some(n) => match &n.data {
                TmpData::File(data) => {
                    self.used_size = self.used_size - data.len();
                },
                _ => {},
            },
            None => {},
        }
        true
    }
}

/// The nodes after a name was removed. A directory must be empty. A node goes away with
/// its last name, and a directory that does takes a link from its parent.
pub open spec fn after_removal(nodes: Nodes, path: Seq<char>) -> core::result::Result<
    Nodes,
    Error,
> {
    match tmp_parent(nodes, path) {
        Err(e) => Err(e),
        Ok((parent, name)) => match node_at(nodes, parent) {
            None => Err(Error::NotFound),
            Some(p) => match p.data {
                DataView::Directory(list) => match named(list, name) {
                    None => Err(Error::NotFound),
                    Some(child) => if entries_at(nodes, child).len() > 0 {
                        Err(Error::Busy)
                    } else {
                        let cut = unlinked(nodes, parent, name);
                        let lost = link_lost(cut, child);
                        if is_dir_node(nodes, child) && last_link(cut, child) {
                            Ok(recounted(lost, parent, false))
                        } else {
                            Ok(lost)
                        }
                    },
                },
                _ => Err(Error::InvalidArgument),
            },
        },
    }
}

/// The outcome of an operation that only changes the nodes.
pub open spec fn nodes_changed(
    a: TmpFsInner,
    b: TmpFsInner,
    nodes: core::result::Result<Nodes, Error>,
    r: Result<()>,
) -> bool {
    &&& b.wf()
    &&& b.same_settings(a)
    &&& match nodes {
        Err(e) => r == Err::<(), Error>(e) && b == a,
        Ok(n) => r is Ok && b.nodes() == n,
    }
}

/// The nodes after a rename. A directory cannot move into itself or below itself. What is
/// replaced must be of the same kind, and a directory empty. Renaming a node to itself
/// changes nothing.
pub open spec fn after_rename(nodes: Nodes, old_path: Seq<char>, new_path: Seq<char>) -> core::result::Result<
    Nodes,
    Error,
> {
    match (tmp_parent(nodes, old_path), tmp_parent(nodes, new_path)) {
        (Err(e), _) => Err(e),
        (_, Err(e)) => Err(e),
        (Ok((from, name)), Ok((to, new_name))) => match child_in(nodes, from, name) {
            Err(e) => Err(e),
            Ok(None) => Err(Error::NotFound),
            Ok(Some(child)) => if is_dir_node(nodes, child) && (child == to || lies_below(
                nodes,
                child,
                to,
            )) {
                Err(Error::InvalidArgument)
            } else {
                match child_in(nodes, to, new_name) {
                    Err(e) => Err(e),
                    Ok(None) => Ok(moved(nodes, from, name, to, new_name, child)),
                    Ok(Some(target)) => if target == child {
                        Ok(nodes)
                    } else {
                        match after_replaced(nodes, child, to, target) {
                            Err(e) => Err(e),
                            Ok(n) => Ok(moved(n, from, name, to, new_name, child)),
                        }
                    },
                }
            },
        },
    }
}

/// What a name of a directory leads to.
pub open spec fn child_in(nodes: Nodes, parent: u64, name: Seq<char>) -> core::result::Result<
    Option<u64>,
    Error,
> {
    match node_at(nodes, parent) {
        None => Err(Error::NotFound),
        Some(p) => match p.data {
            DataView::Directory(list) => Ok(named(list, name)),
            _ => Err(Error::InvalidArgument),
        },
    }
}

/// The nodes after `target` made room for `child` in the directory `to`.
pub open spec fn after_replaced(nodes: Nodes, child: u64, to: u64, target: u64) -> core::result::Result<
    Nodes,
    Error,
> {
    if is_dir_node(nodes, child) != is_dir_node(nodes, target) {
        Err(Error::InvalidArgument)
    } else if entries_at(nodes, target).len() > 0 {
        Err(Error::Busy)
    } else if node_at(nodes, target) is None {
        Err(Error::NotFound)
    } else {
        let lost = link_lost(nodes, target);
        if is_dir_node(nodes, target) && last_link(nodes, target) {
            Ok(recounted(lost, to, false))
        } else {
            Ok(lost)
        }
    }
}

/// The nodes after an entry moved between directories. A directory moves its link to its
/// parent too.
pub open spec fn moved(
    nodes: Nodes,
    from: u64,
    name: Seq<char>,
    to: u64,
    new_name: Seq<char>,
    child: u64,
) -> Nodes {
    let n = linked(unlinked(nodes, from, name), to, new_name, child);
    if is_dir_node(nodes, child) && from != to {
        recounted(recounted(n, from, false), to, true)
    } else {
        n
    }
}

/// The nodes after a link to a node was made. Directories cannot be linked to. Where the
/// parent is no directory, no name is made; the link is counted all the same.
pub open spec fn after_link(nodes: Nodes, target: Seq<char>, link: Seq<char>) -> core::result::Result<
    Nodes,
    Error,
> {
    match (tmp_resolved(nodes, target), tmp_parent(nodes, link)) {
        (Err(e), _) => Err(e),
        (_, Err(e)) => Err(e),
        (Ok(ino), Ok((parent, name))) => if node_at(nodes, ino) is None {
            Err(Error::NotFound)
        } else if is_dir_node(nodes, ino) {
            Err(Error::PermissionDenied)
        } else {
            match child_in(nodes, parent, name) {
                Err(Error::NotFound) => Err(Error::NotFound),
                Ok(Some(_)) => Err(Error::AlreadyExists),
                _ => Ok(recounted(linked(nodes, parent, name, ino), ino, true)),
            }
        },
    }
}

impl TmpFsInner {
    fn is_dir(&self, ino: u64) -> (r: bool)
        ensures
            r == is_dir_node(self.nodes(), ino),
    {
        match self.get_node(ino) {
            None => false,
            Some(n) => match &n.data {
                TmpData::Directory(_) => true,
                _ => false,
            },
        }
    }

    fn has_entries(&self, ino: u64) -> (r: bool)
        ensures
            r == (entries_at(self.nodes(), ino).len() > 0),
    {
        match self.get_node(ino) {
            None => false,
            Some(n) => match &n.data {
                TmpData::Directory(list) => list.len() > 0,
                _ => false,
            },
        }
    }

    fn find_child(&self, parent: u64, name: &str) -> (r: Result<Option<u64>>)
        requires
            self.wf(),
        ensures
            r == child_in(self.nodes(), parent, name@),
            r matches Ok(Some(k)) ==> k < self.nodes().len() && is_dir_node(self.nodes(), parent),
    {
        let node = match self.get_node(parent) {
            None => {
                return Err(Error::NotFound);
            },
            Some(n) => n,
        };
        match &node.data {
            TmpData::Directory(list) => match find_name(list, name) {
                None => Ok(None),
                Some(k) => {
                    proof {
                        assert(entries_known(
                            self.nodes()[parent as int],
                            self.nodes().len() as int,
                        ));
                        assert(entry_list(list@)[k as int].1 == list@[k as int].ino);
                    }
                    Ok(Some(list[k].ino))
                },
            },
            _ => Err(Error::InvalidArgument),
        }
    }

    /// Removes a name. A directory must be empty.
    pub fn remove_path(&mut self, path: &str) -> (r: Result<()>)
        requires
            old(self).wf(),
        ensures
            nodes_changed(*old(self), *final(self), after_removal(old(self).nodes(), path@), r),
    {
        let (parent, name) = self.resolve_parent(path)?;
        let child: u64 = match self.find_child(parent, name.as_str())? {
            None => {
                return Err(Error::NotFound);
            },
            Some(c) => c,
        };
        if self.has_entries(child) {
            return Err(Error::Busy);
        }
        let was_dir = self.is_dir(child);
        self.unlink(parent, name.as_str());
        let gone = self.lose_link(child);
        if gone && was_dir {
            self.recount(parent, false);
        }
        Ok(())
    }

    /// Renames a node, replacing what the new name led to.
    pub fn rename(&mut self, old_path: &str, new_path: &str) -> (r: Result<()>)
        requires
            old(self).wf(),
        ensures
            nodes_changed(
                *old(self),
                *final(self),
                after_rename(old(self).nodes(), old_path@, new_path@),
                r,
            ),
    {
        let (from, name) = self.resolve_parent(old_path)?;
        let (to, new_name) = self.resolve_parent(new_path)?;
        let child: u64 = match self.find_child(from, name.as_str())? {
            None => {
                return Err(Error::NotFound);
            },
            Some(c) => c,
        };
        let child_is_dir = self.is_dir(child);
        if child_is_dir && (child == to || self.subtree_contains(child, to)) {
            return Err(Error::InvalidArgument);
        }
        let ghost before = self.nodes();
        let existing = self.find_child(to, new_name.as_str())?;
        if let Some(target) = existing {
            if target == child {
                return Ok(());
            }
            let target_is_dir = self.is_dir(target);
            if child_is_dir != target_is_dir {
                return Err(Error::InvalidArgument);
            }
            if self.has_entries(target) {
                return Err(Error::Busy);
            }
            if self.get_node(target).is_none() {
                return Err(Error::NotFound);
            }
            let gone = self.lose_link(target);
            if gone && target_is_dir {
                self.recount(to, false);
            }
        }
        let still_dir = self.is_dir(child);
        self.unlink(from, name.as_str());
        self.link(to, new_name.as_str(), child);
        if still_dir && from != to {
            self.recount(from, false);
            self.recount(to, true);
        }
        Ok(())
    }

    /// Makes another name for a node that is no directory.
    pub fn hard_link(&mut self, target: &str, link_path: &str) -> (r: Result<()>)
        requires
            old(self).wf(),
        ensures
            nodes_changed(
                *old(self),
                *final(self),
                after_link(old(self).nodes(), target@, link_path@),
                r,
            ),
    {
        let ino: u64 = self.resolve_path(target)?;
        let (parent, name) = self.resolve_parent(link_path)?;
        if self.get_node(ino).is_none() {
            return Err(Error::NotFound);
        }
        if self.is_dir(ino) {
            return Err(Error::PermissionDenied);
        }
        match self.find_child(parent, name.as_str()) {
            Err(e) => {
                if e == Error::NotFound {
                    return Err(Error::NotFound);
                }
            },
            Ok(found) => {
                if found.is_some() {
                    return Err(Error::AlreadyExists);
                }
            },
        }
        self.link(parent, name.as_str(), ino);
        self.recount(ino, true);
        Ok(())
    }
}

} // verus!
