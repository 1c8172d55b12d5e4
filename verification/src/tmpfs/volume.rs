//! A mounted filesystem in memory, and its nodes. The time is handed in, in seconds.
use vstd::prelude::*;
use vstd::string::*;
use vstd::utf8::encode_utf8;

use crate::bytes::copy_all;
use crate::error::{Error, Result};
use crate::simplefs::lookup::lookup;
use crate::squashfs::volume::{extract_name, last_name};
use crate::tmpfs::create::{creation, fresh_node};
use crate::tmpfs::link::{after_link, after_removal, after_rename, lemma_node_changed, nodes_changed};
use crate::tmpfs::lists::{TmpEntry, attr_pos, attr_value, entry_list, find_attribute, set_attribute, with_attr, without_attr};
use crate::tmpfs::state::{DataView, InodeNode, Nodes, TmpData, TmpFsInner, TmpInode, entries_known, node_at, node_in_order, tmp_resolved, total_bytes, with_node_at};
use crate::vfs::{DEFAULT_DEVICE_MODE, DirectoryEntry, Metadata, NodeKind, SecurityDescriptor, SecurityDescriptorMutationSupport, VolumeCheckReport, XattrEntry, entry_pairs};

verus! {

/// A mounted filesystem.
pub struct TmpFsVolume {
    pub name: String,
    pub inner: TmpFsInner,
}

/// A node of a mounted filesystem. `size` is that of a node that is no file.
pub struct TmpFsVNode {
    pub name: String,
    pub kind: NodeKind,
    pub ino: u64,
    pub size: usize,
}

/// The kind of a node.
pub open spec fn kind_of_data(d: DataView) -> NodeKind {
    match d {
        DataView::File(_) => NodeKind::File,
        DataView::Directory(_) => NodeKind::Directory,
        DataView::Symlink(_) => NodeKind::Symlink,
        DataView::Device { .. } => NodeKind::Device,
    }
}

/// The size of a node: that of a file, and zero of any other.
pub open spec fn size_of_data(d: DataView) -> int {
    match d {
        DataView::File(b) => b.len() as int,
        _ => 0,
    }
}

fn kind_and_size(d: &TmpData) -> (r: (NodeKind, usize))
    ensures
        forall|n: TmpInode|
            n.data == *d ==> r.0 == kind_of_data((#[trigger] n@).data) && r.1 == size_of_data(
                n@.data,
            ),
{
    match d {
        TmpData::File(b) => (NodeKind::File, b.len()),
        TmpData::Directory(_) => (NodeKind::Directory, 0),
        TmpData::Symlink(_) => (NodeKind::Symlink, 0),
        TmpData::Device { .. } => (NodeKind::Device, 0),
    }
}

/// The descriptor of a node.
pub open spec fn node_security(n: InodeNode) -> SecurityDescriptor {
    SecurityDescriptor { owner_uid: n.uid, owner_gid: n.gid, mode: n.mode }
}

/// The node that a path leads to.
pub open spec fn tmp_found(nodes: Nodes, path: Seq<char>) -> core::result::Result<
    (u64, InodeNode),
    Error,
> {
    match tmp_resolved(nodes, path) {
        Err(e) => Err(e),
        Ok(ino) => match node_at(nodes, ino) {
            None => Err(Error::NotFound),
            Some(n) => Ok((ino, n)),
        },
    }
}

impl TmpFsVolume {
    /// The nodes.
    pub open spec fn nodes(&self) -> Nodes {
        self.inner.nodes()
    }

    /// What holds of every mounted filesystem.
    pub open spec fn wf(&self) -> bool {
        self.inner.wf()
    }

    /// An empty filesystem with a quota in bytes; zero for none.
    pub fn new(name: &str, max_size: usize, now: u64) -> (r: Self)
        ensures
            r.wf(),
            r.name@ == name@,
            r.inner.max_size == max_size,
            r.inner.file_mode == 0o666,
            r.inner.dir_mode == 0o777,
            r.inner.default_uid == 0,
            r.inner.default_gid == 0,
            r.nodes() == seq![
                None,
                Some(
                    InodeNode {
                        data: DataView::Directory(seq![]),
                        nlink: 2,
                        uid: 0,
                        gid: 0,
                        mode: 0o777,
                        created: now,
                        modified: now,
                        accessed: now,
                        xattrs: seq![],
                    },
                ),
            ],
    {
        let root = TmpInode {
            data: TmpData::Directory(Vec::new()),
            nlink: 2,
            uid: 0,
            gid: 0,
            mode: 0o777,
            created: now,
            modified: now,
            accessed: now,
            xattrs: Vec::new(),
        };
        let ghost view = root@;
        assert(entry_pairs(root.xattrs@) =~= seq![]);
        assert(root.data->Directory_0@ =~= seq![]);
        assert(entry_list(root.data->Directory_0@) =~= seq![]);
        let mut inodes: Vec<Option<TmpInode>> = Vec::new();
        inodes.push(None);
        inodes.push(Some(root));
        let inner = TmpFsInner {
            inodes,
            max_size,
            used_size: 0,
            file_mode: 0o666,
            dir_mode: 0o777,
            default_uid: 0,
            default_gid: 0,
        };
        proof {
            let nodes = inner.nodes();
            assert(nodes =~= seq![None, Some(view)]);
            assert(nodes.drop_last() =~= seq![None::<InodeNode>]);
            assert(nodes.drop_last().drop_last() =~= seq![]);
            assert(total_bytes(nodes.drop_last().drop_last()) == 0);
            assert(total_bytes(nodes.drop_last()) == 0);
            assert(total_bytes(nodes) == 0);
        }
        TmpFsVolume { name: name.to_owned(), inner }
    }

    /// The name of the filesystem.
    pub fn name(&self) -> (r: &str)
        ensures
            r@ == self.name@,
    {
        self.name.as_str()
    }

    /// Looks a path up.
    pub fn lookup(&self, path: &str) -> (r: Result<TmpFsVNode>)
        ensures
            match tmp_found(self.nodes(), path@) {
                Err(e) => r matches Err(e2) && e2 == e,
                Ok((ino, n)) => r matches Ok(v) && v.name@ == last_name(path@) && v.kind
                    == kind_of_data(n.data) && v.ino == ino && v.size == size_of_data(n.data),
            },
    {
        let ino: u64 = self.inner.resolve_path(path)?;
        let node = match self.inner.get_node(ino) {
            None => {
                return Err(Error::NotFound);
            },
            Some(n) => n,
        };
        let (kind, size) = kind_and_size(&node.data);
        assert(kind == kind_of_data(node@.data));
        Ok(TmpFsVNode { name: extract_name(path), kind, ino, size })
    }

    /// The attributes of what a path leads to.
    pub fn stat(&self, path: &str) -> (r: Result<Metadata>)
        ensures
            match tmp_found(self.nodes(), path@) {
                Err(e) => r matches Err(e2) && e2 == e,
                Ok((_, n)) => r matches Ok(m) && m.kind == kind_of_data(n.data) && m.size
                    == size_of_data(n.data) && m.security == node_security(n) && m.created
                    == n.created && m.modified == n.modified && m.accessed == n.accessed,
            },
    {
        let node = self.lookup(path)?;
        node.metadata(self)
    }

    /// The entry with a number in the directory that a path leads to, in the order of
    /// names.
    pub fn read_dir(&self, path: &str, index: usize) -> (r: Result<DirectoryEntry>)
        requires
            self.wf(),
        ensures
            match tmp_found(self.nodes(), path@) {
                Err(e) => r matches Err(e2) && e2 == e,
                Ok((_, n)) => match n.data {
                    DataView::Directory(list) => if index >= list.len() {
                        r matches Err(e2) && e2 == Error::NotFound
                    } else {
                        match node_at(self.nodes(), list[index as int].1) {
                            None => r matches Err(e2) && e2 == Error::NotFound,
                            Some(c) => r matches Ok(d) && d.kind == kind_of_data(c.data) && d.size
                                == size_of_data(c.data) && d.name@ == list[index as int].0
                                && d.security == node_security(c),
                        }
                    },
                    _ => r matches Err(e2) && e2 == Error::InvalidArgument,
                },
            },
    {
        let ino: u64 = self.inner.resolve_path(path)?;
        let node = match self.inner.get_node(ino) {
            None => {
                return Err(Error::NotFound);
            },
            Some(n) => n,
        };
        match &node.data {
            TmpData::Directory(list) => {
                if index >= list.len() {
                    return Err(Error::NotFound);
                }
                let entry = &list[index];
                assert(entry_list(list@)[index as int] == (entry.name@, entry.ino));
                let child = match self.inner.get_node(entry.ino) {
                    None => {
                        return Err(Error::NotFound);
                    },
                    Some(n) => n,
                };
                let (kind, size) = kind_and_size(&child.data);
                assert(kind == kind_of_data(child@.data));
                Ok(
                    DirectoryEntry {
                        kind,
                        size,
                        name: entry.name.as_str().to_owned(),
                        security: SecurityDescriptor {
                            owner_uid: child.uid,
                            owner_gid: child.gid,
                            mode: child.mode,
                        },
                    },
                )
            },
            _ => Err(Error::InvalidArgument),
        }
    }

    /// Creates an empty file.
    pub fn create_file(&mut self, path: &str, now: u64) -> (r: Result<TmpFsVNode>)
        requires
            old(self).wf(),
        ensures
            final(self).name == old(self).name,
            created_node(
                *old(self),
                *final(self),
                path@,
                fresh_node(
                    DataView::File(seq![]),
                    old(self).inner,
                    old(self).inner.file_mode,
                    now,
                ),
                r,
            ),
    {
        let mode: u16 = self.inner.file_mode;
        let empty: Vec<u8> = Vec::new();
        assert(empty@ =~= seq![]);
        let ino: u64 = self.inner.insert_inode(path, TmpData::File(empty), mode, now)?;
        Ok(TmpFsVNode { name: extract_name(path), kind: NodeKind::File, ino, size: 0 })
    }

    /// Creates an empty directory.
    pub fn create_dir(&mut self, path: &str, now: u64) -> (r: Result<()>)
        requires
            old(self).wf(),
        ensures
            final(self).name == old(self).name,
            creation(
                old(self).inner,
                final(self).inner,
                path@,
                fresh_node(
                    DataView::Directory(seq![]),
                    old(self).inner,
                    old(self).inner.dir_mode,
                    now,
                ),
                match r {
                    Ok(_) => Ok(old(self).nodes().len() as u64),
                    Err(e) => Err(e),
                },
            ),
    {
        let mode: u16 = self.inner.dir_mode;
        let empty: Vec<TmpEntry> = Vec::new();
        assert(entry_list(empty@) =~= seq![]);
        let _ = self.inner.insert_inode(path, TmpData::Directory(empty), mode, now)?;
        Ok(())
    }

    /// Creates a symbolic link.
    pub fn create_symlink(&mut self, target: &str, path: &str, now: u64) -> (r: Result<TmpFsVNode>)
        requires
            old(self).wf(),
        ensures
            final(self).name == old(self).name,
            created_node(
                *old(self),
                *final(self),
                path@,
                fresh_node(DataView::Symlink(target@), old(self).inner, 0o777, now),
                r,
            ),
    {
        let ino: u64 = self.inner.insert_inode(
            path,
            TmpData::Symlink(target.to_owned()),
            0o777,
            now,
        )?;
        Ok(TmpFsVNode { name: extract_name(path), kind: NodeKind::Symlink, ino, size: 0 })
    }

    /// Creates a device node.
    pub fn create_device(&mut self, path: &str, major: u32, minor: u32, now: u64) -> (r: Result<
        TmpFsVNode,
    >)
        requires
            old(self).wf(),
        ensures
            final(self).name == old(self).name,
            created_node(
                *old(self),
                *final(self),
                path@,
                fresh_node(
                    DataView::Device { major, minor },
                    old(self).inner,
                    DEFAULT_DEVICE_MODE,
                    now,
                ),
                r,
            ),
    {
        let ino: u64 = self.inner.insert_inode(
            path,
            TmpData::Device { major, minor },
            DEFAULT_DEVICE_MODE,
            now,
        )?;
        Ok(TmpFsVNode { name: extract_name(path), kind: NodeKind::Device, ino, size: 0 })
    }

    /// Makes another name for a node that is no directory.
    pub fn hard_link(&mut self, target: &str, link_path: &str) -> (r: Result<()>)
        requires
            old(self).wf(),
        ensures
            final(self).name == old(self).name,
            nodes_changed(
                old(self).inner,
                final(self).inner,
                after_link(old(self).nodes(), target@, link_path@),
                r,
            ),
    {
        self.inner.hard_link(target, link_path)
    }

    /// Removes a name.
    pub fn remove_path(&mut self, path: &str) -> (r: Result<()>)
        requires
            old(self).wf(),
        ensures
            final(self).name == old(self).name,
            nodes_changed(
                old(self).inner,
                final(self).inner,
                after_removal(old(self).nodes(), path@),
                r,
            ),
    {
        self.inner.remove_path(path)
    }

    /// Renames a node.
    pub fn rename(&mut self, old_path: &str, new_path: &str) -> (r: Result<()>)
        requires
            old(self).wf(),
        ensures
            final(self).name == old(self).name,
            nodes_changed(
                old(self).inner,
                final(self).inner,
                after_rename(old(self).nodes(), old_path@, new_path@),
                r,
            ),
    {
        self.inner.rename(old_path, new_path)
    }

    /// Descriptors can be changed.
    pub fn security_descriptor_mutation_support(&self) -> (r: SecurityDescriptorMutationSupport)
        ensures
            r == SecurityDescriptorMutationSupport::Persistent,
    {
        SecurityDescriptorMutationSupport::Persistent
    }

    /// Changes the descriptor of what a path leads to.
    pub fn update_security_descriptor(&mut self, path: &str, sd: SecurityDescriptor) -> (r: Result<
        (),
    >)
        requires
            old(self).wf(),
        ensures
            final(self).name == old(self).name,
            nodes_changed(
                old(self).inner,
                final(self).inner,
                match tmp_found(old(self).nodes(), path@) {
                    Err(e) => Err(e),
                    Ok((ino, n)) => Ok(
                        with_node_at(
                            old(self).nodes(),
                            ino,
                            Some(
                                InodeNode {
                                    uid: sd.owner_uid,
                                    gid: sd.owner_gid,
                                    mode: sd.mode,
                                    ..n
                                },
                            ),
                        ),
                    ),
                },
                r,
            ),
    {
        let ino: u64 = self.inner.resolve_path(path)?;
        let ghost start = self.inner;
        if self.inner.get_node(ino).is_none() {
            return Err(Error::NotFound);
        }
        match self.inner.take_node(ino) {
            None => Err(Error::NotFound),
            Some(n) => {
                let mut node = n;
                node.uid = sd.owner_uid;
                node.gid = sd.owner_gid;
                node.mode = sd.mode;
                let ghost now = node@;
                self.inner.put_node(ino, node);
                proof {
                    lemma_same_data(start, ino, now);
                    assert(self.nodes() =~= with_node_at(start.nodes(), ino, Some(now)));
                }
                Ok(())
            },
        }
    }

    /// Nothing can be wrong in memory.
    pub fn check_and_repair(&self) -> (r: Result<VolumeCheckReport>)
        ensures
            r == Ok::<VolumeCheckReport, Error>(
                VolumeCheckReport {
                    issues_detected: 0,
                    repairs_applied: 0,
                    orphan_data_blocks: 0,
                    checksum_failures: 0,
                    staging_orphans_cleaned: 0,
                    orphan_blocks_cleaned: 0,
                    interrupted_commits: 0,
                },
            ),
    {
        Ok(
            VolumeCheckReport {
                issues_detected: 0,
                repairs_applied: 0,
                orphan_data_blocks: 0,
                checksum_failures: 0,
                staging_orphans_cleaned: 0,
                orphan_blocks_cleaned: 0,
                interrupted_commits: 0,
            },
        )
    }

    /// The extended attributes of what a path leads to.
    pub fn list_xattrs(&self, path: &str) -> (r: Result<Vec<XattrEntry>>)
        ensures
            match tmp_found(self.nodes(), path@) {
                Err(e) => r matches Err(e2) && e2 == e,
                Ok((_, n)) => r matches Ok(v) && entry_pairs(v@) == n.xattrs,
            },
    {
        let ino: u64 = self.inner.resolve_path(path)?;
        self.inner.xattrs_of(ino)
    }

    /// The value of an extended attribute of what a path leads to.
    pub fn get_xattr(&self, path: &str, name: &[u8]) -> (r: Result<Option<Vec<u8>>>)
        ensures
            match tmp_found(self.nodes(), path@) {
                Err(e) => r matches Err(e2) && e2 == e,
                Ok((_, n)) => match attr_value(n.xattrs, name@) {
                    None => r matches Ok(None),
                    Some(x) => r matches Ok(Some(v)) && v@ == x,
                },
            },
    {
        let ino: u64 = self.inner.resolve_path(path)?;
        self.inner.xattr_value(ino, name)
    }

    /// Sets an extended attribute of what a path leads to.
    pub fn set_xattr(&mut self, path: &str, name: &[u8], value: &[u8]) -> (r: Result<()>)
        requires
            old(self).wf(),
        ensures
            final(self).name == old(self).name,
            nodes_changed(
                old(self).inner,
                final(self).inner,
                if name@.len() == 0 {
                    Err(Error::InvalidArgument)
                } else {
                    match tmp_resolved(old(self).nodes(), path@) {
                        Err(e) => Err(e),
                        Ok(ino) => xattr_set(old(self).nodes(), ino, name@, value@),
                    }
                },
                r,
            ),
    {
        if name.len() == 0 {
            return Err(Error::InvalidArgument);
        }
        let ino: u64 = self.inner.resolve_path(path)?;
        self.inner.set_xattr_of(ino, name, value)
    }

    /// Removes an extended attribute of what a path leads to.
    pub fn remove_xattr(&mut self, path: &str, name: &[u8]) -> (r: Result<()>)
        requires
            old(self).wf(),
        ensures
            final(self).name == old(self).name,
            nodes_changed(
                old(self).inner,
                final(self).inner,
                match tmp_resolved(old(self).nodes(), path@) {
                    Err(e) => Err(e),
                    Ok(ino) => xattr_unset(old(self).nodes(), ino, name@),
                },
                r,
            ),
    {
        let ino: u64 = self.inner.resolve_path(path)?;
        self.inner.remove_xattr_of(ino, name)
    }
}

/// The outcome of creating a node that is handed out.
pub open spec fn created_node(
    a: TmpFsVolume,
    b: TmpFsVolume,
    path: Seq<char>,
    node: InodeNode,
    r: Result<TmpFsVNode>,
) -> bool {
    &&& creation(
        a.inner,
        b.inner,
        path,
        node,
        match r {
            Ok(v) => Ok(v.ino),
            Err(e) => Err(e),
        },
    )
    &&& r matches Ok(v) ==> v.name@ == last_name(path) && v.kind == kind_of_data(node.data)
        && v.size == 0
}

/// The nodes with an extended attribute set.
pub open spec fn xattr_set(nodes: Nodes, ino: u64, name: Seq<u8>, value: Seq<u8>) -> core::result::Result<
    Nodes,
    Error,
> {
    match node_at(nodes, ino) {
        None => Err(Error::NotFound),
        Some(n) => Ok(
            with_node_at(
                nodes,
                ino,
                Some(InodeNode { xattrs: with_attr(n.xattrs, name, value), ..n }),
            ),
        ),
    }
}

/// The nodes with an extended attribute removed.
pub open spec fn xattr_unset(nodes: Nodes, ino: u64, name: Seq<u8>) -> core::result::Result<
    Nodes,
    Error,
> {
    match node_at(nodes, ino) {
        None => Err(Error::NotFound),
        Some(n) => if attr_pos(n.xattrs, name, 0) is None {
            Err(Error::NotFound)
        } else {
            Ok(
                with_node_at(
                    nodes,
                    ino,
                    Some(InodeNode { xattrs: without_attr(n.xattrs, name), ..n }),
                ),
            )
        },
    }
}

/// Changing anything but the contents of a node keeps the state in order.
pub proof fn lemma_same_data(s: TmpFsInner, ino: u64, node: InodeNode)
    requires
        s.wf(),
        node_at(s.nodes(), ino) is Some,
        node.data == node_at(s.nodes(), ino)->Some_0.data,
    ensures
        ({
            let now = with_node_at(s.nodes(), ino, Some(node));
            &&& now.len() == s.nodes().len()
            &&& total_bytes(now) == s.used_size
            &&& forall|k: int|
                #![trigger now[k]]
                0 <= k < now.len() ==> entries_known(now[k], now.len() as int) && node_in_order(
                    now[k],
                )
        }),
{
    assert(entries_known(s.nodes()[ino as int], s.nodes().len() as int));
    assert(node_in_order(s.nodes()[ino as int]));
    lemma_node_changed(s, ino, Some(node));
}

impl TmpFsInner {
    fn xattrs_of(&self, ino: u64) -> (r: Result<Vec<XattrEntry>>)
        ensures
            match node_at(self.nodes(), ino) {
                None => r matches Err(e) && e == Error::NotFound,
                Some(n) => r matches Ok(v) && entry_pairs(v@) == n.xattrs,
            },
    {
        let node = match self.get_node(ino) {
            None => {
                return Err(Error::NotFound);
            },
            Some(n) => n,
        };
        let list = &node.xattrs;
        let mut out: Vec<XattrEntry> = Vec::new();
        let mut i: usize = 0;
        assert(entry_pairs(out@) =~= entry_pairs(list@).take(0));
        while i < list.len()
            invariant
                i <= list@.len(),
                entry_pairs(out@) == entry_pairs(list@).take(i as int),
            decreases list@.len() - i,
        {
            let ghost before = entry_pairs(out@);
            out.push(
                XattrEntry {
                    name: copy_all(list[i].name.as_slice()),
                    value: copy_all(list[i].value.as_slice()),
                },
            );
            assert(entry_pairs(out@) =~= before.push(entry_pairs(list@)[i as int]));
            assert(entry_pairs(list@).take(i + 1) =~= before.push(entry_pairs(list@)[i as int]));
            i = i + 1;
        }
        assert(entry_pairs(list@).take(i as int) =~= entry_pairs(list@));
        Ok(out)
    }

    fn xattr_value(&self, ino: u64, name: &[u8]) -> (r: Result<Option<Vec<u8>>>)
        ensures
            match node_at(self.nodes(), ino) {
                None => r matches Err(e) && e == Error::NotFound,
                Some(n) => match attr_value(n.xattrs, name@) {
                    None => r matches Ok(None),
                    Some(x) => r matches Ok(Some(v)) && v@ == x,
                },
            },
    {
        match self.get_node(ino) {
            None => Err(Error::NotFound),
            Some(n) => match find_attribute(&n.xattrs, name) {
                None => Ok(None),
                Some(k) => Ok(Some(copy_all(n.xattrs[k].value.as_slice()))),
            },
        }
    }

    fn set_xattr_of(&mut self, ino: u64, name: &[u8], value: &[u8]) -> (r: Result<()>)
        requires
            old(self).wf(),
        ensures
            nodes_changed(
                *old(self),
                *final(self),
                xattr_set(old(self).nodes(), ino, name@, value@),
                r,
            ),
    {
        let ghost start = *self;
        if self.get_node(ino).is_none() {
            return Err(Error::NotFound);
        }
        match self.take_node(ino) {
            None => Err(Error::NotFound),
            Some(n) => {
                let mut node = n;
                set_attribute(&mut node.xattrs, name, value);
                let ghost now = node@;
                self.put_node(ino, node);
                proof {
                    lemma_same_data(start, ino, now);
                    assert(self.nodes() =~= with_node_at(start.nodes(), ino, Some(now)));
                }
                Ok(())
            },
        }
    }

    fn remove_xattr_of(&mut self, ino: u64, name: &[u8]) -> (r: Result<()>)
        requires
            old(self).wf(),
        ensures
            nodes_changed(
                *old(self),
                *final(self),
                xattr_unset(old(self).nodes(), ino, name@),
                r,
            ),
    {
        let ghost start = *self;
        let k: usize = match self.get_node(ino) {
            None => {
                return Err(Error::NotFound);
            },
            Some(n) => match find_attribute(&n.xattrs, name) {
                None => {
                    return Err(Error::NotFound);
                },
                Some(k) => k,
            },
        };
        match self.take_node(ino) {
            None => Err(Error::NotFound),
            Some(n) => {
                let mut node = n;
                let ghost before = entry_pairs(node.xattrs@);
                let _ = node.xattrs.remove(k);
                assert(entry_pairs(node.xattrs@) =~= before.remove(k as int));
                let ghost now = node@;
                self.put_node(ino, node);
                proof {
                    lemma_same_data(start, ino, now);
                    assert(self.nodes() =~= with_node_at(start.nodes(), ino, Some(now)));
                }
                Ok(())
            },
        }
    }
}

impl TmpFsVNode {
    /// The name of the node.
    pub fn name(&self) -> (r: &str)
        ensures
            r@ == self.name@,
    {
        self.name.as_str()
    }

    /// What kind of node it is.
    pub fn kind(&self) -> (r: NodeKind)
        ensures
            r == self.kind,
    {
        self.kind
    }

    /// The size in bytes: that of the file now.
    pub fn size(&self, fs: &TmpFsVolume) -> (r: usize)
        ensures
            r == match node_at(fs.nodes(), self.ino) {
                Some(n) => match n.data {
                    DataView::File(d) => if self.kind == NodeKind::File {
                        d.len() as usize
                    } else {
                        self.size
                    },
                    _ => self.size,
                },
                None => self.size,
            },
    {
        if self.kind == NodeKind::File {
            if let Some(n) = fs.inner.get_node(self.ino) {
                if let TmpData::File(d) = &n.data {
                    return d.len();
                }
            }
        }
        self.size
    }

    /// The attributes of the node.
    pub fn metadata(&self, fs: &TmpFsVolume) -> (r: Result<Metadata>)
        ensures
            match node_at(fs.nodes(), self.ino) {
                None => r matches Err(e) && e == Error::NotFound,
                Some(n) => r matches Ok(m) && m.kind == self.kind && m.size == (match n.data {
                    DataView::File(d) => d.len() as usize,
                    _ => self.size,
                }) && m.security == node_security(n) && m.created == n.created && m.modified
                    == n.modified && m.accessed == n.accessed,
            },
    {
        let node = match fs.inner.get_node(self.ino) {
            None => {
                return Err(Error::NotFound);
            },
            Some(n) => n,
        };
        let size: usize = match &node.data {
            TmpData::File(d) => d.len(),
            _ => self.size,
        };
        Ok(
            Metadata {
                kind: self.kind,
                size,
                security: SecurityDescriptor {
                    owner_uid: node.uid,
                    owner_gid: node.gid,
                    mode: node.mode,
                },
                created: node.created,
                modified: node.modified,
                accessed: node.accessed,
            },
        )
    }

    /// The target of a symbolic link.
    pub fn readlink(&self, fs: &TmpFsVolume) -> (r: Result<Vec<u8>>)
        ensures
            if self.kind != NodeKind::Symlink {
                r matches Err(e) && e == Error::InvalidArgument
            } else {
                match node_at(fs.nodes(), self.ino) {
                    None => r matches Err(e) && e == Error::NotFound,
                    Some(n) => match n.data {
                        DataView::Symlink(t) => r matches Ok(v) && v@ == encode_utf8(t),
                        _ => r matches Err(e) && e == Error::InvalidArgument,
                    },
                }
            },
    {
        if self.kind != NodeKind::Symlink {
            return Err(Error::InvalidArgument);
        }
        match fs.inner.get_node(self.ino) {
            None => Err(Error::NotFound),
            Some(n) => match &n.data {
                TmpData::Symlink(t) => Ok(copy_all(t.as_str().as_bytes())),
                _ => Err(Error::InvalidArgument),
            },
        }
    }

    /// The numbers of a device.
    pub fn device_id(&self, fs: &TmpFsVolume) -> (r: Result<(u32, u32)>)
        ensures
            if self.kind != NodeKind::Device {
                r == Err::<(u32, u32), Error>(Error::InvalidArgument)
            } else {
                match node_at(fs.nodes(), self.ino) {
                    None => r == Err::<(u32, u32), Error>(Error::NotFound),
                    Some(n) => match n.data {
                        DataView::Device { major, minor } => r == Ok::<(u32, u32), Error>(
                            (major, minor),
                        ),
                        _ => r == Err::<(u32, u32), Error>(Error::InvalidArgument),
                    },
                }
            },
    {
        if self.kind != NodeKind::Device {
            return Err(Error::InvalidArgument);
        }
        match fs.inner.get_node(self.ino) {
            None => Err(Error::NotFound),
            Some(n) => match &n.data {
                TmpData::Device { major, minor } => Ok((*major, *minor)),
                _ => Err(Error::InvalidArgument),
            },
        }
    }

    /// The extended attributes of the node.
    pub fn list_xattrs(&self, fs: &TmpFsVolume) -> (r: Result<Vec<XattrEntry>>)
        ensures
            match node_at(fs.nodes(), self.ino) {
                None => r matches Err(e) && e == Error::NotFound,
                Some(n) => r matches Ok(v) && entry_pairs(v@) == n.xattrs,
            },
    {
        fs.inner.xattrs_of(self.ino)
    }

    /// The value of an extended attribute of the node.
    pub fn get_xattr(&self, fs: &TmpFsVolume, name: &[u8]) -> (r: Result<Option<Vec<u8>>>)
        ensures
            match node_at(fs.nodes(), self.ino) {
                None => r matches Err(e) && e == Error::NotFound,
                Some(n) => match attr_value(n.xattrs, name@) {
                    None => r matches Ok(None),
                    Some(x) => r matches Ok(Some(v)) && v@ == x,
                },
            },
    {
        fs.inner.xattr_value(self.ino, name)
    }

    /// Sets an extended attribute of the node.
    pub fn set_xattr(&self, fs: &mut TmpFsVolume, name: &[u8], value: &[u8]) -> (r: Result<()>)
        requires
            old(fs).wf(),
        ensures
            final(fs).name == old(fs).name,
            nodes_changed(
                old(fs).inner,
                final(fs).inner,
                if name@.len() == 0 {
                    Err(Error::InvalidArgument)
                } else {
                    xattr_set(old(fs).nodes(), self.ino, name@, value@)
                },
                r,
            ),
    {
        if name.len() == 0 {
            return Err(Error::InvalidArgument);
        }
        fs.inner.set_xattr_of(self.ino, name, value)
    }

    /// Removes an extended attribute of the node.
    pub fn remove_xattr(&self, fs: &mut TmpFsVolume, name: &[u8]) -> (r: Result<()>)
        requires
            old(fs).wf(),
        ensures
            final(fs).name == old(fs).name,
            nodes_changed(
                old(fs).inner,
                final(fs).inner,
                xattr_unset(old(fs).nodes(), self.ino, name@),
                r,
            ),
    {
        fs.inner.remove_xattr_of(self.ino, name)
    }
}

} // verus!
