//! A mounted volume as the rest of the system sees it.
use vstd::prelude::*;
use vstd::string::*;
use vstd::utf8::*;

use crate::block::{BlockDevice, DeviceHealth};
use crate::error::{Error, Result};
use crate::simplefs::check::check_outcome;
use crate::simplefs::create::lemma_lookup_live;
use crate::simplefs::file_laws::{contents_of, xattrs_before_data};
use crate::simplefs::file_ops::{set_len_outcome, write_outcome};
use crate::simplefs::file_read::read_outcome;
use crate::simplefs::health::{checksum_failures, checksums_kept};
use crate::simplefs::lookup::{inode_metadata, lookup, metadata_from_inode};
use crate::simplefs::ops::{dir_creation, file_creation, removal_outcome, rename_outcome, security_update, symlink_creation, symlink_storable};
use crate::simplefs::repair::orphan_count;
use crate::simplefs::state::{RestView, TreeView};
use crate::simplefs::symlink::follow;
use crate::simplefs::tree::{VolumeGeometry, entry_linked, free_slots_ok, shape_ok};
use crate::simplefs::validate::{live_dir, slice_end};
use crate::simplefs::volume::SimpleFs;
use crate::simplefs::xattr::{xattr_lookup, xattrs_listed};
use crate::vfs::{DirectoryEntry, Metadata, NodeKind, SecurityDescriptor, SecurityDescriptorMutationSupport, VolumeCheckReport, XattrEntry, entry_pairs};

verus! {

/// A node that someone holds open.
pub struct SimpleVNode {
    pub inode_index: usize,
    pub name: String,
}

/// A mounted volume behind the interface all file systems share.
pub struct SimpleFsVolume<D: BlockDevice> {
    pub inner: SimpleFs<D>,
}

/// The metadata of the node a path leads to, symlinks followed.
pub open spec fn followed_metadata<D: BlockDevice>(fs: SimpleFs<D>, path: Seq<char>) ->
    core::result::Result<Metadata, Error> {
    let t = fs.state.tree();
    match follow(t, fs.device, path, 0, fs.geometry.case_sensitive) {
        Err(e) => Err(e),
        Ok(i) => if i >= t.inodes.len() {
            Err(Error::InternalError)
        } else if t.inodes[i].deleted {
            Err(Error::NotFound)
        } else {
            Ok(inode_metadata(t.inodes[i]))
        },
    }
}

/// Where the entry that a directory listing shows at `index` is, or why there is none.
pub open spec fn listed_entry<D: BlockDevice>(fs: SimpleFs<D>, path: Seq<char>, index: int) ->
    core::result::Result<int, Error> {
    let t = fs.state.tree();
    match lookup(t, path, fs.geometry.case_sensitive) {
        Err(e) => Err(e),
        Ok(i) => if t.inodes[i].kind != NodeKind::Directory {
            Err(Error::InvalidArgument)
        } else if index >= t.inodes[i].entry_count {
            Err(Error::NotFound)
        } else {
            Ok(t.inodes[i].entry_start + index)
        },
    }
}

/// Whether a directory entry shows what entry `d` names.
pub open spec fn shows_entry(e: DirectoryEntry, t: TreeView, d: int) -> bool {
    let m = inode_metadata(t.inodes[t.entries[d].inode_index as int]);
    &&& e.kind == m.kind
    &&& e.size == m.size
    &&& e.security == m.security
    &&& e.name@ == t.entries[d].name
}

/// A list of handles with one less on an inode.
pub open spec fn without_one(handles: Seq<usize>, index: usize) -> Seq<usize>
    decreases handles.len(),
{
    if handles.len() == 0 {
        handles
    } else if handles.last() == index {
        handles.drop_last()
    } else {
        without_one(handles.drop_last(), index).push(handles.last())
    }
}

impl<D: BlockDevice> SimpleFs<D> {
    /// The metadata of the node a path leads to, symlinks followed.
    pub fn stat_follow(&self, path: &str) -> (r: Result<Metadata>)
        ensures
            r == followed_metadata(*self, path@),
    {
        let index = self.geometry.resolve_path_locked(&self.state, &self.device, path)?;
        self.state.metadata_of(index)
    }

    /// The entry that a directory listing shows at `index`.
    pub fn read_dir(&self, path: &str, index: usize) -> (r: Result<DirectoryEntry>)
        requires
            self.wf(),
        ensures
            match r {
                Ok(e) => listed_entry(*self, path@, index as int) is Ok && shows_entry(
                    e,
                    self.state.tree(),
                    listed_entry(*self, path@, index as int)->Ok_0,
                ),
                Err(e) => listed_entry(*self, path@, index as int) == Err::<int, Error>(e),
            },
    {
        let ghost t = self.state.tree();
        let inode_index = self.geometry.lookup_index_locked(&self.state, path)?;
        proof {
            lemma_lookup_live(
                t,
                self.geometry,
                (self.device.image().len() / 512) as int,
                path@,
            );
        }
        let inode = self.state.inodes[inode_index];
        assert(inode == t.inodes[inode_index as int]);
        if !matches!(inode.kind, NodeKind::Directory) {
            return Err(Error::InvalidArgument);
        }
        if index >= inode.entry_count as usize {
            return Err(Error::NotFound);
        }
        assert(live_dir(t.inodes[inode_index as int]));
        assert(slice_end(inode) <= t.entries.len());
        assert(t.entries.len() == self.state.dir_entries@.len());
        let _count: usize = self.state.dir_entries.len();
        let d: usize = (inode.entry_start as u64 + index as u64) as usize;
        assert(entry_linked(t, d as int));
        let entry = &self.state.dir_entries[d];
        assert(entry@ == t.entries[d as int]);
        let child = self.state.inodes[entry.inode_index as usize];
        let metadata = metadata_from_inode(child);
        Ok(
            DirectoryEntry::new(metadata.kind, metadata.size, entry.name.clone()).with_security(
                metadata.security,
            ),
        )
    }

    /// Notes that someone holds a node open: its slot stays taken until they let go.
    pub fn track_handle(&mut self, index: usize)
        ensures
            final(self).geometry == old(self).geometry,
            final(self).device == old(self).device,
            final(self).state.tree() == old(self).state.tree(),
            final(self).state.rest() == (RestView {
                handles: old(self).state.rest().handles.push(index),
                ..old(self).state.rest()
            }),
    {
        self.state.open_handles.push(index);
        assert(self.state.tree() == old(self).state.tree());
    }

    /// Lets go of a node. Its slot becomes free where it was removed meanwhile and nobody
    /// else holds it.
    pub fn release_handle(&mut self, index: usize)
        requires
            old(self).wf(),
            old(self).state.rest().handles.contains(index),
            index < old(self).state.tree().inodes.len(),
            old(self).state.tree().inodes[index as int].deleted ==> !old(
                self,
            ).state.tree().free_slots.contains(index),
        ensures
            final(self).wf(),
            final(self).geometry == old(self).geometry,
            final(self).device == old(self).device,
            final(self).state.rest() == (RestView {
                handles: without_one(old(self).state.rest().handles, index),
                ..old(self).state.rest()
            }),
            final(self).state.tree() == (TreeView {
                free_slots: if old(self).state.tree().inodes[index as int].deleted && !without_one(
                    old(self).state.rest().handles,
                    index,
                ).contains(index) {
                    old(self).state.tree().free_slots.push(index)
                } else {
                    old(self).state.tree().free_slots
                },
                ..old(self).state.tree()
            }),
    {
        let ghost all = self.state.rest().handles;
        let mut at: usize = self.state.open_handles.len();
        assert(all.take(at as int) =~= all);
        assert(without_one(all, index) =~= without_one(all.take(at as int), index) + all.skip(
            at as int,
        ));
        while at > 0 && self.state.open_handles[at - 1] != index
            invariant
                *self == *old(self),
                all == self.state.open_handles@,
                at <= all.len(),
                without_one(all, index) == without_one(all.take(at as int), index) + all.skip(
                    at as int,
                ),
                forall|k: int| at <= k < all.len() ==> all[k] != index,
            decreases at,
        {
            proof {
                let t = all.take(at as int);
                assert(t.drop_last() =~= all.take(at - 1));
                assert(without_one(all.take(at - 1), index).push(t.last()) + all.skip(at as int)
                    =~= without_one(all.take(at - 1), index) + all.skip(at - 1));
            }
            at = at - 1;
        }
        if at == 0 {
            proof {
                assert(all.contains(index));
                let k = choose|k: int| 0 <= k < all.len() && all[k] == index;
            }
            return;
        }
        proof {
            assert(all.take(at as int).drop_last() =~= all.take(at - 1));
            assert(all.take(at - 1) + all.skip(at as int) =~= all.remove(at - 1));
        }
        let _gone = self.state.open_handles.remove(at - 1);
        let ghost left = self.state.open_handles@;
        assert(left == without_one(all, index));
        let mut held: bool = false;
        let mut k: usize = 0;
        while k < self.state.open_handles.len()
            invariant
                k <= self.state.open_handles@.len(),
                left == self.state.open_handles@,
                held == exists|j: int| 0 <= j < k && left[j] == index,
            decreases self.state.open_handles@.len() - k,
        {
            if self.state.open_handles[k] == index {
                held = true;
                assert(left[k as int] == index);
            }
            k = k + 1;
        }
        assert(held == left.contains(index));
        let ghost mid = self.state;
        assert(mid.tree() == old(self).state.tree());
        if self.state.inodes[index].deleted && !held {
            self.state.free_inode_slots.push(index);
            proof {
                lemma_free_slot_shape(
                    mid.tree(),
                    self.geometry,
                    (self.device.image().len() / 512) as int,
                    index,
                );
                assert(self.state.tree() == (TreeView {
                    free_slots: mid.tree().free_slots.push(index),
                    ..mid.tree()
                }));
            }
        }
    }
}

/// A removed inode's slot may be handed out again.
proof fn lemma_free_slot_shape(t: TreeView, g: VolumeGeometry, blocks: int, index: usize)
    requires
        shape_ok(t, g, blocks, None),
        index < t.inodes.len(),
        t.inodes[index as int].deleted,
        !t.free_slots.contains(index),
    ensures
        shape_ok(TreeView { free_slots: t.free_slots.push(index), ..t }, g, blocks, None),
{
    let n = TreeView { free_slots: t.free_slots.push(index), ..t };
    assert forall|d: int| #![trigger n.entries[d]] 0 <= d < n.entries.len() implies entry_linked(
        n,
        d,
    ) by {
        assert(entry_linked(t, d));
    }
    assert(free_slots_ok(n)) by {
        assert forall|k: int|
            #![trigger n.free_slots[k]]
            0 <= k < n.free_slots.len() implies n.free_slots[k] < n.inodes.len()
            && n.inodes[n.free_slots[k] as int].deleted by {
            if k < t.free_slots.len() {
                assert(t.inodes[t.free_slots[k] as int].deleted);
            }
        }
        assert forall|i: int, j: int|
            #![trigger n.free_slots[i], n.free_slots[j]]
            0 <= i < j < n.free_slots.len() implies n.free_slots[i] != n.free_slots[j] by {
            if j == t.free_slots.len() {
                assert(t.free_slots.contains(t.free_slots[i]));
            } else {
                assert(t.free_slots[i] != t.free_slots[j]);
            }
        }
    }
}

/// Whether a handle on an inode was handed out, and nothing else changed.
pub open spec fn handle_taken<D: BlockDevice>(
    a: SimpleFs<D>,
    b: SimpleFs<D>,
    node: SimpleVNode,
) -> bool {
    &&& b.geometry == a.geometry
    &&& b.device == a.device
    &&& b.state.tree() == a.state.tree()
    &&& b.state.rest() == (RestView {
        handles: a.state.rest().handles.push(node.inode_index),
        ..a.state.rest()
    })
    &&& node.name@ == a.state.name_text(node.inode_index as int)
}

/// The inode behind an answer.
pub open spec fn handle_index(r: core::result::Result<SimpleVNode, Error>) -> core::result::Result<
    usize,
    Error,
> {
    match r {
        Ok(n) => Ok(n.inode_index),
        Err(e) => Err(e),
    }
}

impl<D: BlockDevice> SimpleFsVolume<D> {
    /// Wraps a mounted volume.
    pub fn new(inner: SimpleFs<D>) -> (r: Self)
        ensures
            r.inner == inner,
    {
        SimpleFsVolume { inner }
    }

    /// The volume's label.
    pub fn name(&self) -> (r: &str)
        ensures
            r@ == self.inner.geometry.label@,
    {
        self.inner.geometry.label.as_str()
    }

    /// Hands out a handle on an inode.
    fn open_handle(&mut self, inode_index: usize) -> (r: SimpleVNode)
        requires
            old(self).inner.wf(),
        ensures
            final(self).inner.wf(),
            r.inode_index == inode_index,
            handle_taken(old(self).inner, final(self).inner, r),
    {
        let name = self.inner.state.name_of(inode_index);
        self.inner.track_handle(inode_index);
        SimpleVNode { inode_index, name }
    }

    /// Opens the node a path leads to, symlinks followed.
    pub fn lookup(&mut self, path: &str) -> (r: Result<SimpleVNode>)
        requires
            old(self).inner.wf(),
        ensures
            final(self).inner.wf(),
            match follow(
                old(self).inner.state.tree(),
                old(self).inner.device,
                path@,
                0,
                old(self).inner.geometry.case_sensitive,
            ) {
                Err(e) => r == Err::<SimpleVNode, Error>(e) && *final(self) == *old(self),
                Ok(i) => r is Ok && r->Ok_0.inode_index == i && handle_taken(
                    old(self).inner,
                    final(self).inner,
                    r->Ok_0,
                ),
            },
    {
        let index = self.inner.geometry.resolve_path_locked(
            &self.inner.state,
            &self.inner.device,
            path,
        )?;
        Ok(self.open_handle(index))
    }

    /// Creates an empty file and opens it.
    pub fn create_file(&mut self, path: &str) -> (r: Result<SimpleVNode>)
        requires
            old(self).inner.wf(),
        ensures
            final(self).inner.wf(),
            exists|m: SimpleFs<D>|
                #![trigger file_creation(old(self).inner, m, path@, None, handle_index(r))]
                file_creation(old(self).inner, m, path@, None, handle_index(r)) && match r {
                    Ok(n) => handle_taken(m, final(self).inner, n),
                    Err(_) => final(self).inner == m,
                },
    {
        let created = self.inner.create_file(path);
        let ghost m = self.inner;
        let r = match created {
            Ok(index) => Ok(self.open_handle(index)),
            Err(error) => Err(error),
        };
        assert(handle_index(r) == created);
        assert(file_creation(old(self).inner, m, path@, None, handle_index(r)));
        r
    }

    /// Creates a symlink and opens it.
    pub fn create_symlink(&mut self, target: &str, link_path: &str) -> (r: Result<SimpleVNode>)
        requires
            old(self).inner.wf(),
            symlink_storable(old(self).inner, target@, link_path@),
        ensures
            final(self).inner.wf(),
            exists|m: SimpleFs<D>|
                #![trigger symlink_creation(old(self).inner, m, target@, link_path@, handle_index(r))]
                symlink_creation(old(self).inner, m, target@, link_path@, handle_index(r))
                    && match r {
                    Ok(n) => handle_taken(m, final(self).inner, n),
                    Err(_) => final(self).inner == m,
                },
    {
        let created = self.inner.create_symlink(target, link_path);
        let ghost m = self.inner;
        let r = match created {
            Ok(index) => Ok(self.open_handle(index)),
            Err(error) => Err(error),
        };
        assert(handle_index(r) == created);
        assert(symlink_creation(old(self).inner, m, target@, link_path@, handle_index(r)));
        r
    }

    /// How far descriptors of this volume can be changed.
    pub fn security_descriptor_mutation_support(&self) -> (r: SecurityDescriptorMutationSupport)
        ensures
            r == (if !self.inner.geometry.format_version.stores_security() {
                SecurityDescriptorMutationSupport::LayoutDerivedOnly
            } else if self.inner.device.write_protected() {
                SecurityDescriptorMutationSupport::PersistentReadOnly
            } else {
                SecurityDescriptorMutationSupport::Persistent
            }),
    {
        self.inner.security_descriptor_mutation_support()
    }

    /// Replaces the stored descriptor of a node.
    pub fn update_security_descriptor(&mut self, path: &str, security: SecurityDescriptor) -> (r:
        Result<()>)
        requires
            old(self).inner.wf(),
        ensures
            final(self).inner.wf(),
            security_update(old(self).inner, final(self).inner, path@, security, r),
    {
        self.inner.update_security_descriptor(path, security)
    }

    /// The metadata of the node a path leads to, symlinks followed.
    pub fn stat(&self, path: &str) -> (r: Result<Metadata>)
        ensures
            r == followed_metadata(self.inner, path@),
    {
        self.inner.stat_follow(path)
    }

    /// The entry that a directory listing shows at `index`.
    pub fn read_dir(&self, path: &str, index: usize) -> (r: Result<DirectoryEntry>)
        requires
            self.inner.wf(),
        ensures
            match r {
                Ok(e) => listed_entry(self.inner, path@, index as int) is Ok && shows_entry(
                    e,
                    self.inner.state.tree(),
                    listed_entry(self.inner, path@, index as int)->Ok_0,
                ),
                Err(e) => listed_entry(self.inner, path@, index as int) == Err::<int, Error>(e),
            },
    {
        self.inner.read_dir(path, index)
    }

    /// Renames or moves a node.
    pub fn rename(&mut self, old_path: &str, new_path: &str) -> (r: Result<()>)
        requires
            old(self).inner.wf(),
        ensures
            final(self).inner.wf(),
            rename_outcome(old(self).inner, final(self).inner, old_path@, new_path@, r),
    {
        self.inner.rename(old_path, new_path)
    }

    /// Creates an empty directory.
    pub fn create_dir(&mut self, path: &str) -> (r: Result<()>)
        requires
            old(self).inner.wf(),
        ensures
            final(self).inner.wf(),
            dir_creation(old(self).inner, final(self).inner, path@, None, r),
    {
        self.inner.create_dir(path)
    }

    /// Removes a file, a symlink or an empty directory.
    pub fn remove_path(&mut self, path: &str) -> (r: Result<()>)
        requires
            old(self).inner.wf(),
        ensures
            final(self).inner.wf(),
            removal_outcome(old(self).inner, final(self).inner, path@, r),
    {
        self.inner.remove_path(path)
    }

    /// Checks the volume and puts right what can be put right.
    pub fn check_and_repair(&mut self) -> (r: Result<VolumeCheckReport>)
        requires
            old(self).inner.wf(),
            old(self).inner.countable(),
        ensures
            final(self).inner.wf(),
            check_outcome(old(self).inner, final(self).inner, r),
    {
        self.inner.check_and_repair()
    }

    /// Counts the data blocks that nothing refers to.
    pub fn count_orphan_data_blocks(&self) -> (r: usize)
        requires
            self.inner.countable(),
        ensures
            r == orphan_count(self.inner, self.inner.state.tree().inodes),
    {
        self.inner.count_orphan_data_blocks()
    }

    /// Holds every stored checksum against the contents.
    pub fn check_data_integrity(&self) -> (r: (usize, usize))
        requires
            self.inner.wf(),
        ensures
            r.0 == checksums_kept(self.inner.state.tree().inodes),
            r.1 == checksum_failures(self.inner.device, self.inner.state.tree().inodes),
    {
        self.inner.check_data_integrity()
    }

    /// Condition the device reports.
    pub fn device_health(&self) -> (r: DeviceHealth)
        ensures
            r == self.inner.device.health(),
    {
        self.inner.device_health()
    }

    /// The attributes of the node a path leads to, symlinks followed.
    pub fn list_xattrs(&self, path: &str) -> (r: Result<Vec<XattrEntry>>)
        ensures
            match follow(
                self.inner.state.tree(),
                self.inner.device,
                path@,
                0,
                self.inner.geometry.case_sensitive,
            ) {
                Err(e) => r == Err::<Vec<XattrEntry>, Error>(e),
                Ok(i) => r is Ok && Seq::new(
                    r->Ok_0@.len(),
                    |k: int| (r->Ok_0@[k].name@, r->Ok_0@[k].value@),
                ) == xattrs_listed(self.inner.state.tree().xattrs, i),
            },
    {
        let index = self.inner.geometry.resolve_path_locked(
            &self.inner.state,
            &self.inner.device,
            path,
        )?;
        Ok(self.inner.state.list_xattrs_for_inode(index))
    }

    /// The value of an attribute of the node a path leads to, symlinks followed.
    pub fn get_xattr(&self, path: &str, name: &[u8]) -> (r: Result<Option<Vec<u8>>>)
        ensures
            match follow(
                self.inner.state.tree(),
                self.inner.device,
                path@,
                0,
                self.inner.geometry.case_sensitive,
            ) {
                Err(e) => r == Err::<Option<Vec<u8>>, Error>(e),
                Ok(i) => match xattr_lookup(self.inner.state.tree().xattrs, i, name@) {
                    Some(v) => r is Ok && r->Ok_0 is Some && r->Ok_0->0@ == v,
                    None => r is Ok && r->Ok_0 is None,
                },
            },
    {
        let index = self.inner.geometry.resolve_path_locked(
            &self.inner.state,
            &self.inner.device,
            path,
        )?;
        Ok(self.inner.state.get_xattr_for_inode(index, name))
    }
}

impl SimpleVNode {
    /// The name of the node.
    pub fn name(&self) -> (r: &str)
        ensures
            r@ == self.name@,
    {
        self.name.as_str()
    }

    /// What kind of node it is.
    pub fn kind<D: BlockDevice>(&self, volume: &SimpleFsVolume<D>) -> (r: NodeKind)
        ensures
            r == (if self.inode_index < volume.inner.state.tree().inodes.len() {
                volume.inner.state.tree().inodes[self.inode_index as int].kind
            } else {
                NodeKind::File
            }),
    {
        volume.inner.state.kind_of(self.inode_index)
    }

    /// The size in bytes.
    pub fn size<D: BlockDevice>(&self, volume: &SimpleFsVolume<D>) -> (r: usize)
        ensures
            r == (if self.inode_index < volume.inner.state.tree().inodes.len() {
                volume.inner.state.tree().inodes[self.inode_index as int].size as usize
            } else {
                0
            }),
    {
        volume.inner.state.size_of(self.inode_index)
    }

    /// The attributes of the node.
    pub fn metadata<D: BlockDevice>(&self, volume: &SimpleFsVolume<D>) -> (r: Result<Metadata>)
        ensures
            ({
                let t = volume.inner.state.tree();
                r == (if self.inode_index >= t.inodes.len() {
                    Err::<Metadata, Error>(Error::InternalError)
                } else if t.inodes[self.inode_index as int].deleted {
                    Err(Error::NotFound)
                } else {
                    Ok(inode_metadata(t.inodes[self.inode_index as int]))
                })
            }),
    {
        volume.inner.state.metadata_of(self.inode_index)
    }

    /// Reads from the file.
    pub fn read<D: BlockDevice>(
        &self,
        volume: &SimpleFsVolume<D>,
        offset: u64,
        buffer: &mut [u8],
    ) -> (r: Result<usize>)
        ensures
            read_outcome(
                volume.inner,
                self.inode_index as int,
                offset as int,
                old(buffer)@,
                final(buffer)@,
                r,
            ),
    {
        volume.inner.read_file(self.inode_index, offset, buffer)
    }

    /// Writes to the file.
    pub fn write<D: BlockDevice>(
        &self,
        volume: &mut SimpleFsVolume<D>,
        offset: u64,
        buffer: &[u8],
    ) -> (r: Result<usize>)
        requires
            old(volume).inner.wf(),
        ensures
            final(volume).inner.wf(),
            write_outcome(
                old(volume).inner,
                final(volume).inner,
                self.inode_index as int,
                offset as int,
                buffer@,
                r,
            ),
            r is Err && self.inode_index < old(volume).inner.state.tree().inodes.len()
                && xattrs_before_data(old(volume).inner) && (old(volume).inner.device.reliable()
                || offset < old(volume).inner.state.tree().inodes[self.inode_index as int].size)
                ==> contents_of(final(volume).inner, self.inode_index as int) == contents_of(
                old(volume).inner,
                self.inode_index as int,
            ),
    {
        volume.inner.write_file(self.inode_index, offset, buffer)
    }

    /// Sets the length of the file.
    pub fn set_len<D: BlockDevice>(&self, volume: &mut SimpleFsVolume<D>, length: u64) -> (r: Result<
        (),
    >)
        requires
            old(volume).inner.wf(),
        ensures
            final(volume).inner.wf(),
            set_len_outcome(
                old(volume).inner,
                final(volume).inner,
                self.inode_index as int,
                length as int,
                r,
            ),
            r is Err && self.inode_index < old(volume).inner.state.tree().inodes.len()
                && xattrs_before_data(old(volume).inner) && old(volume).inner.device.reliable()
                ==> contents_of(final(volume).inner, self.inode_index as int) == contents_of(
                old(volume).inner,
                self.inode_index as int,
            ),
    {
        volume.inner.set_len_file(self.inode_index, length)
    }

    /// The attributes attached to the node.
    pub fn list_xattrs<D: BlockDevice>(&self, volume: &SimpleFsVolume<D>) -> (r: Result<
        Vec<XattrEntry>,
    >)
        ensures
            r is Ok && entry_pairs(r->Ok_0@) == xattrs_listed(
                volume.inner.state.tree().xattrs,
                self.inode_index as int,
            ),
    {
        let list = volume.inner.state.list_xattrs_for_inode(self.inode_index);
        assert(entry_pairs(list@) =~= xattrs_listed(
            volume.inner.state.tree().xattrs,
            self.inode_index as int,
        ));
        Ok(list)
    }

    /// The value of an attribute attached to the node.
    pub fn get_xattr<D: BlockDevice>(&self, volume: &SimpleFsVolume<D>, name: &[u8]) -> (r: Result<
        Option<Vec<u8>>,
    >)
        ensures
            match xattr_lookup(
                volume.inner.state.tree().xattrs,
                self.inode_index as int,
                name@,
            ) {
                Some(v) => r is Ok && r->Ok_0 is Some && r->Ok_0->0@ == v,
                None => r is Ok && r->Ok_0 is None,
            },
    {
        Ok(volume.inner.state.get_xattr_for_inode(self.inode_index, name))
    }
}

} // verus!
