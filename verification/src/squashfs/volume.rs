//! A mounted volume and its nodes.
use vstd::prelude::*;
use vstd::string::*;

use crate::block::BlockDevice;
use crate::bytes::{copy_all, get_u32, get_u64, u32_at, u64_at};
use crate::error::{Error, Result};
use crate::path::{path_segments, segments};
use crate::simplefs::lookup::walk;
use crate::squashfs::metadata::{chain_from, entries_of_dir, inode_table_of, is_unpacker, load_inode_table, read_chain, read_dir_entries, read_file, read_metadata_block, read_superblock, squashfs_read, squashfs_superblock_of};
use crate::squashfs::types::{DirEntryView, Inode, InodeView, ParsedDirEntry, SQUASHFS_MAGIC, Superblock, dir_entry_views, inode_at, parse_inode};
use crate::squashfs::xattrs::{pair_views, parse_extended_inode_xattr_idx, parse_squashfs_xattrs, squashfs_xattrs_from, xattr_index_at};
use crate::text::{str_eq, texts};
use crate::vfs::{DirectoryEntry, Metadata, NodeKind, SecurityDescriptor, VolumeCheckReport, XattrEntry, entry_pairs};

verus! {

/// A mounted volume. `zstd` unpacks Zstandard.
pub struct SquashfsVolume<D: BlockDevice, Z: Fn(&[u8], usize) -> Result<Vec<u8>>> {
    pub device: D,
    pub sb: Superblock,
    pub inodes: Vec<u8>,
    pub zstd: Z,
}

/// The position of the entry with a name, from `i` on.
pub open spec fn dir_entry_named(entries: Seq<DirEntryView>, name: Seq<char>, i: int) -> Option<int>
    decreases entries.len() - i,
{
    if i < 0 || i >= entries.len() {
        None
    } else if entries[i].name == name {
        Some(i)
    } else {
        dir_entry_named(entries, name, i + 1)
    }
}

fn find_dir_entry(entries: &Vec<ParsedDirEntry>, name: &str) -> (r: Option<usize>)
    ensures
        match r {
            Some(k) => k < entries@.len() && dir_entry_named(dir_entry_views(entries@), name@, 0)
                == Some(k as int),
            None => dir_entry_named(dir_entry_views(entries@), name@, 0) is None,
        },
{
    let mut i: usize = 0;
    while i < entries.len()
        invariant
            i <= entries@.len(),
            dir_entry_named(dir_entry_views(entries@), name@, 0) == dir_entry_named(
                dir_entry_views(entries@),
                name@,
                i as int,
            ),
        decreases entries@.len() - i,
    {
        assert(dir_entry_views(entries@)[i as int] == entries@[i as int]@);
        if str_eq(entries[i].name.as_str(), name) {
            return Some(i);
        }
        i = i + 1;
    }
    None
}

/// The kind and size that a listing shows of an inode. What cannot be read is shown as a
/// symbolic link.
pub open spec fn shown(inode: Option<(InodeView, int)>) -> (NodeKind, usize) {
    match inode {
        Some((InodeView::Directory(_), _)) => (NodeKind::Directory, 0),
        Some((InodeView::File(f), _)) => (NodeKind::File, f.file_size as usize),
        Some((InodeView::Symlink(..), _)) => (NodeKind::Symlink, 0),
        None => (NodeKind::Symlink, 0),
    }
}

fn show(inode: &Inode) -> (r: (NodeKind, usize))
    ensures
        forall|n: int| r == #[trigger] shown(Some((inode@, n))),
{
    match inode {
        Inode::Directory(_) => (NodeKind::Directory, 0),
        Inode::File(f) => (NodeKind::File, f.file_size as usize),
        Inode::Symlink(_) => (NodeKind::Symlink, 0),
    }
}

/// The descriptor of every node: readable and searchable by all.
pub open spec fn read_only_security() -> SecurityDescriptor {
    SecurityDescriptor { owner_uid: 0, owner_gid: 0, mode: 0o555 }
}

/// The last component of a path, or the root.
pub open spec fn last_name(path: Seq<char>) -> Seq<char> {
    let parts = segments(path);
    if parts.len() == 0 {
        seq!['/']
    } else {
        parts.last()
    }
}

/// The last component of a path, or the root.
pub fn extract_name(path: &str) -> (r: String)
    ensures
        r@ == last_name(path@),
{
    let parts = path_segments(path);
    if parts.len() == 0 {
        proof {
            reveal_strlit("/");
        }
        assert("/"@ =~= seq!['/']);
        return "/".to_owned();
    }
    assert(texts(parts@).last() == parts@[parts@.len() - 1]@);
    parts[parts.len() - 1].as_str().to_owned()
}

impl<D: BlockDevice, Z: Fn(&[u8], usize) -> Result<Vec<u8>>> SquashfsVolume<D, Z> {
    /// What holds of a mounted volume: its unpacker is one.
    pub open spec fn wf(&self) -> bool {
        is_unpacker(self.zstd)
    }

    /// Where components from `i` on lead from the inode at `at`.
    pub open spec fn walk(&self, at: u32, parts: Seq<Seq<char>>, i: int) -> core::result::Result<
        u32,
        Error,
    >
        decreases parts.len() - i,
    {
        if i < 0 || i >= parts.len() {
            Ok(at)
        } else {
            match inode_at(self.inodes@, at as int) {
                None => Err(Error::InvalidArgument),
                Some((InodeView::Directory(d), _)) => match entries_of_dir(
                    self.device,
                    self.zstd,
                    self.sb,
                    d,
                ) {
                    Err(e) => Err(e),
                    Ok(entries) => match dir_entry_named(entries, parts[i], 0) {
                        None => Err(Error::NotFound),
                        Some(k) => self.walk(entries[k].inode_offset, parts, i + 1),
                    },
                },
                Some(_) => Err(Error::NotFound),
            }
        }
    }

    /// The inode that a path leads to.
    pub open spec fn resolved(&self, path: Seq<char>) -> core::result::Result<u32, Error> {
        self.walk(self.sb.root_inode_offset, segments(path), 0)
    }

    /// The inode that a path leads to, where it can be read.
    pub open spec fn found(&self, path: Seq<char>) -> core::result::Result<
        (u32, InodeView),
        Error,
    > {
        match self.resolved(path) {
            Err(e) => Err(e),
            Ok(at) => match inode_at(self.inodes@, at as int) {
                None => Err(Error::InvalidArgument),
                Some((inode, _)) => Ok((at, inode)),
            },
        }
    }

    /// Opens the volume on a device.
    pub fn open(device: D, zstd: Z) -> (r: Result<Self>)
        requires
            is_unpacker(zstd),
        ensures
            match squashfs_superblock_of(device) {
                Err(e) => r matches Err(e2) && e2 == e,
                Ok(sb) => match inode_table_of(device, zstd, sb) {
                    Err(e) => r matches Err(e2) && e2 == e,
                    Ok(table) => if sb.root_inode_offset >= table.len() {
                        r matches Err(e2) && e2 == Error::InvalidArgument
                    } else {
                        r matches Ok(v) && v.wf() && v.device == device && v.sb == sb && v.inodes@
                            == table && v.zstd == zstd
                    },
                },
            },
    {
        let sb = read_superblock(&device)?;
        let inodes = load_inode_table(&device, &sb, &zstd)?;
        if sb.root_inode_offset as u64 >= inodes.len() as u64 {
            return Err(Error::InvalidArgument);
        }
        Ok(SquashfsVolume { device, sb, inodes, zstd })
    }

    /// The name of the filesystem.
    pub fn name(&self) -> (r: &str)
        ensures
            r@ == "squashfs"@,
    {
        "squashfs"
    }

    /// Resolves a path to the offset of its inode.
    pub fn resolve(&self, path: &str) -> (r: Result<u32>)
        requires
            self.wf(),
        ensures
            r == self.resolved(path@),
    {
        let parts = path_segments(path);
        let ghost steps = segments(path@);
        let mut at: u32 = self.sb.root_inode_offset;
        let mut i: usize = 0;
        while i < parts.len()
            invariant
                self.wf(),
                i <= parts@.len(),
                steps == texts(parts@),
                steps == segments(path@),
                self.resolved(path@) == self.walk(at, steps, i as int),
            decreases parts@.len() - i,
        {
            let inode = match parse_inode(self.inodes.as_slice(), at) {
                None => {
                    return Err(Error::InvalidArgument);
                },
                Some((inode, _)) => inode,
            };
            match inode {
                Inode::Directory(d) => {
                    let entries = read_dir_entries(&self.device, &self.sb, &self.zstd, &d)?;
                    let k: usize = match find_dir_entry(&entries, parts[i].as_str()) {
                        None => {
                            return Err(Error::NotFound);
                        },
                        Some(k) => k,
                    };
                    assert(dir_entry_views(entries@)[k as int] == entries@[k as int]@);
                    at = entries[k].inode_offset;
                },
                _ => {
                    return Err(Error::NotFound);
                },
            }
            i = i + 1;
        }
        Ok(at)
    }

    /// Looks a path up. Symbolic links are not followed.
    pub fn lookup<'a>(&'a self, path: &str) -> (r: Result<SquashfsVNode<'a, D, Z>>)
        requires
            self.wf(),
        ensures
            match self.found(path@) {
                Err(e) => r matches Err(e2) && e2 == e,
                Ok((at, inode)) => r matches Ok(n) && n.name@ == last_name(path@) && (
                n.kind, n.size) == shown(Some((inode, 0))) && n.inode_offset == at && *n.volume
                    == *self,
            },
    {
        let at: u32 = self.resolve(path)?;
        let inode = match parse_inode(self.inodes.as_slice(), at) {
            None => {
                return Err(Error::InvalidArgument);
            },
            Some((inode, _)) => inode,
        };
        let (kind, size) = show(&inode);
        assert((kind, size) == shown(Some((inode@, 0))));
        Ok(SquashfsVNode { name: extract_name(path), kind, size, inode_offset: at, volume: self })
    }

    /// The attributes of what a path leads to.
    pub fn stat(&self, path: &str) -> (r: Result<Metadata>)
        requires
            self.wf(),
        ensures
            match self.found(path@) {
                Err(e) => r matches Err(e2) && e2 == e,
                Ok((_, inode)) => r == Ok::<Metadata, Error>(
                    Metadata {
                        kind: shown(Some((inode, 0))).0,
                        size: shown(Some((inode, 0))).1,
                        security: read_only_security(),
                        created: 0,
                        modified: 0,
                        accessed: 0,
                    },
                ),
            },
    {
        let node = self.lookup(path)?;
        node.metadata()
    }

    /// The entry with a number in the directory that a path leads to.
    pub fn read_dir(&self, path: &str, index: usize) -> (r: Result<DirectoryEntry>)
        requires
            self.wf(),
        ensures
            match self.found(path@) {
                Err(e) => r matches Err(e2) && e2 == e,
                Ok((_, InodeView::Directory(d))) => match entries_of_dir(
                    self.device,
                    self.zstd,
                    self.sb,
                    d,
                ) {
                    Err(e) => r matches Err(e2) && e2 == e,
                    Ok(entries) => if index < entries.len() {
                        let x = entries[index as int];
                        r matches Ok(v) && (v.kind, v.size) == shown(
                            inode_at(self.inodes@, x.inode_offset as int),
                        ) && v.name@ == x.name && v.security == read_only_security()
                    } else {
                        r matches Err(e2) && e2 == Error::NotFound
                    },
                },
                Ok(_) => r matches Err(e2) && e2 == Error::InvalidArgument,
            },
    {
        let at: u32 = self.resolve(path)?;
        let inode = match parse_inode(self.inodes.as_slice(), at) {
            None => {
                return Err(Error::InvalidArgument);
            },
            Some((inode, _)) => inode,
        };
        let dir = match inode {
            Inode::Directory(d) => d,
            _ => {
                return Err(Error::InvalidArgument);
            },
        };
        let entries = read_dir_entries(&self.device, &self.sb, &self.zstd, &dir)?;
        if index >= entries.len() {
            return Err(Error::NotFound);
        }
        let entry = &entries[index];
        assert(dir_entry_views(entries@)[index as int] == entry@);
        let (kind, size) = match parse_inode(self.inodes.as_slice(), entry.inode_offset) {
            None => (NodeKind::Symlink, 0usize),
            Some((child, n)) => {
                let s = show(&child);
                assert(s == shown(Some((child@, n as int))));
                s
            },
        };
        Ok(
            DirectoryEntry {
                kind,
                size,
                name: entry.name.as_str().to_owned(),
                security: SecurityDescriptor { owner_uid: 0, owner_gid: 0, mode: 0o555 },
            },
        )
    }

    /// Refused: the volume is read-only.
    pub fn rename(&self, _old_path: &str, _new_path: &str) -> (r: Result<()>)
        ensures
            r == Err::<(), Error>(Error::PermissionDenied),
    {
        Err(Error::PermissionDenied)
    }

    /// Refused: the volume is read-only.
    pub fn create_file(&self, _path: &str) -> (r: Result<()>)
        ensures
            r == Err::<(), Error>(Error::PermissionDenied),
    {
        Err(Error::PermissionDenied)
    }

    /// Refused: the volume is read-only.
    pub fn create_dir(&self, _path: &str) -> (r: Result<()>)
        ensures
            r == Err::<(), Error>(Error::PermissionDenied),
    {
        Err(Error::PermissionDenied)
    }

    /// Refused: the volume is read-only.
    pub fn create_symlink(&self, _target: &str, _path: &str) -> (r: Result<()>)
        ensures
            r == Err::<(), Error>(Error::PermissionDenied),
    {
        Err(Error::PermissionDenied)
    }

    /// Refused: the volume is read-only.
    pub fn remove_path(&self, _path: &str) -> (r: Result<()>)
        ensures
            r == Err::<(), Error>(Error::PermissionDenied),
    {
        Err(Error::PermissionDenied)
    }

    /// Refused: the volume is read-only.
    pub fn update_security_descriptor(&self, _path: &str, _security: SecurityDescriptor) -> (r: Result<
        (),
    >)
        ensures
            r == Err::<(), Error>(Error::PermissionDenied),
    {
        Err(Error::PermissionDenied)
    }

    /// Counts what is wrong: the magic number, a block size of zero, a root that cannot be
    /// read.
    pub fn check_and_repair(&self) -> (r: Result<VolumeCheckReport>)
        requires
            self.wf(),
        ensures
            r matches Ok(v) && v == (VolumeCheckReport {
                issues_detected: ((if self.sb.magic != SQUASHFS_MAGIC {
                    1int
                } else {
                    0
                }) + (if self.sb.block_size == 0 {
                    1int
                } else {
                    0
                }) + (if self.found(seq!['/']) is Err {
                    1int
                } else {
                    0
                })) as usize,
                repairs_applied: 0,
                orphan_data_blocks: 0,
                checksum_failures: 0,
                staging_orphans_cleaned: 0,
                orphan_blocks_cleaned: 0,
                interrupted_commits: 0,
            }),
    {
        proof {
            reveal_strlit("/");
        }
        assert("/"@ =~= seq!['/']);
        let mut issues: usize = 0;
        if self.sb.magic != SQUASHFS_MAGIC {
            issues = issues + 1;
        }
        if self.sb.block_size == 0 {
            issues = issues + 1;
        }
        if self.lookup("/").is_err() {
            issues = issues + 1;
        }
        Ok(
            VolumeCheckReport {
                issues_detected: issues,
                repairs_applied: 0,
                orphan_data_blocks: 0,
                checksum_failures: 0,
                staging_orphans_cleaned: 0,
                orphan_blocks_cleaned: 0,
                interrupted_commits: 0,
            },
        )
    }

    /// The extended attributes of what a path leads to.
    pub fn list_xattrs(&self, path: &str) -> (r: Result<Vec<XattrEntry>>)
        requires
            self.wf(),
        ensures
            match self.found(path@) {
                Err(e) => r matches Err(e2) && e2 == e,
                Ok((at, _)) => r matches Ok(v) && entry_pairs(v@) == self.xattrs_of(at),
            },
    {
        let node = self.lookup(path)?;
        node.list_xattrs()
    }

    /// The entry of the attribute id table for an index: where the attributes are, how
    /// many, and their length unpacked.
    pub open spec fn xattr_id(&self, index: u32) -> Option<(u64, u32, u32)> {
        let at = index * 16;
        match chain_from(
            self.device,
            self.zstd,
            self.sb.compression,
            self.sb.xattr_id_table_start as int,
            seq![],
            Some((self.sb.inode_count + 1) * 16),
        ) {
            Err(_) => None,
            Ok(table) => if at + 16 > table.len() {
                None
            } else {
                Some((u64_at(table, at), u32_at(table, at + 8), u32_at(table, at + 12)))
            },
        }
    }

    /// The extended attributes of the inode at `at`. Only extended inodes have any; what
    /// cannot be read counts as none.
    pub open spec fn xattrs_of(&self, at: u32) -> Seq<(Seq<u8>, Seq<u8>)> {
        let table = self.inodes@;
        if at >= table.len() || table[at as int] < 8 || self.sb.xattr_id_table_start == 0 {
            seq![]
        } else {
            match xattr_index_at(table, at as int, table[at as int]) {
                None => seq![],
                Some((index, _)) => if index == 0xFFFF_FFFF {
                    seq![]
                } else {
                    match self.xattr_id(index) {
                        None => seq![],
                        Some((pos, count, size)) => if pos == 0xFFFF_FFFF_FFFF_FFFF || count == 0 {
                            seq![]
                        } else {
                            match chain_from(
                                self.device,
                                self.zstd,
                                self.sb.compression,
                                pos as int,
                                seq![],
                                Some(size as int),
                            ) {
                                Err(_) => seq![],
                                Ok(data) => squashfs_xattrs_from(data, 0, count as int),
                            }
                        },
                    }
                },
            }
        }
    }

    fn find_xattr_id(&self, index: u32) -> (r: Option<(u64, u32, u32)>)
        requires
            self.wf(),
        ensures
            r == self.xattr_id(index),
    {
        let size: u64 = (self.sb.inode_count as u64 + 1) * 16;
        let table = match read_chain(
            &self.device,
            &self.zstd,
            self.sb.compression,
            self.sb.xattr_id_table_start,
            Some(size),
        ) {
            Err(_) => {
                return None;
            },
            Ok(t) => t,
        };
        let at: u64 = index as u64 * 16;
        if at + 16 > table.len() as u64 {
            return None;
        }
        let k: usize = at as usize;
        Some(
            (
                get_u64(table.as_slice(), k),
                get_u32(table.as_slice(), k + 8),
                get_u32(table.as_slice(), k + 12),
            ),
        )
    }
}

/// A node of a mounted volume.
pub struct SquashfsVNode<'a, D: BlockDevice, Z: Fn(&[u8], usize) -> Result<Vec<u8>>> {
    pub name: String,
    pub kind: NodeKind,
    pub size: usize,
    pub inode_offset: u32,
    pub volume: &'a SquashfsVolume<D, Z>,
}

impl<'a, D: BlockDevice, Z: Fn(&[u8], usize) -> Result<Vec<u8>>> SquashfsVNode<'a, D, Z> {
    /// The name of the node.
    pub fn name(&self) -> (r: &str)
        ensures
            r@ == self.name@,
    {
        self.name.as_str()
    }

    /// What kind of node it is.
    pub fn kind(&self) -> (r: NodeKind)
        ensures
            r == self.kind,
    {
        self.kind
    }

    /// The size in bytes.
    pub fn size(&self) -> (r: usize)
        ensures
            r == self.size,
    {
        self.size
    }

    /// The attributes of the node.
    pub fn metadata(&self) -> (r: Result<Metadata>)
        ensures
            r == Ok::<Metadata, Error>(
                Metadata {
                    kind: self.kind,
                    size: self.size,
                    security: read_only_security(),
                    created: 0,
                    modified: 0,
                    accessed: 0,
                },
            ),
    {
        Ok(
            Metadata {
                kind: self.kind,
                size: self.size,
                security: SecurityDescriptor { owner_uid: 0, owner_gid: 0, mode: 0o555 },
                created: 0,
                modified: 0,
                accessed: 0,
            },
        )
    }

    /// Reads file data. Only files can be read.
    pub fn read(&self, offset: u64, buffer: &mut [u8]) -> (r: Result<usize>)
        requires
            self.volume.wf(),
        ensures
            match inode_at(self.volume.inodes@, self.inode_offset as int) {
                Some((InodeView::File(f), _)) => if self.kind == NodeKind::File {
                    squashfs_read(
                        self.volume.device,
                        self.volume.zstd,
                        self.volume.sb,
                        f,
                        offset as int,
                        old(buffer)@,
                        final(buffer)@,
                        r,
                    )
                } else {
                    r == Err::<usize, Error>(Error::InvalidArgument) && final(buffer)@ == old(
                        buffer,
                    )@
                },
                _ => r == Err::<usize, Error>(Error::InvalidArgument) && final(buffer)@ == old(
                    buffer,
                )@,
            },
    {
        if self.kind != NodeKind::File {
            return Err(Error::InvalidArgument);
        }
        match parse_inode(self.volume.inodes.as_slice(), self.inode_offset) {
            Some((Inode::File(f), _)) => {
                proof {
                    let size = if self.volume.sb.block_size == 0 {
                        1
                    } else {
                        self.volume.sb.block_size as int
                    };
                    let start = f.start_block as int;
                    assert(start * size <= 0xffff_ffff * 0xffff_ffff) by (nonlinear_arith)
                        requires
                            0 <= start <= 0xffff_ffff,
                            0 <= size <= 0xffff_ffff,
                    ;
                }
                read_file(
                    &self.volume.device,
                    &self.volume.sb,
                    &self.volume.zstd,
                    &f,
                    offset,
                    buffer,
                )
            },
            _ => Err(Error::InvalidArgument),
        }
    }

    /// Refused: the volume is read-only.
    pub fn write(&self, _offset: u64, _data: &[u8]) -> (r: Result<usize>)
        ensures
            r == Err::<usize, Error>(Error::PermissionDenied),
    {
        Err(Error::PermissionDenied)
    }

    /// Refused: the volume is read-only.
    pub fn set_len(&self, _len: u64) -> (r: Result<()>)
        ensures
            r == Err::<(), Error>(Error::PermissionDenied),
    {
        Err(Error::PermissionDenied)
    }

    /// The target of a symbolic link.
    pub fn readlink(&self) -> (r: Result<Vec<u8>>)
        ensures
            match inode_at(self.volume.inodes@, self.inode_offset as int) {
                Some((InodeView::Symlink(_, target), _)) => r matches Ok(v) && v@ == target,
                _ => r matches Err(e) && e == Error::InvalidArgument,
            },
    {
        match parse_inode(self.volume.inodes.as_slice(), self.inode_offset) {
            Some((Inode::Symlink(s), _)) => Ok(s.target),
            _ => Err(Error::InvalidArgument),
        }
    }

    /// The extended attributes of the node.
    pub fn list_xattrs(&self) -> (r: Result<Vec<XattrEntry>>)
        requires
            self.volume.wf(),
        ensures
            r matches Ok(v) && entry_pairs(v@) == self.volume.xattrs_of(self.inode_offset),
    {
        let mut out: Vec<XattrEntry> = Vec::new();
        assert(entry_pairs(out@) =~= seq![]);
        let v = self.volume;
        let at: u32 = self.inode_offset;
        if at as u64 >= v.inodes.len() as u64 || v.inodes[at as usize] < 8
            || v.sb.xattr_id_table_start == 0 {
            return Ok(out);
        }
        let index: u32 = match parse_extended_inode_xattr_idx(
            v.inodes.as_slice(),
            at,
            v.inodes[at as usize],
        ) {
            None => {
                return Ok(out);
            },
            Some((index, _)) => index,
        };
        if index == 0xFFFF_FFFF {
            return Ok(out);
        }
        let (pos, count, size) = match v.find_xattr_id(index) {
            None => {
                return Ok(out);
            },
            Some(id) => id,
        };
        if pos == 0xFFFF_FFFF_FFFF_FFFF || count == 0 {
            return Ok(out);
        }
        let data = match read_metadata_block(&v.device, &v.sb, &v.zstd, pos, size as usize) {
            Err(_) => {
                return Ok(out);
            },
            Ok(d) => d,
        };
        let pairs = parse_squashfs_xattrs(data.as_slice(), count);
        let mut i: usize = 0;
        while i < pairs.len()
            invariant
                i <= pairs@.len(),
                entry_pairs(out@) == pair_views(pairs@).take(i as int),
            decreases pairs@.len() - i,
        {
            let ghost before = entry_pairs(out@);
            let entry = XattrEntry {
                name: copy_all(pairs[i].0.as_slice()),
                value: copy_all(pairs[i].1.as_slice()),
            };
            out.push(entry);
            assert(entry_pairs(out@) =~= before.push(pair_views(pairs@)[i as int]));
            assert(pair_views(pairs@).take(i + 1) =~= before.push(pair_views(pairs@)[i as int]));
            i = i + 1;
        }
        assert(pair_views(pairs@).take(i as int) =~= pair_views(pairs@));
        Ok(out)
    }
}

} // verus!
