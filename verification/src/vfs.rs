//! Plain values that every filesystem hands to its callers.
use vstd::prelude::*;

verus! {

/// Numeric user identity.
pub type OwnerId = u32;

/// Numeric group identity.
pub type GroupId = u32;

/// Permission bits.
pub type PermissionMode = u16;

pub const ROOT_OWNER_ID: u32 = 0;

pub const ROOT_GROUP_ID: u32 = 0;

pub const MAX_PERMISSION_MODE: u16 = 0o7777;

pub const DEFAULT_FILE_MODE: u16 = 0o644;

pub const DEFAULT_DIRECTORY_MODE: u16 = 0o755;

pub const DEFAULT_DEVICE_MODE: u16 = 0o666;

/// What a node is.
#[derive(Debug, Clone, Copy, PartialEq, Eq, Structural)]
pub enum NodeKind {
    File,
    Directory,
    Device,
    Symlink,
}

/// Ownership and permissions of a node.
#[derive(Debug, Clone, Copy, PartialEq, Eq, Structural)]
pub struct SecurityDescriptor {
    pub owner_uid: OwnerId,
    pub owner_gid: GroupId,
    pub mode: PermissionMode,
}

/// Permission bits a root-owned node of each kind starts with.
pub open spec fn default_mode(kind: NodeKind) -> PermissionMode {
    match kind {
        NodeKind::File => DEFAULT_FILE_MODE,
        NodeKind::Directory => DEFAULT_DIRECTORY_MODE,
        NodeKind::Device => DEFAULT_DEVICE_MODE,
        NodeKind::Symlink => DEFAULT_FILE_MODE,
    }
}

/// The root-owned descriptor for a kind of node.
pub open spec fn root_descriptor(kind: NodeKind) -> SecurityDescriptor {
    SecurityDescriptor {
        owner_uid: ROOT_OWNER_ID,
        owner_gid: ROOT_GROUP_ID,
        mode: default_mode(kind),
    }
}

impl SecurityDescriptor {
    pub fn new(owner_uid: OwnerId, owner_gid: GroupId, mode: PermissionMode) -> (r: Self)
        ensures
            r == (SecurityDescriptor { owner_uid, owner_gid, mode }),
    {
        SecurityDescriptor { owner_uid, owner_gid, mode }
    }

    /// The root-owned descriptor for a kind of node.
    pub fn root_for_kind(kind: NodeKind) -> (r: Self)
        ensures
            r == root_descriptor(kind),
    {
        let mode: u16 = match kind {
            NodeKind::File => DEFAULT_FILE_MODE,
            NodeKind::Directory => DEFAULT_DIRECTORY_MODE,
            NodeKind::Device => DEFAULT_DEVICE_MODE,
            NodeKind::Symlink => DEFAULT_FILE_MODE,
        };
        SecurityDescriptor { owner_uid: ROOT_OWNER_ID, owner_gid: ROOT_GROUP_ID, mode }
    }
}

/// Attributes of a node.
#[derive(Debug, Clone, Copy, PartialEq, Eq, Structural)]
pub struct Metadata {
    pub kind: NodeKind,
    pub size: usize,
    pub security: SecurityDescriptor,
    pub created: u64,
    pub modified: u64,
    pub accessed: u64,
}

/// Attributes of a root-owned node without timestamps.
pub open spec fn plain_metadata(kind: NodeKind, size: usize) -> Metadata {
    Metadata {
        kind,
        size,
        security: root_descriptor(kind),
        created: 0,
        modified: 0,
        accessed: 0,
    }
}

impl Metadata {
    /// Attributes of a root-owned node without timestamps.
    pub fn new(kind: NodeKind, size: usize) -> (r: Self)
        ensures
            r == plain_metadata(kind, size),
    {
        Metadata {
            kind,
            size,
            security: SecurityDescriptor::root_for_kind(kind),
            created: 0,
            modified: 0,
            accessed: 0,
        }
    }

    /// The same attributes under another descriptor.
    pub fn with_security(self, security: SecurityDescriptor) -> (r: Self)
        ensures
            r == (Metadata { security, ..self }),
    {
        Metadata { security, ..self }
    }
}

/// One entry of a directory listing.
#[derive(Debug)]
pub struct DirectoryEntry {
    pub kind: NodeKind,
    pub size: usize,
    pub name: String,
    pub security: SecurityDescriptor,
}

impl DirectoryEntry {
    /// An entry carrying the root-owned descriptor of its kind.
    pub fn new(kind: NodeKind, size: usize, name: String) -> (r: Self)
        ensures
            r.kind == kind,
            r.size == size,
            r.name == name,
            r.security == root_descriptor(kind),
    {
        DirectoryEntry { kind, size, name, security: SecurityDescriptor::root_for_kind(kind) }
    }

    /// The same entry under another descriptor.
    pub fn with_security(self, security: SecurityDescriptor) -> (r: Self)
        ensures
            r == (DirectoryEntry { security, ..self }),
    {
        DirectoryEntry { kind: self.kind, size: self.size, name: self.name, security }
    }
}

/// A named attribute attached to a node.
#[derive(Debug)]
pub struct XattrEntry {
    pub name: Vec<u8>,
    pub value: Vec<u8>,
}

/// The names and values of attribute entries.
pub open spec fn entry_pairs(v: Seq<XattrEntry>) -> Seq<(Seq<u8>, Seq<u8>)> {
    Seq::new(v.len(), |i: int| (v[i].name@, v[i].value@))
}

/// What a consistency check found and did.
#[derive(Debug, Clone, Copy, PartialEq, Eq, Structural)]
pub struct VolumeCheckReport {
    pub issues_detected: usize,
    pub repairs_applied: usize,
    pub orphan_data_blocks: usize,
    pub checksum_failures: usize,
    pub staging_orphans_cleaned: usize,
    pub orphan_blocks_cleaned: usize,
    pub interrupted_commits: usize,
}

impl VolumeCheckReport {
    /// Whether the check found nothing wrong.
    pub fn is_clean(&self) -> (r: bool)
        ensures
            r == (self.issues_detected == 0),
    {
        self.issues_detected == 0
    }
}

/// Whether a volume can change the security descriptors it stores.
#[derive(Debug, Clone, Copy, PartialEq, Eq, Structural)]
pub enum SecurityDescriptorMutationSupport {
    LayoutDerivedOnly,
    Persistent,
    PersistentReadOnly,
}

/// A node that nobody gave rights to belongs to root: files and links can be read by all and
/// written by root, directories searched as well, and devices read and written by all.
pub proof fn law_rights_of_root(kind: NodeKind)
    ensures
        root_descriptor(kind).owner_uid == 0 && root_descriptor(kind).owner_gid == 0,
        kind == NodeKind::File || kind == NodeKind::Symlink ==> root_descriptor(kind).mode == 0o644,
        kind == NodeKind::Directory ==> root_descriptor(kind).mode == 0o755,
        kind == NodeKind::Device ==> root_descriptor(kind).mode == 0o666,
{
}

/// Plain attributes are those of a node of root, without times.
pub proof fn law_plain_attributes(kind: NodeKind, size: usize)
    ensures
        ({
            let m = plain_metadata(kind, size);
            &&& m.kind == kind && m.size == size && m.security == root_descriptor(kind)
            &&& m.created == 0 && m.modified == 0 && m.accessed == 0
        }),
{
}

} // verus!
