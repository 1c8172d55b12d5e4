//! Looking up, listing and reading the nodes.
use vstd::prelude::*;
use vstd::string::*;
use vstd::utf8::encode_utf8;

use crate::error::{Error, Result};
use crate::filesystem::{GlobalFs, MountRequest, mount_requested, request_mount};
use crate::order::text_before;
use crate::procfs::fs::{listed, spells_root};
use crate::servicefs::registry::{ServiceRecord, ServiceRegistry, service_at};
use crate::servicefs::render::{ServiceFileType, service_file, service_file_at, service_file_name, service_text};
use crate::simplefs::lookup::lookup;
use crate::synthetic::{filled, lemma_single_name, mount_relative, path_halves, read_bytes, readable, split_at_slash, text_bytes, without_slash};
use crate::text::{chars_of, str_eq};
use crate::vfs::{DirectoryEntry, Metadata, NodeKind, ROOT_GROUP_ID, ROOT_OWNER_ID, SecurityDescriptor, SecurityDescriptorMutationSupport, VolumeCheckReport};

verus! {

/// Permission bits of every directory.
pub const SERVICE_DIRECTORY_MODE: u16 = 0o555;

/// Permission bits of every file.
pub const SERVICE_FILE_MODE: u16 = 0o444;

/// A path that was read. The path where the filesystem is mounted is stripped already.
#[derive(Debug, PartialEq, Eq)]
pub enum ServicefsPath<'a> {
    /// The root.
    Root,
    /// The directory of a service.
    ServiceDir(&'a str),
    /// A file of a service.
    ServiceFile(&'a str, &'a str),
}

/// A path that was read, with its texts.
pub enum ServicePathView {
    Root,
    ServiceDir(Seq<char>),
    ServiceFile(Seq<char>, Seq<char>),
}

impl<'a> View for ServicefsPath<'a> {
    type V = ServicePathView;

    open spec fn view(&self) -> ServicePathView {
        match self {
            ServicefsPath::Root => ServicePathView::Root,
            ServicefsPath::ServiceDir(name) => ServicePathView::ServiceDir(name@),
            ServicefsPath::ServiceFile(name, file) => ServicePathView::ServiceFile(name@, file@),
        }
    }
}

/// What a path means: the first component names a service, the rest a file of it. A
/// trailing slash names the directory.
pub open spec fn service_path(path: Seq<char>) -> ServicePathView {
    let tail = mount_relative(path);
    let (first, rest) = path_halves(tail);
    match rest {
        Some(file) if file.len() > 0 => ServicePathView::ServiceFile(first, file),
        _ => if first.len() == 0 {
            ServicePathView::Root
        } else {
            ServicePathView::ServiceDir(first)
        },
    }
}

/// Reads a path.
pub fn parse_servicefs_path<'a>(path: &'a str) -> (r: ServicefsPath<'a>)
    ensures
        r@ == service_path(path@),
{
    let (first, rest) = split_at_slash(without_slash(path));
    if let Some(file) = rest {
        if chars_of(file).len() > 0 {
            return ServicefsPath::ServiceFile(first, file);
        }
    }
    if chars_of(first).len() == 0 {
        ServicefsPath::Root
    } else {
        ServicefsPath::ServiceDir(first)
    }
}

/// A node. It holds no copy of what it shows.
#[derive(Debug)]
pub enum ServiceNode {
    Root,
    Service(String),
    File(String, ServiceFileType),
}

/// A node, with its texts.
pub enum ServiceNodeView {
    Root,
    Service(Seq<char>),
    File(Seq<char>, ServiceFileType),
}

impl View for ServiceNode {
    type V = ServiceNodeView;

    open spec fn view(&self) -> ServiceNodeView {
        match self {
            ServiceNode::Root => ServiceNodeView::Root,
            ServiceNode::Service(name) => ServiceNodeView::Service(name@),
            ServiceNode::File(name, file) => ServiceNodeView::File(name@, *file),
        }
    }
}

/// The service with a name.
pub open spec fn service_of(services: ServiceRegistry, name: Seq<char>) -> Option<ServiceRecord> {
    match service_at(services.records@, name, 0) {
        Some(k) => Some(services.records@[k]),
        None => None,
    }
}

/// The node that a path leads to.
pub open spec fn service_found(services: ServiceRegistry, path: Seq<char>) -> core::result::Result<
    ServiceNodeView,
    Error,
> {
    match service_path(path) {
        ServicePathView::Root => Ok(ServiceNodeView::Root),
        ServicePathView::ServiceDir(name) => if service_of(services, name) is None {
            Err(Error::NotFound)
        } else {
            Ok(ServiceNodeView::Service(name))
        },
        ServicePathView::ServiceFile(name, filename) => match service_file(filename) {
            None => Err(Error::NotFound),
            Some(file) => if service_of(services, name) is None {
                Err(Error::NotFound)
            } else {
                Ok(ServiceNodeView::File(name, file))
            },
        },
    }
}

/// The kind of a node.
pub open spec fn service_node_kind(node: ServiceNodeView) -> NodeKind {
    match node {
        ServiceNodeView::File(_, _) => NodeKind::File,
        _ => NodeKind::Directory,
    }
}

/// The bytes of a node. Directories cannot be read.
pub open spec fn service_bytes(services: ServiceRegistry, node: ServiceNodeView) -> core::result::Result<
    Seq<u8>,
    Error,
> {
    match node {
        ServiceNodeView::File(name, file) => match service_of(services, name) {
            None => Err(Error::NotFound),
            Some(record) => Ok(encode_utf8(service_text(file, record))),
        },
        _ => Err(Error::PermissionDenied),
    }
}

/// The size of a node: that of its bytes, and zero where it has none.
pub open spec fn service_size(services: ServiceRegistry, node: ServiceNodeView) -> int {
    match service_bytes(services, node) {
        Ok(b) => b.len() as int,
        Err(_) => 0,
    }
}

/// The attributes of a node.
pub open spec fn service_metadata(kind: NodeKind, size: usize) -> Metadata {
    Metadata {
        kind,
        size,
        security: SecurityDescriptor {
            owner_uid: ROOT_OWNER_ID,
            owner_gid: ROOT_GROUP_ID,
            mode: if kind == NodeKind::File {
                SERVICE_FILE_MODE
            } else {
                SERVICE_DIRECTORY_MODE
            },
        },
        created: 0,
        modified: 0,
        accessed: 0,
    }
}

fn build_metadata(kind: NodeKind, size: usize) -> (r: Metadata)
    ensures
        r == service_metadata(kind, size),
{
    let mode: u16 = if kind == NodeKind::File {
        SERVICE_FILE_MODE
    } else {
        SERVICE_DIRECTORY_MODE
    };
    Metadata::new(kind, size).with_security(
        SecurityDescriptor::new(ROOT_OWNER_ID, ROOT_GROUP_ID, mode),
    )
}

fn find_bytes(services: &ServiceRegistry, name: &str, file: ServiceFileType) -> (r: Result<Vec<u8>>)
    ensures
        match service_bytes(*services, ServiceNodeView::File(name@, file)) {
            Err(e) => r matches Err(e2) && e2 == e,
            Ok(b) => r matches Ok(v) && v@ == b,
        },
{
    match services.find(name) {
        None => Err(Error::NotFound),
        Some(k) => Ok(text_bytes(file.produce(&services.records[k]).as_str())),
    }
}

impl ServiceNode {
    /// The name of the node.
    pub fn name(&self) -> (r: &str)
        ensures
            r@ == match self@ {
                ServiceNodeView::Root => "service"@,
                ServiceNodeView::Service(name) => name,
                ServiceNodeView::File(_, file) => service_file_name(file),
            },
    {
        match self {
            ServiceNode::Root => "service",
            ServiceNode::Service(name) => name.as_str(),
            ServiceNode::File(_, file) => file.name(),
        }
    }

    /// What kind of node it is.
    pub fn kind(&self) -> (r: NodeKind)
        ensures
            r == service_node_kind(self@),
    {
        match self {
            ServiceNode::File(_, _) => NodeKind::File,
            _ => NodeKind::Directory,
        }
    }

    /// How many bytes the node has now.
    pub fn size(&self, services: &ServiceRegistry) -> (r: usize)
        ensures
            r == service_size(*services, self@),
    {
        match self {
            ServiceNode::File(name, file) => match find_bytes(services, name.as_str(), *file) {
                Ok(b) => b.len(),
                Err(_) => 0,
            },
            _ => 0,
        }
    }

    /// The attributes of the node.
    pub fn metadata(&self, services: &ServiceRegistry) -> (r: Result<Metadata>)
        ensures
            r == Ok::<Metadata, Error>(
                service_metadata(
                    service_node_kind(self@),
                    service_size(*services, self@) as usize,
                ),
            ),
    {
        Ok(build_metadata(self.kind(), self.size(services)))
    }

    /// Reads from an offset on.
    pub fn read(&self, services: &ServiceRegistry, offset: u64, buffer: &mut [u8]) -> (r: Result<
        usize,
    >)
        ensures
            match service_bytes(*services, self@) {
                Err(e) => r == Err::<usize, Error>(e) && final(buffer)@ == old(buffer)@,
                Ok(data) => r is Ok && r->Ok_0 == readable(
                    data.len() as int,
                    offset as int,
                    old(buffer)@.len() as int,
                ) && final(buffer)@ == filled(old(buffer)@, data, offset as int),
            },
    {
        match self {
            ServiceNode::File(name, file) => {
                let data = find_bytes(services, name.as_str(), *file)?;
                Ok(read_bytes(data.as_slice(), offset, buffer))
            },
            _ => Err(Error::PermissionDenied),
        }
    }

    /// Refused: the nodes are read-only.
    pub fn write(&self, offset: u64, buffer: &[u8]) -> (r: Result<usize>)
        ensures
            r == Err::<usize, Error>(Error::PermissionDenied),
    {
        Err(Error::PermissionDenied)
    }
}

/// The entry with a number of what a path leads to: the services of the root, or the files
/// of a service.
pub open spec fn service_entry(services: ServiceRegistry, path: Seq<char>, index: int) -> core::result::Result<
    (NodeKind, Seq<char>),
    Error,
> {
    match service_path(path) {
        ServicePathView::Root => if index < services.records@.len() {
            Ok((NodeKind::Directory, services.records@[index].name@))
        } else {
            Err(Error::NotFound)
        },
        ServicePathView::ServiceDir(name) => match (
            service_of(services, name),
            service_file_at(index),
        ) {
            (Some(_), Some(file)) => Ok((NodeKind::File, service_file_name(file))),
            _ => Err(Error::NotFound),
        },
        ServicePathView::ServiceFile(_, _) => Err(Error::NotFound),
    }
}

/// The filesystem.
#[derive(Debug, Clone, Copy)]
pub struct ServiceFs;

impl ServiceFs {
    /// The name of the filesystem.
    pub fn name(&self) -> (r: &'static str)
        ensures
            r@ == "servicefs"@,
    {
        "servicefs"
    }

    /// Looks a path up.
    pub fn lookup(&self, services: &ServiceRegistry, path: &str) -> (r: Result<ServiceNode>)
        ensures
            match service_found(*services, path@) {
                Err(e) => r matches Err(e2) && e2 == e,
                Ok(node) => r matches Ok(n) && n@ == node,
            },
    {
        match parse_servicefs_path(path) {
            ServicefsPath::Root => Ok(ServiceNode::Root),
            ServicefsPath::ServiceDir(name) => match services.find(name) {
                None => Err(Error::NotFound),
                Some(_) => Ok(ServiceNode::Service(name.to_owned())),
            },
            ServicefsPath::ServiceFile(name, filename) => match ServiceFileType::parse(filename) {
                None => Err(Error::NotFound),
                Some(file) => match services.find(name) {
                    None => Err(Error::NotFound),
                    Some(_) => Ok(ServiceNode::File(name.to_owned(), file)),
                },
            },
        }
    }

    /// The attributes of what a path leads to.
    pub fn stat(&self, services: &ServiceRegistry, path: &str) -> (r: Result<Metadata>)
        ensures
            r == (if spells_root(path@) {
                Ok::<Metadata, Error>(service_metadata(NodeKind::Directory, 4))
            } else {
                match service_found(*services, path@) {
                    Err(e) => Err(e),
                    Ok(node) => Ok(
                        service_metadata(
                            service_node_kind(node),
                            service_size(*services, node) as usize,
                        ),
                    ),
                }
            }),
    {
        if chars_of(path).len() == 0 || str_eq(path, "/") {
            return Ok(build_metadata(NodeKind::Directory, 4));
        }
        let node = self.lookup(services, path)?;
        node.metadata(services)
    }

    /// The entry with a number of what a path leads to.
    pub fn read_dir(&self, services: &ServiceRegistry, path: &str, index: usize) -> (r: Result<
        DirectoryEntry,
    >)
        ensures
            listed(service_entry(*services, path@, index as int), r),
    {
        match parse_servicefs_path(path) {
            ServicefsPath::Root => if index < services.records.len() {
                Ok(
                    DirectoryEntry::new(
                        NodeKind::Directory,
                        0,
                        services.records[index].name.as_str().to_owned(),
                    ),
                )
            } else {
                Err(Error::NotFound)
            },
            ServicefsPath::ServiceDir(name) => {
                if services.find(name).is_none() {
                    return Err(Error::NotFound);
                }
                match ServiceFileType::at(index) {
                    None => Err(Error::NotFound),
                    Some(file) => Ok(
                        DirectoryEntry::new(NodeKind::File, 0, file.name().to_owned()),
                    ),
                }
            },
            ServicefsPath::ServiceFile(_, _) => Err(Error::NotFound),
        }
    }

    /// Refused: the filesystem is read-only.
    pub fn create_file(&self, path: &str) -> (r: Result<ServiceNode>)
        ensures
            r matches Err(e) && e == Error::PermissionDenied,
    {
        Err(Error::PermissionDenied)
    }

    /// Refused: the filesystem is read-only.
    pub fn create_dir(&self, path: &str) -> (r: Result<()>)
        ensures
            r == Err::<(), Error>(Error::PermissionDenied),
    {
        Err(Error::PermissionDenied)
    }

    /// Refused: the filesystem is read-only.
    pub fn rename(&self, old_path: &str, new_path: &str) -> (r: Result<()>)
        ensures
            r == Err::<(), Error>(Error::PermissionDenied),
    {
        Err(Error::PermissionDenied)
    }

    /// Refused: the filesystem is read-only.
    pub fn remove_path(&self, path: &str) -> (r: Result<()>)
        ensures
            r == Err::<(), Error>(Error::PermissionDenied),
    {
        Err(Error::PermissionDenied)
    }

    /// Descriptors follow from the layout.
    pub fn security_descriptor_mutation_support(&self) -> (r: SecurityDescriptorMutationSupport)
        ensures
            r == SecurityDescriptorMutationSupport::LayoutDerivedOnly,
    {
        SecurityDescriptorMutationSupport::LayoutDerivedOnly
    }

    /// There is nothing to check.
    pub fn check_and_repair(&self) -> (r: Result<VolumeCheckReport>)
        ensures
            r == Err::<VolumeCheckReport, Error>(Error::Unsupported),
    {
        Err(Error::Unsupported)
    }
}

/// Asks for the filesystem to be mounted at a path.
pub fn mount_servicefs(global: &GlobalFs, mount_path: &str) -> (r: Result<MountRequest>)
    ensures
        mount_requested(*global, "/dev/protofire-servicefs"@, mount_path@, "servicefs"@, r),
{
    request_mount(global, "/dev/protofire-servicefs", mount_path, "servicefs")
}

/// The root lists the services in the order of their names.
pub proof fn law_services_are_listed_in_order(services: ServiceRegistry, path: Seq<char>, i: int, j: int)
    requires
        services.wf(),
        service_path(path) == ServicePathView::Root,
        0 <= i < j,
        service_entry(services, path, i) is Ok,
        service_entry(services, path, j) is Ok,
    ensures
        text_before(
            service_entry(services, path, i)->Ok_0.1,
            service_entry(services, path, j)->Ok_0.1,
        ),
{
    assert(text_before(services.records@[i].name@, services.records@[j].name@));
}

/// A service that the root lists is found under its name, where the name can stand in a
/// path.
pub proof fn law_listed_service_is_found(services: ServiceRegistry, index: int)
    requires
        0 <= index < services.records@.len(),
        services.records@[index].name@.len() > 0,
        !services.records@[index].name@.contains('/'),
    ensures
        service_found(services, services.records@[index].name@) == Ok::<ServiceNodeView, Error>(
            ServiceNodeView::Service(services.records@[index].name@),
        ),
{
    let name = services.records@[index].name@;
    lemma_single_name(name);
    lemma_service_found(services.records@, name, 0, index);
}

proof fn lemma_service_found(records: Seq<ServiceRecord>, name: Seq<char>, i: int, k: int)
    requires
        0 <= i <= k < records.len(),
        records[k].name@ == name,
    ensures
        service_at(records, name, i) is Some,
    decreases k - i,
{
    if records[i].name@ != name {
        lemma_service_found(records, name, i + 1, k);
    }
}

} // verus!
