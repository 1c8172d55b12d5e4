//! Looking up, listing and reading the nodes.
use vstd::prelude::*;
use vstd::string::*;
use vstd::utf8::{encode_scalar, encode_utf8};

use crate::error::{Error, Result};
use crate::filesystem::{GlobalFs, MountRequest, mount_requested, request_mount};
use crate::luks2::json::{all_digits, digits_value, is_digit};
use crate::procfs::paths::{ProcPathView, ProcfsPath, parse_procfs_path, pid_value, proc_path};
use crate::procfs::render::{ProcessId, ProcessInfo, SystemInfo, cmdline_data, cmdline_text, mounts_data, mounts_text, name_data, name_text, processes_data, processes_text, status_data, status_text, uptime_data, uptime_text, version_data, version_text};
use crate::simplefs::lookup::lookup;
use crate::synthetic::{StaticDataVNode, filled, lemma_single_name, read_bytes, readable, text_bytes};
use crate::text::{chars_of, decimal, join2, lemma_decimal_digits, str_eq, to_decimal};
use crate::vfs::{DirectoryEntry, Metadata, NodeKind, SecurityDescriptorMutationSupport, VolumeCheckReport, plain_metadata, root_descriptor};

verus! {

/// A file of a process.
#[derive(Debug, Clone, Copy, PartialEq, Eq, Structural)]
pub enum ProcessFileType {
    Cmdline,
    Status,
    Name,
}

/// A file of the root.
#[derive(Debug, Clone, Copy, PartialEq, Eq, Structural)]
pub enum GlobalFileType {
    Version,
    Uptime,
    Mounts,
    Processes,
}

/// A node.
#[derive(Debug, Clone, Copy, PartialEq, Eq, Structural)]
pub enum ProcNode {
    Root,
    SelfLink,
    PidDir(ProcessId),
    PidFile(ProcessId, ProcessFileType),
    Global(GlobalFileType),
}

/// The name of a file of a process.
pub open spec fn process_file_name(file: ProcessFileType) -> Seq<char> {
    match file {
        ProcessFileType::Cmdline => "cmdline"@,
        ProcessFileType::Status => "status"@,
        ProcessFileType::Name => "name"@,
    }
}

/// The name of a file of the root.
pub open spec fn global_file_name(file: GlobalFileType) -> Seq<char> {
    match file {
        GlobalFileType::Version => "version"@,
        GlobalFileType::Uptime => "uptime"@,
        GlobalFileType::Mounts => "mounts"@,
        GlobalFileType::Processes => "processes"@,
    }
}

impl ProcessFileType {
    /// The name of the file.
    pub fn name_str(self) -> (r: &'static str)
        ensures
            r@ == process_file_name(self),
    {
        match self {
            ProcessFileType::Cmdline => "cmdline",
            ProcessFileType::Status => "status",
            ProcessFileType::Name => "name",
        }
    }
}

impl GlobalFileType {
    /// The name of the file.
    pub fn name_str(self) -> (r: &'static str)
        ensures
            r@ == global_file_name(self),
    {
        match self {
            GlobalFileType::Version => "version",
            GlobalFileType::Uptime => "uptime",
            GlobalFileType::Mounts => "mounts",
            GlobalFileType::Processes => "processes",
        }
    }
}

/// The file of a process with a name.
pub open spec fn process_file(name: Seq<char>) -> Option<ProcessFileType> {
    if name == "cmdline"@ {
        Some(ProcessFileType::Cmdline)
    } else if name == "status"@ {
        Some(ProcessFileType::Status)
    } else if name == "name"@ {
        Some(ProcessFileType::Name)
    } else {
        None
    }
}

/// The file of the root with a name.
pub open spec fn global_file(name: Seq<char>) -> Option<GlobalFileType> {
    if name == "version"@ {
        Some(GlobalFileType::Version)
    } else if name == "uptime"@ {
        Some(GlobalFileType::Uptime)
    } else if name == "mounts"@ {
        Some(GlobalFileType::Mounts)
    } else if name == "processes"@ {
        Some(GlobalFileType::Processes)
    } else {
        None
    }
}

/// The position of a process from `i` on.
pub open spec fn process_at(processes: Seq<ProcessInfo>, pid: ProcessId, i: int) -> Option<int>
    decreases processes.len() - i,
{
    if i < 0 || i >= processes.len() {
        None
    } else if processes[i].pid == pid {
        Some(i)
    } else {
        process_at(processes, pid, i + 1)
    }
}

/// The process with a number. Without a scheduler none can be found.
pub open spec fn process_of(sys: SystemInfo, pid: ProcessId) -> core::result::Result<
    ProcessInfo,
    Error,
> {
    match sys.scheduler {
        None => Err(Error::InternalError),
        Some(s) => match process_at(s.processes@, pid, 0) {
            None => Err(Error::NotFound),
            Some(k) => Ok(s.processes@[k]),
        },
    }
}

/// The number of the current process.
pub open spec fn current_process(sys: SystemInfo) -> Option<ProcessId> {
    match sys.scheduler {
        None => None,
        Some(s) => s.current_pid,
    }
}

/// The file of a process that exists.
pub open spec fn pid_file_found(sys: SystemInfo, pid: ProcessId, name: Seq<char>) -> core::result::Result<
    ProcNode,
    Error,
> {
    match process_file(name) {
        None => Err(Error::NotFound),
        Some(file) => match process_of(sys, pid) {
            Err(e) => Err(e),
            Ok(_) => Ok(ProcNode::PidFile(pid, file)),
        },
    }
}

/// The node that a path leads to.
pub open spec fn proc_found(sys: SystemInfo, path: Seq<char>) -> core::result::Result<
    ProcNode,
    Error,
> {
    match proc_path(path) {
        ProcPathView::Root => Ok(ProcNode::Root),
        ProcPathView::SelfLink => Ok(ProcNode::SelfLink),
        ProcPathView::SelfFile(name) => match current_process(sys) {
            None => Err(Error::InternalError),
            Some(pid) => pid_file_found(sys, pid, name),
        },
        ProcPathView::PidDir(pid) => match process_of(sys, pid) {
            Err(e) => Err(e),
            Ok(_) => Ok(ProcNode::PidDir(pid)),
        },
        ProcPathView::PidFile(pid, name) => pid_file_found(sys, pid, name),
        ProcPathView::GlobalFile(name) => match global_file(name) {
            None => Err(Error::NotFound),
            Some(file) => Ok(ProcNode::Global(file)),
        },
    }
}

/// The kind of a node.
pub open spec fn proc_kind(node: ProcNode) -> NodeKind {
    match node {
        ProcNode::Root => NodeKind::Directory,
        ProcNode::SelfLink => NodeKind::Symlink,
        ProcNode::PidDir(_) => NodeKind::Directory,
        ProcNode::PidFile(_, _) => NodeKind::File,
        ProcNode::Global(_) => NodeKind::File,
    }
}

/// The text of a file of the root.
pub open spec fn global_text(sys: SystemInfo, file: GlobalFileType) -> Seq<char> {
    match file {
        GlobalFileType::Version => version_text(sys),
        GlobalFileType::Uptime => uptime_text(sys),
        GlobalFileType::Mounts => mounts_text(sys),
        GlobalFileType::Processes => processes_text(sys),
    }
}

/// The text of a file of a process.
pub open spec fn process_text(p: ProcessInfo, file: ProcessFileType) -> Seq<char> {
    match file {
        ProcessFileType::Cmdline => cmdline_text(p),
        ProcessFileType::Status => status_text(p),
        ProcessFileType::Name => name_text(p),
    }
}

/// The bytes of a node. Those of links and of the directories of processes cannot be read.
pub open spec fn proc_bytes(sys: SystemInfo, node: ProcNode) -> core::result::Result<
    Seq<u8>,
    Error,
> {
    match node {
        ProcNode::Root => Ok(seq![]),
        ProcNode::SelfLink => Err(Error::PermissionDenied),
        ProcNode::PidDir(_) => Err(Error::PermissionDenied),
        ProcNode::PidFile(pid, file) => match process_of(sys, pid) {
            Err(e) => Err(e),
            Ok(p) => Ok(encode_utf8(process_text(p, file))),
        },
        ProcNode::Global(file) => Ok(encode_utf8(global_text(sys, file))),
    }
}

/// The size of a node: that of its bytes, and zero where it has none.
pub open spec fn proc_size(sys: SystemInfo, node: ProcNode) -> int {
    match proc_bytes(sys, node) {
        Ok(b) => b.len() as int,
        Err(_) => 0,
    }
}

fn find_process(sys: &SystemInfo, pid: ProcessId) -> (r: Result<&ProcessInfo>)
    ensures
        match process_of(*sys, pid) {
            Err(e) => r matches Err(e2) && e2 == e,
            Ok(p) => r matches Ok(q) && *q == p,
        },
{
    let s = match &sys.scheduler {
        None => {
            return Err(Error::InternalError);
        },
        Some(s) => s,
    };
    let mut i: usize = 0;
    while i < s.processes.len()
        invariant
            i <= s.processes@.len(),
            sys.scheduler == Some(*s),
            process_at(s.processes@, pid, 0) == process_at(s.processes@, pid, i as int),
        decreases s.processes@.len() - i,
    {
        if s.processes[i].pid == pid {
            return Ok(&s.processes[i]);
        }
        i = i + 1;
    }
    Err(Error::NotFound)
}

fn find_current(sys: &SystemInfo) -> (r: Option<ProcessId>)
    ensures
        r == current_process(*sys),
{
    match &sys.scheduler {
        None => None,
        Some(s) => s.current_pid,
    }
}

fn lookup_pid_file(sys: &SystemInfo, pid: ProcessId, filename: &str) -> (r: Result<ProcNode>)
    ensures
        r == pid_file_found(*sys, pid, filename@),
{
    let file = if str_eq(filename, "cmdline") {
        ProcessFileType::Cmdline
    } else if str_eq(filename, "status") {
        ProcessFileType::Status
    } else if str_eq(filename, "name") {
        ProcessFileType::Name
    } else {
        return Err(Error::NotFound);
    };
    match find_process(sys, pid) {
        Err(e) => Err(e),
        Ok(_) => Ok(ProcNode::PidFile(pid, file)),
    }
}

fn global_data(sys: &SystemInfo, file: GlobalFileType) -> (r: Vec<u8>)
    ensures
        r@ == encode_utf8(global_text(*sys, file)),
{
    let text = match file {
        GlobalFileType::Version => version_data(sys),
        GlobalFileType::Uptime => uptime_data(sys),
        GlobalFileType::Mounts => mounts_data(sys),
        GlobalFileType::Processes => processes_data(sys),
    };
    text_bytes(text.as_str())
}

fn process_data(p: &ProcessInfo, file: ProcessFileType) -> (r: Vec<u8>)
    ensures
        r@ == encode_utf8(process_text(*p, file)),
{
    let text = match file {
        ProcessFileType::Cmdline => cmdline_data(p),
        ProcessFileType::Status => status_data(p),
        ProcessFileType::Name => name_data(p),
    };
    text_bytes(text.as_str())
}

impl ProcNode {
    /// The name of the node. That of the directory of a process is shown in listings only.
    pub fn name(&self) -> (r: &'static str)
        ensures
            r@ == match *self {
                ProcNode::Root => "proc"@,
                ProcNode::SelfLink => "self"@,
                ProcNode::PidDir(_) => "."@,
                ProcNode::PidFile(_, file) => process_file_name(file),
                ProcNode::Global(file) => global_file_name(file),
            },
    {
        match *self {
            ProcNode::Root => "proc",
            ProcNode::SelfLink => "self",
            ProcNode::PidDir(_) => ".",
            ProcNode::PidFile(_, file) => file.name_str(),
            ProcNode::Global(file) => file.name_str(),
        }
    }

    /// What kind of node it is.
    pub fn kind(&self) -> (r: NodeKind)
        ensures
            r == proc_kind(*self),
    {
        match *self {
            ProcNode::Root => NodeKind::Directory,
            ProcNode::SelfLink => NodeKind::Symlink,
            ProcNode::PidDir(_) => NodeKind::Directory,
            ProcNode::PidFile(_, _) => NodeKind::File,
            ProcNode::Global(_) => NodeKind::File,
        }
    }

    /// How many bytes the node has now.
    pub fn size(&self, sys: &SystemInfo) -> (r: usize)
        ensures
            r == proc_size(*sys, *self),
    {
        match *self {
            ProcNode::PidFile(pid, file) => match find_process(sys, pid) {
                Ok(p) => process_data(p, file).len(),
                Err(_) => 0,
            },
            ProcNode::Global(file) => global_data(sys, file).len(),
            _ => 0,
        }
    }

    /// The attributes of the node.
    pub fn metadata(&self, sys: &SystemInfo) -> (r: Result<Metadata>)
        ensures
            r == Ok::<Metadata, Error>(
                plain_metadata(proc_kind(*self), proc_size(*sys, *self) as usize),
            ),
    {
        Ok(Metadata::new(self.kind(), self.size(sys)))
    }

    /// Reads from an offset on.
    pub fn read(&self, sys: &SystemInfo, offset: u64, buffer: &mut [u8]) -> (r: Result<usize>)
        ensures
            match proc_bytes(*sys, *self) {
                Err(e) => r == Err::<usize, Error>(e) && final(buffer)@ == old(buffer)@,
                Ok(data) => r is Ok && r->Ok_0 == readable(
                    data.len() as int,
                    offset as int,
                    old(buffer)@.len() as int,
                ) && final(buffer)@ == filled(old(buffer)@, data, offset as int),
            },
    {
        let ghost held = buffer@;
        match *self {
            ProcNode::Root => {
                assert(filled(held, Seq::empty(), offset as int) =~= held);
                Ok(0)
            },
            ProcNode::SelfLink | ProcNode::PidDir(_) => Err(Error::PermissionDenied),
            ProcNode::PidFile(pid, file) => {
                let p = find_process(sys, pid)?;
                let data = process_data(p, file);
                Ok(read_bytes(data.as_slice(), offset, buffer))
            },
            ProcNode::Global(file) => {
                let produce = || -> (v: Vec<u8>)
                    ensures
                        v@ == encode_utf8(global_text(*sys, file)),
                    { global_data(sys, file) };
                StaticDataVNode::new(file.name_str(), produce).read(offset, buffer)
            },
        }
    }

    /// Refused: the nodes are read-only.
    pub fn write(&self, offset: u64, buffer: &[u8]) -> (r: Result<usize>)
        ensures
            r == Err::<usize, Error>(Error::PermissionDenied),
    {
        Err(Error::PermissionDenied)
    }

    /// Where the link to the current process leads; to number zero where there is none.
    pub fn readlink(&self, sys: &SystemInfo) -> (r: Result<Vec<u8>>)
        ensures
            if *self == ProcNode::SelfLink {
                r matches Ok(v) && v@ == encode_utf8(
                    "/proc/"@ + decimal(
                        match current_process(*sys) {
                            Some(pid) => pid as nat,
                            None => 0,
                        },
                    ),
                )
            } else {
                r matches Err(e) && e == Error::InvalidArgument
            },
    {
        match *self {
            ProcNode::SelfLink => {
                let pid: u64 = match find_current(sys) {
                    Some(pid) => pid,
                    None => 0,
                };
                Ok(text_bytes(join2("/proc/", to_decimal(pid).as_str()).as_str()))
            },
            _ => Err(Error::InvalidArgument),
        }
    }
}

/// The entry of the root with a number: the fixed ones first, then one for each process.
pub open spec fn root_entry(sys: SystemInfo, index: int) -> core::result::Result<
    (NodeKind, Seq<char>),
    Error,
> {
    if index == 0 {
        Ok((NodeKind::Symlink, "self"@))
    } else if index == 1 {
        Ok((NodeKind::File, "version"@))
    } else if index == 2 {
        Ok((NodeKind::File, "uptime"@))
    } else if index == 3 {
        Ok((NodeKind::File, "mounts"@))
    } else if index == 4 {
        Ok((NodeKind::File, "processes"@))
    } else {
        match sys.scheduler {
            None => Err(Error::InternalError),
            Some(s) => if index - 5 < s.processes@.len() {
                Ok((NodeKind::Directory, decimal(s.processes@[index - 5].pid as nat)))
            } else {
                Err(Error::NotFound)
            },
        }
    }
}

/// The entry with a number of the directory of a process.
pub open spec fn pid_entry(sys: SystemInfo, pid: ProcessId, index: int) -> core::result::Result<
    (NodeKind, Seq<char>),
    Error,
> {
    match process_of(sys, pid) {
        Err(e) => Err(e),
        Ok(_) => if index == 0 {
            Ok((NodeKind::File, "cmdline"@))
        } else if index == 1 {
            Ok((NodeKind::File, "status"@))
        } else if index == 2 {
            Ok((NodeKind::File, "name"@))
        } else {
            Err(Error::NotFound)
        },
    }
}

/// The entry with a number of what a path leads to.
pub open spec fn proc_entry(sys: SystemInfo, path: Seq<char>, index: int) -> core::result::Result<
    (NodeKind, Seq<char>),
    Error,
> {
    match proc_path(path) {
        ProcPathView::Root => root_entry(sys, index),
        ProcPathView::PidDir(pid) => pid_entry(sys, pid, index),
        ProcPathView::SelfLink => match current_process(sys) {
            None => Err(Error::InternalError),
            Some(pid) => pid_entry(sys, pid, index),
        },
        _ => Err(Error::NotFound),
    }
}

/// The outcome of listing an entry.
pub open spec fn listed(
    entry: core::result::Result<(NodeKind, Seq<char>), Error>,
    r: Result<DirectoryEntry>,
) -> bool {
    match entry {
        Err(e) => r matches Err(e2) && e2 == e,
        Ok((kind, name)) => r matches Ok(d) && d.kind == kind && d.size == 0 && d.name@ == name
            && d.security == root_descriptor(kind),
    }
}

fn plain_entry(kind: NodeKind, name: &str) -> (r: Result<DirectoryEntry>)
    ensures
        listed(Ok((kind, name@)), r),
{
    Ok(DirectoryEntry::new(kind, 0, name.to_owned()))
}

fn list_root(sys: &SystemInfo, index: usize) -> (r: Result<DirectoryEntry>)
    ensures
        listed(root_entry(*sys, index as int), r),
{
    if index == 0 {
        return plain_entry(NodeKind::Symlink, "self");
    }
    if index == 1 {
        return plain_entry(NodeKind::File, "version");
    }
    if index == 2 {
        return plain_entry(NodeKind::File, "uptime");
    }
    if index == 3 {
        return plain_entry(NodeKind::File, "mounts");
    }
    if index == 4 {
        return plain_entry(NodeKind::File, "processes");
    }
    match &sys.scheduler {
        None => Err(Error::InternalError),
        Some(s) => if index - 5 < s.processes.len() {
            plain_entry(NodeKind::Directory, to_decimal(s.processes[index - 5].pid).as_str())
        } else {
            Err(Error::NotFound)
        },
    }
}

fn list_process(sys: &SystemInfo, pid: ProcessId, index: usize) -> (r: Result<DirectoryEntry>)
    ensures
        listed(pid_entry(*sys, pid, index as int), r),
{
    match find_process(sys, pid) {
        Err(e) => {
            return Err(e);
        },
        Ok(_) => {},
    }
    if index == 0 {
        plain_entry(NodeKind::File, "cmdline")
    } else if index == 1 {
        plain_entry(NodeKind::File, "status")
    } else if index == 2 {
        plain_entry(NodeKind::File, "name")
    } else {
        Err(Error::NotFound)
    }
}

/// Whether a path is spelled as the root.
pub open spec fn spells_root(path: Seq<char>) -> bool {
    path.len() == 0 || path == "/"@
}

/// The filesystem.
#[derive(Debug, Clone, Copy)]
pub struct ProcFs;

impl ProcFs {
    /// The name of the filesystem.
    pub fn name(&self) -> (r: &'static str)
        ensures
            r@ == "procfs"@,
    {
        "procfs"
    }

    /// Looks a path up.
    pub fn lookup(&self, sys: &SystemInfo, path: &str) -> (r: Result<ProcNode>)
        ensures
            r == proc_found(*sys, path@),
    {
        match parse_procfs_path(path) {
            ProcfsPath::Root => Ok(ProcNode::Root),
            ProcfsPath::Self_ => Ok(ProcNode::SelfLink),
            ProcfsPath::SelfFile(filename) => match find_current(sys) {
                None => Err(Error::InternalError),
                Some(pid) => lookup_pid_file(sys, pid, filename),
            },
            ProcfsPath::PidDir(pid) => match find_process(sys, pid) {
                Err(e) => Err(e),
                Ok(_) => Ok(ProcNode::PidDir(pid)),
            },
            ProcfsPath::PidFile(pid, filename) => lookup_pid_file(sys, pid, filename),
            ProcfsPath::GlobalFile(name) => if str_eq(name, "version") {
                Ok(ProcNode::Global(GlobalFileType::Version))
            } else if str_eq(name, "uptime") {
                Ok(ProcNode::Global(GlobalFileType::Uptime))
            } else if str_eq(name, "mounts") {
                Ok(ProcNode::Global(GlobalFileType::Mounts))
            } else if str_eq(name, "processes") {
                Ok(ProcNode::Global(GlobalFileType::Processes))
            } else {
                Err(Error::NotFound)
            },
        }
    }

    /// The entry with a number of what a path leads to.
    pub fn read_dir(&self, sys: &SystemInfo, path: &str, index: usize) -> (r: Result<
        DirectoryEntry,
    >)
        ensures
            listed(proc_entry(*sys, path@, index as int), r),
    {
        match parse_procfs_path(path) {
            ProcfsPath::Root => list_root(sys, index),
            ProcfsPath::PidDir(pid) => list_process(sys, pid, index),
            ProcfsPath::Self_ => match find_current(sys) {
                None => Err(Error::InternalError),
                Some(pid) => list_process(sys, pid, index),
            },
            _ => Err(Error::NotFound),
        }
    }

    /// The attributes of what a path leads to.
    pub fn stat(&self, sys: &SystemInfo, path: &str) -> (r: Result<Metadata>)
        ensures
            r == (if spells_root(path@) {
                Ok::<Metadata, Error>(plain_metadata(NodeKind::Directory, 4))
            } else {
                match proc_found(*sys, path@) {
                    Err(e) => Err(e),
                    Ok(node) => Ok(
                        plain_metadata(proc_kind(node), proc_size(*sys, node) as usize),
                    ),
                }
            }),
    {
        if chars_of(path).len() == 0 || str_eq(path, "/") {
            return Ok(Metadata::new(NodeKind::Directory, 4));
        }
        let node = self.lookup(sys, path)?;
        node.metadata(sys)
    }

    /// Refused: the filesystem is read-only.
    pub fn create_file(&self, path: &str) -> (r: Result<ProcNode>)
        ensures
            r == Err::<ProcNode, Error>(Error::PermissionDenied),
    {
        Err(Error::PermissionDenied)
    }

    /// Refused: the filesystem is read-only.
    pub fn create_dir(&self, path: &str) -> (r: Result<()>)
        ensures
            r == Err::<(), Error>(Error::PermissionDenied),
    {
        Err(Error::PermissionDenied)
    }

    /// Refused: the filesystem is read-only.
    pub fn rename(&self, old_path: &str, new_path: &str) -> (r: Result<()>)
        ensures
            r == Err::<(), Error>(Error::PermissionDenied),
    {
        Err(Error::PermissionDenied)
    }

    /// Refused: the filesystem is read-only.
    pub fn remove_path(&self, path: &str) -> (r: Result<()>)
        ensures
            r == Err::<(), Error>(Error::PermissionDenied),
    {
        Err(Error::PermissionDenied)
    }

    /// Descriptors follow from the layout.
    pub fn security_descriptor_mutation_support(&self) -> (r: SecurityDescriptorMutationSupport)
        ensures
            r == SecurityDescriptorMutationSupport::LayoutDerivedOnly,
    {
        SecurityDescriptorMutationSupport::LayoutDerivedOnly
    }

    /// There is nothing to check.
    pub fn check_and_repair(&self) -> (r: Result<VolumeCheckReport>)
        ensures
            r == Err::<VolumeCheckReport, Error>(Error::Unsupported),
    {
        Err(Error::Unsupported)
    }
}

/// Asks for the filesystem to be mounted at a path.
pub fn mount_procfs(global: &GlobalFs, mount_path: &str) -> (r: Result<MountRequest>)
    ensures
        mount_requested(*global, "/dev/adastra-procfs"@, mount_path@, "procfs"@, r),
{
    request_mount(global, "/dev/adastra-procfs", mount_path, "procfs")
}

proof fn lemma_decimal_bytes(n: nat)
    ensures
        encode_utf8(decimal(n)).len() == decimal(n).len(),
        all_digits(encode_utf8(decimal(n))),
        digits_value(encode_utf8(decimal(n))) == n,
    decreases n,
{
    lemma_decimal_digits(n);
    let text = decimal(n);
    let bytes = encode_utf8(text);
    assert(vstd::utf8::is_ascii_chars(text));
    vstd::utf8::is_ascii_chars_encode_utf8(text);
    assert forall|i: int| #![trigger bytes[i]] 0 <= i < bytes.len() implies is_digit(bytes[i]) by {
        assert(bytes[i] == text[i] as u8);
    }
    assert(bytes.last() == text.last() as u8);
    if n < 10 {
        assert(bytes.drop_last() =~= seq![]);
        assert(digits_value(bytes.drop_last()) == 0);
    } else {
        lemma_decimal_digits(n / 10);
        lemma_decimal_bytes(n / 10);
        let front = decimal(n / 10);
        assert(vstd::utf8::is_ascii_chars(front));
        vstd::utf8::is_ascii_chars_encode_utf8(front);
        assert(bytes.drop_last() =~= encode_utf8(front)) by {
            assert forall|i: int| 0 <= i < front.len() implies bytes[i] == encode_utf8(front)[i] by {
                assert(text[i] == front[i]);
            }
        }
    }
}

/// The number of a process as a text is read as that number.
pub proof fn lemma_pid_path(pid: ProcessId)
    ensures
        proc_path(decimal(pid as nat)) == ProcPathView::PidDir(pid),
{
    let text = decimal(pid as nat);
    lemma_decimal_digits(pid as nat);
    lemma_decimal_bytes(pid as nat);
    assert(!text.contains('/'));
    lemma_single_name(text);
    assert(text[0] != '+');
    reveal_strlit("self");
    assert("self"@[0] == 's');
    assert(text != "self"@);
    assert(pid_value(text) == Some(pid));
}

proof fn lemma_process_found(processes: Seq<ProcessInfo>, pid: ProcessId, i: int, k: int)
    requires
        0 <= i <= k < processes.len(),
        processes[k].pid == pid,
    ensures
        process_at(processes, pid, i) is Some,
    decreases k - i,
{
    if processes[i].pid != pid {
        lemma_process_found(processes, pid, i + 1, k);
    }
}

/// Every entry of the root is found under its name, and is of the kind that was listed.
pub proof fn law_listed_is_found(sys: SystemInfo, index: int)
    requires
        index >= 0,
        root_entry(sys, index) is Ok,
    ensures
        ({
            let (kind, name) = root_entry(sys, index)->Ok_0;
            proc_found(sys, name) matches Ok(node) && proc_kind(node) == kind
        }),
{
    let (kind, name) = root_entry(sys, index)->Ok_0;
    if index < 5 {
        lemma_literal_paths();
    } else {
        let processes = sys.scheduler->Some_0.processes@;
        let pid = processes[index - 5].pid;
        lemma_pid_path(pid);
        lemma_process_found(processes, pid, 0, index - 5);
    }
}

proof fn lemma_not_a_number(name: Seq<char>)
    requires
        name.len() > 0,
        'a' <= name[0] <= 'z',
    ensures
        pid_value(name) is None,
{
    let bytes = encode_utf8(name);
    assert(bytes[0] == encode_scalar(name[0] as u32)[0]);
    let c = name[0] as u32;
    assert(97 <= c <= 122 ==> (c & 0x7f) as u8 == c as u8) by (bit_vector);
    assert(bytes[0] >= 97);
    assert(!is_digit(bytes[0]));
}

proof fn lemma_literal_paths()
    ensures
        proc_path("self"@) == ProcPathView::SelfLink,
        proc_path("version"@) == ProcPathView::GlobalFile("version"@),
        proc_path("uptime"@) == ProcPathView::GlobalFile("uptime"@),
        proc_path("mounts"@) == ProcPathView::GlobalFile("mounts"@),
        proc_path("processes"@) == ProcPathView::GlobalFile("processes"@),
        global_file("version"@) is Some,
        global_file("uptime"@) is Some,
        global_file("mounts"@) is Some,
        global_file("processes"@) is Some,
{
    reveal_strlit("self");
    reveal_strlit("version");
    reveal_strlit("uptime");
    reveal_strlit("mounts");
    reveal_strlit("processes");
    lemma_single_name("self"@);
    lemma_single_name("version"@);
    lemma_single_name("uptime"@);
    lemma_single_name("mounts"@);
    lemma_single_name("processes"@);
    lemma_not_a_number("version"@);
    lemma_not_a_number("uptime"@);
    lemma_not_a_number("mounts"@);
    lemma_not_a_number("processes"@);
    assert("self"@[0] == 's');
    assert("version"@[0] == 'v');
    assert("uptime"@[0] == 'u');
    assert("mounts"@[0] == 'm');
    assert("processes"@[0] == 'p');
}

} // verus!
