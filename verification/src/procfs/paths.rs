//! The paths of the filesystem.
use vstd::prelude::*;
use vstd::string::*;
use vstd::utf8::encode_utf8;

use crate::luks2::json::{decimal_value, parse_decimal};
use crate::procfs::render::ProcessId;
use crate::synthetic::{mount_relative, path_halves, split_at_slash, without_slash};
use crate::text::{chars_of, str_eq};

verus! {

/// A path that was read. The path where the filesystem is mounted is stripped already.
#[derive(Debug)]
pub enum ProcfsPath<'a> {
    /// The root.
    Root,
    /// The link to the current process.
    Self_,
    /// A file of the current process.
    SelfFile(&'a str),
    /// The directory of a process.
    PidDir(ProcessId),
    /// A file of a process.
    PidFile(ProcessId, &'a str),
    /// A file of the root.
    GlobalFile(&'a str),
}

/// A path that was read, with its texts.
pub enum ProcPathView {
    Root,
    SelfLink,
    SelfFile(Seq<char>),
    PidDir(ProcessId),
    PidFile(ProcessId, Seq<char>),
    GlobalFile(Seq<char>),
}

impl<'a> View for ProcfsPath<'a> {
    type V = ProcPathView;

    open spec fn view(&self) -> ProcPathView {
        match self {
            ProcfsPath::Root => ProcPathView::Root,
            ProcfsPath::Self_ => ProcPathView::SelfLink,
            ProcfsPath::SelfFile(f) => ProcPathView::SelfFile(f@),
            ProcfsPath::PidDir(p) => ProcPathView::PidDir(*p),
            ProcfsPath::PidFile(p, f) => ProcPathView::PidFile(*p, f@),
            ProcfsPath::GlobalFile(f) => ProcPathView::GlobalFile(f@),
        }
    }
}

/// The number that a text spells, with or without a plus sign before it.
pub open spec fn pid_value(s: Seq<char>) -> Option<ProcessId> {
    if s.len() > 0 && s[0] == '+' {
        decimal_value(encode_utf8(s.skip(1)))
    } else {
        decimal_value(encode_utf8(s))
    }
}

/// What a path means. The first component names the current process, a process by its
/// number, or a file of the root; the rest names a file of the process. A path that ends
/// in the slash after its first component means the root.
pub open spec fn proc_path(path: Seq<char>) -> ProcPathView {
    let tail = mount_relative(path);
    let (first, rest) = path_halves(tail);
    if tail.len() == 0 {
        ProcPathView::Root
    } else {
        match rest {
            None => if first == "self"@ {
                ProcPathView::SelfLink
            } else {
                match pid_value(first) {
                    Some(pid) => ProcPathView::PidDir(pid),
                    None => ProcPathView::GlobalFile(first),
                }
            },
            Some(file) => if file.len() == 0 {
                ProcPathView::Root
            } else if first == "self"@ {
                ProcPathView::SelfFile(file)
            } else {
                match pid_value(first) {
                    Some(pid) => ProcPathView::PidFile(pid, file),
                    None => ProcPathView::GlobalFile(first),
                }
            },
        }
    }
}

fn parse_pid(s: &str) -> (r: Option<ProcessId>)
    ensures
        r == pid_value(s@),
{
    let chars = chars_of(s);
    let n: usize = chars.len();
    if n > 0 && chars[0] == '+' {
        assert(s@.subrange(1, n as int) =~= s@.skip(1));
        parse_decimal(s.substring_char(1, n).as_bytes())
    } else {
        parse_decimal(s.as_bytes())
    }
}

/// Reads a path.
pub fn parse_procfs_path<'a>(path: &'a str) -> (r: ProcfsPath<'a>)
    ensures
        r@ == proc_path(path@),
{
    let tail = without_slash(path);
    if chars_of(tail).len() == 0 {
        return ProcfsPath::Root;
    }
    let (first, rest) = split_at_slash(tail);
    match rest {
        None => {
            if str_eq(first, "self") {
                return ProcfsPath::Self_;
            }
            match parse_pid(first) {
                Some(pid) => ProcfsPath::PidDir(pid),
                None => ProcfsPath::GlobalFile(first),
            }
        },
        Some(file) => {
            if chars_of(file).len() == 0 {
                return ProcfsPath::Root;
            }
            if str_eq(first, "self") {
                return ProcfsPath::SelfFile(file);
            }
            match parse_pid(first) {
                Some(pid) => ProcfsPath::PidFile(pid, file),
                None => ProcfsPath::GlobalFile(first),
            }
        },
    }
}

} // verus!
