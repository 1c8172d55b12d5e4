//! File names, link targets and extended attributes.
use vstd::prelude::*;
use vstd::string::*;

use crate::bytes::{copy_range, get_u16, get_u32, get_u64, u16_at, u32_at, u64_at};
use crate::ntfs::types::FILE_ATTRIBUTE_DIRECTORY;
use crate::text::{from_utf16_lossy, str_eq, utf16_lossy};
use crate::vfs::XattrEntry;

verus! {

/// The little-endian code units in `n` pairs of bytes from `at` on.
pub open spec fn units_le(buf: Seq<u8>, at: int, n: int) -> Seq<u16> {
    Seq::new(n as nat, |i: int| u16_at(buf, at + 2 * i))
}

fn read_units(buf: &[u8], at: usize, n: usize) -> (r: Vec<u16>)
    requires
        at + 2 * n <= buf@.len(),
    ensures
        r@ == units_le(buf@, at as int, n as int),
{
    let _total: usize = buf.len();
    let mut units: Vec<u16> = Vec::new();
    let mut i: usize = 0;
    while i < n
        invariant
            i <= n,
            at + 2 * n <= buf@.len() <= usize::MAX,
            units@.len() == i,
            forall|k: int| #![trigger units@[k]] 0 <= k < i ==> units@[k] == u16_at(buf@, at + 2 * k),
        decreases n - i,
    {
        units.push(get_u16(buf, at + 2 * i));
        i = i + 1;
    }
    assert(units@ =~= units_le(buf@, at as int, n as int));
    units
}

/// A name of a file.
#[derive(Debug)]
pub struct FileName {
    pub parent_directory: u64,
    pub created: u64,
    pub modified: u64,
    pub mft_changed: u64,
    pub accessed: u64,
    pub file_attributes: u32,
    pub name: String,
    pub namespace: u8,
}

/// What a file name says.
pub struct NameView {
    pub parent_directory: u64,
    pub created: u64,
    pub modified: u64,
    pub mft_changed: u64,
    pub accessed: u64,
    pub file_attributes: u32,
    pub name: Seq<char>,
    pub namespace: u8,
}

impl View for FileName {
    type V = NameView;

    open spec fn view(&self) -> NameView {
        NameView {
            parent_directory: self.parent_directory,
            created: self.created,
            modified: self.modified,
            mft_changed: self.mft_changed,
            accessed: self.accessed,
            file_attributes: self.file_attributes,
            name: self.name@,
            namespace: self.namespace,
        }
    }
}

/// The file name in a buffer. The attributes are at 56, after the sizes.
pub open spec fn file_name_in(buf: Seq<u8>) -> Option<NameView> {
    if buf.len() < 66 || buf.len() < 66 + buf[64] * 2 {
        None
    } else {
        Some(
            NameView {
                parent_directory: u64_at(buf, 0),
                created: u64_at(buf, 8),
                modified: u64_at(buf, 16),
                mft_changed: u64_at(buf, 24),
                accessed: u64_at(buf, 32),
                file_attributes: u32_at(buf, 56),
                name: utf16_lossy(units_le(buf, 66, buf[64] as int)),
                namespace: buf[65],
            },
        )
    }
}

/// Whether a namespace is one of the Win32 ones.
pub open spec fn preferred(namespace: u8) -> bool {
    namespace == 3 || namespace == 1
}

/// Whether a new name takes the place of the current one: a Win32 name that of any other,
/// and any name that of a pure DOS name.
pub open spec fn supersedes(new: NameView, current: NameView) -> bool {
    (preferred(new.namespace) && !preferred(current.namespace)) || (current.namespace == 2
        && new.namespace != 2)
}

impl FileName {
    /// Parses a file name.
    pub fn parse(buf: &[u8]) -> (r: Option<Self>)
        ensures
            match r {
                Some(f) => file_name_in(buf@) == Some(f@),
                None => file_name_in(buf@) is None,
            },
    {
        if buf.len() < 66 {
            return None;
        }
        let n: usize = buf[64] as usize;
        if buf.len() < 66 + n * 2 {
            return None;
        }
        let units = read_units(buf, 66, n);
        Some(
            FileName {
                parent_directory: get_u64(buf, 0),
                created: get_u64(buf, 8),
                modified: get_u64(buf, 16),
                mft_changed: get_u64(buf, 24),
                accessed: get_u64(buf, 32),
                file_attributes: get_u32(buf, 56),
                name: from_utf16_lossy(units.as_slice()),
                namespace: buf[65],
            },
        )
    }

    /// Whether the attributes are a directory's.
    pub fn is_directory(&self) -> (r: bool)
        ensures
            r == (self.file_attributes & FILE_ATTRIBUTE_DIRECTORY != 0),
    {
        self.file_attributes & FILE_ATTRIBUTE_DIRECTORY != 0
    }

    /// Whether the name is a Win32 one.
    pub fn preferred_namespace(&self) -> (r: bool)
        ensures
            r == preferred(self.namespace),
    {
        self.namespace == 3 || self.namespace == 1
    }

    /// Whether this name takes the place of another.
    pub fn better_than(&self, current: &FileName) -> (r: bool)
        ensures
            r == supersedes(self@, current@),
    {
        (self.preferred_namespace() && !current.preferred_namespace()) || (current.namespace == 2
            && self.namespace != 2)
    }
}

/// The tag of a symbolic link.
pub const IO_REPARSE_TAG_SYMLINK: u32 = 0xA000_000C;

/// The tag of a directory mount point.
pub const IO_REPARSE_TAG_MOUNT_POINT: u32 = 0xA000_0003;

/// Whether `s` starts with `prefix`.
pub open spec fn starts_with(s: Seq<char>, prefix: Seq<char>) -> bool {
    s.len() >= prefix.len() && s.take(prefix.len() as int) == prefix
}

/// A target without the prefix that names the NT namespace.
pub open spec fn plain_target(s: Seq<char>) -> Seq<char> {
    if starts_with(s, "\\??\\"@) {
        s.skip("\\??\\"@.len() as int)
    } else if starts_with(s, "\\DosDevices\\"@) {
        s.skip("\\DosDevices\\"@.len() as int)
    } else {
        s
    }
}

/// The target in the data of a link, which starts at `at` and is `n` bytes long: the
/// substitute name, or else the print name.
pub open spec fn link_target(buf: Seq<u8>, at: int, n: int) -> Option<Seq<char>> {
    if n < 8 {
        None
    } else {
        let (off, len) = if u16_at(buf, at + 2) > 0 {
            (u16_at(buf, at) as int, u16_at(buf, at + 2) as int)
        } else {
            (u16_at(buf, at + 4) as int, u16_at(buf, at + 6) as int)
        };
        if len == 0 || off + len > n {
            None
        } else {
            Some(plain_target(utf16_lossy(units_le(buf, at + off, len / 2))))
        }
    }
}

/// The tag of a reparse point, and its target if it is a link. Nothing where the buffer
/// is too short.
pub open spec fn reparse_in(buf: Seq<u8>) -> Option<(u32, Option<Seq<char>>)> {
    let tag = u32_at(buf, 0);
    let n = u16_at(buf, 4) as int;
    if buf.len() < 8 {
        None
    } else if tag != IO_REPARSE_TAG_SYMLINK && tag != IO_REPARSE_TAG_MOUNT_POINT {
        Some((tag, None))
    } else if buf.len() < 8 + n {
        None
    } else {
        Some((tag, link_target(buf, 8, n)))
    }
}

fn strip<'a>(s: &'a str, prefix: &str) -> (r: Option<&'a str>)
    ensures
        match r {
            Some(t) => starts_with(s@, prefix@) && t@ == s@.skip(prefix@.len() as int),
            None => !starts_with(s@, prefix@),
        },
{
    let n: usize = prefix.unicode_len();
    let total: usize = s.unicode_len();
    if total < n {
        return None;
    }
    if str_eq(s.substring_char(0, n), prefix) {
        assert(s@.subrange(0, n as int) =~= s@.take(n as int));
        assert(s@.subrange(n as int, total as int) =~= s@.skip(n as int));
        Some(s.substring_char(n, total))
    } else {
        assert(s@.subrange(0, n as int) =~= s@.take(n as int));
        None
    }
}

/// Parses a reparse point into its tag and, of a link, its target.
pub fn parse_reparse_point(buf: &[u8]) -> (r: Option<(u32, Option<String>)>)
    ensures
        match r {
            Some((tag, Some(t))) => reparse_in(buf@) == Some((tag, Some(t@))),
            Some((tag, None)) => reparse_in(buf@) == Some((tag, None::<Seq<char>>)),
            None => reparse_in(buf@) is None,
        },
{
    if buf.len() < 8 {
        return None;
    }
    let tag: u32 = get_u32(buf, 0);
    let n: usize = get_u16(buf, 4) as usize;
    if tag != IO_REPARSE_TAG_SYMLINK && tag != IO_REPARSE_TAG_MOUNT_POINT {
        return Some((tag, None));
    }
    if buf.len() < 8 + n {
        return None;
    }
    if n < 8 {
        return Some((tag, None));
    }
    let substitute: usize = get_u16(buf, 10) as usize;
    let (off, len): (usize, usize) = if substitute > 0 {
        (get_u16(buf, 8) as usize, substitute)
    } else {
        (get_u16(buf, 12) as usize, get_u16(buf, 14) as usize)
    };
    if len == 0 || off + len > n {
        return Some((tag, None));
    }
    let units = read_units(buf, 8 + off, len / 2);
    let target = from_utf16_lossy(units.as_slice());
    let bare = match strip(target.as_str(), "\\??\\") {
        Some(t) => t,
        None => match strip(target.as_str(), "\\DosDevices\\") {
            Some(t) => t,
            None => target.as_str(),
        },
    };
    Some((tag, Some(bare.to_owned())))
}

/// An extended attribute as a named value.
pub struct XattrView {
    pub name: Seq<u8>,
    pub value: Seq<u8>,
}

/// The named values in a list.
pub open spec fn xattr_views(v: Seq<XattrEntry>) -> Seq<XattrView> {
    Seq::new(v.len(), |i: int| XattrView { name: v[i].name@, value: v[i].value@ })
}

/// The bytes `user.`.
pub const USER_PREFIX: [u8; 5] = [0x75, 0x73, 0x65, 0x72, 0x2e];

/// The extended attributes from `pos` on, their names in the user namespace. A distance
/// of at most eight to the next ends the list.
pub open spec fn xattrs_from(content: Seq<u8>, pos: int) -> Seq<XattrView>
    decreases content.len() - pos,
{
    let name_len = content[pos + 5] as int;
    let value_len = u16_at(content, pos + 6) as int;
    let next = u32_at(content, pos) as int;
    let name_at = pos + 8;
    let value_at = name_at + name_len;
    if pos + 8 > content.len() || value_at + value_len > content.len() {
        seq![]
    } else {
        let entry = XattrView {
            name: USER_PREFIX@ + content.subrange(name_at, value_at),
            value: content.subrange(value_at, value_at + value_len),
        };
        if next <= 8 || pos + next > content.len() {
            seq![entry]
        } else {
            seq![entry] + xattrs_from(content, pos + next)
        }
    }
}

/// The extended attributes in the contents of an attribute, which start with their total
/// length.
pub open spec fn xattrs_in(content: Seq<u8>) -> Seq<XattrView> {
    if content.len() < 4 {
        seq![]
    } else {
        xattrs_from(content, 4)
    }
}

/// Parses extended attributes.
pub fn parse_ea_entries(content: &[u8]) -> (r: Vec<XattrEntry>)
    ensures
        xattr_views(r@) == xattrs_in(content@),
{
    let mut entries: Vec<XattrEntry> = Vec::new();
    let total: usize = content.len();
    assert(xattr_views(entries@) =~= seq![]);
    if total < 4 {
        return entries;
    }
    let mut pos: usize = 4;
    assert(xattr_views(entries@) + xattrs_from(content@, 4) =~= xattrs_from(content@, 4));
    while total - pos >= 8
        invariant
            total == content@.len(),
            4 <= pos <= total,
            xattrs_from(content@, 4) == xattr_views(entries@) + xattrs_from(content@, pos as int),
        decreases total - pos,
    {
        let next: u32 = get_u32(content, pos);
        let name_len: usize = content[pos + 5] as usize;
        let value_len: usize = get_u16(content, pos + 6) as usize;
        let name_at: usize = pos + 8;
        if name_len + value_len > total - name_at {
            assert(xattr_views(entries@) + Seq::<XattrView>::empty() =~= xattr_views(entries@));
            return entries;
        }
        let value_at: usize = name_at + name_len;
        let mut name: Vec<u8> = vstd::slice::slice_to_vec(USER_PREFIX.as_slice());
        let mut rest = copy_range(content, name_at, value_at);
        name.append(&mut rest);
        let value = copy_range(content, value_at, value_at + value_len);
        let ghost before = xattr_views(entries@);
        let ghost entry = XattrView { name: name@, value: value@ };
        entries.push(XattrEntry { name, value });
        assert(xattr_views(entries@) =~= before.push(entry));
        if next <= 8 || next as u64 > (total - pos) as u64 {
            assert(before + seq![entry] =~= before.push(entry));
            return entries;
        }
        proof {
            let tail = xattrs_from(content@, pos + next);
            assert(before + (seq![entry] + tail) =~= before.push(entry) + tail);
        }
        pos = pos + next as usize;
    }
    assert(xattr_views(entries@) + Seq::<XattrView>::empty() =~= xattr_views(entries@));
    entries
}

} // verus!
