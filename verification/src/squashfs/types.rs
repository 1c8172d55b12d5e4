//! On-disk structures: superblock, inodes, directories and extended attributes.
use vstd::prelude::*;

use crate::bytes::{copy_range, get_u16, get_u32, get_u64, u16_at, u32_at, u64_at};
use crate::text::{from_utf8_lossy, utf8_lossy};

verus! {

pub const SQUASHFS_MAGIC: u32 = 0x7371_7368;

pub const SUPERBLOCK_SIZE: usize = 96;

pub const COMPRESSION_LZ4: u16 = 2;

pub const COMPRESSION_ZSTD: u16 = 4;

/// The superblock.
#[derive(Debug, Clone, Copy, PartialEq, Eq, Structural)]
pub struct Superblock {
    pub magic: u32,
    pub block_size: u32,
    pub compression: u16,
    pub inode_count: u32,
    pub fragment_entry_count: u32,
    pub id_table_start: u64,
    pub xattr_id_table_start: u64,
    pub root_inode_offset: u32,
    pub bytes_used: u64,
}

/// The superblock in a buffer.
pub open spec fn squashfs_superblock_in(buf: Seq<u8>) -> Option<Superblock> {
    if buf.len() < 96 || u32_at(buf, 0) != SQUASHFS_MAGIC {
        None
    } else {
        Some(
            Superblock {
                magic: u32_at(buf, 0),
                block_size: u32_at(buf, 12),
                compression: u16_at(buf, 20),
                inode_count: u32_at(buf, 4),
                fragment_entry_count: u32_at(buf, 32),
                id_table_start: u64_at(buf, 48),
                xattr_id_table_start: u64_at(buf, 56),
                root_inode_offset: u32_at(buf, 68),
                bytes_used: u64_at(buf, 24),
            },
        )
    }
}

impl Superblock {
    /// Parses a superblock.
    pub fn parse(buf: &[u8]) -> (r: Option<Self>)
        ensures
            r == squashfs_superblock_in(buf@),
    {
        if buf.len() < 96 || get_u32(buf, 0) != SQUASHFS_MAGIC {
            return None;
        }
        Some(
            Superblock {
                magic: get_u32(buf, 0),
                block_size: get_u32(buf, 12),
                compression: get_u16(buf, 20),
                inode_count: get_u32(buf, 4),
                fragment_entry_count: get_u32(buf, 32),
                id_table_start: get_u64(buf, 48),
                xattr_id_table_start: get_u64(buf, 56),
                root_inode_offset: get_u32(buf, 68),
                bytes_used: get_u64(buf, 24),
            },
        )
    }
}

/// A directory.
#[derive(Debug, Clone, Copy, PartialEq, Eq, Structural)]
pub struct DirInode {
    pub nlink: u32,
    /// Length of the listing.
    pub file_size: u32,
    /// Metadata block of the listing.
    pub start_block: u32,
    pub parent_inode: u32,
}

/// Where the tail of a file lies among others.
#[derive(Debug, Clone, Copy, PartialEq, Eq, Structural)]
pub struct FragmentEntry {
    pub fragment_block_index: u32,
    pub fragment_offset: u32,
}

/// A file.
#[derive(Debug, Clone, Copy, PartialEq, Eq, Structural)]
pub struct FileInode {
    pub nlink: u32,
    pub file_size: u64,
    /// Data block of the contents.
    pub start_block: u64,
    pub fragments: Option<FragmentEntry>,
}

/// A symbolic link.
#[derive(Debug)]
pub struct SymlinkInode {
    pub nlink: u32,
    pub target: Vec<u8>,
}

/// An inode.
#[derive(Debug)]
pub enum Inode {
    Directory(DirInode),
    File(FileInode),
    Symlink(SymlinkInode),
}

/// What an inode says.
pub enum InodeView {
    Directory(DirInode),
    File(FileInode),
    Symlink(u32, Seq<u8>),
}

impl View for Inode {
    type V = InodeView;

    open spec fn view(&self) -> InodeView {
        match *self {
            Inode::Directory(d) => InodeView::Directory(d),
            Inode::File(f) => InodeView::File(f),
            Inode::Symlink(s) => InodeView::Symlink(s.nlink, s.target@),
        }
    }
}

/// Whether a file inode at `off` names a fragment.
pub open spec fn has_fragment(table: Seq<u8>, off: int) -> bool {
    u32_at(table, off + 16) != 0xFFFF_FFFF
}

/// Where the data block number of a file inode at `off` is: after the fragment.
pub open spec fn block_field(table: Seq<u8>, off: int) -> int {
    off + 16 + (if has_fragment(table, off) {
        8int
    } else {
        4
    })
}

/// The inode at `off` of the inode table, and how many bytes it takes from there. Nothing
/// where it is cut off or of another type.
pub open spec fn inode_at(table: Seq<u8>, off: int) -> Option<(InodeView, int)> {
    let kind = table[off];
    if off + 2 > table.len() {
        None
    } else if kind == 1 {
        if off + 20 > table.len() {
            None
        } else {
            Some(
                (
                    InodeView::Directory(
                        DirInode {
                            nlink: u32_at(table, off + 4),
                            file_size: u32_at(table, off + 8),
                            start_block: u32_at(table, off + 12),
                            parent_inode: u32_at(table, off + 16),
                        },
                    ),
                    20,
                ),
            )
        }
    } else if kind == 2 {
        let start = block_field(table, off);
        if off + 20 > table.len() || (has_fragment(table, off) && off + 24 > table.len()) {
            None
        } else {
            Some(
                (
                    InodeView::File(
                        FileInode {
                            nlink: u32_at(table, off + 4),
                            file_size: u64_at(table, off + 8),
                            start_block: if start + 4 <= table.len() {
                                u32_at(table, start) as u64
                            } else {
                                0
                            },
                            fragments: if has_fragment(table, off) {
                                Some(
                                    FragmentEntry {
                                        fragment_block_index: u32_at(table, off + 16),
                                        fragment_offset: u32_at(table, off + 20),
                                    },
                                )
                            } else {
                                None
                            },
                        },
                    ),
                    start + 4 - off,
                ),
            )
        }
    } else if kind == 3 {
        let n = u32_at(table, off + 6) as int;
        if off + 10 + n > table.len() {
            None
        } else {
            Some(
                (
                    InodeView::Symlink(
                        u32_at(table, off + 4),
                        table.subrange(off + 10, off + 10 + n),
                    ),
                    10 + n,
                ),
            )
        }
    } else {
        None
    }
}

/// Parses the inode at `offset` of the inode table. Returns how many bytes it takes too.
pub fn parse_inode(table: &[u8], offset: u32) -> (r: Option<(Inode, usize)>)
    ensures
        match r {
            Some(v) => inode_at(table@, offset as int) == Some((v.0@, v.1 as int)),
            None => inode_at(table@, offset as int) is None,
        },
{
    let total: usize = table.len();
    let off: usize = offset as usize;
    if off > total || total - off < 2 {
        return None;
    }
    let left: usize = total - off;
    let kind: u8 = table[off];
    if kind == 1 {
        if left < 20 {
            return None;
        }
        Some(
            (
                Inode::Directory(
                    DirInode {
                        nlink: get_u32(table, off + 4),
                        file_size: get_u32(table, off + 8),
                        start_block: get_u32(table, off + 12),
                        parent_inode: get_u32(table, off + 16),
                    },
                ),
                20,
            ),
        )
    } else if kind == 2 {
        if left < 20 {
            return None;
        }
        let first: u32 = get_u32(table, off + 16);
        let fragments = if first != 0xFFFF_FFFF {
            if left < 24 {
                return None;
            }
            Some(
                FragmentEntry {
                    fragment_block_index: first,
                    fragment_offset: get_u32(table, off + 20),
                },
            )
        } else {
            None
        };
        let skip: usize = if first != 0xFFFF_FFFF {
            24
        } else {
            20
        };
        let start_block: u64 = if left >= skip + 4 {
            get_u32(table, off + skip) as u64
        } else {
            0
        };
        Some(
            (
                Inode::File(
                    FileInode {
                        nlink: get_u32(table, off + 4),
                        file_size: get_u64(table, off + 8),
                        start_block,
                        fragments,
                    },
                ),
                skip + 4,
            ),
        )
    } else if kind == 3 {
        if left < 10 {
            return None;
        }
        let n: u32 = get_u32(table, off + 6);
        if n as u64 > (left - 10) as u64 {
            return None;
        }
        let target = copy_range(table, off + 10, off + 10 + n as usize);
        Some(
            (
                Inode::Symlink(SymlinkInode { nlink: get_u32(table, off + 4), target }),
                10 + n as usize,
            ),
        )
    } else {
        None
    }
}

/// An entry of a directory.
#[derive(Debug)]
pub struct ParsedDirEntry {
    pub name: String,
    pub inode_offset: u32,
    pub entry_type: u16,
}

/// What an entry of a directory says.
pub struct DirEntryView {
    pub name: Seq<char>,
    pub inode_offset: u32,
    pub entry_type: u16,
}

impl View for ParsedDirEntry {
    type V = DirEntryView;

    open spec fn view(&self) -> DirEntryView {
        DirEntryView {
            name: self.name@,
            inode_offset: self.inode_offset,
            entry_type: self.entry_type,
        }
    }
}

/// What the entries in a list say.
pub open spec fn dir_entry_views(v: Seq<ParsedDirEntry>) -> Seq<DirEntryView> {
    Seq::new(v.len(), |i: int| v[i]@)
}

/// Where the zero byte after a name is, or `end` where there is none.
pub open spec fn name_end(data: Seq<u8>, i: int, end: int) -> int
    decreases data.len() - i,
{
    if i >= data.len() {
        end
    } else if data[i] == 0 {
        i
    } else {
        name_end(data, i + 1, end)
    }
}

pub proof fn lemma_name_end(data: Seq<u8>, i: int, end: int)
    requires
        0 <= i <= end <= data.len(),
    ensures
        i <= name_end(data, i, end) <= data.len(),
    decreases data.len() - i,
{
    lemma_name_end_from(data, i, i, end);
}

proof fn lemma_name_end_from(data: Seq<u8>, first: int, i: int, end: int)
    requires
        0 <= first <= i <= data.len(),
        first <= end <= data.len(),
    ensures
        first <= name_end(data, i, end) <= data.len(),
    decreases data.len() - i,
{
    if i < data.len() && data[i] != 0 {
        lemma_name_end_from(data, first, i + 1, end);
    }
}

/// The entries of a group from `at` to `end`, all of the same inode: a type and a name
/// each.
pub open spec fn group_entries(data: Seq<u8>, at: int, end: int, inode: u32) -> Seq<DirEntryView>
    decreases data.len() + 1 - at,
{
    if at < 0 || end > data.len() || at + 2 > end {
        seq![]
    } else {
        let stop = name_end(data, at + 2, end);
        proof {
            lemma_name_end(data, at + 2, end);
        }
        seq![
            DirEntryView {
                name: utf8_lossy(data.subrange(at + 2, stop)),
                inode_offset: inode,
                entry_type: u16_at(data, at),
            },
        ] + group_entries(data, stop + 1, end, inode)
    }
}

/// The entries from the group at `at` on. A group starts with the length of its entries
/// less one, and the inode they share.
pub open spec fn dir_entries_from(data: Seq<u8>, at: int) -> Seq<DirEntryView>
    decreases data.len() - at,
{
    if at < 0 || at + 8 >= data.len() {
        seq![]
    } else {
        let next = at + 8 + u16_at(data, at) + 1;
        let end = if next < data.len() {
            next
        } else {
            data.len() as int
        };
        group_entries(data, at + 8, end, u32_at(data, at + 4)) + (if next < data.len() {
            dir_entries_from(data, next)
        } else {
            seq![]
        })
    }
}

fn read_group_entries(
    data: &[u8],
    from: usize,
    end: usize,
    inode: u32,
    entries: &mut Vec<ParsedDirEntry>,
)
    requires
        from <= end <= data@.len(),
    ensures
        dir_entry_views(final(entries)@) == dir_entry_views(old(entries)@) + group_entries(
            data@,
            from as int,
            end as int,
            inode,
        ),
{
    let ghost start = dir_entry_views(entries@);
    let total: usize = data.len();
    let mut at: usize = from;
    let mut past: bool = false;
    while !past && at <= end && end - at >= 2
        invariant
            total == data@.len(),
            end <= total,
            start == dir_entry_views(old(entries)@),
            past ==> at == total,
            start + group_entries(data@, from as int, end as int, inode) == dir_entry_views(
                entries@,
            ) + (if past {
                seq![]
            } else {
                group_entries(data@, at as int, end as int, inode)
            }),
        decreases total - at + (if past { 0int } else { 1 }),
    {
        let kind: u16 = get_u16(data, at);
        let first: usize = at + 2;
        let mut stop: usize = first;
        while stop < total && data[stop] != 0
            invariant
                total == data@.len(),
                first <= stop <= total,
                name_end(data@, first as int, end as int) == name_end(
                    data@,
                    stop as int,
                    end as int,
                ),
            decreases total - stop,
        {
            stop = stop + 1;
        }
        if stop == total {
            stop = end;
        }
        let bytes = copy_range(data, first, stop);
        let name = from_utf8_lossy(bytes.as_slice());
        let ghost before = dir_entry_views(entries@);
        let entry = ParsedDirEntry { name, inode_offset: inode, entry_type: kind };
        let ghost view = entry@;
        entries.push(entry);
        proof {
            lemma_name_end(data@, first as int, end as int);
            assert(dir_entry_views(entries@) =~= before.push(view));
            let rest = group_entries(data@, stop + 1, end as int, inode);
            assert(before + (seq![view] + rest) =~= before.push(view) + rest);
        }
        if stop == total {
            assert(group_entries(data@, stop + 1, end as int, inode) =~= seq![]);
            past = true;
            at = total;
        } else {
            at = stop + 1;
        }
    }
    proof {
        let none = Seq::<DirEntryView>::empty();
        assert(dir_entry_views(entries@) + none =~= dir_entry_views(entries@));
    }
}

/// Parses a directory listing.
pub fn parse_dir_entries(data: &[u8]) -> (r: Vec<ParsedDirEntry>)
    ensures
        dir_entry_views(r@) == dir_entries_from(data@, 0),
{
    let mut entries: Vec<ParsedDirEntry> = Vec::new();
    let total: usize = data.len();
    let mut at: usize = 0;
    assert(dir_entry_views(entries@) + dir_entries_from(data@, 0) =~= dir_entries_from(data@, 0));
    while total - at > 8
        invariant
            total == data@.len(),
            at <= total,
            dir_entries_from(data@, 0) == dir_entry_views(entries@) + dir_entries_from(
                data@,
                at as int,
            ),
        decreases total - at,
    {
        let count: usize = get_u16(data, at) as usize + 1;
        let last: bool = count >= total - at - 8;
        let end: usize = if last {
            total
        } else {
            at + 8 + count
        };
        let ghost before = dir_entry_views(entries@);
        read_group_entries(data, at + 8, end, get_u32(data, at + 4), &mut entries);
        proof {
            let group = group_entries(data@, at + 8, end as int, u32_at(data@, at + 4));
            let rest = if last {
                Seq::<DirEntryView>::empty()
            } else {
                dir_entries_from(data@, end as int)
            };
            assert(before + (group + rest) =~= dir_entry_views(entries@) + rest);
            assert(dir_entries_from(data@, total as int) =~= seq![]);
        }
        at = end;
    }
    assert(dir_entry_views(entries@) + Seq::<DirEntryView>::empty() =~= dir_entry_views(entries@));
    entries
}

} // verus!
