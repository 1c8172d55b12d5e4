//! On-disk structures of fixed layout.
use vstd::prelude::*;

use crate::bytes::{bytes_eq, copy_range, get_u16, get_u32, get_u64, u16_at, u32_at, u64_at};

verus! {

/// The four bytes `NTFS` of the boot sector.
pub const NTFS_MAGIC: [u8; 4] = [0x4e, 0x54, 0x46, 0x53];

/// The four bytes `FILE` that every record of the master file table starts with.
pub const MFT_MAGIC: [u8; 4] = [0x46, 0x49, 0x4c, 0x45];

pub const MFT_RECORD_DIRECTORY: u16 = 0x0002;

pub const ATTR_TYPE_STANDARD_INFO: u32 = 0x10;

pub const ATTR_TYPE_FILENAME: u32 = 0x30;

pub const ATTR_TYPE_DATA: u32 = 0x80;

pub const ATTR_TYPE_INDEX_ROOT: u32 = 0x90;

pub const ATTR_TYPE_END: u32 = 0xFFFF_FFFF;

/// The attribute bit of a directory.
pub const FILE_ATTRIBUTE_DIRECTORY: u32 = 0x1000_0000;

/// The boot sector.
#[derive(Debug, Clone, Copy, PartialEq, Eq, Structural)]
pub struct BootSector {
    pub bytes_per_sector: u16,
    pub sectors_per_cluster: u8,
    pub total_sectors: u64,
    pub mft_lcn: u64,
    pub mft_mirr_lcn: u64,
    pub clusters_per_mft_record: u32,
    pub clusters_per_index_buffer: u32,
    pub volume_serial: u32,
}

/// Bytes per cluster.
pub open spec fn cluster_bytes(bytes_per_sector: u16, sectors_per_cluster: u8) -> int {
    bytes_per_sector * sectors_per_cluster
}

/// The number of clusters that a signed size byte stands for: itself, or, where it is
/// negative, the power of two it negates in bytes. At least one. Nothing where a size in
/// bytes meets a cluster size of zero.
pub open spec fn clusters_of(size: u8, cluster: int) -> Option<int> {
    if size < 128 {
        Some(
            if size == 0 {
                1
            } else {
                size as int
            },
        )
    } else if 256 - size >= 32 {
        Some(1)
    } else if cluster <= 0 {
        None
    } else {
        let n = (1u32 << ((256 - size) as u32)) as int / cluster;
        Some(
            if n < 1 {
                1
            } else {
                n
            },
        )
    }
}

/// The boot sector in a buffer.
pub open spec fn boot_sector_in(buf: Seq<u8>) -> Option<BootSector> {
    let cluster = cluster_bytes(u16_at(buf, 11), buf[13]);
    if buf.len() < 84 || buf.subrange(3, 7) != NTFS_MAGIC@ {
        None
    } else {
        match (clusters_of(buf[64], cluster), clusters_of(buf[68], cluster)) {
            (Some(record), Some(index)) => Some(
                BootSector {
                    bytes_per_sector: u16_at(buf, 11),
                    sectors_per_cluster: buf[13],
                    total_sectors: u64_at(buf, 40),
                    mft_lcn: u64_at(buf, 48),
                    mft_mirr_lcn: u64_at(buf, 56),
                    clusters_per_mft_record: record as u32,
                    clusters_per_index_buffer: index as u32,
                    volume_serial: u32_at(buf, 72),
                },
            ),
            _ => None,
        }
    }
}

fn count_clusters(size: u8, cluster: u32) -> (r: Option<u32>)
    requires
        cluster <= 65535 * 255,
    ensures
        match r {
            Some(n) => clusters_of(size, cluster as int) == Some(n as int) && n * cluster
                <= u32::MAX,
            None => clusters_of(size, cluster as int) is None,
        },
{
    if size < 128 {
        let n: u32 = if size == 0 {
            1
        } else {
            size as u32
        };
        proof {
            assert(n * cluster <= 127 * (65535 * 255)) by (nonlinear_arith)
                requires
                    0 <= n <= 127,
                    0 <= cluster <= 65535 * 255,
            ;
        }
        return Some(n);
    }
    let exp: u32 = 256 - size as u32;
    if exp >= 32 {
        return Some(1);
    }
    if cluster == 0 {
        return None;
    }
    let bytes: u32 = 1u32 << exp;
    let n: u32 = bytes / cluster;
    proof {
        assert((bytes as int / cluster as int) * cluster <= bytes) by (nonlinear_arith)
            requires
                cluster > 0,
                bytes >= 0,
        ;
        assert(n == bytes as int / cluster as int);
        assert(n * cluster <= u32::MAX);
        assert(exp == (256 - size) as u32);
        assert(clusters_of(size, cluster as int) == Some(
            if n < 1 {
                1int
            } else {
                n as int
            },
        ));
    }
    Some(
        if n < 1 {
            1
        } else {
            n
        },
    )
}

impl BootSector {
    /// Bytes per cluster.
    pub open spec fn cluster(&self) -> int {
        cluster_bytes(self.bytes_per_sector, self.sectors_per_cluster)
    }

    /// Whether the sizes that follow from the sector fit in 32 bits.
    pub open spec fn sizes_fit(&self) -> bool {
        self.clusters_per_mft_record * self.cluster() <= u32::MAX && self.clusters_per_index_buffer
            * self.cluster() <= u32::MAX
    }

    /// Parses a boot sector.
    pub fn parse(buf: &[u8]) -> (r: Option<Self>)
        ensures
            r == boot_sector_in(buf@),
            r matches Some(b) ==> b.sizes_fit(),
    {
        if buf.len() < 84 {
            return None;
        }
        let magic = copy_range(buf, 3, 7);
        if !bytes_eq(magic.as_slice(), NTFS_MAGIC.as_slice()) {
            return None;
        }
        let bytes_per_sector: u16 = get_u16(buf, 11);
        let sectors_per_cluster: u8 = buf[13];
        proof {
            lemma_cluster_fits(bytes_per_sector, sectors_per_cluster);
        }
        let cluster: u32 = bytes_per_sector as u32 * sectors_per_cluster as u32;
        let record: u32 = match count_clusters(buf[64], cluster) {
            None => {
                return None;
            },
            Some(n) => n,
        };
        let index: u32 = match count_clusters(buf[68], cluster) {
            None => {
                return None;
            },
            Some(n) => n,
        };
        Some(
            BootSector {
                bytes_per_sector,
                sectors_per_cluster,
                total_sectors: get_u64(buf, 40),
                mft_lcn: get_u64(buf, 48),
                mft_mirr_lcn: get_u64(buf, 56),
                clusters_per_mft_record: record,
                clusters_per_index_buffer: index,
                volume_serial: get_u32(buf, 72),
            },
        )
    }
}

pub proof fn lemma_cluster_fits(bytes_per_sector: u16, sectors_per_cluster: u8)
    ensures
        0 <= bytes_per_sector * sectors_per_cluster <= 65535 * 255,
{
    assert(0 <= bytes_per_sector * sectors_per_cluster <= 65535 * 255) by (nonlinear_arith)
        requires
            0 <= bytes_per_sector <= 65535,
            0 <= sectors_per_cluster <= 255,
    ;
}

/// What the driver derives from the boot sector.
#[derive(Debug, Clone, Copy, PartialEq, Eq, Structural)]
pub struct NtfsInfo {
    pub bs: BootSector,
    pub cluster_size: u32,
    pub mft_record_size: u32,
    pub index_block_size: u32,
}

/// The sizes that follow from a boot sector.
pub open spec fn info_of(bs: BootSector) -> NtfsInfo {
    NtfsInfo {
        bs,
        cluster_size: bs.cluster() as u32,
        mft_record_size: (bs.clusters_per_mft_record * bs.cluster()) as u32,
        index_block_size: (bs.clusters_per_index_buffer * bs.cluster()) as u32,
    }
}

impl NtfsInfo {
    /// Derives the sizes from the boot sector.
    pub fn new(bs: BootSector) -> (r: Self)
        requires
            bs.sizes_fit(),
        ensures
            r == info_of(bs),
    {
        proof {
            lemma_cluster_fits(bs.bytes_per_sector, bs.sectors_per_cluster);
        }
        let cluster_size: u32 = bs.bytes_per_sector as u32 * bs.sectors_per_cluster as u32;
        proof {
            assert(0 <= bs.clusters_per_mft_record * cluster_size) by (nonlinear_arith);
            assert(0 <= bs.clusters_per_index_buffer * cluster_size) by (nonlinear_arith);
        }
        let mft_record_size: u32 = bs.clusters_per_mft_record * cluster_size;
        let index_block_size: u32 = bs.clusters_per_index_buffer * cluster_size;
        NtfsInfo { bs, cluster_size, mft_record_size, index_block_size }
    }
}

/// The header of a record of the master file table.
#[derive(Debug, Clone, Copy)]
pub struct MftRecordHeader {
    pub magic: [u8; 4],
    pub usa_offset: u16,
    pub usa_count: u16,
    pub flags: u16,
    pub first_attr_offset: u16,
}

/// Whether a header holds what a record says.
pub open spec fn header_holds(h: MftRecordHeader, buf: Seq<u8>) -> bool {
    &&& h.magic@ == buf.take(4)
    &&& h.usa_offset == u16_at(buf, 4)
    &&& h.usa_count == u16_at(buf, 6)
    &&& h.flags == u16_at(buf, 22)
    &&& h.first_attr_offset == u16_at(buf, 20)
}

/// Whether a buffer starts with the header of a record.
pub open spec fn is_mft_record(buf: Seq<u8>) -> bool {
    buf.len() >= 48 && buf.take(4) == MFT_MAGIC@
}

impl MftRecordHeader {
    /// Parses the header of a record.
    pub fn parse(buf: &[u8]) -> (r: Option<Self>)
        ensures
            match r {
                Some(h) => is_mft_record(buf@) && header_holds(h, buf@),
                None => !is_mft_record(buf@),
            },
    {
        if buf.len() < 48 {
            return None;
        }
        let magic = [buf[0], buf[1], buf[2], buf[3]];
        assert(magic@ =~= buf@.take(4));
        if !bytes_eq(magic.as_slice(), MFT_MAGIC.as_slice()) {
            return None;
        }
        Some(
            MftRecordHeader {
                magic,
                usa_offset: get_u16(buf, 4),
                usa_count: get_u16(buf, 6),
                flags: get_u16(buf, 22),
                first_attr_offset: get_u16(buf, 20),
            },
        )
    }

    /// The length of the header: where the first attribute starts.
    pub fn size(&self) -> (r: u16)
        ensures
            r == self.first_attr_offset,
    {
        self.first_attr_offset
    }

    /// Whether the record is a directory's.
    pub fn is_dir(&self) -> (r: bool)
        ensures
            r == (self.flags & MFT_RECORD_DIRECTORY != 0),
    {
        self.flags & MFT_RECORD_DIRECTORY != 0
    }
}

/// The header of an attribute.
#[derive(Debug, Clone, Copy, PartialEq, Eq, Structural)]
pub struct AttrHeader {
    pub attr_type: u32,
    pub attr_len: u32,
    pub non_resident: bool,
    pub name_len: u8,
    pub name_offset: u16,
    pub flags: u16,
    pub instance: u16,
    pub content_size: u32,
    pub data_runs_offset: u16,
    pub data_runs_length: u16,
}

/// The attribute header in a buffer.
pub open spec fn attr_header_in(buf: Seq<u8>) -> Option<AttrHeader> {
    if buf.len() < 24 {
        None
    } else {
        Some(
            AttrHeader {
                attr_type: u32_at(buf, 0),
                attr_len: u32_at(buf, 4),
                non_resident: buf[8] != 0,
                name_len: buf[9],
                name_offset: u16_at(buf, 10),
                flags: u16_at(buf, 12),
                instance: u16_at(buf, 14),
                content_size: u32_at(buf, 16),
                data_runs_offset: u16_at(buf, 20),
                data_runs_length: u16_at(buf, 22),
            },
        )
    }
}

impl AttrHeader {
    /// Parses the header of an attribute.
    pub fn parse(buf: &[u8]) -> (r: Option<Self>)
        ensures
            r == attr_header_in(buf@),
    {
        if buf.len() < 24 {
            return None;
        }
        Some(
            AttrHeader {
                attr_type: get_u32(buf, 0),
                attr_len: get_u32(buf, 4),
                non_resident: buf[8] != 0,
                name_len: buf[9],
                name_offset: get_u16(buf, 10),
                flags: get_u16(buf, 12),
                instance: get_u16(buf, 14),
                content_size: get_u32(buf, 16),
                data_runs_offset: get_u16(buf, 20),
                data_runs_length: get_u16(buf, 22),
            },
        )
    }
}

/// The standard information of a file.
#[derive(Debug, Clone, Copy, PartialEq, Eq, Structural)]
pub struct StandardInfoAttr {
    pub created: u64,
    pub modified: u64,
    pub mft_changed: u64,
    pub accessed: u64,
    pub file_attributes: u32,
}

/// The standard information in a buffer.
pub open spec fn standard_info_in(buf: Seq<u8>) -> Option<StandardInfoAttr> {
    if buf.len() < 68 {
        None
    } else {
        Some(
            StandardInfoAttr {
                created: u64_at(buf, 0),
                modified: u64_at(buf, 8),
                mft_changed: u64_at(buf, 16),
                accessed: u64_at(buf, 24),
                file_attributes: u32_at(buf, 32),
            },
        )
    }
}

impl StandardInfoAttr {
    /// Parses the standard information.
    pub fn parse(buf: &[u8]) -> (r: Option<Self>)
        ensures
            r == standard_info_in(buf@),
    {
        if buf.len() < 68 {
            return None;
        }
        Some(
            StandardInfoAttr {
                created: get_u64(buf, 0),
                modified: get_u64(buf, 8),
                mft_changed: get_u64(buf, 16),
                accessed: get_u64(buf, 24),
                file_attributes: get_u32(buf, 32),
            },
        )
    }

    /// Whether the attributes are a directory's.
    pub fn is_directory(&self) -> (r: bool)
        ensures
            r == (self.file_attributes & FILE_ATTRIBUTE_DIRECTORY != 0),
    {
        self.file_attributes & FILE_ATTRIBUTE_DIRECTORY != 0
    }
}

} // verus!
