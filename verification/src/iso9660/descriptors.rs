//! Volume descriptors and the boot catalog.
use vstd::prelude::*;

use crate::block::{BlockDevice, bytes_at, read_exact};
use crate::bytes::{bytes_eq, copy_range, get_u16, get_u32, u16_at, u32_at};
use crate::error::{Error, Result};

verus! {

/// Size of a logical sector in bytes.
pub const SECTOR_SIZE: usize = 2048;

/// Sector of the primary volume descriptor.
pub const PVD_SECTOR: u64 = 16;

/// Sector of the Joliet volume descriptor.
pub const SVD_SECTOR: u64 = 17;

/// The standard identifier `CD001`.
pub const STANDARD_ID: [u8; 5] = [0x43, 0x44, 0x30, 0x30, 0x31];

/// The escape sequence `%/@` that marks two-byte characters.
pub const JOLIET_ESCAPE: [u8; 3] = [0x25, 0x2f, 0x40];

/// A volume descriptor: the fields that say what the volume is and where its root is.
pub struct Pvd {
    pub desc_type: u8,
    pub std_identifier: [u8; 5],
    pub desc_version: u8,
    pub volume_id: Vec<u8>,
    pub logical_block_size: [u8; 4],
    pub root_dir_record: Vec<u8>,
}

/// Whether a descriptor holds what a sector says.
pub open spec fn descriptor_of(p: Pvd, sector: Seq<u8>) -> bool {
    &&& p.desc_type == sector[0]
    &&& p.std_identifier@ == sector.subrange(1, 6)
    &&& p.desc_version == sector[6]
    &&& p.volume_id@ == sector.subrange(40, 72)
    &&& p.logical_block_size@ == sector.subrange(128, 132)
    &&& p.root_dir_record@ == sector.subrange(156, 190)
}

/// Whether a sector is a descriptor of the given type.
pub open spec fn is_descriptor(sector: Seq<u8>, kind: u8) -> bool {
    sector[0] == kind && sector.subrange(1, 6) == STANDARD_ID@ && sector[6] == 1
}

impl Pvd {
    /// Takes the fields out of a sector.
    pub fn parse(sector: &[u8]) -> (r: Self)
        requires
            sector@.len() >= 190,
        ensures
            descriptor_of(r, sector@),
    {
        let p = Pvd {
            desc_type: sector[0],
            std_identifier: [sector[1], sector[2], sector[3], sector[4], sector[5]],
            desc_version: sector[6],
            volume_id: copy_range(sector, 40, 72),
            logical_block_size: [sector[128], sector[129], sector[130], sector[131]],
            root_dir_record: copy_range(sector, 156, 190),
        };
        assert(p.std_identifier@ =~= sector@.subrange(1, 6));
        assert(p.logical_block_size@ =~= sector@.subrange(128, 132));
        p
    }

    /// Whether this is a primary volume descriptor.
    pub fn is_valid(&self) -> (r: bool)
        ensures
            r == (self.desc_type == 1 && self.std_identifier@ == STANDARD_ID@ && self.desc_version
                == 1),
    {
        self.desc_type == 0x01 && bytes_eq(self.std_identifier.as_slice(), STANDARD_ID.as_slice())
            && self.desc_version == 0x01
    }

    /// The logical block size.
    pub fn block_size(&self) -> (r: u16)
        ensures
            r == u16_at(self.logical_block_size@, 0),
    {
        get_u16(self.logical_block_size.as_slice(), 0)
    }
}

/// The sector of the primary descriptor, refused where it is none.
pub open spec fn primary_of<D: BlockDevice>(device: D) -> core::result::Result<Seq<u8>, Error> {
    match bytes_at(device, PVD_SECTOR * 2048, 2048) {
        Err(e) => Err(e),
        Ok(sector) => if is_descriptor(sector, 1) {
            Ok(sector)
        } else {
            Err(Error::InvalidArgument)
        },
    }
}

/// Reads and validates the primary volume descriptor.
pub fn read_pvd<D: BlockDevice>(device: &D) -> (r: Result<Pvd>)
    ensures
        match r {
            Ok(p) => primary_of(*device) matches Ok(sector) && sector.len() == 2048
                && descriptor_of(p, sector),
            Err(e) => primary_of(*device) == Err::<Seq<u8>, Error>(e),
        },
{
    let sector = read_exact(device, PVD_SECTOR * 2048, 2048)?;
    let pvd = Pvd::parse(sector.as_slice());
    if !pvd.is_valid() {
        return Err(Error::InvalidArgument);
    }
    Ok(pvd)
}

/// The sector of the Joliet descriptor, if there is one.
pub open spec fn joliet_of<D: BlockDevice>(device: D) -> Option<Seq<u8>> {
    match bytes_at(device, SVD_SECTOR * 2048, 2048) {
        Err(_) => None,
        Ok(sector) => if is_descriptor(sector, 2) && sector.subrange(88, 91) == JOLIET_ESCAPE@ {
            Some(sector)
        } else {
            None
        },
    }
}

/// Reads the Joliet volume descriptor, if there is one.
pub fn read_svd<D: BlockDevice>(device: &D) -> (r: Option<Pvd>)
    ensures
        match r {
            Some(p) => joliet_of(*device) matches Some(sector) && sector.len() == 2048
                && descriptor_of(p, sector),
            None => joliet_of(*device) is None,
        },
{
    let sector = match read_exact(device, SVD_SECTOR * 2048, 2048) {
        Err(_) => {
            return None;
        },
        Ok(s) => s,
    };
    let pvd = Pvd::parse(sector.as_slice());
    if pvd.desc_type != 0x02 || !bytes_eq(pvd.std_identifier.as_slice(), STANDARD_ID.as_slice())
        || pvd.desc_version != 0x01 {
        return None;
    }
    let escape = copy_range(sector.as_slice(), 88, 91);
    if !bytes_eq(escape.as_slice(), JOLIET_ESCAPE.as_slice()) {
        return None;
    }
    Some(pvd)
}

/// Where a label ends: at the first zero or space.
pub open spec fn label_end(raw: Seq<u8>, i: int) -> int
    decreases raw.len() - i,
{
    if 0 <= i < raw.len() && raw[i] != 0 && raw[i] != 32 {
        label_end(raw, i + 1)
    } else {
        i
    }
}

/// A byte of a label as a character; what cannot be printed is an underscore.
pub open spec fn label_char(b: u8) -> char {
    if 33 <= b <= 126 {
        b as char
    } else {
        '_'
    }
}

/// The label in a volume identifier.
pub open spec fn label_text(raw: Seq<u8>) -> Seq<char> {
    Seq::new(label_end(raw, 0) as nat, |i: int| label_char(raw[i]))
}

/// The volume label.
pub fn pvd_volume_label(pvd: &Pvd) -> (r: String)
    ensures
        r@ == label_text(pvd.volume_id@),
{
    let raw = &pvd.volume_id;
    let mut label = String::new();
    let mut i: usize = 0;
    while i < raw.len() && raw[i] != 0 && raw[i] != 32
        invariant
            raw@ == pvd.volume_id@,
            i <= raw@.len(),
            label_end(raw@, 0) == label_end(raw@, i as int),
            label@.len() == i,
            forall|k: int| #![trigger label@[k]] 0 <= k < i ==> label@[k] == label_char(raw@[k]),
        decreases raw@.len() - i,
    {
        let b: u8 = raw[i];
        if 33 <= b && b <= 126 {
            label.push(b as char);
        } else {
            label.push('_');
        }
        i = i + 1;
    }
    assert(label@ =~= label_text(raw@));
    label
}

/// An entry of the boot catalog.
#[derive(Debug, Clone, Copy, PartialEq, Eq, Structural)]
pub struct BootEntry {
    pub bootable: bool,
    /// 0 for no emulation, 1 to 4 for an emulated disk.
    pub media_type: u8,
    pub load_segment: u16,
    pub sector_count: u16,
    /// First sector of the boot image.
    pub load_rba: u32,
}

/// The boot entry at `pos`.
pub open spec fn boot_entry_at(sector: Seq<u8>, pos: int) -> BootEntry {
    BootEntry {
        bootable: sector[pos] == 0x88,
        media_type: sector[pos + 1],
        load_segment: u16_at(sector, pos + 2),
        sector_count: u16_at(sector, pos + 6),
        load_rba: u32_at(sector, pos + 8),
    }
}

/// Whether an entry of the catalog is no boot entry: unused or a section header.
pub open spec fn skipped_entry(kind: u8) -> bool {
    kind == 0 || kind == 0x90 || kind == 0x91
}

/// The boot entries from `pos` on.
pub open spec fn boot_entries_from(sector: Seq<u8>, pos: int) -> Seq<BootEntry>
    decreases sector.len() - pos,
{
    if pos + 32 > sector.len() {
        seq![]
    } else if skipped_entry(sector[pos]) {
        boot_entries_from(sector, pos + 32)
    } else {
        seq![boot_entry_at(sector, pos)] + boot_entries_from(sector, pos + 32)
    }
}

/// The boot entries of a catalog, none where its validation entry is missing.
pub open spec fn boot_entries_in(sector: Seq<u8>) -> Seq<BootEntry> {
    if sector.len() < 64 || sector[0] != 1 || sector[30] != 0x55 || sector[31] != 0xaa {
        seq![]
    } else {
        boot_entries_from(sector, 32)
    }
}

/// Parses a boot catalog.
pub fn parse_boot_catalog(sector: &[u8]) -> (r: Vec<BootEntry>)
    ensures
        r@ == boot_entries_in(sector@),
{
    let mut entries: Vec<BootEntry> = Vec::new();
    let total: usize = sector.len();
    assert(entries@ =~= seq![]);
    if total < 64 || sector[0] != 0x01 || sector[30] != 0x55 || sector[31] != 0xAA {
        return entries;
    }
    let mut pos: usize = 32;
    while total - pos >= 32
        invariant
            pos <= total,
            total == sector@.len(),
            boot_entries_from(sector@, 32) == entries@ + boot_entries_from(sector@, pos as int),
        decreases total - pos,
    {
        let kind: u8 = sector[pos];
        if !(kind == 0 || kind == 0x90 || kind == 0x91) {
            let ghost before = entries@;
            entries.push(
                BootEntry {
                    bootable: kind == 0x88,
                    media_type: sector[pos + 1],
                    load_segment: get_u16(sector, pos + 2),
                    sector_count: get_u16(sector, pos + 6),
                    load_rba: get_u32(sector, pos + 8),
                },
            );
            proof {
                let rest = boot_entries_from(sector@, pos + 32);
                assert(before + (seq![boot_entry_at(sector@, pos as int)] + rest) =~= entries@
                    + rest);
            }
        }
        pos = pos + 32;
    }
    assert(entries@ + Seq::<BootEntry>::empty() =~= entries@);
    entries
}

/// Where the boot record among the descriptors from sector `s` on says that the catalog
/// is. A terminator, a failed read or the end of the sequence ends the search.
pub open spec fn catalog_from<D: BlockDevice>(device: D, s: int) -> Option<u32>
    decreases 48 - s,
{
    if s >= 48 {
        None
    } else {
        match bytes_at(device, s * 2048, 2048) {
            Err(_) => None,
            Ok(sector) => if sector[0] == 0xff {
                None
            } else if is_descriptor(sector, 0) && u32_at(sector, 71) > 0 {
                Some(u32_at(sector, 71))
            } else {
                catalog_from(device, s + 1)
            },
        }
    }
}

/// Finds the boot catalog.
pub fn find_boot_catalog_lba<D: BlockDevice>(device: &D) -> (r: Option<u32>)
    ensures
        r == catalog_from(*device, 16),
{
    let mut s: u64 = PVD_SECTOR;
    while s < 48
        invariant
            16 <= s <= 48,
            catalog_from(*device, 16) == catalog_from(*device, s as int),
        decreases 48 - s,
    {
        let sector = match read_exact(device, s * 2048, 2048) {
            Err(_) => {
                return None;
            },
            Ok(b) => b,
        };
        if sector[0] == 0xFF {
            return None;
        }
        let id = copy_range(sector.as_slice(), 1, 6);
        if sector[0] == 0x00 && bytes_eq(id.as_slice(), STANDARD_ID.as_slice()) && sector[6]
            == 0x01 {
            let lba: u32 = get_u32(sector.as_slice(), 71);
            if lba > 0 {
                return Some(lba);
            }
        }
        s = s + 1;
    }
    None
}

/// Reads the boot catalog at a sector.
pub fn read_boot_catalog<D: BlockDevice>(device: &D, catalog_lba: u32) -> (r: Result<
    Vec<BootEntry>,
>)
    ensures
        match r {
            Ok(v) => bytes_at(*device, catalog_lba * 2048, 2048) matches Ok(sector) && v@
                == boot_entries_in(sector),
            Err(e) => bytes_at(*device, catalog_lba * 2048, 2048) == Err::<Seq<u8>, Error>(e),
        },
{
    let sector = read_exact(device, catalog_lba as u64 * 2048, 2048)?;
    Ok(parse_boot_catalog(sector.as_slice()))
}

} // verus!
