//! Zones of the disk, and how each is mounted.
use vstd::prelude::*;

verus! {

pub const MOUNT_READ_ONLY: u32 = 1;

pub const MOUNT_EXECUTABLE: u32 = 2;

pub const MOUNT_USER_DATA: u32 = 4;

/// Every flag of a mount.
pub const MOUNT_KNOWN_FLAGS: u32 = MOUNT_READ_ONLY | MOUNT_EXECUTABLE | MOUNT_USER_DATA;

/// Where users have their home.
pub const DEFAULT_USER_ROOT: &'static str = "/data/users/guest";

pub const DEMO_DISK_SYSTEM_BLOCKS: u64 = 256;

pub const DEMO_DISK_APPS_BLOCKS: u64 = 512;

pub const DEMO_DISK_DATA_BLOCKS: u64 = 256;

pub const DEMO_DISK_TEMP_BLOCKS: u64 = 128;

pub const DEMO_DISK_SYSTEM_START_BLOCK: u64 = 2048;

pub const DEMO_DISK_APPS_START_BLOCK: u64 = DEMO_DISK_SYSTEM_START_BLOCK + DEMO_DISK_SYSTEM_BLOCKS;

pub const DEMO_DISK_DATA_START_BLOCK: u64 = DEMO_DISK_APPS_START_BLOCK + DEMO_DISK_APPS_BLOCKS;

pub const DEMO_DISK_TOTAL_BLOCKS: u64 = DEMO_DISK_DATA_START_BLOCK + DEMO_DISK_DATA_BLOCKS;

pub const DEMO_MBR_SYSTEM_PARTITION_TYPE: u8 = 0xa1;

pub const DEMO_MBR_APPS_PARTITION_TYPE: u8 = 0xa2;

pub const DEMO_MBR_DATA_PARTITION_TYPE: u8 = 0xa3;

/// A zone of the disk.
#[derive(Debug, Clone, Copy, PartialEq, Eq, PartialOrd, Ord, Structural)]
pub enum StorageZone {
    System,
    Apps,
    Data,
}

/// The zones, in the order of their partitions.
pub fn default_zones() -> (r: [StorageZone; 3])
    ensures
        r@ == seq![StorageZone::System, StorageZone::Apps, StorageZone::Data],
{
    let zones = [StorageZone::System, StorageZone::Apps, StorageZone::Data];
    assert(zones@ =~= seq![StorageZone::System, StorageZone::Apps, StorageZone::Data]);
    zones
}

/// Where the blocks of a zone lie: the first, and how many.
pub open spec fn zone_range(zone: StorageZone) -> (u64, u64) {
    match zone {
        StorageZone::System => (DEMO_DISK_SYSTEM_START_BLOCK, DEMO_DISK_SYSTEM_BLOCKS),
        StorageZone::Apps => (DEMO_DISK_APPS_START_BLOCK, DEMO_DISK_APPS_BLOCKS),
        StorageZone::Data => (DEMO_DISK_DATA_START_BLOCK, DEMO_DISK_DATA_BLOCKS),
    }
}

/// The flags that a zone is mounted with.
pub open spec fn zone_flags(zone: StorageZone) -> u32 {
    match zone {
        StorageZone::System => MOUNT_READ_ONLY,
        StorageZone::Apps => MOUNT_READ_ONLY | MOUNT_EXECUTABLE,
        StorageZone::Data => MOUNT_USER_DATA,
    }
}

/// The number of the partition of a zone.
pub open spec fn zone_slot(zone: StorageZone) -> usize {
    match zone {
        StorageZone::System => 0,
        StorageZone::Apps => 1,
        StorageZone::Data => 2,
    }
}

impl StorageZone {
    /// Where the zone is mounted.
    pub fn zone_root(self) -> (r: &'static str)
        ensures
            r@ == match self {
                StorageZone::System => "/system"@,
                StorageZone::Apps => "/apps"@,
                StorageZone::Data => "/data"@,
            },
    {
        match self {
            StorageZone::System => "/system",
            StorageZone::Apps => "/apps",
            StorageZone::Data => "/data",
        }
    }

    /// The name of the filesystem of the zone.
    pub fn fs_name(self) -> (r: &'static str)
        ensures
            r@ == match self {
                StorageZone::System => "simplefs-system"@,
                StorageZone::Apps => "simplefs-apps"@,
                StorageZone::Data => "simplefs-data"@,
            },
    {
        match self {
            StorageZone::System => "simplefs-system",
            StorageZone::Apps => "simplefs-apps",
            StorageZone::Data => "simplefs-data",
        }
    }

    /// The label of the volume of the zone.
    pub fn volume_label(self) -> (r: &'static str)
        ensures
            r@ == match self {
                StorageZone::System => "simplefs:system"@,
                StorageZone::Apps => "simplefs:apps"@,
                StorageZone::Data => "simplefs:data"@,
            },
    {
        match self {
            StorageZone::System => "simplefs:system",
            StorageZone::Apps => "simplefs:apps",
            StorageZone::Data => "simplefs:data",
        }
    }

    /// The device that the zone is mounted from.
    pub fn device(self) -> (r: &'static str)
        ensures
            r@ == match self {
                StorageZone::System => "/dev/adastra-system"@,
                StorageZone::Apps => "/dev/adastra-apps"@,
                StorageZone::Data => "/dev/adastra-data"@,
            },
    {
        match self {
            StorageZone::System => "/dev/adastra-system",
            StorageZone::Apps => "/dev/adastra-apps",
            StorageZone::Data => "/dev/adastra-data",
        }
    }

    /// The name of the partition on the boot disk.
    pub fn boot_disk_device_name(self) -> (r: &'static str)
        ensures
            r@ == match self {
                StorageZone::System => "ata0.system"@,
                StorageZone::Apps => "ata0.apps"@,
                StorageZone::Data => "ata0.data"@,
            },
    {
        match self {
            StorageZone::System => "ata0.system",
            StorageZone::Apps => "ata0.apps",
            StorageZone::Data => "ata0.data",
        }
    }

    /// The flags that the zone is mounted with.
    pub fn flags(self) -> (r: u32)
        ensures
            r == zone_flags(self),
    {
        match self {
            StorageZone::System => MOUNT_READ_ONLY,
            StorageZone::Apps => MOUNT_READ_ONLY | MOUNT_EXECUTABLE,
            StorageZone::Data => MOUNT_USER_DATA,
        }
    }

    /// Whether names differ by the case of their letters.
    pub fn case_sensitive(self) -> (r: bool)
        ensures
            r == (self != StorageZone::Data),
    {
        match self {
            StorageZone::System | StorageZone::Apps => true,
            StorageZone::Data => false,
        }
    }

    /// Whether the device of the zone refuses writes.
    pub fn device_read_only(self) -> (r: bool)
        ensures
            r == (self != StorageZone::Data),
    {
        match self {
            StorageZone::System | StorageZone::Apps => true,
            StorageZone::Data => false,
        }
    }

    /// The number of the partition of the zone.
    pub fn partition_slot(self) -> (r: usize)
        ensures
            r == zone_slot(self),
    {
        match self {
            StorageZone::System => 0,
            StorageZone::Apps => 1,
            StorageZone::Data => 2,
        }
    }

    /// The type of the partition of the zone.
    pub fn mbr_partition_type(self) -> (r: u8)
        ensures
            r == match self {
                StorageZone::System => DEMO_MBR_SYSTEM_PARTITION_TYPE,
                StorageZone::Apps => DEMO_MBR_APPS_PARTITION_TYPE,
                StorageZone::Data => DEMO_MBR_DATA_PARTITION_TYPE,
            },
    {
        match self {
            StorageZone::System => DEMO_MBR_SYSTEM_PARTITION_TYPE,
            StorageZone::Apps => DEMO_MBR_APPS_PARTITION_TYPE,
            StorageZone::Data => DEMO_MBR_DATA_PARTITION_TYPE,
        }
    }

    /// Where the blocks of the zone lie: the first, and how many.
    pub fn disk_range(self) -> (r: (u64, u64))
        ensures
            r == zone_range(self),
    {
        match self {
            StorageZone::System => (DEMO_DISK_SYSTEM_START_BLOCK, DEMO_DISK_SYSTEM_BLOCKS),
            StorageZone::Apps => (DEMO_DISK_APPS_START_BLOCK, DEMO_DISK_APPS_BLOCKS),
            StorageZone::Data => (DEMO_DISK_DATA_START_BLOCK, DEMO_DISK_DATA_BLOCKS),
        }
    }
}

/// Zones lie on the disk, and two zones share no block and no partition.
pub proof fn law_zones_are_apart(a: StorageZone, b: StorageZone)
    ensures
        zone_range(a).0 + zone_range(a).1 <= DEMO_DISK_TOTAL_BLOCKS,
        zone_slot(a) < 4,
        a != b ==> zone_slot(a) != zone_slot(b) && (zone_range(a).0 + zone_range(a).1
            <= zone_range(b).0 || zone_range(b).0 + zone_range(b).1 <= zone_range(a).0),
{
}

/// A zone is mounted with known flags only, and one whose device refuses writes is mounted
/// read-only.
pub proof fn law_flags_are_known(zone: StorageZone)
    ensures
        zone_flags(zone) & MOUNT_KNOWN_FLAGS == zone_flags(zone),
        zone_flags(zone) & MOUNT_READ_ONLY == MOUNT_READ_ONLY <==> zone != StorageZone::Data,
{
    assert(1u32 & (1u32 | 2 | 4) == 1 && (1u32 | 2) & (1u32 | 2 | 4) == (1u32 | 2) && 4u32 & (1u32
        | 2 | 4) == 4 && 1u32 & 1 == 1 && (1u32 | 2) & 1 == 1 && 4u32 & 1 == 0) by (bit_vector);
}

/// The zones lie one behind the other from block 2048 on, in the order of their partitions:
/// the system, the applications, the data.
pub proof fn law_zones_follow_one_another()
    ensures
        zone_slot(StorageZone::System) == 0 && zone_slot(StorageZone::Apps) == 1 && zone_slot(
            StorageZone::Data,
        ) == 2,
        zone_range(StorageZone::System).0 == 2048,
        zone_range(StorageZone::Apps).0 == zone_range(StorageZone::System).0 + zone_range(
            StorageZone::System,
        ).1,
        zone_range(StorageZone::Data).0 == zone_range(StorageZone::Apps).0 + zone_range(
            StorageZone::Apps,
        ).1,
        zone_range(StorageZone::System).1 == 256 && zone_range(StorageZone::Apps).1 == 512
            && zone_range(StorageZone::Data).1 == 256,
        zone_flags(StorageZone::System) == 1 && zone_flags(StorageZone::Apps) == 3 && zone_flags(
            StorageZone::Data,
        ) == 4,
{
    assert(1u32 | 2u32 == 3) by (bit_vector);
}

} // verus!
