use kernel_fs::layout::{
    default_zones, StorageZone, DEMO_DISK_TOTAL_BLOCKS, MOUNT_EXECUTABLE, MOUNT_KNOWN_FLAGS,
    MOUNT_READ_ONLY, MOUNT_USER_DATA,
};

#[test]
fn zones_have_their_names_and_policies() {
    let system = StorageZone::System;
    assert_eq!(system.zone_root(), "/system");
    assert_eq!(system.fs_name(), "simplefs-system");
    assert_eq!(system.volume_label(), "simplefs:system");
    assert_eq!(system.device(), "/dev/adastra-system");
    assert_eq!(system.boot_disk_device_name(), "ata0.system");
    assert_eq!(system.flags(), MOUNT_READ_ONLY);
    assert!(system.case_sensitive());
    assert!(system.device_read_only());
    assert_eq!(system.partition_slot(), 0);
    assert_eq!(system.mbr_partition_type(), 0xa1);

    assert_eq!(StorageZone::Apps.flags(), MOUNT_READ_ONLY | MOUNT_EXECUTABLE);
    assert_eq!(StorageZone::Apps.mbr_partition_type(), 0xa2);
    assert_eq!(StorageZone::Data.flags(), MOUNT_USER_DATA);
    assert!(!StorageZone::Data.case_sensitive());
    assert!(!StorageZone::Data.device_read_only());
    assert_eq!(StorageZone::Data.zone_root(), "/data");
}

#[test]
fn zones_lie_apart_on_the_disk() {
    assert_eq!(StorageZone::System.disk_range(), (2048, 256));
    assert_eq!(StorageZone::Apps.disk_range(), (2304, 512));
    assert_eq!(StorageZone::Data.disk_range(), (2816, 256));
    assert_eq!(DEMO_DISK_TOTAL_BLOCKS, 3072);
    let mut end = 0;
    for zone in default_zones() {
        let (start, count) = zone.disk_range();
        assert!(start >= end);
        end = start + count;
        assert_eq!(zone.flags() & !MOUNT_KNOWN_FLAGS, 0);
    }
}
