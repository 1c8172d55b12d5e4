use kernel_fs::block::{MemoryBlockDevice, BLOCK_SIZE};
use kernel_fs::error::Error;
use kernel_fs::partition::{
    read_mbr_partitions, write_mbr_partitions, MbrPartitionEntry, MbrPartitionTable,
    MBR_SIGNATURE_OFFSET,
};

#[test]
fn write_mbr_rejects_short_sector_buffer() {
    let mut short_sector = [0_u8; BLOCK_SIZE - 1];
    let partitions: MbrPartitionTable = [None; 4];
    assert_eq!(
        write_mbr_partitions(&mut short_sector, &partitions),
        Err(Error::InvalidArgument)
    );
}

#[test]
fn write_then_read_mbr_round_trips_partitions() {
    let partitions: MbrPartitionTable = [
        Some(MbrPartitionEntry::new(true, 0x83, 2048, 100_000)),
        Some(MbrPartitionEntry::new(false, 0x82, 102_048, 16_384)),
        None,
        None,
    ];

    let mut sector = [0_u8; BLOCK_SIZE];
    write_mbr_partitions(&mut sector, &partitions).unwrap();

    assert_eq!(
        &sector[MBR_SIGNATURE_OFFSET..MBR_SIGNATURE_OFFSET + 2],
        &[0x55, 0xaa]
    );

    let device = MemoryBlockDevice::new("test-mbr", sector.to_vec(), false);
    let parsed = read_mbr_partitions(&device).unwrap().unwrap();
    assert_eq!(parsed, partitions);
}

#[test]
fn read_mbr_returns_none_on_missing_signature() {
    let sector = [0_u8; BLOCK_SIZE];
    let device = MemoryBlockDevice::new("test-mbr", sector.to_vec(), false);
    assert_eq!(read_mbr_partitions(&device).unwrap(), None);
}

#[test]
fn read_mbr_skips_all_zero_entries() {
    let mut sector = [0_u8; BLOCK_SIZE];
    sector[MBR_SIGNATURE_OFFSET] = 0x55;
    sector[MBR_SIGNATURE_OFFSET + 1] = 0xaa;
    let device = MemoryBlockDevice::new("test-mbr", sector.to_vec(), false);
    let parsed = read_mbr_partitions(&device).unwrap();
    assert_eq!(parsed, Some([None; 4]));
}

#[test]
fn write_mbr_refuses_numbers_past_thirty_two_bits() {
    let mut sector = [7_u8; BLOCK_SIZE];
    let partitions: MbrPartitionTable = [
        Some(MbrPartitionEntry::new(true, 0x83, 2048, 1)),
        Some(MbrPartitionEntry::new(false, 0x82, 1 << 32, 1)),
        None,
        None,
    ];
    assert_eq!(
        write_mbr_partitions(&mut sector, &partitions),
        Err(Error::InvalidArgument)
    );
    assert_eq!(&sector[446..451], &[0x80, 0, 0, 0, 0x83]);
    assert_eq!(sector[MBR_SIGNATURE_OFFSET], 0);
}

#[test]
fn read_mbr_of_an_empty_device_is_none() {
    let device = MemoryBlockDevice::new("none", Vec::new(), false);
    assert_eq!(read_mbr_partitions(&device).unwrap(), None);
}

#[test]
fn read_mbr_of_other_block_sizes_is_none() {
    let mut sector = [0_u8; BLOCK_SIZE];
    sector[MBR_SIGNATURE_OFFSET] = 0x55;
    sector[MBR_SIGNATURE_OFFSET + 1] = 0xaa;
    let device = MemoryBlockDevice::new("cd", sector.to_vec(), true).with_block_size(2048);
    assert_eq!(read_mbr_partitions(&device).unwrap(), None);
    let device = device.with_block_size(BLOCK_SIZE);
    assert_eq!(read_mbr_partitions(&device).unwrap(), Some([None; 4]));
}
