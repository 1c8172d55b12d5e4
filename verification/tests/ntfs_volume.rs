//! A small volume: clusters of one sector, records of two clusters from cluster 4 on. The
//! root directory is record 5; its only entry is record 6, a file of 700 bytes in
//! clusters 40 and 41.

use kernel_fs::block::MemoryBlockDevice;
use kernel_fs::error::Error;
use kernel_fs::failing::{FailingBlockDevice, WriteFailureMode};
use kernel_fs::ntfs::io::{read_clusters, read_from_runs, write_clusters, write_device_bytes};
use kernel_fs::ntfs::runs::{parse_data_runs, DataRun};
use kernel_fs::ntfs::volume::{NtfsFs, NtfsVnode};
use kernel_fs::vfs::NodeKind;

const RECORDS: usize = 4 * 512;

fn put(buf: &mut [u8], at: usize, bytes: &[u8]) {
    buf[at..at + bytes.len()].copy_from_slice(bytes);
}

/// A record whose attributes start at byte 56 and whose sectors end in the number 1.
fn blank_record(flags: u16) -> Vec<u8> {
    let mut record = vec![0_u8; 1024];
    put(&mut record, 0, b"FILE");
    put(&mut record, 4, &48_u16.to_le_bytes());
    put(&mut record, 6, &3_u16.to_le_bytes());
    put(&mut record, 20, &56_u16.to_le_bytes());
    put(&mut record, 22, &flags.to_le_bytes());
    put(&mut record, 48, &1_u16.to_le_bytes());
    put(&mut record, 510, &1_u16.to_le_bytes());
    put(&mut record, 1022, &1_u16.to_le_bytes());
    record
}

fn file_record(size: u64) -> Vec<u8> {
    let mut record = blank_record(1);
    let at = 56;
    put(&mut record, at, &0x80_u32.to_le_bytes());
    put(&mut record, at + 4, &72_u32.to_le_bytes());
    record[at + 8] = 1;
    put(&mut record, at + 32, &64_u16.to_le_bytes());
    put(&mut record, at + 48, &size.to_le_bytes());
    put(&mut record, at + 64, &[0x11, 2, 40, 0]);
    put(&mut record, at + 72, &0xFFFF_FFFF_u32.to_le_bytes());
    record
}

fn directory_record(name: &str, number: u64) -> Vec<u8> {
    let mut record = blank_record(3);
    let mut body = vec![0_u8; 16];
    let mut entry = vec![0_u8; 16 + 66];
    put(&mut entry, 0, &number.to_le_bytes());
    entry[16 + 64] = name.encode_utf16().count() as u8;
    entry[16 + 65] = 1;
    for unit in name.encode_utf16() {
        entry.extend_from_slice(&unit.to_le_bytes());
    }
    let length = entry.len() as u16;
    put(&mut entry, 8, &length.to_le_bytes());
    put(&mut entry, 10, &16_u16.to_le_bytes());
    let end = 16 + length;
    put(&mut body, 8, &16_u16.to_le_bytes());
    put(&mut body, 10, &end.to_le_bytes());
    body.extend_from_slice(&entry);

    let at = 56;
    put(&mut record, at, &0x90_u32.to_le_bytes());
    put(&mut record, at + 4, &(28 + body.len() as u32).to_le_bytes());
    put(&mut record, at + 16, &(body.len() as u32).to_le_bytes());
    put(&mut record, at + 28, &body);
    let next = at + 28 + body.len();
    put(&mut record, next, &0xFFFF_FFFF_u32.to_le_bytes());
    record
}

fn contents() -> Vec<u8> {
    (0..700).map(|index| (index % 251) as u8).collect()
}

fn build_image(name: &str) -> Vec<u8> {
    let mut image = vec![0_u8; 64 * 512];
    put(&mut image, 3, b"NTFS");
    put(&mut image, 11, &512_u16.to_le_bytes());
    image[13] = 1;
    put(&mut image, 40, &64_u64.to_le_bytes());
    put(&mut image, 48, &4_u64.to_le_bytes());
    image[64] = 2;
    image[68] = 1;
    put(&mut image, RECORDS + 5 * 1024, &directory_record(name, 6));
    put(&mut image, RECORDS + 6 * 1024, &file_record(700));
    put(&mut image, 40 * 512, &contents());
    image
}

fn open(read_only: bool) -> NtfsFs<MemoryBlockDevice> {
    match NtfsFs::new(MemoryBlockDevice::new("ntfs", build_image("Gr\u{fc}n.txt"), read_only)) {
        Ok(fs) => fs,
        Err(error) => panic!("open: {:?}", error),
    }
}

fn file_of(fs: &mut NtfsFs<MemoryBlockDevice>) -> NtfsVnode {
    let mft_record = fs.read_mft_record(6).expect("record 6");
    NtfsVnode {
        mft_record,
        mft_record_number: 6,
        first_cluster: 0,
        file_size: 700,
        kind: NodeKind::File,
    }
}

#[test]
fn sizes_follow_from_the_boot_sector() {
    let fs = open(true);
    assert_eq!(fs.name(), "ntfs");
    assert_eq!(fs.info().cluster_size, 512);
    assert_eq!(fs.info().mft_record_size, 1024);
    assert_eq!(fs.info().bs.mft_lcn, 4);
    let blank = MemoryBlockDevice::new("blank", vec![0; 1024], true);
    assert!(NtfsFs::new(blank).is_err());
}

#[test]
fn records_have_their_sectors_restored() {
    let mut fs = open(true);
    let record = fs.read_mft_record(6).expect("record 6");
    assert_eq!(record[510..512], [0, 0]);
    assert_eq!(record[1022..1024], [0, 0]);
    assert_eq!(record[0..510], file_record(700)[0..510]);
    assert!(matches!(fs.read_mft_record(7), Err(Error::InvalidArgument)));
}

#[test]
fn a_directory_lists_names_and_nodes() {
    let mut fs = open(true);
    let root = fs.root_vnode().expect("root");
    assert_eq!(root.kind(), NodeKind::Directory);
    let list = root.readdir(&mut fs).expect("readdir");
    assert_eq!(list.len(), 1);
    assert_eq!(list[0].0, "Gr\u{fc}n.txt");
    assert_eq!(list[0].1.mft_record_number, 6);
    assert_eq!(list[0].1.kind(), NodeKind::File);
}

#[test]
fn unpaired_surrogates_in_names_are_replaced() {
    let mut image = build_image("ab");
    // The first unit of the name becomes half of a pair.
    let at = RECORDS + 5 * 1024 + 56 + 28 + 16 + 16 + 66;
    put(&mut image, at, &0xD800_u16.to_le_bytes());
    let mut fs = match NtfsFs::new(MemoryBlockDevice::new("ntfs", image, true)) {
        Ok(fs) => fs,
        Err(error) => panic!("open: {:?}", error),
    };
    let root = fs.root_vnode().expect("root");
    let list = root.readdir(&mut fs).expect("readdir");
    assert_eq!(list[0].0, "\u{fffd}b");
}

#[test]
fn a_file_is_read_through_its_runs() {
    let mut fs = open(true);
    let file = file_of(&mut fs);
    let mut buffer = vec![0_u8; 1000];
    assert_eq!(file.read(&fs, 0, &mut buffer), Ok(700));
    assert_eq!(buffer[0..700], contents()[..]);
    assert_eq!(buffer[700..], [0_u8; 300]);
    let mut buffer = [0_u8; 10];
    assert_eq!(file.read(&fs, 508, &mut buffer), Ok(10));
    assert_eq!(buffer, contents()[508..518]);
    assert_eq!(file.read(&fs, 700, &mut buffer), Ok(0));
}

/// A file of 2048 bytes whose one run, clusters 1 and 2, lies at its own place on the disk.
fn file_in_place() -> NtfsVnode {
    let mut mft_record = file_record(2048);
    put(&mut mft_record, 56 + 64, &[0x11, 2, 1, 0]);
    NtfsVnode {
        mft_record,
        mft_record_number: 7,
        first_cluster: 0,
        file_size: 2048,
        kind: NodeKind::File,
    }
}

#[test]
fn whole_clusters_are_written_where_the_run_lies() {
    let mut fs = open(false);
    let mut file = file_in_place();
    let data: Vec<u8> = (0..1024).map(|index| (index % 253) as u8).collect();
    assert_eq!(file.write(&mut fs, 512, &data), Ok(1024));
    let mut buffer = vec![0_u8; 1024];
    assert_eq!(file_in_place().read(&fs, 0, &mut buffer), Ok(1024));
    assert_eq!(buffer, data);
}

#[test]
fn writes_that_fall_on_no_run_change_nothing() {
    let mut fs = open(false);
    let mut file = file_of(&mut fs);
    assert_eq!(file.write(&mut fs, 510, b"over"), Ok(4));
    let mut buffer = vec![0_u8; 700];
    assert_eq!(file_of(&mut fs).read(&fs, 0, &mut buffer), Ok(700));
    assert_eq!(buffer, contents());
}

#[test]
fn writing_past_the_end_is_not_implemented() {
    let mut fs = open(false);
    let mut file = file_of(&mut fs);
    assert_eq!(file.write(&mut fs, 698, b"abc"), Err(Error::NotImplemented));
    let mut fs = open(true);
    let mut file = file_in_place();
    assert_eq!(file.write(&mut fs, 512, &[1; 512]), Err(Error::PermissionDenied));
}

#[test]
fn set_len_changes_the_size() {
    let mut fs = open(false);
    let mut file = file_of(&mut fs);
    assert_eq!(file.size(), 700);
    assert_eq!(file.set_len(5), Ok(()));
    assert_eq!(file.size(), 5);
}

#[test]
fn runs_follow_one_another() {
    let runs = parse_data_runs(&[0x11, 4, 10, 0x11, 2, 0xFE, 0x01, 3, 0]);
    assert_eq!(
        runs,
        [
            DataRun { lcn: 10, cluster_count: 4 },
            DataRun { lcn: 8, cluster_count: 2 },
            DataRun { lcn: -1, cluster_count: 3 },
        ]
    );
    assert!(parse_data_runs(&[]).is_empty());
    assert!(parse_data_runs(&[0x19, 1]).is_empty());
}

#[test]
fn holes_read_as_zeros() {
    let fs = open(true);
    let runs = [
        DataRun { lcn: -1, cluster_count: 1 },
        DataRun { lcn: 40, cluster_count: 1 },
    ];
    let mut buffer = vec![7_u8; 600];
    assert_eq!(read_from_runs(fs.device(), fs.info(), &runs, 600, 0, &mut buffer), Ok(600));
    assert_eq!(buffer[0..512], [0_u8; 512]);
    assert_eq!(buffer[512..], contents()[0..88]);
}

#[test]
fn unaligned_device_writes_keep_their_surroundings() {
    let mut device = MemoryBlockDevice::new("raw", vec![0xEE; 4 * 512], false);
    assert_eq!(write_device_bytes(&mut device, 500, &[1; 30]), Ok(()));
    let fs = open(true);
    let mut buffer = vec![0_u8; 1024];
    assert!(read_clusters(&device, fs.info(), 0, 2, &mut buffer).is_ok());
    assert_eq!(buffer[499], 0xEE);
    assert_eq!(buffer[500..530], [1; 30]);
    assert_eq!(buffer[530], 0xEE);
}

#[test]
fn device_faults_come_through() {
    let mut device = FailingBlockDevice::new(MemoryBlockDevice::new(
        "raw",
        vec![0; 4 * 512],
        false,
    ));
    device.arm_failure(1, WriteFailureMode::BeforeWrite);
    let fs = open(true);
    assert_eq!(
        write_clusters(&mut device, fs.info(), 1, 1, &[9; 512]),
        Err(Error::DeviceError)
    );
    assert_eq!(write_clusters(&mut device, fs.info(), 1, 1, &[9; 512]), Ok(512));
}

#[test]
fn a_refused_write_is_answered_with_the_devices_error() {
    let mut fs = open(true);
    let mut file = file_in_place();
    assert_eq!(
        file.write(&mut fs, 512, &[1; 512]),
        Err(Error::PermissionDenied)
    );
    assert_eq!(file.write(&mut fs, 512, &[]), Ok(0));
    let mut small = MemoryBlockDevice::new("raw", vec![0; 512], false);
    assert_eq!(write_device_bytes(&mut small, 500, &[1; 30]), Err(Error::InvalidArgument));
    // The block before the one that was refused has been stored.
    assert_eq!(small.data[500..512], [1; 12]);
    assert_eq!(write_device_bytes(&mut small, 9000, &[]), Ok(()));
}
