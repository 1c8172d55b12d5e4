//! Images are built with `SimpleFs::build_v4_image_with_headroom`. The tests of crashes wrap the
//! device in one that fails a chosen write: it rejects the write, or lets only a prefix of it
//! through. A commit writes in this order:
//!
//! ```text
//!   1 : pending-commit marker  -> secondary superblock
//!   2 : pending-commit marker  -> primary superblock
//!   3 : shadow inode table
//!   4 : shadow dirent table
//!   5 : shadow xattr table
//!   6 : publish record         -> secondary superblock
//!   7 : publish record         -> primary superblock
//! ```

use kernel_fs::block::{BlockDevice, MemoryBlockDevice};
use kernel_fs::error::Error;
use kernel_fs::failing::{FailingBlockDevice, WriteFailureMode};
use kernel_fs::simplefs::fs_volume::{SimpleFsVolume, SimpleVNode};
use kernel_fs::simplefs::image_nodes::ImageEntry;
use kernel_fs::simplefs::volume::SimpleFs;
use kernel_fs::vfs::NodeKind;

/// Build a writable image with a single `/README.txt` seed file and headroom.
fn build_v4_test_device(name: &str, seed: &[u8]) -> MemoryBlockDevice {
    let image = SimpleFs::<MemoryBlockDevice>::build_v4_image_with_headroom(
        "v4-test",
        &[ImageEntry {
            path: "/README.txt",
            data: seed,
        }],
        8,
        8,
        1,
        8,
    )
    .expect("build v4 test image");
    MemoryBlockDevice::new(name, image, false)
}

/// Open the image writable.
fn open_writable_v4_for_test<D: BlockDevice>(device: D) -> SimpleFs<D> {
    match SimpleFs::open(device, true) {
        Ok(fs) => fs,
        Err(error) => panic!("open writable v4 simplefs: {:?}", error),
    }
}

fn open_volume<D: BlockDevice>(device: D) -> SimpleFsVolume<D> {
    SimpleFsVolume::new(open_writable_v4_for_test(device))
}

/// Read a whole file node into a fresh `Vec`.
fn read_full_test<D: BlockDevice>(volume: &SimpleFsVolume<D>, node: &SimpleVNode) -> Vec<u8> {
    let size = node.size(volume);
    let mut buffer = vec![0_u8; size];
    if size > 0 {
        let n = node.read(volume, 0, &mut buffer).expect("read full test file");
        buffer.truncate(n);
    }
    buffer
}

#[test]
fn v4_volume_opens_and_reads_seed_file() {
    let device = build_v4_test_device("v4-seed", b"demo");
    let mut volume = open_volume(device);

    let root = volume.lookup("/").expect("lookup /");
    assert_eq!(root.kind(&volume), NodeKind::Directory);

    let file = volume.lookup("/README.txt").expect("lookup /README.txt");
    assert_eq!(file.name(), "README.txt");
    assert_eq!(file.kind(&volume), NodeKind::File);
    assert_eq!(read_full_test(&volume, &file), b"demo");
}

#[test]
fn v4_set_xattr_round_trip_within_capacity() {
    let device = build_v4_test_device("v4-xattr", b"demo");
    let mut fs = open_writable_v4_for_test(device);

    let value = b"hello simplefs xattr";
    fs.transaction(|ctx| ctx.set_xattr("/README.txt", b"user.note", value))
        .expect("set xattr");

    // Read the record back through the in-memory state.
    let inode_index = fs
        .geometry
        .resolve_path_locked(&fs.state, &fs.device, "/README.txt")
        .expect("resolve /README.txt");
    let got = fs
        .state
        .get_xattr_for_inode(inode_index, b"user.note")
        .expect("xattr present");
    assert_eq!(got.as_slice(), value);

    // A second xattr would exceed the single-record capacity.
    let err = fs
        .transaction(|ctx| ctx.set_xattr("/README.txt", b"user.other", b"x"))
        .expect_err("capacity exceeded");
    assert!(matches!(err, Error::OutOfMemory));
}

#[test]
fn v4_xattr_publish_torn_primary_superblock_recovers_clean() {
    let device = build_v4_test_device("v4-xattr-publish", b"demo");
    let value = b"torn xattr value".to_vec();

    let device = {
        let mut fs = open_writable_v4_for_test(FailingBlockDevice::new(device));
        // Tear the primary superblock publish (call 7 of the flush).
        fs.device.arm_failure(7, WriteFailureMode::TornWrite { prefix_len: 32 });
        let result = fs.transaction(|ctx| ctx.set_xattr("/README.txt", b"user.note", &value));
        assert!(matches!(result, Err(Error::DeviceError)));
        fs.device.inner
    };
    let device = {
        // A torn publish may leave either the new or the old generation loadable. The volume
        // repairs to a clean state and the xattr table stays consistent with the winner.
        let mut volume = open_volume(device);
        let report = volume.check_and_repair().expect("repair");
        assert!(report.repairs_applied >= 1);
        volume.inner.device
    };
    {
        let mut volume = open_volume(device);
        assert!(volume.check_and_repair().expect("clean").is_clean());
    }
}

#[test]
fn v4_publish_rejected_before_write_recovers() {
    let device = build_v4_test_device("v4-publish-reject", b"demo");
    let value = b"rejected xattr value".to_vec();

    let device = {
        let mut fs = open_writable_v4_for_test(FailingBlockDevice::new(device));
        // Reject the primary superblock publish (call 7) before any bytes land on the device:
        // the secondary publish (call 6) already carried the new generation.
        fs.device.arm_failure(7, WriteFailureMode::BeforeWrite);
        let result = fs.transaction(|ctx| ctx.set_xattr("/README.txt", b"user.note", &value));
        assert!(matches!(result, Err(Error::DeviceError)));
        fs.device.inner
    };

    // The new generation is loadable via the secondary mirror, and the volume repairs to a
    // clean state.
    let mut volume = open_volume(device);
    let report = volume.check_and_repair().expect("repair");
    assert!(report.repairs_applied >= 1);

    let mut volume = open_volume(volume.inner.device);
    assert!(volume.check_and_repair().expect("clean").is_clean());
}

#[test]
fn repeated_crash_recovery_cycles_v4() {
    let mut device = build_v4_test_device("repeat-crash", b"demo");
    let mut payload = Vec::new();
    for cycle in 0..4 {
        // Grow the payload deterministically.
        let start = payload.len();
        let end = start + 32 + cycle * 8;
        payload.resize(end, 0);
        for (index, byte) in payload.iter_mut().enumerate().skip(start) {
            *byte = (index % 251) as u8;
        }
        // A different buffer for the write we will interrupt.
        let replacement = vec![0xA5_u8; payload.len()];

        // Commit a clean content write so the stable payload is on disk.
        let stable = {
            let mut volume = open_volume(device);
            let file = volume.lookup("/README.txt").expect("lookup");
            assert_eq!(
                file.write(&mut volume, 0, &payload)
                    .expect("commit stable content"),
                payload.len()
            );
            assert_eq!(read_full_test(&volume, &file), payload);
            volume.inner.device
        };

        // Interrupt a content-replacement commit: tear the pending-commit superblock (device
        // call 2, after the data blocks were already written) so the new generation never
        // publishes and the committed payload is left intact.
        let crashed = {
            let mut volume = open_volume(FailingBlockDevice::new(stable));
            let file = volume.lookup("/README.txt").expect("lookup");
            volume
                .inner
                .device
                .arm_failure(2, WriteFailureMode::TornWrite { prefix_len: 32 });
            assert!(matches!(
                file.write(&mut volume, 0, &replacement),
                Err(Error::DeviceError)
            ));
            volume.inner.device.inner
        };

        // Reopen, repair the interrupted commit, and confirm the payload committed before the
        // crash is intact.
        {
            let mut volume = open_volume(crashed);
            let file = volume.lookup("/README.txt").expect("lookup after crash");
            assert_eq!(read_full_test(&volume, &file), payload);

            let report = volume.check_and_repair().expect("repair crash");
            assert!(report.repairs_applied >= 1);

            let file = volume.lookup("/README.txt").expect("lookup after repair");
            assert_eq!(read_full_test(&volume, &file), payload);
            device = volume.inner.device;
        }
    }
}
