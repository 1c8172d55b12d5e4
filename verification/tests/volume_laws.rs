//! What a volume keeps over several operations, damage and failures.

use kernel_fs::block::{BlockDevice, MemoryBlockDevice};
use kernel_fs::error::Error;
use kernel_fs::failing::{FailingBlockDevice, WriteFailureMode};
use kernel_fs::simplefs::image_nodes::ImageEntry;
use kernel_fs::simplefs::staging::StagingArea;
use kernel_fs::simplefs::symlink::read_symlink_target;
use kernel_fs::simplefs::types::{OnDiskDirEntry, OnDiskInode};
use kernel_fs::simplefs::validate::validate_loaded_metadata;
use kernel_fs::simplefs::volume::SimpleFs;
use kernel_fs::vfs::NodeKind;

const FILES: [(&str, &[u8]); 4] = [
    ("/docs/a.txt", b"alpha"),
    ("/docs/b.txt", b"beta"),
    ("/top.txt", b"top"),
    ("/docs/deep/er/c.txt", b""),
];

fn image_of(order: &[usize]) -> Vec<u8> {
    let entries: Vec<ImageEntry> = order
        .iter()
        .map(|&k| ImageEntry {
            path: FILES[k].0,
            data: FILES[k].1,
        })
        .collect();
    SimpleFs::<MemoryBlockDevice>::build_v4_image_with_headroom("laws", &entries, 16, 16, 2, 32)
        .expect("build image")
}

fn open_on<D: BlockDevice>(device: D) -> SimpleFs<D> {
    match SimpleFs::open(device, true) {
        Ok(fs) => fs,
        Err(error) => panic!("open: {:?}", error),
    }
}

fn open() -> SimpleFs<MemoryBlockDevice> {
    open_on(MemoryBlockDevice::new("laws", image_of(&[0, 1, 2, 3]), false))
}

fn find<D: BlockDevice>(fs: &SimpleFs<D>, path: &str) -> Result<usize, Error> {
    fs.geometry.resolve_path_locked(&fs.state, &fs.device, path)
}

fn text<D: BlockDevice>(fs: &SimpleFs<D>, path: &str) -> Vec<u8> {
    let index = find(fs, path).expect("resolve");
    let mut buffer = vec![0_u8; 4096];
    let count = fs.read_file(index, 0, &mut buffer).expect("read");
    buffer.truncate(count);
    buffer
}

fn names<D: BlockDevice>(fs: &SimpleFs<D>, path: &str) -> Vec<String> {
    let mut out = Vec::new();
    while let Ok(entry) = fs.read_dir(path, out.len()) {
        out.push(entry.name);
    }
    out
}

#[test]
fn the_order_of_files_plays_no_part_in_an_image() {
    let image = image_of(&[0, 1, 2, 3]);
    assert_eq!(image, image_of(&[3, 2, 1, 0]));
    assert_eq!(image, image_of(&[2, 0, 3, 1]));
}

#[test]
fn an_image_is_read_back_with_either_superblock() {
    for destroyed in [None, Some(0_usize), Some(1)] {
        let mut image = image_of(&[0, 1, 2, 3]);
        if let Some(block) = destroyed {
            image[block * 512..(block + 1) * 512].fill(0xA5);
        }
        let fs = open_on(MemoryBlockDevice::new("laws", image, false));
        for (path, data) in FILES {
            assert_eq!(text(&fs, path), data);
        }
    }
    let mut image = image_of(&[0]);
    image[..1024].fill(0xA5);
    assert!(SimpleFs::open(MemoryBlockDevice::new("laws", image, false), true).is_err());
}

#[test]
fn a_commit_that_is_cut_off_leaves_a_volume() {
    for call in 1..=12 {
        for mode in [WriteFailureMode::BeforeWrite, WriteFailureMode::TornWrite { prefix_len: 100 }] {
            let device = MemoryBlockDevice::new("laws", image_of(&[0, 1, 2, 3]), false);
            let mut fs = open_on(FailingBlockDevice::new(device));
            fs.device.arm_failure(call, mode);
            let made = fs.create_dir("/made");
            let fs = open_on(fs.device.inner);
            if made.is_ok() {
                assert_eq!(names(&fs, "/"), ["docs", "top.txt", "made"]);
            } else {
                assert_eq!(names(&fs, "/")[..2], ["docs", "top.txt"]);
            }
            for (path, data) in FILES {
                assert_eq!(text(&fs, path), data);
            }
        }
    }
}

#[test]
fn a_failed_append_keeps_the_contents() {
    for call in 1..=8 {
        let device = MemoryBlockDevice::new("laws", image_of(&[0, 1, 2, 3]), false);
        let mut fs = open_on(FailingBlockDevice::new(device));
        let index = find(&fs, "/docs/a.txt").expect("find");
        fs.device.arm_failure(call, WriteFailureMode::BeforeWrite);
        if fs.write_file(index, 5, &[0x55; 600]).is_err() {
            assert_eq!(text(&fs, "/docs/a.txt")[..5], *b"alpha");
            assert_eq!(text(&fs, "/docs/a.txt").len(), 5);
        } else {
            assert_eq!(text(&fs, "/docs/a.txt").len(), 605);
        }
    }
}

#[test]
fn a_failed_publication_leaves_the_target() {
    let device = MemoryBlockDevice::new("laws", image_of(&[0, 1, 2, 3]), false);
    let mut fs = open_on(FailingBlockDevice::new(device));
    let area = StagingArea::create(&mut fs, "/staging").expect("area");
    area.prepare(&mut fs, "next").expect("prepare");
    fs.device.arm_failure(2, WriteFailureMode::BeforeWrite);
    assert!(area.publish_with_backup(&mut fs, "next", "/docs").is_err());
    assert_eq!(names(&fs, "/docs"), ["a.txt", "b.txt", "deep"]);
    assert_eq!(find(&fs, "/docs.bak"), Err(Error::NotFound));
    // An item that is not there leaves the target too.
    assert!(area.publish_with_backup(&mut fs, "absent", "/docs").is_err());
    assert_eq!(names(&fs, "/docs"), ["a.txt", "b.txt", "deep"]);
    assert_eq!(find(&fs, "/docs.bak"), Err(Error::NotFound));
}

#[test]
fn staging_directories_over_several_calls() {
    let mut fs = open();
    StagingArea::create(&mut fs, "/staging").expect("area");
    let before = fs.device.data.clone();
    let area = StagingArea::create(&mut fs, "/staging").expect("again");
    assert_eq!(fs.device.data.clone(), before);
    for (k, name) in ["b", "a", "c"].iter().enumerate() {
        area.prepare(&mut fs, name).expect("prepare");
        let listed = area.list(&fs).expect("list");
        assert_eq!(listed.len(), k + 1);
        assert_eq!(listed[k], *name);
    }
    fs.create_dir("/staging/b/inner").expect("create");
    fs.create_file("/staging/b/inner/file").expect("create");
    assert_eq!(area.cleanup(&mut fs), Ok(3));
    assert!(area.list(&fs).expect("list").is_empty());
    assert!(find(&fs, "/staging").is_ok());
    assert_eq!(text(&fs, "/docs/a.txt"), b"alpha");
    assert_eq!(area.cleanup(&mut fs), Ok(0));
}

#[test]
fn going_back_exchanges_the_versions() {
    let mut fs = open();
    let area = StagingArea::create(&mut fs, "/staging").expect("area");
    area.prepare(&mut fs, "next").expect("prepare");
    let former = find(&fs, "/docs").expect("find");
    let next = find(&fs, "/staging/next").expect("find");
    let switch = match area.publish_with_backup(&mut fs, "next", "/docs") {
        Ok(switch) => switch,
        Err(error) => panic!("publish: {:?}", error),
    };
    assert_eq!(find(&fs, "/docs"), Ok(next));
    assert_eq!(find(&fs, "/docs.bak"), Ok(former));
    assert_eq!(switch.rollback(&mut fs), Ok(()));
    assert_eq!(find(&fs, "/docs"), Ok(former));
    assert_eq!(find(&fs, "/docs.bak"), Ok(next));
}

#[test]
fn a_long_link_is_read_back() {
    let mut fs = open();
    let target = format!("/docs/{}", "x".repeat(300));
    let index = fs.create_symlink(&target, "/link").expect("link");
    let inode = fs.state.inodes[index];
    assert_eq!(inode.block_count, 1);
    let stored = read_symlink_target(&fs.device, &inode).expect("target");
    assert_eq!(stored, target.as_bytes());
}

#[test]
fn a_removed_attribute_makes_room() {
    let mut fs = open();
    let index = find(&fs, "/top.txt").expect("find");
    let mut count = 0_usize;
    while fs
        .transaction(|ctx| ctx.set_xattr("/top.txt", format!("user.{}", count).as_bytes(), b"v"))
        .is_ok()
    {
        count += 1;
    }
    assert!(count > 1);
    assert_eq!(fs.state.remove_xattr_for_inode(index, b"user.0"), Ok(()));
    assert_eq!(fs.state.get_xattr_for_inode(index, b"user.0"), None);
    assert_eq!(fs.state.get_xattr_for_inode(index, b"user.1"), Some(b"v".to_vec()));
    assert_eq!(
        fs.transaction(|ctx| ctx.set_xattr("/docs", b"user.new", b"w")),
        Ok(())
    );
}

fn directory(entry_start: u32, entry_count: u32) -> OnDiskInode {
    OnDiskInode {
        kind: NodeKind::Directory,
        deleted: false,
        entry_start,
        entry_count,
        data_block: 0,
        block_count: 0,
        size: 0,
        persistent_security: None,
        data_checksum: 0,
        compressed: false,
        deduped: false,
    }
}

fn entry(inode_index: u32, name: &str) -> OnDiskDirEntry {
    OnDiskDirEntry {
        inode_index,
        kind: NodeKind::Directory,
        name: name.to_string(),
    }
}

#[test]
fn directories_that_name_only_each_other_are_refused() {
    let apart = [directory(0, 0), directory(0, 1), directory(1, 1)];
    let around = [entry(2, "two"), entry(1, "one")];
    assert_eq!(
        validate_loaded_metadata(&apart, &around, 8, 64, true),
        Err(Error::InvalidArgument)
    );
    let rooted = [directory(0, 1), directory(1, 1), directory(2, 0)];
    let down = [entry(1, "one"), entry(2, "two")];
    assert_eq!(validate_loaded_metadata(&rooted, &down, 8, 64, true), Ok(()));
}

#[test]
fn a_staging_root_may_go_up() {
    let mut fs = open();
    let area = StagingArea::create(&mut fs, "/docs/../staging").expect("area");
    area.prepare(&mut fs, "one").expect("prepare");
    area.prepare(&mut fs, "two").expect("prepare");
    fs.create_file("/staging/one/file").expect("create");
    assert_eq!(area.cleanup(&mut fs), Ok(2));
    assert!(names(&fs, "/staging").is_empty());
    assert_eq!(names(&fs, "/docs"), ["a.txt", "b.txt", "deep"]);
    assert_eq!(text(&fs, "/docs/b.txt"), b"beta");
    assert_eq!(text(&fs, "/top.txt"), b"top");
}

#[test]
fn going_back_restores_the_contents() {
    let mut fs = open();
    let area = StagingArea::create(&mut fs, "/staging").expect("area");
    area.prepare(&mut fs, "next").expect("prepare");
    let index = fs.create_file("/staging/next/a.txt").expect("create");
    assert_eq!(fs.write_file(index, 0, b"gamma"), Ok(5));
    let switch = match area.publish_with_backup(&mut fs, "next", "/docs") {
        Ok(switch) => switch,
        Err(error) => panic!("publish: {:?}", error),
    };
    assert_eq!(text(&fs, "/docs/a.txt"), b"gamma");
    assert_eq!(switch.rollback(&mut fs), Ok(()));
    assert_eq!(text(&fs, "/docs/a.txt"), b"alpha");
    assert_eq!(text(&fs, "/docs/b.txt"), b"beta");
    assert_eq!(text(&fs, "/docs.bak/a.txt"), b"gamma");
}

#[test]
fn an_attribute_is_held_once() {
    let mut fs = open();
    let index = find(&fs, "/top.txt").expect("find");
    for value in [b"one", b"two"] {
        assert_eq!(
            fs.transaction(|ctx| ctx.set_xattr("/top.txt", b"user.k", value)),
            Ok(())
        );
    }
    let listed = fs.state.list_xattrs_for_inode(index);
    assert_eq!(listed.len(), 1);
    assert_eq!(listed[0].value, b"two");
    assert_eq!(fs.state.remove_xattr_for_inode(index, b"user.k"), Ok(()));
    assert_eq!(fs.state.get_xattr_for_inode(index, b"user.k"), None);
    assert_eq!(
        fs.state.remove_xattr_for_inode(index, b"user.k"),
        Err(Error::NotFound)
    );
}

#[test]
fn blocks_of_its_own_hold_the_same() {
    let mut fs = open();
    let index = find(&fs, "/top.txt").expect("find");
    fs.state.inodes[index].deduped = true;
    let before = fs.state.inodes[index];
    assert_eq!(fs.unshare_inode_extent(index), Ok(()));
    let after = fs.state.inodes[index];
    assert_ne!(after.data_block, before.data_block);
    assert_eq!(after.block_count, before.block_count);
    assert_eq!(after.size, before.size);
    assert!(!after.deduped);
    assert_eq!(text(&fs, "/top.txt"), b"top");
    assert_eq!(text(&fs, "/docs/a.txt"), b"alpha");
    let fs = open_on(fs.device);
    assert_eq!(text(&fs, "/top.txt"), b"top");
}

#[test]
fn nothing_is_unshared_without_blocks() {
    let mut fs = open();
    let image = fs.device.data.clone();
    assert_eq!(fs.unshare_inode_extent(10_000), Err(Error::InternalError));
    let docs = find(&fs, "/docs").expect("find");
    assert_eq!(fs.unshare_inode_extent(docs), Ok(()));
    assert_eq!(fs.device.data, image);
}
