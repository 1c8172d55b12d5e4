//! What the operations of a writable volume do to its tree and its files.

use kernel_fs::block::{BlockDevice, MemoryBlockDevice};
use kernel_fs::error::Error;
use kernel_fs::failing::{FailingBlockDevice, WriteFailureMode};
use kernel_fs::simplefs::fs_volume::SimpleFsVolume;
use kernel_fs::simplefs::image_nodes::ImageEntry;
use kernel_fs::simplefs::names::{
    base_name, blocks_for, names_match, normalize_image_path, parent_path, parent_paths,
    validate_dir_entry_name,
};
use kernel_fs::simplefs::staging::StagingArea;
use kernel_fs::simplefs::volume::SimpleFs;
use kernel_fs::vfs::{NodeKind, SecurityDescriptor, SecurityDescriptorMutationSupport};

fn image(entries: &[ImageEntry]) -> Vec<u8> {
    SimpleFs::<MemoryBlockDevice>::build_v4_image_with_headroom("ops", entries, 16, 16, 4, 32)
        .expect("build image")
}

fn seeded() -> Vec<u8> {
    image(&[
        ImageEntry {
            path: "/docs/a.txt",
            data: b"alpha",
        },
        ImageEntry {
            path: "/docs/b.txt",
            data: b"beta",
        },
        ImageEntry {
            path: "/top.txt",
            data: b"top",
        },
    ])
}

fn open_on<D: BlockDevice>(device: D, case_sensitive: bool) -> SimpleFs<D> {
    match SimpleFs::open(device, case_sensitive) {
        Ok(fs) => fs,
        Err(error) => panic!("open: {:?}", error),
    }
}

fn open() -> SimpleFs<MemoryBlockDevice> {
    open_on(MemoryBlockDevice::new("ops", seeded(), false), true)
}

fn reopen(fs: SimpleFs<MemoryBlockDevice>) -> SimpleFs<MemoryBlockDevice> {
    open_on(fs.device, true)
}

fn find<D: BlockDevice>(fs: &SimpleFs<D>, path: &str) -> Result<usize, Error> {
    fs.geometry.resolve_path_locked(&fs.state, &fs.device, path)
}

fn text<D: BlockDevice>(fs: &SimpleFs<D>, path: &str) -> Vec<u8> {
    let index = find(fs, path).expect("resolve");
    let mut buffer = vec![0_u8; 4096];
    let count = fs.read_file(index, 0, &mut buffer).expect("read");
    buffer.truncate(count);
    buffer
}

fn names<D: BlockDevice>(fs: &SimpleFs<D>, path: &str) -> Vec<String> {
    let mut out = Vec::new();
    while let Ok(entry) = fs.read_dir(path, out.len()) {
        out.push(entry.name);
    }
    out
}

#[test]
fn an_image_holds_its_files() {
    let fs = open();
    assert_eq!(names(&fs, "/"), ["docs", "top.txt"]);
    assert_eq!(names(&fs, "/docs"), ["a.txt", "b.txt"]);
    assert_eq!(text(&fs, "/docs/a.txt"), b"alpha");
    assert_eq!(text(&fs, "/docs/b.txt"), b"beta");
    assert_eq!(find(&fs, "/docs/c.txt"), Err(Error::NotFound));
    assert_eq!(find(&fs, "/docs/../top.txt"), find(&fs, "/top.txt"));
}

#[test]
fn image_entries_must_have_usable_paths() {
    let build = |entries: &[ImageEntry]| {
        SimpleFs::<MemoryBlockDevice>::build_image("bad", entries)
    };
    let long = "n".repeat(300);
    let file = |path| ImageEntry { path, data: b"x" };
    assert_eq!(build(&[file("a\\b")]), Err(Error::InvalidArgument));
    assert_eq!(build(&[file(long.as_str())]), Err(Error::InvalidArgument));
    assert!(build(&[file("/a"), file("/b")]).is_ok());
}

#[test]
fn a_created_file_is_found_after_a_mount() {
    let mut fs = open();
    let index = fs.create_file("/docs/new.txt").expect("create");
    assert_eq!(find(&fs, "/docs/new.txt"), Ok(index));
    assert_eq!(fs.write_file(index, 0, b"fresh"), Ok(5));
    assert_eq!(fs.create_file("/docs/new.txt"), Err(Error::AlreadyExists));
    assert_eq!(fs.create_file("/nowhere/x"), Err(Error::NotFound));
    let fs = reopen(fs);
    assert_eq!(text(&fs, "/docs/new.txt"), b"fresh");
    assert_eq!(names(&fs, "/docs"), ["a.txt", "b.txt", "new.txt"]);
    assert_eq!(text(&fs, "/docs/a.txt"), b"alpha");
}

#[test]
fn writes_past_the_end_fill_the_gap_with_zeros() {
    let mut fs = open();
    let index = find(&fs, "/top.txt").expect("find");
    assert_eq!(fs.write_file(index, 600, b"far"), Ok(3));
    let mut expected = b"top".to_vec();
    expected.resize(600, 0);
    expected.extend_from_slice(b"far");
    assert_eq!(text(&fs, "/top.txt"), expected);
    assert_eq!(text(&fs, "/docs/b.txt"), b"beta");
    let fs = reopen(fs);
    assert_eq!(text(&fs, "/top.txt"), expected);
}

#[test]
fn set_len_cuts_and_grows() {
    let mut fs = open();
    let index = find(&fs, "/docs/a.txt").expect("find");
    assert_eq!(fs.set_len_file(index, 2), Ok(()));
    assert_eq!(text(&fs, "/docs/a.txt"), b"al");
    assert_eq!(fs.set_len_file(index, 5), Ok(()));
    assert_eq!(text(&fs, "/docs/a.txt"), b"al\0\0\0");
    assert_eq!(reopen(fs).read_dir("/docs", 0).expect("entry").size, 5);
}

#[test]
fn a_removed_file_is_gone() {
    let mut fs = open();
    assert_eq!(fs.remove_path("/docs/a.txt"), Ok(()));
    assert_eq!(find(&fs, "/docs/a.txt"), Err(Error::NotFound));
    assert_eq!(fs.remove_path("/docs/a.txt"), Err(Error::NotFound));
    assert_eq!(fs.remove_path("/"), Err(Error::InvalidArgument));
    assert!(fs.remove_path("/docs").is_err());
    let fs = reopen(fs);
    assert_eq!(names(&fs, "/docs"), ["b.txt"]);
}

#[test]
fn a_whole_tree_is_removed() {
    let mut fs = open();
    assert_eq!(fs.create_dir("/docs/deep"), Ok(()));
    fs.create_file("/docs/deep/x").expect("create");
    assert_eq!(fs.remove_path_recursive("/docs"), Ok(()));
    assert_eq!(names(&fs, "/"), ["top.txt"]);
    assert_eq!(text(&reopen(fs), "/top.txt"), b"top");
}

#[test]
fn rename_moves_a_node() {
    let mut fs = open();
    let index = find(&fs, "/docs/a.txt").expect("find");
    assert_eq!(fs.rename("/docs/a.txt", "/moved.txt"), Ok(()));
    assert_eq!(find(&fs, "/docs/a.txt"), Err(Error::NotFound));
    assert_eq!(find(&fs, "/moved.txt"), Ok(index));
    assert_eq!(fs.rename("/moved.txt", "/top.txt"), Err(Error::AlreadyExists));
    assert_eq!(fs.rename("/absent", "/other"), Err(Error::NotFound));
    assert_eq!(fs.rename("/docs", "/docs/inner"), Err(Error::InvalidArgument));
    let fs = reopen(fs);
    assert_eq!(text(&fs, "/moved.txt"), b"alpha");
    assert_eq!(names(&fs, "/docs"), ["b.txt"]);
}

#[test]
fn swap_exchanges_two_nodes() {
    let mut fs = open();
    assert_eq!(fs.swap_paths("/docs/a.txt", "/top.txt"), Ok(()));
    assert_eq!(text(&fs, "/docs/a.txt"), b"top");
    assert_eq!(text(&fs, "/top.txt"), b"alpha");
    assert_eq!(fs.swap_paths("/docs/a.txt", "/absent"), Err(Error::NotFound));
    let fs = reopen(fs);
    assert_eq!(text(&fs, "/docs/a.txt"), b"top");
}

#[test]
fn symlinks_lead_to_their_target() {
    let mut fs = open();
    fs.create_symlink("/docs/a.txt", "/link").expect("symlink");
    assert_eq!(text(&fs, "/link"), b"alpha");
    fs.create_symlink("/loop", "/loop").expect("symlink");
    assert!(find(&fs, "/loop").is_err());
    assert_eq!(fs.create_symlink("", "/empty"), Err(Error::InvalidArgument));
    let fs = reopen(fs);
    assert_eq!(text(&fs, "/link"), b"alpha");
    let entry = fs.read_dir("/", 2).expect("entry");
    assert_eq!(entry.name, "link");
    assert_eq!(entry.kind, NodeKind::Symlink);
}

#[test]
fn names_can_be_matched_without_regard_to_case() {
    let device = MemoryBlockDevice::new("ops", image(&[ImageEntry {
        path: "/Gr\u{dc}n.TXT",
        data: b"x",
    }]), false);
    let mut fs = open_on(device, false);
    let index = find(&fs, "/gr\u{fc}N.txt").expect("find");
    assert_eq!(find(&fs, "/Gr\u{dc}n.TXT"), Ok(index));
    assert_eq!(fs.create_file("/GR\u{dc}N.txt"), Err(Error::AlreadyExists));
    let fs = open_on(fs.device, true);
    assert_eq!(find(&fs, "/gr\u{fc}N.txt"), Err(Error::NotFound));
}

#[test]
fn a_failed_commit_is_taken_back() {
    let mut fs = open_on(
        FailingBlockDevice::new(MemoryBlockDevice::new("ops", seeded(), false)),
        true,
    );
    fs.device.arm_failure(1, WriteFailureMode::BeforeWrite);
    assert_eq!(fs.create_dir("/lost"), Err(Error::DeviceError));
    assert_eq!(find(&fs, "/lost"), Err(Error::NotFound));
    assert_eq!(names(&fs, "/"), ["docs", "top.txt"]);
    assert_eq!(fs.create_dir("/kept"), Ok(()));
    assert_eq!(names(&open_on(fs.device.inner, true), "/"), ["docs", "top.txt", "kept"]);
}

#[test]
fn a_failed_step_takes_the_whole_transaction_back() {
    let mut fs = open();
    let result = fs.transaction(|ctx| {
        ctx.create_dir("/one")?;
        ctx.remove_path("/top.txt")?;
        ctx.create_dir("/docs")
    });
    assert_eq!(result, Err(Error::AlreadyExists));
    assert_eq!(names(&fs, "/"), ["docs", "top.txt"]);
    let result = fs.transaction(|ctx| {
        ctx.create_dir("/one")?;
        ctx.create_dir("/one/two")
    });
    assert_eq!(result, Ok(()));
    assert_eq!(names(&reopen(fs), "/one"), ["two"]);
}

#[test]
fn attributes_of_one_node_leave_the_others() {
    let mut fs = open();
    let set = |fs: &mut SimpleFs<MemoryBlockDevice>, path: &str, name: &[u8], value: &[u8]| {
        fs.transaction(|ctx| ctx.set_xattr(path, name, value))
    };
    assert_eq!(set(&mut fs, "/top.txt", b"user.k", b"one"), Ok(()));
    assert_eq!(set(&mut fs, "/docs", b"user.k", b"two"), Ok(()));
    assert_eq!(set(&mut fs, "/top.txt", b"user.k", b"three"), Ok(()));
    let fs = reopen(fs);
    let top = find(&fs, "/top.txt").expect("find");
    let docs = find(&fs, "/docs").expect("find");
    assert_eq!(fs.state.get_xattr_for_inode(top, b"user.k"), Some(b"three".to_vec()));
    assert_eq!(fs.state.get_xattr_for_inode(docs, b"user.k"), Some(b"two".to_vec()));
    assert_eq!(fs.state.get_xattr_for_inode(docs, b"user.other"), None);
    let mut fs = fs;
    assert_eq!(fs.transaction(|ctx| ctx.remove_xattr("/docs", b"user.k")), Ok(()));
    assert_eq!(fs.state.get_xattr_for_inode(docs, b"user.k"), None);
    assert_eq!(
        fs.transaction(|ctx| ctx.remove_xattr("/docs", b"user.k")),
        Err(Error::NotFound)
    );
}

#[test]
fn read_only_volumes_refuse_changes() {
    let mut fs = open_on(MemoryBlockDevice::new("ops", seeded(), true), true);
    assert_eq!(fs.create_file("/x"), Err(Error::PermissionDenied));
    assert_eq!(fs.create_dir("/x"), Err(Error::PermissionDenied));
    assert_eq!(fs.remove_path("/top.txt"), Err(Error::PermissionDenied));
    assert_eq!(fs.rename("/top.txt", "/x"), Err(Error::PermissionDenied));
    assert_eq!(fs.swap_paths("/top.txt", "/docs"), Err(Error::PermissionDenied));
    assert_eq!(text(&fs, "/top.txt"), b"top");
}

#[test]
fn a_full_volume_takes_no_more() {
    let small = SimpleFs::<MemoryBlockDevice>::build_v4_image_with_headroom(
        "small",
        &[ImageEntry { path: "/a", data: b"a" }],
        1,
        1,
        0,
        1,
    )
    .expect("build image");
    let mut fs = open_on(MemoryBlockDevice::new("small", small, false), true);
    assert!(fs.create_file("/b").is_ok());
    assert_eq!(fs.create_file("/c"), Err(Error::OutOfMemory));
    let index = find(&fs, "/a").expect("find");
    assert!(fs.write_file(index, 0, &[1; 4096]).is_err());
    assert_eq!(text(&fs, "/a"), b"a");
}

#[test]
fn descriptors_are_stored() {
    let mut fs = open();
    let security = SecurityDescriptor {
        owner_uid: 7,
        owner_gid: 8,
        mode: 0o640,
    };
    assert_eq!(fs.update_security_descriptor("/top.txt", security), Ok(()));
    let too_wide = SecurityDescriptor {
        owner_uid: 7,
        owner_gid: 8,
        mode: 0xFFFF,
    };
    assert_eq!(
        fs.update_security_descriptor("/top.txt", too_wide),
        Err(Error::InvalidArgument)
    );
    let fs = reopen(fs);
    assert_eq!(fs.read_dir("/", 1).expect("entry").security, security);
}

#[test]
fn staged_items_are_published() {
    let mut fs = open();
    let area = StagingArea::create(&mut fs, "/staging").expect("area");
    assert_eq!(area.root(), "/staging");
    assert_eq!(area.prepare(&mut fs, "pkg").expect("prepare"), "/staging/pkg");
    assert_eq!(area.prepare(&mut fs, "a/b"), Err(Error::InvalidArgument));
    fs.create_file("/staging/pkg/new").expect("create");
    assert_eq!(area.list(&fs).expect("list"), ["pkg"]);
    assert_eq!(area.publish(&mut fs, "pkg", "/installed"), Ok(()));
    assert_eq!(names(&fs, "/installed"), ["new"]);
    assert!(area.list(&fs).expect("list").is_empty());
    area.prepare(&mut fs, "one").expect("prepare");
    area.prepare(&mut fs, "two").expect("prepare");
    assert_eq!(area.abort(&mut fs, "one"), Ok(()));
    assert_eq!(area.cleanup(&mut fs), Ok(1));
    assert!(area.list(&fs).expect("list").is_empty());
}

#[test]
fn a_replaced_version_comes_back_on_rollback() {
    let mut fs = open();
    let area = StagingArea::create(&mut fs, "/staging").expect("area");
    area.prepare(&mut fs, "next").expect("prepare");
    fs.create_file("/staging/next/only").expect("create");
    let switch = match area.publish_with_backup(&mut fs, "next", "/docs") {
        Ok(switch) => switch,
        Err(error) => panic!("publish: {:?}", error),
    };
    assert_eq!(names(&fs, "/docs"), ["only"]);
    assert_eq!(switch.backup_path(), Some("/docs.bak"));
    assert_eq!(switch.rollback(&mut fs), Ok(()));
    assert_eq!(names(&fs, "/docs"), ["a.txt", "b.txt"]);

    area.prepare(&mut fs, "later").expect("prepare");
    assert_eq!(fs.remove_path_recursive("/docs.bak"), Ok(()));
    let switch = match area.publish_with_backup(&mut fs, "later", "/docs") {
        Ok(switch) => switch,
        Err(error) => panic!("publish: {:?}", error),
    };
    assert_eq!(switch.commit(&mut fs), Ok(()));
    assert!(names(&fs, "/docs").is_empty());
    assert_eq!(find(&fs, "/docs.bak"), Err(Error::NotFound));
}

#[test]
fn path_helpers() {
    assert_eq!(parent_path("/"), None);
    assert_eq!(parent_path("/a"), Some("/".to_string()));
    assert_eq!(parent_path("/a/b/"), Some("/a".to_string()));
    assert_eq!(base_name("/a/b"), "b");
    assert_eq!(base_name("/"), "/");
    assert_eq!(parent_paths("/a/b/c"), ["/", "/a", "/a/b"]);
    assert_eq!(normalize_image_path(" a/b "), Ok("/a/b".to_string()));
    assert_eq!(normalize_image_path("a\\b"), Err(Error::InvalidArgument));
    assert!(names_match("README", "readme", false));
    assert!(!names_match("README", "readme", true));
    assert_eq!(blocks_for(0), 0);
    assert_eq!(blocks_for(512), 1);
    assert_eq!(blocks_for(513), 2);
    assert_eq!(validate_dir_entry_name("ok"), Ok(()));
    assert_eq!(validate_dir_entry_name(""), Err(Error::InvalidArgument));
    assert_eq!(validate_dir_entry_name("a/b"), Err(Error::InvalidArgument));
}

#[test]
fn a_held_node_keeps_its_slot_until_it_is_let_go() {
    let mut fs = open();
    let index = find(&fs, "/docs/a.txt").expect("find");
    fs.track_handle(index);
    assert_eq!(fs.remove_path("/docs/a.txt"), Ok(()));
    let other = fs.create_file("/docs/c.txt").expect("create");
    assert_ne!(other, index);
    fs.release_handle(index);
    assert_eq!(fs.create_file("/docs/d.txt"), Ok(index));
}

#[test]
fn a_sound_volume_is_clean() {
    let mut fs = open();
    assert!(fs.is_countable());
    assert_eq!(fs.count_orphan_data_blocks(), 0);
    let report = fs.check_and_repair().expect("check");
    assert!(report.is_clean());
    assert_eq!(report.repairs_applied, 0);
    assert_eq!(text(&fs, "/top.txt"), b"top");
}

#[test]
fn targets_no_block_holds_are_refused_where_the_link_is() {
    let long = "x".repeat(600);
    let mut fs = open();
    assert_eq!(fs.create_symlink(&long, "/top.txt"), Err(Error::AlreadyExists));
    assert_eq!(fs.create_symlink(&long, "/"), Err(Error::InvalidArgument));
    assert_eq!(fs.create_symlink(&long, "/none/link"), Err(Error::NotFound));
    let mut fs = open_on(MemoryBlockDevice::new("ops", seeded(), true), true);
    assert_eq!(fs.create_symlink(&long, "/link"), Err(Error::PermissionDenied));
}

#[test]
fn a_volume_stores_descriptors() {
    let mut volume = SimpleFsVolume::new(open());
    assert_eq!(
        volume.security_descriptor_mutation_support(),
        SecurityDescriptorMutationSupport::Persistent
    );
    let security = SecurityDescriptor {
        owner_uid: 3,
        owner_gid: 4,
        mode: 0o600,
    };
    assert_eq!(volume.update_security_descriptor("/top.txt", security), Ok(()));
    assert_eq!(
        volume.update_security_descriptor("/none", security),
        Err(Error::NotFound)
    );
    assert_eq!(volume.read_dir("/", 1).expect("entry").security, security);
    let protected = SimpleFsVolume::new(open_on(
        MemoryBlockDevice::new("ops", seeded(), true),
        true,
    ));
    assert_eq!(
        protected.security_descriptor_mutation_support(),
        SecurityDescriptorMutationSupport::PersistentReadOnly
    );
}
