use kernel_fs::error::Error;
use kernel_fs::tmpfs::volume::TmpFsVolume;
use kernel_fs::vfs::{NodeKind, SecurityDescriptor, SecurityDescriptorMutationSupport};

fn setup() -> TmpFsVolume {
    TmpFsVolume::new("test", 1024 * 1024, 0)
}

#[test]
fn tmpfs_root_lookup() {
    let vol = setup();
    let vnode = vol.lookup("/").expect("lookup root");
    assert_eq!(vnode.kind(), NodeKind::Directory);
}

#[test]
fn tmpfs_create_and_read_file() {
    let mut vol = setup();
    let vnode = vol.create_file("/hello", 0).expect("create file");
    assert_eq!(vnode.kind(), NodeKind::File);

    let n = vnode.write(&mut vol, 0, b"Hello, tmpfs!", 0).expect("write");
    assert_eq!(n, 13);

    let mut buf = vec![0u8; 32];
    let n = vnode.read(&mut vol, 0, &mut buf, 0).expect("read");
    assert_eq!(&buf[..n], b"Hello, tmpfs!");
}

#[test]
fn tmpfs_create_dir_and_lookup() {
    let mut vol = setup();
    vol.create_dir("/sub", 0).expect("create dir");
    vol.create_file("/sub/nested", 0).expect("create nested file");

    let vnode = vol.lookup("/sub/nested").expect("lookup");
    assert_eq!(vnode.kind(), NodeKind::File);
}

#[test]
fn tmpfs_symlink() {
    let mut vol = setup();
    vol.create_file("/target", 0).expect("create target");
    vol.create_symlink("/target", "/link", 0)
        .expect("create symlink");

    let vnode = vol.lookup("/link").expect("lookup symlink");
    assert_eq!(vnode.kind(), NodeKind::Symlink);
    let target = vnode.readlink(&vol).expect("readlink");
    assert_eq!(target, b"/target");
}

#[test]
fn tmpfs_rename() {
    let mut vol = setup();
    vol.create_file("/old", 0).expect("create file");
    vol.rename("/old", "/new").expect("rename");

    assert!(vol.lookup("/new").is_ok());
    assert!(matches!(vol.lookup("/old"), Err(Error::NotFound)));
}

#[test]
fn tmpfs_remove_file() {
    let mut vol = setup();
    vol.create_file("/gone", 0).expect("create file");
    vol.remove_path("/gone").expect("remove");
    assert!(matches!(vol.lookup("/gone"), Err(Error::NotFound)));
}

#[test]
fn tmpfs_stat() {
    let mut vol = setup();
    vol.create_file("/statme", 0).expect("create");
    let meta = vol.stat("/statme").expect("stat");
    assert_eq!(meta.kind, NodeKind::File);
}

#[test]
fn tmpfs_read_dir() {
    let mut vol = setup();
    vol.create_file("/a", 0).expect("create a");
    vol.create_file("/b", 0).expect("create b");

    let e0 = vol.read_dir("/", 0).expect("read_dir 0");
    let e1 = vol.read_dir("/", 1).expect("read_dir 1");
    // Entries are in the order of their names.
    assert_eq!(e0.name, "a");
    assert_eq!(e1.name, "b");
}

#[test]
fn tmpfs_size_quota() {
    let mut vol = TmpFsVolume::new("quota", 10, 0);
    let vnode = vol.create_file("/small", 0).expect("create");
    // Writing more than max_size should fail.
    let result = vnode.write(&mut vol, 0, &[0u8; 20], 0);
    assert!(matches!(result, Err(Error::OutOfMemory)));
}

#[test]
fn tmpfs_set_len() {
    let mut vol = setup();
    let vnode = vol.create_file("/resize", 0).expect("create");
    vnode.set_len(&mut vol, 42, 0).expect("set_len");
    assert_eq!(vnode.size(&vol), 42);
}

#[test]
fn tmpfs_write_past_the_end_leaves_zeros() {
    let mut vol = setup();
    let vnode = vol.create_file("/gap", 1).unwrap();
    assert_eq!(vnode.write(&mut vol, 3, b"xy", 5), Ok(2));
    assert_eq!(vnode.write(&mut vol, 0, b"a", 6), Ok(1));
    let mut buf = [9u8; 8];
    assert_eq!(vnode.read(&mut vol, 0, &mut buf, 7), Ok(5));
    assert_eq!(&buf, b"a\0\0xy\x09\x09\x09");
    assert_eq!(vnode.read(&mut vol, 5, &mut buf, 8), Ok(0));
    let meta = vol.stat("/gap").unwrap();
    assert_eq!((meta.created, meta.modified, meta.accessed), (1, 6, 7));
    assert_eq!(vol.inner.used_size, 5);
}

#[test]
fn tmpfs_quota_counts_what_every_file_uses() {
    let mut vol = TmpFsVolume::new("quota", 10, 0);
    let a = vol.create_file("/a", 0).unwrap();
    let b = vol.create_file("/b", 0).unwrap();
    assert_eq!(a.write(&mut vol, 0, &[1; 6], 0), Ok(6));
    assert_eq!(b.write(&mut vol, 0, &[1; 5], 0), Err(Error::OutOfMemory));
    assert_eq!(b.set_len(&mut vol, 4, 0), Ok(()));
    assert_eq!(b.set_len(&mut vol, 5, 0), Err(Error::OutOfMemory));
    vol.remove_path("/a").unwrap();
    assert_eq!(vol.inner.used_size, 4);
    assert_eq!(b.write(&mut vol, 0, &[1; 10], 0), Ok(10));
    assert_eq!(b.write(&mut vol, u64::MAX, &[1], 0), Err(Error::OutOfMemory));
}

#[test]
fn tmpfs_names_are_refused_where_they_cannot_be() {
    let mut vol = setup();
    vol.create_file("/f", 0).unwrap();
    assert!(matches!(vol.create_file("/f", 0), Err(Error::AlreadyExists)));
    assert!(matches!(vol.create_file("/f/x", 0), Err(Error::InvalidArgument)));
    assert!(matches!(vol.create_file("/d/x", 0), Err(Error::NotFound)));
    assert_eq!(vol.create_dir("/", 0), Err(Error::InvalidArgument));
    vol.create_dir("/d", 0).unwrap();
    vol.create_file("/d/x", 0).unwrap();
    assert_eq!(vol.remove_path("/d"), Err(Error::Busy));
    assert_eq!(vol.remove_path("/ghost"), Err(Error::NotFound));
    assert_eq!(vol.rename("/d", "/d/inside"), Err(Error::InvalidArgument));
    assert_eq!(vol.rename("/f", "/d"), Err(Error::InvalidArgument));
    assert!(matches!(vol.read_dir("/f", 0), Err(Error::InvalidArgument)));
    assert!(matches!(vol.read_dir("/", 2), Err(Error::NotFound)));
}

#[test]
fn tmpfs_hard_links_share_a_node() {
    let mut vol = setup();
    let file = vol.create_file("/a", 0).unwrap();
    file.write(&mut vol, 0, b"shared", 0).unwrap();
    vol.hard_link("/a", "/b").unwrap();
    vol.remove_path("/a").unwrap();
    let other = vol.lookup("/b").unwrap();
    assert_eq!(other.ino, file.ino);
    assert_eq!(other.size, 6);
    vol.create_dir("/d", 0).unwrap();
    assert_eq!(vol.hard_link("/d", "/e"), Err(Error::PermissionDenied));
    assert_eq!(vol.hard_link("/b", "/d"), Err(Error::AlreadyExists));
    assert_eq!(vol.hard_link("/ghost", "/x"), Err(Error::NotFound));
}

#[test]
fn tmpfs_rename_replaces_and_moves() {
    let mut vol = setup();
    vol.create_dir("/d", 0).unwrap();
    let a = vol.create_file("/a", 0).unwrap();
    a.write(&mut vol, 0, b"new", 0).unwrap();
    let b = vol.create_file("/d/b", 0).unwrap();
    b.write(&mut vol, 0, b"older", 0).unwrap();
    vol.rename("/a", "/d/b").unwrap();
    assert!(matches!(vol.lookup("/a"), Err(Error::NotFound)));
    let found = vol.lookup("/d/b").unwrap();
    assert_eq!(found.ino, a.ino);
    assert_eq!(vol.inner.used_size, 3);
}

#[test]
fn tmpfs_attributes_are_kept_in_order() {
    let mut vol = setup();
    let file = vol.create_file("/f", 0).unwrap();
    assert_eq!(file.set_xattr(&mut vol, b"", b"x"), Err(Error::InvalidArgument));
    vol.set_xattr("/f", b"user.b", b"2").unwrap();
    file.set_xattr(&mut vol, b"user.a", b"1").unwrap();
    vol.set_xattr("/f", b"user.b", b"3").unwrap();
    let names: Vec<Vec<u8>> = vol.list_xattrs("/f").unwrap().into_iter().map(|x| x.name).collect();
    assert_eq!(names, vec![b"user.a".to_vec(), b"user.b".to_vec()]);
    assert_eq!(file.get_xattr(&vol, b"user.b"), Ok(Some(b"3".to_vec())));
    assert_eq!(vol.get_xattr("/f", b"user.c"), Ok(None));
    assert_eq!(file.remove_xattr(&mut vol, b"user.a"), Ok(()));
    assert_eq!(vol.remove_xattr("/f", b"user.a"), Err(Error::NotFound));
    assert_eq!(file.list_xattrs(&vol).unwrap().len(), 1);
}

#[test]
fn tmpfs_devices_and_descriptors() {
    let mut vol = setup();
    let device = vol.create_device("/null", 1, 3, 0).unwrap();
    assert_eq!(device.device_id(&vol), Ok((1, 3)));
    assert_eq!(device.readlink(&vol), Err(Error::InvalidArgument));
    assert_eq!(device.write(&mut vol, 0, b"x", 0), Err(Error::InvalidArgument));
    let sd = SecurityDescriptor::new(7, 8, 0o600);
    vol.update_security_descriptor("/null", sd).unwrap();
    assert_eq!(vol.stat("/null").unwrap().security, sd);
    assert_eq!(
        vol.security_descriptor_mutation_support(),
        SecurityDescriptorMutationSupport::Persistent
    );
    assert_eq!(vol.check_and_repair().unwrap().issues_detected, 0);
    assert_eq!(vol.name(), "test");
}
