use std::cell::RefCell;

use kernel_fs::error::Error;
use kernel_fs::filesystem::{
    install_global, sync_global_all, sync_global_caches_aged, sync_global_data, uninstall_global,
    FileSystem, GlobalFs, MountPoint,
};
use kernel_fs::procfs::fs::mount_procfs;
use kernel_fs::servicefs::fs::mount_servicefs;

fn mounted(values: &[u32]) -> FileSystem<u32> {
    FileSystem {
        mounted_fs: values
            .iter()
            .map(|value| MountPoint {
                path: format!("/{}", value),
                fs: *value,
            })
            .collect(),
    }
}

#[test]
fn nothing_is_synced_without_a_global_filesystem() {
    let global = GlobalFs::new();
    let all = vec![mounted(&[1])];
    assert_eq!(sync_global_all(&global, &all, &|_| Err(Error::DeviceError)), Ok(()));
    assert_eq!(sync_global_data(&global, &all, &|_| Err(Error::DeviceError)), Ok(()));
    assert_eq!(
        sync_global_caches_aged(&global, &all, &|_, _| Err(Error::DeviceError), 9),
        Ok(0)
    );
}

#[test]
fn volumes_are_synced_in_order_up_to_the_first_failure() {
    let mut global = GlobalFs::new();
    install_global(&mut global, 0);
    let all = vec![mounted(&[1, 2, 3])];
    let seen = RefCell::new(Vec::new());
    let sync = |value: &u32| {
        seen.borrow_mut().push(*value);
        if *value == 2 {
            Err(Error::DeviceError)
        } else {
            Ok(())
        }
    };
    assert_eq!(sync_global_all(&global, &all, &sync), Err(Error::DeviceError));
    assert_eq!(*seen.borrow(), vec![1, 2]);
    assert_eq!(sync_global_data(&global, &all, &|_| Ok(())), Ok(()));
}

#[test]
fn written_blocks_are_summed() {
    let mut global = GlobalFs::new();
    install_global(&mut global, 0);
    let all = vec![mounted(&[1, 2, 3])];
    let flush = |value: &u32, age: u64| Ok(*value as usize + age as usize);
    assert_eq!(sync_global_caches_aged(&global, &all, &flush, 10), Ok(36));
    assert_eq!(
        sync_global_caches_aged(&global, &all, &|_, _| Err(Error::Busy), 10),
        Err(Error::Busy)
    );
}

#[test]
fn only_the_installed_filesystem_is_uninstalled() {
    let mut global = GlobalFs::new();
    install_global(&mut global, 1);
    uninstall_global(&mut global, 0);
    assert_eq!(global.installed, Some(1));
    uninstall_global(&mut global, 1);
    assert_eq!(global.installed, None);
}

#[test]
fn synthetic_filesystems_are_mounted_on_request() {
    let mut global = GlobalFs::new();
    assert!(matches!(mount_procfs(&global, "/proc"), Err(Error::InternalError)));
    assert!(matches!(mount_servicefs(&global, "/service"), Err(Error::InternalError)));
    install_global(&mut global, 0);
    let request = mount_procfs(&global, "/proc").unwrap();
    assert_eq!(request.device, "/dev/adastra-procfs");
    assert_eq!(request.path, "/proc");
    assert_eq!(request.fs_name, "procfs");
    assert_eq!(request.flags, 0);
    let request = mount_servicefs(&global, "/service").unwrap();
    assert_eq!(request.device, "/dev/protofire-servicefs");
    assert_eq!(request.fs_name, "servicefs");
}

#[test]
fn mounts_are_kept_in_the_order_of_their_paths() {
    let mut fs = FileSystem::new();
    for (path, value) in [("/proc", 1_u32), ("/", 2), ("/data", 3)] {
        let mount = MountPoint {
            path: path.to_string(),
            fs: value,
        };
        assert_eq!(fs.add_mount(mount), Ok(()));
    }
    let again = MountPoint {
        path: "/data".to_string(),
        fs: 4,
    };
    assert_eq!(fs.add_mount(again), Err(Error::AlreadyExists));
    let order: Vec<u32> = fs.mounted_fs.iter().map(|mount| mount.fs).collect();
    assert_eq!(order, [2, 3, 1]);
}
