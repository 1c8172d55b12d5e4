use kernel_fs::error::Error;
use kernel_fs::procfs::fs::{ProcFs, ProcNode};
use kernel_fs::procfs::paths::{parse_procfs_path, ProcfsPath};
use kernel_fs::procfs::render::{
    LaunchInfo, MountLine, ProcessInfo, ProcessState, SchedulerInfo, SystemInfo,
};
use kernel_fs::synthetic::StaticDataVNode;
use kernel_fs::vfs::{NodeKind, SecurityDescriptorMutationSupport};

fn idle() -> SystemInfo {
    SystemInfo {
        version: String::from("0.1.0"),
        scheduler: None,
        mounts: Vec::new(),
    }
}

fn process(pid: u64, name: &str) -> ProcessInfo {
    ProcessInfo {
        name: String::from(name),
        pid,
        parent_pid: None,
        state: ProcessState::Ready,
        user_id: 0,
        primary_group_id: 0,
        thread_count: 1,
        child_count: 0,
        current_working_dir: String::from("/"),
        launch: None,
    }
}

fn busy() -> SystemInfo {
    let mut shell = process(42, "shell");
    shell.parent_pid = Some(1);
    shell.state = ProcessState::Running;
    shell.user_id = 1000;
    shell.primary_group_id = 100;
    shell.thread_count = 3;
    shell.child_count = 2;
    shell.current_working_dir = String::from("/data/users/guest");
    shell.launch = Some(LaunchInfo {
        arguments: vec![String::from("sh"), String::from("-c"), String::from("ls")],
        catalog_id: String::from("core.shell"),
        version: String::from("2.0"),
        environment: vec![String::from("HOME=/"), String::from("TERM=vt")],
    });
    SystemInfo {
        version: String::from("1.2.3"),
        scheduler: Some(SchedulerInfo {
            current_tick: 12_305,
            current_pid: Some(42),
            processes: vec![process(1, "init"), shell],
        }),
        mounts: vec![MountLine {
            device: String::from("/dev/adastra-system"),
            path: String::from("/system"),
            fs_name: String::from("simplefs-system"),
        }],
    }
}

fn text(sys: &SystemInfo, path: &str) -> String {
    let node = ProcFs.lookup(sys, path).expect("node");
    let mut buf = vec![0u8; 512];
    let n = node.read(sys, 0, &mut buf).expect("read");
    assert_eq!(node.size(sys), n);
    String::from_utf8(buf[..n].to_vec()).expect("utf8")
}

#[test]
fn procfs_lookup_version() {
    let p = ProcFs;
    let sys = idle();
    let vnode = p.lookup(&sys, "version").expect("version node");
    assert_eq!(vnode.kind(), NodeKind::File);
    assert_eq!(vnode.name(), "version");
    let mut buf = [0u8; 128];
    let n = vnode.read(&sys, 0, &mut buf).expect("read");
    assert!(n > 0);
    let s = core::str::from_utf8(&buf[..n]).expect("utf8");
    assert!(s.starts_with("adastra-kernel "));
}

#[test]
fn procfs_lookup_uptime() {
    let p = ProcFs;
    let sys = idle();
    let vnode = p.lookup(&sys, "uptime").expect("uptime node");
    let mut buf = [0u8; 32];
    let n = vnode.read(&sys, 0, &mut buf).expect("read");
    let s = core::str::from_utf8(&buf[..n]).expect("utf8");
    // Format: "seconds.hundredths\n"
    assert!(s.ends_with('\n'));
}

#[test]
fn procfs_lookup_processes() {
    let p = ProcFs;
    let sys = idle();
    let vnode = p.lookup(&sys, "processes").expect("processes node");
    let mut buf = [0u8; 16];
    let n = vnode.read(&sys, 0, &mut buf).expect("read");
    let s = core::str::from_utf8(&buf[..n]).expect("utf8");
    assert!(s.trim_end().parse::<usize>().is_ok());
}

#[test]
fn procfs_lookup_unknown_returns_not_found() {
    let p = ProcFs;
    assert!(p.lookup(&idle(), "nonexistent").is_err());
}

#[test]
fn procfs_read_dir_lists_all_entries() {
    let p = ProcFs;
    let sys = idle();
    let mut names = Vec::new();
    for i in 0..20 {
        if let Ok(entry) = p.read_dir(&sys, "", i) {
            names.push(entry.name);
        } else {
            break;
        }
    }
    assert!(names.contains(&String::from("version")));
    assert!(names.contains(&String::from("uptime")));
    assert!(names.contains(&String::from("mounts")));
    assert!(names.contains(&String::from("processes")));
    assert!(names.contains(&String::from("self")));
}

#[test]
fn procfs_stat_root_is_directory() {
    let p = ProcFs;
    let meta = p.stat(&idle(), "").expect("stat root");
    assert_eq!(meta.kind, NodeKind::Directory);
}

#[test]
fn procfs_is_read_only() {
    let p = ProcFs;
    assert!(p.create_file("x").is_err());
    assert!(p.create_dir("x").is_err());
    assert!(p.rename("a", "b").is_err());
    assert!(p.remove_path("a").is_err());
}

#[test]
fn procfs_name() {
    assert_eq!(ProcFs.name(), "procfs");
}

#[test]
fn static_data_vnode_zero_length_read() {
    let vnode = StaticDataVNode::new("test", || b"hello".to_vec());
    assert_eq!(vnode.read(0, &mut []).unwrap(), 0);
}

#[test]
fn static_data_vnode_partial_read() {
    let vnode = StaticDataVNode::new("test", || b"abcdefghij".to_vec());
    let mut buf = [0u8; 4];
    assert_eq!(vnode.read(0, &mut buf).unwrap(), 4);
    assert_eq!(&buf, b"abcd");
    // offset read
    assert_eq!(vnode.read(4, &mut buf).unwrap(), 4);
    assert_eq!(&buf, b"efgh");
}

#[test]
fn static_data_vnode_read_past_end() {
    let vnode = StaticDataVNode::new("test", || b"abc".to_vec());
    let mut buf = [0u8; 8];
    assert_eq!(vnode.read(0, &mut buf).unwrap(), 3);
    assert_eq!(&buf[..3], b"abc");
    assert_eq!(vnode.read(10, &mut buf).unwrap(), 0);
}

#[test]
fn procfs_lookup_self_is_symlink() {
    let p = ProcFs;
    let vnode = p.lookup(&idle(), "self").expect("self node");
    assert_eq!(vnode.kind(), NodeKind::Symlink);
    assert_eq!(vnode.name(), "self");
}

#[test]
fn procfs_self_readlink_returns_path() {
    let p = ProcFs;
    let sys = idle();
    let vnode = p.lookup(&sys, "self").expect("self node");
    let target = vnode.readlink(&sys).expect("readlink");
    let target_str = core::str::from_utf8(&target).expect("utf8");
    assert!(target_str.starts_with("/proc/"));
}

#[test]
fn procfs_parse_path_root() {
    assert!(matches!(parse_procfs_path(""), ProcfsPath::Root));
    assert!(matches!(parse_procfs_path("/"), ProcfsPath::Root));
}

#[test]
fn procfs_parse_path_self() {
    assert!(matches!(parse_procfs_path("self"), ProcfsPath::Self_));
}

#[test]
fn procfs_parse_path_self_file() {
    match parse_procfs_path("self/cmdline") {
        ProcfsPath::SelfFile("cmdline") => {}
        other => panic!("expected SelfFile(\"cmdline\"), got {:?}", other),
    }
}

#[test]
fn procfs_parse_path_pid_dir() {
    match parse_procfs_path("42") {
        ProcfsPath::PidDir(42) => {}
        other => panic!("expected PidDir(42), got {:?}", other),
    }
}

#[test]
fn procfs_parse_path_pid_file() {
    match parse_procfs_path("42/status") {
        ProcfsPath::PidFile(42, "status") => {}
        other => panic!("expected PidFile(42, \"status\"), got {:?}", other),
    }
}

#[test]
fn procfs_parse_path_global_file() {
    match parse_procfs_path("version") {
        ProcfsPath::GlobalFile("version") => {}
        other => panic!("expected GlobalFile(\"version\"), got {:?}", other),
    }
}

#[test]
fn procfs_lookup_pid_dir_fails_for_nonexistent_process() {
    let p = ProcFs;
    assert!(p.lookup(&busy(), "99999").is_err());
}

#[test]
fn procfs_read_dir_pid_dir_fails_for_nonexistent_process() {
    let p = ProcFs;
    assert!(p.read_dir(&busy(), "99999", 0).is_err());
}

#[test]
fn procfs_pid_file_cmdline() {
    let p = ProcFs;
    let sys = busy();
    let pid = sys.scheduler.as_ref().and_then(|s| s.current_pid).unwrap();
    if let Ok(dir) = p.lookup(&sys, &format!("{}", pid)) {
        assert_eq!(dir.kind(), NodeKind::Directory);
    }
    assert_eq!(text(&sys, "42/cmdline"), "sh\0-c\0ls");
}

#[test]
fn procfs_self_status_path_resolves_when_scheduler_active() {
    let p = ProcFs;
    let result = p.lookup(&busy(), "self/status");
    if let Ok(vnode) = result {
        assert_eq!(vnode.kind(), NodeKind::File);
        assert_eq!(vnode.name(), "status");
    }
    assert!(result.is_ok());
}

#[test]
fn procfs_renders_the_files_of_the_root() {
    let sys = busy();
    assert_eq!(text(&sys, "version"), "adastra-kernel 1.2.3\n");
    assert_eq!(text(&sys, "uptime"), "123.05\n");
    assert_eq!(
        text(&sys, "/mounts"),
        "/dev/adastra-system /system simplefs-system ro 0 0\n"
    );
    assert_eq!(text(&sys, "processes"), "2\n");
    assert_eq!(text(&idle(), "mounts"), "(no mounts)\n");
    assert_eq!(text(&idle(), "uptime"), "0.00\n");
    assert_eq!(text(&idle(), "processes"), "0\n");
}

#[test]
fn procfs_renders_the_files_of_a_process() {
    let sys = busy();
    assert_eq!(text(&sys, "self/name"), "shell\n");
    assert_eq!(
        text(&sys, "42/status"),
        "Name:\tshell\nPid:\t42\nPPid:\t1\nState:\tRunning\nUid:\t1000\nGid:\t100\n\
         Threads:\t3\nChildren:\t2\nCwd:\t/data/users/guest\nCatalogId:\tcore.shell\n\
         Version:\t2.0\nEnv:\tHOME=/ TERM=vt\n"
    );
    assert_eq!(
        text(&sys, "1/status"),
        "Name:\tinit\nPid:\t1\nPPid:\t-1\nState:\tReady\nUid:\t0\nGid:\t0\nThreads:\t1\n\
         Children:\t0\nCwd:\t/\n"
    );
    assert_eq!(text(&sys, "1/cmdline"), "");
}

#[test]
fn procfs_empty_command_line_is_none() {
    let mut sys = busy();
    if let Some(s) = sys.scheduler.as_mut() {
        s.processes[1].launch.as_mut().unwrap().arguments.clear();
    }
    assert_eq!(text(&sys, "42/cmdline"), "(none)\n");
}

#[test]
fn procfs_listed_entries_are_found() {
    let p = ProcFs;
    let sys = busy();
    let mut count = 0;
    while let Ok(entry) = p.read_dir(&sys, "/", count) {
        let node = p.lookup(&sys, &entry.name).expect("listed");
        assert_eq!(node.kind(), entry.kind);
        count += 1;
    }
    assert_eq!(count, 7);
    assert_eq!(p.read_dir(&sys, "", 6).unwrap().name, "42");
    assert_eq!(p.read_dir(&sys, "self", 0).unwrap().name, "cmdline");
    assert_eq!(p.read_dir(&sys, "1", 2).unwrap().name, "name");
    assert!(matches!(p.read_dir(&sys, "1", 3), Err(Error::NotFound)));
    assert!(matches!(p.read_dir(&sys, "version", 0), Err(Error::NotFound)));
}

#[test]
fn procfs_reports_why_a_node_is_missing() {
    let p = ProcFs;
    assert_eq!(p.lookup(&idle(), "self/status"), Err(Error::InternalError));
    assert_eq!(p.lookup(&idle(), "1"), Err(Error::InternalError));
    assert_eq!(p.lookup(&idle(), "1/status"), Err(Error::InternalError));
    assert_eq!(p.lookup(&idle(), "1/ghost"), Err(Error::NotFound));
    assert_eq!(p.lookup(&busy(), "7/status"), Err(Error::NotFound));
    assert!(matches!(p.read_dir(&idle(), "self", 0), Err(Error::InternalError)));
    assert!(matches!(p.read_dir(&idle(), "", 5), Err(Error::InternalError)));
}

#[test]
fn procfs_paths_with_signs_and_slashes() {
    assert!(matches!(parse_procfs_path("+42"), ProcfsPath::PidDir(42)));
    assert!(matches!(parse_procfs_path("-42"), ProcfsPath::GlobalFile("-42")));
    assert!(matches!(parse_procfs_path("self/"), ProcfsPath::Root));
    assert!(matches!(parse_procfs_path("version/x"), ProcfsPath::GlobalFile("version")));
    assert!(matches!(
        parse_procfs_path("18446744073709551616"),
        ProcfsPath::GlobalFile(_)
    ));
}

#[test]
fn procfs_nodes_refuse_what_they_cannot_do() {
    let p = ProcFs;
    let sys = busy();
    let link = p.lookup(&sys, "self").unwrap();
    assert_eq!(link.readlink(&sys).unwrap(), b"/proc/42");
    assert_eq!(link.read(&sys, 0, &mut [0]), Err(Error::PermissionDenied));
    assert_eq!(link.write(0, b"x"), Err(Error::PermissionDenied));
    let dir = p.lookup(&sys, "42").unwrap();
    assert_eq!(dir, ProcNode::PidDir(42));
    assert_eq!(dir.name(), ".");
    assert_eq!(dir.read(&sys, 0, &mut [0]), Err(Error::PermissionDenied));
    assert_eq!(dir.readlink(&sys), Err(Error::InvalidArgument));
    assert_eq!(p.lookup(&sys, "").unwrap().read(&sys, 0, &mut [0]), Ok(0));
    assert_eq!(p.stat(&sys, "/").unwrap().size, 4);
    assert_eq!(p.stat(&sys, "processes").unwrap().size, 2);
    assert_eq!(p.check_and_repair(), Err(Error::Unsupported));
    assert_eq!(
        p.security_descriptor_mutation_support(),
        SecurityDescriptorMutationSupport::LayoutDerivedOnly
    );
}
