use kernel_fs::error::Error;
use kernel_fs::servicefs::fs::{parse_servicefs_path, ServiceFs, ServiceNode, ServicefsPath};
use kernel_fs::servicefs::registry::{
    ServiceKind, ServiceRecord, ServiceRegistry, ServiceSecurity, ServiceState,
};
use kernel_fs::vfs::NodeKind;

fn definition(name: &str, auto_restart: bool) -> ServiceRecord {
    ServiceRecord {
        name: String::from(name),
        kind: ServiceKind::UserProgram,
        target: Some(format!("/system/{}.elf", name)),
        state: ServiceState::Pending,
        pid: None,
        restarts: 0,
        auto_restart,
        security: ServiceSecurity::Guest,
        state_since_tick: 0,
        last_error: None,
    }
}

fn record<'a>(services: &'a mut ServiceRegistry, name: &str) -> &'a mut ServiceRecord {
    let k = services.find(name).expect("registered");
    &mut services.records[k]
}

fn mark_running(services: &mut ServiceRegistry, name: &str, pid: Option<u64>, tick: u64) {
    let r = record(services, name);
    r.state = ServiceState::Running;
    r.pid = pid;
    r.state_since_tick = tick;
}

fn mark_failed(services: &mut ServiceRegistry, name: &str, reason: &str, tick: u64) {
    let r = record(services, name);
    r.state = ServiceState::Failed;
    r.pid = None;
    r.last_error = Some(String::from(reason));
    r.state_since_tick = tick;
}

/// Read a whole file node into a `String`.
fn read_to_string(services: &ServiceRegistry, vnode: &ServiceNode) -> String {
    let mut buffer = vec![0_u8; 512];
    let n = vnode.read(services, 0, &mut buffer).expect("read");
    assert_eq!(vnode.size(services), n);
    String::from_utf8(buffer[..n].to_vec()).expect("utf8")
}

fn list_names(services: &ServiceRegistry, path: &str) -> Vec<String> {
    let mut names = Vec::new();
    for index in 0..64 {
        match ServiceFs.read_dir(services, path, index) {
            Ok(entry) => names.push(entry.name),
            Err(_) => break,
        }
    }
    names
}

fn with_alpha() -> ServiceRegistry {
    let mut services = ServiceRegistry::new();
    services.register(definition("alpha", true));
    services
}

#[test]
fn parse_root_paths() {
    assert_eq!(parse_servicefs_path(""), ServicefsPath::Root);
    assert_eq!(parse_servicefs_path("/"), ServicefsPath::Root);
}

#[test]
fn parse_service_dir_paths() {
    assert_eq!(
        parse_servicefs_path("alpha"),
        ServicefsPath::ServiceDir("alpha")
    );
    assert_eq!(
        parse_servicefs_path("/alpha/"),
        ServicefsPath::ServiceDir("alpha")
    );
}

#[test]
fn parse_service_file_paths() {
    assert_eq!(
        parse_servicefs_path("alpha/state"),
        ServicefsPath::ServiceFile("alpha", "state")
    );
}

#[test]
fn root_lists_every_registered_service_in_name_order() {
    let mut services = ServiceRegistry::new();
    services.register(definition("gamma", true));
    services.register(definition("alpha", true));
    services.register(definition("beta", true));

    assert_eq!(list_names(&services, ""), vec!["alpha", "beta", "gamma"]);
}

#[test]
fn service_dir_lists_its_files() {
    let services = with_alpha();

    assert_eq!(
        list_names(&services, "alpha"),
        vec![
            "state",
            "kind",
            "restarts",
            "auto_restart",
            "security",
            "describe"
        ]
    );
}

#[test]
fn unknown_service_and_unknown_file_are_not_found() {
    let services = with_alpha();

    assert!(ServiceFs.lookup(&services, "ghost").is_err());
    assert!(ServiceFs.lookup(&services, "alpha/ghost").is_err());
    assert!(ServiceFs.lookup(&services, "alpha/state/deeper").is_err());
    assert!(ServiceFs.read_dir(&services, "ghost", 0).is_err());
}

#[test]
fn state_file_reflects_the_registry() {
    let mut services = with_alpha();
    mark_running(&mut services, "alpha", Some(4), 10);

    let vnode = ServiceFs.lookup(&services, "alpha/state").expect("state node");
    assert_eq!(vnode.kind(), NodeKind::File);
    assert_eq!(vnode.name(), "state");
    assert_eq!(read_to_string(&services, &vnode), "running\n");
}

#[test]
fn every_single_value_file_renders() {
    let mut services = with_alpha();
    mark_running(&mut services, "alpha", Some(4), 0);
    record(&mut services, "alpha").restarts += 1;

    let read = |path: &str| {
        read_to_string(&services, &ServiceFs.lookup(&services, path).expect("node"))
    };
    assert_eq!(read("alpha/kind"), "user_program\n");
    assert_eq!(read("alpha/restarts"), "1\n");
    assert_eq!(read("alpha/auto_restart"), "true\n");
    assert_eq!(read("alpha/security"), "guest\n");
}

#[test]
fn describe_reports_every_field() {
    let mut services = with_alpha();
    mark_running(&mut services, "alpha", Some(4), 10);
    mark_failed(&mut services, "alpha", "fault at 0x1000", 20);

    let node = ServiceFs.lookup(&services, "alpha/describe").expect("describe");
    let text = read_to_string(&services, &node);
    assert!(text.contains("Name:\talpha\n"), "{text}");
    assert!(text.contains("Kind:\tuser_program\n"), "{text}");
    assert!(text.contains("Target:\t/system/alpha.elf\n"), "{text}");
    assert!(text.contains("State:\tfailed\n"), "{text}");
    assert!(text.contains("Restarts:\t0\n"), "{text}");
    assert!(text.contains("AutoRestart:\ttrue\n"), "{text}");
    assert!(text.contains("LastError:\tfault at 0x1000\n"), "{text}");
}

#[test]
fn describe_reports_a_missing_pid_as_none() {
    let services = with_alpha();

    let node = ServiceFs.lookup(&services, "alpha/describe").expect("describe");
    let text = read_to_string(&services, &node);
    assert!(text.contains("Pid:\t(none)\n"), "{text}");
    assert!(text.contains("LastError:\t(none)\n"), "{text}");
}

#[test]
fn a_restart_is_visible_on_the_next_read() {
    let mut services = with_alpha();
    mark_running(&mut services, "alpha", Some(4), 0);
    let node = ServiceFs.lookup(&services, "alpha/state").expect("state");
    assert_eq!(read_to_string(&services, &node), "running\n");

    // The node holds no copy, so the same node read after a state change reports the new
    // state.
    mark_failed(&mut services, "alpha", "process exited", 100);
    assert_eq!(
        read_to_string(
            &services,
            &ServiceFs.lookup(&services, "alpha/state").expect("state")
        ),
        "failed\n"
    );
    assert_eq!(read_to_string(&services, &node), "failed\n");
}

#[test]
fn offset_reads_walk_the_rendered_bytes() {
    let mut services = with_alpha();
    mark_running(&mut services, "alpha", Some(4), 0);

    // "running\n" is eight bytes; an offset of four lands mid-word.
    let vnode = ServiceFs.lookup(&services, "alpha/state").expect("state");
    let mut buffer = [0_u8; 3];
    assert_eq!(vnode.read(&services, 0, &mut buffer).expect("read"), 3);
    assert_eq!(&buffer, b"run");
    assert_eq!(vnode.read(&services, 4, &mut buffer).expect("read"), 3);
    assert_eq!(&buffer, b"ing");
    assert_eq!(vnode.read(&services, 6, &mut buffer).expect("read"), 2);
    assert_eq!(&buffer[..2], b"g\n");
    assert_eq!(vnode.read(&services, 64, &mut buffer).expect("read"), 0);
}

#[test]
fn servicefs_is_read_only() {
    let services = with_alpha();

    assert!(ServiceFs.create_file("alpha/new").is_err());
    assert!(ServiceFs.create_dir("new").is_err());
    assert!(ServiceFs.rename("alpha", "beta").is_err());
    assert!(ServiceFs.remove_path("alpha").is_err());

    let vnode = ServiceFs.lookup(&services, "alpha/state").expect("state");
    assert_eq!(vnode.write(0, b"running\n"), Err(Error::PermissionDenied));
}

#[test]
fn root_stat_is_a_directory() {
    let meta = ServiceFs.stat(&ServiceRegistry::new(), "/").expect("stat root");
    assert_eq!(meta.kind, NodeKind::Directory);
}

#[test]
fn name_is_servicefs() {
    assert_eq!(ServiceFs.name(), "servicefs");
}

#[test]
fn describe_is_rendered_whole() {
    let mut services = with_alpha();
    mark_running(&mut services, "alpha", Some(4), 10);
    record(&mut services, "alpha").kind = ServiceKind::KernelThread;
    record(&mut services, "alpha").security = ServiceSecurity::System;
    record(&mut services, "alpha").target = None;
    let node = ServiceFs.lookup(&services, "/alpha/describe").unwrap();
    assert_eq!(
        read_to_string(&services, &node),
        "Name:\talpha\nKind:\tkernel_thread\nTarget:\t(none)\nState:\trunning\nPid:\t4\n\
         Restarts:\t0\nAutoRestart:\ttrue\nSecurity:\tsystem\nStateSinceTick:\t10\n\
         LastError:\t(none)\n"
    );
}

#[test]
fn a_service_that_is_gone_cannot_be_read() {
    let mut services = with_alpha();
    let node = ServiceFs.lookup(&services, "alpha/state").unwrap();
    services.records.clear();
    assert_eq!(node.read(&services, 0, &mut [0; 8]), Err(Error::NotFound));
    assert_eq!(node.size(&services), 0);
    assert_eq!(node.metadata(&services).unwrap().security.mode, 0o444);
}

#[test]
fn registering_again_replaces_the_service() {
    let mut services = with_alpha();
    services.register(definition("alpha", false));
    assert_eq!(services.records.len(), 1);
    assert!(!services.records[0].auto_restart);
    let dir = ServiceFs.lookup(&services, "alpha").unwrap();
    assert_eq!(dir.name(), "alpha");
    assert_eq!(dir.metadata(&services).unwrap().security.mode, 0o555);
    assert_eq!(dir.read(&services, 0, &mut [0]), Err(Error::PermissionDenied));
}
