//! What the kernel reports, and the texts that show it.
use vstd::prelude::*;
use vstd::string::*;

use crate::text::{chars_of, decimal, digit_char, join2, join3, to_decimal};

verus! {

/// The number of a process.
pub type ProcessId = u64;

/// What a process does.
#[derive(Debug, Clone, Copy, PartialEq, Eq, Structural)]
pub enum ProcessState {
    New,
    Ready,
    Running,
    Waiting,
    Terminated,
}

/// What a process was started with.
#[derive(Debug)]
pub struct LaunchInfo {
    pub arguments: Vec<String>,
    pub catalog_id: String,
    pub version: String,
    pub environment: Vec<String>,
}

/// A process.
#[derive(Debug)]
pub struct ProcessInfo {
    pub name: String,
    pub pid: ProcessId,
    pub parent_pid: Option<ProcessId>,
    pub state: ProcessState,
    pub user_id: u32,
    pub primary_group_id: u32,
    pub thread_count: usize,
    pub child_count: usize,
    pub current_working_dir: String,
    pub launch: Option<LaunchInfo>,
}

/// What the scheduler reports.
#[derive(Debug)]
pub struct SchedulerInfo {
    pub current_tick: u64,
    pub current_pid: Option<ProcessId>,
    pub processes: Vec<ProcessInfo>,
}

/// A mounted filesystem.
#[derive(Debug)]
pub struct MountLine {
    pub device: String,
    pub path: String,
    pub fs_name: String,
}

/// What the kernel reports. Early at boot there is no scheduler.
#[derive(Debug)]
pub struct SystemInfo {
    pub version: String,
    pub scheduler: Option<SchedulerInfo>,
    pub mounts: Vec<MountLine>,
}

/// The text of the kernel's version.
pub open spec fn version_text(sys: SystemInfo) -> Seq<char> {
    "adastra-kernel "@ + sys.version@ + "\n"@
}

/// Two digits.
pub open spec fn two_digits(n: int) -> Seq<char> {
    seq![digit_char(n / 10), digit_char(n % 10)]
}

/// The text of the time since boot, in seconds with hundredths; a second has a hundred
/// ticks.
pub open spec fn uptime_text(sys: SystemInfo) -> Seq<char> {
    let ticks = match sys.scheduler {
        Some(s) => s.current_tick as int,
        None => 0,
    };
    decimal((ticks / 100) as nat) + "."@ + two_digits(ticks % 100) + "\n"@
}

/// The lines of the first `n` mounts.
pub open spec fn mount_lines(mounts: Seq<MountLine>, n: int) -> Seq<char>
    decreases n,
{
    if n <= 0 {
        seq![]
    } else {
        let m = mounts[n - 1];
        mount_lines(mounts, n - 1) + (m.device@ + " "@ + m.path@ + " "@ + m.fs_name@
            + " ro 0 0\n"@)
    }
}

/// The text of the mounts.
pub open spec fn mounts_text(sys: SystemInfo) -> Seq<char> {
    if sys.mounts@.len() == 0 {
        "(no mounts)\n"@
    } else {
        mount_lines(sys.mounts@, sys.mounts@.len() as int)
    }
}

/// The text of the number of processes.
pub open spec fn processes_text(sys: SystemInfo) -> Seq<char> {
    decimal(
        match sys.scheduler {
            Some(s) => s.processes@.len(),
            None => 0,
        },
    ) + "\n"@
}

/// The first `n` texts, with a separator between them.
pub open spec fn joined(parts: Seq<String>, sep: Seq<char>, n: int) -> Seq<char>
    decreases n,
{
    if n <= 0 {
        seq![]
    } else if n == 1 {
        parts[0]@
    } else {
        joined(parts, sep, n - 1) + sep + parts[n - 1]@
    }
}

/// The command line of a process: its arguments, with NUL between them.
pub open spec fn cmdline_text(p: ProcessInfo) -> Seq<char> {
    match p.launch {
        None => seq![],
        Some(l) => {
            let all = joined(l.arguments@, "\0"@, l.arguments@.len() as int);
            if all.len() == 0 {
                "(none)\n"@
            } else {
                all
            }
        },
    }
}

/// A number with its sign.
pub open spec fn signed_decimal(n: int) -> Seq<char> {
    if n < 0 {
        "-"@ + decimal((-n) as nat)
    } else {
        decimal(n as nat)
    }
}

/// The number shown for a parent: minus one without one.
pub open spec fn shown_parent(parent: Option<ProcessId>) -> int {
    match parent {
        None => -1,
        Some(p) => (p as i64) as int,
    }
}

/// The name of a state.
pub open spec fn state_text(state: ProcessState) -> Seq<char> {
    match state {
        ProcessState::New => "New"@,
        ProcessState::Ready => "Ready"@,
        ProcessState::Running => "Running"@,
        ProcessState::Waiting => "Waiting"@,
        ProcessState::Terminated => "Terminated"@,
    }
}

/// A line of a key and a value.
pub open spec fn field_line(key: Seq<char>, value: Seq<char>) -> Seq<char> {
    key + ":\t"@ + value + "\n"@
}

/// The lines about what a process was started with.
pub open spec fn launch_text(launch: Option<LaunchInfo>) -> Seq<char> {
    match launch {
        None => seq![],
        Some(l) => field_line("CatalogId"@, l.catalog_id@) + field_line("Version"@, l.version@)
            + (if l.environment@.len() == 0 {
            seq![]
        } else {
            field_line("Env"@, joined(l.environment@, " "@, l.environment@.len() as int))
        }),
    }
}

/// The status of a process.
pub open spec fn status_text(p: ProcessInfo) -> Seq<char> {
    field_line("Name"@, p.name@) + field_line("Pid"@, decimal(p.pid as nat)) + field_line(
        "PPid"@,
        signed_decimal(shown_parent(p.parent_pid)),
    ) + field_line("State"@, state_text(p.state)) + field_line(
        "Uid"@,
        decimal(p.user_id as nat),
    ) + field_line("Gid"@, decimal(p.primary_group_id as nat)) + field_line(
        "Threads"@,
        decimal(p.thread_count as nat),
    ) + field_line("Children"@, decimal(p.child_count as nat)) + field_line(
        "Cwd"@,
        p.current_working_dir@,
    ) + launch_text(p.launch)
}

/// The name of a process as a line.
pub open spec fn name_text(p: ProcessInfo) -> Seq<char> {
    p.name@ + "\n"@
}

/// Renders the kernel's version.
pub fn version_data(sys: &SystemInfo) -> (r: String)
    ensures
        r@ == version_text(*sys),
{
    join3("adastra-kernel ", sys.version.as_str(), "\n")
}

/// Renders the time since boot.
pub fn uptime_data(sys: &SystemInfo) -> (r: String)
    ensures
        r@ == uptime_text(*sys),
{
    let ticks: u64 = match &sys.scheduler {
        Some(s) => s.current_tick,
        None => 0,
    };
    let mut out = to_decimal(ticks / 100);
    let rest: u64 = ticks % 100;
    out.append(".");
    let ghost head = out@;
    let tens = to_decimal(rest / 10);
    let ones = to_decimal(rest % 10);
    out.append(tens.as_str());
    out.append(ones.as_str());
    assert(out@ =~= head + two_digits(rest as int));
    out.append("\n");
    out
}

/// Renders the mounts.
pub fn mounts_data(sys: &SystemInfo) -> (r: String)
    ensures
        r@ == mounts_text(*sys),
{
    let mut out = "".to_owned();
    proof {
        reveal_strlit("");
        assert(out@ =~= seq![]);
    }
    let mut i: usize = 0;
    while i < sys.mounts.len()
        invariant
            i <= sys.mounts@.len(),
            out@ == mount_lines(sys.mounts@, i as int),
        decreases sys.mounts@.len() - i,
    {
        let ghost before = out@;
        let m = &sys.mounts[i];
        out.append(m.device.as_str());
        out.append(" ");
        out.append(m.path.as_str());
        out.append(" ");
        out.append(m.fs_name.as_str());
        out.append(" ro 0 0\n");
        assert(out@ =~= before + (m.device@ + " "@ + m.path@ + " "@ + m.fs_name@
            + " ro 0 0\n"@));
        i = i + 1;
    }
    if sys.mounts.len() == 0 {
        return "(no mounts)\n".to_owned();
    }
    out
}

/// Renders the number of processes.
pub fn processes_data(sys: &SystemInfo) -> (r: String)
    ensures
        r@ == processes_text(*sys),
{
    let count: usize = match &sys.scheduler {
        Some(s) => s.processes.len(),
        None => 0,
    };
    let mut out = to_decimal(count as u64);
    out.append("\n");
    out
}

fn join_all(parts: &Vec<String>, sep: &str) -> (r: String)
    ensures
        r@ == joined(parts@, sep@, parts@.len() as int),
{
    let mut out = "".to_owned();
    proof {
        reveal_strlit("");
        assert(out@ =~= seq![]);
    }
    let mut i: usize = 0;
    while i < parts.len()
        invariant
            i <= parts@.len(),
            out@ == joined(parts@, sep@, i as int),
        decreases parts@.len() - i,
    {
        let ghost before = out@;
        if i > 0 {
            out.append(sep);
        }
        out.append(parts[i].as_str());
        if i == 0 {
            assert(out@ =~= parts@[0]@);
        }
        i = i + 1;
    }
    out
}

/// Renders the command line of a process.
pub fn cmdline_data(p: &ProcessInfo) -> (r: String)
    ensures
        r@ == cmdline_text(*p),
{
    match &p.launch {
        None => {
            proof {
                reveal_strlit("");
                assert(""@ =~= seq![]);
            }
            "".to_owned()
        },
        Some(l) => {
            let all = join_all(&l.arguments, "\0");
            if chars_of(all.as_str()).len() == 0 {
                "(none)\n".to_owned()
            } else {
                all
            }
        },
    }
}

/// The number of a parent, as it is shown.
fn parent_number(parent: Option<ProcessId>) -> (r: i64)
    ensures
        r == shown_parent(parent),
{
    match parent {
        None => -1,
        Some(p) => p as i64,
    }
}

fn to_signed_decimal(n: i64) -> (r: String)
    ensures
        r@ == signed_decimal(n as int),
{
    if n < 0 {
        let positive: u64 = (-(n as i128)) as u64;
        join2("-", to_decimal(positive).as_str())
    } else {
        to_decimal(n as u64)
    }
}

fn state_name(state: ProcessState) -> (r: &'static str)
    ensures
        r@ == state_text(state),
{
    match state {
        ProcessState::New => "New",
        ProcessState::Ready => "Ready",
        ProcessState::Running => "Running",
        ProcessState::Waiting => "Waiting",
        ProcessState::Terminated => "Terminated",
    }
}

/// Appends a line of a key and a value.
pub fn push_field(out: &mut String, key: &str, value: &str)
    ensures
        final(out)@ == old(out)@ + field_line(key@, value@),
{
    let ghost before = out@;
    out.append(key);
    out.append(":\t");
    out.append(value);
    out.append("\n");
    assert(out@ =~= before + field_line(key@, value@));
}

fn push_launch(out: &mut String, launch: &Option<LaunchInfo>)
    ensures
        final(out)@ == old(out)@ + launch_text(*launch),
{
    let ghost before = out@;
    if let Some(l) = launch {
        push_field(out, "CatalogId", l.catalog_id.as_str());
        push_field(out, "Version", l.version.as_str());
        if l.environment.len() > 0 {
            push_field(out, "Env", join_all(&l.environment, " ").as_str());
        }
    }
    assert(out@ =~= before + launch_text(*launch));
}

/// Renders the status of a process.
pub fn status_data(p: &ProcessInfo) -> (r: String)
    ensures
        r@ == status_text(*p),
{
    let mut out = "".to_owned();
    proof {
        reveal_strlit("");
    }
    push_field(&mut out, "Name", p.name.as_str());
    assert(out@ =~= field_line("Name"@, p.name@));
    push_field(&mut out, "Pid", to_decimal(p.pid).as_str());
    push_field(&mut out, "PPid", to_signed_decimal(parent_number(p.parent_pid)).as_str());
    push_field(&mut out, "State", state_name(p.state));
    push_field(&mut out, "Uid", to_decimal(p.user_id as u64).as_str());
    push_field(&mut out, "Gid", to_decimal(p.primary_group_id as u64).as_str());
    push_field(&mut out, "Threads", to_decimal(p.thread_count as u64).as_str());
    push_field(&mut out, "Children", to_decimal(p.child_count as u64).as_str());
    push_field(&mut out, "Cwd", p.current_working_dir.as_str());
    push_launch(&mut out, &p.launch);
    out
}

/// Renders the name of a process.
pub fn name_data(p: &ProcessInfo) -> (r: String)
    ensures
        r@ == name_text(*p),
{
    join2(p.name.as_str(), "\n")
}

} // verus!
