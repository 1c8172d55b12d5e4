//! What the files about processes show, and which paths lead to them.
use vstd::arithmetic::div_mod::lemma_fundamental_div_mod_converse;
use vstd::prelude::*;
use vstd::utf8::encode_utf8;

use crate::error::Error;
use crate::procfs::fs::{GlobalFileType, ProcNode, global_file, global_text, lemma_pid_path, pid_entry, pid_file_found, proc_bytes, proc_entry, proc_kind, proc_size, process_at, process_of};
use crate::procfs::paths::{ProcPathView, proc_path};
use crate::procfs::render::{LaunchInfo, MountLine, ProcessId, ProcessInfo, ProcessState, SchedulerInfo, SystemInfo, cmdline_text, field_line, joined, launch_text, mount_lines, mounts_text, shown_parent, signed_decimal, state_text, status_text, two_digits, uptime_text};
use crate::text::{decimal, digit_char, lemma_decimal_digits, texts};
use crate::text_laws::{law_path_is_cut_at_its_first_slash, with_separator};
use crate::vfs::NodeKind;

verus! {

// ── Lines ──

/// Whether a text holds a line, from the start of a line on.
pub open spec fn has_line(text: Seq<char>, line: Seq<char>) -> bool {
    exists|at: int| #[trigger] line_at(text, line, at)
}

pub open spec fn line_at(text: Seq<char>, line: Seq<char>, at: int) -> bool {
    &&& 0 <= at
    &&& at + line.len() <= text.len()
    &&& text.subrange(at, at + line.len()) == line
    &&& at > 0 ==> text[at - 1] == '\n'
}

/// A key, a colon, a tab, a value and the end of the line.
pub open spec fn keyed(key: Seq<char>, value: Seq<char>) -> Seq<char> {
    key + seq![':', '\t'] + value + seq!['\n']
}

/// Whether a text is made of whole lines.
pub open spec fn whole_lines(text: Seq<char>) -> bool {
    text.len() == 0 || text.last() == '\n'
}

pub proof fn lemma_line_stays(text: Seq<char>, line: Seq<char>, more: Seq<char>)
    requires
        has_line(text, line),
    ensures
        has_line(text + more, line),
{
    let at = choose|at: int| #[trigger] line_at(text, line, at);
    let all = text + more;
    assert(all.subrange(at, at + line.len()) =~= text.subrange(at, at + line.len()));
    assert(line_at(all, line, at));
}

pub proof fn lemma_line_added(text: Seq<char>, key: Seq<char>, value: Seq<char>)
    requires
        whole_lines(text),
    ensures
        field_line(key, value) == keyed(key, value),
        has_line(text + field_line(key, value), keyed(key, value)),
        whole_lines(text + field_line(key, value)),
{
    reveal_strlit(":\t");
    reveal_strlit("\n");
    let line = keyed(key, value);
    assert(":\t"@ =~= seq![':', '\t']);
    assert("\n"@ =~= seq!['\n']);
    assert(field_line(key, value) =~= line);
    let all = text + line;
    let at = text.len() as int;
    assert(all.subrange(at, at + line.len()) =~= line);
    assert(all.last() == '\n');
    assert(line_at(all, line, at));
}

/// Keys and values, a line for each.
pub open spec fn field_lines(fields: Seq<(Seq<char>, Seq<char>)>) -> Seq<char>
    decreases fields.len(),
{
    if fields.len() == 0 {
        seq![]
    } else {
        field_lines(fields.drop_last()) + field_line(fields.last().0, fields.last().1)
    }
}

pub proof fn lemma_field_lines_step(
    fields: Seq<(Seq<char>, Seq<char>)>,
    key: Seq<char>,
    value: Seq<char>,
)
    ensures
        field_lines(fields.push((key, value))) == field_lines(fields) + field_line(key, value),
{
    assert(fields.push((key, value)).drop_last() =~= fields);
}

pub proof fn lemma_listed_lines(fields: Seq<(Seq<char>, Seq<char>)>, more: Seq<char>, k: int)
    requires
        0 <= k < fields.len(),
    ensures
        has_line(field_lines(fields) + more, keyed(fields[k].0, fields[k].1)),
        whole_lines(field_lines(fields)),
    decreases fields.len(),
{
    let front = fields.drop_last();
    let (key, value) = fields.last();
    if front.len() > 0 {
        let j = if k < front.len() {
            k
        } else {
            0
        };
        lemma_listed_lines(front, field_line(key, value), j);
        assert(front[j] == fields[j]);
    } else {
        assert(field_lines(front) =~= seq![]);
    }
    lemma_line_added(field_lines(front), key, value);
    lemma_line_stays(field_lines(fields), keyed(fields[k].0, fields[k].1), more);
}

// ── The status of a process ──

/// The fields that the status of every process shows.
pub open spec fn status_fields(p: ProcessInfo) -> Seq<(Seq<char>, Seq<char>)> {
    Seq::<(Seq<char>, Seq<char>)>::empty().push(("Name"@, p.name@)).push(
        ("Pid"@, decimal(p.pid as nat)),
    ).push(("PPid"@, parent_shown(p))).push(
        (
            "State"@,
            match p.state {
                ProcessState::New => "New"@,
                ProcessState::Ready => "Ready"@,
                ProcessState::Running => "Running"@,
                ProcessState::Waiting => "Waiting"@,
                ProcessState::Terminated => "Terminated"@,
            },
        ),
    ).push(("Uid"@, decimal(p.user_id as nat))).push(("Gid"@, decimal(p.primary_group_id as nat))).push(
        ("Threads"@, decimal(p.thread_count as nat)),
    ).push(("Children"@, decimal(p.child_count as nat))).push(("Cwd"@, p.current_working_dir@))
}

/// The number that is shown as a parent's: minus one without a parent.
pub open spec fn parent_shown(p: ProcessInfo) -> Seq<char> {
    match p.parent_pid {
        None => seq!['-', '1'],
        Some(n) => decimal(n as nat),
    }
}

/// The status of a process has a line for its name, its number, its parent's number, its
/// state, its user, its group, its threads, its children and its working directory, each with
/// its own value.
pub proof fn law_status_shows_the_process(p: ProcessInfo, k: int)
    requires
        p.parent_pid matches Some(n) ==> n <= 0x7FFF_FFFF_FFFF_FFFF,
        0 <= k < 9,
    ensures
        status_fields(p).len() == 9,
        has_line(status_text(p), keyed(status_fields(p)[k].0, status_fields(p)[k].1)),
{
    lemma_status_is_listed(p);
    lemma_listed_lines(status_fields(p), launch_text(p.launch), k);
}

proof fn lemma_status_is_listed(p: ProcessInfo)
    requires
        p.parent_pid matches Some(n) ==> n <= 0x7FFF_FFFF_FFFF_FFFF,
    ensures
        status_text(p) == field_lines(status_fields(p)) + launch_text(p.launch),
{
    let parent = signed_decimal(shown_parent(p.parent_pid));
    assert(parent =~= parent_shown(p)) by {
        reveal_strlit("-");
        match p.parent_pid {
            None => {
                assert(decimal(1) =~= seq!['1']);
            },
            Some(n) => {
                assert((n as i64) as int == n as int);
            },
        }
    }
    let s0 = Seq::<(Seq<char>, Seq<char>)>::empty();
    let s1 = s0.push(("Name"@, p.name@));
    let s2 = s1.push(("Pid"@, decimal(p.pid as nat)));
    let s3 = s2.push(("PPid"@, parent));
    let s4 = s3.push(("State"@, state_text(p.state)));
    let s5 = s4.push(("Uid"@, decimal(p.user_id as nat)));
    let s6 = s5.push(("Gid"@, decimal(p.primary_group_id as nat)));
    let s7 = s6.push(("Threads"@, decimal(p.thread_count as nat)));
    let s8 = s7.push(("Children"@, decimal(p.child_count as nat)));
    lemma_field_lines_step(s0, "Name"@, p.name@);
    lemma_field_lines_step(s1, "Pid"@, decimal(p.pid as nat));
    lemma_field_lines_step(s2, "PPid"@, parent);
    lemma_field_lines_step(s3, "State"@, state_text(p.state));
    lemma_field_lines_step(s4, "Uid"@, decimal(p.user_id as nat));
    lemma_field_lines_step(s5, "Gid"@, decimal(p.primary_group_id as nat));
    lemma_field_lines_step(s6, "Threads"@, decimal(p.thread_count as nat));
    lemma_field_lines_step(s7, "Children"@, decimal(p.child_count as nat));
    lemma_field_lines_step(s8, "Cwd"@, p.current_working_dir@);
    assert(field_lines(s0) + field_line("Name"@, p.name@) =~= field_line("Name"@, p.name@));
}

/// The status of a process that was started shows what it was started from.
pub proof fn law_status_shows_the_start(p: ProcessInfo, l: LaunchInfo)
    requires
        p.launch == Some(l),
        p.parent_pid matches Some(n) ==> n <= 0x7FFF_FFFF_FFFF_FFFF,
    ensures
        has_line(status_text(p), keyed("CatalogId"@, l.catalog_id@)),
        has_line(status_text(p), keyed("Version"@, l.version@)),
{
    lemma_status_is_listed(p);
    let env = if l.environment@.len() == 0 {
        Seq::<char>::empty()
    } else {
        field_line("Env"@, joined(l.environment@, " "@, l.environment@.len() as int))
    };
    let a = status_fields(p);
    let b = a.push(("CatalogId"@, l.catalog_id@));
    let c = b.push(("Version"@, l.version@));
    lemma_field_lines_step(a, "CatalogId"@, l.catalog_id@);
    lemma_field_lines_step(b, "Version"@, l.version@);
    let x = field_line("CatalogId"@, l.catalog_id@);
    let y = field_line("Version"@, l.version@);
    assert(launch_text(p.launch) == x + y + env);
    assert(field_lines(a) + (x + y + env) =~= field_lines(a) + x + y + env);
    assert(status_text(p) == field_lines(c) + env);
    lemma_listed_lines(c, env, 9);
    lemma_listed_lines(c, env, 10);
}

// ── The files of the root ──

/// The time since boot ends in a point, the tenths and the hundredths of a second and the end
/// of the line; before the point stand the seconds.
pub proof fn law_uptime_shows_the_ticks(sys: SystemInfo, ticks: u64)
    requires
        sys.scheduler matches Some(s) && s.current_tick == ticks,
    ensures
        ({
            let t = uptime_text(sys);
            let n = t.len();
            &&& n > 4
            &&& t.take(n - 4) == decimal((ticks / 100) as nat)
            &&& t[n - 4] == '.'
            &&& t[n - 3] as int == 48 + ticks / 10 % 10
            &&& t[n - 2] as int == 48 + ticks % 10
            &&& t[n - 1] == '\n'
        }),
{
    reveal_strlit(".");
    reveal_strlit("\n");
    lemma_decimal_digits((ticks / 100) as nat);
    let t = uptime_text(sys);
    let d = decimal((ticks / 100) as nat);
    let n = t.len();
    let k = d.len() as int;
    lemma_hundredths(ticks as int);
    lemma_digit_char(ticks as int % 100 / 10);
    lemma_digit_char(ticks as int % 100 % 10);
    assert("."@ =~= seq!['.'] && "\n"@ =~= seq!['\n']);
    let two = two_digits(ticks as int % 100);
    assert(two.len() == 2 && two[0] as int == 48 + ticks as int % 100 / 10 && two[1] as int == 48
        + ticks as int % 100 % 10);
    assert(t == d + seq!['.'] + two + seq!['\n']);
    assert(n == k + 4);
    assert(t[k] == '.' && t[k + 1] == two[0] && t[k + 2] == two[1] && t[k + 3] == '\n');
    assert(t.take(n - 4) =~= d);
}

proof fn lemma_hundredths(n: int)
    requires
        0 <= n,
    ensures
        n % 100 / 10 == n / 10 % 10,
        n % 100 % 10 == n % 10,
        0 <= n % 100 < 100,
{
    let (q, r) = (n / 100, n % 100);
    let (a, b) = (r / 10, r % 10);
    lemma_fundamental_div_mod_converse(n, 10, 10 * q + a, b);
    lemma_fundamental_div_mod_converse(10 * q + a, 10, q, a);
}

proof fn lemma_digit_char(d: int)
    requires
        0 <= d < 10,
    ensures
        digit_char(d) as int == 48 + d,
{
}

/// Every mount has a line with its device, its path and the name of its filesystem.
pub proof fn law_every_mount_is_shown(sys: SystemInfo, k: int)
    requires
        0 <= k < sys.mounts@.len(),
    ensures
        ({
            let m = sys.mounts@[k];
            has_line(
                mounts_text(sys),
                m.device@ + seq![' '] + m.path@ + seq![' '] + m.fs_name@ + seq![
                    ' ',
                    'r',
                    'o',
                    ' ',
                    '0',
                    ' ',
                    '0',
                    '\n',
                ],
            )
        }),
{
    lemma_mount_shown(sys.mounts@, sys.mounts@.len() as int, k);
}

proof fn lemma_mount_shown(mounts: Seq<MountLine>, n: int, k: int)
    requires
        0 <= k < n <= mounts.len(),
    ensures
        ({
            let m = mounts[k];
            has_line(
                mount_lines(mounts, n),
                m.device@ + seq![' '] + m.path@ + seq![' '] + m.fs_name@ + seq![
                    ' ',
                    'r',
                    'o',
                    ' ',
                    '0',
                    ' ',
                    '0',
                    '\n',
                ],
            )
        }),
        whole_lines(mount_lines(mounts, n)),
    decreases n,
{
    reveal_strlit(" ");
    reveal_strlit(" ro 0 0\n");
    let end = seq![' ', 'r', 'o', ' ', '0', ' ', '0', '\n'];
    assert(" ro 0 0\n"@ =~= end);
    assert(" "@ =~= seq![' ']);
    let m = mounts[n - 1];
    let line = m.device@ + seq![' '] + m.path@ + seq![' '] + m.fs_name@ + end;
    let before = mount_lines(mounts, n - 1);
    let all = before + line;
    assert(all == mount_lines(mounts, n));
    assert(all.last() == '\n');
    if n > 1 {
        lemma_mount_shown(mounts, n - 1, if k < n - 1 {
            k
        } else {
            0
        });
    }
    if k < n - 1 {
        let w = mounts[k];
        lemma_line_stays(
            before,
            w.device@ + seq![' '] + w.path@ + seq![' '] + w.fs_name@ + end,
            line,
        );
    } else {
        let at = before.len() as int;
        assert(all.subrange(at, at + line.len()) =~= line);
        assert(line_at(all, line, at));
    }
}

/// The command line of a process is its arguments with a zero character between each two,
/// where that is not empty.
pub proof fn law_command_line_shows_the_arguments(p: ProcessInfo, l: LaunchInfo)
    requires
        p.launch == Some(l),
        with_separator(texts(l.arguments@), '\0').len() > 0,
    ensures
        cmdline_text(p) == with_separator(texts(l.arguments@), '\0'),
{
    lemma_joined(l.arguments@, l.arguments@.len() as int);
    assert(texts(l.arguments@).take(l.arguments@.len() as int) =~= texts(l.arguments@));
}

proof fn lemma_joined(parts: Seq<String>, n: int)
    requires
        0 <= n <= parts.len(),
    ensures
        joined(parts, "\0"@, n) == with_separator(texts(parts).take(n), '\0'),
    decreases n,
{
    reveal_strlit("\0");
    assert("\0"@ =~= seq!['\0']);
    let t = texts(parts).take(n);
    if n > 1 {
        lemma_joined(parts, n - 1);
        assert(t.drop_last() =~= texts(parts).take(n - 1));
        assert(t.last() == parts[n - 1]@);
    }
}

// ── Paths ──

/// The directory of a process is found under its number, and a file of it under the number, a
/// slash and the file's name.
pub proof fn law_process_paths(pid: ProcessId, file: Seq<char>)
    requires
        file.len() > 0,
    ensures
        proc_path(decimal(pid as nat)) == ProcPathView::PidDir(pid),
        proc_path(decimal(pid as nat) + seq!['/'] + file) == ProcPathView::PidFile(pid, file),
        proc_path(seq!['s', 'e', 'l', 'f'] + seq!['/'] + file) == ProcPathView::SelfFile(file),
        proc_path(seq!['s', 'e', 'l', 'f']) == ProcPathView::SelfLink,
{
    let number = decimal(pid as nat);
    lemma_pid_path(pid);
    lemma_decimal_digits(pid as nat);
    assert forall|i: int| 0 <= i < number.len() implies number[i] != '/' by {
        assert('0' <= number[i] <= '9');
    }
    assert(!number.contains('/'));
    assert('0' <= number[0] <= '9');
    law_path_is_cut_at_its_first_slash(number, file);
    let path = number + seq!['/'] + file;
    assert(path[0] == number[0]);
    reveal_strlit("self");
    let own = seq!['s', 'e', 'l', 'f'];
    assert("self"@ =~= own);
    assert(!own.contains('/'));
    law_path_is_cut_at_its_first_slash(own, file);
    let other = own + seq!['/'] + file;
    assert(other[0] == 's');
    assert(number != own) by {
        assert(own[0] == 's');
    }
}

/// A leading slash changes nothing.
pub proof fn law_leading_slash(path: Seq<char>)
    requires
        path.len() == 0 || path[0] != '/',
    ensures
        proc_path(seq!['/'] + path) == proc_path(path),
{
    assert((seq!['/'] + path).skip(1) =~= path);
}

/// The process with a number is the first one of that number that the scheduler lists.
pub proof fn law_process_is_the_first_of_its_number(sys: SystemInfo, s: SchedulerInfo, k: int)
    requires
        sys.scheduler == Some(s),
        0 <= k < s.processes@.len(),
        forall|i: int|
            #![trigger s.processes@[i]]
            0 <= i < k ==> s.processes@[i].pid != s.processes@[k].pid,
    ensures
        process_of(sys, s.processes@[k].pid) == Ok::<ProcessInfo, Error>(s.processes@[k]),
{
    lemma_first_process(s.processes@, s.processes@[k].pid, 0, k);
}

proof fn lemma_first_process(processes: Seq<ProcessInfo>, pid: ProcessId, i: int, k: int)
    requires
        0 <= i <= k < processes.len(),
        processes[k].pid == pid,
        forall|j: int| #![trigger processes[j]] 0 <= j < k ==> processes[j].pid != pid,
    ensures
        process_at(processes, pid, i) == Some(k),
    decreases k - i,
{
    if i < k {
        assert(processes[i].pid != pid);
        lemma_first_process(processes, pid, i + 1, k);
    }
}

/// Each file of a process shows what it is named for.
pub proof fn law_process_files(sys: SystemInfo, p: ProcessInfo)
    requires
        process_of(sys, p.pid) == Ok::<ProcessInfo, Error>(p),
    ensures
        pid_file_found(sys, p.pid, "status"@) matches Ok(node) && proc_bytes(sys, node) == Ok::<
            Seq<u8>,
            Error,
        >(encode_utf8(status_text(p))),
        pid_file_found(sys, p.pid, "cmdline"@) matches Ok(node) && proc_bytes(sys, node) == Ok::<
            Seq<u8>,
            Error,
        >(encode_utf8(cmdline_text(p))),
        pid_file_found(sys, p.pid, "name"@) matches Ok(node) && proc_bytes(sys, node) == Ok::<
            Seq<u8>,
            Error,
        >(encode_utf8(p.name@ + seq!['\n'])),
{
    reveal_strlit("\n");
    reveal_strlit("status");
    reveal_strlit("cmdline");
    reveal_strlit("name");
    assert("status"@.len() == 6 && "cmdline"@.len() == 7 && "name"@.len() == 4);
    assert("\n"@ =~= seq!['\n']);
}

/// Each file of the root shows what it is named for.
pub proof fn law_root_files(sys: SystemInfo)
    ensures
        global_file("version"@) matches Some(f) && global_text(sys, f) == "adastra-kernel "@
            + sys.version@ + seq!['\n'],
        global_file("uptime"@) matches Some(f) && global_text(sys, f) == uptime_text(sys),
        global_file("mounts"@) matches Some(f) && global_text(sys, f) == mounts_text(sys),
        global_file("processes"@) matches Some(f) && (sys.scheduler matches Some(s) ==> global_text(
            sys,
            f,
        ) == decimal(s.processes@.len()) + seq!['\n']),
{
    reveal_strlit("\n");
    reveal_strlit("version");
    reveal_strlit("uptime");
    reveal_strlit("mounts");
    reveal_strlit("processes");
    assert("\n"@ =~= seq!['\n']);
    assert("version"@[0] == 'v' && "uptime"@[0] == 'u' && "mounts"@[0] == 'm' && "processes"@[0]
        == 'p');
}

/// The directory of a process lists three files, and each is found under its name.
pub proof fn law_process_directory_lists_its_files(
    sys: SystemInfo,
    p: ProcessInfo,
    index: int,
)
    requires
        process_of(sys, p.pid) == Ok::<ProcessInfo, Error>(p),
        0 <= index,
    ensures
        index < 3 ==> (pid_entry(sys, p.pid, index) matches Ok(e) && e.0 == NodeKind::File
            && pid_file_found(sys, p.pid, e.1) is Ok),
        index >= 3 ==> pid_entry(sys, p.pid, index) == Err::<(NodeKind, Seq<char>), Error>(
            Error::NotFound,
        ),
        pid_entry(sys, p.pid, 0) == Ok::<(NodeKind, Seq<char>), Error>(
            (NodeKind::File, "cmdline"@),
        ),
        pid_entry(sys, p.pid, 1) == Ok::<(NodeKind, Seq<char>), Error>(
            (NodeKind::File, "status"@),
        ),
        pid_entry(sys, p.pid, 2) == Ok::<(NodeKind, Seq<char>), Error>((NodeKind::File, "name"@)),
{
    law_process_files(sys, p);
}

/// The directory of a process is listed under its number, and under `self` for the one that
/// runs.
pub proof fn law_process_directory_is_listed(sys: SystemInfo, pid: ProcessId, index: int)
    ensures
        proc_entry(sys, decimal(pid as nat), index) == pid_entry(sys, pid, index),
        sys.scheduler matches Some(s) ==> s.current_pid == Some(pid) ==> proc_entry(
            sys,
            seq!['s', 'e', 'l', 'f'],
            index,
        ) == pid_entry(sys, pid, index),
{
    law_process_paths(pid, seq!['x']);
}

/// A file shows as many bytes as its text has.
pub proof fn law_file_has_the_size_of_its_text(sys: SystemInfo, file: GlobalFileType)
    ensures
        proc_size(sys, ProcNode::Global(file)) == encode_utf8(global_text(sys, file)).len(),
        proc_kind(ProcNode::Global(file)) == NodeKind::File,
{
}

} // verus!
