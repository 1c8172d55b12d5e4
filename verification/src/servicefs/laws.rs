//! What the files about services show, and which paths lead to them.
use vstd::prelude::*;
use vstd::utf8::encode_utf8;

use crate::error::Error;
use crate::order::text_before;
use crate::procfs::laws::{field_lines, has_line, keyed, lemma_field_lines_step, lemma_listed_lines};
use crate::procfs::render::field_line;
use crate::servicefs::fs::{ServiceNodeView, ServicePathView, service_bytes, service_entry, service_found, service_metadata, service_of, service_path};
use crate::servicefs::registry::{ServiceKind, ServiceRecord, ServiceRegistry, ServiceSecurity, ServiceState, service_at, service_slot, with_service};
use crate::servicefs::render::{bool_text, describe_text, optional_number, optional_text, service_file, service_kind_text, service_security_text, service_state_text, service_text};
use crate::text::decimal;
use crate::text_laws::law_path_is_cut_at_its_first_slash;
use crate::vfs::NodeKind;

verus! {

/// The fields that the description of a service shows.
pub open spec fn service_fields(r: ServiceRecord) -> Seq<(Seq<char>, Seq<char>)> {
    Seq::<(Seq<char>, Seq<char>)>::empty().push(("Name"@, r.name@)).push(
        (
            "Kind"@,
            match r.kind {
                ServiceKind::UserProgram => "user_program"@,
                ServiceKind::KernelThread => "kernel_thread"@,
            },
        ),
    ).push(
        (
            "Target"@,
            match r.target {
                Some(t) => t@,
                None => "(none)"@,
            },
        ),
    ).push(("State"@, state_word(r.state))).push(
        (
            "Pid"@,
            match r.pid {
                Some(n) => decimal(n as nat),
                None => "(none)"@,
            },
        ),
    ).push(("Restarts"@, decimal(r.restarts as nat))).push(
        (
            "AutoRestart"@,
            if r.auto_restart {
                "true"@
            } else {
                "false"@
            },
        ),
    ).push(("Security"@, rights_word(r.security))).push(
        ("StateSinceTick"@, decimal(r.state_since_tick as nat)),
    ).push(
        (
            "LastError"@,
            match r.last_error {
                Some(t) => t@,
                None => "(none)"@,
            },
        ),
    )
}

/// The word for a state.
pub open spec fn state_word(state: ServiceState) -> Seq<char> {
    match state {
        ServiceState::Pending => "pending"@,
        ServiceState::Running => "running"@,
        ServiceState::Stopped => "stopped"@,
        ServiceState::Failed => "failed"@,
        ServiceState::Abandoned => "abandoned"@,
    }
}

/// The word for rights.
pub open spec fn rights_word(security: ServiceSecurity) -> Seq<char> {
    match security {
        ServiceSecurity::Guest => "guest"@,
        ServiceSecurity::Admin => "admin"@,
        ServiceSecurity::System => "system"@,
    }
}

/// The description of a service is a line for each of its fields, each with its own value.
pub proof fn law_description_shows_the_service(r: ServiceRecord, k: int)
    requires
        0 <= k < 10,
    ensures
        service_fields(r).len() == 10,
        has_line(describe_text(r), keyed(service_fields(r)[k].0, service_fields(r)[k].1)),
{
    let s0 = Seq::<(Seq<char>, Seq<char>)>::empty();
    let s1 = s0.push(("Name"@, r.name@));
    let s2 = s1.push(("Kind"@, service_kind_text(r.kind)));
    let s3 = s2.push(("Target"@, optional_text(r.target)));
    let s4 = s3.push(("State"@, service_state_text(r.state)));
    let s5 = s4.push(("Pid"@, optional_number(r.pid)));
    let s6 = s5.push(("Restarts"@, decimal(r.restarts as nat)));
    let s7 = s6.push(("AutoRestart"@, bool_text(r.auto_restart)));
    let s8 = s7.push(("Security"@, service_security_text(r.security)));
    let s9 = s8.push(("StateSinceTick"@, decimal(r.state_since_tick as nat)));
    lemma_field_lines_step(s0, "Name"@, r.name@);
    lemma_field_lines_step(s1, "Kind"@, service_kind_text(r.kind));
    lemma_field_lines_step(s2, "Target"@, optional_text(r.target));
    lemma_field_lines_step(s3, "State"@, service_state_text(r.state));
    lemma_field_lines_step(s4, "Pid"@, optional_number(r.pid));
    lemma_field_lines_step(s5, "Restarts"@, decimal(r.restarts as nat));
    lemma_field_lines_step(s6, "AutoRestart"@, bool_text(r.auto_restart));
    lemma_field_lines_step(s7, "Security"@, service_security_text(r.security));
    lemma_field_lines_step(s8, "StateSinceTick"@, decimal(r.state_since_tick as nat));
    lemma_field_lines_step(s9, "LastError"@, optional_text(r.last_error));
    assert(field_lines(s0) + field_line("Name"@, r.name@) =~= field_line("Name"@, r.name@));
    assert(describe_text(r) == field_lines(service_fields(r)));
    lemma_listed_lines(service_fields(r), Seq::empty(), k);
    assert(describe_text(r) + Seq::<char>::empty() =~= describe_text(r));
}

/// Each file of a service shows what it is named for, as a line.
pub proof fn law_service_files(r: ServiceRecord)
    ensures
        service_file("state"@) matches Some(f) && service_text(f, r) == state_word(r.state)
            + seq!['\n'],
        service_file("kind"@) matches Some(f) && service_text(f, r) == (match r.kind {
            ServiceKind::UserProgram => "user_program"@,
            ServiceKind::KernelThread => "kernel_thread"@,
        }) + seq!['\n'],
        service_file("restarts"@) matches Some(f) && service_text(f, r) == decimal(
            r.restarts as nat,
        ) + seq!['\n'],
        service_file("auto_restart"@) matches Some(f) && service_text(f, r) == (if r.auto_restart {
            "true"@
        } else {
            "false"@
        }) + seq!['\n'],
        service_file("security"@) matches Some(f) && service_text(f, r) == rights_word(r.security)
            + seq!['\n'],
        service_file("describe"@) matches Some(f) && service_text(f, r) == describe_text(r),
{
    reveal_strlit("\n");
    reveal_strlit("state");
    reveal_strlit("kind");
    reveal_strlit("restarts");
    reveal_strlit("auto_restart");
    reveal_strlit("security");
    reveal_strlit("describe");
    assert("\n"@ =~= seq!['\n']);
    assert("state"@[0] == 's' && "state"@[1] == 't' && "kind"@[0] == 'k' && "restarts"@[0] == 'r'
        && "auto_restart"@[0] == 'a' && "security"@[0] == 's' && "security"@[1] == 'e'
        && "describe"@[0] == 'd');
}

/// A service is found under its name, and a file of it under the name, a slash and the file's
/// name.
pub proof fn law_service_paths(name: Seq<char>, file: Seq<char>)
    requires
        name.len() > 0,
        !name.contains('/'),
        file.len() > 0,
    ensures
        service_path(name) == ServicePathView::ServiceDir(name),
        service_path(name + seq!['/'] + file) == ServicePathView::ServiceFile(name, file),
        service_path(seq!['/'] + name) == ServicePathView::ServiceDir(name),
        service_path(seq!['/']) == ServicePathView::Root,
{
    law_path_is_cut_at_its_first_slash(name, file);
    assert(name[0] != '/') by {
        assert(name.contains(name[0]));
    }
    let path = name + seq!['/'] + file;
    assert(path[0] == name[0]);
    assert((seq!['/'] + name).skip(1) =~= name);
    assert(seq!['/'].skip(1) =~= Seq::<char>::empty());
    let e = Seq::<char>::empty();
    assert(!e.contains('/'));
    law_path_is_cut_at_its_first_slash(e, e);
}

/// A service that was put in is found under its name, and every other service as before.
pub proof fn law_service_put_in_is_found(
    records: Seq<ServiceRecord>,
    record: ServiceRecord,
    name: Seq<char>,
)
    ensures
        ({
            let after = with_service(records, record);
            &&& service_at(after, record.name@, 0) matches Some(k) && after[k] == record
            &&& name != record.name@ ==> match service_at(records, name, 0) {
                Some(j) => service_at(after, name, 0) matches Some(k) && after[k] == records[j],
                None => service_at(after, name, 0) is None,
            }
        }),
{
    let after = with_service(records, record);
    match service_at(records, record.name@, 0) {
        Some(k) => {
            lemma_service_named(records, record.name@, 0);
            lemma_service_updated(records, record, k, record.name@, 0);
            lemma_service_updated(records, record, k, name, 0);
            lemma_service_named(records, name, 0);
            assert(after[k] == record);
            if let Some(j) = service_at(records, name, 0) {
                if j != k {
                    assert(after[j] == records[j]);
                }
            }
        },
        None => {
            lemma_slot_within(records, record.name@, 0);
            let at = service_slot(records, record.name@, 0);
            lemma_service_named(records, record.name@, 0);
            lemma_service_inserted(records, record, at, record.name@, 0);
            lemma_service_inserted(records, record, at, name, 0);
            lemma_service_named(records, name, 0);
            assert(after == records.insert(at, record));
            assert(after[at] == record);
            if let Some(k) = service_at(after, name, 0) {
                if k < at {
                    assert(after[k] == records[k]);
                } else if k > at {
                    assert(after[k] == records[k - 1]);
                }
            }
        },
    }
}

proof fn lemma_service_named(records: Seq<ServiceRecord>, name: Seq<char>, i: int)
    requires
        0 <= i,
    ensures
        match service_at(records, name, i) {
            Some(k) => i <= k < records.len() && records[k].name@ == name,
            None => forall|j: int|
                #![trigger records[j]]
                i <= j < records.len() ==> records[j].name@ != name,
        },
    decreases records.len() - i,
{
    if i < records.len() && records[i].name@ != name {
        lemma_service_named(records, name, i + 1);
    }
}

proof fn lemma_slot_within(records: Seq<ServiceRecord>, name: Seq<char>, i: int)
    requires
        0 <= i <= records.len(),
    ensures
        i <= service_slot(records, name, i) <= records.len(),
    decreases records.len() - i,
{
    if i < records.len() && text_before(records[i].name@, name) {
        lemma_slot_within(records, name, i + 1);
    }
}

proof fn lemma_service_updated(
    records: Seq<ServiceRecord>,
    record: ServiceRecord,
    k: int,
    name: Seq<char>,
    i: int,
)
    requires
        0 <= k < records.len(),
        records[k].name@ == record.name@,
        0 <= i,
    ensures
        service_at(records.update(k, record), name, i) == service_at(records, name, i),
    decreases records.len() - i,
{
    if i < records.len() && records[i].name@ != name {
        lemma_service_updated(records, record, k, name, i + 1);
    }
}

proof fn lemma_service_inserted(
    records: Seq<ServiceRecord>,
    record: ServiceRecord,
    at: int,
    name: Seq<char>,
    i: int,
)
    requires
        0 <= at <= records.len(),
        0 <= i <= records.len() + 1,
        forall|j: int|
            #![trigger records[j]]
            0 <= j < records.len() ==> records[j].name@ != record.name@,
    ensures
        ({
            let after = records.insert(at, record);
            match service_at(after, name, i) {
                Some(k) => i <= k <= records.len() && after[k].name@ == name && (name
                    == record.name@ ==> k == at) && (name != record.name@ ==> k != at
                    && service_at(
                    records,
                    name,
                    if i <= at {
                        i
                    } else {
                        i - 1
                    },
                ) == Some(
                    if k < at {
                        k
                    } else {
                        k - 1
                    },
                )),
                None => (name == record.name@ ==> i > at) && (name != record.name@ ==> service_at(
                    records,
                    name,
                    if i <= at {
                        i
                    } else {
                        i - 1
                    },
                ) is None),
            }
        }),
    decreases records.len() + 1 - i,
{
    let after = records.insert(at, record);
    if i < after.len() {
        if i < at {
            assert(after[i] == records[i]);
        } else if i == at {
            assert(after[i] == record);
        } else {
            assert(after[i] == records[i - 1]);
        }
        if after[i].name@ != name {
            lemma_service_inserted(records, record, at, name, i + 1);
        }
    }
}

/// The directory of a service lists its six files, and each is found there and shows the
/// service.
pub proof fn law_service_directory_lists_its_files(
    services: ServiceRegistry,
    name: Seq<char>,
    record: ServiceRecord,
    index: int,
)
    requires
        service_of(services, name) == Some(record),
        name.len() > 0,
        !name.contains('/'),
        0 <= index,
    ensures
        index < 6 ==> (service_entry(services, name, index) matches Ok(e) && e.0 == NodeKind::File
            && (service_file(e.1) matches Some(f) && service_found(
            services,
            name + seq!['/'] + e.1,
        ) == Ok::<ServiceNodeView, Error>(ServiceNodeView::File(name, f)) && service_bytes(
            services,
            ServiceNodeView::File(name, f),
        ) == Ok::<Seq<u8>, Error>(encode_utf8(service_text(f, record))))),
        index >= 6 ==> service_entry(services, name, index) is Err,
{
    reveal_strlit("state");
    reveal_strlit("kind");
    reveal_strlit("restarts");
    reveal_strlit("auto_restart");
    reveal_strlit("security");
    reveal_strlit("describe");
    law_service_files(record);
    law_service_paths(name, seq!['x']);
    if index < 6 {
        let e = service_entry(services, name, index)->Ok_0;
        assert(e.1.len() > 0);
        law_service_paths(name, e.1);
        assert("state"@[0] == 's' && "state"@[1] == 't' && "kind"@[0] == 'k' && "restarts"@[0] == 'r'
            && "auto_restart"@[0] == 'a' && "security"@[0] == 's' && "security"@[1] == 'e'
            && "describe"@[0] == 'd');
    }
}

/// A node about a service belongs to root; its files can be read by all, and its directories
/// searched as well, and nobody writes there.
pub proof fn law_rights_of_service_nodes(kind: NodeKind, size: usize)
    ensures
        ({
            let m = service_metadata(kind, size);
            &&& m.kind == kind && m.size == size
            &&& m.security.owner_uid == 0 && m.security.owner_gid == 0
            &&& kind == NodeKind::File ==> m.security.mode == 0o444
            &&& kind != NodeKind::File ==> m.security.mode == 0o555
        }),
{
}

} // verus!
