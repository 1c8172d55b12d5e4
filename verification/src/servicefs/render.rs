//! The texts that show a service.
use vstd::prelude::*;
use vstd::string::*;

use crate::procfs::render::{field_line, push_field};
use crate::servicefs::registry::{ServiceKind, ServiceRecord, ServiceSecurity, ServiceState};
use crate::text::{decimal, join2, str_eq, to_decimal};

verus! {

/// A file of a service.
#[derive(Debug, Clone, Copy, PartialEq, Eq, Structural)]
pub enum ServiceFileType {
    State,
    Kind,
    Restarts,
    AutoRestart,
    Security,
    Describe,
}

/// The name of a file.
pub open spec fn service_file_name(file: ServiceFileType) -> Seq<char> {
    match file {
        ServiceFileType::State => "state"@,
        ServiceFileType::Kind => "kind"@,
        ServiceFileType::Restarts => "restarts"@,
        ServiceFileType::AutoRestart => "auto_restart"@,
        ServiceFileType::Security => "security"@,
        ServiceFileType::Describe => "describe"@,
    }
}

/// The file with a name.
pub open spec fn service_file(name: Seq<char>) -> Option<ServiceFileType> {
    if name == "state"@ {
        Some(ServiceFileType::State)
    } else if name == "kind"@ {
        Some(ServiceFileType::Kind)
    } else if name == "restarts"@ {
        Some(ServiceFileType::Restarts)
    } else if name == "auto_restart"@ {
        Some(ServiceFileType::AutoRestart)
    } else if name == "security"@ {
        Some(ServiceFileType::Security)
    } else if name == "describe"@ {
        Some(ServiceFileType::Describe)
    } else {
        None
    }
}

/// The file with a number, in the order of listings.
pub open spec fn service_file_at(index: int) -> Option<ServiceFileType> {
    if index == 0 {
        Some(ServiceFileType::State)
    } else if index == 1 {
        Some(ServiceFileType::Kind)
    } else if index == 2 {
        Some(ServiceFileType::Restarts)
    } else if index == 3 {
        Some(ServiceFileType::AutoRestart)
    } else if index == 4 {
        Some(ServiceFileType::Security)
    } else if index == 5 {
        Some(ServiceFileType::Describe)
    } else {
        None
    }
}

/// The name of a state.
pub open spec fn service_state_text(state: ServiceState) -> Seq<char> {
    match state {
        ServiceState::Pending => "pending"@,
        ServiceState::Running => "running"@,
        ServiceState::Stopped => "stopped"@,
        ServiceState::Failed => "failed"@,
        ServiceState::Abandoned => "abandoned"@,
    }
}

/// The name of a kind.
pub open spec fn service_kind_text(kind: ServiceKind) -> Seq<char> {
    match kind {
        ServiceKind::UserProgram => "user_program"@,
        ServiceKind::KernelThread => "kernel_thread"@,
    }
}

/// The name of rights.
pub open spec fn service_security_text(security: ServiceSecurity) -> Seq<char> {
    match security {
        ServiceSecurity::Guest => "guest"@,
        ServiceSecurity::Admin => "admin"@,
        ServiceSecurity::System => "system"@,
    }
}

/// A truth value as a text.
pub open spec fn bool_text(b: bool) -> Seq<char> {
    if b {
        "true"@
    } else {
        "false"@
    }
}

/// A text that may be missing.
pub open spec fn optional_text(s: Option<String>) -> Seq<char> {
    match s {
        Some(t) => t@,
        None => "(none)"@,
    }
}

/// A number that may be missing.
pub open spec fn optional_number(n: Option<u64>) -> Seq<char> {
    match n {
        Some(v) => decimal(v as nat),
        None => "(none)"@,
    }
}

/// Everything about a service, a line for each key.
pub open spec fn describe_text(r: ServiceRecord) -> Seq<char> {
    field_line("Name"@, r.name@) + field_line("Kind"@, service_kind_text(r.kind)) + field_line(
        "Target"@,
        optional_text(r.target),
    ) + field_line("State"@, service_state_text(r.state)) + field_line(
        "Pid"@,
        optional_number(r.pid),
    ) + field_line("Restarts"@, decimal(r.restarts as nat)) + field_line(
        "AutoRestart"@,
        bool_text(r.auto_restart),
    ) + field_line("Security"@, service_security_text(r.security)) + field_line(
        "StateSinceTick"@,
        decimal(r.state_since_tick as nat),
    ) + field_line("LastError"@, optional_text(r.last_error))
}

/// The text of a file of a service.
pub open spec fn service_text(file: ServiceFileType, r: ServiceRecord) -> Seq<char> {
    match file {
        ServiceFileType::State => service_state_text(r.state) + "\n"@,
        ServiceFileType::Kind => service_kind_text(r.kind) + "\n"@,
        ServiceFileType::Restarts => decimal(r.restarts as nat) + "\n"@,
        ServiceFileType::AutoRestart => bool_text(r.auto_restart) + "\n"@,
        ServiceFileType::Security => service_security_text(r.security) + "\n"@,
        ServiceFileType::Describe => describe_text(r),
    }
}

impl ServiceState {
    /// The name of the state.
    pub fn as_str(self) -> (r: &'static str)
        ensures
            r@ == service_state_text(self),
    {
        match self {
            ServiceState::Pending => "pending",
            ServiceState::Running => "running",
            ServiceState::Stopped => "stopped",
            ServiceState::Failed => "failed",
            ServiceState::Abandoned => "abandoned",
        }
    }
}

impl ServiceKind {
    /// The name of the kind.
    pub fn as_str(self) -> (r: &'static str)
        ensures
            r@ == service_kind_text(self),
    {
        match self {
            ServiceKind::UserProgram => "user_program",
            ServiceKind::KernelThread => "kernel_thread",
        }
    }
}

impl ServiceSecurity {
    /// The name of the rights.
    pub fn as_str(self) -> (r: &'static str)
        ensures
            r@ == service_security_text(self),
    {
        match self {
            ServiceSecurity::Guest => "guest",
            ServiceSecurity::Admin => "admin",
            ServiceSecurity::System => "system",
        }
    }
}

fn bool_name(b: bool) -> (r: &'static str)
    ensures
        r@ == bool_text(b),
{
    if b {
        "true"
    } else {
        "false"
    }
}

fn text_or_none(s: &Option<String>) -> (r: &str)
    ensures
        r@ == optional_text(*s),
{
    match s {
        Some(t) => t.as_str(),
        None => "(none)",
    }
}

fn number_or_none(n: Option<u64>) -> (r: String)
    ensures
        r@ == optional_number(n),
{
    match n {
        Some(v) => to_decimal(v),
        None => "(none)".to_owned(),
    }
}

/// Renders everything about a service.
pub fn describe_data(record: &ServiceRecord) -> (r: String)
    ensures
        r@ == describe_text(*record),
{
    let mut out = "".to_owned();
    proof {
        reveal_strlit("");
    }
    push_field(&mut out, "Name", record.name.as_str());
    assert(out@ =~= field_line("Name"@, record.name@));
    push_field(&mut out, "Kind", record.kind.as_str());
    push_field(&mut out, "Target", text_or_none(&record.target));
    push_field(&mut out, "State", record.state.as_str());
    push_field(&mut out, "Pid", number_or_none(record.pid).as_str());
    push_field(&mut out, "Restarts", to_decimal(record.restarts as u64).as_str());
    push_field(&mut out, "AutoRestart", bool_name(record.auto_restart));
    push_field(&mut out, "Security", record.security.as_str());
    push_field(&mut out, "StateSinceTick", to_decimal(record.state_since_tick).as_str());
    push_field(&mut out, "LastError", text_or_none(&record.last_error));
    out
}

impl ServiceFileType {
    /// The file with a name.
    pub fn parse(name: &str) -> (r: Option<Self>)
        ensures
            r == service_file(name@),
    {
        if str_eq(name, "state") {
            Some(ServiceFileType::State)
        } else if str_eq(name, "kind") {
            Some(ServiceFileType::Kind)
        } else if str_eq(name, "restarts") {
            Some(ServiceFileType::Restarts)
        } else if str_eq(name, "auto_restart") {
            Some(ServiceFileType::AutoRestart)
        } else if str_eq(name, "security") {
            Some(ServiceFileType::Security)
        } else if str_eq(name, "describe") {
            Some(ServiceFileType::Describe)
        } else {
            None
        }
    }

    /// The file with a number, in the order of listings.
    pub fn at(index: usize) -> (r: Option<Self>)
        ensures
            r == service_file_at(index as int),
    {
        if index == 0 {
            Some(ServiceFileType::State)
        } else if index == 1 {
            Some(ServiceFileType::Kind)
        } else if index == 2 {
            Some(ServiceFileType::Restarts)
        } else if index == 3 {
            Some(ServiceFileType::AutoRestart)
        } else if index == 4 {
            Some(ServiceFileType::Security)
        } else if index == 5 {
            Some(ServiceFileType::Describe)
        } else {
            None
        }
    }

    /// The name of the file.
    pub fn name(self) -> (r: &'static str)
        ensures
            r@ == service_file_name(self),
    {
        match self {
            ServiceFileType::State => "state",
            ServiceFileType::Kind => "kind",
            ServiceFileType::Restarts => "restarts",
            ServiceFileType::AutoRestart => "auto_restart",
            ServiceFileType::Security => "security",
            ServiceFileType::Describe => "describe",
        }
    }

    /// Renders the file for a service.
    pub fn produce(self, record: &ServiceRecord) -> (r: String)
        ensures
            r@ == service_text(self, *record),
    {
        match self {
            ServiceFileType::State => join2(record.state.as_str(), "\n"),
            ServiceFileType::Kind => join2(record.kind.as_str(), "\n"),
            ServiceFileType::Restarts => join2(to_decimal(record.restarts as u64).as_str(), "\n"),
            ServiceFileType::AutoRestart => join2(bool_name(record.auto_restart), "\n"),
            ServiceFileType::Security => join2(record.security.as_str(), "\n"),
            ServiceFileType::Describe => describe_data(record),
        }
    }
}

} // verus!
