//! The services of the kernel, in the order of their names.
use vstd::prelude::*;
use vstd::string::*;

use crate::order::{comes_before, lemma_text_before_total, lemma_text_before_transitive, text_before};
use crate::text::{chars_of, str_eq};

verus! {

/// What a service is.
#[derive(Debug, Clone, Copy, PartialEq, Eq, Structural)]
pub enum ServiceKind {
    UserProgram,
    KernelThread,
}

/// What a service does.
#[derive(Debug, Clone, Copy, PartialEq, Eq, Structural)]
pub enum ServiceState {
    Pending,
    Running,
    Stopped,
    Failed,
    Abandoned,
}

/// With which rights a service runs.
#[derive(Debug, Clone, Copy, PartialEq, Eq, Structural)]
pub enum ServiceSecurity {
    Guest,
    Admin,
    System,
}

/// A service.
#[derive(Debug)]
pub struct ServiceRecord {
    pub name: String,
    pub kind: ServiceKind,
    /// What is launched, where there is anything.
    pub target: Option<String>,
    pub state: ServiceState,
    pub pid: Option<u64>,
    pub restarts: u32,
    pub auto_restart: bool,
    pub security: ServiceSecurity,
    pub state_since_tick: u64,
    pub last_error: Option<String>,
}

/// Every service.
#[derive(Debug)]
pub struct ServiceRegistry {
    pub records: Vec<ServiceRecord>,
}

/// The position of a service from `i` on.
pub open spec fn service_at(records: Seq<ServiceRecord>, name: Seq<char>, i: int) -> Option<int>
    decreases records.len() - i,
{
    if i < 0 || i >= records.len() {
        None
    } else if records[i].name@ == name {
        Some(i)
    } else {
        service_at(records, name, i + 1)
    }
}

/// Where a new service belongs: before the first whose name does not come before its own.
pub open spec fn service_slot(records: Seq<ServiceRecord>, name: Seq<char>, i: int) -> int
    decreases records.len() - i,
{
    if 0 <= i < records.len() && text_before(records[i].name@, name) {
        service_slot(records, name, i + 1)
    } else {
        i
    }
}

/// The services with one more, or with one replaced by another of its name.
pub open spec fn with_service(records: Seq<ServiceRecord>, record: ServiceRecord) -> Seq<
    ServiceRecord,
> {
    match service_at(records, record.name@, 0) {
        Some(k) => records.update(k, record),
        None => records.insert(service_slot(records, record.name@, 0), record),
    }
}

proof fn lemma_service_at(records: Seq<ServiceRecord>, name: Seq<char>, i: int)
    requires
        0 <= i,
    ensures
        match service_at(records, name, i) {
            Some(k) => i <= k < records.len() && records[k].name@ == name,
            None => forall|j: int|
                #![trigger records[j]]
                i <= j < records.len() ==> records[j].name@ != name,
        },
    decreases records.len() - i,
{
    if i < records.len() && records[i].name@ != name {
        lemma_service_at(records, name, i + 1);
    }
}

proof fn lemma_service_slot(records: Seq<ServiceRecord>, name: Seq<char>, i: int)
    requires
        0 <= i <= records.len(),
    ensures
        i <= service_slot(records, name, i) <= records.len(),
        forall|j: int|
            #![trigger records[j]]
            i <= j < service_slot(records, name, i) ==> text_before(records[j].name@, name),
        service_slot(records, name, i) < records.len() ==> !text_before(
            records[service_slot(records, name, i)].name@,
            name,
        ),
    decreases records.len() - i,
{
    if i < records.len() && text_before(records[i].name@, name) {
        lemma_service_slot(records, name, i + 1);
    }
}

proof fn lemma_with_service_order(records: Seq<ServiceRecord>, record: ServiceRecord)
    requires
        services_in_order(records),
    ensures
        services_in_order(with_service(records, record)),
{
    let name = record.name@;
    let now = with_service(records, record);
    lemma_service_at(records, name, 0);
    lemma_service_slot(records, name, 0);
    let s = service_slot(records, name, 0);
    assert forall|i: int, j: int| #![trigger now[i], now[j]] 0 <= i < j < now.len() implies text_before(
        now[i].name@,
        now[j].name@,
    ) by {
        match service_at(records, name, 0) {
            Some(k) => {
                assert(text_before(records[i].name@, records[j].name@));
            },
            None => {
                if j < s {
                    assert(now[i] == records[i] && now[j] == records[j]);
                } else if j == s {
                    assert(now[i] == records[i]);
                } else {
                    assert(now[j] == records[j - 1]);
                    if i > s {
                        assert(now[i] == records[i - 1]);
                    } else if i < s {
                        assert(now[i] == records[i]);
                    } else {
                        lemma_text_before_total(records[s].name@, name);
                        if s < j - 1 {
                            assert(text_before(records[s].name@, records[j - 1].name@));
                            lemma_text_before_transitive(
                                name,
                                records[s].name@,
                                records[j - 1].name@,
                            );
                        }
                    }
                }
            },
        }
    }
}

/// Whether services are in the order of their names, none twice.
pub open spec fn services_in_order(records: Seq<ServiceRecord>) -> bool {
    forall|i: int, j: int|
        #![trigger records[i], records[j]]
        0 <= i < j < records.len() ==> text_before(records[i].name@, records[j].name@)
}

impl ServiceRegistry {
    /// Whether the services are in order.
    pub open spec fn wf(&self) -> bool {
        services_in_order(self.records@)
    }

    /// No service.
    pub fn new() -> (r: Self)
        ensures
            r.wf(),
            r.records@.len() == 0,
    {
        ServiceRegistry { records: Vec::new() }
    }

    /// The position of a service.
    pub fn find(&self, name: &str) -> (r: Option<usize>)
        ensures
            match r {
                Some(k) => k < self.records@.len() && service_at(self.records@, name@, 0) == Some(
                    k as int,
                ),
                None => service_at(self.records@, name@, 0) is None,
            },
    {
        let mut i: usize = 0;
        while i < self.records.len()
            invariant
                i <= self.records@.len(),
                service_at(self.records@, name@, 0) == service_at(self.records@, name@, i as int),
            decreases self.records@.len() - i,
        {
            if str_eq(self.records[i].name.as_str(), name) {
                return Some(i);
            }
            i = i + 1;
        }
        None
    }

    /// Adds a service, or replaces the one of its name.
    pub fn register(&mut self, record: ServiceRecord)
        requires
            old(self).wf(),
        ensures
            final(self).wf(),
            final(self).records@ == with_service(old(self).records@, record),
    {
        proof {
            lemma_with_service_order(self.records@, record);
        }
        match self.find(record.name.as_str()) {
            Some(k) => {
                self.records.set(k, record);
            },
            None => {
                let ghost before = self.records@;
                let key = chars_of(record.name.as_str());
                let mut i: usize = 0;
                while i < self.records.len() && comes_before(
                    &chars_of(self.records[i].name.as_str()),
                    &key,
                )
                    invariant
                        i <= self.records@.len(),
                        key@ == record.name@,
                        before == self.records@,
                        service_slot(before, record.name@, 0) == service_slot(
                            before,
                            record.name@,
                            i as int,
                        ),
                    decreases self.records@.len() - i,
                {
                    i = i + 1;
                }
                self.records.insert(i, record);
            },
        }
    }
}

} // verus!
