//! How long the lock over the filesystem is held.
//!
//! Buckets count holds by their length in cycles, each sixteen times as wide as the one
//! before.
use vstd::prelude::*;

use crate::order::{larger, smaller};

verus! {

/// Number of buckets.
pub const LOCK_TIMING_BUCKETS: usize = 6;

/// The first bucket holds lengths below two to this power.
pub const FIRST_BUCKET_SHIFT: u32 = 12;

/// What the lock is held for.
#[derive(Debug, Clone, Copy, PartialEq, Eq, Structural)]
pub enum LockScope {
    /// An operation on paths.
    SyscallOperation,
    /// A check and repair of a whole volume.
    VolumeRepair,
    /// The recovery of every mounted volume at boot.
    BootRecovery,
}

/// The number of a scope.
pub open spec fn scope_index(scope: LockScope) -> int {
    match scope {
        LockScope::SyscallOperation => 0,
        LockScope::VolumeRepair => 1,
        LockScope::BootRecovery => 2,
    }
}

impl LockScope {
    /// The name used in reports.
    pub fn as_str(self) -> (r: &'static str)
        ensures
            r@ == match self {
                LockScope::SyscallOperation => "syscall-op"@,
                LockScope::VolumeRepair => "volume-repair"@,
                LockScope::BootRecovery => "boot-recovery"@,
            },
    {
        match self {
            LockScope::SyscallOperation => "syscall-op",
            LockScope::VolumeRepair => "volume-repair",
            LockScope::BootRecovery => "boot-recovery",
        }
    }

    /// The number of the scope.
    pub fn index(self) -> (r: usize)
        ensures
            r == scope_index(self),
    {
        match self {
            LockScope::SyscallOperation => 0,
            LockScope::VolumeRepair => 1,
            LockScope::BootRecovery => 2,
        }
    }
}

/// The bound of a bucket: lengths below it that are not in an earlier one are counted there.
/// The last bucket has none.
pub open spec fn bucket_bound(index: int) -> int {
    if index == 0 {
        0x1000
    } else if index == 1 {
        0x1_0000
    } else if index == 2 {
        0x10_0000
    } else if index == 3 {
        0x100_0000
    } else {
        0x1000_0000
    }
}

/// Whether a length is counted in a bucket.
pub open spec fn in_bucket(cycles: u64, index: int) -> bool {
    &&& 0 <= index < LOCK_TIMING_BUCKETS
    &&& index > 0 ==> cycles >= bucket_bound(index - 1)
    &&& index < LOCK_TIMING_BUCKETS - 1 ==> cycles < bucket_bound(index)
}

/// The bucket of a length.
pub fn bucket_for(cycles: u64) -> (r: usize)
    ensures
        in_bucket(cycles, r as int),
        forall|k: int| #[trigger] in_bucket(cycles, k) ==> k == r,
{
    let mut bound: u64 = 0x1000;
    let mut index: usize = 0;
    while index < LOCK_TIMING_BUCKETS - 1
        invariant
            index <= LOCK_TIMING_BUCKETS - 1,
            bound == (if index < LOCK_TIMING_BUCKETS - 1 {
                bucket_bound(index as int)
            } else {
                0x1_0000_0000
            }),
            index > 0 ==> cycles >= bucket_bound(index - 1),
        decreases LOCK_TIMING_BUCKETS - index,
    {
        if cycles < bound {
            return index;
        }
        bound = bound * 16;
        index = index + 1;
    }
    index
}

/// What was counted for a scope. The counts wrap around.
#[derive(Debug, Clone, Copy)]
pub struct ScopeCounters {
    pub holds: u64,
    pub total_cycles: u64,
    pub max_cycles: u64,
    pub buckets: [u64; 6],
}

/// The sum of six counts.
pub open spec fn bucket_sum(buckets: Seq<u64>) -> int {
    buckets[0] + buckets[1] + buckets[2] + buckets[3] + buckets[4] + buckets[5]
}

/// A count that went up by an amount, wrapping around.
pub open spec fn counted(count: u64, amount: u64) -> u64 {
    vstd::wrapping::u64_specs::wrapping_add(count, amount)
}

/// The counters after a hold of a length.
pub open spec fn with_hold(a: ScopeCounters, b: ScopeCounters, cycles: u64) -> bool {
    &&& b.holds == counted(a.holds, 1)
    &&& b.total_cycles == counted(a.total_cycles, cycles)
    &&& b.max_cycles == larger(a.max_cycles as int, cycles as int)
    &&& forall|k: int|
        #![trigger b.buckets@[k]]
        0 <= k < LOCK_TIMING_BUCKETS ==> b.buckets@[k] == (if in_bucket(cycles, k) {
            counted(a.buckets@[k], 1)
        } else {
            a.buckets@[k]
        })
}

impl ScopeCounters {
    /// Whether each hold is in one bucket, as far as the counts go.
    pub open spec fn wf(&self) -> bool {
        (bucket_sum(self.buckets@) - self.holds) % 0x1_0000_0000_0000_0000 == 0
    }

    /// Whether the buckets hold as many as were counted. They do as long as the count of
    /// holds has not wrapped around.
    pub open spec fn exact(&self) -> bool {
        bucket_sum(self.buckets@) == self.holds
    }

    /// Nothing counted.
    pub fn new() -> (r: Self)
        ensures
            r.wf(),
            r.exact(),
            r.holds == 0,
            r.total_cycles == 0,
            r.max_cycles == 0,
            r.buckets@ == seq![0u64, 0, 0, 0, 0, 0],
    {
        let buckets: [u64; 6] = [0, 0, 0, 0, 0, 0];
        assert(buckets@ =~= seq![0u64, 0, 0, 0, 0, 0]);
        ScopeCounters { holds: 0, total_cycles: 0, max_cycles: 0, buckets }
    }

    /// Counts a hold.
    pub fn record(&mut self, cycles: u64)
        requires
            old(self).wf(),
        ensures
            final(self).wf(),
            with_hold(*old(self), *final(self), cycles),
            old(self).exact() && old(self).holds < u64::MAX ==> final(self).exact(),
    {
        self.holds = self.holds.wrapping_add(1);
        self.total_cycles = self.total_cycles.wrapping_add(cycles);
        if cycles > self.max_cycles {
            self.max_cycles = cycles;
        }
        let k: usize = bucket_for(cycles);
        self.buckets[k] = self.buckets[k].wrapping_add(1);
        proof {
            if old(self).exact() && old(self).holds < u64::MAX {
                lemma_hold_is_exact(*old(self), *self, cycles);
            }
        }
    }
}

/// What was counted for every scope, by its number.
#[derive(Debug, Clone, Copy)]
pub struct LockTimings {
    pub scopes: [ScopeCounters; 3],
}

/// One scope's measured distribution.
#[derive(Debug, Clone, Copy)]
pub struct ScopeTiming {
    pub scope: LockScope,
    pub holds: u64,
    pub max_cycles: u64,
    pub total_cycles: u64,
    pub buckets: [u64; 6],
}

impl ScopeTiming {
    /// The mean length of a hold in cycles, where there was one.
    pub fn mean_cycles(&self) -> (r: Option<u64>)
        ensures
            r == (if self.holds > 0 {
                Some((self.total_cycles as int / self.holds as int) as u64)
            } else {
                None
            }),
    {
        if self.holds > 0 {
            Some(self.total_cycles / self.holds)
        } else {
            None
        }
    }
}

/// The distribution of a scope, where it has one.
pub open spec fn timing_of(scope: LockScope, c: ScopeCounters) -> Option<ScopeTiming> {
    if c.holds == 0 {
        None
    } else {
        Some(
            ScopeTiming {
                scope,
                holds: c.holds,
                max_cycles: c.max_cycles,
                total_cycles: c.total_cycles,
                buckets: c.buckets,
            },
        )
    }
}

impl LockTimings {
    /// Whether each hold is in one bucket, as far as the counts go.
    pub open spec fn wf(&self) -> bool {
        self.scopes@[0].wf() && self.scopes@[1].wf() && self.scopes@[2].wf()
    }

    /// Whether the buckets of every scope hold as many as were counted.
    pub open spec fn exact(&self) -> bool {
        self.scopes@[0].exact() && self.scopes@[1].exact() && self.scopes@[2].exact()
    }

    /// Nothing counted.
    pub fn new() -> (r: Self)
        ensures
            r.wf(),
            r.exact(),
            forall|k: int|
                #![trigger r.scopes@[k]]
                0 <= k < 3 ==> r.scopes@[k].holds == 0 && r.scopes@[k].total_cycles == 0
                    && r.scopes@[k].max_cycles == 0 && r.scopes@[k].buckets@ == seq![
                    0u64,
                    0,
                    0,
                    0,
                    0,
                    0,
                ],
    {
        LockTimings { scopes: [ScopeCounters::new(), ScopeCounters::new(), ScopeCounters::new()] }
    }

    /// Counts a hold for a scope.
    pub fn record(&mut self, scope: LockScope, cycles: u64)
        requires
            old(self).wf(),
        ensures
            final(self).wf(),
            hold_recorded(*old(self), *final(self), scope, cycles),
            old(self).exact() && old(self).scopes@[scope_index(scope)].holds < u64::MAX
                ==> final(self).exact(),
    {
        let k: usize = scope.index();
        let mut counters = self.scopes[k];
        counters.record(cycles);
        self.scopes[k] = counters;
    }

    /// The distribution of every scope that was held.
    pub fn snapshot(&self) -> (r: [Option<ScopeTiming>; 3])
        ensures
            r@ == seq![
                timing_of(LockScope::SyscallOperation, self.scopes@[0]),
                timing_of(LockScope::VolumeRepair, self.scopes@[1]),
                timing_of(LockScope::BootRecovery, self.scopes@[2]),
            ],
    {
        let out = [
            snapshot_of(LockScope::SyscallOperation, &self.scopes[0]),
            snapshot_of(LockScope::VolumeRepair, &self.scopes[1]),
            snapshot_of(LockScope::BootRecovery, &self.scopes[2]),
        ];
        assert(out@ =~= seq![
            timing_of(LockScope::SyscallOperation, self.scopes@[0]),
            timing_of(LockScope::VolumeRepair, self.scopes@[1]),
            timing_of(LockScope::BootRecovery, self.scopes@[2]),
        ]);
        out
    }
}

fn snapshot_of(scope: LockScope, c: &ScopeCounters) -> (r: Option<ScopeTiming>)
    ensures
        r == timing_of(scope, *c),
{
    if c.holds == 0 {
        return None;
    }
    Some(
        ScopeTiming {
            scope,
            holds: c.holds,
            max_cycles: c.max_cycles,
            total_cycles: c.total_cycles,
            buckets: c.buckets,
        },
    )
}

/// Whether a hold was counted for a scope and nothing for the others.
pub open spec fn hold_recorded(a: LockTimings, b: LockTimings, scope: LockScope, cycles: u64) -> bool {
    forall|k: int|
        #![trigger b.scopes@[k]]
        0 <= k < 3 ==> if k == scope_index(scope) {
            with_hold(a.scopes@[k], b.scopes@[k], cycles)
        } else {
            b.scopes@[k] == a.scopes@[k]
        }
}

/// A hold makes the count and the sum of the buckets of its scope one larger, and neither the
/// total nor the longest hold smaller, as long as nothing wraps around; the other scopes
/// stay as they were.
pub proof fn law_hold_counts_once(a: LockTimings, b: LockTimings, scope: LockScope, cycles: u64)
    requires
        hold_recorded(a, b, scope, cycles),
        a.exact(),
        a.scopes@[scope_index(scope)].holds < u64::MAX,
    ensures
        b.exact(),
        ({
            let k = scope_index(scope);
            let c = a.scopes@[k];
            let d = b.scopes@[k];
            &&& d.holds == c.holds + 1
            &&& bucket_sum(d.buckets@) == bucket_sum(c.buckets@) + 1
            &&& d.max_cycles >= c.max_cycles
            &&& c.total_cycles + cycles <= u64::MAX ==> d.total_cycles == c.total_cycles + cycles
            &&& forall|j: int|
                #![trigger b.scopes@[j]]
                0 <= j < 3 && j != k ==> b.scopes@[j] == a.scopes@[j]
        }),
{
    let k = scope_index(scope);
    lemma_hold_is_exact(a.scopes@[k], b.scopes@[k], cycles);
    assert(b.scopes@[0] == a.scopes@[0] || k == 0);
    assert(b.scopes@[1] == a.scopes@[1] || k == 1);
    assert(b.scopes@[2] == a.scopes@[2] || k == 2);
}

proof fn lemma_hold_is_exact(a: ScopeCounters, b: ScopeCounters, cycles: u64)
    requires
        with_hold(a, b, cycles),
        a.exact(),
        a.holds < u64::MAX,
    ensures
        b.exact(),
        b.holds == a.holds + 1,
        bucket_sum(b.buckets@) == bucket_sum(a.buckets@) + 1,
{
    let x = a.buckets@;
    let y = b.buckets@;
    assert(y[0] == (if in_bucket(cycles, 0) { counted(x[0], 1) } else { x[0] }));
    assert(y[1] == (if in_bucket(cycles, 1) { counted(x[1], 1) } else { x[1] }));
    assert(y[2] == (if in_bucket(cycles, 2) { counted(x[2], 1) } else { x[2] }));
    assert(y[3] == (if in_bucket(cycles, 3) { counted(x[3], 1) } else { x[3] }));
    assert(y[4] == (if in_bucket(cycles, 4) { counted(x[4], 1) } else { x[4] }));
    assert(y[5] == (if in_bucket(cycles, 5) { counted(x[5], 1) } else { x[5] }));
}

/// A snapshot shows a scope exactly where a hold was counted for it, and then as many in its
/// buckets as there were holds.
pub proof fn law_snapshot_adds_up(scope: LockScope, c: ScopeCounters)
    requires
        c.exact(),
    ensures
        timing_of(scope, c) is None <==> c.holds == 0,
        timing_of(scope, c) matches Some(t) ==> {
            &&& t.scope == scope
            &&& t.holds > 0
            &&& bucket_sum(t.buckets@) == t.holds
        },
{
}

/// The cycles between two readings of a clock that wraps around.
pub open spec fn elapsed(start: u64, end: u64) -> u64 {
    vstd::wrapping::u64_specs::wrapping_sub(end, start)
}

/// Whether two readings of the clock bracket what was recorded.
pub open spec fn measured<C: Fn() -> u64>(
    a: LockTimings,
    b: LockTimings,
    scope: LockScope,
    clock: C,
    start: u64,
    end: u64,
) -> bool {
    &&& call_ensures(clock, (), start)
    &&& call_ensures(clock, (), end)
    &&& hold_recorded(a, b, scope, elapsed(start, end))
}

/// Runs `body` and counts how long it took.
pub fn measure<T, F: FnOnce() -> T, C: Fn() -> u64>(
    timings: &mut LockTimings,
    scope: LockScope,
    clock: &C,
    body: F,
) -> (r: T)
    requires
        old(timings).wf(),
        call_requires(body, ()),
        call_requires(*clock, ()),
    ensures
        final(timings).wf(),
        old(timings).exact() && old(timings).scopes@[scope_index(scope)].holds < u64::MAX
            ==> final(timings).exact(),
        call_ensures(body, (), r),
        exists|start: u64, end: u64|
            #[trigger] measured(*old(timings), *final(timings), scope, *clock, start, end),
{
    let start: u64 = clock();
    let r = body();
    let end: u64 = clock();
    timings.record(scope, end.wrapping_sub(start));
    assert(measured(*old(timings), *timings, scope, *clock, start, end));
    r
}

/// The distribution of every scope that was held.
pub fn snapshot(timings: &LockTimings) -> (r: [Option<ScopeTiming>; 3])
    ensures
        r@ == seq![
            timing_of(LockScope::SyscallOperation, timings.scopes@[0]),
            timing_of(LockScope::VolumeRepair, timings.scopes@[1]),
            timing_of(LockScope::BootRecovery, timings.scopes@[2]),
        ],
{
    timings.snapshot()
}

/// Cycles in microseconds, at a rate of cycles in a second; the cycles themselves where
/// the rate is not known.
pub fn scale_to_micros(cycles: u64, rate: Option<u64>) -> (r: u64)
    ensures
        r == match rate {
            Some(rate) if rate > 0 => (smaller(cycles * 1_000_000, u64::MAX as int)
                / rate as int) as u64,
            _ => cycles,
        },
{
    match rate {
        Some(rate) if rate > 0 => {
            let scaled: u128 = cycles as u128 * 1_000_000;
            let bounded: u64 = if scaled > u64::MAX as u128 {
                u64::MAX
            } else {
                scaled as u64
            };
            bounded / rate
        },
        _ => cycles,
    }
}

/// Sixteen to the power of `k`.
pub open spec fn sixteens(k: int) -> int
    decreases k,
{
    if k <= 0 {
        1
    } else {
        16 * sixteens(k - 1)
    }
}

/// The first bucket counts holds below 4096 cycles, each one after it those up to sixteen times
/// as long, and the sixth all that are longer.
pub proof fn law_buckets_grow_sixteenfold(cycles: u64, k: int)
    ensures
        in_bucket(cycles, k) <==> (0 <= k <= 5 && (k > 0 ==> cycles >= 4096 * sixteens(k - 1)) && (k
            < 5 ==> cycles < 4096 * sixteens(k))),
{
    reveal_with_fuel(sixteens, 6);
}

} // verus!
