use std::cell::Cell;

use kernel_fs::lock_timing::{
    bucket_for, measure, scale_to_micros, snapshot, LockScope, LockTimings, ScopeCounters,
    FIRST_BUCKET_SHIFT, LOCK_TIMING_BUCKETS,
};

fn ticking(step: u64) -> impl Fn() -> u64 {
    let now = Cell::new(0_u64);
    move || {
        let value = now.get();
        now.set(value.wrapping_add(step));
        value
    }
}

#[test]
fn buckets_span_powers_of_two_from_the_first_boundary() {
    assert_eq!(bucket_for(0), 0);
    assert_eq!(bucket_for((1 << FIRST_BUCKET_SHIFT) - 1), 0);
    assert_eq!(bucket_for(1 << FIRST_BUCKET_SHIFT), 1);
    assert_eq!(bucket_for((1 << (FIRST_BUCKET_SHIFT + 4)) - 1), 1);
    assert_eq!(bucket_for(1 << (FIRST_BUCKET_SHIFT + 4)), 2);
    // Everything at or above the last boundary shares the top bucket.
    assert_eq!(bucket_for(u64::MAX), LOCK_TIMING_BUCKETS - 1);
}

#[test]
fn measure_records_a_hold_in_its_scope() {
    let mut timings = LockTimings::new();
    let clock = ticking(5);

    let value = measure(&mut timings, LockScope::VolumeRepair, &clock, || 7_u32);
    assert_eq!(value, 7);

    let recorded = snapshot(&timings)[LockScope::VolumeRepair.index()].expect("recorded");
    assert_eq!(recorded.holds, 1);
    assert_eq!(recorded.buckets.iter().sum::<u64>(), 1);
    assert!(recorded.mean_cycles().is_some());
}

#[test]
fn scopes_are_counted_separately() {
    let mut timings = LockTimings::new();
    let clock = ticking(5);

    measure(&mut timings, LockScope::SyscallOperation, &clock, || ());
    measure(&mut timings, LockScope::SyscallOperation, &clock, || ());
    measure(&mut timings, LockScope::BootRecovery, &clock, || ());

    let snapshot = snapshot(&timings);
    assert_eq!(
        snapshot[LockScope::SyscallOperation.index()].unwrap().holds,
        2
    );
    assert_eq!(snapshot[LockScope::BootRecovery.index()].unwrap().holds, 1);
    assert!(snapshot[LockScope::VolumeRepair.index()].is_none());
}

#[test]
fn an_unmeasured_scope_reports_nothing() {
    let timings = LockTimings::new();
    assert!(snapshot(&timings).iter().all(|entry| entry.is_none()));
}

#[test]
fn scaling_is_identity_when_uncalibrated() {
    assert_eq!(scale_to_micros(1234, None), 1234);
    assert_eq!(scale_to_micros(1234, Some(0)), 1234);
    // At 1 MHz, one cycle is one microsecond.
    assert_eq!(scale_to_micros(5, Some(1_000_000)), 5);
    // At 1 GHz, 1000 cycles is one microsecond.
    assert_eq!(scale_to_micros(1000, Some(1_000_000_000)), 1);
}

#[test]
fn scaling_stops_at_the_largest_product() {
    assert_eq!(scale_to_micros(u64::MAX, Some(1)), u64::MAX);
    assert_eq!(scale_to_micros(u64::MAX, Some(2)), u64::MAX / 2);
}

#[test]
fn elapsed_cycles_wrap_around() {
    let mut timings = LockTimings::new();
    let now = Cell::new(u64::MAX - 1);
    let clock = || {
        let value = now.get();
        now.set(value.wrapping_add(0x2_0000));
        value
    };
    measure(&mut timings, LockScope::BootRecovery, &clock, || ());
    let recorded = snapshot(&timings)[2].unwrap();
    assert_eq!(recorded.max_cycles, 0x2_0000);
    assert_eq!(recorded.buckets, [0, 0, 1, 0, 0, 0]);
}

#[test]
fn counters_keep_the_total_the_largest_and_the_mean() {
    let mut counters = ScopeCounters::new();
    counters.record(10);
    counters.record(30);
    assert_eq!(counters.holds, 2);
    assert_eq!(counters.total_cycles, 40);
    assert_eq!(counters.max_cycles, 30);

    let mut timings = LockTimings::new();
    timings.record(LockScope::SyscallOperation, 10);
    timings.record(LockScope::SyscallOperation, 30);
    assert_eq!(timings.snapshot()[0].unwrap().mean_cycles(), Some(20));
}

#[test]
fn scopes_have_names() {
    assert_eq!(LockScope::SyscallOperation.as_str(), "syscall-op");
    assert_eq!(LockScope::VolumeRepair.as_str(), "volume-repair");
    assert_eq!(LockScope::BootRecovery.as_str(), "boot-recovery");
}

#[test]
fn a_fresh_value_counts_from_zero() {
    let mut timings = LockTimings::new();
    timings.record(LockScope::BootRecovery, 10);
    let recorded = timings.snapshot()[LockScope::BootRecovery.index()].expect("recorded");
    assert_eq!(recorded.holds, 1);
    assert_eq!(recorded.total_cycles, 10);
    assert_eq!(recorded.max_cycles, 10);
    assert_eq!(recorded.buckets.iter().sum::<u64>(), 1);
}
