//! Where the data of a file lies, and what is read of it, said from the writer's side.
use vstd::prelude::*;

use crate::block::{BlockDevice, bytes_at, law_bytes_are_those_of_the_image};
use crate::bytes::{put, u16_at, zeros};
use crate::ntfs::io::{file_read, fixed_upto, lemma_fixed_front, lemma_wide_product, mft_record_on, runs_read};
use crate::ntfs::runs::{DataRun, byte_range, le_value, runs_from, signed_value};
use crate::ntfs::types::{MFT_MAGIC, NtfsInfo};
use crate::order::smaller;
use crate::spelling::{has_at, lemma_between, lemma_low_first, lemma_part_at, lemma_spelled_at, low_first, spells};

verus! {

/// A run as a volume stores it: how many bytes its two numbers take, how many clusters it
/// has, and how far it lies from the run before it.
pub struct StoredRun {
    pub count_bytes: nat,
    pub step_bytes: nat,
    pub count: int,
    pub step: int,
}

/// How many numbers can be told apart in `n` bytes.
pub open spec fn room_of(n: nat) -> int
    decreases n,
{
    if n == 0 {
        1
    } else {
        256 * room_of((n - 1) as nat)
    }
}

/// Whether the numbers of a run fit where they are stored, and it is no hole.
pub open spec fn storable_run(r: StoredRun) -> bool {
    &&& 1 <= r.count_bytes <= 8
    &&& 1 <= r.step_bytes <= 8
    &&& 0 < r.count < room_of(r.count_bytes)
    &&& r.step != 0
    &&& -room_of(r.step_bytes) <= 2 * r.step < room_of(r.step_bytes)
}

/// The bytes of a run. A step back is stored as what is missing to the next power.
pub open spec fn run_bytes(r: StoredRun) -> Seq<u8> {
    seq![(16 * r.step_bytes + r.count_bytes) as u8] + low_first(r.count, r.count_bytes) + low_first(
        if r.step < 0 {
            r.step + room_of(r.step_bytes)
        } else {
            r.step
        },
        r.step_bytes,
    )
}

pub open spec fn runs_in_turn(runs: Seq<StoredRun>) -> Seq<u8>
    decreases runs.len(),
{
    if runs.len() == 0 {
        seq![]
    } else {
        run_bytes(runs[0]) + runs_in_turn(runs.skip(1))
    }
}

/// Where the runs lie: each as far from the one before it as it says.
pub open spec fn runs_placed(runs: Seq<StoredRun>, previous: int) -> Seq<DataRun>
    decreases runs.len(),
{
    if runs.len() == 0 {
        seq![]
    } else {
        let place = previous + runs[0].step;
        seq![DataRun { lcn: place as i64, cluster_count: runs[0].count as u64 }] + runs_placed(
            runs.skip(1),
            place,
        )
    }
}

pub open spec fn places_fit(runs: Seq<StoredRun>, previous: int) -> bool
    decreases runs.len(),
{
    runs.len() > 0 ==> i64::MIN <= previous + runs[0].step <= i64::MAX && places_fit(
        runs.skip(1),
        previous + runs[0].step,
    )
}

proof fn lemma_value_spelled(s: Seq<u8>, at: int, v: int, n: nat)
    requires
        spells(s, at, v, n),
        0 <= v < room_of(n),
    ensures
        le_value(s, at, n as int) == v,
    decreases n,
{
    if n > 0 {
        lemma_value_spelled(s, at + 1, v / 256, (n - 1) as nat);
    }
}

proof fn lemma_rooms(n: nat)
    ensures
        room_of(n) == byte_range(n as int),
        room_of(n) >= 1,
        n > 0 ==> room_of(n) % 2 == 0,
    decreases n,
{
    if n > 0 {
        lemma_rooms((n - 1) as nat);
    }
}

proof fn lemma_room_bound(n: nat)
    requires
        n <= 8,
    ensures
        room_of(n) <= 0x1_0000_0000_0000_0000,
{
    reveal_with_fuel(room_of, 9);
}

proof fn lemma_run_read(buf: Seq<u8>, at: int, r: StoredRun, previous: int)
    requires
        storable_run(r),
        has_at(buf, at, run_bytes(r)),
        i64::MIN <= previous + r.step <= i64::MAX,
    ensures
        runs_from(buf, at, previous) == seq![
            DataRun { lcn: (previous + r.step) as i64, cluster_count: r.count as u64 },
        ] + runs_from(buf, at + run_bytes(r).len(), previous + r.step),
{
    let n = r.count_bytes;
    let m = r.step_bytes;
    let coded = if r.step < 0 {
        r.step + room_of(m)
    } else {
        r.step
    };
    let w = run_bytes(r);
    lemma_low_first(r.count, n);
    lemma_low_first(coded, m);
    assert(w.len() == 1 + n + m);
    assert(buf.subrange(at, at + w.len())[0] == buf[at]);
    assert(buf[at] == 16 * m + n);
    assert(buf[at] as int % 16 == n && buf[at] as int / 16 == m);
    assert(w.subrange(1, 1int + n) =~= low_first(r.count, n));
    assert(w.subrange(1int + n, 1int + n + m) =~= low_first(coded, m));
    lemma_part_at(buf, at, w, 1, low_first(r.count, n));
    lemma_part_at(buf, at, w, 1int + n, low_first(coded, m));
    lemma_spelled_at(buf, at + 1, r.count, n);
    lemma_spelled_at(buf, at + 1 + n, coded, m);
    lemma_rooms(n);
    lemma_rooms(m);
    lemma_value_spelled(buf, at + 1, r.count, n);
    lemma_value_spelled(buf, at + 1 + n, coded, m);
    lemma_room_bound(n);
    assert(signed_value(buf, at + 1 + n, m as int) == r.step);
}

proof fn lemma_runs_read(front: Seq<u8>, runs: Seq<StoredRun>, end: Seq<u8>, previous: int)
    requires
        forall|i: int| #![trigger runs[i]] 0 <= i < runs.len() ==> storable_run(runs[i]),
        places_fit(runs, previous),
        end.len() > 0 ==> end[0] == 0,
    ensures
        runs_from(front + (runs_in_turn(runs) + end), front.len() as int, previous) == runs_placed(
            runs,
            previous,
        ),
    decreases runs.len(),
{
    let buf = front + (runs_in_turn(runs) + end);
    if runs.len() == 0 {
        assert(runs_in_turn(runs) + end =~= end);
        if end.len() > 0 {
            assert(buf[front.len() as int] == 0);
        }
    } else {
        let r = runs[0];
        let first = run_bytes(r);
        let rest = runs.skip(1);
        assert(runs_in_turn(runs) + end =~= first + (runs_in_turn(rest) + end));
        lemma_between(front, first, runs_in_turn(rest) + end);
        assert(storable_run(r));
        lemma_run_read(buf, front.len() as int, r, previous);
        assert forall|i: int| #![trigger rest[i]] 0 <= i < rest.len() implies storable_run(rest[i]) by {
            assert(rest[i] == runs[i + 1]);
        }
        lemma_runs_read(front + first, rest, end, previous + r.step);
    }
}

/// Every run that is stored is read, in order: how long it is, and where it lies, each as far
/// from the one before it as it says, forwards or backwards. A zero ends them.
pub proof fn law_runs_are_read(runs: Seq<StoredRun>, end: Seq<u8>)
    requires
        forall|i: int| #![trigger runs[i]] 0 <= i < runs.len() ==> storable_run(runs[i]),
        places_fit(runs, 0),
        end.len() > 0 ==> end[0] == 0,
    ensures
        runs_from(runs_in_turn(runs) + end, 0, 0) == runs_placed(runs, 0),
{
    let none = Seq::<u8>::empty();
    assert(none + (runs_in_turn(runs) + end) =~= runs_in_turn(runs) + end);
    lemma_runs_read(none, runs, end, 0);
}

/// A run whose place is not given is a hole: it has a length and no place.
pub proof fn law_hole_is_read(count_bytes: nat, count: int, rest: Seq<u8>, previous: int)
    requires
        1 <= count_bytes <= 8,
        0 < count < room_of(count_bytes),
    ensures
        ({
            let buf = seq![count_bytes as u8] + low_first(count, count_bytes) + rest;
            let runs = runs_from(buf, 0, previous);
            runs.len() > 0 && runs[0].lcn < 0 && runs[0].cluster_count == count
        }),
{
    let buf = seq![count_bytes as u8] + low_first(count, count_bytes) + rest;
    lemma_low_first(count, count_bytes);
    assert(buf.subrange(1, 1int + count_bytes) =~= low_first(count, count_bytes));
    lemma_spelled_at(buf, 1, count, count_bytes);
    lemma_value_spelled(buf, 1, count, count_bytes);
    lemma_room_bound(count_bytes);
    assert(le_value(buf, 1int + count_bytes, 0) == 0);
}

// ── Restoring sectors ──

/// Restoring a record puts the stored last two bytes back at the end of each sector, and
/// changes nothing else. The array that holds them lies before the end of the first sector.
pub proof fn law_sectors_are_restored(record: Seq<u8>, usa: int, n: int)
    requires
        0 <= n,
        0 <= usa,
        usa + 2 * n + 2 <= 510,
        n * 512 <= record.len(),
    ensures
        fixed_upto(record, usa, n).len() == record.len(),
        forall|i: int|
            #![trigger fixed_upto(record, usa, n)[i]]
            0 <= i < record.len() ==> fixed_upto(record, usa, n)[i] == if i < n * 512 && i % 512
                == 510 {
                record[usa + 2 * (i / 512 + 1)]
            } else if i < n * 512 && i % 512 == 511 {
                record[usa + 2 * (i / 512 + 1) + 1]
            } else {
                record[i]
            },
    decreases n,
{
    if n > 0 {
        law_sectors_are_restored(record, usa, n - 1);
        let r = fixed_upto(record, usa, n - 1);
        let now = fixed_upto(record, usa, n);
        assert(r[usa + n * 2] == record[usa + n * 2]);
        assert(r[usa + n * 2 + 1] == record[usa + n * 2 + 1]);
        assert(now == r.update(n * 512 - 2, r[usa + n * 2]).update(n * 512 - 1, r[usa + n * 2 + 1]));
        assert forall|i: int| #![trigger now[i]] 0 <= i < record.len() implies now[i] == if i < n * 512
            && i % 512 == 510 {
            record[usa + 2 * (i / 512 + 1)]
        } else if i < n * 512 && i % 512 == 511 {
            record[usa + 2 * (i / 512 + 1) + 1]
        } else {
            record[i]
        } by {
            if i == n * 512 - 2 || i == n * 512 - 1 {
                assert(i / 512 + 1 == n);
            } else if i >= (n - 1) * 512 && i < n * 512 {
                assert(i % 512 == i - (n - 1) * 512);
            }
        }
    }
}

/// A record of the master file table is read from its place: the records lie one after the
/// other from the table's first cluster on, and start with the four letters.
pub proof fn law_record_is_read_from_its_place<D: BlockDevice>(
    device: D,
    info: NtfsInfo,
    number: u64,
)
    requires
        info.mft_record_size > 0,
        mft_record_on(device, info, number) is Ok,
    ensures
        ({
            let place = info.bs.mft_lcn * info.cluster_size + number * info.mft_record_size;
            let record = mft_record_on(device, info, number)->Ok_0;
            &&& place + info.mft_record_size <= device.image().len()
            &&& record.len() == info.mft_record_size
            &&& forall|i: int|
                #![trigger record[i]]
                0 <= i < 510 && i < record.len() ==> record[i] == device.image()[place + i]
            &&& record.take(4) == seq![70u8, 73u8, 76u8, 69u8]
        }),
{
    let place = info.bs.mft_lcn * info.cluster_size + number * info.mft_record_size;
    lemma_wide_product(info.bs.mft_lcn as int, info.cluster_size as int);
    lemma_wide_product(number as int, info.mft_record_size as int);
    law_bytes_are_those_of_the_image(device, place, info.mft_record_size as int);
    let raw = device.image().subrange(place, place + info.mft_record_size);
    lemma_fixed_front(raw, u16_at(raw, 4) as int, u16_at(raw, 6) - 1);
    let record = mft_record_on(device, info, number)->Ok_0;
    assert(MFT_MAGIC@ =~= seq![70u8, 73u8, 76u8, 69u8]);
    assert(record.take(4) =~= raw.take(4));
}

// ── Reading ──

/// The byte of a file at which a run starts.
pub open spec fn run_start(runs: Seq<DataRun>, cluster: int, k: int) -> int
    decreases k,
{
    if k <= 0 {
        0
    } else {
        run_start(runs, cluster, k - 1) + runs[k - 1].cluster_count * cluster
    }
}

proof fn lemma_starts_rise(runs: Seq<DataRun>, cluster: int, i: int, j: int)
    requires
        0 <= cluster,
        0 <= i <= j,
    ensures
        0 <= run_start(runs, cluster, i) <= run_start(runs, cluster, j),
    decreases j,
{
    if i < j {
        lemma_starts_rise(runs, cluster, i, j - 1);
        assert(0 <= runs[j - 1].cluster_count * cluster) by (nonlinear_arith)
            requires
                0 <= cluster,
        ;
    } else if j > 0 {
        lemma_starts_rise(runs, cluster, i - 1, j - 1);
        assert(0 <= runs[j - 1].cluster_count * cluster) by (nonlinear_arith)
            requires
                0 <= cluster,
        ;
    }
}

/// The byte that a file has at `p`, which lies in run `k`.
pub open spec fn byte_in_run<D: BlockDevice>(
    device: D,
    cluster: int,
    runs: Seq<DataRun>,
    k: int,
    p: int,
) -> u8 {
    if runs[k].lcn < 0 {
        0
    } else {
        device.image()[runs[k].lcn * cluster + (p - run_start(runs, cluster, k))]
    }
}

/// Whether a buffer holds what the runs from `k` on have between two bytes of the file.
pub open spec fn holds_runs<D: BlockDevice>(
    device: D,
    cluster: int,
    runs: Seq<DataRun>,
    k: int,
    offset: int,
    end: int,
    buf: Seq<u8>,
) -> bool {
    forall|j: int, p: int|
        #![trigger byte_in_run(device, cluster, runs, j, p)]
        k <= j < runs.len() && run_start(runs, cluster, j) <= p < run_start(runs, cluster, j + 1)
            && offset <= p < end ==> buf[p - offset] == byte_in_run(device, cluster, runs, j, p)
}

#[verifier::rlimit(40)]
proof fn lemma_runs_data<D: BlockDevice>(
    device: D,
    cluster: int,
    runs: Seq<DataRun>,
    k: int,
    offset: int,
    end: int,
    buf: Seq<u8>,
    total: int,
)
    requires
        0 < cluster,
        0 <= k <= runs.len(),
        0 <= offset <= end,
        end - offset <= buf.len(),
        runs_read(
            device,
            cluster,
            runs,
            k,
            run_start(runs, cluster, k),
            offset,
            end,
            buf,
            total,
        ).fault is None,
    ensures
        ({
            let start = run_start(runs, cluster, k);
            let last = run_start(runs, cluster, runs.len() as int);
            let r = runs_read(device, cluster, runs, k, start, offset, end, buf, total);
            &&& r.buf.len() == buf.len()
            &&& holds_runs(device, cluster, runs, k, offset, end, r.buf)
            &&& forall|i: int|
                #![trigger r.buf[i]]
                0 <= i < buf.len() && (offset + i < start || offset + i >= end || offset + i
                    >= last) ==> r.buf[i] == buf[i]
            &&& r.total == total + larger_of(0, smaller(end, last) - larger_of(offset, start))
        }),
    decreases runs.len() - k,
{
    let start = run_start(runs, cluster, k);
    let r = runs_read(device, cluster, runs, k, start, offset, end, buf, total);
    lemma_starts_rise(runs, cluster, k, runs.len() as int);
    let last = run_start(runs, cluster, runs.len() as int);
    if k >= runs.len() || start >= end {
        assert forall|j: int, p: int|
            #![trigger byte_in_run(device, cluster, runs, j, p)]
            k <= j < runs.len() && run_start(runs, cluster, j) <= p < run_start(runs, cluster, j + 1)
                && offset <= p < end implies r.buf[p - offset] == byte_in_run(
            device,
            cluster,
            runs,
            j,
            p,
        ) by {
            lemma_starts_rise(runs, cluster, k, j);
        }
    } else {
        let run_end = run_start(runs, cluster, k + 1);
        lemma_starts_rise(runs, cluster, k, k + 1);
        lemma_starts_rise(runs, cluster, k + 1, runs.len() as int);
        assert(run_end == start + runs[k].cluster_count * cluster);
        if run_end <= offset {
            lemma_runs_data(device, cluster, runs, k + 1, offset, end, buf, total);
            assert forall|j: int, p: int|
                #![trigger byte_in_run(device, cluster, runs, j, p)]
                k <= j < runs.len() && run_start(runs, cluster, j) <= p < run_start(
                    runs,
                    cluster,
                    j + 1,
                ) && offset <= p < end implies r.buf[p - offset] == byte_in_run(
                device,
                cluster,
                runs,
                j,
                p,
            ) by {
            }
        } else {
            let from = larger_of(offset, start);
            let n = smaller(end, run_end) - from;
            let place = runs[k].lcn * cluster + (from - start);
            let bytes: Seq<u8> = if runs[k].lcn < 0 {
                zeros(n as nat)
            } else {
                bytes_at(device, place, n)->Ok_0
            };
            if runs[k].lcn >= 0 {
                assert(0 <= runs[k].lcn * cluster) by (nonlinear_arith)
                    requires
                        runs[k].lcn >= 0,
                        cluster > 0,
                ;
                if n > 0 {
                    law_bytes_are_those_of_the_image(device, place, n);
                }
            }
            assert(bytes.len() == n);
            let next = put(buf, from - offset, bytes);
            lemma_runs_data(device, cluster, runs, k + 1, offset, end, next, total + n);
            assert forall|j: int, p: int|
                #![trigger byte_in_run(device, cluster, runs, j, p)]
                k <= j < runs.len() && run_start(runs, cluster, j) <= p < run_start(
                    runs,
                    cluster,
                    j + 1,
                ) && offset <= p < end implies r.buf[p - offset] == byte_in_run(
                device,
                cluster,
                runs,
                j,
                p,
            ) by {
                if j == k {
                    assert(r.buf[p - offset] == next[p - offset]);
                    assert(next[p - offset] == bytes[p - from]);
                    assert(place + (p - from) == runs[k].lcn * cluster + (p - start));
                }
            }
            assert forall|i: int|
                #![trigger r.buf[i]]
                0 <= i < buf.len() && (offset + i < start || offset + i >= end || offset + i >= last) implies r.buf[i]
                == buf[i] by {
                assert(next[i] == buf[i]);
            }
        }
    }
}

pub open spec fn larger_of(a: int, b: int) -> int {
    if a > b {
        a
    } else {
        b
    }
}

/// A read of a file gives, byte for byte, what the disk holds where its runs lie: the runs
/// cover the file one after the other, and a hole reads as zeros. The number of bytes read is
/// what was asked for, as far as the file and its runs go.
pub proof fn law_file_is_read_through_its_runs<D: BlockDevice>(
    device: D,
    cluster: int,
    runs: Seq<DataRun>,
    file_size: int,
    offset: int,
    buf: Seq<u8>,
    k: int,
    p: int,
)
    requires
        0 < cluster,
        0 <= offset,
        file_read(device, cluster, runs, file_size, offset, buf).fault is None,
        0 <= k < runs.len(),
        run_start(runs, cluster, k) <= p < run_start(runs, cluster, k + 1),
        offset <= p < file_size,
        p < offset + buf.len(),
    ensures
        ({
            let r = file_read(device, cluster, runs, file_size, offset, buf);
            let last = run_start(runs, cluster, runs.len() as int);
            &&& r.buf.len() == buf.len()
            &&& r.buf[p - offset] == (if runs[k].lcn < 0 {
                0
            } else {
                device.image()[runs[k].lcn * cluster + (p - run_start(runs, cluster, k))]
            })
            &&& offset + r.total == smaller(smaller(offset + buf.len(), file_size), last)
            &&& forall|i: int| #![trigger r.buf[i]] r.total <= i < buf.len() ==> r.buf[i] == buf[i]
        }),
{
    let end = smaller(offset + buf.len(), file_size);
    lemma_runs_data(device, cluster, runs, 0, offset, end, buf, 0);
    lemma_starts_rise(runs, cluster, k + 1, runs.len() as int);
    let r = file_read(device, cluster, runs, file_size, offset, buf);
    assert(r.buf[p - offset] == byte_in_run(device, cluster, runs, k, p));
}

/// Pieces of a file are pieces of the whole: a read at an offset gives what a read from the
/// start has there.
pub proof fn law_file_pieces<D: BlockDevice>(
    device: D,
    cluster: int,
    runs: Seq<DataRun>,
    file_size: int,
    whole: Seq<u8>,
    offset: int,
    piece: Seq<u8>,
    k: int,
    p: int,
)
    requires
        0 < cluster,
        0 <= offset <= p < file_size,
        p < whole.len(),
        p < offset + piece.len(),
        file_read(device, cluster, runs, file_size, 0, whole).fault is None,
        file_read(device, cluster, runs, file_size, offset, piece).fault is None,
        0 <= k < runs.len(),
        run_start(runs, cluster, k) <= p < run_start(runs, cluster, k + 1),
    ensures
        file_read(device, cluster, runs, file_size, offset, piece).buf[p - offset] == file_read(
            device,
            cluster,
            runs,
            file_size,
            0,
            whole,
        ).buf[p],
{
    law_file_is_read_through_its_runs(device, cluster, runs, file_size, 0, whole, k, p);
    law_file_is_read_through_its_runs(device, cluster, runs, file_size, offset, piece, k, p);
}

} // verus!
