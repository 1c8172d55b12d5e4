//! Data runs: where the clusters of a file lie.
use vstd::prelude::*;

verus! {

/// A run of clusters. A negative cluster number marks a run that holds only zeros.
#[derive(Debug, Clone, Copy, PartialEq, Eq, Structural)]
pub struct DataRun {
    pub lcn: i64,
    pub cluster_count: u64,
}

/// The little-endian number in `n` bytes from `at` on.
pub open spec fn le_value(s: Seq<u8>, at: int, n: int) -> int
    decreases n,
{
    if n <= 0 {
        0
    } else {
        s[at] + 256 * le_value(s, at + 1, n - 1)
    }
}

/// How many values `n` bytes can hold.
pub open spec fn byte_range(n: int) -> int
    decreases n,
{
    if n <= 0 {
        1
    } else {
        256 * byte_range(n - 1)
    }
}

/// The little-endian two's complement number in `n` bytes from `at` on.
pub open spec fn signed_value(s: Seq<u8>, at: int, n: int) -> int {
    let v = le_value(s, at, n);
    if n > 0 && 2 * v >= byte_range(n) {
        v - byte_range(n)
    } else {
        v
    }
}

proof fn lemma_le_bound(s: Seq<u8>, at: int, n: int)
    ensures
        0 <= le_value(s, at, n) < byte_range(n),
    decreases n,
{
    if n > 0 {
        lemma_le_bound(s, at + 1, n - 1);
    }
}

proof fn lemma_byte_range(n: int)
    requires
        0 <= n <= 8,
    ensures
        1 <= byte_range(n) <= 0x1_0000_0000_0000_0000,
{
    reveal_with_fuel(byte_range, 9);
}

fn read_le(s: &[u8], at: usize, n: usize) -> (r: (u64, u128))
    requires
        n <= 8,
        at + n <= s@.len(),
    ensures
        r.0 == le_value(s@, at as int, n as int),
        r.1 == byte_range(n as int),
        r.1 <= 0x1_0000_0000_0000_0000,
        r.0 < r.1,
{
    let _total: usize = s.len();
    let mut value: u64 = 0;
    let mut range: u128 = 1;
    let mut i: usize = n;
    while i > 0
        invariant
            i <= n <= 8,
            at + n <= s@.len() <= usize::MAX,
            value == le_value(s@, at + i, n - i),
            range == byte_range(n - i),
            range <= 0x1_0000_0000_0000_0000,
        decreases i,
    {
        proof {
            lemma_le_bound(s@, at + i - 1, n - i + 1);
            lemma_byte_range(n - i + 1);
        }
        i = i - 1;
        value = s[at + i] as u64 + 256 * value;
        range = 256 * range;
    }
    proof {
        lemma_le_bound(s@, at as int, n as int);
        lemma_byte_range(n as int);
    }
    (value, range)
}

fn read_signed(s: &[u8], at: usize, n: usize) -> (r: i64)
    requires
        n <= 8,
        at + n <= s@.len(),
    ensures
        r == signed_value(s@, at as int, n as int),
{
    let (value, range) = read_le(s, at, n);
    if n > 0 && 2 * (value as u128) >= range {
        let wide: i128 = value as i128 - range as i128;
        wide as i64
    } else {
        proof {
            if n == 0 {
                assert(byte_range(0) == 1);
            }
        }
        value as i64
    }
}

/// The runs from `at` on, where the previous run lay at `previous`. A zero byte ends
/// them, and so does a run that is cut off, whose fields are wider than eight bytes, or
/// whose place is not a 64-bit number.
///
/// The place of a run is given relative to that of the previous one. A distance of zero
/// marks a run that holds only zeros.
pub open spec fn runs_from(buf: Seq<u8>, at: int, previous: int) -> Seq<DataRun>
    decreases buf.len() - at,
{
    let n = buf[at] as int % 16;
    let m = buf[at] as int / 16;
    let next = at + 1 + n + m;
    if at >= buf.len() || buf[at] == 0 || next > buf.len() || n > 8 || m > 8 {
        seq![]
    } else {
        let count = le_value(buf, at + 1, n);
        let delta = signed_value(buf, at + 1 + n, m);
        let lcn = if delta == 0 {
            -1
        } else {
            previous + delta
        };
        if count == 0 {
            runs_from(buf, next, previous)
        } else if !(i64::MIN <= lcn <= i64::MAX) {
            seq![]
        } else {
            seq![DataRun { lcn: lcn as i64, cluster_count: count as u64 }] + runs_from(
                buf,
                next,
                lcn,
            )
        }
    }
}

/// Parses data runs. The places of the runs in the result are absolute.
pub fn parse_data_runs(buf: &[u8]) -> (r: Vec<DataRun>)
    ensures
        r@ == runs_from(buf@, 0, 0),
{
    let mut runs: Vec<DataRun> = Vec::new();
    let mut previous: i64 = 0;
    let total: usize = buf.len();
    let mut at: usize = 0;
    assert(runs@ + runs_from(buf@, 0, 0) =~= runs_from(buf@, 0, 0));
    while at < total
        invariant
            total == buf@.len(),
            at <= total,
            runs_from(buf@, 0, 0) == runs@ + runs_from(buf@, at as int, previous as int),
        decreases total - at,
    {
        let ghost before = runs@;
        assert(before + Seq::<DataRun>::empty() =~= before);
        let header: u8 = buf[at];
        if header == 0 {
            return runs;
        }
        let n: usize = (header % 16) as usize;
        let m: usize = (header / 16) as usize;
        if n + m > total - at - 1 || n > 8 || m > 8 {
            return runs;
        }
        let (count, _) = read_le(buf, at + 1, n);
        let delta: i64 = read_signed(buf, at + 1 + n, m);
        let next: usize = at + 1 + n + m;
        if count > 0 {
            let wide: i128 = if delta == 0 {
                -1
            } else {
                previous as i128 + delta as i128
            };
            if wide < i64::MIN as i128 || wide > i64::MAX as i128 {
                return runs;
            }
            previous = wide as i64;
            let run = DataRun { lcn: previous, cluster_count: count };
            runs.push(run);
            proof {
                let rest = runs_from(buf@, next as int, previous as int);
                assert(before + (seq![run] + rest) =~= runs@ + rest);
            }
        }
        at = next;
    }
    assert(runs@ + Seq::<DataRun>::empty() =~= runs@);
    runs
}

} // verus!
