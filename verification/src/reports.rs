//! The aggregation engine: a fixed catalogue of independent, read-only
//! analytical queries over the record collection. Durations are measured
//! in nanoseconds; a missing metric counts as zero where a report ranks by
//! it, and excludes the record where a report requires it. Sums saturate
//! at the width of their machine type; every other value is exact.

use vstd::prelude::*;
use crate::model::{
    ExecutionRecord, SpecRecord, SpecDurationVal, SpecFileEntry, DurationVal,
    duration_nanos, records_view, NANOS_PER_SEC,
};
use crate::rank::{rank_before, rank_keys_ok, pos_in, top_ranked};

verus! {

/// Saturation at the width of `u64`.
pub open spec fn sat64(x: int) -> int {
    if x > u64::MAX as int {
        u64::MAX as int
    } else {
        x
    }
}

/// Saturation at the width of `u128`.
pub open spec fn sat128(x: int) -> int {
    if x > u128::MAX as int {
        u128::MAX as int
    } else {
        x
    }
}

/// Nanoseconds of an optional time span; absence counts as zero.
pub open spec fn opt_dur_nanos(d: Option<SpecDurationVal>) -> int {
    match d {
        Some(x) => duration_nanos(x),
        None => 0,
    }
}

pub open spec fn total_nanos(r: SpecRecord) -> int {
    match r.metrics {
        Some(m) => opt_dur_nanos(m.total_time),
        None => 0,
    }
}

pub open spec fn queue_nanos(r: SpecRecord) -> int {
    match r.metrics {
        Some(m) => opt_dur_nanos(m.queue_time),
        None => 0,
    }
}

pub open spec fn setup_nanos(r: SpecRecord) -> int {
    match r.metrics {
        Some(m) => opt_dur_nanos(m.setup_time),
        None => 0,
    }
}

pub open spec fn upload_nanos(r: SpecRecord) -> int {
    match r.metrics {
        Some(m) => opt_dur_nanos(m.upload_time),
        None => 0,
    }
}

pub open spec fn execution_nanos(r: SpecRecord) -> int {
    match r.metrics {
        Some(m) => opt_dur_nanos(m.execution_wall_time),
        None => 0,
    }
}

pub open spec fn fetch_nanos(r: SpecRecord) -> int {
    match r.metrics {
        Some(m) => opt_dur_nanos(m.fetch_time),
        None => 0,
    }
}

pub open spec fn retry_nanos(r: SpecRecord) -> int {
    match r.metrics {
        Some(m) => opt_dur_nanos(m.retry_time),
        None => 0,
    }
}

/// Summed sizes of the digests of a record's produced outputs; an output
/// without a digest contributes nothing.
pub open spec fn sum_entry_bytes(fs: Seq<SpecFileEntry>) -> int
    decreases fs.len(),
{
    if fs.len() == 0 {
        0int
    } else {
        sum_entry_bytes(fs.drop_last()) + match fs.last().digest {
            Some(d) => d.size_bytes as int,
            None => 0int,
        }
    }
}

pub open spec fn out_bytes(r: SpecRecord) -> int {
    sum_entry_bytes(r.actual_outputs)
}

/// The free-text runner tag that marks a record served by the remote
/// cache.
pub open spec fn remote_cache_hit_runner() -> Seq<u8> {
    seq![114u8, 101u8, 109u8, 111u8, 116u8, 101u8, 32u8, 99u8, 97u8, 99u8, 104u8, 101u8, 32u8, 104u8, 105u8, 116u8]
}

pub open spec fn is_remote_cache_hit(r: SpecRecord) -> bool {
    r.runner == remote_cache_hit_runner()
}

/// Nanoseconds of an optional time span, saturated to `u64`.
pub fn sat_dur_nanos(d: &Option<DurationVal>) -> (n: u64)
    ensures
        n as int == sat64(opt_dur_nanos(crate::model::view_opt_duration(*d))),
{
    match d {
        None => 0,
        Some(x) => {
            proof {
                assert((x.seconds as int) * (NANOS_PER_SEC as int) <= 0xFFFF_FFFF_FFFF_FFFFu64
                    * 1_000_000_000int) by (nonlinear_arith)
                    requires
                        x.seconds <= 0xFFFF_FFFF_FFFF_FFFFu64,
                {
                }
            }
            let wide: u128 = (x.seconds as u128) * (NANOS_PER_SEC as u128) + (x.nanos as u128);
            if wide > u64::MAX as u128 {
                u64::MAX
            } else {
                wide as u64
            }
        },
    }
}

pub fn rec_total_nanos(rec: &ExecutionRecord) -> (n: u64)
    ensures
        n as int == sat64(total_nanos(rec@)),
{
    match &rec.metrics {
        None => 0,
        Some(m) => sat_dur_nanos(&m.total_time),
    }
}

pub fn rec_queue_nanos(rec: &ExecutionRecord) -> (n: u64)
    ensures
        n as int == sat64(queue_nanos(rec@)),
{
    match &rec.metrics {
        None => 0,
        Some(m) => sat_dur_nanos(&m.queue_time),
    }
}

pub fn rec_setup_nanos(rec: &ExecutionRecord) -> (n: u64)
    ensures
        n as int == sat64(setup_nanos(rec@)),
{
    match &rec.metrics {
        None => 0,
        Some(m) => sat_dur_nanos(&m.setup_time),
    }
}

pub fn rec_upload_nanos(rec: &ExecutionRecord) -> (n: u64)
    ensures
        n as int == sat64(upload_nanos(rec@)),
{
    match &rec.metrics {
        None => 0,
        Some(m) => sat_dur_nanos(&m.upload_time),
    }
}

pub fn rec_execution_nanos(rec: &ExecutionRecord) -> (n: u64)
    ensures
        n as int == sat64(execution_nanos(rec@)),
{
    match &rec.metrics {
        None => 0,
        Some(m) => sat_dur_nanos(&m.execution_wall_time),
    }
}

pub fn rec_fetch_nanos(rec: &ExecutionRecord) -> (n: u64)
    ensures
        n as int == sat64(fetch_nanos(rec@)),
{
    match &rec.metrics {
        None => 0,
        Some(m) => sat_dur_nanos(&m.fetch_time),
    }
}

pub fn rec_retry_nanos(rec: &ExecutionRecord) -> (n: u64)
    ensures
        n as int == sat64(retry_nanos(rec@)),
{
    match &rec.metrics {
        None => 0,
        Some(m) => sat_dur_nanos(&m.retry_time),
    }
}

/// Saturating add on `u64` against an exact ghost total.
pub fn sat_add64(acc: u64, x: u64) -> (r: u64)
    ensures
        r as int == sat64(acc + x),
{
    if acc <= u64::MAX - x {
        acc + x
    } else {
        u64::MAX
    }
}

/// Saturating add on `u128` against an exact ghost total.
pub fn sat_add128(acc: u128, x: u128) -> (r: u128)
    ensures
        r as int == sat128(acc + x),
{
    if acc <= u128::MAX - x {
        acc + x
    } else {
        u128::MAX
    }
}

/// Saturation composes: saturating after a saturated partial sum equals
/// saturating the exact sum.
pub proof fn lemma_sat64_add(a: int, b: int)
    requires
        a >= 0,
        b >= 0,
    ensures
        sat64(sat64(a) + b) == sat64(a + b),
{
}

pub proof fn lemma_sat128_add(a: int, b: int)
    requires
        a >= 0,
        b >= 0,
    ensures
        sat128(sat128(a) + b) == sat128(a + b),
{
}

/// Summed sizes of a record's output digests, exact: the sum of at most
/// `usize::MAX` values below `2^64` fits in `u128`.
pub fn rec_out_bytes(rec: &ExecutionRecord) -> (n: u128)
    ensures
        n as int == out_bytes(rec@),
{
    let ghost fs = rec@.actual_outputs;
    let mut acc: u128 = 0;
    let mut i: usize = 0;
    proof {
        assert(fs.take(0) =~= Seq::<SpecFileEntry>::empty());
    }
    while i < rec.actual_outputs.len()
        invariant
            i <= rec.actual_outputs.len(),
            fs == rec@.actual_outputs,
            acc as int == sum_entry_bytes(fs.take(i as int)),
            acc as int <= i * 0xFFFF_FFFF_FFFF_FFFFu64,
        decreases rec.actual_outputs.len() - i,
    {
        let add: u64 = match &rec.actual_outputs[i].digest {
            Some(d) => d.size_bytes,
            None => 0,
        };
        proof {
            assert(fs.take(i + 1).drop_last() =~= fs.take(i as int));
            assert(fs.take(i + 1).last() == fs[i as int]);
            assert(fs[i as int] == rec.actual_outputs@[i as int]@);
            assert((i + 1) * 0xFFFF_FFFF_FFFF_FFFFu64 == i * 0xFFFF_FFFF_FFFF_FFFFu64
                + 0xFFFF_FFFF_FFFF_FFFFu64) by (nonlinear_arith);
            assert(i * 0xFFFF_FFFF_FFFF_FFFFu64 + 0xFFFF_FFFF_FFFF_FFFFu64 < u128::MAX) by {
                assert(i < 0xFFFF_FFFF_FFFF_FFFFu64 + 1);
                assert(i * 0xFFFF_FFFF_FFFF_FFFFu64 <= 0xFFFF_FFFF_FFFF_FFFFu64
                    * 0xFFFF_FFFF_FFFF_FFFFu64) by (nonlinear_arith)
                    requires
                        i <= 0xFFFF_FFFF_FFFF_FFFFu64,
                {
                }
            }
        }
        acc = acc + (add as u128);
        i = i + 1;
    }
    proof {
        assert(fs.take(fs.len() as int) =~= fs);
    }
    acc
}


/// Compares two byte strings.
pub fn bytes_eq(a: &Vec<u8>, b: &Vec<u8>) -> (r: bool)
    ensures
        r == (a@ == b@),
{
    if a.len() != b.len() {
        proof {
            assert(a@ != b@);
        }
        return false;
    }
    let mut i: usize = 0;
    while i < a.len()
        invariant
            i <= a.len() == b.len(),
            forall|k: int| 0 <= k < i ==> a@[k] == b@[k],
        decreases a.len() - i,
    {
        if a[i] != b[i] {
            proof {
                assert(a@[i as int] != b@[i as int]);
            }
            return false;
        }
        i = i + 1;
    }
    proof {
        assert(a@ =~= b@);
    }
    true
}

/// Whether this record was served by the remote cache.
pub fn runner_is_remote_cache_hit(rec: &ExecutionRecord) -> (b: bool)
    ensures
        b == is_remote_cache_hit(rec@),
{
    let pat: Vec<u8> = vec![114u8, 101u8, 109u8, 111u8, 116u8, 101u8, 32u8, 99u8, 97u8, 99u8, 104u8, 101u8, 32u8, 104u8, 105u8, 116u8];
    proof {
        assert(pat@ =~= remote_cache_hit_runner());
    }
    bytes_eq(&rec.runner, &pat)
}

// ---------------------------------------------------------------------------
// Remote cache performance.
// ---------------------------------------------------------------------------

pub open spec fn count_remote_cache_hits(rs: Seq<SpecRecord>) -> int
    decreases rs.len(),
{
    if rs.len() == 0 {
        0int
    } else {
        count_remote_cache_hits(rs.drop_last()) + if is_remote_cache_hit(rs.last()) {
            1int
        } else {
            0int
        }
    }
}

pub open spec fn sum_hit_bytes(rs: Seq<SpecRecord>) -> int
    decreases rs.len(),
{
    if rs.len() == 0 {
        0int
    } else {
        sum_hit_bytes(rs.drop_last()) + if is_remote_cache_hit(rs.last()) {
            out_bytes(rs.last())
        } else {
            0int
        }
    }
}

pub open spec fn sum_hit_fetch_nanos(rs: Seq<SpecRecord>) -> int
    decreases rs.len(),
{
    if rs.len() == 0 {
        0int
    } else {
        sum_hit_fetch_nanos(rs.drop_last()) + if is_remote_cache_hit(rs.last()) {
            fetch_nanos(rs.last())
        } else {
            0int
        }
    }
}

/// Total fetch time below which a download rate is meaningless.
pub const RATE_EPSILON_NANOS: u64 = 1_000_000;

/// The remote-cache economics table: how many records the remote cache
/// served, the bytes their output digests cover, the summed fetch time,
/// and whether a download rate is meaningful.
#[derive(Clone, Copy, Debug, PartialEq, Eq)]
pub struct CacheReport {
    pub remote_cache_hits: usize,
    pub total_bytes_downloaded: u128,
    pub total_fetch_nanos: u64,
    pub rate_available: bool,
}

/// What the cache report says of a record set.
pub open spec fn cache_report_matches(rs: Seq<SpecRecord>, rep: CacheReport) -> bool {
    &&& rep.remote_cache_hits as int == count_remote_cache_hits(rs)
    &&& rep.total_bytes_downloaded as int == sat128(sum_hit_bytes(rs))
    &&& rep.total_fetch_nanos as int == sat64(sum_hit_fetch_nanos(rs))
    &&& rep.rate_available == (rep.total_fetch_nanos > RATE_EPSILON_NANOS)
}

/// The cache report is a pure function of the record set: two runs over
/// the same records agree on every count, byte total and rate decision.
pub proof fn lemma_cache_report_repeatable(rs: Seq<SpecRecord>, r1: CacheReport, r2: CacheReport)
    requires
        cache_report_matches(rs, r1),
        cache_report_matches(rs, r2),
    ensures
        r1 == r2,
{
}

/// Filters records served by the remote cache and sums their output bytes
/// and fetch durations; the rate is reported as unavailable when the total
/// fetch time is below a small epsilon.
pub fn cache_performance(records: &Vec<ExecutionRecord>) -> (rep: CacheReport)
    ensures
        cache_report_matches(records_view(records@), rep),
{
    let ghost rs = records_view(records@);
    let mut hits: usize = 0;
    let mut bytes: u128 = 0;
    let mut fetch: u64 = 0;
    let mut i: usize = 0;
    proof {
        assert(rs.take(0) =~= Seq::<SpecRecord>::empty());
    }
    while i < records.len()
        invariant
            i <= records.len(),
            rs == records_view(records@),
            hits as int == count_remote_cache_hits(rs.take(i as int)),
            hits <= i,
            bytes as int == sat128(sum_hit_bytes(rs.take(i as int))),
            fetch as int == sat64(sum_hit_fetch_nanos(rs.take(i as int))),
        decreases records.len() - i,
    {
        proof {
            assert(rs.take(i + 1).drop_last() =~= rs.take(i as int));
            assert(rs.take(i + 1).last() == rs[i as int]);
            assert(rs[i as int] == records@[i as int]@);
            assert(sum_hit_bytes(rs.take(i as int)) >= 0 && out_bytes(rs[i as int]) >= 0) by {
                lemma_sum_hit_bytes_nonneg(rs.take(i as int));
                lemma_out_bytes_nonneg(rs[i as int].actual_outputs);
            }
            lemma_sum_hit_fetch_nonneg(rs.take(i as int));
        }
        let rec = &records[i];
        if runner_is_remote_cache_hit(rec) {
            hits = hits + 1;
            let ob = rec_out_bytes(rec);
            proof {
                lemma_sat128_add(sum_hit_bytes(rs.take(i as int)), out_bytes(rs[i as int]));
            }
            bytes = sat_add128(bytes, ob);
            let fn_ = rec_fetch_nanos(rec);
            proof {
                lemma_sat64_add(sum_hit_fetch_nanos(rs.take(i as int)), fetch_nanos(rs[i as int]));
                assert(sat64(fetch_nanos(rs[i as int])) == fn_ as int);
                lemma_sat64_snd(sum_hit_fetch_nanos(rs.take(i as int)), fetch_nanos(rs[i as int]));
            }
            fetch = sat_add64(fetch, fn_);
        }
        i = i + 1;
    }
    proof {
        assert(rs.take(rs.len() as int) =~= rs);
    }
    let rate_available = fetch > RATE_EPSILON_NANOS;
    CacheReport { remote_cache_hits: hits, total_bytes_downloaded: bytes, total_fetch_nanos: fetch, rate_available }
}

/// Saturating a sum where the addend is itself saturated.
pub proof fn lemma_sat64_snd(a: int, b: int)
    requires
        a >= 0,
        b >= 0,
    ensures
        sat64(sat64(a) + sat64(b)) == sat64(a + b),
{
}

pub proof fn lemma_sum_hit_bytes_nonneg(rs: Seq<SpecRecord>)
    ensures
        sum_hit_bytes(rs) >= 0,
    decreases rs.len(),
{
    if rs.len() > 0 {
        lemma_sum_hit_bytes_nonneg(rs.drop_last());
        lemma_out_bytes_nonneg(rs.last().actual_outputs);
    }
}

pub proof fn lemma_out_bytes_nonneg(fs: Seq<SpecFileEntry>)
    ensures
        sum_entry_bytes(fs) >= 0,
    decreases fs.len(),
{
    if fs.len() > 0 {
        lemma_out_bytes_nonneg(fs.drop_last());
    }
}

pub proof fn lemma_sum_hit_fetch_nonneg(rs: Seq<SpecRecord>)
    ensures
        sum_hit_fetch_nanos(rs) >= 0,
    decreases rs.len(),
{
    if rs.len() > 0 {
        lemma_sum_hit_fetch_nonneg(rs.drop_last());
    }
}


// ---------------------------------------------------------------------------
// Retries and failures.
// ---------------------------------------------------------------------------

/// A record with a non-empty status or a nonzero retry duration.
pub open spec fn is_problematic(r: SpecRecord) -> bool {
    r.status.len() > 0 || retry_nanos(r) > 0
}

pub open spec fn count_problematic(rs: Seq<SpecRecord>) -> int
    decreases rs.len(),
{
    if rs.len() == 0 {
        0int
    } else {
        count_problematic(rs.drop_last()) + if is_problematic(rs.last()) {
            1int
        } else {
            0int
        }
    }
}

/// One failed or retried action.
#[derive(Clone, Copy, Debug, PartialEq, Eq)]
pub struct RetryRow {
    pub index: usize,
    pub retry_nanos: u64,
}

pub open spec fn retry_rows_have(rows: Seq<RetryRow>, j: int) -> bool {
    exists|k: int| 0 <= k < rows.len() && (#[trigger] rows[k]).index as int == j
}

/// Filters records with a non-empty status or a nonzero retry duration,
/// in natural order, no ranking.
pub fn retries_failures(records: &Vec<ExecutionRecord>) -> (rows: Vec<RetryRow>)
    ensures
        rows@.len() == count_problematic(records_view(records@)),
        forall|k: int|
            0 <= k < rows@.len() ==> {
                let row = #[trigger] rows@[k];
                &&& row.index < records@.len()
                &&& is_problematic(records_view(records@)[row.index as int])
                &&& row.retry_nanos as int == sat64(
                    retry_nanos(records_view(records@)[row.index as int]),
                )
            },
        forall|a: int, b: int|
            0 <= a < b < rows@.len() ==> (#[trigger] rows@[a]).index < (#[trigger] rows@[b]).index,
        forall|j: int|
            0 <= j < records@.len() && is_problematic(records_view(records@)[j]) ==> retry_rows_have(
                rows@,
                j,
            ),
{
    let ghost rs = records_view(records@);
    let mut rows: Vec<RetryRow> = Vec::new();
    let mut i: usize = 0;
    proof {
        assert(rs.take(0) =~= Seq::<SpecRecord>::empty());
    }
    while i < records.len()
        invariant
            i <= records.len(),
            rs == records_view(records@),
            rows@.len() == count_problematic(rs.take(i as int)),
            forall|k: int|
                0 <= k < rows@.len() ==> {
                    let row = #[trigger] rows@[k];
                    &&& row.index < i
                    &&& is_problematic(rs[row.index as int])
                    &&& row.retry_nanos as int == sat64(retry_nanos(rs[row.index as int]))
                },
            forall|a: int, b: int|
                0 <= a < b < rows@.len() ==> (#[trigger] rows@[a]).index < (
                #[trigger] rows@[b]).index,
            forall|j: int| 0 <= j < i && is_problematic(rs[j]) ==> retry_rows_have(rows@, j),
        decreases records.len() - i,
    {
        proof {
            assert(rs.take(i + 1).drop_last() =~= rs.take(i as int));
            assert(rs.take(i + 1).last() == rs[i as int]);
            assert(rs[i as int] == records@[i as int]@);
        }
        let rec = &records[i];
        let rn = rec_retry_nanos(rec);
        let has_status = rec.status.len() > 0;
        if has_status || rn > 0 {
            proof {
                if !(rec@.status.len() > 0) {
                    assert(sat64(retry_nanos(rs[i as int])) > 0);
                    assert(retry_nanos(rs[i as int]) > 0);
                }
                assert(is_problematic(rs[i as int]));
            }
            let ghost before = rows@;
            rows.push(RetryRow { index: i, retry_nanos: rn });
            proof {
                assert forall|j: int| 0 <= j < i + 1 && is_problematic(rs[j]) implies
                    retry_rows_have(rows@, j) by {
                    if j < i {
                        assert(retry_rows_have(before, j));
                        let k0 = choose|k: int|
                            0 <= k < before.len() && (#[trigger] before[k]).index as int == j;
                        assert(rows@[k0].index as int == j);
                    } else {
                        assert(rows@[rows@.len() - 1].index as int == j);
                    }
                }
            }
        } else {
            proof {
                assert(sat64(retry_nanos(rs[i as int])) == 0);
                assert(!is_problematic(rs[i as int]));
            }
        }
        i = i + 1;
    }
    proof {
        assert(rs.take(rs.len() as int) =~= rs);
    }
    rows
}

// ---------------------------------------------------------------------------
// Aggregate phase totals.
// ---------------------------------------------------------------------------

/// How many records the cache served, by the record's own flag.
pub open spec fn count_cache_hit_records(rs: Seq<SpecRecord>) -> int
    decreases rs.len(),
{
    if rs.len() == 0 {
        0int
    } else {
        count_cache_hit_records(rs.drop_last()) + if rs.last().cache_hit {
            1int
        } else {
            0int
        }
    }
}

/// Counts the records whose cache-hit flag is set, for the overall
/// summary.
pub fn cache_hit_count(records: &Vec<ExecutionRecord>) -> (n: usize)
    ensures
        n as int == count_cache_hit_records(records_view(records@)),
        n <= records@.len(),
{
    let ghost rs = records_view(records@);
    let mut n: usize = 0;
    let mut i: usize = 0;
    proof {
        assert(rs.take(0) =~= Seq::<SpecRecord>::empty());
    }
    while i < records.len()
        invariant
            i <= records.len(),
            rs == records_view(records@),
            n as int == count_cache_hit_records(rs.take(i as int)),
            n <= i,
        decreases records.len() - i,
    {
        proof {
            assert(rs.take(i + 1).drop_last() =~= rs.take(i as int));
            assert(rs.take(i + 1).last() == rs[i as int]);
            assert(rs[i as int] == records@[i as int]@);
        }
        if records[i].cache_hit {
            n = n + 1;
        }
        i = i + 1;
    }
    proof {
        assert(rs.take(rs.len() as int) =~= rs);
    }
    n
}

pub open spec fn count_executed(rs: Seq<SpecRecord>) -> int
    decreases rs.len(),
{
    if rs.len() == 0 {
        0int
    } else {
        count_executed(rs.drop_last()) + if !rs.last().cache_hit {
            1int
        } else {
            0int
        }
    }
}

pub open spec fn sum_exec_phase(rs: Seq<SpecRecord>, phase: spec_fn(SpecRecord) -> int) -> int
    decreases rs.len(),
{
    if rs.len() == 0 {
        0int
    } else {
        sum_exec_phase(rs.drop_last(), phase) + if !rs.last().cache_hit {
            phase(rs.last())
        } else {
            0int
        }
    }
}

/// Summed time of each phase across the executed (non-cache-hit) records.
#[derive(Clone, Copy, Debug, PartialEq, Eq)]
pub struct PhaseTotals {
    pub executed_count: usize,
    pub total_nanos: u64,
    pub queue_nanos: u64,
    pub setup_nanos: u64,
    pub upload_nanos: u64,
    pub execution_nanos: u64,
    pub fetch_nanos: u64,
    pub retry_nanos: u64,
}

pub open spec fn phase_totals_match(rs: Seq<SpecRecord>, t: PhaseTotals) -> bool {
    &&& t.executed_count as int == count_executed(rs)
    &&& t.total_nanos as int == sat64(sum_exec_phase(rs, |r: SpecRecord| total_nanos(r)))
    &&& t.queue_nanos as int == sat64(sum_exec_phase(rs, |r: SpecRecord| queue_nanos(r)))
    &&& t.setup_nanos as int == sat64(sum_exec_phase(rs, |r: SpecRecord| setup_nanos(r)))
    &&& t.upload_nanos as int == sat64(sum_exec_phase(rs, |r: SpecRecord| upload_nanos(r)))
    &&& t.execution_nanos as int == sat64(sum_exec_phase(rs, |r: SpecRecord| execution_nanos(r)))
    &&& t.fetch_nanos as int == sat64(sum_exec_phase(rs, |r: SpecRecord| fetch_nanos(r)))
    &&& t.retry_nanos as int == sat64(sum_exec_phase(rs, |r: SpecRecord| retry_nanos(r)))
}

proof fn lemma_sum_exec_phase_nonneg(rs: Seq<SpecRecord>, phase: spec_fn(SpecRecord) -> int)
    requires
        forall|r: SpecRecord| #[trigger] phase(r) >= 0,
    ensures
        sum_exec_phase(rs, phase) >= 0,
    decreases rs.len(),
{
    if rs.len() > 0 {
        lemma_sum_exec_phase_nonneg(rs.drop_last(), phase);
    }
}

/// Filters out cache hits and sums every phase duration across the rest.
pub fn aggregate_phases(records: &Vec<ExecutionRecord>) -> (t: PhaseTotals)
    ensures
        phase_totals_match(records_view(records@), t),
{
    let ghost rs = records_view(records@);
    let mut t = PhaseTotals {
        executed_count: 0,
        total_nanos: 0,
        queue_nanos: 0,
        setup_nanos: 0,
        upload_nanos: 0,
        execution_nanos: 0,
        fetch_nanos: 0,
        retry_nanos: 0,
    };
    let mut i: usize = 0;
    proof {
        assert(rs.take(0) =~= Seq::<SpecRecord>::empty());
    }
    while i < records.len()
        invariant
            i <= records.len(),
            rs == records_view(records@),
            t.executed_count <= i,
            phase_totals_match(rs.take(i as int), t),
        decreases records.len() - i,
    {
        proof {
            assert(rs.take(i + 1).drop_last() =~= rs.take(i as int));
            assert(rs.take(i + 1).last() == rs[i as int]);
            assert(rs[i as int] == records@[i as int]@);
        }
        let rec = &records[i];
        if !rec.cache_hit {
            t.executed_count = t.executed_count + 1;
            proof {
                lemma_phase_step(rs, i as int, |r: SpecRecord| total_nanos(r));
                lemma_phase_step(rs, i as int, |r: SpecRecord| queue_nanos(r));
                lemma_phase_step(rs, i as int, |r: SpecRecord| setup_nanos(r));
                lemma_phase_step(rs, i as int, |r: SpecRecord| upload_nanos(r));
                lemma_phase_step(rs, i as int, |r: SpecRecord| execution_nanos(r));
                lemma_phase_step(rs, i as int, |r: SpecRecord| fetch_nanos(r));
                lemma_phase_step(rs, i as int, |r: SpecRecord| retry_nanos(r));
            }
            t.total_nanos = sat_add64(t.total_nanos, rec_total_nanos(rec));
            t.queue_nanos = sat_add64(t.queue_nanos, rec_queue_nanos(rec));
            t.setup_nanos = sat_add64(t.setup_nanos, rec_setup_nanos(rec));
            t.upload_nanos = sat_add64(t.upload_nanos, rec_upload_nanos(rec));
            t.execution_nanos = sat_add64(t.execution_nanos, rec_execution_nanos(rec));
            t.fetch_nanos = sat_add64(t.fetch_nanos, rec_fetch_nanos(rec));
            t.retry_nanos = sat_add64(t.retry_nanos, rec_retry_nanos(rec));
        }
        i = i + 1;
    }
    proof {
        assert(rs.take(rs.len() as int) =~= rs);
    }
    t
}

/// Adding a non-hit record's phase time to a saturated partial sum gives
/// the saturated extended sum.
proof fn lemma_phase_step(rs: Seq<SpecRecord>, i: int, phase: spec_fn(SpecRecord) -> int)
    requires
        0 <= i < rs.len(),
        forall|r: SpecRecord| #[trigger] phase(r) >= 0,
        !rs[i].cache_hit,
    ensures
        sat64(sat64(sum_exec_phase(rs.take(i), phase)) + sat64(phase(rs[i]))) == sat64(
            sum_exec_phase(rs.take(i + 1), phase),
        ),
{
    assert(rs.take(i + 1).drop_last() =~= rs.take(i));
    assert(rs.take(i + 1).last() == rs[i]);
    lemma_sum_exec_phase_nonneg(rs.take(i), phase);
    lemma_sat64_snd(sum_exec_phase(rs.take(i), phase), phase(rs[i]));
}


// ---------------------------------------------------------------------------
// Top slowest actions.
// ---------------------------------------------------------------------------

/// Record `i` outranks record `j` by total duration: a strictly larger
/// total, or an equal total and an earlier position.
pub open spec fn slow_order(rs: Seq<SpecRecord>, i: int, j: int) -> bool {
    sat64(total_nanos(rs[i])) > sat64(total_nanos(rs[j])) || (sat64(total_nanos(rs[i])) == sat64(
        total_nanos(rs[j]),
    ) && i < j)
}

/// One entry of the slow-action ranking.
#[derive(Clone, Copy, Debug, PartialEq, Eq)]
pub struct SlowRow {
    pub index: usize,
    pub total_nanos: u64,
}

pub open spec fn slow_rows_have(rows: Seq<SlowRow>, j: int) -> bool {
    exists|k: int| 0 <= k < rows.len() && (#[trigger] rows[k]).index as int == j
}

/// All records ranked by total duration (a missing metric counts as zero)
/// descending, stable, cut to the first `n`.
#[verifier::rlimit(50)]
pub fn top_slowest(records: &Vec<ExecutionRecord>, n: usize) -> (rows: Vec<SlowRow>)
    ensures
        rows@.len() == if n <= records@.len() {
            n as int
        } else {
            records@.len() as int
        },
        forall|k: int|
            0 <= k < rows@.len() ==> {
                let row = #[trigger] rows@[k];
                &&& row.index < records@.len()
                &&& row.total_nanos as int == sat64(
                    total_nanos(records_view(records@)[row.index as int]),
                )
            },
        forall|a: int, b: int|
            0 <= a < b < rows@.len() ==> slow_order(
                records_view(records@),
                (#[trigger] rows@[a]).index as int,
                (#[trigger] rows@[b]).index as int,
            ),
        forall|j: int, k: int|
            #![trigger slow_rows_have(rows@, j), rows@[k]]
            0 <= j < records@.len() && !slow_rows_have(rows@, j) && 0 <= k < rows@.len()
                ==> slow_order(records_view(records@), rows@[k].index as int, j),
{
    let ghost rs = records_view(records@);
    let mut nums: Vec<u128> = Vec::new();
    let mut dens: Vec<u128> = Vec::new();
    let mut i: usize = 0;
    while i < records.len()
        invariant
            i <= records.len(),
            rs == records_view(records@),
            nums@.len() == i,
            dens@.len() == i,
            forall|k: int| 0 <= k < i ==> (#[trigger] nums@[k]) as int == sat64(total_nanos(rs[k])),
            forall|k: int| 0 <= k < i ==> (#[trigger] dens@[k]) == 1u128,
        decreases records.len() - i,
    {
        proof {
            assert(rs[i as int] == records@[i as int]@);
        }
        nums.push(rec_total_nanos(&records[i]) as u128);
        dens.push(1);
        i = i + 1;
    }
    proof {
        assert(rank_keys_ok(nums@, dens@)) by {
            assert forall|a: int, b: int|
                0 <= a < nums@.len() && 0 <= b < nums@.len() implies #[trigger] (nums@[a]
                * dens@[b]) <= u128::MAX by {
                assert(nums@[a] * dens@[b] == nums@[a]) by (nonlinear_arith)
                    requires
                        dens@[b] == 1u128,
                {
                }
            }
        }
    }
    let top = top_ranked(&nums, &dens, n);
    let mut rows: Vec<SlowRow> = Vec::new();
    let mut k: usize = 0;
    while k < top.len()
        invariant
            k <= top@.len(),
            rs == records_view(records@),
            records@.len() == nums@.len() == dens@.len(),
            forall|p: int| 0 <= p < nums@.len() ==> (#[trigger] nums@[p]) as int == sat64(
                total_nanos(rs[p]),
            ),
            forall|p: int| 0 <= p < nums@.len() ==> (#[trigger] dens@[p]) == 1u128,
            forall|p: int| 0 <= p < top@.len() ==> (#[trigger] top@[p]) < nums@.len(),
            rows@.len() == k,
            forall|p: int| 0 <= p < k ==> (#[trigger] rows@[p]).index == top@[p],
            forall|p: int|
                0 <= p < k ==> (#[trigger] rows@[p]).total_nanos as int == sat64(
                    total_nanos(rs[rows@[p].index as int]),
                ),
        decreases top@.len() - k,
    {
        let idx = top[k];
        rows.push(SlowRow { index: idx, total_nanos: rec_total_nanos(&records[idx]) });
        proof {
            assert(rs[idx as int] == records@[idx as int]@);
        }
        k = k + 1;
    }
    proof {
        assert forall|a: int, b: int| 0 <= a < b < rows@.len() implies slow_order(
            rs,
            (#[trigger] rows@[a]).index as int,
            (#[trigger] rows@[b]).index as int,
        ) by {
            assert(rank_before(nums@, dens@, top@[a] as int, top@[b] as int));
            lemma_unit_den_order(nums@, dens@, rs, top@[a] as int, top@[b] as int);
        }
        assert forall|j: int, k2: int|
            0 <= j < records@.len() && !slow_rows_have(rows@, j) && 0 <= k2
                < rows@.len() implies slow_order(rs, rows@[k2].index as int, j) by {
            assert(!pos_in(top@, j)) by {
                if pos_in(top@, j) {
                    let p = choose|p: int|
                        0 <= p < top@.len() && (#[trigger] top@[p]) as int == j;
                    assert(rows@[p].index as int == j);
                    assert(slow_rows_have(rows@, j));
                }
            }
            assert(rank_before(nums@, dens@, top@[k2] as int, j));
            lemma_unit_den_order(nums@, dens@, rs, top@[k2] as int, j);
        }
    }
    rows
}

/// With unit denominators, the rank order is exactly the slow-action
/// order.
proof fn lemma_unit_den_order(nums: Seq<u128>, dens: Seq<u128>, rs: Seq<SpecRecord>, a: int, b: int)
    requires
        0 <= a < nums.len(),
        0 <= b < nums.len(),
        nums.len() == rs.len(),
        forall|p: int| 0 <= p < nums.len() ==> (#[trigger] nums[p]) as int == sat64(
            total_nanos(rs[p]),
        ),
        forall|p: int| 0 <= p < nums.len() ==> (#[trigger] dens[p]) == 1u128,
        rank_before(nums, dens, a, b),
    ensures
        slow_order(rs, a, b),
{
    assert(nums[a] * dens[b] == nums[a]) by (nonlinear_arith)
        requires
            dens[b] == 1u128,
    {
    }
    assert(nums[b] * dens[a] == nums[b]) by (nonlinear_arith)
        requires
            dens[a] == 1u128,
    {
    }
}


// ---------------------------------------------------------------------------
// Queue analysis.
// ---------------------------------------------------------------------------

pub open spec fn queue_order(rs: Seq<SpecRecord>, i: int, j: int) -> bool {
    sat64(queue_nanos(rs[i])) > sat64(queue_nanos(rs[j])) || (sat64(queue_nanos(rs[i])) == sat64(
        queue_nanos(rs[j]),
    ) && i < j)
}

/// One entry of the queue-time ranking.
#[derive(Clone, Copy, Debug, PartialEq, Eq)]
pub struct QueueRow {
    pub index: usize,
    pub queue_nanos: u64,
    pub total_nanos: u64,
}

pub open spec fn queue_rows_have(rows: Seq<QueueRow>, j: int) -> bool {
    exists|k: int| 0 <= k < rows.len() && (#[trigger] rows[k]).index as int == j
}

/// Filters out cache hits and ranks the rest by queue duration
/// descending, stable, cut to the first `n`.
#[verifier::rlimit(100)]
pub fn queue_analysis(records: &Vec<ExecutionRecord>, n: usize) -> (rows: Vec<QueueRow>)
    ensures
        rows@.len() == if n as int <= count_executed(records_view(records@)) {
            n as int
        } else {
            count_executed(records_view(records@))
        },
        forall|k: int|
            0 <= k < rows@.len() ==> {
                let row = #[trigger] rows@[k];
                &&& row.index < records@.len()
                &&& !records_view(records@)[row.index as int].cache_hit
                &&& row.queue_nanos as int == sat64(
                    queue_nanos(records_view(records@)[row.index as int]),
                )
                &&& row.total_nanos as int == sat64(
                    total_nanos(records_view(records@)[row.index as int]),
                )
            },
        forall|a: int, b: int|
            0 <= a < b < rows@.len() ==> queue_order(
                records_view(records@),
                (#[trigger] rows@[a]).index as int,
                (#[trigger] rows@[b]).index as int,
            ),
        forall|j: int, k: int|
            #![trigger queue_rows_have(rows@, j), rows@[k]]
            0 <= j < records@.len() && !records_view(records@)[j].cache_hit && !queue_rows_have(
                rows@,
                j,
            ) && 0 <= k < rows@.len() ==> queue_order(
                records_view(records@),
                rows@[k].index as int,
                j,
            ),
{
    let ghost rs = records_view(records@);
    let mut qual: Vec<usize> = Vec::new();
    let mut nums: Vec<u128> = Vec::new();
    let mut dens: Vec<u128> = Vec::new();
    let mut i: usize = 0;
    proof {
        assert(rs.take(0) =~= Seq::<SpecRecord>::empty());
    }
    while i < records.len()
        invariant
            i <= records.len(),
            rs == records_view(records@),
            qual@.len() == nums@.len() == dens@.len(),
            qual@.len() == count_executed(rs.take(i as int)),
            forall|k: int| 0 <= k < qual@.len() ==> (#[trigger] qual@[k]) < i,
            forall|a: int, b: int| 0 <= a < b < qual@.len() ==> qual@[a] < qual@[b],
            forall|k: int|
                0 <= k < qual@.len() ==> !rs[(#[trigger] qual@[k]) as int].cache_hit,
            forall|k: int|
                0 <= k < qual@.len() ==> (#[trigger] nums@[k]) as int == sat64(
                    queue_nanos(rs[qual@[k] as int]),
                ),
            forall|k: int| 0 <= k < dens@.len() ==> (#[trigger] dens@[k]) == 1u128,
            forall|j: int| 0 <= j < i && !rs[j].cache_hit ==> pos_in(qual@, j),
        decreases records.len() - i,
    {
        proof {
            assert(rs.take(i + 1).drop_last() =~= rs.take(i as int));
            assert(rs.take(i + 1).last() == rs[i as int]);
            assert(rs[i as int] == records@[i as int]@);
        }
        let rec = &records[i];
        if !rec.cache_hit {
            let ghost before = qual@;
            qual.push(i);
            nums.push(rec_queue_nanos(rec) as u128);
            dens.push(1);
            proof {
                assert forall|j: int| 0 <= j < i + 1 && !rs[j].cache_hit implies pos_in(
                    qual@,
                    j,
                ) by {
                    if j < i {
                        assert(pos_in(before, j));
                        let k0 = choose|k: int|
                            0 <= k < before.len() && (#[trigger] before[k]) as int == j;
                        assert(qual@[k0] as int == j);
                    } else {
                        assert(qual@[qual@.len() - 1] as int == j);
                    }
                }
            }
        }
        i = i + 1;
    }
    proof {
        assert(rs.take(rs.len() as int) =~= rs);
        assert(rank_keys_ok(nums@, dens@)) by {
            assert forall|a: int, b: int|
                0 <= a < nums@.len() && 0 <= b < nums@.len() implies #[trigger] (nums@[a]
                * dens@[b]) <= u128::MAX by {
                assert(nums@[a] * dens@[b] == nums@[a]) by (nonlinear_arith)
                    requires
                        dens@[b] == 1u128,
                {
                }
            }
        }
    }
    let top = top_ranked(&nums, &dens, n);
    let mut rows: Vec<QueueRow> = Vec::new();
    let mut k: usize = 0;
    while k < top.len()
        invariant
            k <= top@.len(),
            rs == records_view(records@),
            qual@.len() == nums@.len() == dens@.len(),
            forall|p: int| 0 <= p < qual@.len() ==> (#[trigger] qual@[p]) < records@.len(),
            forall|p: int|
                0 <= p < qual@.len() ==> !rs[(#[trigger] qual@[p]) as int].cache_hit,
            forall|p: int|
                0 <= p < qual@.len() ==> (#[trigger] nums@[p]) as int == sat64(
                    queue_nanos(rs[qual@[p] as int]),
                ),
            forall|p: int| 0 <= p < top@.len() ==> (#[trigger] top@[p]) < qual@.len(),
            rows@.len() == k,
            forall|p: int|
                0 <= p < k ==> (#[trigger] rows@[p]).index == qual@[top@[p] as int],
            forall|p: int|
                0 <= p < k ==> {
                    let row = #[trigger] rows@[p];
                    &&& row.queue_nanos as int == sat64(queue_nanos(rs[row.index as int]))
                    &&& row.total_nanos as int == sat64(total_nanos(rs[row.index as int]))
                },
        decreases top@.len() - k,
    {
        let idx = qual[top[k]];
        proof {
            assert(rs[idx as int] == records@[idx as int]@);
        }
        rows.push(
            QueueRow {
                index: idx,
                queue_nanos: rec_queue_nanos(&records[idx]),
                total_nanos: rec_total_nanos(&records[idx]),
            },
        );
        k = k + 1;
    }
    proof {
        assert forall|a: int, b: int| 0 <= a < b < rows@.len() implies queue_order(
            rs,
            (#[trigger] rows@[a]).index as int,
            (#[trigger] rows@[b]).index as int,
        ) by {
            assert(rank_before(nums@, dens@, top@[a] as int, top@[b] as int));
            lemma_queue_bridge(nums@, dens@, qual@, rs, top@[a] as int, top@[b] as int);
        }
        assert forall|j: int, k2: int|
            0 <= j < records@.len() && !rs[j].cache_hit && !queue_rows_have(rows@, j) && 0 <= k2
                < rows@.len() implies queue_order(rs, rows@[k2].index as int, j) by {
            assert(pos_in(qual@, j));
            let q = choose|p: int| 0 <= p < qual@.len() && (#[trigger] qual@[p]) as int == j;
            assert(!pos_in(top@, q)) by {
                if pos_in(top@, q) {
                    let p = choose|p: int|
                        0 <= p < top@.len() && (#[trigger] top@[p]) as int == q;
                    assert(rows@[p].index as int == j);
                    assert(queue_rows_have(rows@, j));
                }
            }
            assert(rank_before(nums@, dens@, top@[k2] as int, q));
            lemma_queue_bridge(nums@, dens@, qual@, rs, top@[k2] as int, q);
        }
    }
    rows
}

/// Carries the position order of the ranking back to record indices.
proof fn lemma_queue_bridge(
    nums: Seq<u128>,
    dens: Seq<u128>,
    qual: Seq<usize>,
    rs: Seq<SpecRecord>,
    p: int,
    q: int,
)
    requires
        0 <= p < qual.len(),
        0 <= q < qual.len(),
        nums.len() == qual.len(),
        forall|k: int| 0 <= k < qual.len() ==> (#[trigger] qual[k]) < rs.len(),
        forall|a: int, b: int| 0 <= a < b < qual.len() ==> qual[a] < qual[b],
        forall|k: int|
            0 <= k < qual.len() ==> (#[trigger] nums[k]) as int == sat64(
                queue_nanos(rs[qual[k] as int]),
            ),
        forall|k: int| 0 <= k < dens.len() ==> (#[trigger] dens[k]) == 1u128,
        dens.len() == nums.len(),
        rank_before(nums, dens, p, q),
    ensures
        queue_order(rs, qual[p] as int, qual[q] as int),
{
    assert(nums[p] * dens[q] == nums[p]) by (nonlinear_arith)
        requires
            dens[q] == 1u128,
    {
    }
    assert(nums[q] * dens[p] == nums[q]) by (nonlinear_arith)
        requires
            dens[p] == 1u128,
    {
    }
    if nums[p] == nums[q] {
        assert(p < q);
        assert(qual[p] < qual[q]);
    }
}


// ---------------------------------------------------------------------------
// Phase timings of the slowest executed actions.
// ---------------------------------------------------------------------------

/// One entry of the phase-timing breakdown. The overhead share is the
/// exact rational `overhead_num / overhead_den` (zero denominator means a
/// zero total).
#[derive(Clone, Copy, Debug, PartialEq, Eq)]
pub struct PhaseRow {
    pub index: usize,
    pub total_nanos: u64,
    pub queue_nanos: u64,
    pub setup_nanos: u64,
    pub upload_nanos: u64,
    pub execution_nanos: u64,
    pub fetch_nanos: u64,
    pub overhead_num: u64,
    pub overhead_den: u64,
}

pub open spec fn phase_rows_have(rows: Seq<PhaseRow>, j: int) -> bool {
    exists|k: int| 0 <= k < rows.len() && (#[trigger] rows[k]).index as int == j
}

pub open spec fn phase_row_matches(rs: Seq<SpecRecord>, row: PhaseRow) -> bool {
    &&& row.index < rs.len()
    &&& !rs[row.index as int].cache_hit
    &&& row.total_nanos as int == sat64(total_nanos(rs[row.index as int]))
    &&& row.queue_nanos as int == sat64(queue_nanos(rs[row.index as int]))
    &&& row.setup_nanos as int == sat64(setup_nanos(rs[row.index as int]))
    &&& row.upload_nanos as int == sat64(upload_nanos(rs[row.index as int]))
    &&& row.execution_nanos as int == sat64(execution_nanos(rs[row.index as int]))
    &&& row.fetch_nanos as int == sat64(fetch_nanos(rs[row.index as int]))
    &&& row.overhead_den == row.total_nanos
    &&& row.overhead_num as int == if row.total_nanos >= row.execution_nanos {
        row.total_nanos - row.execution_nanos
    } else {
        0int
    }
}

/// Filters out cache hits, ranks the rest by total duration descending,
/// stable, cuts to the first `n`, and breaks each kept action into its
/// phases with its overhead share.
#[verifier::rlimit(100)]
pub fn phase_timings(records: &Vec<ExecutionRecord>, n: usize) -> (rows: Vec<PhaseRow>)
    ensures
        rows@.len() == if n as int <= count_executed(records_view(records@)) {
            n as int
        } else {
            count_executed(records_view(records@))
        },
        forall|k: int|
            0 <= k < rows@.len() ==> phase_row_matches(records_view(records@), #[trigger] rows@[k]),
        forall|a: int, b: int|
            0 <= a < b < rows@.len() ==> slow_order(
                records_view(records@),
                (#[trigger] rows@[a]).index as int,
                (#[trigger] rows@[b]).index as int,
            ),
        forall|j: int, k: int|
            #![trigger phase_rows_have(rows@, j), rows@[k]]
            0 <= j < records@.len() && !records_view(records@)[j].cache_hit && !phase_rows_have(
                rows@,
                j,
            ) && 0 <= k < rows@.len() ==> slow_order(
                records_view(records@),
                rows@[k].index as int,
                j,
            ),
{
    let ghost rs = records_view(records@);
    let mut qual: Vec<usize> = Vec::new();
    let mut nums: Vec<u128> = Vec::new();
    let mut dens: Vec<u128> = Vec::new();
    let mut i: usize = 0;
    proof {
        assert(rs.take(0) =~= Seq::<SpecRecord>::empty());
    }
    while i < records.len()
        invariant
            i <= records.len(),
            rs == records_view(records@),
            qual@.len() == nums@.len() == dens@.len(),
            qual@.len() == count_executed(rs.take(i as int)),
            forall|k: int| 0 <= k < qual@.len() ==> (#[trigger] qual@[k]) < i,
            forall|a: int, b: int| 0 <= a < b < qual@.len() ==> qual@[a] < qual@[b],
            forall|k: int|
                0 <= k < qual@.len() ==> !rs[(#[trigger] qual@[k]) as int].cache_hit,
            forall|k: int|
                0 <= k < qual@.len() ==> (#[trigger] nums@[k]) as int == sat64(
                    total_nanos(rs[qual@[k] as int]),
                ),
            forall|k: int| 0 <= k < dens@.len() ==> (#[trigger] dens@[k]) == 1u128,
            forall|j: int| 0 <= j < i && !rs[j].cache_hit ==> pos_in(qual@, j),
        decreases records.len() - i,
    {
        proof {
            assert(rs.take(i + 1).drop_last() =~= rs.take(i as int));
            assert(rs.take(i + 1).last() == rs[i as int]);
            assert(rs[i as int] == records@[i as int]@);
        }
        let rec = &records[i];
        if !rec.cache_hit {
            let ghost before = qual@;
            qual.push(i);
            nums.push(rec_total_nanos(rec) as u128);
            dens.push(1);
            proof {
                assert forall|j: int| 0 <= j < i + 1 && !rs[j].cache_hit implies pos_in(
                    qual@,
                    j,
                ) by {
                    if j < i {
                        assert(pos_in(before, j));
                        let k0 = choose|k: int|
                            0 <= k < before.len() && (#[trigger] before[k]) as int == j;
                        assert(qual@[k0] as int == j);
                    } else {
                        assert(qual@[qual@.len() - 1] as int == j);
                    }
                }
            }
        }
        i = i + 1;
    }
    proof {
        assert(rs.take(rs.len() as int) =~= rs);
        assert(rank_keys_ok(nums@, dens@)) by {
            assert forall|a: int, b: int|
                0 <= a < nums@.len() && 0 <= b < nums@.len() implies #[trigger] (nums@[a]
                * dens@[b]) <= u128::MAX by {
                assert(nums@[a] * dens@[b] == nums@[a]) by (nonlinear_arith)
                    requires
                        dens@[b] == 1u128,
                {
                }
            }
        }
    }
    let top = top_ranked(&nums, &dens, n);
    let mut rows: Vec<PhaseRow> = Vec::new();
    let mut k: usize = 0;
    while k < top.len()
        invariant
            k <= top@.len(),
            rs == records_view(records@),
            qual@.len() == nums@.len() == dens@.len(),
            forall|p: int| 0 <= p < qual@.len() ==> (#[trigger] qual@[p]) < records@.len(),
            forall|p: int|
                0 <= p < qual@.len() ==> !rs[(#[trigger] qual@[p]) as int].cache_hit,
            forall|p: int|
                0 <= p < qual@.len() ==> (#[trigger] nums@[p]) as int == sat64(
                    total_nanos(rs[qual@[p] as int]),
                ),
            forall|p: int| 0 <= p < top@.len() ==> (#[trigger] top@[p]) < qual@.len(),
            rows@.len() == k,
            forall|p: int|
                0 <= p < k ==> (#[trigger] rows@[p]).index == qual@[top@[p] as int],
            forall|p: int| 0 <= p < k ==> phase_row_matches(rs, #[trigger] rows@[p]),
        decreases top@.len() - k,
    {
        let idx = qual[top[k]];
        proof {
            assert(rs[idx as int] == records@[idx as int]@);
        }
        let rec = &records[idx];
        let total = rec_total_nanos(rec);
        let execution = rec_execution_nanos(rec);
        let overhead_num = if total >= execution {
            total - execution
        } else {
            0
        };
        rows.push(
            PhaseRow {
                index: idx,
                total_nanos: total,
                queue_nanos: rec_queue_nanos(rec),
                setup_nanos: rec_setup_nanos(rec),
                upload_nanos: rec_upload_nanos(rec),
                execution_nanos: execution,
                fetch_nanos: rec_fetch_nanos(rec),
                overhead_num,
                overhead_den: total,
            },
        );
        k = k + 1;
    }
    proof {
        assert forall|a: int, b: int| 0 <= a < b < rows@.len() implies slow_order(
            rs,
            (#[trigger] rows@[a]).index as int,
            (#[trigger] rows@[b]).index as int,
        ) by {
            assert(rank_before(nums@, dens@, top@[a] as int, top@[b] as int));
            lemma_total_bridge(nums@, dens@, qual@, rs, top@[a] as int, top@[b] as int);
        }
        assert forall|j: int, k2: int|
            0 <= j < records@.len() && !rs[j].cache_hit && !phase_rows_have(rows@, j) && 0 <= k2
                < rows@.len() implies slow_order(rs, rows@[k2].index as int, j) by {
            assert(pos_in(qual@, j));
            let q = choose|p: int| 0 <= p < qual@.len() && (#[trigger] qual@[p]) as int == j;
            assert(!pos_in(top@, q)) by {
                if pos_in(top@, q) {
                    let p = choose|p: int|
                        0 <= p < top@.len() && (#[trigger] top@[p]) as int == q;
                    assert(rows@[p].index as int == j);
                    assert(phase_rows_have(rows@, j));
                }
            }
            assert(rank_before(nums@, dens@, top@[k2] as int, q));
            lemma_total_bridge(nums@, dens@, qual@, rs, top@[k2] as int, q);
        }
    }
    rows
}

/// Carries the position order of a total-duration ranking back to record
/// indices.
proof fn lemma_total_bridge(
    nums: Seq<u128>,
    dens: Seq<u128>,
    qual: Seq<usize>,
    rs: Seq<SpecRecord>,
    p: int,
    q: int,
)
    requires
        0 <= p < qual.len(),
        0 <= q < qual.len(),
        nums.len() == qual.len(),
        forall|k: int| 0 <= k < qual.len() ==> (#[trigger] qual[k]) < rs.len(),
        forall|a: int, b: int| 0 <= a < b < qual.len() ==> qual[a] < qual[b],
        forall|k: int|
            0 <= k < qual.len() ==> (#[trigger] nums[k]) as int == sat64(
                total_nanos(rs[qual[k] as int]),
            ),
        forall|k: int| 0 <= k < dens.len() ==> (#[trigger] dens[k]) == 1u128,
        dens.len() == nums.len(),
        rank_before(nums, dens, p, q),
    ensures
        slow_order(rs, qual[p] as int, qual[q] as int),
{
    assert(nums[p] * dens[q] == nums[p]) by (nonlinear_arith)
        requires
            dens[q] == 1u128,
    {
    }
    assert(nums[q] * dens[p] == nums[q]) by (nonlinear_arith)
        requires
            dens[p] == 1u128,
    {
    }
    if nums[p] == nums[q] {
        assert(p < q);
        assert(qual[p] < qual[q]);
    }
}


// ---------------------------------------------------------------------------
// Input size analysis.
// ---------------------------------------------------------------------------

pub open spec fn input_bytes_of(r: SpecRecord) -> int {
    match r.metrics {
        Some(m) => m.input_bytes as int,
        None => 0,
    }
}

pub open spec fn input_files_of(r: SpecRecord) -> int {
    match r.metrics {
        Some(m) => m.input_files as int,
        None => 0,
    }
}

pub open spec fn count_with_input(rs: Seq<SpecRecord>) -> int
    decreases rs.len(),
{
    if rs.len() == 0 {
        0int
    } else {
        count_with_input(rs.drop_last()) + if input_bytes_of(rs.last()) > 0 {
            1int
        } else {
            0int
        }
    }
}

pub open spec fn input_order(rs: Seq<SpecRecord>, i: int, j: int) -> bool {
    input_bytes_of(rs[i]) > input_bytes_of(rs[j]) || (input_bytes_of(rs[i]) == input_bytes_of(
        rs[j],
    ) && i < j)
}

/// One entry of the input-size ranking.
#[derive(Clone, Copy, Debug, PartialEq, Eq)]
pub struct InputRow {
    pub index: usize,
    pub input_bytes: u64,
    pub input_files: u64,
}

pub open spec fn input_rows_have(rows: Seq<InputRow>, j: int) -> bool {
    exists|k: int| 0 <= k < rows.len() && (#[trigger] rows[k]).index as int == j
}

/// Excludes records with zero declared input size, ranks the rest by
/// declared input bytes descending, stable, cut to the first `n`.
#[verifier::rlimit(100)]
pub fn input_analysis(records: &Vec<ExecutionRecord>, n: usize) -> (rows: Vec<InputRow>)
    ensures
        rows@.len() == if n as int <= count_with_input(records_view(records@)) {
            n as int
        } else {
            count_with_input(records_view(records@))
        },
        forall|k: int|
            0 <= k < rows@.len() ==> {
                let row = #[trigger] rows@[k];
                &&& row.index < records@.len()
                &&& input_bytes_of(records_view(records@)[row.index as int]) > 0
                &&& row.input_bytes as int == input_bytes_of(
                    records_view(records@)[row.index as int],
                )
                &&& row.input_files as int == input_files_of(
                    records_view(records@)[row.index as int],
                )
            },
        forall|a: int, b: int|
            0 <= a < b < rows@.len() ==> input_order(
                records_view(records@),
                (#[trigger] rows@[a]).index as int,
                (#[trigger] rows@[b]).index as int,
            ),
        forall|j: int, k: int|
            #![trigger input_rows_have(rows@, j), rows@[k]]
            0 <= j < records@.len() && input_bytes_of(records_view(records@)[j]) > 0
                && !input_rows_have(rows@, j) && 0 <= k < rows@.len() ==> input_order(
                records_view(records@),
                rows@[k].index as int,
                j,
            ),
{
    let ghost rs = records_view(records@);
    let mut qual: Vec<usize> = Vec::new();
    let mut nums: Vec<u128> = Vec::new();
    let mut dens: Vec<u128> = Vec::new();
    let mut i: usize = 0;
    proof {
        assert(rs.take(0) =~= Seq::<SpecRecord>::empty());
    }
    while i < records.len()
        invariant
            i <= records.len(),
            rs == records_view(records@),
            qual@.len() == nums@.len() == dens@.len(),
            qual@.len() == count_with_input(rs.take(i as int)),
            forall|k: int| 0 <= k < qual@.len() ==> (#[trigger] qual@[k]) < i,
            forall|a: int, b: int| 0 <= a < b < qual@.len() ==> qual@[a] < qual@[b],
            forall|k: int|
                0 <= k < qual@.len() ==> input_bytes_of(rs[(#[trigger] qual@[k]) as int]) > 0,
            forall|k: int|
                0 <= k < qual@.len() ==> (#[trigger] nums@[k]) as int == input_bytes_of(
                    rs[qual@[k] as int],
                ),
            forall|k: int| 0 <= k < dens@.len() ==> (#[trigger] dens@[k]) == 1u128,
            forall|j: int| 0 <= j < i && input_bytes_of(rs[j]) > 0 ==> pos_in(qual@, j),
        decreases records.len() - i,
    {
        proof {
            assert(rs.take(i + 1).drop_last() =~= rs.take(i as int));
            assert(rs.take(i + 1).last() == rs[i as int]);
            assert(rs[i as int] == records@[i as int]@);
        }
        let rec = &records[i];
        let ib: u64 = match &rec.metrics {
            Some(m) => m.input_bytes,
            None => 0,
        };
        if ib > 0 {
            let ghost before = qual@;
            qual.push(i);
            nums.push(ib as u128);
            dens.push(1);
            proof {
                assert forall|j: int| 0 <= j < i + 1 && input_bytes_of(rs[j]) > 0 implies pos_in(
                    qual@,
                    j,
                ) by {
                    if j < i {
                        assert(pos_in(before, j));
                        let k0 = choose|k: int|
                            0 <= k < before.len() && (#[trigger] before[k]) as int == j;
                        assert(qual@[k0] as int == j);
                    } else {
                        assert(qual@[qual@.len() - 1] as int == j);
                    }
                }
            }
        }
        i = i + 1;
    }
    proof {
        assert(rs.take(rs.len() as int) =~= rs);
        assert(rank_keys_ok(nums@, dens@)) by {
            assert forall|a: int, b: int|
                0 <= a < nums@.len() && 0 <= b < nums@.len() implies #[trigger] (nums@[a]
                * dens@[b]) <= u128::MAX by {
                assert(nums@[a] * dens@[b] == nums@[a]) by (nonlinear_arith)
                    requires
                        dens@[b] == 1u128,
                {
                }
            }
        }
    }
    let top = top_ranked(&nums, &dens, n);
    let mut rows: Vec<InputRow> = Vec::new();
    let mut k: usize = 0;
    while k < top.len()
        invariant
            k <= top@.len(),
            rs == records_view(records@),
            qual@.len() == nums@.len() == dens@.len(),
            forall|p: int| 0 <= p < qual@.len() ==> (#[trigger] qual@[p]) < records@.len(),
            forall|p: int|
                0 <= p < qual@.len() ==> input_bytes_of(rs[(#[trigger] qual@[p]) as int]) > 0,
            forall|p: int|
                0 <= p < qual@.len() ==> (#[trigger] nums@[p]) as int == input_bytes_of(
                    rs[qual@[p] as int],
                ),
            forall|p: int| 0 <= p < top@.len() ==> (#[trigger] top@[p]) < qual@.len(),
            rows@.len() == k,
            forall|p: int|
                0 <= p < k ==> (#[trigger] rows@[p]).index == qual@[top@[p] as int],
            forall|p: int|
                0 <= p < k ==> {
                    let row = #[trigger] rows@[p];
                    &&& row.input_bytes as int == input_bytes_of(rs[row.index as int])
                    &&& row.input_files as int == input_files_of(rs[row.index as int])
                },
        decreases top@.len() - k,
    {
        let idx = qual[top[k]];
        proof {
            assert(rs[idx as int] == records@[idx as int]@);
        }
        let rec = &records[idx];
        let (ib, ifl): (u64, u64) = match &rec.metrics {
            Some(m) => (m.input_bytes, m.input_files),
            None => (0, 0),
        };
        rows.push(InputRow { index: idx, input_bytes: ib, input_files: ifl });
        k = k + 1;
    }
    proof {
        assert forall|a: int, b: int| 0 <= a < b < rows@.len() implies input_order(
            rs,
            (#[trigger] rows@[a]).index as int,
            (#[trigger] rows@[b]).index as int,
        ) by {
            assert(rank_before(nums@, dens@, top@[a] as int, top@[b] as int));
            lemma_input_bridge(nums@, dens@, qual@, rs, top@[a] as int, top@[b] as int);
        }
        assert forall|j: int, k2: int|
            0 <= j < records@.len() && input_bytes_of(rs[j]) > 0 && !input_rows_have(rows@, j) && 0
                <= k2 < rows@.len() implies input_order(rs, rows@[k2].index as int, j) by {
            assert(pos_in(qual@, j));
            let q = choose|p: int| 0 <= p < qual@.len() && (#[trigger] qual@[p]) as int == j;
            assert(!pos_in(top@, q)) by {
                if pos_in(top@, q) {
                    let p = choose|p: int|
                        0 <= p < top@.len() && (#[trigger] top@[p]) as int == q;
                    assert(rows@[p].index as int == j);
                    assert(input_rows_have(rows@, j));
                }
            }
            assert(rank_before(nums@, dens@, top@[k2] as int, q));
            lemma_input_bridge(nums@, dens@, qual@, rs, top@[k2] as int, q);
        }
    }
    rows
}

proof fn lemma_input_bridge(
    nums: Seq<u128>,
    dens: Seq<u128>,
    qual: Seq<usize>,
    rs: Seq<SpecRecord>,
    p: int,
    q: int,
)
    requires
        0 <= p < qual.len(),
        0 <= q < qual.len(),
        nums.len() == qual.len(),
        forall|k: int| 0 <= k < qual.len() ==> (#[trigger] qual[k]) < rs.len(),
        forall|a: int, b: int| 0 <= a < b < qual.len() ==> qual[a] < qual[b],
        forall|k: int|
            0 <= k < qual.len() ==> (#[trigger] nums[k]) as int == input_bytes_of(
                rs[qual[k] as int],
            ),
        forall|k: int| 0 <= k < dens.len() ==> (#[trigger] dens[k]) == 1u128,
        dens.len() == nums.len(),
        rank_before(nums, dens, p, q),
    ensures
        input_order(rs, qual[p] as int, qual[q] as int),
{
    assert(nums[p] * dens[q] == nums[p]) by (nonlinear_arith)
        requires
            dens[q] == 1u128,
    {
    }
    assert(nums[q] * dens[p] == nums[q]) by (nonlinear_arith)
        requires
            dens[p] == 1u128,
    {
    }
    if nums[p] == nums[q] {
        assert(p < q);
        assert(qual[p] < qual[q]);
    }
}


// ---------------------------------------------------------------------------
// Output size analysis.
// ---------------------------------------------------------------------------

pub open spec fn count_with_output(rs: Seq<SpecRecord>) -> int
    decreases rs.len(),
{
    if rs.len() == 0 {
        0int
    } else {
        count_with_output(rs.drop_last()) + if out_bytes(rs.last()) > 0 {
            1int
        } else {
            0int
        }
    }
}

pub open spec fn output_order(rs: Seq<SpecRecord>, i: int, j: int) -> bool {
    out_bytes(rs[i]) > out_bytes(rs[j]) || (out_bytes(rs[i]) == out_bytes(rs[j]) && i < j)
}

/// One entry of the output-size ranking.
#[derive(Clone, Copy, Debug, PartialEq, Eq)]
pub struct OutputRow {
    pub index: usize,
    pub output_bytes: u128,
    pub output_files: usize,
}

pub open spec fn output_rows_have(rows: Seq<OutputRow>, j: int) -> bool {
    exists|k: int| 0 <= k < rows.len() && (#[trigger] rows[k]).index as int == j
}

/// Excludes records whose outputs carry no bytes, ranks the rest by
/// summed output-digest bytes descending, stable, cut to the first `n`.
#[verifier::rlimit(100)]
pub fn output_analysis(records: &Vec<ExecutionRecord>, n: usize) -> (rows: Vec<OutputRow>)
    ensures
        rows@.len() == if n as int <= count_with_output(records_view(records@)) {
            n as int
        } else {
            count_with_output(records_view(records@))
        },
        forall|k: int|
            0 <= k < rows@.len() ==> {
                let row = #[trigger] rows@[k];
                &&& row.index < records@.len()
                &&& out_bytes(records_view(records@)[row.index as int]) > 0
                &&& row.output_bytes as int == out_bytes(records_view(records@)[row.index as int])
                &&& row.output_files as int == records_view(
                    records@,
                )[row.index as int].actual_outputs.len()
            },
        forall|a: int, b: int|
            0 <= a < b < rows@.len() ==> output_order(
                records_view(records@),
                (#[trigger] rows@[a]).index as int,
                (#[trigger] rows@[b]).index as int,
            ),
        forall|j: int, k: int|
            #![trigger output_rows_have(rows@, j), rows@[k]]
            0 <= j < records@.len() && out_bytes(records_view(records@)[j]) > 0
                && !output_rows_have(rows@, j) && 0 <= k < rows@.len() ==> output_order(
                records_view(records@),
                rows@[k].index as int,
                j,
            ),
{
    let ghost rs = records_view(records@);
    let mut qual: Vec<usize> = Vec::new();
    let mut nums: Vec<u128> = Vec::new();
    let mut dens: Vec<u128> = Vec::new();
    let mut i: usize = 0;
    proof {
        assert(rs.take(0) =~= Seq::<SpecRecord>::empty());
    }
    while i < records.len()
        invariant
            i <= records.len(),
            rs == records_view(records@),
            qual@.len() == nums@.len() == dens@.len(),
            qual@.len() == count_with_output(rs.take(i as int)),
            forall|k: int| 0 <= k < qual@.len() ==> (#[trigger] qual@[k]) < i,
            forall|a: int, b: int| 0 <= a < b < qual@.len() ==> qual@[a] < qual@[b],
            forall|k: int|
                0 <= k < qual@.len() ==> out_bytes(rs[(#[trigger] qual@[k]) as int]) > 0,
            forall|k: int|
                0 <= k < qual@.len() ==> (#[trigger] nums@[k]) as int == out_bytes(
                    rs[qual@[k] as int],
                ),
            forall|k: int| 0 <= k < dens@.len() ==> (#[trigger] dens@[k]) == 1u128,
            forall|j: int| 0 <= j < i && out_bytes(rs[j]) > 0 ==> pos_in(qual@, j),
        decreases records.len() - i,
    {
        proof {
            assert(rs.take(i + 1).drop_last() =~= rs.take(i as int));
            assert(rs.take(i + 1).last() == rs[i as int]);
            assert(rs[i as int] == records@[i as int]@);
        }
        let rec = &records[i];
        let ob = rec_out_bytes(rec);
        if ob > 0 {
            let ghost before = qual@;
            qual.push(i);
            nums.push(ob);
            dens.push(1);
            proof {
                assert forall|j: int| 0 <= j < i + 1 && out_bytes(rs[j]) > 0 implies pos_in(
                    qual@,
                    j,
                ) by {
                    if j < i {
                        assert(pos_in(before, j));
                        let k0 = choose|k: int|
                            0 <= k < before.len() && (#[trigger] before[k]) as int == j;
                        assert(qual@[k0] as int == j);
                    } else {
                        assert(qual@[qual@.len() - 1] as int == j);
                    }
                }
            }
        }
        i = i + 1;
    }
    proof {
        assert(rs.take(rs.len() as int) =~= rs);
        assert(rank_keys_ok(nums@, dens@)) by {
            assert forall|a: int, b: int|
                0 <= a < nums@.len() && 0 <= b < nums@.len() implies #[trigger] (nums@[a]
                * dens@[b]) <= u128::MAX by {
                assert(nums@[a] * dens@[b] == nums@[a]) by (nonlinear_arith)
                    requires
                        dens@[b] == 1u128,
                {
                }
            }
        }
    }
    let top = top_ranked(&nums, &dens, n);
    let mut rows: Vec<OutputRow> = Vec::new();
    let mut k: usize = 0;
    while k < top.len()
        invariant
            k <= top@.len(),
            rs == records_view(records@),
            qual@.len() == nums@.len() == dens@.len(),
            forall|p: int| 0 <= p < qual@.len() ==> (#[trigger] qual@[p]) < records@.len(),
            forall|p: int|
                0 <= p < qual@.len() ==> out_bytes(rs[(#[trigger] qual@[p]) as int]) > 0,
            forall|p: int|
                0 <= p < qual@.len() ==> (#[trigger] nums@[p]) as int == out_bytes(
                    rs[qual@[p] as int],
                ),
            forall|p: int| 0 <= p < top@.len() ==> (#[trigger] top@[p]) < qual@.len(),
            rows@.len() == k,
            forall|p: int|
                0 <= p < k ==> (#[trigger] rows@[p]).index == qual@[top@[p] as int],
            forall|p: int|
                0 <= p < k ==> {
                    let row = #[trigger] rows@[p];
                    &&& row.output_bytes as int == out_bytes(rs[row.index as int])
                    &&& row.output_files as int == rs[row.index as int].actual_outputs.len()
                },
        decreases top@.len() - k,
    {
        let idx = qual[top[k]];
        proof {
            assert(rs[idx as int] == records@[idx as int]@);
        }
        let rec = &records[idx];
        rows.push(
            OutputRow {
                index: idx,
                output_bytes: rec_out_bytes(rec),
                output_files: rec.actual_outputs.len(),
            },
        );
        k = k + 1;
    }
    proof {
        assert forall|a: int, b: int| 0 <= a < b < rows@.len() implies output_order(
            rs,
            (#[trigger] rows@[a]).index as int,
            (#[trigger] rows@[b]).index as int,
        ) by {
            assert(rank_before(nums@, dens@, top@[a] as int, top@[b] as int));
            lemma_output_bridge(nums@, dens@, qual@, rs, top@[a] as int, top@[b] as int);
        }
        assert forall|j: int, k2: int|
            0 <= j < records@.len() && out_bytes(rs[j]) > 0 && !output_rows_have(rows@, j) && 0
                <= k2 < rows@.len() implies output_order(rs, rows@[k2].index as int, j) by {
            assert(pos_in(qual@, j));
            let q = choose|p: int| 0 <= p < qual@.len() && (#[trigger] qual@[p]) as int == j;
            assert(!pos_in(top@, q)) by {
                if pos_in(top@, q) {
                    let p = choose|p: int|
                        0 <= p < top@.len() && (#[trigger] top@[p]) as int == q;
                    assert(rows@[p].index as int == j);
                    assert(output_rows_have(rows@, j));
                }
            }
            assert(rank_before(nums@, dens@, top@[k2] as int, q));
            lemma_output_bridge(nums@, dens@, qual@, rs, top@[k2] as int, q);
        }
    }
    rows
}

proof fn lemma_output_bridge(
    nums: Seq<u128>,
    dens: Seq<u128>,
    qual: Seq<usize>,
    rs: Seq<SpecRecord>,
    p: int,
    q: int,
)
    requires
        0 <= p < qual.len(),
        0 <= q < qual.len(),
        nums.len() == qual.len(),
        forall|k: int| 0 <= k < qual.len() ==> (#[trigger] qual[k]) < rs.len(),
        forall|a: int, b: int| 0 <= a < b < qual.len() ==> qual[a] < qual[b],
        forall|k: int|
            0 <= k < qual.len() ==> (#[trigger] nums[k]) as int == out_bytes(rs[qual[k] as int]),
        forall|k: int| 0 <= k < dens.len() ==> (#[trigger] dens[k]) == 1u128,
        dens.len() == nums.len(),
        rank_before(nums, dens, p, q),
    ensures
        output_order(rs, qual[p] as int, qual[q] as int),
{
    assert(nums[p] * dens[q] == nums[p]) by (nonlinear_arith)
        requires
            dens[q] == 1u128,
    {
    }
    assert(nums[q] * dens[p] == nums[q]) by (nonlinear_arith)
        requires
            dens[p] == 1u128,
    {
    }
    if nums[p] == nums[q] {
        assert(p < q);
        assert(qual[p] < qual[q]);
    }
}

// ---------------------------------------------------------------------------
// Memory usage analysis.
// ---------------------------------------------------------------------------

/// Whether memory analysis may consider the record: a limit of zero makes
/// the usage ratio undefined and excludes the record, never divides.
pub open spec fn has_memory_limit(r: SpecRecord) -> bool {
    match r.metrics {
        Some(m) => m.memory_bytes_limit > 0,
        None => false,
    }
}

pub open spec fn memory_estimate_of(r: SpecRecord) -> int {
    match r.metrics {
        Some(m) => m.memory_estimate_bytes as int,
        None => 0,
    }
}

pub open spec fn memory_limit_of(r: SpecRecord) -> int {
    match r.metrics {
        Some(m) => m.memory_bytes_limit as int,
        None => 0,
    }
}

pub open spec fn count_with_memory_limit(rs: Seq<SpecRecord>) -> int
    decreases rs.len(),
{
    if rs.len() == 0 {
        0int
    } else {
        count_with_memory_limit(rs.drop_last()) + if has_memory_limit(rs.last()) {
            1int
        } else {
            0int
        }
    }
}

/// Record `i` outranks record `j` by usage ratio, compared exactly by
/// cross multiplication.
pub open spec fn memory_order(rs: Seq<SpecRecord>, i: int, j: int) -> bool {
    memory_estimate_of(rs[i]) * memory_limit_of(rs[j]) > memory_estimate_of(rs[j])
        * memory_limit_of(rs[i]) || (memory_estimate_of(rs[i]) * memory_limit_of(rs[j])
        == memory_estimate_of(rs[j]) * memory_limit_of(rs[i]) && i < j)
}

/// One entry of the memory-ratio ranking.
#[derive(Clone, Copy, Debug, PartialEq, Eq)]
pub struct MemoryRow {
    pub index: usize,
    pub memory_estimate_bytes: u64,
    pub memory_bytes_limit: u64,
}

pub open spec fn memory_rows_have(rows: Seq<MemoryRow>, j: int) -> bool {
    exists|k: int| 0 <= k < rows.len() && (#[trigger] rows[k]).index as int == j
}

/// Excludes records without a positive memory limit — their ratio is
/// undefined — and ranks the rest by estimate-to-limit ratio descending,
/// stable, cut to the first `n`.
#[verifier::rlimit(100)]
pub fn memory_analysis(records: &Vec<ExecutionRecord>, n: usize) -> (rows: Vec<MemoryRow>)
    ensures
        rows@.len() == if n as int <= count_with_memory_limit(records_view(records@)) {
            n as int
        } else {
            count_with_memory_limit(records_view(records@))
        },
        forall|k: int|
            0 <= k < rows@.len() ==> {
                let row = #[trigger] rows@[k];
                &&& row.index < records@.len()
                &&& has_memory_limit(records_view(records@)[row.index as int])
                &&& row.memory_estimate_bytes as int == memory_estimate_of(
                    records_view(records@)[row.index as int],
                )
                &&& row.memory_bytes_limit as int == memory_limit_of(
                    records_view(records@)[row.index as int],
                )
            },
        forall|a: int, b: int|
            0 <= a < b < rows@.len() ==> memory_order(
                records_view(records@),
                (#[trigger] rows@[a]).index as int,
                (#[trigger] rows@[b]).index as int,
            ),
        forall|j: int, k: int|
            #![trigger memory_rows_have(rows@, j), rows@[k]]
            0 <= j < records@.len() && has_memory_limit(records_view(records@)[j])
                && !memory_rows_have(rows@, j) && 0 <= k < rows@.len() ==> memory_order(
                records_view(records@),
                rows@[k].index as int,
                j,
            ),
{
    let ghost rs = records_view(records@);
    let mut qual: Vec<usize> = Vec::new();
    let mut nums: Vec<u128> = Vec::new();
    let mut dens: Vec<u128> = Vec::new();
    let mut i: usize = 0;
    proof {
        assert(rs.take(0) =~= Seq::<SpecRecord>::empty());
    }
    while i < records.len()
        invariant
            i <= records.len(),
            rs == records_view(records@),
            qual@.len() == nums@.len() == dens@.len(),
            qual@.len() == count_with_memory_limit(rs.take(i as int)),
            forall|k: int| 0 <= k < qual@.len() ==> (#[trigger] qual@[k]) < i,
            forall|a: int, b: int| 0 <= a < b < qual@.len() ==> qual@[a] < qual@[b],
            forall|k: int|
                0 <= k < qual@.len() ==> has_memory_limit(rs[(#[trigger] qual@[k]) as int]),
            forall|k: int|
                0 <= k < qual@.len() ==> (#[trigger] nums@[k]) as int == memory_estimate_of(
                    rs[qual@[k] as int],
                ) && nums@[k] <= u64::MAX as u128,
            forall|k: int|
                0 <= k < dens@.len() ==> (#[trigger] dens@[k]) as int == memory_limit_of(
                    rs[qual@[k] as int],
                ) && 1 <= dens@[k] <= u64::MAX as u128,
            forall|j: int| 0 <= j < i && has_memory_limit(rs[j]) ==> pos_in(qual@, j),
        decreases records.len() - i,
    {
        proof {
            assert(rs.take(i + 1).drop_last() =~= rs.take(i as int));
            assert(rs.take(i + 1).last() == rs[i as int]);
            assert(rs[i as int] == records@[i as int]@);
        }
        let rec = &records[i];
        let (est, lim): (u64, u64) = match &rec.metrics {
            Some(m) => (m.memory_estimate_bytes, m.memory_bytes_limit),
            None => (0, 0),
        };
        if lim > 0 {
            let ghost before = qual@;
            qual.push(i);
            nums.push(est as u128);
            dens.push(lim as u128);
            proof {
                assert forall|j: int| 0 <= j < i + 1 && has_memory_limit(rs[j]) implies pos_in(
                    qual@,
                    j,
                ) by {
                    if j < i {
                        assert(pos_in(before, j));
                        let k0 = choose|k: int|
                            0 <= k < before.len() && (#[trigger] before[k]) as int == j;
                        assert(qual@[k0] as int == j);
                    } else {
                        assert(qual@[qual@.len() - 1] as int == j);
                    }
                }
            }
        }
        i = i + 1;
    }
    proof {
        assert(rs.take(rs.len() as int) =~= rs);
        assert(rank_keys_ok(nums@, dens@)) by {
            assert forall|a: int, b: int|
                0 <= a < nums@.len() && 0 <= b < nums@.len() implies #[trigger] (nums@[a]
                * dens@[b]) <= u128::MAX by {
                assert(nums@[a] * dens@[b] <= u128::MAX) by (nonlinear_arith)
                    requires
                        nums@[a] <= u64::MAX as u128,
                        dens@[b] <= u64::MAX as u128,
                {
                }
            }
        }
    }
    let top = top_ranked(&nums, &dens, n);
    let mut rows: Vec<MemoryRow> = Vec::new();
    let mut k: usize = 0;
    while k < top.len()
        invariant
            k <= top@.len(),
            rs == records_view(records@),
            qual@.len() == nums@.len() == dens@.len(),
            forall|p: int| 0 <= p < qual@.len() ==> (#[trigger] qual@[p]) < records@.len(),
            forall|p: int|
                0 <= p < qual@.len() ==> has_memory_limit(rs[(#[trigger] qual@[p]) as int]),
            forall|p: int|
                0 <= p < qual@.len() ==> (#[trigger] nums@[p]) as int == memory_estimate_of(
                    rs[qual@[p] as int],
                ),
            forall|p: int|
                0 <= p < qual@.len() ==> (#[trigger] dens@[p]) as int == memory_limit_of(
                    rs[qual@[p] as int],
                ),
            forall|p: int| 0 <= p < top@.len() ==> (#[trigger] top@[p]) < qual@.len(),
            rows@.len() == k,
            forall|p: int|
                0 <= p < k ==> (#[trigger] rows@[p]).index == qual@[top@[p] as int],
            forall|p: int|
                0 <= p < k ==> {
                    let row = #[trigger] rows@[p];
                    &&& row.memory_estimate_bytes as int == memory_estimate_of(
                        rs[row.index as int],
                    )
                    &&& row.memory_bytes_limit as int == memory_limit_of(rs[row.index as int])
                },
        decreases top@.len() - k,
    {
        let idx = qual[top[k]];
        proof {
            assert(rs[idx as int] == records@[idx as int]@);
        }
        let rec = &records[idx];
        let (est, lim): (u64, u64) = match &rec.metrics {
            Some(m) => (m.memory_estimate_bytes, m.memory_bytes_limit),
            None => (0, 0),
        };
        rows.push(MemoryRow { index: idx, memory_estimate_bytes: est, memory_bytes_limit: lim });
        k = k + 1;
    }
    proof {
        assert forall|a: int, b: int| 0 <= a < b < rows@.len() implies memory_order(
            rs,
            (#[trigger] rows@[a]).index as int,
            (#[trigger] rows@[b]).index as int,
        ) by {
            assert(rank_before(nums@, dens@, top@[a] as int, top@[b] as int));
            lemma_memory_bridge(nums@, dens@, qual@, rs, top@[a] as int, top@[b] as int);
        }
        assert forall|j: int, k2: int|
            0 <= j < records@.len() && has_memory_limit(rs[j]) && !memory_rows_have(rows@, j) && 0
                <= k2 < rows@.len() implies memory_order(rs, rows@[k2].index as int, j) by {
            assert(pos_in(qual@, j));
            let q = choose|p: int| 0 <= p < qual@.len() && (#[trigger] qual@[p]) as int == j;
            assert(!pos_in(top@, q)) by {
                if pos_in(top@, q) {
                    let p = choose|p: int|
                        0 <= p < top@.len() && (#[trigger] top@[p]) as int == q;
                    assert(rows@[p].index as int == j);
                    assert(memory_rows_have(rows@, j));
                }
            }
            assert(rank_before(nums@, dens@, top@[k2] as int, q));
            lemma_memory_bridge(nums@, dens@, qual@, rs, top@[k2] as int, q);
        }
    }
    rows
}

proof fn lemma_memory_bridge(
    nums: Seq<u128>,
    dens: Seq<u128>,
    qual: Seq<usize>,
    rs: Seq<SpecRecord>,
    p: int,
    q: int,
)
    requires
        0 <= p < qual.len(),
        0 <= q < qual.len(),
        nums.len() == qual.len(),
        forall|k: int| 0 <= k < qual.len() ==> (#[trigger] qual[k]) < rs.len(),
        forall|a: int, b: int| 0 <= a < b < qual.len() ==> qual[a] < qual[b],
        forall|k: int|
            0 <= k < qual.len() ==> (#[trigger] nums[k]) as int == memory_estimate_of(
                rs[qual[k] as int],
            ),
        forall|k: int|
            0 <= k < dens.len() ==> (#[trigger] dens[k]) as int == memory_limit_of(
                rs[qual[k] as int],
            ),
        dens.len() == nums.len(),
        rank_before(nums, dens, p, q),
    ensures
        memory_order(rs, qual[p] as int, qual[q] as int),
{
    if nums[p] * dens[q] == nums[q] * dens[p] {
        assert(p < q);
        assert(qual[p] < qual[q]);
    }
}

} // verus!
