//! Grouped reports: the per-mnemonic summary and the remote-versus-local
//! execution comparison. Groups form in order of first occurrence; the
//! summary is then ranked by summed duration descending, stable, while the
//! comparison lists its qualifying groups by mnemonic ascending.

use vstd::prelude::*;
use crate::model::{ExecutionRecord, SpecRecord, records_view};
use crate::rank::{rank_before, rank_keys_ok, pos_in, top_ranked};
use crate::reports::{
    sat64, total_nanos, execution_nanos, rec_total_nanos, rec_execution_nanos, sat_add64,
    lemma_sat64_snd, bytes_eq,
};
use crate::wire::copy_range;

verus! {

/// The distinct mnemonics of a record set, in order of first occurrence.
pub open spec fn mnemonics_of(rs: Seq<SpecRecord>) -> Seq<Seq<u8>>
    decreases rs.len(),
{
    if rs.len() == 0 {
        Seq::empty()
    } else {
        let prior = mnemonics_of(rs.drop_last());
        if prior.contains(rs.last().mnemonic) {
            prior
        } else {
            prior.push(rs.last().mnemonic)
        }
    }
}

pub open spec fn group_count(rs: Seq<SpecRecord>, m: Seq<u8>) -> int
    decreases rs.len(),
{
    if rs.len() == 0 {
        0int
    } else {
        group_count(rs.drop_last(), m) + if rs.last().mnemonic == m {
            1int
        } else {
            0int
        }
    }
}

pub open spec fn group_hits(rs: Seq<SpecRecord>, m: Seq<u8>) -> int
    decreases rs.len(),
{
    if rs.len() == 0 {
        0int
    } else {
        group_hits(rs.drop_last(), m) + if rs.last().mnemonic == m && rs.last().cache_hit {
            1int
        } else {
            0int
        }
    }
}

pub open spec fn group_total(rs: Seq<SpecRecord>, m: Seq<u8>) -> int
    decreases rs.len(),
{
    if rs.len() == 0 {
        0int
    } else {
        group_total(rs.drop_last(), m) + if rs.last().mnemonic == m {
            total_nanos(rs.last())
        } else {
            0int
        }
    }
}

/// The first position of `m` in `ms`.
pub open spec fn first_idx(ms: Seq<Seq<u8>>, m: Seq<u8>) -> int
    decreases ms.len(),
{
    if ms.len() == 0 {
        0int
    } else if ms[0] == m {
        0int
    } else {
        1 + first_idx(ms.skip(1), m)
    }
}

/// Mnemonic `m1` sorts before `m2` in the summary: a strictly larger
/// summed duration, or an equal sum and an earlier first occurrence.
pub open spec fn summary_order(rs: Seq<SpecRecord>, m1: Seq<u8>, m2: Seq<u8>) -> bool {
    sat64(group_total(rs, m1)) > sat64(group_total(rs, m2)) || (sat64(group_total(rs, m1))
        == sat64(group_total(rs, m2)) && first_idx(mnemonics_of(rs), m1) < first_idx(
        mnemonics_of(rs),
        m2,
    ))
}

/// The mnemonic list holds no repeats.
pub proof fn lemma_mnemonics_distinct(rs: Seq<SpecRecord>)
    ensures
        forall|a: int, b: int|
            0 <= a < b < mnemonics_of(rs).len() ==> mnemonics_of(rs)[a] != mnemonics_of(rs)[b],
    decreases rs.len(),
{
    if rs.len() > 0 {
        lemma_mnemonics_distinct(rs.drop_last());
        let prior = mnemonics_of(rs.drop_last());
        let m = rs.last().mnemonic;
        if !prior.contains(m) {
            let ext = prior.push(m);
            assert forall|a: int, b: int| 0 <= a < b < ext.len() implies ext[a] != ext[b] by {
                if b == prior.len() && ext[a] == m {
                    assert(prior[a] == m);
                    assert(prior.contains(m));
                }
            }
        }
    }
}

/// A mnemonic's first position in a repeat-free list is its position.
pub proof fn lemma_first_idx_self(ms: Seq<Seq<u8>>, k: int)
    requires
        0 <= k < ms.len(),
        forall|a: int, b: int| 0 <= a < b < ms.len() ==> ms[a] != ms[b],
    ensures
        first_idx(ms, ms[k]) == k,
    decreases k,
{
    if k > 0 {
        assert(ms[0] != ms[k]);
        assert(ms.skip(1)[k - 1] == ms[k]);
        assert(forall|a: int, b: int|
            0 <= a < b < ms.skip(1).len() ==> ms.skip(1)[a] != ms.skip(1)[b]);
        lemma_first_idx_self(ms.skip(1), k - 1);
    }
}

/// A mnemonic outside the list has empty statistics.
pub proof fn lemma_absent_mnemonic_zero(rs: Seq<SpecRecord>, m: Seq<u8>)
    requires
        !mnemonics_of(rs).contains(m),
    ensures
        group_count(rs, m) == 0,
        group_hits(rs, m) == 0,
        group_total(rs, m) == 0,
    decreases rs.len(),
{
    if rs.len() > 0 {
        let prior = mnemonics_of(rs.drop_last());
        if rs.last().mnemonic == m {
            if prior.contains(m) {
                assert(mnemonics_of(rs).contains(m));
            } else {
                assert(mnemonics_of(rs) == prior.push(m));
                assert(mnemonics_of(rs)[mnemonics_of(rs).len() - 1] == m);
                assert(mnemonics_of(rs).contains(m));
            }
            assert(false);
        } else {
            assert(!prior.contains(m)) by {
                if prior.contains(m) {
                    let k = choose|k: int| 0 <= k < prior.len() && prior[k] == m;
                    if mnemonics_of(rs) == prior {
                        assert(mnemonics_of(rs)[k] == m);
                    } else {
                        assert(mnemonics_of(rs)[k] == m);
                    }
                    assert(mnemonics_of(rs).contains(m));
                }
            }
            lemma_absent_mnemonic_zero(rs.drop_last(), m);
        }
    }
}

pub proof fn lemma_group_stats_nonneg(rs: Seq<SpecRecord>, m: Seq<u8>)
    ensures
        group_count(rs, m) >= 0,
        group_hits(rs, m) >= 0,
        group_total(rs, m) >= 0,
        group_count(rs, m) <= rs.len(),
        group_hits(rs, m) <= group_count(rs, m),
    decreases rs.len(),
{
    if rs.len() > 0 {
        lemma_group_stats_nonneg(rs.drop_last(), m);
    }
}

/// One line of the per-mnemonic summary.
#[derive(Clone, Debug, PartialEq, Eq)]
pub struct MnemonicRow {
    pub mnemonic: Vec<u8>,
    pub count: usize,
    pub cache_hits: usize,
    pub total_nanos: u64,
}

pub open spec fn mnemonic_row_matches(rs: Seq<SpecRecord>, row: MnemonicRow) -> bool {
    &&& mnemonics_of(rs).contains(row.mnemonic@)
    &&& row.count as int == group_count(rs, row.mnemonic@)
    &&& row.cache_hits as int == group_hits(rs, row.mnemonic@)
    &&& row.total_nanos as int == sat64(group_total(rs, row.mnemonic@))
}

pub open spec fn summary_rows_have(rows: Seq<MnemonicRow>, m: Seq<u8>) -> bool {
    exists|k: int| 0 <= k < rows.len() && (#[trigger] rows[k]).mnemonic@ == m
}

/// Finds the group row holding this mnemonic.
fn find_row(rows: &Vec<MnemonicRow>, mn: &Vec<u8>) -> (r: Option<usize>)
    ensures
        match r {
            Some(k) => k < rows@.len() && rows@[k as int].mnemonic@ == mn@,
            None => forall|k: int| 0 <= k < rows@.len() ==> (#[trigger] rows@[k]).mnemonic@ != mn@,
        },
{
    let mut k: usize = 0;
    while k < rows.len()
        invariant
            k <= rows@.len(),
            forall|j: int| 0 <= j < k ==> (#[trigger] rows@[j]).mnemonic@ != mn@,
        decreases rows.len() - k,
    {
        if bytes_eq(&rows[k].mnemonic, mn) {
            return Some(k);
        }
        k = k + 1;
    }
    None
}

/// Groups records by mnemonic in order of first occurrence, counting
/// records and cache hits and summing total durations, then ranks the
/// groups by summed duration descending, stable.
#[verifier::rlimit(100)]
pub fn mnemonic_summary(records: &Vec<ExecutionRecord>) -> (rows: Vec<MnemonicRow>)
    ensures
        rows@.len() == mnemonics_of(records_view(records@)).len(),
        forall|k: int|
            0 <= k < rows@.len() ==> mnemonic_row_matches(
                records_view(records@),
                #[trigger] rows@[k],
            ),
        forall|a: int, b: int|
            0 <= a < b < rows@.len() ==> summary_order(
                records_view(records@),
                (#[trigger] rows@[a]).mnemonic@,
                (#[trigger] rows@[b]).mnemonic@,
            ),
        forall|m: Seq<u8>|
            mnemonics_of(records_view(records@)).contains(m) ==> summary_rows_have(rows@, m),
{
    let ghost rs = records_view(records@);
    let mut groups: Vec<MnemonicRow> = Vec::new();
    let mut i: usize = 0;
    proof {
        assert(rs.take(0) =~= Seq::<SpecRecord>::empty());
    }
    while i < records.len()
        invariant
            i <= records.len(),
            rs == records_view(records@),
            groups@.len() == mnemonics_of(rs.take(i as int)).len(),
            forall|k: int|
                0 <= k < groups@.len() ==> (#[trigger] groups@[k]).mnemonic@ == mnemonics_of(
                    rs.take(i as int),
                )[k],
            forall|k: int|
                0 <= k < groups@.len() ==> {
                    let row = #[trigger] groups@[k];
                    &&& row.count as int == group_count(rs.take(i as int), row.mnemonic@)
                    &&& row.count <= i
                    &&& row.cache_hits as int == group_hits(rs.take(i as int), row.mnemonic@)
                    &&& row.cache_hits <= row.count
                    &&& row.total_nanos as int == sat64(
                        group_total(rs.take(i as int), row.mnemonic@),
                    )
                },
        decreases records.len() - i,
    {
        let ghost msi = mnemonics_of(rs.take(i as int));
        proof {
            assert(rs.take(i + 1).drop_last() =~= rs.take(i as int));
            assert(rs.take(i + 1).last() == rs[i as int]);
            assert(rs[i as int] == records@[i as int]@);
            lemma_mnemonics_distinct(rs.take(i as int));
        }
        let rec = &records[i];
        let tn = rec_total_nanos(rec);
        let ghost mn = rs[i as int].mnemonic;
        match find_row(&groups, &rec.mnemonic) {
            Some(k) => {
                proof {
                    assert(groups@[k as int].mnemonic@ == msi[k as int]);
                    assert(msi.contains(mn)) by {
                        assert(msi[k as int] == mn);
                    }
                    assert(mnemonics_of(rs.take(i + 1)) == msi);
                    lemma_group_stats_nonneg(rs.take(i as int), mn);
                    lemma_sat64_snd(group_total(rs.take(i as int), mn), total_nanos(rs[i as int]));
                }
                let row = &groups[k];
                let new_row = MnemonicRow {
                    mnemonic: copy_range(&row.mnemonic, 0, row.mnemonic.len()),
                    count: row.count + 1,
                    cache_hits: if rec.cache_hit {
                        row.cache_hits + 1
                    } else {
                        row.cache_hits
                    },
                    total_nanos: sat_add64(row.total_nanos, tn),
                };
                proof {
                    assert(new_row.mnemonic@ =~= groups@[k as int].mnemonic@);
                }
                groups.set(k, new_row);
                proof {
                    assert forall|j: int| 0 <= j < groups@.len() implies {
                        let row2 = #[trigger] groups@[j];
                        &&& row2.mnemonic@ == mnemonics_of(rs.take(i + 1))[j]
                        &&& row2.count as int == group_count(rs.take(i + 1), row2.mnemonic@)
                        &&& row2.count <= i + 1
                        &&& row2.cache_hits as int == group_hits(rs.take(i + 1), row2.mnemonic@)
                        &&& row2.cache_hits <= row2.count
                        &&& row2.total_nanos as int == sat64(
                            group_total(rs.take(i + 1), row2.mnemonic@),
                        )
                    } by {
                        if j != k {
                            assert(groups@[j].mnemonic@ == msi[j]);
                            assert(msi[j] != msi[k as int]);
                        }
                    }
                }
            },
            None => {
                proof {
                    assert(!msi.contains(mn)) by {
                        if msi.contains(mn) {
                            let k0 = choose|k0: int| 0 <= k0 < msi.len() && msi[k0] == mn;
                            assert(groups@[k0].mnemonic@ == mn);
                        }
                    }
                    assert(mnemonics_of(rs.take(i + 1)) == msi.push(mn));
                    lemma_absent_mnemonic_zero(rs.take(i as int), mn);
                }
                let new_row = MnemonicRow {
                    mnemonic: copy_range(&rec.mnemonic, 0, rec.mnemonic.len()),
                    count: 1,
                    cache_hits: if rec.cache_hit {
                        1
                    } else {
                        0
                    },
                    total_nanos: tn,
                };
                proof {
                    assert(rec.mnemonic@.subrange(0, rec.mnemonic@.len() as int)
                        =~= rec.mnemonic@);
                }
                groups.push(new_row);
                proof {
                    assert forall|j: int| 0 <= j < groups@.len() implies {
                        let row2 = #[trigger] groups@[j];
                        &&& row2.mnemonic@ == mnemonics_of(rs.take(i + 1))[j]
                        &&& row2.count as int == group_count(rs.take(i + 1), row2.mnemonic@)
                        &&& row2.count <= i + 1
                        &&& row2.cache_hits as int == group_hits(rs.take(i + 1), row2.mnemonic@)
                        &&& row2.cache_hits <= row2.count
                        &&& row2.total_nanos as int == sat64(
                            group_total(rs.take(i + 1), row2.mnemonic@),
                        )
                    } by {
                        if j < groups@.len() - 1 {
                            assert(groups@[j].mnemonic@ == msi[j]);
                            assert(!(msi[j] == mn)) by {
                                if msi[j] == mn {
                                    assert(msi.contains(mn));
                                }
                            }
                        } else {
                            assert(groups@[j].mnemonic@ == mn);
                            assert(sat64(group_total(rs.take(i + 1), mn)) == sat64(
                                total_nanos(rs[i as int]),
                            ));
                        }
                    }
                }
            },
        }
        i = i + 1;
    }
    proof {
        assert(rs.take(rs.len() as int) =~= rs);
    }
    let ghost ms = mnemonics_of(rs);
    // Rank the groups by summed duration; position order is first
    // occurrence.
    let mut nums: Vec<u128> = Vec::new();
    let mut dens: Vec<u128> = Vec::new();
    let mut k: usize = 0;
    while k < groups.len()
        invariant
            k <= groups@.len(),
            nums@.len() == k,
            dens@.len() == k,
            forall|p: int|
                0 <= p < k ==> (#[trigger] nums@[p]) as int == groups@[p].total_nanos as int,
            forall|p: int| 0 <= p < k ==> (#[trigger] dens@[p]) == 1u128,
        decreases groups.len() - k,
    {
        nums.push(groups[k].total_nanos as u128);
        dens.push(1);
        k = k + 1;
    }
    proof {
        assert(rank_keys_ok(nums@, dens@)) by {
            assert forall|a: int, b: int|
                0 <= a < nums@.len() && 0 <= b < nums@.len() implies #[trigger] (nums@[a]
                * dens@[b]) <= u128::MAX by {
                assert(nums@[a] * dens@[b] == nums@[a]) by (nonlinear_arith)
                    requires
                        dens@[b] == 1u128,
                {
                }
            }
        }
    }
    let top = top_ranked(&nums, &dens, groups.len());
    let mut rows: Vec<MnemonicRow> = Vec::new();
    let mut k: usize = 0;
    while k < top.len()
        invariant
            k <= top@.len(),
            rs == records_view(records@),
            ms == mnemonics_of(rs),
            groups@.len() == nums@.len() == dens@.len() == ms.len(),
            forall|p: int|
                0 <= p < groups@.len() ==> (#[trigger] groups@[p]).mnemonic@ == ms[p],
            forall|p: int| 0 <= p < groups@.len() ==> mnemonic_row_matches(rs, #[trigger] groups@[p]),
            forall|p: int| 0 <= p < top@.len() ==> (#[trigger] top@[p]) < groups@.len(),
            rows@.len() == k,
            forall|p: int|
                0 <= p < k ==> (#[trigger] rows@[p]).mnemonic@ == ms[top@[p] as int],
            forall|p: int| 0 <= p < k ==> mnemonic_row_matches(rs, #[trigger] rows@[p]),
        decreases top@.len() - k,
    {
        let g = &groups[top[k]];
        let copied = MnemonicRow {
            mnemonic: copy_range(&g.mnemonic, 0, g.mnemonic.len()),
            count: g.count,
            cache_hits: g.cache_hits,
            total_nanos: g.total_nanos,
        };
        proof {
            assert(copied.mnemonic@ =~= g.mnemonic@);
        }
        rows.push(copied);
        k = k + 1;
    }
    proof {
        lemma_mnemonics_distinct(rs);
        assert forall|a: int, b: int| 0 <= a < b < rows@.len() implies summary_order(
            rs,
            (#[trigger] rows@[a]).mnemonic@,
            (#[trigger] rows@[b]).mnemonic@,
        ) by {
            assert(rank_before(nums@, dens@, top@[a] as int, top@[b] as int));
            let p = top@[a] as int;
            let q = top@[b] as int;
            assert(nums@[p] * dens@[q] == nums@[p]) by (nonlinear_arith)
                requires
                    dens@[q] == 1u128,
            {
            }
            assert(nums@[q] * dens@[p] == nums@[q]) by (nonlinear_arith)
                requires
                    dens@[p] == 1u128,
            {
            }
            lemma_first_idx_self(ms, p);
            lemma_first_idx_self(ms, q);
        }
        assert forall|m: Seq<u8>| mnemonics_of(rs).contains(m) implies summary_rows_have(
            rows@,
            m,
        ) by {
            let k0 = choose|k0: int| 0 <= k0 < ms.len() && ms[k0] == m;
            assert(pos_in(top@, k0));
            let p = choose|p: int| 0 <= p < top@.len() && (#[trigger] top@[p]) as int == k0;
            assert(rows@[p].mnemonic@ == m);
        }
    }
    rows
}


// ---------------------------------------------------------------------------
// Remote versus local execution comparison.
// ---------------------------------------------------------------------------

/// `needle` occurs as a contiguous run inside `hay`.
pub open spec fn contains_seq(hay: Seq<u8>, needle: Seq<u8>) -> bool {
    exists|s: int|
        0 <= s && s + needle.len() <= hay.len() && #[trigger] hay.subrange(s, s + needle.len())
            == needle
}

/// Whether `needle` occurs inside `hay`.
pub fn contains_bytes(hay: &Vec<u8>, needle: &Vec<u8>) -> (r: bool)
    ensures
        r == contains_seq(hay@, needle@),
{
    if needle.len() == 0 {
        proof {
            assert(hay@.subrange(0, 0 + needle@.len() as int) =~= needle@);
            assert(contains_seq(hay@, needle@));
        }
        return true;
    }
    if needle.len() > hay.len() {
        proof {
            assert(!contains_seq(hay@, needle@));
        }
        return false;
    }
    let mut s: usize = 0;
    while s <= hay.len() - needle.len()
        invariant
            1 <= needle@.len() <= hay@.len(),
            s <= hay@.len() - needle@.len() + 1,
            forall|t: int|
                0 <= t < s ==> #[trigger] hay@.subrange(t, t + needle@.len()) != needle@,
        decreases hay@.len() - needle@.len() + 1 - s,
    {
        let mut j: usize = 0;
        let mut matches = true;
        while j < needle.len()
            invariant
                s + needle@.len() <= hay@.len(),
                hay@.len() <= usize::MAX,
                1 <= needle@.len(),
                j <= needle@.len(),
                matches ==> forall|t: int| 0 <= t < j ==> hay@[s + t] == #[trigger] needle@[t],
                !matches ==> hay@.subrange(s as int, s + needle@.len()) != needle@,
            decreases needle.len() - j,
        {
            if hay[s + j] != needle[j] {
                proof {
                    assert(hay@.subrange(s as int, s + needle@.len())[j as int] != needle@[
                        j as int]);
                }
                matches = false;
                j = needle.len();
            } else {
                j = j + 1;
            }
        }
        if matches {
            proof {
                assert(hay@.subrange(s as int, s + needle@.len()) =~= needle@);
            }
            return true;
        }
        s = s + 1;
    }
    proof {
        assert forall|t: int|
            0 <= t && t + needle@.len() <= hay@.len() implies #[trigger] hay@.subrange(
            t,
            t + needle@.len(),
        ) != needle@ by {
            assert(t < s);
        }
    }
    false
}

pub open spec fn remote_pat() -> Seq<u8> {
    seq![114u8, 101u8, 109u8, 111u8, 116u8, 101u8]
}

pub open spec fn sandbox_pat() -> Seq<u8> {
    seq![115u8, 97u8, 110u8, 100u8, 98u8, 111u8, 120u8]
}

pub open spec fn local_pat() -> Seq<u8> {
    seq![108u8, 111u8, 99u8, 97u8, 108u8]
}

/// A record the comparison may consider: not a cache hit, and its
/// execution wall time was measured.
pub open spec fn comparable(r: SpecRecord) -> bool {
    &&& !r.cache_hit
    &&& match r.metrics {
        Some(m) => m.execution_wall_time is Some,
        None => false,
    }
}

/// Classified as remote: the runner names "remote" (checked first).
pub open spec fn is_remote_runner(r: SpecRecord) -> bool {
    contains_seq(r.runner, remote_pat())
}

/// Classified as local: not remote, and the runner names "sandbox" or
/// "local". A record matching neither side is excluded from both.
pub open spec fn is_local_runner(r: SpecRecord) -> bool {
    !is_remote_runner(r) && (contains_seq(r.runner, sandbox_pat()) || contains_seq(
        r.runner,
        local_pat(),
    ))
}

/// The distinct mnemonics of the comparable records, in order of first
/// occurrence.
pub open spec fn comp_mnemonics_of(rs: Seq<SpecRecord>) -> Seq<Seq<u8>>
    decreases rs.len(),
{
    if rs.len() == 0 {
        Seq::empty()
    } else {
        let prior = comp_mnemonics_of(rs.drop_last());
        if !comparable(rs.last()) || prior.contains(rs.last().mnemonic) {
            prior
        } else {
            prior.push(rs.last().mnemonic)
        }
    }
}

pub open spec fn remote_count(rs: Seq<SpecRecord>, m: Seq<u8>) -> int
    decreases rs.len(),
{
    if rs.len() == 0 {
        0int
    } else {
        remote_count(rs.drop_last(), m) + if comparable(rs.last()) && rs.last().mnemonic == m
            && is_remote_runner(rs.last()) {
            1int
        } else {
            0int
        }
    }
}

pub open spec fn remote_total(rs: Seq<SpecRecord>, m: Seq<u8>) -> int
    decreases rs.len(),
{
    if rs.len() == 0 {
        0int
    } else {
        remote_total(rs.drop_last(), m) + if comparable(rs.last()) && rs.last().mnemonic == m
            && is_remote_runner(rs.last()) {
            execution_nanos(rs.last())
        } else {
            0int
        }
    }
}

pub open spec fn local_count(rs: Seq<SpecRecord>, m: Seq<u8>) -> int
    decreases rs.len(),
{
    if rs.len() == 0 {
        0int
    } else {
        local_count(rs.drop_last(), m) + if comparable(rs.last()) && rs.last().mnemonic == m
            && is_local_runner(rs.last()) {
            1int
        } else {
            0int
        }
    }
}

pub open spec fn local_total(rs: Seq<SpecRecord>, m: Seq<u8>) -> int
    decreases rs.len(),
{
    if rs.len() == 0 {
        0int
    } else {
        local_total(rs.drop_last(), m) + if comparable(rs.last()) && rs.last().mnemonic == m
            && is_local_runner(rs.last()) {
            execution_nanos(rs.last())
        } else {
            0int
        }
    }
}

/// A mnemonic group qualifies for the comparison only with at least one
/// remote and one local record.
pub open spec fn qualifies(rs: Seq<SpecRecord>, m: Seq<u8>) -> bool {
    remote_count(rs, m) >= 1 && local_count(rs, m) >= 1
}

/// How the remote side compares against the local side: slower when the
/// remote average strictly exceeds the local one, faster when strictly
/// below, and no verdict when either average is zero or the two are
/// exactly equal.
#[derive(Clone, Copy, Debug, PartialEq, Eq)]
pub enum Verdict {
    Slower,
    Faster,
    Unavailable,
}

/// The verdict from the stored counts and totals: averages are compared
/// exactly by cross multiplication.
pub open spec fn spec_verdict(rc: int, rt: int, lc: int, lt: int) -> Verdict {
    if lt == 0 || rt == 0 {
        Verdict::Unavailable
    } else if rt * lc > lt * rc {
        Verdict::Slower
    } else if rt * lc < lt * rc {
        Verdict::Faster
    } else {
        Verdict::Unavailable
    }
}

/// Strict lexicographic order on byte strings: `a` sorts before `b`.
pub open spec fn bytes_lt(a: Seq<u8>, b: Seq<u8>) -> bool
    decreases a.len(),
{
    if b.len() == 0 {
        false
    } else if a.len() == 0 {
        true
    } else if a[0] < b[0] {
        true
    } else if a[0] > b[0] {
        false
    } else {
        bytes_lt(a.skip(1), b.skip(1))
    }
}

/// Two distinct byte strings are ordered one way or the other.
pub proof fn lemma_bytes_lt_total(a: Seq<u8>, b: Seq<u8>)
    requires
        a != b,
    ensures
        bytes_lt(a, b) || bytes_lt(b, a),
    decreases a.len(),
{
    if a.len() == 0 && b.len() == 0 {
        assert(a =~= b);
    } else if a.len() != 0 && b.len() != 0 && a[0] == b[0] {
        assert(a.skip(1) != b.skip(1)) by {
            if a.skip(1) == b.skip(1) {
                assert(a.len() == b.len()) by {
                    assert(a.skip(1).len() == a.len() - 1);
                    assert(b.skip(1).len() == b.len() - 1);
                }
                assert forall|i: int| 0 <= i < a.len() implies a[i] == b[i] by {
                    if i > 0 {
                        assert(a.skip(1)[i - 1] == a[i]);
                        assert(b.skip(1)[i - 1] == b[i]);
                    }
                }
                assert(a =~= b);
            }
        }
        lemma_bytes_lt_total(a.skip(1), b.skip(1));
    }
}

/// The lexicographic order is transitive.
pub proof fn lemma_bytes_lt_trans(a: Seq<u8>, b: Seq<u8>, c: Seq<u8>)
    requires
        bytes_lt(a, b),
        bytes_lt(b, c),
    ensures
        bytes_lt(a, c),
    decreases a.len(),
{
    if a.len() != 0 && c.len() != 0 {
        if b.len() == 0 {
            assert(false);
        } else if a[0] == b[0] && b[0] == c[0] {
            lemma_bytes_lt_trans(a.skip(1), b.skip(1), c.skip(1));
        }
    }
}

/// Whether `a` sorts strictly before `b`.
pub fn bytes_lt_exec(a: &Vec<u8>, b: &Vec<u8>) -> (r: bool)
    ensures
        r == bytes_lt(a@, b@),
{
    let mut i: usize = 0;
    proof {
        assert(a@.skip(0) =~= a@);
        assert(b@.skip(0) =~= b@);
    }
    while i < a.len() && i < b.len()
        invariant
            i <= a@.len(),
            i <= b@.len(),
            bytes_lt(a@, b@) == bytes_lt(a@.skip(i as int), b@.skip(i as int)),
        decreases a.len() - i,
    {
        if a[i] < b[i] {
            proof {
                assert(a@.skip(i as int)[0] == a@[i as int]);
                assert(b@.skip(i as int)[0] == b@[i as int]);
            }
            return true;
        }
        if a[i] > b[i] {
            proof {
                assert(a@.skip(i as int)[0] == a@[i as int]);
                assert(b@.skip(i as int)[0] == b@[i as int]);
            }
            return false;
        }
        proof {
            assert(a@.skip(i as int)[0] == a@[i as int]);
            assert(b@.skip(i as int)[0] == b@[i as int]);
            assert(a@.skip(i as int).skip(1) =~= a@.skip(i + 1));
            assert(b@.skip(i as int).skip(1) =~= b@.skip(i + 1));
        }
        i = i + 1;
    }
    proof {
        assert(a@.skip(i as int).len() == a@.len() - i);
        assert(b@.skip(i as int).len() == b@.len() - i);
    }
    // One string is a prefix of the other: the shorter sorts first.
    a.len() < b.len()
}

/// One line of the execution comparison.
#[derive(Clone, Debug, PartialEq, Eq)]
pub struct ComparisonRow {
    pub mnemonic: Vec<u8>,
    pub remote_count: usize,
    pub remote_total_nanos: u64,
    pub local_count: usize,
    pub local_total_nanos: u64,
    pub verdict: Verdict,
}

pub open spec fn comparison_row_matches(rs: Seq<SpecRecord>, row: ComparisonRow) -> bool {
    &&& comp_mnemonics_of(rs).contains(row.mnemonic@)
    &&& row.remote_count as int == remote_count(rs, row.mnemonic@)
    &&& row.remote_total_nanos as int == sat64(remote_total(rs, row.mnemonic@))
    &&& row.local_count as int == local_count(rs, row.mnemonic@)
    &&& row.local_total_nanos as int == sat64(local_total(rs, row.mnemonic@))
    &&& row.remote_count >= 1
    &&& row.local_count >= 1
    &&& row.verdict == spec_verdict(
        row.remote_count as int,
        row.remote_total_nanos as int,
        row.local_count as int,
        row.local_total_nanos as int,
    )
}

pub open spec fn comparison_rows_have(rows: Seq<ComparisonRow>, m: Seq<u8>) -> bool {
    exists|k: int| 0 <= k < rows.len() && (#[trigger] rows[k]).mnemonic@ == m
}

pub proof fn lemma_comp_mnemonics_distinct(rs: Seq<SpecRecord>)
    ensures
        forall|a: int, b: int|
            0 <= a < b < comp_mnemonics_of(rs).len() ==> comp_mnemonics_of(rs)[a]
                != comp_mnemonics_of(rs)[b],
    decreases rs.len(),
{
    if rs.len() > 0 {
        lemma_comp_mnemonics_distinct(rs.drop_last());
        let prior = comp_mnemonics_of(rs.drop_last());
        let m = rs.last().mnemonic;
        if comparable(rs.last()) && !prior.contains(m) {
            let ext = prior.push(m);
            assert forall|a: int, b: int| 0 <= a < b < ext.len() implies ext[a] != ext[b] by {
                if b == prior.len() && ext[a] == m {
                    assert(prior[a] == m);
                    assert(prior.contains(m));
                }
            }
        }
    }
}

pub proof fn lemma_comp_absent_zero(rs: Seq<SpecRecord>, m: Seq<u8>)
    requires
        !comp_mnemonics_of(rs).contains(m),
    ensures
        remote_count(rs, m) == 0,
        remote_total(rs, m) == 0,
        local_count(rs, m) == 0,
        local_total(rs, m) == 0,
    decreases rs.len(),
{
    if rs.len() > 0 {
        let prior = comp_mnemonics_of(rs.drop_last());
        if comparable(rs.last()) && rs.last().mnemonic == m {
            if prior.contains(m) {
                assert(comp_mnemonics_of(rs).contains(m));
            } else {
                assert(comp_mnemonics_of(rs) == prior.push(m));
                assert(comp_mnemonics_of(rs)[comp_mnemonics_of(rs).len() - 1] == m);
                assert(comp_mnemonics_of(rs).contains(m));
            }
            assert(false);
        } else {
            assert(!prior.contains(m)) by {
                if prior.contains(m) {
                    let k = choose|k: int| 0 <= k < prior.len() && prior[k] == m;
                    assert(comp_mnemonics_of(rs)[k] == m);
                    assert(comp_mnemonics_of(rs).contains(m));
                }
            }
            lemma_comp_absent_zero(rs.drop_last(), m);
        }
    }
}

pub proof fn lemma_comp_stats_nonneg(rs: Seq<SpecRecord>, m: Seq<u8>)
    ensures
        0 <= remote_count(rs, m) <= rs.len(),
        remote_total(rs, m) >= 0,
        0 <= local_count(rs, m) <= rs.len(),
        local_total(rs, m) >= 0,
    decreases rs.len(),
{
    if rs.len() > 0 {
        lemma_comp_stats_nonneg(rs.drop_last(), m);
    }
}

struct CompGroup {
    mnemonic: Vec<u8>,
    remote_count: usize,
    remote_total_nanos: u64,
    local_count: usize,
    local_total_nanos: u64,
}

fn find_comp_group(rows: &Vec<CompGroup>, mn: &Vec<u8>) -> (r: Option<usize>)
    ensures
        match r {
            Some(k) => k < rows@.len() && rows@[k as int].mnemonic@ == mn@,
            None => forall|k: int| 0 <= k < rows@.len() ==> (#[trigger] rows@[k]).mnemonic@ != mn@,
        },
{
    let mut k: usize = 0;
    while k < rows.len()
        invariant
            k <= rows@.len(),
            forall|j: int| 0 <= j < k ==> (#[trigger] rows@[j]).mnemonic@ != mn@,
        decreases rows.len() - k,
    {
        if bytes_eq(&rows[k].mnemonic, mn) {
            return Some(k);
        }
        k = k + 1;
    }
    None
}

/// Groups comparable records — executed, with a measured execution wall
/// time — by mnemonic, splits each group into remote and local sides by
/// the runner text, and reports every group with at least one record on
/// each side, sorted by mnemonic ascending, with an exact verdict.
#[verifier::rlimit(100)]
pub fn execution_comparison(records: &Vec<ExecutionRecord>) -> (rows: Vec<ComparisonRow>)
    ensures
        forall|k: int|
            0 <= k < rows@.len() ==> comparison_row_matches(
                records_view(records@),
                #[trigger] rows@[k],
            ),
        forall|a: int, b: int|
            0 <= a < b < rows@.len() ==> bytes_lt(
                (#[trigger] rows@[a]).mnemonic@,
                (#[trigger] rows@[b]).mnemonic@,
            ),
        forall|m: Seq<u8>|
            comp_mnemonics_of(records_view(records@)).contains(m) && qualifies(
                records_view(records@),
                m,
            ) ==> comparison_rows_have(rows@, m),
{
    let ghost rs = records_view(records@);
    let pat_remote: Vec<u8> = vec![114u8, 101u8, 109u8, 111u8, 116u8, 101u8];
    let pat_sandbox: Vec<u8> = vec![115u8, 97u8, 110u8, 100u8, 98u8, 111u8, 120u8];
    let pat_local: Vec<u8> = vec![108u8, 111u8, 99u8, 97u8, 108u8];
    proof {
        assert(pat_remote@ =~= remote_pat());
        assert(pat_sandbox@ =~= sandbox_pat());
        assert(pat_local@ =~= local_pat());
    }
    let mut groups: Vec<CompGroup> = Vec::new();
    let mut i: usize = 0;
    proof {
        assert(rs.take(0) =~= Seq::<SpecRecord>::empty());
    }
    while i < records.len()
        invariant
            i <= records.len(),
            rs == records_view(records@),
            pat_remote@ == remote_pat(),
            pat_sandbox@ == sandbox_pat(),
            pat_local@ == local_pat(),
            groups@.len() == comp_mnemonics_of(rs.take(i as int)).len(),
            forall|k: int|
                0 <= k < groups@.len() ==> (#[trigger] groups@[k]).mnemonic@ == comp_mnemonics_of(
                    rs.take(i as int),
                )[k],
            forall|k: int|
                0 <= k < groups@.len() ==> {
                    let row = #[trigger] groups@[k];
                    &&& row.remote_count as int == remote_count(rs.take(i as int), row.mnemonic@)
                    &&& row.remote_count <= i
                    &&& row.remote_total_nanos as int == sat64(
                        remote_total(rs.take(i as int), row.mnemonic@),
                    )
                    &&& row.local_count as int == local_count(rs.take(i as int), row.mnemonic@)
                    &&& row.local_count <= i
                    &&& row.local_total_nanos as int == sat64(
                        local_total(rs.take(i as int), row.mnemonic@),
                    )
                },
        decreases records.len() - i,
    {
        let ghost msi = comp_mnemonics_of(rs.take(i as int));
        proof {
            assert(rs.take(i + 1).drop_last() =~= rs.take(i as int));
            assert(rs.take(i + 1).last() == rs[i as int]);
            assert(rs[i as int] == records@[i as int]@);
            lemma_comp_mnemonics_distinct(rs.take(i as int));
        }
        let rec = &records[i];
        let has_exec = match &rec.metrics {
            Some(m) => m.execution_wall_time.is_some(),
            None => false,
        };
        let eligible = !rec.cache_hit && has_exec;
        proof {
            assert(eligible == comparable(rs[i as int]));
        }
        if eligible {
            let en = rec_execution_nanos(rec);
            let remote = contains_bytes(&rec.runner, &pat_remote);
            let local = !remote && (contains_bytes(&rec.runner, &pat_sandbox) || contains_bytes(
                &rec.runner,
                &pat_local,
            ));
            proof {
                assert(remote == is_remote_runner(rs[i as int]));
                assert(local == is_local_runner(rs[i as int]));
            }
            let ghost mn = rs[i as int].mnemonic;
            match find_comp_group(&groups, &rec.mnemonic) {
                Some(k) => {
                    proof {
                        assert(groups@[k as int].mnemonic@ == msi[k as int]);
                        assert(msi.contains(mn)) by {
                            assert(msi[k as int] == mn);
                        }
                        assert(comp_mnemonics_of(rs.take(i + 1)) == msi);
                        lemma_comp_stats_nonneg(rs.take(i as int), mn);
                        lemma_sat64_snd(
                            remote_total(rs.take(i as int), mn),
                            execution_nanos(rs[i as int]),
                        );
                        lemma_sat64_snd(
                            local_total(rs.take(i as int), mn),
                            execution_nanos(rs[i as int]),
                        );
                    }
                    let row = &groups[k];
                    let new_row = CompGroup {
                        mnemonic: copy_range(&row.mnemonic, 0, row.mnemonic.len()),
                        remote_count: if remote {
                            row.remote_count + 1
                        } else {
                            row.remote_count
                        },
                        remote_total_nanos: if remote {
                            sat_add64(row.remote_total_nanos, en)
                        } else {
                            row.remote_total_nanos
                        },
                        local_count: if local {
                            row.local_count + 1
                        } else {
                            row.local_count
                        },
                        local_total_nanos: if local {
                            sat_add64(row.local_total_nanos, en)
                        } else {
                            row.local_total_nanos
                        },
                    };
                    proof {
                        assert(new_row.mnemonic@ =~= groups@[k as int].mnemonic@);
                    }
                    groups.set(k, new_row);
                    proof {
                        assert forall|j: int| 0 <= j < groups@.len() implies {
                            let row2 = #[trigger] groups@[j];
                            &&& row2.mnemonic@ == comp_mnemonics_of(rs.take(i + 1))[j]
                            &&& row2.remote_count as int == remote_count(
                                rs.take(i + 1),
                                row2.mnemonic@,
                            )
                            &&& row2.remote_count <= i + 1
                            &&& row2.remote_total_nanos as int == sat64(
                                remote_total(rs.take(i + 1), row2.mnemonic@),
                            )
                            &&& row2.local_count as int == local_count(
                                rs.take(i + 1),
                                row2.mnemonic@,
                            )
                            &&& row2.local_count <= i + 1
                            &&& row2.local_total_nanos as int == sat64(
                                local_total(rs.take(i + 1), row2.mnemonic@),
                            )
                        } by {
                            if j != k {
                                assert(groups@[j].mnemonic@ == msi[j]);
                                assert(msi[j] != msi[k as int]);
                            }
                        }
                    }
                },
                None => {
                    proof {
                        assert(!msi.contains(mn)) by {
                            if msi.contains(mn) {
                                let k0 = choose|k0: int| 0 <= k0 < msi.len() && msi[k0] == mn;
                                assert(groups@[k0].mnemonic@ == mn);
                            }
                        }
                        assert(comp_mnemonics_of(rs.take(i + 1)) == msi.push(mn));
                        lemma_comp_absent_zero(rs.take(i as int), mn);
                    }
                    let new_row = CompGroup {
                        mnemonic: copy_range(&rec.mnemonic, 0, rec.mnemonic.len()),
                        remote_count: if remote {
                            1
                        } else {
                            0
                        },
                        remote_total_nanos: if remote {
                            en
                        } else {
                            0
                        },
                        local_count: if local {
                            1
                        } else {
                            0
                        },
                        local_total_nanos: if local {
                            en
                        } else {
                            0
                        },
                    };
                    proof {
                        assert(rec.mnemonic@.subrange(0, rec.mnemonic@.len() as int)
                            =~= rec.mnemonic@);
                    }
                    groups.push(new_row);
                    proof {
                        assert forall|j: int| 0 <= j < groups@.len() implies {
                            let row2 = #[trigger] groups@[j];
                            &&& row2.mnemonic@ == comp_mnemonics_of(rs.take(i + 1))[j]
                            &&& row2.remote_count as int == remote_count(
                                rs.take(i + 1),
                                row2.mnemonic@,
                            )
                            &&& row2.remote_count <= i + 1
                            &&& row2.remote_total_nanos as int == sat64(
                                remote_total(rs.take(i + 1), row2.mnemonic@),
                            )
                            &&& row2.local_count as int == local_count(
                                rs.take(i + 1),
                                row2.mnemonic@,
                            )
                            &&& row2.local_count <= i + 1
                            &&& row2.local_total_nanos as int == sat64(
                                local_total(rs.take(i + 1), row2.mnemonic@),
                            )
                        } by {
                            if j < groups@.len() - 1 {
                                assert(groups@[j].mnemonic@ == msi[j]);
                                assert(!(msi[j] == mn)) by {
                                    if msi[j] == mn {
                                        assert(msi.contains(mn));
                                    }
                                }
                            } else {
                                assert(groups@[j].mnemonic@ == mn);
                            }
                        }
                    }
                },
            }
        } else {
            proof {
                assert(comp_mnemonics_of(rs.take(i + 1)) == msi);
            }
        }
        i = i + 1;
    }
    proof {
        assert(rs.take(rs.len() as int) =~= rs);
        lemma_comp_mnemonics_distinct(rs);
    }
    let ghost ms = comp_mnemonics_of(rs);
    let mut rows: Vec<ComparisonRow> = Vec::new();
    let ghost mut sel: Seq<int> = Seq::empty();
    let mut k: usize = 0;
    while k < groups.len()
        invariant
            k <= groups@.len(),
            rs == records_view(records@),
            ms == comp_mnemonics_of(rs),
            groups@.len() == ms.len(),
            forall|p: int|
                0 <= p < groups@.len() ==> (#[trigger] groups@[p]).mnemonic@ == ms[p],
            forall|p: int|
                0 <= p < groups@.len() ==> {
                    let row = #[trigger] groups@[p];
                    &&& row.remote_count as int == remote_count(rs, row.mnemonic@)
                    &&& row.remote_total_nanos as int == sat64(remote_total(rs, row.mnemonic@))
                    &&& row.local_count as int == local_count(rs, row.mnemonic@)
                    &&& row.local_total_nanos as int == sat64(local_total(rs, row.mnemonic@))
                },
            sel.len() == rows@.len(),
            forall|p: int| 0 <= p < sel.len() ==> 0 <= #[trigger] sel[p] < k,
            forall|a: int, b: int| 0 <= a < b < sel.len() ==> sel[a] != sel[b],
            forall|p: int|
                0 <= p < rows@.len() ==> (#[trigger] rows@[p]).mnemonic@ == ms[sel[p]],
            forall|p: int| 0 <= p < rows@.len() ==> comparison_row_matches(rs, #[trigger] rows@[p]),
            forall|a: int, b: int|
                0 <= a < b < rows@.len() ==> bytes_lt(
                    (#[trigger] rows@[a]).mnemonic@,
                    (#[trigger] rows@[b]).mnemonic@,
                ),
            forall|j: int|
                0 <= j < k && qualifies(rs, ms[j]) ==> exists|p: int|
                    0 <= p < sel.len() && #[trigger] sel[p] == j,
        decreases groups.len() - k,
    {
        let g = &groups[k];
        if g.remote_count > 0 && g.local_count > 0 {
            let rc = g.remote_count;
            let rt = g.remote_total_nanos;
            let lc = g.local_count;
            let lt = g.local_total_nanos;
            let verdict = if lt == 0 || rt == 0 {
                Verdict::Unavailable
            } else {
                proof {
                    assert((rt as int) * (lc as int) <= u128::MAX) by (nonlinear_arith)
                        requires
                            rt <= u64::MAX,
                            lc <= usize::MAX,
                    {
                    }
                    assert((lt as int) * (rc as int) <= u128::MAX) by (nonlinear_arith)
                        requires
                            lt <= u64::MAX,
                            rc <= usize::MAX,
                    {
                    }
                }
                let left: u128 = (rt as u128) * (lc as u128);
                let right: u128 = (lt as u128) * (rc as u128);
                if left > right {
                    Verdict::Slower
                } else if left < right {
                    Verdict::Faster
                } else {
                    Verdict::Unavailable
                }
            };
            let row = ComparisonRow {
                mnemonic: copy_range(&g.mnemonic, 0, g.mnemonic.len()),
                remote_count: rc,
                remote_total_nanos: rt,
                local_count: lc,
                local_total_nanos: lt,
                verdict,
            };
            proof {
                assert(row.mnemonic@ =~= g.mnemonic@);
                assert(ms.contains(row.mnemonic@)) by {
                    assert(ms[k as int] == row.mnemonic@);
                }
            }
            // Insert at the position that keeps the rows sorted by
            // mnemonic ascending.
            let mut pos: usize = 0;
            while pos < rows.len() && !bytes_lt_exec(&row.mnemonic, &rows[pos].mnemonic)
                invariant
                    pos <= rows@.len(),
                    row.mnemonic@ == ms[k as int],
                    forall|q: int|
                        0 <= q < pos ==> !bytes_lt(
                            row.mnemonic@,
                            (#[trigger] rows@[q]).mnemonic@,
                        ),
                decreases rows@.len() - pos,
            {
                pos = pos + 1;
            }
            let ghost old_sel = sel;
            let ghost old_rows = rows@;
            proof {
                lemma_comp_mnemonics_distinct(rs);
                // The new mnemonic differs from every mnemonic already
                // listed, so the scanned prefix sorts strictly before it.
                assert forall|q: int| 0 <= q < pos as int implies bytes_lt(
                    (#[trigger] old_rows[q]).mnemonic@,
                    row.mnemonic@,
                ) by {
                    assert(old_rows[q].mnemonic@ == ms[sel[q]]);
                    assert(sel[q] < k);
                    assert(ms[sel[q]] != ms[k as int]);
                    lemma_bytes_lt_total(old_rows[q].mnemonic@, row.mnemonic@);
                }
                // Everything at or past the position sorts strictly after
                // it.
                assert forall|q: int| pos as int <= q < old_rows.len() implies bytes_lt(
                    row.mnemonic@,
                    (#[trigger] old_rows[q]).mnemonic@,
                ) by {
                    if q > pos as int {
                        lemma_bytes_lt_trans(
                            row.mnemonic@,
                            old_rows[pos as int].mnemonic@,
                            old_rows[q].mnemonic@,
                        );
                    }
                }
            }
            rows.insert(pos, row);
            proof {
                sel = old_sel.insert(pos as int, k as int);
                old_rows.insert_ensures(pos as int, row);
                old_sel.insert_ensures(pos as int, k as int);
                assert forall|j: int|
                    0 <= j < k + 1 && qualifies(rs, ms[j]) implies exists|p: int|
                    0 <= p < sel.len() && #[trigger] sel[p] == j by {
                    if j < k {
                        let p0 = choose|p: int| 0 <= p < old_sel.len() && #[trigger] old_sel[p]
                            == j;
                        if p0 < pos as int {
                            assert(sel[p0] == j);
                        } else {
                            assert(sel[p0 + 1] == j);
                        }
                    } else {
                        assert(sel[pos as int] == j);
                    }
                }
            }
        } else {
            proof {
                assert(!qualifies(rs, ms[k as int]));
            }
        }
        k = k + 1;
    }
    proof {
        assert forall|m: Seq<u8>|
            comp_mnemonics_of(rs).contains(m) && qualifies(rs, m) implies comparison_rows_have(
            rows@,
            m,
        ) by {
            let k0 = choose|k0: int| 0 <= k0 < ms.len() && ms[k0] == m;
            let p = choose|p: int| 0 <= p < sel.len() && #[trigger] sel[p] == k0;
            assert(rows@[p].mnemonic@ == m);
        }
    }
    rows
}

} // verus!
