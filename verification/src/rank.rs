//! Ranking: the positions of a key list, ordered by key descending with
//! ties keeping the earlier position. Keys are exact rationals — a
//! numerator and a positive denominator — compared by cross
//! multiplication, so a ratio ranking needs no rounding.

use vstd::prelude::*;

verus! {

/// Whether some position of `s` holds the value `q`.
pub open spec fn pos_in(s: Seq<usize>, q: int) -> bool {
    exists|k: int| 0 <= k < s.len() && (#[trigger] s[k]) as int == q
}

/// Position `a` ranks before position `b`: a strictly greater key, or an
/// equal key and an earlier position. With the position tiebreak this is a
/// strict total order, so a sorted arrangement is unique and stable.
pub open spec fn rank_before(nums: Seq<u128>, dens: Seq<u128>, a: int, b: int) -> bool {
    nums[a] * dens[b] > nums[b] * dens[a] || (nums[a] * dens[b] == nums[b] * dens[a] && a < b)
}

/// Bounds under which the exec comparison cannot overflow.
pub open spec fn rank_keys_ok(nums: Seq<u128>, dens: Seq<u128>) -> bool {
    &&& nums.len() == dens.len()
    &&& forall|i: int| 0 <= i < dens.len() ==> 1 <= #[trigger] dens[i]
    &&& forall|i: int, j: int|
        0 <= i < nums.len() && 0 <= j < nums.len() ==> #[trigger] (nums[i] * dens[j])
            <= u128::MAX
}

/// Any two distinct positions are ordered one way or the other.
pub proof fn lemma_rank_total(nums: Seq<u128>, dens: Seq<u128>, a: int, b: int)
    requires
        a != b,
    ensures
        rank_before(nums, dens, a, b) || rank_before(nums, dens, b, a),
{
}

/// The order is transitive.
pub proof fn lemma_rank_trans(nums: Seq<u128>, dens: Seq<u128>, a: int, b: int, c: int)
    requires
        0 <= a < nums.len(),
        0 <= b < nums.len(),
        0 <= c < nums.len(),
        rank_keys_ok(nums, dens),
        rank_before(nums, dens, a, b),
        rank_before(nums, dens, b, c),
    ensures
        rank_before(nums, dens, a, c),
{
    let na = nums[a] as int;
    let nb = nums[b] as int;
    let nc = nums[c] as int;
    let da = dens[a] as int;
    let db = dens[b] as int;
    let dc = dens[c] as int;
    if na * db > nb * da {
        if nb * dc > nc * db {
            assert(na * dc > nc * da) by (nonlinear_arith)
                requires
                    na * db > nb * da,
                    nb * dc > nc * db,
                    da >= 1,
                    db >= 1,
                    dc >= 1,
                    na >= 0,
                    nb >= 0,
                    nc >= 0,
            {
            }
        } else {
            assert(nb * dc == nc * db);
            assert(na * dc > nc * da) by (nonlinear_arith)
                requires
                    na * db > nb * da,
                    nb * dc == nc * db,
                    da >= 1,
                    db >= 1,
                    dc >= 1,
                    na >= 0,
                    nb >= 0,
                    nc >= 0,
            {
            }
        }
    } else {
        assert(na * db == nb * da && a < b);
        if nb * dc > nc * db {
            assert(na * dc > nc * da) by (nonlinear_arith)
                requires
                    na * db == nb * da,
                    nb * dc > nc * db,
                    da >= 1,
                    db >= 1,
                    dc >= 1,
                    na >= 0,
                    nb >= 0,
                    nc >= 0,
            {
            }
        } else {
            assert(nb * dc == nc * db && b < c);
            assert(na * dc == nc * da) by (nonlinear_arith)
                requires
                    na * db == nb * da,
                    nb * dc == nc * db,
                    da >= 1,
                    db >= 1,
                    dc >= 1,
                    na >= 0,
                    nb >= 0,
                    nc >= 0,
            {
            }
        }
    }
}

/// Compares two positions.
fn cmp_before(nums: &Vec<u128>, dens: &Vec<u128>, a: usize, b: usize) -> (r: bool)
    requires
        rank_keys_ok(nums@, dens@),
        a < nums@.len(),
        b < nums@.len(),
    ensures
        r == rank_before(nums@, dens@, a as int, b as int),
{
    let left = nums[a] * dens[b];
    let right = nums[b] * dens[a];
    left > right || (left == right && a < b)
}

/// The positions `0 .. nums.len()` arranged by rank — key descending,
/// ties keeping the earlier position — then cut to the first `n`. The
/// result is sorted by the strict total order, covers exactly the
/// best-ranked positions, and every position left out ranks after every
/// position kept.
#[verifier::rlimit(100)]
pub fn top_ranked(nums: &Vec<u128>, dens: &Vec<u128>, n: usize) -> (top: Vec<usize>)
    requires
        rank_keys_ok(nums@, dens@),
    ensures
        top@.len() == if n <= nums@.len() {
            n as int
        } else {
            nums@.len() as int
        },
        forall|k: int| 0 <= k < top@.len() ==> (#[trigger] top@[k]) < nums@.len(),
        forall|a: int, b: int|
            0 <= a < b < top@.len() ==> rank_before(nums@, dens@, top@[a] as int, top@[b] as int),
        forall|q: int, k: int|
            #![trigger pos_in(top@, q), top@[k]]
            0 <= q < nums@.len() && !pos_in(top@, q) && 0 <= k < top@.len() ==> rank_before(
                nums@,
                dens@,
                top@[k] as int,
                q,
            ),
        nums@.len() <= n ==> forall|q: int| 0 <= q < nums@.len() ==> pos_in(top@, q),
{
    let n0 = nums.len();
    let ghost ns = nums@;
    let ghost ds = dens@;
    let mut perm: Vec<usize> = Vec::new();
    let mut i: usize = 0;
    while i < n0
        invariant
            i <= n0 == nums@.len(),
            perm@.len() == i,
            forall|k: int| 0 <= k < i ==> #[trigger] perm@[k] == k,
        decreases n0 - i,
    {
        perm.push(i);
        i = i + 1;
    }
    proof {
        assert forall|v: int| 0 <= v < n0 implies pos_in(perm@, v) by {
            assert(perm@[v] as int == v);
        }
    }
    let mut i: usize = 1;
    while i < n0
        invariant
            rank_keys_ok(nums@, dens@),
            ns == nums@,
            ds == dens@,
            1 <= i <= n0 == nums@.len() || (n0 == 0 && i == 1),
            perm@.len() == n0,
            forall|k: int| 0 <= k < n0 ==> (#[trigger] perm@[k]) < n0,
            forall|a: int, b: int| 0 <= a < b < n0 ==> perm@[a] != perm@[b],
            forall|v: int| 0 <= v < n0 ==> pos_in(perm@, v),
            forall|a: int, b: int|
                #![trigger perm@[a], perm@[b]]
                0 <= a < b < i && b < n0 ==> rank_before(
                    ns,
                    ds,
                    perm@[a] as int,
                    perm@[b] as int,
                ),
        decreases n0 - i,
    {
        let mut j: usize = i;
        while j > 0 && cmp_before(nums, dens, perm[j], perm[j - 1])
            invariant
                rank_keys_ok(nums@, dens@),
                ns == nums@,
                ds == dens@,
                0 <= j <= i < n0 == nums@.len(),
                perm@.len() == n0,
                forall|k: int| 0 <= k < n0 ==> (#[trigger] perm@[k]) < n0,
                forall|a: int, b: int| 0 <= a < b < n0 ==> perm@[a] != perm@[b],
                forall|v: int| 0 <= v < n0 ==> pos_in(perm@, v),
                forall|a: int, b: int|
                    #![trigger perm@[a], perm@[b]]
                    0 <= a < b <= i && b != j ==> rank_before(
                        ns,
                        ds,
                        perm@[a] as int,
                        perm@[b] as int,
                    ),
                forall|b: int|
                    #![trigger perm@[b]]
                    j < b <= i ==> rank_before(ns, ds, perm@[j as int] as int, perm@[b] as int),
            decreases j,
        {
            let ghost before = perm@;
            let t = perm[j];
            let u = perm[j - 1];
            perm.set(j, u);
            perm.set(j - 1, t);
            proof {
                assert(perm@ =~= before.update(j as int, u).update(j - 1, t));
                assert forall|v: int| 0 <= v < n0 implies pos_in(perm@, v) by {
                    assert(pos_in(before, v));
                    let k0 = choose|k: int|
                        0 <= k < before.len() && (#[trigger] before[k]) as int == v;
                    if k0 == j {
                        assert(perm@[j - 1] as int == v);
                    } else if k0 == j - 1 {
                        assert(perm@[j as int] as int == v);
                    } else {
                        assert(perm@[k0] as int == v);
                    }
                }
                assert forall|a: int, b: int|
                    #![trigger perm@[a], perm@[b]]
                    0 <= a < b <= i && b != j - 1 implies rank_before(
                    ns,
                    ds,
                    perm@[a] as int,
                    perm@[b] as int,
                ) by {
                    if a == j - 1 {
                        if b == j {
                            assert(perm@[a] == before[j as int] && perm@[b] == before[j - 1]);
                        } else {
                            assert(perm@[a] == before[j as int] && perm@[b] == before[b]);
                            assert(rank_before(ns, ds, before[j as int] as int, before[b] as int));
                        }
                    } else if b == j {
                        assert(perm@[a] == before[a] && perm@[b] == before[j - 1]);
                        assert(rank_before(ns, ds, before[a] as int, before[j - 1] as int));
                    } else if a == j {
                        assert(perm@[a] == before[j - 1] && perm@[b] == before[b]);
                        assert(rank_before(ns, ds, before[j - 1] as int, before[b] as int));
                    } else {
                        assert(perm@[a] == before[a] && perm@[b] == before[b]);
                    }
                }
                assert forall|b: int|
                    #![trigger perm@[b]]
                    j - 1 < b <= i implies rank_before(
                    ns,
                    ds,
                    perm@[j - 1] as int,
                    perm@[b] as int,
                ) by {
                    if b == j {
                        assert(perm@[j - 1] == before[j as int] && perm@[j as int] == before[j
                            - 1]);
                    } else {
                        assert(perm@[j - 1] == before[j as int] && perm@[b] == before[b]);
                        assert(rank_before(ns, ds, before[j as int] as int, before[b] as int));
                    }
                }
            }
            j = j - 1;
        }
        proof {
            if j > 0 {
                assert(!rank_before(ns, ds, perm@[j as int] as int, perm@[j - 1] as int));
                assert(perm@[j - 1] != perm@[j as int]);
                lemma_rank_total(ns, ds, perm@[j - 1] as int, perm@[j as int] as int);
                assert(rank_before(ns, ds, perm@[j - 1] as int, perm@[j as int] as int));
                assert forall|a: int, b: int|
                    #![trigger perm@[a], perm@[b]]
                    0 <= a < b <= i implies rank_before(
                    ns,
                    ds,
                    perm@[a] as int,
                    perm@[b] as int,
                ) by {
                    if b == j {
                        if a == j - 1 {
                        } else {
                            assert(rank_before(ns, ds, perm@[a] as int, perm@[j - 1] as int));
                            lemma_rank_trans(
                                ns,
                                ds,
                                perm@[a] as int,
                                perm@[j - 1] as int,
                                perm@[j as int] as int,
                            );
                        }
                    }
                }
            }
        }
        i = i + 1;
    }
    let mut top = perm;
    let ghost sorted = top@;
    if n < top.len() {
        top.truncate(n);
        proof {
            assert(top@ =~= sorted.subrange(0, n as int));
        }
    }
    proof {
        assert forall|q: int, k: int|
            0 <= q < nums@.len() && !pos_in(top@, q) && 0 <= k < top@.len() implies rank_before(
            nums@,
            dens@,
            top@[k] as int,
            q,
        ) by {
            assert(pos_in(sorted, q));
            let p = choose|kk: int|
                0 <= kk < sorted.len() && (#[trigger] sorted[kk]) as int == q;
            assert(sorted[p] as int == q);
            if p < top@.len() {
                assert(top@[p] as int == q);
                assert(false);
            }
            assert(rank_before(ns, ds, sorted[k] as int, sorted[p] as int));
        }
    }
    top
}

} // verus!
