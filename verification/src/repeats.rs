//! Repeated arenas: arenas with the same engine-equivalence signature, and
//! how far apart the odds they were given lie.

use vstd::prelude::*;

verus! {

/// Number of `k` in `0..n` with `f(k)`.
pub open spec fn count_to(n: int, f: spec_fn(int) -> bool) -> nat
    decreases n,
{
    if n <= 0 {
        0
    } else {
        count_to(n - 1, f) + if f(n - 1) {
            1nat
        } else {
            0nat
        }
    }
}

/// Sum of `f(k)` over `k` in `0..n`.
pub open spec fn sum_to(n: int, f: spec_fn(int) -> nat) -> nat
    decreases n,
{
    if n <= 0 {
        0
    } else {
        sum_to(n - 1, f) + f(n - 1)
    }
}

proof fn lemma_count_to_none(n: int, f: spec_fn(int) -> bool)
    requires
        forall|k: int| 0 <= k < n ==> !#[trigger] f(k),
    ensures
        count_to(n, f) == 0,
    decreases n,
{
    if n > 0 {
        lemma_count_to_none(n - 1, f);
    }
}

/// Distance between two odds.
pub open spec fn odds_distance(x: u32, y: u32) -> int {
    if x >= y {
        x - y
    } else {
        y - x
    }
}

pub open spec fn max_int(a: int, b: int) -> int {
    if a >= b {
        a
    } else {
        b
    }
}

/// Largest difference between the odds of the same position in two arenas.
pub open spec fn spec_odds_gap(a: [u32; 4], b: [u32; 4]) -> int {
    max_int(
        max_int(odds_distance(a@[0], b@[0]), odds_distance(a@[1], b@[1])),
        max_int(odds_distance(a@[2], b@[2]), odds_distance(a@[3], b@[3])),
    )
}

fn distance(x: u32, y: u32) -> (d: u32)
    ensures
        d == odds_distance(x, y),
{
    if x >= y {
        x - y
    } else {
        y - x
    }
}

/// Largest per-position difference between two odds tuples.
pub fn odds_gap(a: &[u32; 4], b: &[u32; 4]) -> (d: u32)
    ensures
        d == spec_odds_gap(*a, *b),
        d == 0 <==> a@ == b@,
{
    let d0 = distance(a[0], b[0]);
    let d1 = distance(a[1], b[1]);
    let d2 = distance(a[2], b[2]);
    let d3 = distance(a[3], b[3]);
    let m01 = if d0 >= d1 {
        d0
    } else {
        d1
    };
    let m23 = if d2 >= d3 {
        d2
    } else {
        d3
    };
    let d = if m01 >= m23 {
        m01
    } else {
        m23
    };
    if d == 0 {
        assert(a@ =~= b@);
    }
    d
}

/// Arenas after `i` with the signature of arena `i`.
pub open spec fn same_sig_after(s: Seq<(u64, [u32; 4])>, i: int) -> spec_fn(int) -> bool {
    |j: int| i < j < s.len() && s[j].0 == s[i].0
}

/// Arenas after `i` with the signature and the odds of arena `i`.
pub open spec fn same_odds_after(s: Seq<(u64, [u32; 4])>, i: int) -> spec_fn(int) -> bool {
    |j: int| i < j < s.len() && s[j].0 == s[i].0 && s[j].1@ == s[i].1@
}

/// Arenas after `i` with the signature of arena `i` and odds `g` apart from it.
pub open spec fn gap_after(s: Seq<(u64, [u32; 4])>, i: int, g: int) -> spec_fn(int) -> bool {
    |j: int| i < j < s.len() && s[j].0 == s[i].0 && spec_odds_gap(s[i].1, s[j].1) == g
}

/// Pairs of repeated arenas that start at each arena.
pub open spec fn pair_rows(s: Seq<(u64, [u32; 4])>) -> spec_fn(int) -> nat {
    |i: int| count_to(s.len() as int, same_sig_after(s, i))
}

/// Pairs of repeated arenas with identical odds that start at each arena.
pub open spec fn identical_rows(s: Seq<(u64, [u32; 4])>) -> spec_fn(int) -> nat {
    |i: int| count_to(s.len() as int, same_odds_after(s, i))
}

/// Pairs of repeated arenas with odds `g` apart that start at each arena.
pub open spec fn gap_rows(s: Seq<(u64, [u32; 4])>, g: int) -> spec_fn(int) -> nat {
    |i: int| count_to(s.len() as int, gap_after(s, i, g))
}

/// Arena `i` is the first with its signature.
pub open spec fn first_of_sig(s: Seq<(u64, [u32; 4])>, i: int) -> bool {
    forall|j: int| 0 <= j < i ==> #[trigger] s[j].0 != s[i].0
}

/// Arenas that are the first of a signature that occurs again.
pub open spec fn repeated_sig(s: Seq<(u64, [u32; 4])>) -> spec_fn(int) -> bool {
    |i: int| 0 <= i < s.len() && first_of_sig(s, i) && exists|j: int| #[trigger] same_sig_after(s, i)(j)
}

/// Two arenas of the signature of arena `i`, at or after it, whose odds differ.
pub open spec fn sig_disagrees(s: Seq<(u64, [u32; 4])>, i: int) -> bool {
    exists|j: int, k: int|
        i <= j < k < s.len() && #[trigger] s[j].0 == s[i].0 && #[trigger] s[k].0 == s[i].0 && s[j].1@
            != s[k].1@
}

/// Arenas that are the first of a signature whose arenas do not all share
/// one odds tuple.
pub open spec fn disagreeing_sig(s: Seq<(u64, [u32; 4])>) -> spec_fn(int) -> bool {
    |i: int| 0 <= i < s.len() && first_of_sig(s, i) && sig_disagrees(s, i)
}

/// What the arenas with a repeated signature show: how many signatures
/// repeat, how many pairs of arenas share one, how many of those pairs got
/// identical odds, how many signatures got differing odds, and the number of
/// pairs at each largest per-position odds difference below `gaps.len()`.
pub struct RepeatSummary {
    pub signatures: u64,
    pub pairs: u64,
    pub identical: u64,
    pub disagreeing: u64,
    pub gaps: Vec<u64>,
}

/// Summary of the repeats among `arenas`, each a signature and its odds;
/// pairs are counted by odds difference for differences below `bins`.
pub fn repeat_summary(arenas: &[(u64, [u32; 4])], bins: usize) -> (r: RepeatSummary)
    requires
        arenas@.len() <= u32::MAX,
    ensures
        r.signatures == count_to(arenas@.len() as int, repeated_sig(arenas@)),
        r.pairs == sum_to(arenas@.len() as int, pair_rows(arenas@)),
        r.identical == sum_to(arenas@.len() as int, identical_rows(arenas@)),
        r.disagreeing == count_to(arenas@.len() as int, disagreeing_sig(arenas@)),
        r.gaps.len() == bins,
        forall|g: int| 0 <= g < bins ==> #[trigger] r.gaps@[g] == sum_to(arenas@.len() as int, gap_rows(arenas@, g)),
{
    let ghost s = arenas@;
    let n = arenas.len();
    let mut gaps: Vec<u64> = Vec::new();
    let mut b: usize = 0;
    while b < bins
        invariant
            b <= bins,
            gaps.len() == b,
            forall|g: int| 0 <= g < b ==> #[trigger] gaps@[g] == 0,
        decreases bins - b,
    {
        gaps.push(0);
        b = b + 1;
    }
    let mut signatures: u64 = 0;
    let mut pairs: u64 = 0;
    let mut identical: u64 = 0;
    let mut disagreeing: u64 = 0;
    let mut i: usize = 0;
    while i < n
        invariant
            n == s.len(),
            s == arenas@,
            n <= u32::MAX,
            i <= n,
            gaps.len() == bins,
            signatures == count_to(i as int, repeated_sig(s)),
            disagreeing == count_to(i as int, disagreeing_sig(s)),
            signatures <= i,
            disagreeing <= i,
            pairs == sum_to(i as int, pair_rows(s)),
            identical == sum_to(i as int, identical_rows(s)),
            forall|g: int| 0 <= g < bins ==> #[trigger] gaps@[g] == sum_to(i as int, gap_rows(s, g)),
            pairs <= i * n,
            identical <= pairs,
            forall|g: int| 0 <= g < bins ==> #[trigger] gaps@[g] <= pairs,
        decreases n - i,
    {
        let sig = arenas[i].0;
        let mut first = true;
        let mut j: usize = 0;
        while j < i && first
            invariant
                n == s.len(),
                i < n,
                s == arenas@,
                sig == s[i as int].0,
                j <= i,
                first == forall|k: int| 0 <= k < j ==> #[trigger] s[k].0 != sig,
            decreases i - j,
        {
            if arenas[j].0 == sig {
                first = false;
            }
            j = j + 1;
        }
        assert(first == first_of_sig(s, i as int));
        proof {
            lemma_count_to_none(i + 1, same_sig_after(s, i as int));
            lemma_count_to_none(i + 1, same_odds_after(s, i as int));
            assert forall|g: int| 0 <= g < bins implies count_to(i + 1, #[trigger] gap_after(s, i as int, g)) == 0 by {
                lemma_count_to_none(i + 1, gap_after(s, i as int, g));
            }
        }
        let ghost pairs0 = pairs;
        let ghost identical0 = identical;
        let ghost gaps0 = gaps@;
        let mut later_same = false;
        let mut dis = false;
        let mut k: usize = i + 1;
        while k < n
            invariant
                n == s.len(),
                s == arenas@,
                n <= u32::MAX,
                i < n,
                i + 1 <= k <= n,
                sig == s[i as int].0,
                gaps.len() == bins,
                gaps0.len() == bins,
                pairs == pairs0 + count_to(k as int, same_sig_after(s, i as int)),
                identical == identical0 + count_to(k as int, same_odds_after(s, i as int)),
                forall|g: int| 0 <= g < bins ==> #[trigger] gaps@[g] == gaps0[g] + count_to(k as int, gap_after(s, i as int, g)),
                pairs0 <= i * n,
                pairs <= pairs0 + (k - i - 1),
                identical <= pairs,
                forall|g: int| 0 <= g < bins ==> #[trigger] gaps@[g] <= pairs,
                later_same == exists|m: int| i < m < k && #[trigger] s[m].0 == sig,
                dis == exists|m: int| i < m < k && #[trigger] s[m].0 == sig && s[m].1@ != s[i as int].1@,
            decreases n - k,
        {
            proof {
                assert(pairs0 + (k - i - 1) < u64::MAX) by (nonlinear_arith)
                    requires
                        pairs0 <= i * n,
                        i < n,
                        k < n,
                        n <= u32::MAX,
                ;
            }
            let ghost gaps1 = gaps@;
            if arenas[k].0 == sig {
                let d = odds_gap(&arenas[i].1, &arenas[k].1);
                pairs = pairs + 1;
                if d == 0 {
                    identical = identical + 1;
                } else {
                    dis = true;
                }
                if (d as usize) < bins {
                    gaps.set(d as usize, gaps[d as usize] + 1);
                }
                later_same = true;
            }
            proof {
                assert forall|g: int| 0 <= g < bins implies #[trigger] gaps@[g] == gaps0[g] + count_to(
                    k + 1,
                    gap_after(s, i as int, g),
                ) by {
                    assert(gaps1[g] == gaps0[g] + count_to(k as int, gap_after(s, i as int, g)));
                }
            }
            k = k + 1;
        }
        proof {
            assert(disagreeing_sig(s)(i as int) == (first && dis)) by {
                if dis {
                    let m = choose|m: int| i < m < n && #[trigger] s[m].0 == sig && s[m].1@ != s[i as int].1@;
                    assert(s[i as int].0 == s[i as int].0);
                    assert(sig_disagrees(s, i as int));
                }
                if sig_disagrees(s, i as int) {
                    let (j2, k2) = choose|j2: int, k2: int|
                        i <= j2 < k2 < s.len() && #[trigger] s[j2].0 == s[i as int].0 && #[trigger] s[k2].0
                            == s[i as int].0 && s[j2].1@ != s[k2].1@;
                    if s[j2].1@ != s[i as int].1@ {
                        assert(s[j2].0 == sig);
                    } else {
                        assert(s[k2].0 == sig);
                    }
                }
            }
            assert(repeated_sig(s)(i as int) == (first && later_same)) by {
                if later_same {
                    let m = choose|m: int| i < m < n && #[trigger] s[m].0 == sig;
                    assert(same_sig_after(s, i as int)(m));
                }
            }
        }
        if first && later_same {
            signatures = signatures + 1;
        }
        if first && dis {
            disagreeing = disagreeing + 1;
        }
        proof {
            assert(pairs <= (i + 1) * n) by (nonlinear_arith)
                requires
                    pairs <= pairs0 + (n - i - 1),
                    pairs0 <= i * n,
            ;
            assert forall|g: int| 0 <= g < bins implies #[trigger] gaps@[g] == sum_to(i + 1, gap_rows(s, g)) by {
            }
        }
        i = i + 1;
    }
    RepeatSummary { signatures, pairs, identical, disagreeing, gaps }
}

} // verus!
