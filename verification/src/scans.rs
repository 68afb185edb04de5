//! Stratum scans: rows at odds of 3 or more grouped by an integer key, with
//! the counts that each group needs.

use vstd::prelude::*;

verus! {

/// What a scan reads of a bet: its odds and whether it won.
#[derive(Clone, Copy)]
pub struct ScanRow {
    pub odds: u32,
    pub won: bool,
}

/// One group of a scan: its key, the rows in it (ascending), how many there
/// are, how many won, the odds summed over the rows that won, and
/// `odds - 1` summed over all of them.
pub struct ScanCell {
    pub key: u64,
    pub rows: Vec<usize>,
    pub n: u64,
    pub wins: u64,
    pub won_odds: u64,
    pub null_var: u64,
}

/// Row `i` takes part in the scan under key `k`: odds of 3 or more, and key `k`.
pub open spec fn in_scan(s: Seq<ScanRow>, ks: Seq<Option<u64>>, i: int, k: u64) -> bool {
    s[i].odds >= 3 && ks[i] == Some(k)
}

/// The rows below `n` that take part under key `k`, ascending.
pub open spec fn key_rows(s: Seq<ScanRow>, ks: Seq<Option<u64>>, k: u64, n: int) -> Seq<usize>
    decreases n,
{
    if n <= 0 {
        Seq::empty()
    } else {
        let p = key_rows(s, ks, k, n - 1);
        if in_scan(s, ks, n - 1, k) {
            p.push((n - 1) as usize)
        } else {
            p
        }
    }
}

/// How many of those rows won.
pub open spec fn key_wins(s: Seq<ScanRow>, ks: Seq<Option<u64>>, k: u64, n: int) -> nat
    decreases n,
{
    if n <= 0 {
        0
    } else {
        key_wins(s, ks, k, n - 1) + if in_scan(s, ks, n - 1, k) && s[n - 1].won {
            1nat
        } else {
            0nat
        }
    }
}

/// The odds of those rows that won, summed.
pub open spec fn key_won_odds(s: Seq<ScanRow>, ks: Seq<Option<u64>>, k: u64, n: int) -> nat
    decreases n,
{
    if n <= 0 {
        0
    } else {
        key_won_odds(s, ks, k, n - 1) + if in_scan(s, ks, n - 1, k) && s[n - 1].won {
            s[n - 1].odds as nat
        } else {
            0nat
        }
    }
}

/// `odds - 1` of those rows, summed.
pub open spec fn key_null_var(s: Seq<ScanRow>, ks: Seq<Option<u64>>, k: u64, n: int) -> nat
    decreases n,
{
    if n <= 0 {
        0
    } else {
        key_null_var(s, ks, k, n - 1) + if in_scan(s, ks, n - 1, k) {
            (s[n - 1].odds - 1) as nat
        } else {
            0nat
        }
    }
}

/// The keys of the rows below `n` that take part, each once, in the order in
/// which they first occur.
pub open spec fn scan_keys(s: Seq<ScanRow>, ks: Seq<Option<u64>>, n: int) -> Seq<u64>
    decreases n,
{
    if n <= 0 {
        Seq::empty()
    } else {
        let p = scan_keys(s, ks, n - 1);
        match ks[n - 1] {
            Some(k) => if s[n - 1].odds >= 3 && !p.contains(k) {
                p.push(k)
            } else {
                p
            },
            None => p,
        }
    }
}

/// The keys of `cand` that hold at least `min_n` rows, in order.
pub open spec fn kept_keys(s: Seq<ScanRow>, ks: Seq<Option<u64>>, cand: Seq<u64>, min_n: u64) -> Seq<u64>
    decreases cand.len(),
{
    if cand.len() == 0 {
        Seq::empty()
    } else {
        let p = kept_keys(s, ks, cand.drop_last(), min_n);
        if key_rows(s, ks, cand.last(), s.len() as int).len() >= min_n {
            p.push(cand.last())
        } else {
            p
        }
    }
}

/// `c` is the group of key `c.key` over the rows below `n`.
pub open spec fn cell_of(c: ScanCell, s: Seq<ScanRow>, ks: Seq<Option<u64>>, n: int) -> bool {
    &&& c.rows@ == key_rows(s, ks, c.key, n)
    &&& c.n == c.rows.len()
    &&& c.wins == key_wins(s, ks, c.key, n)
    &&& c.won_odds == key_won_odds(s, ks, c.key, n)
    &&& c.null_var == key_null_var(s, ks, c.key, n)
}

proof fn lemma_not_seen(s: Seq<ScanRow>, ks: Seq<Option<u64>>, k: u64, n: int)
    requires
        forall|j: int| 0 <= j < n ==> !#[trigger] in_scan(s, ks, j, k),
    ensures
        key_rows(s, ks, k, n) == Seq::<usize>::empty(),
        key_wins(s, ks, k, n) == 0,
        key_won_odds(s, ks, k, n) == 0,
        key_null_var(s, ks, k, n) == 0,
    decreases n,
{
    if n > 0 {
        lemma_not_seen(s, ks, k, n - 1);
    }
}

proof fn lemma_scan_keys(s: Seq<ScanRow>, ks: Seq<Option<u64>>, n: int)
    requires
        0 <= n <= s.len(),
        ks.len() == s.len(),
    ensures
        forall|k: u64| #[trigger] scan_keys(s, ks, n).contains(k) <==> exists|j: int| 0 <= j < n && #[trigger] in_scan(s, ks, j, k),
        scan_keys(s, ks, n).no_duplicates(),
    decreases n,
{
    if n > 0 {
        lemma_scan_keys(s, ks, n - 1);
        let p = scan_keys(s, ks, n - 1);
        let q = scan_keys(s, ks, n);
        assert forall|k: u64| #[trigger] q.contains(k) <==> exists|j: int| 0 <= j < n && #[trigger] in_scan(s, ks, j, k) by {
            if q.contains(k) {
                if !p.contains(k) {
                    assert(in_scan(s, ks, n - 1, k));
                }
            }
            if exists|j: int| 0 <= j < n && #[trigger] in_scan(s, ks, j, k) {
                if p.contains(k) {
                    let idx = choose|idx: int| 0 <= idx < p.len() && p[idx] == k;
                    assert(q[idx] == k);
                } else {
                    assert(!in_scan(s, ks, n - 1, k) ==> false);
                    assert(q[p.len() as int] == k);
                }
            }
        }
        assert forall|a: int, b: int| 0 <= a < q.len() && 0 <= b < q.len() && a != b implies q[a] != q[b] by {
            if q.len() > p.len() {
                if a == p.len() {
                    assert(p.contains(p[b]));
                } else if b == p.len() {
                    assert(p.contains(p[a]));
                }
            }
        }
    }
}

/// Groups the rows at odds of 3 or more by their key (`None`: the row takes
/// no part), in the order in which each key first occurs, and keeps the
/// groups of at least `min_n` rows.
pub fn scan_cells(rows: &[ScanRow], keys: &[Option<u64>], min_n: u64) -> (out: Vec<ScanCell>)
    requires
        rows@.len() == keys@.len(),
        rows@.len() <= u32::MAX,
    ensures
        out@.len() == kept_keys(rows@, keys@, scan_keys(rows@, keys@, rows@.len() as int), min_n).len(),
        forall|c: int|
            0 <= c < out@.len() ==> (#[trigger] out@[c]).key == kept_keys(
                rows@,
                keys@,
                scan_keys(rows@, keys@, rows@.len() as int),
                min_n,
            )[c] && cell_of(out@[c], rows@, keys@, rows@.len() as int),
{
    let ghost s = rows@;
    let ghost ks = keys@;
    let n = rows.len();
    let mut all: Vec<ScanCell> = Vec::new();
    let mut i: usize = 0;
    while i < n
        invariant
            s == rows@,
            ks == keys@,
            n == s.len(),
            ks.len() == n,
            n <= u32::MAX,
            i <= n,
            all@.len() == scan_keys(s, ks, i as int).len(),
            forall|c: int| 0 <= c < all@.len() ==> (#[trigger] all@[c]).key == scan_keys(s, ks, i as int)[c],
            forall|c: int| 0 <= c < all@.len() ==> cell_of(#[trigger] all@[c], s, ks, i as int),
            forall|c: int|
                0 <= c < all@.len() ==> (#[trigger] all@[c]).n <= i && all@[c].wins <= i && all@[c].won_odds
                    <= i * (u32::MAX as int) && all@[c].null_var <= i * (u32::MAX as int),
        decreases n - i,
    {
        proof {
            lemma_scan_keys(s, ks, i as int);
            assert(i * (u32::MAX as int) + u32::MAX <= (u32::MAX as int) * (u32::MAX as int)) by (nonlinear_arith)
                requires
                    i < u32::MAX,
            ;
        }
        let ghost old_all = all@;
        let odds = rows[i].odds;
        let won = rows[i].won;
        if odds >= 3 && keys[i].is_some() {
            let k = keys[i].unwrap();
            assert(in_scan(s, ks, i as int, k));
            let mut c: usize = 0;
            while c < all.len() && all[c].key != k
                invariant
                    c <= all@.len(),
                    forall|d: int| 0 <= d < c ==> (#[trigger] all@[d]).key != k,
                decreases all@.len() - c,
            {
                c = c + 1;
            }
            if c < all.len() {
                all[c].rows.push(i);
                all[c].n = all[c].n + 1;
                if won {
                    all[c].wins = all[c].wins + 1;
                    all[c].won_odds = all[c].won_odds + odds as u64;
                }
                all[c].null_var = all[c].null_var + (odds - 1) as u64;
                proof {
                    assert(scan_keys(s, ks, i + 1) == scan_keys(s, ks, i as int)) by {
                        assert(scan_keys(s, ks, i as int).contains(k)) by {
                            assert(scan_keys(s, ks, i as int)[c as int] == k);
                        }
                    }
                    assert forall|d: int| 0 <= d < all@.len() && d != c implies cell_of(#[trigger] all@[d], s, ks, i + 1) by {
                        assert(all@[d] == old_all[d]);
                        assert(old_all[d].key != k);
                    }
                }
            } else {
                let mut r: Vec<usize> = Vec::new();
                r.push(i);
                proof {
                    assert(!scan_keys(s, ks, i as int).contains(k)) by {
                        if scan_keys(s, ks, i as int).contains(k) {
                            let idx = choose|idx: int| 0 <= idx < scan_keys(s, ks, i as int).len() && scan_keys(s, ks, i as int)[idx] == k;
                            assert(all@[idx].key == k);
                        }
                    }
                    lemma_not_seen(s, ks, k, i as int);
                    assert(key_rows(s, ks, k, i + 1) =~= seq![i]);
                }
                let cell = ScanCell {
                    key: k,
                    rows: r,
                    n: 1,
                    wins: if won {
                        1
                    } else {
                        0
                    },
                    won_odds: if won {
                        odds as u64
                    } else {
                        0
                    },
                    null_var: (odds - 1) as u64,
                };
                all.push(cell);
                proof {
                    assert forall|d: int| 0 <= d < old_all.len() implies cell_of(#[trigger] all@[d], s, ks, i + 1) by {
                        assert(all@[d] == old_all[d]);
                        assert(old_all[d].key != k);
                    }
                }
            }
        } else {
            proof {
                assert(scan_keys(s, ks, i + 1) == scan_keys(s, ks, i as int));
                assert forall|d: int| 0 <= d < all@.len() implies cell_of(#[trigger] all@[d], s, ks, i + 1) by {
                    assert(!in_scan(s, ks, i as int, all@[d].key));
                }
            }
        }
        i = i + 1;
    }
    let ghost kall = scan_keys(s, ks, n as int);
    let mut out: Vec<ScanCell> = Vec::new();
    let mut c: usize = 0;
    while c < all.len()
        invariant
            s == rows@,
            ks == keys@,
            n == s.len(),
            all@.len() == kall.len(),
            kall == scan_keys(s, ks, n as int),
            c <= all@.len(),
            forall|d: int| 0 <= d < all@.len() ==> (#[trigger] all@[d]).key == kall[d],
            forall|d: int| 0 <= d < all@.len() ==> cell_of(#[trigger] all@[d], s, ks, n as int),
            out@.len() == kept_keys(s, ks, kall.take(c as int), min_n).len(),
            forall|d: int|
                0 <= d < out@.len() ==> (#[trigger] out@[d]).key == kept_keys(s, ks, kall.take(c as int), min_n)[d]
                    && cell_of(out@[d], s, ks, n as int),
        decreases all@.len() - c,
    {
        proof {
            assert(kall.take(c + 1).drop_last() =~= kall.take(c as int));
            assert(kall.take(c + 1).last() == kall[c as int]);
        }
        if all[c].n >= min_n {
            let cell = ScanCell {
                key: all[c].key,
                rows: all[c].rows.clone(),
                n: all[c].n,
                wins: all[c].wins,
                won_odds: all[c].won_odds,
                null_var: all[c].null_var,
            };
            out.push(cell);
        }
        c = c + 1;
    }
    assert(kall.take(kall.len() as int) =~= kall);
    out
}

} // verus!
