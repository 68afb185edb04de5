use crate::bets::{
    arena_subset, capped_payout, combo_count, combo_rank, combo_valid, eff_odds, law_rank_injective,
    lemma_rank_bound, lemma_rank_extremes, next_combo, spec_capped_payout, spec_eff_odds, spec_subset,
};
use crate::pirates::HistArena;
use vstd::prelude::*;

verus! {

// ---------------------------------------------------------------------------
// The slate of candidate bets of a day: every non-empty subset of the arenas
// (by bit mask), and within it every choice of one pirate per arena (in
// `next_combo` order), keeping the choices that back an anchor.
// ---------------------------------------------------------------------------

/// Pirate counts of the arenas `legs`.
pub open spec fn leg_sizes(arenas: Seq<HistArena>, legs: Seq<usize>) -> Seq<usize> {
    Seq::new(legs.len(), |j: int| arenas[legs[j] as int].pirates.len())
}

/// The odds each leg pays: the current odds where recorded (`current`), else
/// the opening odds.
pub open spec fn leg_odds(arenas: Seq<HistArena>, legs: Seq<usize>, picks: Seq<usize>, current: bool) -> Seq<u32> {
    Seq::new(
        legs.len(),
        |j: int|
            {
                let p = arenas[legs[j] as int].pirates@[picks[j] as int];
                if current {
                    spec_eff_odds(p)
                } else {
                    p.odds
                }
            },
    )
}

/// Some leg of the bet picks an anchor.
pub open spec fn backs_anchor(anchors: Seq<Vec<bool>>, legs: Seq<usize>, picks: Seq<usize>) -> bool {
    exists|j: int| 0 <= j < legs.len() && #[trigger] anchors[legs[j] as int]@[picks[j] as int]
}

/// One bet of the slate: the arena mask, the arenas it uses (ascending), the
/// pirate picked in each of them, and the payout multiplier.
pub struct SlateBet {
    pub mask: u32,
    pub arenas: Vec<usize>,
    pub picks: Vec<usize>,
    pub payout: u32,
}

/// The day's arenas and anchors fit the slate: fewer than 32 arenas, an
/// anchor flag per pirate, at least one pirate per arena, and payouts that
/// stay within `u32` below the cap.
pub open spec fn slate_inputs_ok(arenas: Seq<HistArena>, anchors: Seq<Vec<bool>>, current: bool, cap: u32) -> bool {
    &&& arenas.len() < 32
    &&& anchors.len() == arenas.len()
    &&& forall|i: int| 0 <= i < arenas.len() ==> #[trigger] anchors[i]@.len() == arenas[i].pirates@.len()
    &&& forall|i: int| 0 <= i < arenas.len() ==> #[trigger] arenas[i].pirates@.len() >= 1
    &&& cap >= 1
    &&& forall|i: int, k: int|
        0 <= i < arenas.len() && 0 <= k < arenas[i].pirates@.len() ==> cap * (if current {
            spec_eff_odds(#[trigger] arenas[i].pirates@[k])
        } else {
            arenas[i].pirates@[k].odds
        }) <= u32::MAX
}

/// One past the largest arena mask of `n` arenas.
pub open spec fn mask_limit(n: nat) -> u32 {
    1u32 << (n as u32)
}

/// `b` is a bet of the slate with its payout.
pub open spec fn slate_entry_ok(arenas: Seq<HistArena>, anchors: Seq<Vec<bool>>, current: bool, cap: u32, b: SlateBet) -> bool {
    let legs = spec_subset(b.mask, arenas.len());
    &&& 1 <= b.mask < mask_limit(arenas.len())
    &&& b.arenas@ == legs
    &&& combo_valid(b.picks@, leg_sizes(arenas, legs))
    &&& backs_anchor(anchors, legs, b.picks@)
    &&& b.payout == spec_capped_payout(leg_odds(arenas, legs, b.picks@, current), cap)
}

/// Position of a bet's picks in the enumeration order of its arenas.
pub open spec fn slate_rank(arenas: Seq<HistArena>, b: SlateBet) -> int {
    combo_rank(b.picks@, leg_sizes(arenas, spec_subset(b.mask, arenas.len())))
}

/// `a` comes before `b`: by mask, then by rank.
pub open spec fn slate_before(arenas: Seq<HistArena>, a: SlateBet, b: SlateBet) -> bool {
    a.mask < b.mask || (a.mask == b.mask && slate_rank(arenas, a) < slate_rank(arenas, b))
}

/// Every leg names an arena, and every pick a pirate of it.
pub open spec fn legs_in_range(arenas: Seq<HistArena>, legs: Seq<usize>) -> bool {
    forall|j: int| 0 <= j < legs.len() ==> #[trigger] legs[j] < arenas.len()
}

/// Pirate counts of the arenas `legs`.
fn leg_sizes_of(arenas: &Vec<HistArena>, legs: &Vec<usize>) -> (sizes: Vec<usize>)
    requires
        legs_in_range(arenas@, legs@),
    ensures
        sizes@ == leg_sizes(arenas@, legs@),
{
    let mut sizes: Vec<usize> = Vec::new();
    let mut j: usize = 0;
    while j < legs.len()
        invariant
            j <= legs.len(),
            legs_in_range(arenas@, legs@),
            sizes@ =~= leg_sizes(arenas@, legs@.take(j as int)),
        decreases legs.len() - j,
    {
        assert(legs@[j as int] < arenas@.len());
        sizes.push(arenas[legs[j]].pirates.len());
        j = j + 1;
        assert(sizes@ =~= leg_sizes(arenas@, legs@.take(j as int)));
    }
    assert(legs@.take(legs.len() as int) =~= legs@);
    sizes
}

/// A vector of `n` zeros.
fn zeros(n: usize) -> (z: Vec<usize>)
    ensures
        z.len() == n,
        forall|j: int| 0 <= j < n ==> #[trigger] z@[j] == 0,
{
    let mut z: Vec<usize> = Vec::new();
    let mut j: usize = 0;
    while j < n
        invariant
            j <= n,
            z.len() == j,
            forall|k: int| 0 <= k < j ==> #[trigger] z@[k] == 0,
        decreases n - j,
    {
        z.push(0);
        j = j + 1;
    }
    z
}

/// A copy of a vector of indices.
fn copy_indices(v: &Vec<usize>) -> (c: Vec<usize>)
    ensures
        c@ == v@,
{
    let mut c: Vec<usize> = Vec::new();
    let mut j: usize = 0;
    while j < v.len()
        invariant
            j <= v.len(),
            c@ =~= v@.take(j as int),
        decreases v.len() - j,
    {
        c.push(v[j]);
        j = j + 1;
        assert(c@ =~= v@.take(j as int));
    }
    assert(v@.take(v.len() as int) =~= v@);
    c
}

/// Whether some leg picks an anchor.
fn picks_anchor(anchors: &Vec<Vec<bool>>, legs: &Vec<usize>, picks: &Vec<usize>) -> (b: bool)
    requires
        legs.len() == picks.len(),
        forall|j: int| 0 <= j < legs.len() ==> #[trigger] legs@[j] < anchors@.len() && picks@[j] < anchors@[legs@[j] as int]@.len(),
    ensures
        b == backs_anchor(anchors@, legs@, picks@),
{
    let mut j: usize = 0;
    while j < legs.len()
        invariant
            j <= legs.len() == picks.len(),
            forall|k: int| 0 <= k < legs.len() ==> #[trigger] legs@[k] < anchors@.len() && picks@[k] < anchors@[legs@[k] as int]@.len(),
            forall|k: int| 0 <= k < j ==> !#[trigger] anchors@[legs@[k] as int]@[picks@[k] as int],
        decreases legs.len() - j,
    {
        assert(legs@[j as int] < anchors@.len());
        if anchors[legs[j]][picks[j]] {
            return true;
        }
        j = j + 1;
    }
    false
}

/// The odds each leg pays.
fn leg_odds_of(arenas: &Vec<HistArena>, legs: &Vec<usize>, picks: &Vec<usize>, current: bool) -> (odds: Vec<u32>)
    requires
        legs.len() == picks.len(),
        forall|j: int| 0 <= j < legs.len() ==> #[trigger] legs@[j] < arenas@.len() && picks@[j] < arenas@[legs@[j] as int].pirates@.len(),
    ensures
        odds@ == leg_odds(arenas@, legs@, picks@, current),
{
    let mut odds: Vec<u32> = Vec::new();
    let mut j: usize = 0;
    while j < legs.len()
        invariant
            j <= legs.len() == picks.len(),
            forall|k: int| 0 <= k < legs.len() ==> #[trigger] legs@[k] < arenas@.len() && picks@[k] < arenas@[legs@[k] as int].pirates@.len(),
            odds@ =~= leg_odds(arenas@, legs@.take(j as int), picks@.take(j as int), current),
        decreases legs.len() - j,
    {
        assert(legs@[j as int] < arenas@.len());
        let p = &arenas[legs[j]].pirates[picks[j]];
        odds.push(if current { eff_odds(p) } else { p.odds });
        j = j + 1;
        assert(odds@ =~= leg_odds(arenas@, legs@.take(j as int), picks@.take(j as int), current));
    }
    assert(legs@.take(legs.len() as int) =~= legs@);
    assert(picks@.take(picks.len() as int) =~= picks@);
    odds
}

/// The slate of a day: every bet over a non-empty subset of the arenas,
/// one pirate per arena used, that picks at least one anchor; ordered by
/// arena mask and then by the `next_combo` order of the picks; each with its
/// payout multiplier capped at `cap` (at current odds when `current`).
pub fn anchored_bets(arenas: &Vec<HistArena>, anchors: &Vec<Vec<bool>>, current: bool, cap: u32) -> (bets: Vec<SlateBet>)
    requires
        slate_inputs_ok(arenas@, anchors@, current, cap),
    ensures
        forall|k: int| 0 <= k < bets.len() ==> slate_entry_ok(arenas@, anchors@, current, cap, #[trigger] bets@[k]),
        forall|k: int, l: int|
            0 <= k < l < bets.len() ==> slate_before(arenas@, #[trigger] bets@[k], #[trigger] bets@[l]),
        forall|mask: u32, c: Seq<usize>|
            #![trigger backs_anchor(anchors@, spec_subset(mask, arenas@.len()), c)]
            1 <= mask < mask_limit(arenas@.len()) && combo_valid(c, leg_sizes(arenas@, spec_subset(mask, arenas@.len())))
                && backs_anchor(anchors@, spec_subset(mask, arenas@.len()), c) ==> exists|k: int|
                0 <= k < bets.len() && #[trigger] bets@[k].mask == mask && bets@[k].picks@ == c,
{
    let n = arenas.len();
    let limit: u32 = 1u32 << (n as u32);
    assert(limit == mask_limit(arenas@.len()));
    let mut bets: Vec<SlateBet> = Vec::new();
    let mut mask: u32 = 1;
    while mask < limit
        invariant
            n == arenas.len(),
            limit == mask_limit(arenas@.len()),
            1 <= mask,
            slate_inputs_ok(arenas@, anchors@, current, cap),
            forall|k: int| 0 <= k < bets.len() ==> slate_entry_ok(arenas@, anchors@, current, cap, #[trigger] bets@[k]),
            forall|k: int, l: int|
                0 <= k < l < bets.len() ==> slate_before(arenas@, #[trigger] bets@[k], #[trigger] bets@[l]),
            forall|k: int| 0 <= k < bets.len() ==> #[trigger] bets@[k].mask < mask,
            forall|m: u32, c: Seq<usize>|
                #![trigger backs_anchor(anchors@, spec_subset(m, arenas@.len()), c)]
                1 <= m < mask && combo_valid(c, leg_sizes(arenas@, spec_subset(m, arenas@.len())))
                    && backs_anchor(anchors@, spec_subset(m, arenas@.len()), c) ==> exists|k: int|
                    0 <= k < bets.len() && #[trigger] bets@[k].mask == m && bets@[k].picks@ == c,
        decreases limit - mask,
    {
        let legs = arena_subset(mask, n);
        let sizes = leg_sizes_of(arenas, &legs);
        let mut combo = zeros(legs.len());
        let ghost legs_s = spec_subset(mask, arenas@.len());
        let ghost mut r: int = 0;
        proof {
            lemma_rank_extremes(combo@, sizes@);
            assert forall|j: int| 0 <= j < combo.len() implies #[trigger] combo@[j] < sizes@[j] by {
                assert(legs@[j] < arenas@.len());
                assert(arenas@[legs@[j] as int].pirates@.len() >= 1);
                assert(sizes@[j] == arenas@[legs@[j] as int].pirates.len());
            }
            lemma_rank_bound(combo@, sizes@);
            assert forall|c: Seq<usize>| combo_valid(c, sizes@) implies combo_rank(c, sizes@) >= 0 by {
                lemma_rank_bound(c, sizes@);
            }
        }
        loop
            invariant_except_break
                combo_rank(combo@, sizes@) == r,
                forall|k: int|
                    0 <= k < bets.len() ==> #[trigger] bets@[k].mask < mask || (bets@[k].mask == mask && slate_rank(
                        arenas@,
                        bets@[k],
                    ) < r),
            invariant
                n == arenas.len(),
                limit == mask_limit(arenas@.len()),
                1 <= mask < limit,
                slate_inputs_ok(arenas@, anchors@, current, cap),
                legs@ == legs_s,
                legs_s == spec_subset(mask, arenas@.len()),
                legs_in_range(arenas@, legs@),
                sizes@ == leg_sizes(arenas@, legs@),
                combo_valid(combo@, sizes@),
                0 <= r < combo_count(sizes@),
                forall|k: int| 0 <= k < bets.len() ==> slate_entry_ok(arenas@, anchors@, current, cap, #[trigger] bets@[k]),
                forall|k: int, l: int|
                    0 <= k < l < bets.len() ==> slate_before(arenas@, #[trigger] bets@[k], #[trigger] bets@[l]),
                forall|m: u32, c: Seq<usize>|
                    #![trigger backs_anchor(anchors@, spec_subset(m, arenas@.len()), c)]
                    1 <= m < mask && combo_valid(c, leg_sizes(arenas@, spec_subset(m, arenas@.len())))
                        && backs_anchor(anchors@, spec_subset(m, arenas@.len()), c) ==> exists|k: int|
                        0 <= k < bets.len() && #[trigger] bets@[k].mask == m && bets@[k].picks@ == c,
                forall|c: Seq<usize>|
                    #![trigger backs_anchor(anchors@, legs_s, c)]
                    combo_valid(c, sizes@) && combo_rank(c, sizes@) < r && backs_anchor(anchors@, legs_s, c)
                        ==> exists|k: int| 0 <= k < bets.len() && #[trigger] bets@[k].mask == mask && bets@[k].picks@ == c,
            ensures
                forall|k: int| 0 <= k < bets.len() ==> slate_entry_ok(arenas@, anchors@, current, cap, #[trigger] bets@[k]),
                forall|k: int, l: int|
                    0 <= k < l < bets.len() ==> slate_before(arenas@, #[trigger] bets@[k], #[trigger] bets@[l]),
                forall|k: int| 0 <= k < bets.len() ==> #[trigger] bets@[k].mask <= mask,
                forall|m: u32, c: Seq<usize>|
                    #![trigger backs_anchor(anchors@, spec_subset(m, arenas@.len()), c)]
                    1 <= m <= mask && combo_valid(c, leg_sizes(arenas@, spec_subset(m, arenas@.len())))
                        && backs_anchor(anchors@, spec_subset(m, arenas@.len()), c) ==> exists|k: int|
                        0 <= k < bets.len() && #[trigger] bets@[k].mask == m && bets@[k].picks@ == c,
            decreases combo_count(sizes@) - r,
        {
            assert forall|j: int| 0 <= j < legs.len() implies #[trigger] legs@[j] < anchors@.len()
                && combo@[j] < anchors@[legs@[j] as int]@.len() by {
                assert(legs@[j] < arenas@.len());
                assert(combo@[j] < sizes@[j]);
            }
            let anchored = picks_anchor(anchors, &legs, &combo);
            let ghost before = bets@;
            if anchored {
                assert forall|j: int| 0 <= j < legs.len() implies #[trigger] legs@[j] < arenas@.len()
                    && combo@[j] < arenas@[legs@[j] as int].pirates@.len() by {
                    assert(legs@[j] < arenas@.len());
                    assert(combo@[j] < sizes@[j]);
                }
                let odds = leg_odds_of(arenas, &legs, &combo, current);
                assert forall|k: int| 0 <= k < odds@.len() implies cap * #[trigger] odds@[k] <= u32::MAX by {
                    let i = legs@[k] as int;
                    let q = combo@[k] as int;
                    assert(0 <= i < arenas@.len());
                    assert(0 <= q < arenas@[i].pirates@.len());
                    assert(odds@[k] == (if current {
                        spec_eff_odds(arenas@[i].pirates@[q])
                    } else {
                        arenas@[i].pirates@[q].odds
                    }));
                }
                let payout = capped_payout(&odds, cap);
                let b = SlateBet { mask, arenas: copy_indices(&legs), picks: copy_indices(&combo), payout };
                assert(slate_rank(arenas@, b) == r);
                assert(slate_entry_ok(arenas@, anchors@, current, cap, b));
                bets.push(b);
                assert(bets@[bets.len() - 1] == b);
                assert forall|k: int| 0 <= k < before.len() implies bets@[k] == before[k] by {}
            }
            proof {
                assert forall|m: u32, c: Seq<usize>|
                    #![trigger backs_anchor(anchors@, spec_subset(m, arenas@.len()), c)]
                    1 <= m < mask && combo_valid(c, leg_sizes(arenas@, spec_subset(m, arenas@.len())))
                        && backs_anchor(anchors@, spec_subset(m, arenas@.len()), c) implies exists|k: int|
                        0 <= k < bets.len() && #[trigger] bets@[k].mask == m && bets@[k].picks@ == c by {
                    let k = choose|k: int| 0 <= k < before.len() && #[trigger] before[k].mask == m && before[k].picks@ == c;
                    assert(bets@[k] == before[k]);
                }
                assert forall|c: Seq<usize>|
                    #![trigger backs_anchor(anchors@, legs_s, c)]
                    combo_valid(c, sizes@) && combo_rank(c, sizes@) < r + 1 && backs_anchor(anchors@, legs_s, c)
                        implies exists|k: int| 0 <= k < bets.len() && #[trigger] bets@[k].mask == mask && bets@[k].picks@ == c by {
                    if combo_rank(c, sizes@) < r {
                        let k = choose|k: int| 0 <= k < before.len() && #[trigger] before[k].mask == mask && before[k].picks@ == c;
                        assert(bets@[k] == before[k]);
                    } else {
                        law_rank_injective(c, combo@, sizes@);
                        assert(bets@[bets.len() - 1].picks@ == c);
                    }
                }
            }
            let carry = next_combo(&mut combo, &sizes);
            if carry {
                proof {
                    assert forall|m: u32, c: Seq<usize>|
                        #![trigger backs_anchor(anchors@, spec_subset(m, arenas@.len()), c)]
                        1 <= m <= mask && combo_valid(c, leg_sizes(arenas@, spec_subset(m, arenas@.len())))
                            && backs_anchor(anchors@, spec_subset(m, arenas@.len()), c) implies exists|k: int|
                            0 <= k < bets.len() && #[trigger] bets@[k].mask == m && bets@[k].picks@ == c by {
                        if m == mask {
                            lemma_rank_bound(c, sizes@);
                            assert(backs_anchor(anchors@, legs_s, c));
                        }
                    }
                }
                break;
            }
            proof {
                lemma_rank_bound(combo@, sizes@);
                r = r + 1;
            }
        }
        mask = mask + 1;
    }
    bets
}

} // verus!
