use crate::model::{
    capped_weight_offset,
    weight_offset,
    spec_weight_offset,
    course_counts,
    fav_adjusted_upper,
    spec_capped_weight_offset,
    spec_iterative_reduce,
    spec_linear_upper,
    count_where,
    fav_counts,
    alg_counts,
    MODEL4_BASE,
    MODEL4_FAV_DIV,
    MODEL4_N_ROLLS,
    MODEL4_DIVISOR,
    MODEL4_MAX_EFFECT,
};
use crate::hashing;
use crate::pirates::Pirate;
use rand::rngs::SmallRng;
use rand::Rng;
use vstd::prelude::*;

verus! {

// ---------------------------------------------------------------------------
// Quantized scores
// ---------------------------------------------------------------------------

/// A total time divided by `divisor`, rounded up (1), to nearest (2) or down
/// (any other mode).
pub open spec fn spec_quantize_time(time: u32, divisor: u32, quant_round: u8) -> int {
    let d = divisor as int;
    if quant_round == 1 {
        (time + d - 1) / d
    } else if quant_round == 2 {
        (time + d / 2) / d
    } else {
        time as int / d
    }
}

pub fn quantize_time(time: u32, divisor: u32, quant_round: u8) -> (q: u32)
    requires
        divisor > 0,
        quant_round == 1 ==> time + divisor <= u32::MAX,
        quant_round == 2 ==> time + divisor / 2 <= u32::MAX,
    ensures
        q == spec_quantize_time(time, divisor, quant_round),
{
    if quant_round == 1 {
        (time + divisor - 1) / divisor
    } else if quant_round == 2 {
        (time + divisor / 2) / divisor
    } else {
        time / divisor
    }
}

/// Rounding down never exceeds rounding to nearest, which never exceeds
/// rounding up, and the three differ by at most one; each is monotone in time.
pub proof fn law_quantize_order(t1: u32, t2: u32, divisor: u32)
    requires
        divisor > 0,
    ensures
        spec_quantize_time(t1, divisor, 0) <= spec_quantize_time(t1, divisor, 2),
        spec_quantize_time(t1, divisor, 2) <= spec_quantize_time(t1, divisor, 1),
        spec_quantize_time(t1, divisor, 1) <= spec_quantize_time(t1, divisor, 0) + 1,
        t1 <= t2 ==> spec_quantize_time(t1, divisor, 0) <= spec_quantize_time(t2, divisor, 0),
        t1 <= t2 ==> spec_quantize_time(t1, divisor, 1) <= spec_quantize_time(t2, divisor, 1),
        t1 <= t2 ==> spec_quantize_time(t1, divisor, 2) <= spec_quantize_time(t2, divisor, 2),
{
    let d = divisor as int;
    let t = t1 as int;
    let u = t2 as int;
    assert(t / d <= (t + d / 2) / d) by (nonlinear_arith)
        requires
            d > 0,
            t >= 0,
    ;
    assert((t + d / 2) / d <= (t + d - 1) / d) by (nonlinear_arith)
        requires
            d > 0,
            t >= 0,
    ;
    assert((t + d - 1) / d <= t / d + 1) by (nonlinear_arith)
        requires
            d > 0,
            t >= 0,
    ;
    if t1 <= t2 {
        assert(t / d <= u / d) by (nonlinear_arith)
            requires
                d > 0,
                0 <= t <= u,
        ;
        assert((t + d - 1) / d <= (u + d - 1) / d) by (nonlinear_arith)
            requires
                d > 0,
                0 <= t <= u,
        ;
        assert((t + d / 2) / d <= (u + d / 2) / d) by (nonlinear_arith)
            requires
                d > 0,
                0 <= t <= u,
        ;
    }
}

/// Bin of raw score `k` in a quantized score distribution (divisor > 0):
/// ceiling (1), nearest (2), floor (0 and others), or for the inverse mode (3)
/// `divisor - floor(divisor / k)`, which has no bin for `k == 0`.
pub open spec fn spec_quantize_score_index(k: usize, divisor: u32, quant_round: u8) -> Option<usize> {
    let d = divisor as int;
    if quant_round == 3 {
        if k == 0 {
            None
        } else {
            Some((d - d / (k as int)) as usize)
        }
    } else if quant_round == 1 {
        Some(((k + d - 1) / d) as usize)
    } else if quant_round == 2 {
        Some(((k + d / 2) / d) as usize)
    } else {
        Some(((k as int) / d) as usize)
    }
}

/// The inverse bins keep "lowest wins": a lower positive raw score never
/// lands in a higher bin, and every bin lies in `0..=divisor`.
pub proof fn law_inverse_quantize_order(k1: usize, k2: usize, divisor: u32)
    requires
        1 <= k1 <= k2,
        divisor > 0,
    ensures
        spec_quantize_score_index(k1, divisor, 3) matches Some(q1) && spec_quantize_score_index(
            k2,
            divisor,
            3,
        ) matches Some(q2) && q1 <= q2 <= divisor,
{
    let d = divisor as int;
    assert(d / (k2 as int) <= d / (k1 as int)) by (nonlinear_arith)
        requires
            1 <= k1 <= k2,
            d > 0,
    ;
    assert(d / (k2 as int) <= d) by (nonlinear_arith)
        requires
            1 <= k2,
            d > 0,
    ;
    assert(d / (k1 as int) <= d) by (nonlinear_arith)
        requires
            1 <= k1,
            d > 0,
    ;
    assert(0 <= d / (k2 as int)) by (nonlinear_arith)
        requires
            1 <= k2,
            d > 0,
    ;
}

pub fn quantize_score_index(k: usize, divisor: u32, quant_round: u8) -> (q: Option<usize>)
    requires
        divisor > 0,
        quant_round == 1 ==> k + divisor <= usize::MAX,
        quant_round == 2 ==> k + divisor / 2 <= usize::MAX,
    ensures
        q == spec_quantize_score_index(k, divisor, quant_round),
{
    let d = divisor as usize;
    if quant_round == 3 {
        if k == 0 {
            None
        } else {
            Some(d.saturating_sub(d / k))
        }
    } else if quant_round == 1 {
        Some((k + d - 1) / d)
    } else if quant_round == 2 {
        Some((k + d / 2) / d)
    } else {
        Some(k / d)
    }
}

// ---------------------------------------------------------------------------
// Winners
// ---------------------------------------------------------------------------

/// `w` holds the lowest time of the arena.
pub open spec fn is_lowest(times: [u32; 4], w: int) -> bool {
    0 <= w < 4 && forall|j: int| 0 <= j < 4 ==> times@[w] <= #[trigger] times@[j]
}

/// Position of the lowest time, the later position winning ties.
pub fn later_wins_ties(times: &[u32; 4]) -> (w: usize)
    ensures
        is_lowest(*times, w as int),
        forall|j: int| w < j < 4 ==> times@[w as int] < #[trigger] times@[j],
{
    let mut best: u32 = u32::MAX;
    let mut w: usize = 0;
    let mut i: usize = 0;
    while i < 4
        invariant
            i <= 4,
            w < 4,
            i == 0 ==> best == u32::MAX && w == 0,
            i > 0 ==> w < i && best == times@[w as int],
            forall|j: int| 0 <= j < i ==> best <= #[trigger] times@[j],
            forall|j: int| w < j < i ==> best < #[trigger] times@[j],
        decreases 4 - i,
    {
        if times[i] <= best {
            best = times[i];
            w = i;
        }
        i = i + 1;
    }
    w
}

/// Position of the lowest time, the earlier position winning ties.
pub fn earlier_wins_ties(times: &[u32; 4]) -> (w: usize)
    ensures
        is_lowest(*times, w as int),
        forall|j: int| 0 <= j < w ==> times@[w as int] < #[trigger] times@[j],
{
    let mut w: usize = 0;
    let mut i: usize = 1;
    while i < 4
        invariant
            1 <= i <= 4,
            w < i,
            forall|j: int| 0 <= j < i ==> times@[w as int] <= #[trigger] times@[j],
            forall|j: int| 0 <= j < w ==> times@[w as int] < #[trigger] times@[j],
        decreases 4 - i,
    {
        if times[i] < times[w] {
            w = i;
        }
        i = i + 1;
    }
    w
}

// ---------------------------------------------------------------------------
// Random draws
// ---------------------------------------------------------------------------

#[verifier::external_type_specification]
#[verifier::external_body]
pub struct ExSmallRng(SmallRng);

/// `rand::Rng::gen_range(1..=n)` on `u32`: uniform on `1..=n`; it panics for
/// an empty range, so `n >= 1`. Which value comes out is left unsaid.
#[verifier::external_body]
fn die(rng: &mut SmallRng, n: u32) -> (r: u32)
    requires
        n >= 1,
    ensures
        1 <= r <= n,
{
    rng.gen_range(1..=n)
}

/// `rand::Rng::gen_range(0..n)` on `usize`: uniform on `0..n`; it panics for
/// an empty range, so `n >= 1`. Which value comes out is left unsaid.
#[verifier::external_body]
fn pick(rng: &mut SmallRng, n: usize) -> (r: usize)
    requires
        n >= 1,
    ensures
        r < n,
{
    rng.gen_range(0..n)
}

/// One roll of a die with `n` sides, numbered from 1; 0 for a die with no sides.
pub fn roll(rng: &mut SmallRng, n: u32) -> (r: u32)
    ensures
        n == 0 ==> r == 0 && *final(rng) == *old(rng),
        n > 0 ==> 1 <= r <= n,
{
    if n == 0 {
        0
    } else {
        die(rng, n)
    }
}

/// Winner of an arena by the tiebreak rule: later position (0), earlier
/// position (1), or a uniformly drawn one of the tied positions (others).
pub fn tiebreak_winner(times: &[u32; 4], tiebreak: u8, rng: &mut SmallRng) -> (w: usize)
    ensures
        is_lowest(*times, w as int),
        tiebreak == 0 ==> forall|j: int| w < j < 4 ==> times@[w as int] < #[trigger] times@[j],
        tiebreak == 1 ==> forall|j: int| 0 <= j < w ==> times@[w as int] < #[trigger] times@[j],
{
    if tiebreak == 0 {
        later_wins_ties(times)
    } else if tiebreak == 1 {
        earlier_wins_ties(times)
    } else {
        let first = earlier_wins_ties(times);
        let min_time = times[first];
        let mut tied: Vec<usize> = Vec::new();
        let mut i: usize = 0;
        while i < 4
            invariant
                i <= 4,
                first < 4,
                min_time == times@[first as int],
                is_lowest(*times, first as int),
                first < i ==> tied.len() > 0,
                forall|k: int| 0 <= k < tied.len() ==> #[trigger] tied@[k] < 4 && times@[tied@[k] as int]
                    == min_time,
            decreases 4 - i,
        {
            if times[i] == min_time {
                tied.push(i);
            }
            i = i + 1;
        }
        let k = pick(rng, tied.len());
        tied[k]
    }
}

/// Allergy damage of `na` allergy courses: `na * wo` when flat (mode 1), else
/// the sum of `na` rolls of a `wo`-sided die, where `wo` is the pirate's
/// capped weight offset.
pub fn allergy_damage(pirate: &Pirate, na: u32, max_effect: u32, mode: u8, rng: &mut SmallRng) -> (dmg: u32)
    requires
        na * spec_capped_weight_offset(pirate.weight, max_effect) <= u32::MAX,
    ensures
        ({
            let wo = spec_capped_weight_offset(pirate.weight, max_effect);
            &&& mode == 1 ==> dmg == na * wo
            &&& mode != 1 && wo > 0 ==> na <= dmg <= na * wo
            &&& wo == 0 ==> dmg == 0
        }),
{
    let wo = capped_weight_offset(pirate.weight, max_effect);
    if mode == 1 {
        na * wo
    } else {
        let mut dmg: u32 = 0;
        let mut i: u32 = 0;
        while i < na
            invariant
                i <= na,
                na * wo <= u32::MAX,
                wo > 0 ==> i <= dmg <= i * wo,
                wo == 0 ==> dmg == 0,
            decreases na - i,
        {
            proof {
                assert((i + 1) * wo <= na * wo) by (nonlinear_arith)
                    requires
                        i + 1 <= na,
                ;
                assert((i + 1) * wo == i * wo + wo) by (nonlinear_arith);
            }
            let r = roll(rng, wo);
            dmg = dmg + r;
            i = i + 1;
        }
        dmg
    }
}


// ---------------------------------------------------------------------------
// Life
// ---------------------------------------------------------------------------

/// Strength adjustment of pirate `idx`: its entry of `life_adj`, 0 past the end.
pub open spec fn spec_life_adjustment(life_adj: Seq<i32>, idx: usize) -> int {
    if idx < life_adj.len() {
        life_adj[idx as int] as int
    } else {
        0
    }
}

/// Starting life of a pirate: strength plus its adjustment, never below 0.
pub fn initial_life(strength: u32, life_adj: &[i32], idx: usize) -> (life: u32)
    requires
        strength + spec_life_adjustment(life_adj@, idx) <= i32::MAX,
    ensures
        life as int == if strength + spec_life_adjustment(life_adj@, idx) >= 0 {
            strength + spec_life_adjustment(life_adj@, idx)
        } else {
            0
        },
{
    let adj: i32 = if idx < life_adj.len() {
        life_adj[idx]
    } else {
        0
    };
    let sum: i64 = strength as i64 + adj as i64;
    if sum >= 0 {
        sum as u32
    } else {
        0
    }
}

// ---------------------------------------------------------------------------
// Model 4 arena draws
// ---------------------------------------------------------------------------

/// What Model 4 needs of a pirate in an arena: the die after strength and
/// favourites, the number of allergy courses, and the allergy die.
#[derive(Clone, Copy)]
pub struct Model4Slot {
    pub upper: u32,
    pub na: u32,
    pub wo: u32,
}

/// The Model 4 slot of `pirate` on `courses`.
pub fn model4_slot(pirate: &Pirate, courses: &[usize]) -> (slot: Model4Slot)
    requires
        courses@.len() <= u32::MAX,
    ensures
        slot.upper == spec_iterative_reduce(
            spec_linear_upper(MODEL4_BASE, pirate.strength),
            count_where(courses@, fav_counts(*pirate, 0)),
            MODEL4_FAV_DIV,
        ),
        slot.na == count_where(courses@, alg_counts(*pirate, 0)),
        slot.wo == spec_capped_weight_offset(pirate.weight, MODEL4_MAX_EFFECT),
        1 <= slot.upper <= MODEL4_BASE,
        slot.wo <= MODEL4_MAX_EFFECT,
{
    let (nf, na) = course_counts(pirate, courses, 0);
    let upper = fav_adjusted_upper(pirate.strength, nf);
    let wo = capped_weight_offset(pirate.weight, MODEL4_MAX_EFFECT);
    Model4Slot { upper, na, wo }
}

/// The largest die a slot can reach once every allergy roll has landed.
pub open spec fn slot_max_upper(slot: Model4Slot) -> int {
    slot.upper + slot.na * slot.wo
}

/// A slot whose dice stay small enough for the sums of its rolls.
pub open spec fn slot_fits(slot: Model4Slot) -> bool {
    &&& slot.upper >= 1
    &&& slot_max_upper(slot) * MODEL4_N_ROLLS <= u32::MAX
}

/// A die `u` that the allergy rolls of `slot` can reach (each of the `na`
/// rolls adds between 1 and `wo`; none is made when `wo` is 0), and a `total`
/// that `MODEL4_N_ROLLS` rolls of that die can sum to.
pub open spec fn model4_draw(slot: Model4Slot, u: int, total: int) -> bool {
    &&& (slot.wo > 0 ==> slot.upper + slot.na <= u)
    &&& (slot.wo == 0 ==> u == slot.upper)
    &&& u <= slot_max_upper(slot)
    &&& MODEL4_N_ROLLS <= total <= MODEL4_N_ROLLS * u
}

/// A Model 4 score that `slot` can give: some total of a die that its
/// allergy rolls can reach, divided by `MODEL4_DIVISOR`.
pub open spec fn model4_outcome(slot: Model4Slot, score: int) -> bool {
    exists|u: int, total: int|
        #[trigger] model4_draw(slot, u, total) && score == total / MODEL4_DIVISOR as int
}

/// One Model 4 score: allergy rolls enlarge the die, then the die is rolled
/// `MODEL4_N_ROLLS` times and the total divided by `MODEL4_DIVISOR`.
pub fn model4_score(slot: &Model4Slot, rng: &mut SmallRng) -> (score: u32)
    requires
        slot_fits(*slot),
    ensures
        model4_outcome(*slot, score as int),
        MODEL4_N_ROLLS / MODEL4_DIVISOR <= score <= slot_max_upper(*slot) * MODEL4_N_ROLLS
            / MODEL4_DIVISOR as int,
{
    let mut upper = slot.upper;
    let mut i: u32 = 0;
    while i < slot.na
        invariant
            i <= slot.na,
            slot_fits(*slot),
            slot.upper <= upper <= slot.upper + i * slot.wo,
            slot.wo > 0 ==> slot.upper + i <= upper,
            slot.wo == 0 ==> upper == slot.upper,
        decreases slot.na - i,
    {
        proof {
            assert((i + 1) * slot.wo == i * slot.wo + slot.wo) by (nonlinear_arith);
            assert((i + 1) * slot.wo <= slot.na * slot.wo) by (nonlinear_arith)
                requires
                    i + 1 <= slot.na,
            ;
            assert(slot.upper + slot.na * slot.wo <= u32::MAX) by (nonlinear_arith)
                requires
                    slot_fits(*slot),
            ;
        }
        if slot.wo > 0 {
            upper = upper + die(rng, slot.wo);
        }
        i = i + 1;
    }
    assert(upper <= slot_max_upper(*slot)) by (nonlinear_arith)
        requires
            upper <= slot.upper + slot.na * slot.wo,
    ;
    let mut total: u32 = 0;
    let mut k: u32 = 0;
    while k < MODEL4_N_ROLLS
        invariant
            k <= MODEL4_N_ROLLS,
            1 <= upper <= slot_max_upper(*slot),
            slot_max_upper(*slot) * MODEL4_N_ROLLS <= u32::MAX,
            k <= total <= k * upper,
        decreases MODEL4_N_ROLLS - k,
    {
        proof {
            assert((k + 1) * upper == k * upper + upper) by (nonlinear_arith);
            assert((k + 1) * upper <= slot_max_upper(*slot) * MODEL4_N_ROLLS) by (nonlinear_arith)
                requires
                    k + 1 <= MODEL4_N_ROLLS,
                    upper <= slot_max_upper(*slot),
                    upper >= 1,
            ;
        }
        total = total + die(rng, upper);
        k = k + 1;
    }
    proof {
        assert(total <= slot_max_upper(*slot) * MODEL4_N_ROLLS) by (nonlinear_arith)
            requires
                total <= MODEL4_N_ROLLS * upper,
                upper <= slot_max_upper(*slot),
        ;
        assert(total / MODEL4_DIVISOR <= slot_max_upper(*slot) * MODEL4_N_ROLLS
            / MODEL4_DIVISOR as int) by (nonlinear_arith)
            requires
                total <= slot_max_upper(*slot) * MODEL4_N_ROLLS,
        ;
        assert(model4_draw(*slot, upper as int, total as int));
    }
    total / MODEL4_DIVISOR
}

/// Wins of each position over the arenas `draws`, each holding its four
/// scores; an arena goes to its lowest score, the later position on ties.
pub open spec fn tally_lowest(draws: Seq<Seq<int>>) -> Seq<int>
    decreases draws.len(),
{
    if draws.len() == 0 {
        seq![0int, 0, 0, 0]
    } else {
        let prev = tally_lowest(draws.drop_last());
        let w = later_lowest(draws.last());
        prev.update(w, prev[w] + 1)
    }
}

proof fn lemma_tally_lowest_len(draws: Seq<Seq<int>>)
    ensures
        tally_lowest(draws).len() == 4,
    decreases draws.len(),
{
    if draws.len() > 0 {
        lemma_tally_lowest_len(draws.drop_last());
    }
}

/// `draws` are arenas of four scores that `slots` can give, and `wins` is
/// their tally.
pub open spec fn model4_tally(slots: [Model4Slot; 4], draws: Seq<Seq<int>>, wins: [u32; 4]) -> bool {
    &&& forall|t: int| 0 <= t < draws.len() ==> (#[trigger] draws[t]).len() == 4
    &&& forall|t: int, i: int|
        0 <= t < draws.len() && 0 <= i < 4 ==> model4_outcome(slots@[i], #[trigger] draws[t][i])
    &&& forall|i: int| 0 <= i < 4 ==> #[trigger] wins@[i] == tally_lowest(draws)[i]
}

/// Wins of each position over `trials` Model 4 arenas, the later position
/// winning ties; every trial has exactly one winner.
pub fn model4_win_counts(slots: &[Model4Slot; 4], trials: u32, rng: &mut SmallRng) -> (wins: [u32; 4])
    requires
        forall|i: int| 0 <= i < 4 ==> slot_fits(#[trigger] slots@[i]),
    ensures
        exists|draws: Seq<Seq<int>>| draws.len() == trials && #[trigger] model4_tally(*slots, draws, wins),
        wins@[0] + wins@[1] + wins@[2] + wins@[3] == trials,
{
    let mut wins: [u32; 4] = [0, 0, 0, 0];
    let ghost draws: Seq<Seq<int>> = Seq::empty();
    let mut t: u32 = 0;
    assert(wins@ =~= seq![0u32, 0, 0, 0]);
    while t < trials
        invariant
            t <= trials,
            forall|i: int| 0 <= i < 4 ==> slot_fits(#[trigger] slots@[i]),
            wins@[0] + wins@[1] + wins@[2] + wins@[3] == t,
            draws.len() == t,
            model4_tally(*slots, draws, wins),
        decreases trials - t,
    {
        let s0 = model4_score(&slots[0], rng);
        let s1 = model4_score(&slots[1], rng);
        let s2 = model4_score(&slots[2], rng);
        let s3 = model4_score(&slots[3], rng);
        let scores: [u32; 4] = [s0, s1, s2, s3];
        let w = later_wins_ties(&scores);
        let ghost d = seq![s0 as int, s1 as int, s2 as int, s3 as int];
        proof {
            lemma_tally_lowest_len(draws);
            assert(w as int == later_lowest(d));
            assert(draws.push(d).drop_last() =~= draws);
        }
        let ghost prev = wins;
        wins[w] = wins[w] + 1;
        proof {
            let nd = draws.push(d);
            assert(nd.last() == d);
            assert forall|t2: int, i: int| 0 <= t2 < nd.len() && 0 <= i < 4 implies model4_outcome(
                slots@[i],
                #[trigger] nd[t2][i],
            ) by {
                if t2 < draws.len() {
                    assert(nd[t2] == draws[t2]);
                } else {
                    assert(nd[t2] == d);
                    if i == 0 {
                    } else if i == 1 {
                    } else if i == 2 {
                    } else {
                    }
                }
            }
            assert forall|t2: int| 0 <= t2 < nd.len() implies (#[trigger] nd[t2]).len() == 4 by {
                if t2 < draws.len() {
                    assert(nd[t2] == draws[t2]);
                }
            }
            assert forall|i: int| 0 <= i < 4 implies #[trigger] wins@[i] == tally_lowest(nd)[i] by {
                assert(prev@[i] == tally_lowest(draws)[i]);
            }
            draws = nd;
        }
        t = t + 1;
    }
    wins
}


/// Total of `count` splitmix64 rolls of a die with `sides` sides from
/// `state`, and the state after them.
pub open spec fn roll_total(state: u64, sides: u32, count: nat) -> (int, u64)
    decreases count,
{
    if count == 0 {
        (0, state)
    } else {
        let prev = roll_total(state, sides, (count - 1) as nat);
        let next = hashing::spec_roll(prev.1, sides);
        (prev.0 + next.0, next.1)
    }
}

/// The die of a slot once its allergy rolls from `state` have landed, and
/// the state after them; a slot with no allergy die rolls nothing.
pub open spec fn slot_die(slot: Model4Slot, state: u64) -> (int, u64) {
    if slot.wo > 0 {
        let d = roll_total(state, slot.wo, slot.na as nat);
        (slot.upper + d.0, d.1)
    } else {
        (slot.upper as int, state)
    }
}

/// The Model 4 score of a slot drawn from the splitmix64 stream at `state`,
/// and the state after the draws.
pub open spec fn spec_splitmix_score(slot: Model4Slot, state: u64) -> (int, u64) {
    let die = slot_die(slot, state);
    let t = roll_total(die.1, die.0 as u32, MODEL4_N_ROLLS as nat);
    (t.0 / MODEL4_DIVISOR as int, t.1)
}

/// One Model 4 score drawn from a splitmix64 stream: allergy rolls enlarge
/// the die, then the die is rolled `MODEL4_N_ROLLS` times and the total
/// divided by `MODEL4_DIVISOR`.
pub fn splitmix_score(slot: &Model4Slot, state: &mut u64) -> (score: u32)
    requires
        slot_fits(*slot),
    ensures
        (score as int, *final(state)) == spec_splitmix_score(*slot, *old(state)),
        MODEL4_N_ROLLS / MODEL4_DIVISOR <= score <= slot_max_upper(*slot) * MODEL4_N_ROLLS
            / MODEL4_DIVISOR as int,
{
    let ghost s0 = *state;
    let mut upper = slot.upper;
    let mut i: u32 = 0;
    while i < slot.na
        invariant
            i <= slot.na,
            slot_fits(*slot),
            slot.upper <= upper <= slot.upper + i * slot.wo,
            slot.wo > 0 ==> upper == slot.upper + roll_total(s0, slot.wo, i as nat).0 && *state == roll_total(
                s0,
                slot.wo,
                i as nat,
            ).1,
            slot.wo == 0 ==> upper == slot.upper && *state == s0,
        decreases slot.na - i,
    {
        proof {
            assert((i + 1) * slot.wo == i * slot.wo + slot.wo) by (nonlinear_arith);
            assert((i + 1) * slot.wo <= slot.na * slot.wo) by (nonlinear_arith)
                requires
                    i + 1 <= slot.na,
            ;
            assert(slot.upper + slot.na * slot.wo <= u32::MAX) by (nonlinear_arith)
                requires
                    slot_fits(*slot),
            ;
        }
        if slot.wo > 0 {
            upper = upper + hashing::roll(state, slot.wo);
        }
        i = i + 1;
    }
    assert(upper <= slot_max_upper(*slot)) by (nonlinear_arith)
        requires
            upper <= slot.upper + slot.na * slot.wo,
    ;
    assert(slot_die(*slot, s0) == (upper as int, *state));
    let ghost s1 = *state;
    let mut total: u32 = 0;
    let mut k: u32 = 0;
    while k < MODEL4_N_ROLLS
        invariant
            k <= MODEL4_N_ROLLS,
            1 <= upper <= slot_max_upper(*slot),
            slot_max_upper(*slot) * MODEL4_N_ROLLS <= u32::MAX,
            k <= total <= k * upper,
            total == roll_total(s1, upper, k as nat).0,
            *state == roll_total(s1, upper, k as nat).1,
        decreases MODEL4_N_ROLLS - k,
    {
        proof {
            assert((k + 1) * upper == k * upper + upper) by (nonlinear_arith);
            assert((k + 1) * upper <= slot_max_upper(*slot) * MODEL4_N_ROLLS) by (nonlinear_arith)
                requires
                    k + 1 <= MODEL4_N_ROLLS,
                    upper <= slot_max_upper(*slot),
                    upper >= 1,
            ;
        }
        total = total + hashing::roll(state, upper);
        k = k + 1;
    }
    proof {
        assert(total <= slot_max_upper(*slot) * MODEL4_N_ROLLS) by (nonlinear_arith)
            requires
                total <= MODEL4_N_ROLLS * upper,
                upper <= slot_max_upper(*slot),
        ;
        assert(total / MODEL4_DIVISOR <= slot_max_upper(*slot) * MODEL4_N_ROLLS
            / MODEL4_DIVISOR as int) by (nonlinear_arith)
            requires
                total <= slot_max_upper(*slot) * MODEL4_N_ROLLS,
        ;
    }
    total / MODEL4_DIVISOR
}

/// The four scores of one splitmix64 trial from `state`, and the state after.
pub open spec fn spec_trial(slots: [Model4Slot; 4], state: u64) -> (Seq<int>, u64) {
    let a = spec_splitmix_score(slots@[0], state);
    let b = spec_splitmix_score(slots@[1], a.1);
    let c = spec_splitmix_score(slots@[2], b.1);
    let d = spec_splitmix_score(slots@[3], c.1);
    (seq![a.0, b.0, c.0, d.0], d.1)
}

/// The position of the lowest of four scores, the later one on ties.
pub open spec fn later_lowest(s: Seq<int>) -> int {
    if s[3] <= s[0] && s[3] <= s[1] && s[3] <= s[2] {
        3
    } else if s[2] <= s[0] && s[2] <= s[1] {
        2
    } else if s[1] <= s[0] {
        1
    } else {
        0
    }
}

/// Wins of each position over `trials` splitmix64 trials from `state`, and
/// the state after them.
pub open spec fn spec_win_counts(slots: [Model4Slot; 4], trials: nat, state: u64) -> (Seq<int>, u64)
    decreases trials,
{
    if trials == 0 {
        (seq![0int, 0, 0, 0], state)
    } else {
        let prev = spec_win_counts(slots, (trials - 1) as nat, state);
        let tr = spec_trial(slots, prev.1);
        let w = later_lowest(tr.0);
        (prev.0.update(w, prev.0[w] + 1), tr.1)
    }
}

proof fn lemma_spec_win_counts_len(slots: [Model4Slot; 4], trials: nat, state: u64)
    ensures
        spec_win_counts(slots, trials, state).0.len() == 4,
    decreases trials,
{
    if trials > 0 {
        lemma_spec_win_counts_len(slots, (trials - 1) as nat, state);
    }
}

/// Wins of each position over `trials` Model 4 arenas drawn from a splitmix64
/// stream started at `seed | 1`, the later position winning ties; every trial
/// has exactly one winner.
pub fn splitmix_win_counts(slots: &[Model4Slot; 4], trials: u32, seed: u64) -> (wins: [u32; 4])
    requires
        forall|i: int| 0 <= i < 4 ==> slot_fits(#[trigger] slots@[i]),
    ensures
        forall|i: int| 0 <= i < 4 ==> #[trigger] wins@[i] == spec_win_counts(*slots, trials as nat, seed | 1).0[i],
        wins@[0] + wins@[1] + wins@[2] + wins@[3] == trials,
{
    let mut state: u64 = seed | 1;
    let ghost start = state;
    let mut wins: [u32; 4] = [0, 0, 0, 0];
    let mut t: u32 = 0;
    while t < trials
        invariant
            t <= trials,
            start == seed | 1,
            forall|i: int| 0 <= i < 4 ==> slot_fits(#[trigger] slots@[i]),
            wins@[0] + wins@[1] + wins@[2] + wins@[3] == t,
            forall|i: int| 0 <= i < 4 ==> #[trigger] wins@[i] == spec_win_counts(*slots, t as nat, start).0[i],
            state == spec_win_counts(*slots, t as nat, start).1,
        decreases trials - t,
    {
        proof {
            lemma_spec_win_counts_len(*slots, t as nat, start);
        }
        let ghost before = state;
        let s0 = splitmix_score(&slots[0], &mut state);
        let s1 = splitmix_score(&slots[1], &mut state);
        let s2 = splitmix_score(&slots[2], &mut state);
        let s3 = splitmix_score(&slots[3], &mut state);
        let scores: [u32; 4] = [s0, s1, s2, s3];
        let w = later_wins_ties(&scores);
        proof {
            let tr = spec_trial(*slots, before);
            assert(tr.0 =~= seq![s0 as int, s1 as int, s2 as int, s3 as int]);
            assert(tr.1 == state);
            assert(w as int == later_lowest(tr.0));
        }
        wins[w] = wins[w] + 1;
        t = t + 1;
    }
    wins
}


// ---------------------------------------------------------------------------
// Life-based hypotheses
// ---------------------------------------------------------------------------

/// Hypothesis configurations of the life-based score: weight cap and effect,
/// base die, favourite percentage, zero-food bonus, and a position rule.
#[derive(Clone, Copy)]
pub enum Hypothesis {
    H19 { max_weight: u32, max_effect: u32, base: u32, fav_pct: u32, zv_bonus: u32 },
    H19PosLife {
        max_weight: u32,
        max_effect: u32,
        base: u32,
        fav_pct: u32,
        zv_bonus: u32,
        pos_bonus: u32,
    },
    H19PosMul {
        max_weight: u32,
        max_effect: u32,
        base: u32,
        fav_pct: u32,
        zv_bonus: u32,
        pos_pct: u32,
    },
    H19PosRoll {
        max_weight: u32,
        max_effect: u32,
        base: u32,
        fav_pct: u32,
        zv_bonus: u32,
        pos_bonus: u32,
    },
}

impl Hypothesis {
    /// `(max_weight, max_effect, base, fav_pct, zv_bonus)` of any variant.
    pub open spec fn common(self) -> (u32, u32, u32, u32, u32) {
        match self {
            Hypothesis::H19 { max_weight, max_effect, base, fav_pct, zv_bonus } => (
                max_weight,
                max_effect,
                base,
                fav_pct,
                zv_bonus,
            ),
            Hypothesis::H19PosLife { max_weight, max_effect, base, fav_pct, zv_bonus, .. } => (
                max_weight,
                max_effect,
                base,
                fav_pct,
                zv_bonus,
            ),
            Hypothesis::H19PosMul { max_weight, max_effect, base, fav_pct, zv_bonus, .. } => (
                max_weight,
                max_effect,
                base,
                fav_pct,
                zv_bonus,
            ),
            Hypothesis::H19PosRoll { max_weight, max_effect, base, fav_pct, zv_bonus, .. } => (
                max_weight,
                max_effect,
                base,
                fav_pct,
                zv_bonus,
            ),
        }
    }

    /// Life added for sitting at `pos`: fixed for `H19PosLife`.
    pub open spec fn fixed_position_life(self, pos: u32) -> int {
        match self {
            Hypothesis::H19PosLife { pos_bonus, .. } => pos * pos_bonus,
            _ => 0,
        }
    }

    /// Sides of the die rolled for sitting at `pos`: `H19PosRoll` only.
    pub open spec fn rolled_position_life(self, pos: u32) -> int {
        match self {
            Hypothesis::H19PosRoll { pos_bonus, .. } => pos * pos_bonus,
            _ => 0,
        }
    }
}

/// `r` is a roll of a die with `n` sides: 0 for a die with no sides.
pub open spec fn die_outcome(n: int, r: int) -> bool {
    if n == 0 {
        r == 0
    } else {
        1 <= r <= n
    }
}

/// `d` is the total of `count` rolls of a die with `n` sides.
pub open spec fn dice_total_outcome(count: int, n: int, d: int) -> bool {
    if n == 0 {
        d == 0
    } else {
        count <= d <= count * n
    }
}

/// Rolls that `hypothesis_life` can make: `p` of the position die, `d` the
/// total of `na` rolls of the weight-offset die, and `z` of the zero-food die,
/// which is rolled only when the arena holds none of the pirate's foods.
pub open spec fn hypothesis_life_rolls(pirate: Pirate, nf: u32, na: u32, pos: u32, hyp: Hypothesis, p: int, d: int, z: int) -> bool {
    let (mw, me, _, _, zv) = hyp.common();
    &&& die_outcome(hyp.rolled_position_life(pos), p)
    &&& dice_total_outcome(na as int, spec_weight_offset(pirate.weight, mw, me) as int, d)
    &&& die_outcome(if nf == 0 && na == 0 { zv as int } else { 0 }, z)
}

/// A life that `hypothesis_life` can give: strength and the fixed position
/// life, plus the position roll, minus the weight-offset rolls, plus the
/// zero-food roll.
pub open spec fn hypothesis_life_outcome(pirate: Pirate, nf: u32, na: u32, pos: u32, hyp: Hypothesis, life: int) -> bool {
    exists|p: int, d: int, z: int|
        #[trigger] hypothesis_life_rolls(pirate, nf, na, pos, hyp, p, d, z) && life == pirate.strength
            + hyp.fixed_position_life(pos) + p - d + z
}

/// Life of a pirate under a hypothesis: strength, plus the position rule,
/// minus one roll of the weight-offset die per allergy course, plus one roll
/// of the zero-food die when the arena holds none of its foods.
pub fn hypothesis_life(pirate: &Pirate, nf: u32, na: u32, pos: u32, hyp: Hypothesis, rng: &mut SmallRng) -> (life: i64)
    requires
        hyp.fixed_position_life(pos) <= u32::MAX,
        hyp.rolled_position_life(pos) <= u32::MAX,
        na * spec_weight_offset(pirate.weight, hyp.common().0, hyp.common().1) <= u32::MAX,
    ensures
        ({
            let (mw, me, _, _, zv) = hyp.common();
            let wo = spec_weight_offset(pirate.weight, mw, me);
            let start = pirate.strength + hyp.fixed_position_life(pos);
            let zero_food = if nf == 0 && na == 0 {
                zv as int
            } else {
                0
            };
            &&& start - na * wo <= life <= start + hyp.rolled_position_life(pos) + zero_food
            &&& na == 0 ==> start <= life
        }),
        hypothesis_life_outcome(*pirate, nf, na, pos, hyp, life as int),
{
    let (max_weight, max_effect, zv_bonus) = match hyp {
        Hypothesis::H19 { max_weight, max_effect, zv_bonus, .. } => (max_weight, max_effect, zv_bonus),
        Hypothesis::H19PosLife { max_weight, max_effect, zv_bonus, .. } => (
            max_weight,
            max_effect,
            zv_bonus,
        ),
        Hypothesis::H19PosMul { max_weight, max_effect, zv_bonus, .. } => (
            max_weight,
            max_effect,
            zv_bonus,
        ),
        Hypothesis::H19PosRoll { max_weight, max_effect, zv_bonus, .. } => (
            max_weight,
            max_effect,
            zv_bonus,
        ),
    };
    let wo = weight_offset(pirate.weight, max_weight, max_effect);
    let mut life: i64 = pirate.strength as i64;
    let ghost mut p: int = 0;
    match hyp {
        Hypothesis::H19PosLife { pos_bonus, .. } => {
            life = life + (pos * pos_bonus) as i64;
        },
        Hypothesis::H19PosRoll { pos_bonus, .. } => {
            let r = roll(rng, pos * pos_bonus);
            proof {
                p = r as int;
            }
            life = life + r as i64;
        },
        _ => {},
    }
    assert(die_outcome(hyp.rolled_position_life(pos), p));
    let ghost start = life - p;
    assert(start == pirate.strength + hyp.fixed_position_life(pos));
    let ghost mut d: int = 0;
    let mut i: u32 = 0;
    while i < na
        invariant
            i <= na,
            wo == spec_weight_offset(pirate.weight, hyp.common().0, hyp.common().1),
            na * wo <= u32::MAX,
            start + p <= 2 * (u32::MAX as int),
            start >= 0,
            0 <= p <= hyp.rolled_position_life(pos),
            life == start + p - d,
            dice_total_outcome(i as int, wo as int, d),
            0 <= d <= i * wo,
        decreases na - i,
    {
        proof {
            assert((i + 1) * wo == i * wo + wo) by (nonlinear_arith);
            assert((i + 1) * wo <= na * wo) by (nonlinear_arith)
                requires
                    i + 1 <= na,
            ;
        }
        let r = roll(rng, wo);
        proof {
            d = d + r;
        }
        life = life - r as i64;
        i = i + 1;
    }
    let ghost mut z: int = 0;
    if nf == 0 && na == 0 {
        let r = roll(rng, zv_bonus);
        proof {
            z = r as int;
        }
        life = life + r as i64;
    }
    proof {
        let zero_food = if nf == 0 && na == 0 {
            zv_bonus as int
        } else {
            0
        };
        assert(die_outcome(zero_food, z));
        assert(life == start + p - d + z);
        assert(hypothesis_life_rolls(*pirate, nf, na, pos, hyp, p, d, z));
    }
    life
}

/// The life-based score: minus the total of three rolls of a die with
/// `upper` sides (0 for a die with no sides).
pub fn three_roll_score(upper: u32, rng: &mut SmallRng) -> (score: i64)
    ensures
        upper == 0 ==> score == 0,
        upper > 0 ==> -3 * upper <= score <= -3,
{
    let a = roll(rng, upper) as i64;
    let b = roll(rng, upper) as i64;
    let c = roll(rng, upper) as i64;
    -a - b - c
}

} // verus!
