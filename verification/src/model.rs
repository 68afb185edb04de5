use crate::pirates::Pirate;
use vstd::prelude::*;

verus! {

broadcast use vstd::std_specs::hash::group_hash_axioms;

/// The game's maximum pirate weight, above which weight gives no offset.
pub const MAX_WEIGHT: u32 = 221;

// ---------------------------------------------------------------------------
// Weight offset
// ---------------------------------------------------------------------------

/// Weight offset of a pirate: half the distance below `max_weight`, capped at
/// `max_effect`; zero for pirates at or above `max_weight`.
pub open spec fn spec_weight_offset(pirate_weight: u32, max_weight: u32, max_effect: u32) -> u32 {
    if pirate_weight >= max_weight {
        0
    } else {
        let half = ((max_weight - pirate_weight) / 2) as u32;
        if half <= max_effect {
            half
        } else {
            max_effect
        }
    }
}

/// `min(floor((max_weight - weight) / 2), max_effect)`, or 0 at or above `max_weight`.
pub fn weight_offset(pirate_weight: u32, max_weight: u32, max_effect: u32) -> (wo: u32)
    ensures
        wo == spec_weight_offset(pirate_weight, max_weight, max_effect),
{
    if pirate_weight >= max_weight {
        return 0;
    }
    let half = (max_weight - pirate_weight) / 2;
    if half <= max_effect {
        half
    } else {
        max_effect
    }
}

/// Weight offset against [`MAX_WEIGHT`], where a `max_effect` of 0 means no cap.
pub open spec fn spec_capped_weight_offset(weight: u32, max_effect: u32) -> u32 {
    let w = if weight <= MAX_WEIGHT { weight } else { MAX_WEIGHT };
    let raw = ((MAX_WEIGHT - w) / 2) as u32;
    if max_effect > 0 && max_effect < raw {
        max_effect
    } else {
        raw
    }
}

/// `floor((MAX_WEIGHT - min(weight, MAX_WEIGHT)) / 2)`, capped at `max_effect`
/// unless `max_effect` is 0.
pub fn capped_weight_offset(weight: u32, max_effect: u32) -> (wo: u32)
    ensures
        wo == spec_capped_weight_offset(weight, max_effect),
{
    let w = if weight <= MAX_WEIGHT {
        weight
    } else {
        MAX_WEIGHT
    };
    let raw = (MAX_WEIGHT - w) / 2;
    if max_effect > 0 && max_effect < raw {
        max_effect
    } else {
        raw
    }
}

/// With a positive cap both weight offsets agree; the offset never exceeds a
/// positive cap, is zero for the heaviest pirates, and a heavier pirate never
/// gets a larger offset.
pub proof fn law_weight_offset(w1: u32, w2: u32, max_effect: u32)
    ensures
        max_effect > 0 ==> spec_capped_weight_offset(w1, max_effect) == spec_weight_offset(
            w1,
            MAX_WEIGHT,
            max_effect,
        ),
        max_effect > 0 ==> spec_capped_weight_offset(w1, max_effect) <= max_effect,
        w1 >= MAX_WEIGHT ==> spec_capped_weight_offset(w1, max_effect) == 0,
        w1 <= w2 ==> spec_capped_weight_offset(w2, max_effect) <= spec_capped_weight_offset(
            w1,
            max_effect,
        ),
        w1 <= w2 ==> spec_weight_offset(w2, MAX_WEIGHT, max_effect) <= spec_weight_offset(
            w1,
            MAX_WEIGHT,
            max_effect,
        ),
{
}

// ---------------------------------------------------------------------------
// Favourite / allergy counts
// ---------------------------------------------------------------------------

/// Number of elements of `s` that satisfy `p`.
pub open spec fn count_where(s: Seq<usize>, p: spec_fn(usize) -> bool) -> nat
    decreases s.len(),
{
    if s.len() == 0 {
        0
    } else {
        count_where(s.drop_last(), p) + if p(s.last()) {
            1nat
        } else {
            0nat
        }
    }
}

pub proof fn lemma_count_where_bound(s: Seq<usize>, p: spec_fn(usize) -> bool)
    ensures
        count_where(s, p) <= s.len(),
    decreases s.len(),
{
    if s.len() > 0 {
        lemma_count_where_bound(s.drop_last(), p);
    }
}

/// Counting two predicates that exclude each other counts their union.
pub proof fn lemma_count_where_disjoint(
    s: Seq<usize>,
    p: spec_fn(usize) -> bool,
    q: spec_fn(usize) -> bool,
    r: spec_fn(usize) -> bool,
)
    requires
        forall|c: usize| !(#[trigger] p(c) && q(c)),
        forall|c: usize| #[trigger] r(c) == (p(c) || q(c)),
    ensures
        count_where(s, p) + count_where(s, q) == count_where(s, r),
    decreases s.len(),
{
    if s.len() > 0 {
        lemma_count_where_disjoint(s.drop_last(), p, q, r);
    }
}

/// Counting a predicate that implies another counts no more.
pub proof fn lemma_count_where_implies(
    s: Seq<usize>,
    p: spec_fn(usize) -> bool,
    q: spec_fn(usize) -> bool,
)
    requires
        forall|c: usize| #[trigger] p(c) ==> q(c),
    ensures
        count_where(s, p) <= count_where(s, q),
    decreases s.len(),
{
    if s.len() > 0 {
        lemma_count_where_implies(s.drop_last(), p, q);
    }
}

/// Course `c` is one of the pirate's favourites.
pub open spec fn is_fav(pirate: Pirate, c: usize) -> bool {
    pirate.favorite_courses@.contains(c)
}

/// Course `c` is one of the pirate's allergies.
pub open spec fn is_alg(pirate: Pirate, c: usize) -> bool {
    pirate.allergy_courses@.contains(c)
}

/// Favourites that count under an overlap mode: a course that is both a
/// favourite and an allergy counts as an allergy (0), as a favourite (1), as
/// neither (2), or as both (any other mode).
pub open spec fn fav_counts(pirate: Pirate, overlap_mode: u8) -> spec_fn(usize) -> bool {
    |c: usize|
        is_fav(pirate, c) && (!is_alg(pirate, c) || overlap_mode == 1 || overlap_mode > 2)
}

/// Allergies that count under an overlap mode (see [`fav_counts`]).
pub open spec fn alg_counts(pirate: Pirate, overlap_mode: u8) -> spec_fn(usize) -> bool {
    |c: usize|
        is_alg(pirate, c) && (!is_fav(pirate, c) || overlap_mode == 0 || overlap_mode > 2)
}

/// Courses that are both a favourite and an allergy.
pub open spec fn overlap_counts(pirate: Pirate) -> spec_fn(usize) -> bool {
    |c: usize| is_fav(pirate, c) && is_alg(pirate, c)
}

/// `(favourites, allergies)` among `courses`, counted with the overlap rule
/// of `overlap_mode`: 0 = allergy priority, 1 = favourite priority,
/// 2 = neutral (neither), otherwise both.
pub fn course_counts(pirate: &Pirate, courses: &[usize], overlap_mode: u8) -> (counts: (u32, u32))
    requires
        courses@.len() <= u32::MAX,
    ensures
        counts.0 == count_where(courses@, fav_counts(*pirate, overlap_mode)),
        counts.1 == count_where(courses@, alg_counts(*pirate, overlap_mode)),
{
    let (nf, na, _) = course_counts_overlap(pirate, courses, overlap_mode);
    (nf, na)
}

/// `(favourites, allergies, overlaps)` among `courses`, where overlaps are the
/// courses that are both, and favourites and allergies follow `overlap_mode`
/// as in [`course_counts`].
pub fn course_counts_overlap(pirate: &Pirate, courses: &[usize], overlap_mode: u8) -> (counts: (
    u32,
    u32,
    u32,
))
    requires
        courses@.len() <= u32::MAX,
    ensures
        counts.0 == count_where(courses@, fav_counts(*pirate, overlap_mode)),
        counts.1 == count_where(courses@, alg_counts(*pirate, overlap_mode)),
        counts.2 == count_where(courses@, overlap_counts(*pirate)),
{
    let mut nf: u32 = 0;
    let mut na: u32 = 0;
    let mut ov: u32 = 0;
    let mut i: usize = 0;
    while i < courses.len()
        invariant
            i <= courses@.len() <= u32::MAX,
            nf == count_where(courses@.take(i as int), fav_counts(*pirate, overlap_mode)),
            na == count_where(courses@.take(i as int), alg_counts(*pirate, overlap_mode)),
            ov == count_where(courses@.take(i as int), overlap_counts(*pirate)),
        decreases courses@.len() - i,
    {
        proof {
            lemma_count_where_bound(courses@.take(i as int), fav_counts(*pirate, overlap_mode));
            lemma_count_where_bound(courses@.take(i as int), alg_counts(*pirate, overlap_mode));
            lemma_count_where_bound(courses@.take(i as int), overlap_counts(*pirate));
            assert(courses@.take(i + 1).drop_last() =~= courses@.take(i as int));
        }
        let c = courses[i];
        let is_f = pirate.favorite_courses.contains(&c);
        let is_a = pirate.allergy_courses.contains(&c);
        if is_f && is_a {
            ov = ov + 1;
            if overlap_mode == 0 {
                na = na + 1;
            } else if overlap_mode == 1 {
                nf = nf + 1;
            } else if overlap_mode == 2 {
            } else {
                nf = nf + 1;
                na = na + 1;
            }
        } else if is_a {
            na = na + 1;
        } else if is_f {
            nf = nf + 1;
        }
        i = i + 1;
    }
    assert(courses@.take(courses@.len() as int) =~= courses@);
    (nf, na, ov)
}

/// Under allergy priority a course is never both a counted favourite and a
/// counted allergy, so favourites plus allergies never exceed the courses,
/// and every overlapping course is among the allergies.
pub proof fn law_allergy_priority(pirate: Pirate, courses: Seq<usize>)
    ensures
        count_where(courses, fav_counts(pirate, 0)) + count_where(courses, alg_counts(pirate, 0))
            <= courses.len(),
        count_where(courses, overlap_counts(pirate)) <= count_where(
            courses,
            alg_counts(pirate, 0),
        ),
{
    let any = |c: usize| fav_counts(pirate, 0)(c) || alg_counts(pirate, 0)(c);
    lemma_count_where_disjoint(courses, fav_counts(pirate, 0), alg_counts(pirate, 0), any);
    lemma_count_where_bound(courses, any);
    lemma_count_where_implies(courses, overlap_counts(pirate), alg_counts(pirate, 0));
}


// ---------------------------------------------------------------------------
// Die size
// ---------------------------------------------------------------------------

/// Parameters of the structural model of an arena.
#[derive(Clone, Copy)]
pub struct Params {
    pub base: u32,
    pub n_rolls: u32,
    /// 0=bulk, 1=multiplicative, 2=iterative bulk, 3=fixed constant,
    /// 6..=11 weight- and life-dependent variants
    pub fav_mode: u8,
    /// FAV_DIV for bulk, FAV_PCT for mul
    pub fav_param: u32,
    /// 0=none, 1=mul_after
    pub pos_mode: u8,
    pub pos_step: u32,
    /// 0=later, 1=earlier, 2=random
    pub tiebreak: u8,
    /// 0=none
    pub divisor: u32,
    /// 0=floor, 1=ceil, 2=round, 3=inverse
    pub quant_round: u8,
    /// allergy damage cap per roll (0 = no cap)
    pub max_effect: u32,
    /// 0=roll(1..wo), 1=flat(wo), 2=mul(die*=param^na), 3=pct(die+=na*die*param/100)
    pub allergy_mode: u8,
    pub allergy_param: u32,
    /// minimum weight_offset
    pub wo_min: u32,
    /// cap on number of favorite foods that count (0 = no cap)
    pub max_fav: u32,
    /// 0=linear, 1=exponential, 2=weight bonus, 3=quadratic, 4=sqrt
    pub str_mode: u8,
    pub str_decay: u32,
    /// 0=allergy-priority, 1=fav-priority, 2=neutral, 3=both
    pub overlap_mode: u8,
    /// 0=before-fav (reduce str first), 1=after-fav (apply to die after fav reduction)
    pub allergy_order: u8,
    /// >0: favs add to life instead of reducing die
    pub fav_str_bonus: u32,
    /// wo_min to use for legacy arenas
    pub legacy_wo_min: u32,
}

/// `x`, but at least 1.
pub open spec fn at_least_one(x: int) -> u32 {
    if x >= 1 {
        x as u32
    } else {
        1
    }
}

/// `a.saturating_sub(b).max(1)` for `b` that fits a `u32`.
fn sub_at_least_one(a: u32, b: u32) -> (r: u32)
    ensures
        r == at_least_one(a - b),
{
    let d = a.saturating_sub(b);
    if d >= 1 {
        d
    } else {
        1
    }
}

/// Die size from strength alone: `base - life`, or 1 when life reaches base.
pub open spec fn spec_linear_upper(base: u32, life: u32) -> u32 {
    at_least_one(base - life)
}

/// `base - life` when base exceeds life, else 1.
pub fn linear_upper(base: u32, life: u32) -> (u: u32)
    ensures
        u == spec_linear_upper(base, life),
        u >= 1,
{
    if base > life {
        base - life
    } else {
        1
    }
}

/// `n` rounds of `u -= floor(u / k)`, never going below 1.
pub open spec fn spec_iterative_reduce(u: u32, n: nat, k: u32) -> u32
    decreases n,
{
    if n == 0 {
        u
    } else {
        let prev = spec_iterative_reduce(u, (n - 1) as nat, k);
        at_least_one(prev - prev / k)
    }
}

/// Applies `n` iterative favourite reductions `u -= floor(u / k)` (at least 1).
pub fn iterative_reduce(u: u32, n: u32, k: u32) -> (r: u32)
    requires
        k > 0,
    ensures
        r == spec_iterative_reduce(u, n as nat, k),
{
    let mut r = u;
    let mut i: u32 = 0;
    while i < n
        invariant
            i <= n,
            k > 0,
            r == spec_iterative_reduce(u, i as nat, k),
        decreases n - i,
    {
        let red = r / k;
        r = sub_at_least_one(r, red);
        i = i + 1;
    }
    r
}

/// More favourites never enlarge the die: each further iterative reduction
/// keeps the die at or below its previous size, and at least 1 once any
/// reduction has been applied.
pub proof fn law_iterative_reduce_monotone(u: u32, n: nat, m: nat, k: u32)
    requires
        k > 0,
        n <= m,
    ensures
        spec_iterative_reduce(u, m, k) <= spec_iterative_reduce(u, n, k) || (n == 0 && u == 0),
        m > 0 ==> spec_iterative_reduce(u, m, k) >= 1,
    decreases m - n,
{
    if n < m {
        law_iterative_reduce_monotone(u, n, (m - 1) as nat, k);
        let prev = spec_iterative_reduce(u, (m - 1) as nat, k);
        assert(prev / k <= prev) by (nonlinear_arith)
            requires
                k > 0,
        ;
    }
}

/// Model 4 constants: base die, iterative favourite divisor, number of rolls,
/// score divisor and allergy cap.
pub const MODEL4_BASE: u32 = 120;
pub const MODEL4_FAV_DIV: u32 = 16;
pub const MODEL4_N_ROLLS: u32 = 6;
pub const MODEL4_DIVISOR: u32 = 22;
pub const MODEL4_MAX_EFFECT: u32 = 6;

/// Die size for a pirate after strength and `nf` favourite-course reductions (Model 4).
pub fn fav_adjusted_upper(strength: u32, nf: u32) -> (u: u32)
    ensures
        u == spec_iterative_reduce(spec_linear_upper(MODEL4_BASE, strength), nf as nat, MODEL4_FAV_DIV),
        1 <= u <= spec_linear_upper(MODEL4_BASE, strength),
{
    let upper = linear_upper(MODEL4_BASE, strength);
    proof {
        law_iterative_reduce_monotone(upper, 0, nf as nat, MODEL4_FAV_DIV);
    }
    iterative_reduce(upper, nf, MODEL4_FAV_DIV)
}

/// The inputs of [`fav_reduced_upper`] keep every division defined and every
/// product within `u32`.
pub open spec fn fav_reduce_fits(raw: u32, nf: u32, p: Params, weight: u32, life: u32) -> bool {
    let fp = p.fav_param as int;
    let ap = p.allergy_param as int;
    let r = raw as int;
    let w = weight as int;
    let l = life as int;
    let n = nf as int;
    match p.fav_mode {
        0 => fp > 0 && n * (r / fp) <= u32::MAX,
        1 => true,
        2 => fp > 0,
        3 => n * fp <= u32::MAX,
        6 => fp > 0 && n * (w / fp) <= u32::MAX,
        7 => fp > 0 && ap > 0 && r / fp + w / ap <= u32::MAX && n * (r / fp + w
            / ap) <= u32::MAX,
        8 => fp > 0 && r + w <= u32::MAX && n * ((r + w) / fp) <= u32::MAX,
        9 => fp > 0 && ap > 0 && n * (r / fp) * w <= u64::MAX,
        10 => fp > 0 && ap > 0 && w / fp + r / ap <= u32::MAX && n * (w / fp + r
            / ap) <= u32::MAX,
        11 => fp > 0 && n * (l / fp) <= u32::MAX,
        _ => true,
    }
}

/// Die size after the favourite reduction of `p.fav_mode`. The multiplicative
/// mode (1) multiplies the die by `fav_param / 100` once per favourite: with no
/// favourite, or a factor of exactly 1 or 0, the die is kept or drops to 1;
/// any other factor is a floating-point product, and the result is `None`.
pub open spec fn spec_fav_reduced_upper(raw: u32, nf: u32, p: Params, weight: u32, life: u32) -> Option<u32> {
    let fp = p.fav_param as int;
    let ap = p.allergy_param as int;
    let r = raw as int;
    let w = weight as int;
    let l = life as int;
    let n = nf as int;
    match p.fav_mode {
        0 => Some(at_least_one(r - n * (r / fp))),
        1 => if n == 0 || fp == 100 {
            Some(at_least_one(r))
        } else if fp == 0 {
            Some(1)
        } else {
            None
        },
        2 => Some(spec_iterative_reduce(raw, nf as nat, p.fav_param)),
        3 => Some(at_least_one(r - n * fp)),
        6 => Some(at_least_one(r - n * (w / fp))),
        7 => Some(at_least_one(r - n * (r / fp + w / ap))),
        8 => Some(at_least_one(r - n * ((r + w) / fp))),
        9 => Some(at_least_one(r - ((n * (r / fp) * w / ap) as u32))),
        10 => Some(at_least_one(r - n * (w / fp + r / ap))),
        11 => Some(at_least_one(r - n * (l / fp))),
        _ => Some(at_least_one(raw as int)),
    }
}

/// Applies the favourite reduction of `p.fav_mode` to the die size `raw`.
pub fn fav_reduced_upper(raw: u32, nf: u32, p: &Params, weight: u32, life: u32) -> (u: Option<u32>)
    requires
        fav_reduce_fits(raw, nf, *p, weight, life),
    ensures
        u == spec_fav_reduced_upper(raw, nf, *p, weight, life),
{
    let fp = p.fav_param;
    let ap = p.allergy_param;
    match p.fav_mode {
        0 => {
            let red = raw / fp;
            Some(sub_at_least_one(raw, nf * red))
        },
        1 => if nf == 0 || fp == 100 {
            Some(if raw >= 1 {
                raw
            } else {
                1
            })
        } else if fp == 0 {
            Some(1)
        } else {
            None
        },
        2 => Some(iterative_reduce(raw, nf, fp)),
        3 => Some(sub_at_least_one(raw, nf * fp)),
        6 => {
            let red = weight / fp;
            Some(sub_at_least_one(raw, nf * red))
        },
        7 => {
            let red1 = raw / fp;
            let red2 = weight / ap;
            Some(sub_at_least_one(raw, nf * (red1 + red2)))
        },
        8 => {
            let red = (raw + weight) / fp;
            Some(sub_at_least_one(raw, nf * red))
        },
        9 => {
            let red = raw / fp;
            assert(nf as u64 * red as u64 <= u64::MAX) by (nonlinear_arith)
                requires
                    nf <= u32::MAX,
                    red <= u32::MAX,
            ;
            let prod: u64 = nf as u64 * red as u64 * weight as u64;
            let scaled = #[verifier::truncate] ((prod / ap as u64) as u32);
            Some(sub_at_least_one(raw, scaled))
        },
        10 => {
            let red1 = weight / fp;
            let red2 = raw / ap;
            Some(sub_at_least_one(raw, nf * (red1 + red2)))
        },
        11 => {
            let red = life / fp;
            Some(sub_at_least_one(raw, nf * red))
        },
        _ => Some(if raw >= 1 {
            raw
        } else {
            1
        }),
    }
}

/// The position adjustment keeps its arithmetic within `u32`.
pub open spec fn position_fits(u: u32, pos: usize, p: Params) -> bool {
    p.pos_mode == 1 ==> pos * p.pos_step <= 100 && u * (100 - pos * p.pos_step) <= u32::MAX
}

/// Die size after the position rule: with `pos_mode` 1 the die shrinks by
/// `pos_step` percent per position, never below 1.
pub open spec fn spec_position_upper(u: u32, pos: usize, p: Params) -> u32 {
    if p.pos_mode == 1 {
        at_least_one(u * (100 - pos * p.pos_step) / 100int)
    } else {
        u
    }
}

/// Applies the position rule of `p` to die size `u` at arena position `pos`.
pub fn position_upper(u: u32, pos: usize, p: &Params) -> (r: u32)
    requires
        position_fits(u, pos, *p),
    ensures
        r == spec_position_upper(u, pos, *p),
{
    if p.pos_mode == 1 {
        let pos32 = #[verifier::truncate] (pos as u32);
        if p.pos_step > 0 {
            assert(pos <= 100) by (nonlinear_arith)
                requires
                    pos * p.pos_step <= 100,
                    p.pos_step >= 1,
            ;
            assert(pos32 == pos);
        }
        assert(pos32 * p.pos_step == pos * p.pos_step) by (nonlinear_arith)
            requires
                p.pos_step == 0 || pos32 == pos,
        ;
        let pct = 100 - pos32 * p.pos_step;
        let v = u * pct / 100;
        if v >= 1 {
            v
        } else {
            1
        }
    } else {
        u
    }
}

/// Die size after favourites and position; `None` where the multiplicative
/// favourite mode needs floating point.
pub fn compute_upper(raw_upper: u32, nf: u32, pos: usize, p: &Params, weight: u32, life: u32) -> (u:
    Option<u32>)
    requires
        fav_reduce_fits(raw_upper, nf, *p, weight, life),
        spec_fav_reduced_upper(raw_upper, nf, *p, weight, life) matches Some(v) ==> position_fits(
            v,
            pos,
            *p,
        ),
    ensures
        u == match spec_fav_reduced_upper(raw_upper, nf, *p, weight, life) {
            Some(v) => Some(spec_position_upper(v, pos, *p)),
            None => None,
        },
{
    match fav_reduced_upper(raw_upper, nf, p, weight, life) {
        Some(v) => Some(position_upper(v, pos, p)),
        None => None,
    }
}


/// Favourites and position only ever shrink the die, and never below 1: from
/// a die of at least 1, every favourite reduction that has an integer result
/// lies between 1 and the die, and the position rule, with at most 100 percent
/// taken off, keeps it between 1 and that.
pub proof fn law_upper_shrinks(raw: u32, nf: u32, pos: usize, p: Params, weight: u32, life: u32)
    requires
        raw >= 1,
        fav_reduce_fits(raw, nf, p, weight, life),
        p.pos_mode == 1 ==> pos * p.pos_step <= 100,
    ensures
        spec_fav_reduced_upper(raw, nf, p, weight, life) matches Some(v) ==> 1 <= v <= raw && 1
            <= spec_position_upper(v, pos, p) <= v,
{
    let fp = p.fav_param as int;
    let ap = p.allergy_param as int;
    let r = raw as int;
    let w = weight as int;
    let l = life as int;
    let n = nf as int;
    if p.fav_mode == 0 {
        assert(n * (r / fp) >= 0) by (nonlinear_arith)
            requires
                n >= 0,
                r >= 0,
                fp > 0,
        ;
    } else if p.fav_mode == 2 {
        law_iterative_reduce_monotone(raw, 0, nf as nat, p.fav_param);
        if nf == 0 {
            assert(spec_iterative_reduce(raw, 0, p.fav_param) == raw);
        }
    } else if p.fav_mode == 3 {
        assert(n * fp >= 0) by (nonlinear_arith)
            requires
                n >= 0,
                fp >= 0,
        ;
    } else if p.fav_mode == 6 {
        assert(n * (w / fp) >= 0) by (nonlinear_arith)
            requires
                n >= 0,
                w >= 0,
                fp > 0,
        ;
    } else if p.fav_mode == 7 {
        assert(n * (r / fp + w / ap) >= 0) by (nonlinear_arith)
            requires
                n >= 0,
                r >= 0,
                w >= 0,
                fp > 0,
                ap > 0,
        ;
    } else if p.fav_mode == 8 {
        assert(n * ((r + w) / fp) >= 0) by (nonlinear_arith)
            requires
                n >= 0,
                r >= 0,
                w >= 0,
                fp > 0,
        ;
    } else if p.fav_mode == 10 {
        assert(n * (w / fp + r / ap) >= 0) by (nonlinear_arith)
            requires
                n >= 0,
                r >= 0,
                w >= 0,
                fp > 0,
                ap > 0,
        ;
    } else if p.fav_mode == 11 {
        assert(n * (l / fp) >= 0) by (nonlinear_arith)
            requires
                n >= 0,
                l >= 0,
                fp > 0,
        ;
    }
    if let Some(v) = spec_fav_reduced_upper(raw, nf, p, weight, life) {
        if p.pos_mode == 1 {
            let pct = 100 - pos * p.pos_step;
            assert(v * pct / 100int <= v) by (nonlinear_arith)
                requires
                    0 <= pct <= 100,
                    v >= 1,
            ;
        }
    }
}

/// With no favourite course the die is kept, whatever the favourite mode, and
/// without the position rule nothing else changes it.
pub proof fn law_no_favourite_keeps_die(raw: u32, pos: usize, p: Params, weight: u32, life: u32)
    requires
        raw >= 1,
        fav_reduce_fits(raw, 0, p, weight, life),
    ensures
        spec_fav_reduced_upper(raw, 0, p, weight, life) == Some(raw),
        p.pos_mode != 1 ==> spec_position_upper(raw, pos, p) == raw,
{
    assert(spec_iterative_reduce(raw, 0, p.fav_param) == raw);
    if p.fav_mode == 9 {
        let fp = p.fav_param as int;
        let w = weight as int;
        let ap = p.allergy_param as int;
        assert(0 * (raw as int / fp) * w / ap == 0);
    }
}

/// Die size from strength under `p.str_mode`; `None` for the exponential (1)
/// and square-root (4) modes, which need floating point.
pub open spec fn spec_strength_upper(p: Params, weight: u32, life: u32) -> Option<u32> {
    match p.str_mode {
        1 => None,
        2 => Some(at_least_one(p.base + weight / p.str_decay - life)),
        3 => {
            let s2 = ((life * life) / (p.str_decay as int)) as u32;
            Some(at_least_one(p.base - s2))
        },
        4 => None,
        _ => Some(spec_linear_upper(p.base, life)),
    }
}

/// The strength rule of `p` has its divisions defined and its sums within `u32`.
pub open spec fn strength_fits(p: Params, weight: u32) -> bool {
    (p.str_mode == 2 ==> p.str_decay > 0 && p.base + weight / p.str_decay <= u32::MAX) && (
    p.str_mode == 3 ==> p.str_decay > 0)
}

/// Die size from strength (life) under the strength rule of `p`.
pub fn strength_upper(p: &Params, weight: u32, life: u32) -> (u: Option<u32>)
    requires
        strength_fits(*p, weight),
    ensures
        u == spec_strength_upper(*p, weight, life),
{
    match p.str_mode {
        1 => None,
        2 => {
            let bonus = weight / p.str_decay;
            let base_adj = p.base + bonus;
            Some(sub_at_least_one(base_adj, life))
        },
        3 => {
            assert(life as u64 * life as u64 <= u64::MAX) by (nonlinear_arith)
                requires
                    life <= u32::MAX,
            ;
            let sq: u64 = life as u64 * life as u64;
            let s2 = #[verifier::truncate] ((sq / p.str_decay as u64) as u32);
            Some(sub_at_least_one(p.base, s2))
        },
        4 => None,
        _ => Some(linear_upper(p.base, life)),
    }
}

/// Number of favourites that count: capped at `max_fav` unless it is 0.
pub open spec fn spec_counted_favourites(nf: u32, max_fav: u32) -> u32 {
    if max_fav > 0 && max_fav < nf {
        max_fav
    } else {
        nf
    }
}

pub fn counted_favourites(nf: u32, max_fav: u32) -> (n: u32)
    ensures
        n == spec_counted_favourites(nf, max_fav),
        n <= nf,
{
    if max_fav > 0 && max_fav < nf {
        max_fav
    } else {
        nf
    }
}

/// Weight offset of the model: [`capped_weight_offset`] raised to `p.wo_min`.
pub open spec fn spec_model_weight_offset(weight: u32, p: Params) -> u32 {
    let wo = spec_capped_weight_offset(weight, p.max_effect);
    if wo >= p.wo_min {
        wo
    } else {
        p.wo_min
    }
}

pub fn model_weight_offset(weight: u32, p: &Params) -> (wo: u32)
    ensures
        wo == spec_model_weight_offset(weight, *p),
{
    let wo = capped_weight_offset(weight, p.max_effect);
    if wo >= p.wo_min {
        wo
    } else {
        p.wo_min
    }
}

/// The parameters used for an arena: in legacy arenas a positive
/// `legacy_wo_min` replaces `wo_min`.
pub open spec fn spec_arena_params(p: Params, legacy: bool) -> Params {
    if legacy && p.legacy_wo_min > 0 {
        Params { wo_min: p.legacy_wo_min, ..p }
    } else {
        p
    }
}

pub fn arena_params(p: &Params, legacy: bool) -> (q: Params)
    ensures
        q == spec_arena_params(*p, legacy),
{
    if legacy && p.legacy_wo_min > 0 {
        let mut lp = *p;
        lp.wo_min = p.legacy_wo_min;
        lp
    } else {
        *p
    }
}

/// Life left for the strength rule: allergy damage comes off first when the
/// allergy order is 0, and is applied to the die instead otherwise.
pub open spec fn spec_life_after_allergy(life: u32, dmg: u32, allergy_order: u8) -> u32 {
    if allergy_order == 0 {
        if life >= dmg {
            (life - dmg) as u32
        } else {
            0
        }
    } else {
        life
    }
}

pub fn life_after_allergy(life: u32, dmg: u32, allergy_order: u8) -> (l: u32)
    ensures
        l == spec_life_after_allergy(life, dmg, allergy_order),
{
    if allergy_order == 0 {
        life.saturating_sub(dmg)
    } else {
        life
    }
}

/// Die size after allergy damage when allergies come after favourites
/// (order 1, damage modes 0 and 1): the damage enlarges the die.
pub open spec fn spec_die_after_allergy(u: u32, dmg: u32, p: Params) -> u32 {
    if p.allergy_order == 1 && p.allergy_mode <= 1 {
        at_least_one(u + dmg)
    } else {
        u
    }
}

pub fn die_after_allergy(u: u32, dmg: u32, p: &Params) -> (r: u32)
    requires
        u + dmg <= u32::MAX,
    ensures
        r == spec_die_after_allergy(u, dmg, *p),
{
    if p.allergy_order == 1 && p.allergy_mode <= 1 {
        let v = u + dmg;
        if v >= 1 {
            v
        } else {
            1
        }
    } else {
        u
    }
}

/// Allergy damage taken after the favourite reduction: when it is rolled
/// (mode 0) or flat (mode 1), it enlarges a die of at least 1 by exactly the
/// damage; under any other order or mode the die is left as it is.
pub proof fn law_damage_enlarges_die(u: u32, dmg: u32, p: Params)
    requires
        u + dmg <= u32::MAX,
    ensures
        u >= 1 && p.allergy_order == 1 && (p.allergy_mode == 0 || p.allergy_mode == 1) ==> spec_die_after_allergy(
            u,
            dmg,
            p,
        ) == u + dmg,
        !(p.allergy_order == 1 && (p.allergy_mode == 0 || p.allergy_mode == 1)) ==> spec_die_after_allergy(
            u,
            dmg,
            p,
        ) == u,
        spec_die_after_allergy(u, dmg, p) >= u,
{
}

/// The percentage allergy rule stays within `u64` and `u32`.
pub open spec fn allergy_scale_fits(u: u32, na: u32, p: Params) -> bool {
    p.allergy_mode == 3 && na > 0 ==> na * u * p.allergy_param <= u64::MAX && u + ((na * u
        * p.allergy_param / 100int) as u32) <= u32::MAX
}

/// Die size after the allergy scaling of modes 2 (`None`: a floating-point
/// power) and 3 (`die += floor(na * die * param / 100)`), for `na > 0`.
pub open spec fn spec_allergy_scaled(u: u32, na: u32, p: Params) -> Option<u32> {
    if p.allergy_mode == 2 && na > 0 {
        None
    } else if p.allergy_mode == 3 && na > 0 {
        Some(at_least_one(u + ((na * u * p.allergy_param / 100int) as u32)))
    } else {
        Some(u)
    }
}

pub fn allergy_scaled(u: u32, na: u32, p: &Params) -> (r: Option<u32>)
    requires
        allergy_scale_fits(u, na, *p),
    ensures
        r == spec_allergy_scaled(u, na, *p),
{
    if p.allergy_mode == 2 && na > 0 {
        None
    } else if p.allergy_mode == 3 && na > 0 {
        assert(na as u64 * u as u64 <= u64::MAX) by (nonlinear_arith)
            requires
                na <= u32::MAX,
                u <= u32::MAX,
        ;
        let prod: u64 = na as u64 * u as u64 * p.allergy_param as u64;
        let bonus = #[verifier::truncate] ((prod / 100) as u32);
        let v = u + bonus;
        Some(
            if v >= 1 {
                v
            } else {
                1
            },
        )
    } else {
        Some(u)
    }
}

/// Die size when favourites add to life (`fav_str_bonus > 0`): the bonus
/// `nf * fav_str_bonus` raises life, and the allergy damage either lowers life
/// first (order 0) or enlarges the die after (order 1); then position.
pub open spec fn spec_fav_bonus_upper(p: Params, life: u32, nf: u32, dmg: u32, pos: usize) -> u32 {
    let bonus = nf * p.fav_str_bonus;
    let eff_life = if p.allergy_order == 0 {
        spec_life_after_allergy(life, dmg, 0) + bonus
    } else {
        life + bonus
    };
    let raw = at_least_one(p.base - eff_life);
    let u = if p.allergy_order == 1 {
        at_least_one(raw + dmg)
    } else {
        raw
    };
    spec_position_upper(u, pos, p)
}

/// The favourite-bonus rule stays within `u32`.
pub open spec fn fav_bonus_fits(p: Params, life: u32, nf: u32, dmg: u32, pos: usize) -> bool {
    let bonus = nf * p.fav_str_bonus;
    let raw = at_least_one(
        p.base - (if p.allergy_order == 0 {
            spec_life_after_allergy(life, dmg, 0) + bonus
        } else {
            life + bonus
        }),
    );
    &&& life + bonus <= u32::MAX
    &&& raw + dmg <= u32::MAX
    &&& position_fits(
        if p.allergy_order == 1 {
            at_least_one(raw + dmg)
        } else {
            raw
        },
        pos,
        p,
    )
}

pub fn fav_bonus_upper(p: &Params, life: u32, nf: u32, dmg: u32, pos: usize) -> (u: u32)
    requires
        fav_bonus_fits(*p, life, nf, dmg, pos),
    ensures
        u == spec_fav_bonus_upper(*p, life, nf, dmg, pos),
{
    let bonus = nf * p.fav_str_bonus;
    let eff_life = if p.allergy_order == 0 {
        life.saturating_sub(dmg) + bonus
    } else {
        life + bonus
    };
    let raw = linear_upper(p.base, eff_life);
    let u = if p.allergy_order == 1 {
        raw + dmg
    } else {
        raw
    };
    position_upper(u, pos, p)
}

} // verus!
