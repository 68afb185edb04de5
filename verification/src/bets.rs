use crate::pirates::HistPirate;
use vstd::prelude::*;

verus! {

// ---------------------------------------------------------------------------
// Odds
// ---------------------------------------------------------------------------

/// Effective payout: current odds if available, else opening odds.
pub open spec fn spec_eff_odds(pirate: HistPirate) -> u32 {
    match pirate.current_odds {
        Some(c) => c,
        None => pirate.odds,
    }
}

/// Effective payout: current odds if available, else opening odds.
pub fn eff_odds(pirate: &HistPirate) -> (o: u32)
    ensures
        o == spec_eff_odds(*pirate),
{
    match pirate.current_odds {
        Some(c) => c,
        None => pirate.odds,
    }
}

/// The pirate's odds rose by at least `min_jump` since opening.
pub open spec fn spec_is_jump(pirate: HistPirate, min_jump: u32) -> bool {
    spec_eff_odds(pirate) >= pirate.odds + min_jump
}

pub fn is_jump(pirate: &HistPirate, min_jump: u32) -> (j: bool)
    requires
        pirate.odds + min_jump <= u32::MAX,
    ensures
        j == spec_is_jump(*pirate, min_jump),
{
    eff_odds(pirate) >= pirate.odds + min_jump
}

/// A "+EV anchor": a 2:1 pirate the model backs (`two_backed`, the model
/// probability reaching the strategy's threshold), or a jumped pirate.
pub open spec fn spec_is_anchor(pirate: HistPirate, two_backed: bool, min_jump: u32) -> bool {
    (pirate.odds == 2 && two_backed) || spec_is_jump(pirate, min_jump)
}

pub fn is_anchor(pirate: &HistPirate, two_backed: bool, min_jump: u32) -> (a: bool)
    requires
        pirate.odds + min_jump <= u32::MAX,
    ensures
        a == spec_is_anchor(*pirate, two_backed, min_jump),
{
    (pirate.odds == 2 && two_backed) || is_jump(pirate, min_jump)
}

// ---------------------------------------------------------------------------
// Base-5 bet codes: digit `ai` is 0 when arena `ai` is not used, and
// `pirate index + 1` otherwise.
// ---------------------------------------------------------------------------

/// `base^n`.
pub open spec fn power(base: nat, n: nat) -> nat
    decreases n,
{
    if n == 0 {
        1
    } else {
        base * power(base, (n - 1) as nat)
    }
}

/// `5^n`.
pub open spec fn pow5(n: nat) -> nat {
    power(5, n)
}

/// Digit `ai` of a base-5 bet code.
pub open spec fn digit(code: nat, ai: nat) -> nat {
    (code / pow5(ai)) % 5
}

/// The bet of `code` backs some anchor among the first `n` arenas.
pub open spec fn anchored_upto(anchors: Seq<[bool; 4]>, code: nat, n: int) -> bool {
    exists|ai: int|
        0 <= ai < n && digit(code, ai as nat) != 0 && #[trigger] anchors[ai]@[digit(
            code,
            ai as nat,
        ) - 1]
}

/// The bet of `code` backs some anchor.
pub open spec fn anchored(anchors: Seq<[bool; 4]>, code: nat) -> bool {
    anchored_upto(anchors, code, anchors.len() as int)
}

proof fn lemma_power_positive(base: nat, n: nat)
    requires
        base >= 1,
    ensures
        power(base, n) >= 1,
    decreases n,
{
    if n > 0 {
        lemma_power_positive(base, (n - 1) as nat);
        assert(base * power(base, (n - 1) as nat) >= 1) by (nonlinear_arith)
            requires
                base >= 1,
                power(base, (n - 1) as nat) >= 1,
        ;
    }
}

proof fn lemma_pow5_positive(n: nat)
    ensures
        pow5(n) >= 1,
{
    lemma_power_positive(5, n);
}

/// Dropping the lowest digit in base `base` moves to the next digit.
proof fn lemma_shift_power(code: nat, base: nat, ai: nat)
    requires
        base >= 1,
    ensures
        (code / power(base, ai)) / base == code / power(base, ai + 1),
{
    lemma_power_positive(base, ai);
    vstd::arithmetic::div_mod::lemma_div_denominator(code as int, power(base, ai) as int, base as int);
    assert(power(base, ai + 1) == power(base, ai) * base) by (nonlinear_arith)
        requires
            power(base, ai + 1) == base * power(base, ai),
    ;
}

/// Dropping the lowest base-5 digit moves to the next digit.
proof fn lemma_shift_digit(code: nat, ai: nat)
    ensures
        (code / pow5(ai)) / 5 == code / pow5(ai + 1),
{
    lemma_shift_power(code, 5, ai);
}

/// `5^n`.
fn pow5_exec(n: usize) -> (p: usize)
    requires
        pow5(n as nat) <= usize::MAX,
    ensures
        p == pow5(n as nat),
{
    let mut p: usize = 1;
    let mut i: usize = 0;
    while i < n
        invariant
            i <= n,
            p == pow5(i as nat),
            pow5(n as nat) <= usize::MAX,
        decreases n - i,
    {
        proof {
            lemma_pow5_monotone((i + 1) as nat, n as nat);
            assert(pow5((i + 1) as nat) == 5 * pow5(i as nat));
        }
        p = p * 5;
        i = i + 1;
    }
    p
}

proof fn lemma_pow5_monotone(a: nat, b: nat)
    requires
        a <= b,
    ensures
        pow5(a) <= pow5(b),
    decreases b - a,
{
    if a < b {
        lemma_pow5_monotone(a, (b - 1) as nat);
        lemma_pow5_positive((b - 1) as nat);
        assert(pow5(b) == 5 * pow5((b - 1) as nat));
    }
}

/// Whether the bet of `code` backs an anchor.
fn code_is_anchored(anchors: &Vec<[bool; 4]>, code: usize) -> (a: bool)
    ensures
        a == anchored(anchors@, code as nat),
{
    let n = anchors.len();
    let mut c = code;
    let mut found = false;
    let mut ai: usize = 0;
    assert(pow5(0) == 1);
    while ai < n
        invariant
            ai <= n == anchors.len(),
            c as nat == code as nat / pow5(ai as nat),
            found == anchored_upto(anchors@, code as nat, ai as int),
        decreases n - ai,
    {
        let d = c % 5;
        proof {
            lemma_shift_digit(code as nat, ai as nat);
            assert(d as nat == digit(code as nat, ai as nat));
        }
        if d != 0 && anchors[ai][d - 1] {
            found = true;
        }
        proof {
            if !found {
                assert forall|a: int| 0 <= a < ai + 1 && digit(code as nat, a as nat) != 0 implies !#[trigger] anchors@[a]@[digit(
                    code as nat,
                    a as nat,
                ) - 1] by {
                    if a < ai {
                        assert(!anchored_upto(anchors@, code as nat, ai as int));
                    }
                }
            } else {
                if !anchored_upto(anchors@, code as nat, ai as int) {
                    assert(anchors@[ai as int]@[digit(code as nat, ai as nat) - 1]);
                }
            }
        }
        c = c / 5;
        ai = ai + 1;
    }
    found
}

/// The codes `1..5^n` of the bets that back at least one anchor, ascending:
/// the bets the anchored strategy considers, in the order it enumerates them.
pub fn candidate_codes(anchors: &Vec<[bool; 4]>) -> (codes: Vec<usize>)
    requires
        pow5(anchors.len() as nat) <= usize::MAX,
    ensures
        forall|k: int|
            0 <= k < codes.len() ==> 1 <= #[trigger] codes@[k] < pow5(anchors.len() as nat)
                && anchored(anchors@, codes@[k] as nat),
        forall|k: int, l: int| 0 <= k < l < codes.len() ==> codes@[k] < codes@[l],
        forall|c: usize|
            1 <= c < pow5(anchors.len() as nat) && anchored(anchors@, c as nat) ==> codes@.contains(
                c,
            ),
{
    let total = pow5_exec(anchors.len());
    let mut codes: Vec<usize> = Vec::new();
    let mut code: usize = 1;
    proof {
        lemma_pow5_positive(anchors.len() as nat);
    }
    while code < total
        invariant
            1 <= code <= total || total == 1,
            total == pow5(anchors.len() as nat),
            forall|k: int|
                0 <= k < codes.len() ==> 1 <= #[trigger] codes@[k] < code && anchored(
                    anchors@,
                    codes@[k] as nat,
                ),
            forall|k: int, l: int| 0 <= k < l < codes.len() ==> codes@[k] < codes@[l],
            forall|c: usize| 1 <= c < code && anchored(anchors@, c as nat) ==> codes@.contains(c),
        decreases total - code,
    {
        if code_is_anchored(anchors, code) {
            let ghost old_codes = codes@;
            codes.push(code);
            proof {
                assert(codes@[codes.len() - 1] == code);
                assert forall|c: usize| 1 <= c < code + 1 && anchored(anchors@, c as nat) implies codes@.contains(c) by {
                    if c < code {
                        assert(old_codes.contains(c));
                        let k = choose|k: int| 0 <= k < old_codes.len() && old_codes[k] == c;
                        assert(codes@[k] == c);
                    } else {
                        assert(codes@[codes.len() - 1] == c);
                    }
                }
            }
        }
        code = code + 1;
    }
    codes
}


/// `min(a * b, u32::MAX)`.
pub open spec fn sat_mul(a: u32, b: u32) -> u32 {
    if a * b <= u32::MAX {
        (a * b) as u32
    } else {
        u32::MAX
    }
}

/// `a * b`, saturating at `u32::MAX`.
pub fn saturating_mul(a: u32, b: u32) -> (r: u32)
    ensures
        r == sat_mul(a, b),
{
    assert(a as u64 * b as u64 <= u64::MAX) by (nonlinear_arith)
        requires
            a <= u32::MAX,
            b <= u32::MAX,
    ;
    let p: u64 = a as u64 * b as u64;
    if p > u32::MAX as u64 {
        u32::MAX
    } else {
        p as u32
    }
}

/// Total odds of the legs of `code` among the first `n` arenas, each factor
/// the leg's effective odds, saturating at `u32::MAX`.
pub open spec fn code_odds_upto(arenas: Seq<crate::pirates::HistArena>, code: nat, n: nat) -> u32
    decreases n,
{
    if n == 0 {
        1
    } else {
        let prev = code_odds_upto(arenas, code, (n - 1) as nat);
        let d = digit(code, (n - 1) as nat);
        if d == 0 {
            prev
        } else {
            sat_mul(prev, spec_eff_odds(arenas[n - 1].pirates@[d - 1]))
        }
    }
}

/// Number of legs (non-zero digits) of `code` among the first `n` arenas.
pub open spec fn legs_upto(code: nat, n: nat) -> nat
    decreases n,
{
    if n == 0 {
        0
    } else {
        legs_upto(code, (n - 1) as nat) + if digit(code, (n - 1) as nat) != 0 {
            1nat
        } else {
            0nat
        }
    }
}

/// Every arena has at least four pirates.
pub open spec fn arenas_have_four(arenas: Seq<crate::pirates::HistArena>) -> bool {
    forall|ai: int| 0 <= ai < arenas.len() ==> #[trigger] arenas[ai].pirates.len() >= 4
}

/// `(total odds, legs)` of the bet with base-5 `code` over the day's arenas.
pub fn code_odds(arenas: &Vec<crate::pirates::HistArena>, code: usize) -> (r: (u32, u8))
    requires
        arenas_have_four(arenas@),
        arenas.len() <= u8::MAX,
    ensures
        r.0 == code_odds_upto(arenas@, code as nat, arenas.len() as nat),
        r.1 == legs_upto(code as nat, arenas.len() as nat),
{
    let n = arenas.len();
    let mut c = code;
    let mut odds: u32 = 1;
    let mut legs: u8 = 0;
    let mut ai: usize = 0;
    assert(pow5(0) == 1);
    while ai < n
        invariant
            ai <= n == arenas.len() <= u8::MAX,
            arenas_have_four(arenas@),
            c as nat == code as nat / pow5(ai as nat),
            odds == code_odds_upto(arenas@, code as nat, ai as nat),
            legs == legs_upto(code as nat, ai as nat),
            legs <= ai,
        decreases n - ai,
    {
        let d = c % 5;
        proof {
            lemma_shift_digit(code as nat, ai as nat);
            assert(d as nat == digit(code as nat, ai as nat));
        }
        assert(arenas@[ai as int].pirates.len() >= 4);
        if d != 0 {
            let o = eff_odds(&arenas[ai].pirates[d - 1]);
            odds = saturating_mul(odds, o);
            legs = legs + 1;
        }
        c = c / 5;
        ai = ai + 1;
    }
    (odds, legs)
}

/// Every leg of `code` among the first `n` arenas picked that arena's winner.
pub open spec fn code_hits_upto(code: nat, winners: Seq<usize>, n: int) -> bool {
    forall|ai: int|
        0 <= ai < n && digit(code, ai as nat) != 0 ==> #[trigger] winners[ai] == digit(
            code,
            ai as nat,
        ) - 1
}

/// Whether the bet with base-5 `code` over `n` arenas wins when arena `ai`
/// is won by position `winners[ai]`.
pub fn code_hits(code: usize, winners: &[usize], n: usize) -> (hit: bool)
    requires
        n <= winners@.len(),
    ensures
        hit == code_hits_upto(code as nat, winners@, n as int),
{
    let mut c = code;
    let mut hit = true;
    let mut ai: usize = 0;
    assert(pow5(0) == 1);
    while ai < n
        invariant
            ai <= n <= winners@.len(),
            c as nat == code as nat / pow5(ai as nat),
            hit == code_hits_upto(code as nat, winners@, ai as int),
        decreases n - ai,
    {
        let d = c % 5;
        proof {
            lemma_shift_digit(code as nat, ai as nat);
            assert(d as nat == digit(code as nat, ai as nat));
        }
        if d != 0 && winners[ai] != d - 1 {
            hit = false;
        }
        proof {
            if hit {
                assert forall|a: int| 0 <= a < ai + 1 && digit(code as nat, a as nat) != 0 implies #[trigger] winners@[a]
                    == digit(code as nat, a as nat) - 1 by {
                    if a < ai {
                        assert(code_hits_upto(code as nat, winners@, ai as int));
                    }
                }
            } else {
                if code_hits_upto(code as nat, winners@, ai as int) {
                    assert(winners@[ai as int] != digit(code as nat, ai as nat) - 1);
                }
            }
        }
        c = c / 5;
        ai = ai + 1;
    }
    hit
}

/// The first `n` base-5 digits of a bet code: entry `ai` is 0 when arena
/// `ai` is not used, and the backed pirate's position + 1 otherwise.
pub fn code_digits(code: usize, n: usize) -> (digits: Vec<usize>)
    ensures
        digits.len() == n,
        forall|ai: int| 0 <= ai < n ==> #[trigger] digits@[ai] as nat == digit(code as nat, ai as nat),
        forall|ai: int| 0 <= ai < n ==> #[trigger] digits@[ai] < 5,
{
    let mut digits: Vec<usize> = Vec::new();
    let mut c = code;
    let mut ai: usize = 0;
    assert(pow5(0) == 1);
    while ai < n
        invariant
            ai <= n,
            digits.len() == ai,
            c as nat == code as nat / pow5(ai as nat),
            forall|a: int| 0 <= a < ai ==> #[trigger] digits@[a] as nat == digit(code as nat, a as nat),
            forall|a: int| 0 <= a < ai ==> #[trigger] digits@[a] < 5,
        decreases n - ai,
    {
        proof {
            lemma_shift_digit(code as nat, ai as nat);
        }
        digits.push(c % 5);
        c = c / 5;
        ai = ai + 1;
    }
    digits
}

/// The winning positions of outcome `o` of `n` arenas: digit `ai` of `o` in base 4.
pub fn outcome_winners(o: usize, n: usize) -> (winners: Vec<usize>)
    ensures
        winners.len() == n,
        forall|ai: int|
            0 <= ai < n ==> #[trigger] winners@[ai] as nat == (o as nat / power(4, ai as nat))
                % 4,
{
    let mut winners: Vec<usize> = Vec::new();
    let mut q = o;
    let mut ai: usize = 0;
    assert(power(4, 0) == 1);
    while ai < n
        invariant
            ai <= n,
            winners.len() == ai,
            q as nat == o as nat / power(4, ai as nat),
            forall|a: int|
                0 <= a < ai ==> #[trigger] winners@[a] as nat == (o as nat / power(4, a as nat)) % 4,
        decreases n - ai,
    {
        proof {
            lemma_shift_power(o as nat, 4, ai as nat);
        }
        winners.push(q % 4);
        q = q / 4;
        ai = ai + 1;
    }
    winners
}


// ---------------------------------------------------------------------------
// Bets over chosen arenas
// ---------------------------------------------------------------------------

/// Payout of a bet whose legs have `odds`: the running product, capped at
/// `cap` after every leg.
pub open spec fn spec_capped_payout(odds: Seq<u32>, cap: u32) -> int
    decreases odds.len(),
{
    if odds.len() == 0 {
        1
    } else {
        let prev = spec_capped_payout(odds.drop_last(), cap);
        let v = prev * odds.last();
        if v <= cap {
            v
        } else {
            cap as int
        }
    }
}

/// Every leg's odds times the cap stays within `u32`.
pub open spec fn payout_fits(odds: Seq<u32>, cap: u32) -> bool {
    cap >= 1 && forall|k: int| 0 <= k < odds.len() ==> cap * #[trigger] odds[k] <= u32::MAX
}

proof fn lemma_capped_payout_range(odds: Seq<u32>, cap: u32)
    requires
        cap >= 1,
    ensures
        0 <= spec_capped_payout(odds, cap) <= cap,
        (forall|k: int| 0 <= k < odds.len() ==> #[trigger] odds[k] >= 1) ==> spec_capped_payout(
            odds,
            cap,
        ) >= 1,
    decreases odds.len(),
{
    if odds.len() > 0 {
        lemma_capped_payout_range(odds.drop_last(), cap);
        let prev = spec_capped_payout(odds.drop_last(), cap);
        assert(prev * odds.last() >= 0) by (nonlinear_arith)
            requires
                prev >= 0,
                odds.last() >= 0,
        ;
        if forall|k: int| 0 <= k < odds.len() ==> #[trigger] odds[k] >= 1 {
            assert(odds.drop_last().len() < odds.len());
            assert forall|k: int| 0 <= k < odds.drop_last().len() implies #[trigger] odds.drop_last()[k] >= 1 by {
                assert(odds[k] >= 1);
            }
            assert(odds[odds.len() - 1] >= 1);
            assert(prev * odds.last() >= 1) by (nonlinear_arith)
                requires
                    prev >= 1,
                    odds.last() >= 1,
            ;
        }
    }
}

/// Payout of a bet with legs at `odds`, capped at `cap` after every leg.
pub fn capped_payout(odds: &[u32], cap: u32) -> (payout: u32)
    requires
        payout_fits(odds@, cap),
    ensures
        payout == spec_capped_payout(odds@, cap),
        payout <= cap,
{
    let mut payout: u32 = 1;
    let mut k: usize = 0;
    while k < odds.len()
        invariant
            k <= odds@.len(),
            payout_fits(odds@, cap),
            payout == spec_capped_payout(odds@.take(k as int), cap),
        decreases odds@.len() - k,
    {
        proof {
            lemma_capped_payout_range(odds@.take(k as int), cap);
            assert(odds@.take(k + 1).drop_last() =~= odds@.take(k as int));
            assert(cap * odds@[k as int] <= u32::MAX);
            assert(payout * odds@[k as int] <= cap * odds@[k as int]) by (nonlinear_arith)
                requires
                    payout <= cap,
            ;
        }
        let v = payout * odds[k];
        payout = if v <= cap {
            v
        } else {
            cap
        };
        k = k + 1;
    }
    proof {
        assert(odds@.take(odds@.len() as int) =~= odds@);
        lemma_capped_payout_range(odds@, cap);
    }
    payout
}

/// The capped payout never exceeds the cap, and is at least 1 when every
/// leg pays at least 1.
pub proof fn law_capped_payout(odds: Seq<u32>, cap: u32)
    requires
        cap >= 1,
    ensures
        spec_capped_payout(odds, cap) <= cap,
        (forall|k: int| 0 <= k < odds.len() ==> #[trigger] odds[k] >= 1) ==> spec_capped_payout(
            odds,
            cap,
        ) >= 1,
{
    lemma_capped_payout_range(odds, cap);
}

/// Bit `i` of `mask` is set.
pub open spec fn bit_set(mask: u32, i: u32) -> bool {
    (mask >> i) & 1 == 1
}

/// Indices `i < n` whose bit is set in `mask`, ascending.
pub open spec fn spec_subset(mask: u32, n: nat) -> Seq<usize>
    decreases n,
{
    if n == 0 {
        Seq::empty()
    } else {
        let s = spec_subset(mask, (n - 1) as nat);
        if bit_set(mask, (n - 1) as u32) {
            s.push((n - 1) as usize)
        } else {
            s
        }
    }
}

/// Indices `i < n` of the arenas whose bit is set in `mask`, ascending.
pub fn arena_subset(mask: u32, n: usize) -> (idx: Vec<usize>)
    requires
        n <= 32,
    ensures
        idx@ == spec_subset(mask, n as nat),
        forall|k: int| 0 <= k < idx.len() ==> #[trigger] idx@[k] < n && bit_set(mask, idx@[k] as u32),
        forall|k: int, l: int| 0 <= k < l < idx.len() ==> idx@[k] < idx@[l],
        forall|i: usize| i < n && bit_set(mask, i as u32) ==> idx@.contains(i),
{
    let mut idx: Vec<usize> = Vec::new();
    let mut i: usize = 0;
    while i < n
        invariant
            i <= n <= 32,
            idx@ == spec_subset(mask, i as nat),
            forall|k: int| 0 <= k < idx.len() ==> #[trigger] idx@[k] < i && bit_set(mask, idx@[k] as u32),
            forall|k: int, l: int| 0 <= k < l < idx.len() ==> idx@[k] < idx@[l],
            forall|j: usize| j < i && bit_set(mask, j as u32) ==> idx@.contains(j),
        decreases n - i,
    {
        let b = i as u32;
        let set = mask & (1u32 << b) != 0;
        assert(set == bit_set(mask, b)) by (bit_vector)
            requires
                b < 32,
                set == (mask & (1u32 << b) != 0),
        ;
        if set {
            let ghost old_idx = idx@;
            idx.push(i);
            proof {
                assert forall|j: usize| j < i + 1 && bit_set(mask, j as u32) implies idx@.contains(j) by {
                    if j < i {
                        assert(old_idx.contains(j));
                        let k = choose|k: int| 0 <= k < old_idx.len() && old_idx[k] == j;
                        assert(idx@[k] == j);
                    } else {
                        assert(idx@[idx.len() - 1] == j);
                    }
                }
            }
        }
        i = i + 1;
    }
    idx
}

/// `name` won one of the arenas.
pub open spec fn won_by(arenas: Seq<crate::pirates::HistArena>, name: Seq<char>) -> bool {
    exists|a: int| 0 <= a < arenas.len() && #[trigger] arenas[a].winner@ == name
}

/// Every named pirate won one of the arenas.
pub open spec fn all_won(names: Seq<String>, arenas: Seq<crate::pirates::HistArena>) -> bool {
    forall|k: int| 0 <= k < names.len() ==> won_by(arenas, #[trigger] names[k]@)
}

/// Whether a bet on `pirate_names` won: each of them won one of the arenas.
pub fn bet_won(pirate_names: &Vec<String>, arenas: &Vec<crate::pirates::HistArena>) -> (won: bool)
    ensures
        won == all_won(pirate_names@, arenas@),
{
    let mut k: usize = 0;
    while k < pirate_names.len()
        invariant
            k <= pirate_names.len(),
            forall|j: int| 0 <= j < k ==> won_by(arenas@, #[trigger] pirate_names@[j]@),
        decreases pirate_names.len() - k,
    {
        let mut found = false;
        let mut a: usize = 0;
        while a < arenas.len()
            invariant
                a <= arenas.len(),
                k < pirate_names.len(),
                !found ==> forall|b: int| 0 <= b < a ==> #[trigger] arenas@[b].winner@ != pirate_names@[k as int]@,
                found ==> won_by(arenas@, pirate_names@[k as int]@),
            decreases arenas.len() - a,
        {
            if arenas[a].winner == pirate_names[k] {
                found = true;
            }
            a = a + 1;
        }
        if !found {
            assert(!won_by(arenas@, pirate_names@[k as int]@));
            return false;
        }
        k = k + 1;
    }
    true
}


// ---------------------------------------------------------------------------
// Mixed-radix enumeration of pirate choices: position j counts in base
// sizes[j], the last position being the least significant.
// ---------------------------------------------------------------------------

/// Number of combinations: the product of the sizes.
pub open spec fn combo_count(sizes: Seq<usize>) -> int
    decreases sizes.len(),
{
    if sizes.len() == 0 {
        1
    } else {
        combo_count(sizes.drop_last()) * sizes.last()
    }
}

/// Rank of a combination in the enumeration order.
pub open spec fn combo_rank(combo: Seq<usize>, sizes: Seq<usize>) -> int
    decreases combo.len(),
{
    if combo.len() == 0 || sizes.len() == 0 {
        0
    } else {
        combo_rank(combo.drop_last(), sizes.drop_last()) * sizes.last() + combo.last()
    }
}

/// Every position is a valid choice.
pub open spec fn combo_valid(combo: Seq<usize>, sizes: Seq<usize>) -> bool {
    combo.len() == sizes.len() && forall|j: int| 0 <= j < combo.len() ==> #[trigger] combo[j]
        < sizes[j]
}

proof fn lemma_combo_count_nonneg(sizes: Seq<usize>)
    ensures
        combo_count(sizes) >= 0,
    decreases sizes.len(),
{
    if sizes.len() > 0 {
        lemma_combo_count_nonneg(sizes.drop_last());
        let c = combo_count(sizes.drop_last());
        let l = sizes.last() as int;
        assert(c * l >= 0) by (nonlinear_arith)
            requires
                c >= 0,
                l >= 0,
        ;
    }
}

/// Rank splits over a concatenation.
proof fn lemma_rank_split(a: Seq<usize>, sa: Seq<usize>, b: Seq<usize>, sb: Seq<usize>)
    requires
        a.len() == sa.len(),
        b.len() == sb.len(),
    ensures
        combo_rank(a + b, sa + sb) == combo_rank(a, sa) * combo_count(sb) + combo_rank(b, sb),
    decreases b.len(),
{
    if b.len() == 0 {
        assert(a + b =~= a);
        assert(sa + sb =~= sa);
    } else {
        lemma_rank_split(a, sa, b.drop_last(), sb.drop_last());
        assert((a + b).drop_last() =~= a + b.drop_last());
        assert((sa + sb).drop_last() =~= sa + sb.drop_last());
        let ra = combo_rank(a, sa);
        let cb = combo_count(sb.drop_last());
        let rb = combo_rank(b.drop_last(), sb.drop_last());
        let l = sb.last() as int;
        assert((ra * cb + rb) * l == ra * (cb * l) + rb * l) by (nonlinear_arith);
    }
}

/// Count splits over a concatenation.
proof fn lemma_count_split(sa: Seq<usize>, sb: Seq<usize>)
    ensures
        combo_count(sa + sb) == combo_count(sa) * combo_count(sb),
    decreases sb.len(),
{
    if sb.len() == 0 {
        assert(sa + sb =~= sa);
    } else {
        lemma_count_split(sa, sb.drop_last());
        assert((sa + sb).drop_last() =~= sa + sb.drop_last());
        let ca = combo_count(sa);
        let cb = combo_count(sb.drop_last());
        let l = sb.last() as int;
        assert((ca * cb) * l == ca * (cb * l)) by (nonlinear_arith);
    }
}

/// A valid combination ranks below the count.
pub(crate) proof fn lemma_rank_bound(c: Seq<usize>, s: Seq<usize>)
    requires
        combo_valid(c, s),
    ensures
        0 <= combo_rank(c, s) < combo_count(s),
    decreases c.len(),
{
    if c.len() > 0 {
        assert(combo_valid(c.drop_last(), s.drop_last()));
        lemma_rank_bound(c.drop_last(), s.drop_last());
        let r = combo_rank(c.drop_last(), s.drop_last());
        let n = combo_count(s.drop_last());
        let l = s.last() as int;
        let x = c.last() as int;
        assert(c[c.len() - 1] < s[s.len() - 1]);
        assert(r * l + x < n * l) by (nonlinear_arith)
            requires
                0 <= r < n,
                0 <= x < l,
        ;
        assert(r * l + x >= 0) by (nonlinear_arith)
            requires
                0 <= r,
                0 <= x,
                0 <= l,
        ;
    }
}

/// All-zero combinations rank 0; all-last combinations rank count - 1.
pub(crate) proof fn lemma_rank_extremes(c: Seq<usize>, s: Seq<usize>)
    requires
        c.len() == s.len(),
    ensures
        (forall|j: int| 0 <= j < c.len() ==> #[trigger] c[j] == 0) ==> combo_rank(c, s) == 0,
        (forall|j: int| 0 <= j < c.len() ==> #[trigger] c[j] + 1 == s[j]) ==> combo_rank(c, s)
            == combo_count(s) - 1,
    decreases c.len(),
{
    if c.len() > 0 {
        lemma_rank_extremes(c.drop_last(), s.drop_last());
        if forall|j: int| 0 <= j < c.len() ==> #[trigger] c[j] == 0 {
            assert forall|j: int| 0 <= j < c.drop_last().len() implies #[trigger] c.drop_last()[j] == 0 by {
                assert(c[j] == 0);
            }
            assert(c[c.len() - 1] == 0);
        }
        if forall|j: int| 0 <= j < c.len() ==> #[trigger] c[j] + 1 == s[j] {
            assert forall|j: int| 0 <= j < c.drop_last().len() implies #[trigger] c.drop_last()[j] + 1
                == s.drop_last()[j] by {
                assert(c[j] + 1 == s[j]);
            }
            assert(c[c.len() - 1] + 1 == s[s.len() - 1]);
            let n = combo_count(s.drop_last());
            let l = s.last() as int;
            assert((n - 1) * l + (l - 1) == n * l - 1) by (nonlinear_arith);
        }
    }
}

/// Advances `combo` to the next combination in enumeration order. Returns
/// `true` (a carry out of the first position) when `combo` was the last one,
/// in which case it wraps around to all zeros.
pub fn next_combo(combo: &mut Vec<usize>, sizes: &Vec<usize>) -> (carry: bool)
    requires
        combo_valid(old(combo)@, sizes@),
    ensures
        combo_valid(final(combo)@, sizes@),
        !carry ==> combo_rank(final(combo)@, sizes@) == combo_rank(old(combo)@, sizes@) + 1,
        carry ==> combo_rank(old(combo)@, sizes@) + 1 == combo_count(sizes@),
        carry ==> forall|j: int| 0 <= j < final(combo)@.len() ==> #[trigger] final(combo)@[j] == 0,
{
    let ghost old_c = combo@;
    let n = combo.len();
    let mut j: usize = n;
    while j > 0
        invariant
            j <= n == combo.len() == sizes.len() == old_c.len(),
            old_c == old(combo)@,
            combo_valid(old_c, sizes@),
            forall|k: int| 0 <= k < j ==> #[trigger] combo@[k] == old_c[k],
            forall|k: int| j <= k < n ==> #[trigger] combo@[k] == 0,
            forall|k: int| j <= k < n ==> #[trigger] old_c[k] + 1 == sizes@[k],
        decreases j,
    {
        let k = j - 1;
        assert(old_c[k as int] < sizes@[k as int]);
        if combo[k] + 1 < sizes[k] {
            combo.set(k, combo[k] + 1);
            proof {
                let s = sizes@;
                let head = old_c.take(k as int);
                let sh = s.take(k as int);
                let mid_old = seq![old_c[k as int]];
                let mid_new = seq![combo@[k as int]];
                let sm = seq![s[k as int]];
                let tail_old = old_c.skip(k + 1);
                let tail_new = combo@.skip(k + 1);
                let st = s.skip(k + 1);
                assert(old_c =~= head + mid_old + tail_old);
                assert(combo@ =~= head + mid_new + tail_new);
                assert(s =~= sh + sm + st);
                lemma_rank_split(head + mid_old, sh + sm, tail_old, st);
                lemma_rank_split(head + mid_new, sh + sm, tail_new, st);
                lemma_rank_extremes(tail_old, st);
                lemma_rank_extremes(tail_new, st);
                assert((head + mid_old).drop_last() =~= head);
                assert((head + mid_new).drop_last() =~= head);
                assert((sh + sm).drop_last() =~= sh);
                let rh = combo_rank(head, sh);
                let l = s[k as int] as int;
                let ct = combo_count(st);
                let x = old_c[k as int] as int;
                assert((head + mid_old).last() == old_c[k as int]);
                assert((head + mid_new).last() == combo@[k as int]);
                assert((sh + sm).last() == s[k as int]);
                assert(combo_rank(head + mid_old, sh + sm) == rh * l + x);
                assert(combo_rank(head + mid_new, sh + sm) == rh * l + x + 1);
                assert(forall|q: int| 0 <= q < tail_new.len() ==> #[trigger] tail_new[q] == 0);
                assert(forall|q: int| 0 <= q < tail_old.len() ==> #[trigger] tail_old[q] + 1 == st[q]);
                assert((rh * l + x + 1) * ct + 0 == (rh * l + x) * ct + (ct - 1) + 1) by (nonlinear_arith);
                assert(combo_rank(tail_old, st) == ct - 1);
                assert(combo_rank(tail_new, st) == 0);
                assert(combo_rank(old_c, s) == (rh * l + x) * ct + (ct - 1));
                assert(combo_rank(combo@, s) == (rh * l + x + 1) * ct + 0);
                assert(combo_rank(combo@, sizes@) == combo_rank(old_c, sizes@) + 1);
                assert forall|q: int| 0 <= q < combo@.len() implies #[trigger] combo@[q] < sizes@[q] by {
                    assert(old_c[q] < sizes@[q]);
                }
            }
            return false;
        }
        combo.set(k, 0);
        j = k;
    }
    proof {
        lemma_rank_extremes(old_c, sizes@);
        assert forall|q: int| 0 <= q < combo@.len() implies #[trigger] combo@[q] < sizes@[q] by {
            assert(old_c[q] < sizes@[q]);
        }
    }
    true
}

/// Distinct valid combinations have distinct ranks, so stepping with
/// `next_combo` from the all-zero combination visits every combination of
/// `sizes` exactly once before the carry.
pub proof fn law_rank_injective(a: Seq<usize>, b: Seq<usize>, sizes: Seq<usize>)
    requires
        combo_valid(a, sizes),
        combo_valid(b, sizes),
        combo_rank(a, sizes) == combo_rank(b, sizes),
    ensures
        a == b,
    decreases sizes.len(),
{
    if sizes.len() > 0 {
        let a0 = a.drop_last();
        let b0 = b.drop_last();
        let s0 = sizes.drop_last();
        assert(combo_valid(a0, s0));
        assert(combo_valid(b0, s0));
        lemma_rank_bound(a0, s0);
        lemma_rank_bound(b0, s0);
        let ra = combo_rank(a0, s0);
        let rb = combo_rank(b0, s0);
        let l = sizes.last() as int;
        let x = a.last() as int;
        let y = b.last() as int;
        assert(a[a.len() - 1] < sizes[sizes.len() - 1]);
        assert(b[b.len() - 1] < sizes[sizes.len() - 1]);
        assert(ra == rb && x == y) by (nonlinear_arith)
            requires
                ra * l + x == rb * l + y,
                0 <= x < l,
                0 <= y < l,
                ra >= 0,
                rb >= 0,
        ;
        law_rank_injective(a0, b0, s0);
        assert(a =~= a0.push(a.last()));
        assert(b =~= b0.push(b.last()));
    } else {
        assert(a =~= b);
    }
}

} // verus!
