use vstd::prelude::*;
use vstd::arithmetic::div_mod::{
    lemma_add_mod_noop, lemma_mod_sub_multiples_vanish, lemma_mul_mod_noop_left, lemma_mul_mod_noop_right, lemma_small_mod,
};
use vstd::arithmetic::mul::lemma_mul_is_associative;
use vstd::set_lib::{lemma_int_range, lemma_len_subset, set_int_range};
use vstd::wrapping::u64_specs::{wrapping_add, wrapping_mul};

verus! {

/// Hash of a day index: two multiply-xorshift rounds.
pub open spec fn spec_hash_day(idx: usize) -> u64 {
    let h1 = wrapping_mul(idx as u64, 0x517cc1b727220a95u64);
    let h2 = h1 ^ (h1 >> 32u64);
    let h3 = wrapping_mul(h2, 0x6c62272e07bb0142u64);
    h3 ^ (h3 >> 32u64)
}

pub fn hash_day(idx: usize) -> (h: u64)
    ensures
        h == spec_hash_day(idx),
{
    let mut h = idx as u64;
    h = h.wrapping_mul(0x517cc1b727220a95);
    h ^= h >> 32;
    h = h.wrapping_mul(0x6c62272e07bb0142);
    h ^= h >> 32;
    h
}

/// Hash combining `a` with `b`.
pub open spec fn spec_hash2(a: u64, b: u64) -> u64 {
    let h1 = wrapping_mul(a ^ 0x9E3779B97F4A7C15u64, 0xBF58476D1CE4E5B9u64);
    let h2 = h1 ^ wrapping_add(b, 0x94D049BB133111EBu64);
    let h3 = wrapping_mul(h2, 0xD6E8FEB86659FD93u64);
    h3 ^ (h3 >> 31u64)
}

pub fn hash2(a: u64, b: u64) -> (h: u64)
    ensures
        h == spec_hash2(a, b),
{
    let mut h = a ^ 0x9E3779B97F4A7C15u64;
    h = h.wrapping_mul(0xBF58476D1CE4E5B9);
    h ^= b.wrapping_add(0x94D049BB133111EB);
    h = h.wrapping_mul(0xD6E8FEB86659FD93);
    h ^ (h >> 31)
}

/// The splitmix64 increment.
pub const SPLITMIX_GAMMA: u64 = 0x9E3779B97F4A7C15;

/// The splitmix64 output function of a state.
pub open spec fn splitmix_mix(state: u64) -> u64 {
    let z1 = wrapping_mul(state ^ (state >> 30u64), 0xBF58476D1CE4E5B9u64);
    let z2 = wrapping_mul(z1 ^ (z1 >> 27u64), 0x94D049BB133111EBu64);
    z2 ^ (z2 >> 31u64)
}

/// splitmix64: advances the state by the golden-ratio increment and returns
/// the mixed new state.
pub fn splitmix(state: &mut u64) -> (r: u64)
    ensures
        *final(state) == wrapping_add(*old(state), SPLITMIX_GAMMA),
        r == splitmix_mix(*final(state)),
{
    *state = state.wrapping_add(0x9E3779B97F4A7C15);
    let mut z = *state;
    z = (z ^ (z >> 30)).wrapping_mul(0xBF58476D1CE4E5B9);
    z = (z ^ (z >> 27)).wrapping_mul(0x94D049BB133111EB);
    z ^ (z >> 31)
}

/// Largest multiple of `sides` that bounds the accepted draws, so that
/// `% sides` has no modulo bias.
pub open spec fn acceptance_limit(sides: u32) -> u64 {
    (u64::MAX - u64::MAX % (sides as u64)) as u64
}

/// The number of distinct `u64` values.
pub open spec fn word_modulus() -> int {
    0x1_0000_0000_0000_0000int
}

/// Multiplying by a constant that has an inverse modulo 2^64 can be undone.
proof fn lemma_mul_inverse(x: int, c: int, ci: int)
    requires
        0 <= x < word_modulus(),
        (c * ci) % word_modulus() == 1,
    ensures
        (((x * c) % word_modulus()) * ci) % word_modulus() == x,
{
    let m = word_modulus();
    lemma_mul_mod_noop_left(x * c, ci, m);
    lemma_mul_is_associative(x, c, ci);
    lemma_mul_mod_noop_right(x, c * ci, m);
    lemma_small_mod(x as nat, m as nat);
}

/// Wrapping multiplication by an odd splitmix constant is injective.
proof fn lemma_wrapping_mul_injective(a: u64, b: u64, c: u64, ci: u64)
    requires
        wrapping_mul(a, c) == wrapping_mul(b, c),
        ((c as int) * (ci as int)) % word_modulus() == 1,
    ensures
        a == b,
{
    lemma_mul_inverse(a as int, c as int, ci as int);
    lemma_mul_inverse(b as int, c as int, ci as int);
}

/// The splitmix64 output function never maps two states to one output.
pub proof fn lemma_mix_injective(a: u64, b: u64)
    requires
        splitmix_mix(a) == splitmix_mix(b),
    ensures
        a == b,
{
    let a1 = a ^ (a >> 30u64);
    let b1 = b ^ (b >> 30u64);
    let a2 = wrapping_mul(a1, 0xBF58476D1CE4E5B9u64);
    let b2 = wrapping_mul(b1, 0xBF58476D1CE4E5B9u64);
    let a3 = a2 ^ (a2 >> 27u64);
    let b3 = b2 ^ (b2 >> 27u64);
    let a4 = wrapping_mul(a3, 0x94D049BB133111EBu64);
    let b4 = wrapping_mul(b3, 0x94D049BB133111EBu64);
    assert(a4 ^ (a4 >> 31u64) == b4 ^ (b4 >> 31u64));
    assert(a4 == b4) by (bit_vector)
        requires
            a4 ^ (a4 >> 31u64) == b4 ^ (b4 >> 31u64),
    ;
    assert((0x94D049BB133111EBint * 0x319642b2d24d8ec3int) % word_modulus() == 1);
    lemma_wrapping_mul_injective(a3, b3, 0x94D049BB133111EBu64, 0x319642b2d24d8ec3u64);
    assert(a2 == b2) by (bit_vector)
        requires
            a2 ^ (a2 >> 27u64) == b2 ^ (b2 >> 27u64),
    ;
    assert((0xBF58476D1CE4E5B9int * 0x96de1b173f119089int) % word_modulus() == 1);
    lemma_wrapping_mul_injective(a1, b1, 0xBF58476D1CE4E5B9u64, 0x96de1b173f119089u64);
    assert(a == b) by (bit_vector)
        requires
            a ^ (a >> 30u64) == b ^ (b >> 30u64),
    ;
}

/// The splitmix64 state after `k` advances from `seed`.
pub open spec fn advance(seed: u64, k: nat) -> u64 {
    ((seed as int + k * (SPLITMIX_GAMMA as int)) % word_modulus()) as u64
}

/// The `k`-th splitmix64 output (counting from 1) of a generator seeded with `seed`.
pub open spec fn draw(seed: u64, k: nat) -> u64 {
    splitmix_mix(advance(seed, k))
}

/// Draw `k` is the first draw from `seed` that falls below the acceptance limit.
pub open spec fn first_accepted(seed: u64, sides: u32, k: nat) -> bool {
    &&& k >= 1
    &&& draw(seed, k) < acceptance_limit(sides)
    &&& forall|i: nat| 1 <= i < k ==> draw(seed, i) >= acceptance_limit(sides)
}

proof fn lemma_advance_step(seed: u64, k: nat)
    ensures
        wrapping_add(advance(seed, k), SPLITMIX_GAMMA) == advance(seed, k + 1),
{
    let m = word_modulus();
    let x = seed as int + k * (SPLITMIX_GAMMA as int);
    let g = SPLITMIX_GAMMA as int;
    let a = x % m;
    lemma_add_mod_noop(x, g, m);
    lemma_small_mod(g as nat, m as nat);
    assert(x + g == seed as int + (k + 1) * g);
    if a + g < m {
        lemma_small_mod((a + g) as nat, m as nat);
    } else {
        lemma_mod_sub_multiples_vanish(a + g, m);
        lemma_small_mod((a + g - m) as nat, m as nat);
    }
}

/// Fewer than 2^64 advances never bring the state back: the increment is odd.
proof fn lemma_advance_distinct(seed: u64, i: nat, j: nat)
    requires
        i < j < word_modulus(),
    ensures
        advance(seed, i) != advance(seed, j),
{
    let m = word_modulus();
    let g = SPLITMIX_GAMMA as int;
    let x = seed as int + i * g;
    let d = j - i;
    let a = x % m;
    let b = (d * g) % m;
    assert(seed as int + j * g == x + d * g) by (nonlinear_arith)
        requires
            d == j - i,
            x == seed as int + i * g,
    ;
    lemma_add_mod_noop(x, d * g, m);
    lemma_small_mod(a as nat, m as nat);
    assert((g * 0xf1de83e19937733dint) % m == 1);
    lemma_mul_inverse(d, g, 0xf1de83e19937733dint);
    if advance(seed, i) == advance(seed, j) {
        assert((a + b) % m == a);
        if a + b < m {
            lemma_small_mod((a + b) as nat, m as nat);
        } else {
            lemma_mod_sub_multiples_vanish(a + b, m);
            lemma_small_mod((a + b - m) as nat, m as nat);
        }
        assert(b == 0);
        assert(d == 0);
    }
}

/// Distinct draws, fewer than 2^64 apart, give distinct outputs.
pub proof fn lemma_draw_distinct(seed: u64, i: nat, j: nat)
    requires
        i < j < word_modulus(),
    ensures
        draw(seed, i) != draw(seed, j),
{
    lemma_advance_distinct(seed, i, j);
    if draw(seed, i) == draw(seed, j) {
        lemma_mix_injective(advance(seed, i), advance(seed, j));
    }
}

/// The die value and the next state of one rejection-sampled roll of a die
/// with `sides` sides from `state`: the first accepted draw decides it.
pub open spec fn spec_roll(state: u64, sides: u32) -> (u32, u64) {
    let k = choose|k: nat| first_accepted(state, sides, k);
    (((draw(state, k) % (sides as u64)) + 1) as u32, advance(state, k))
}

/// At most one draw is the first accepted one.
proof fn lemma_first_accepted_unique(seed: u64, sides: u32, a: nat, b: nat)
    requires
        first_accepted(seed, sides, a),
        first_accepted(seed, sides, b),
    ensures
        a == b,
{
    if a < b {
        assert(draw(seed, a) >= acceptance_limit(sides));
    } else if b < a {
        assert(draw(seed, b) >= acceptance_limit(sides));
    }
}

/// A die roll from a splitmix64 stream: draws at or above the acceptance limit
/// are rejected, and the first accepted draw gives `draw % sides + 1`. The
/// loop ends because distinct draws give distinct outputs and only
/// `u64::MAX % sides + 1` outputs are rejected.
pub fn roll(state: &mut u64, sides: u32) -> (r: u32)
    requires
        sides >= 1,
    ensures
        1 <= r <= sides,
        (r, *final(state)) == spec_roll(*old(state), sides),
        exists|k: nat|
            #![trigger advance(*old(state), k)]
            first_accepted(*old(state), sides, k) && *final(state) == advance(*old(state), k)
                && r == (draw(*old(state), k) % (sides as u64)) + 1,
{
    let ghost seed = *state;
    let ghost mut k: nat = 0;
    let ghost mut seen: Set<int> = Set::empty();
    let s = sides as u64;
    let limit = u64::MAX - (u64::MAX % s);
    let ghost bound: int = (u64::MAX % s) as int + 1;
    proof {
        assert(advance(seed, 0) == seed) by {
            lemma_small_mod(seed as nat, word_modulus() as nat);
        }
        lemma_int_range(limit as int, word_modulus());
    }
    loop
        invariant
            seed == *old(state),
            s == sides as u64,
            sides >= 1,
            limit == acceptance_limit(sides),
            bound == word_modulus() - limit,
            set_int_range(limit as int, word_modulus()).finite(),
            set_int_range(limit as int, word_modulus()).len() == bound,
            *state == advance(seed, k),
            seen.finite(),
            seen.len() == k,
            k <= bound,
            seen.subset_of(set_int_range(limit as int, word_modulus())),
            forall|x: int| #[trigger]
                seen.contains(x) ==> exists|i: nat| 1 <= i <= k && x == draw(seed, i) as int,
            forall|i: nat| 1 <= i <= k ==> draw(seed, i) >= limit,
        decreases bound - k,
    {
        let r = splitmix(state);
        proof {
            lemma_advance_step(seed, k);
        }
        assert(r == draw(seed, k + 1));
        if r < limit {
            assert(first_accepted(seed, sides, k + 1));
            assert((r % s) < s);
            let out = (r % s) as u32 + 1;
            assert(*state == advance(seed, k + 1));
            assert(out == (draw(seed, k + 1) % s) + 1);
            proof {
                let kk = choose|kk: nat| first_accepted(seed, sides, kk);
                lemma_first_accepted_unique(seed, sides, kk, (k + 1) as nat);
            }
            return out;
        }
        proof {
            if seen.contains(r as int) {
                let i = choose|i: nat| 1 <= i <= k && r as int == draw(seed, i) as int;
                lemma_draw_distinct(seed, i, k + 1);
            }
            seen = seen.insert(r as int);
            k = k + 1;
            lemma_len_subset(seen, set_int_range(limit as int, word_modulus()));
        }
    }
}

} // verus!
