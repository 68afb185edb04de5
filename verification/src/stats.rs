use crate::hashing::{hash2, spec_hash2};
use crate::model::{is_alg, is_fav, spec_capped_weight_offset, capped_weight_offset, MODEL4_MAX_EFFECT};
use crate::pirates::{HistArena, Pirate};
use vstd::prelude::*;

verus! {

// ---------------------------------------------------------------------------
// Odds ordering within an arena
// ---------------------------------------------------------------------------

/// Element `i` is at most the next one.
pub open spec fn rises_at(v: Seq<u32>, i: int) -> bool {
    v[i] <= v[i + 1]
}

/// Element `i` is at least the next one.
pub open spec fn falls_at(v: Seq<u32>, i: int) -> bool {
    v[i] >= v[i + 1]
}

/// Each element is at most the next one.
pub open spec fn spec_non_decreasing(v: Seq<u32>) -> bool {
    forall|i: int| 0 <= i < v.len() - 1 ==> #[trigger] rises_at(v, i)
}

/// Each element is at least the next one.
pub open spec fn spec_non_increasing(v: Seq<u32>) -> bool {
    forall|i: int| 0 <= i < v.len() - 1 ==> #[trigger] falls_at(v, i)
}

/// Whether every adjacent pair is in ascending (non-decreasing) order.
pub fn non_decreasing(v: &[u32]) -> (r: bool)
    ensures
        r == spec_non_decreasing(v@),
{
    if v.len() == 0 {
        return true;
    }
    let mut i: usize = 1;
    while i < v.len()
        invariant
            1 <= i <= v@.len(),
            forall|j: int| 0 <= j < i - 1 ==> #[trigger] rises_at(v@, j),
        decreases v@.len() - i,
    {
        if v[i - 1] > v[i] {
            assert(!rises_at(v@, i - 1));
            return false;
        }
        i = i + 1;
    }
    true
}

/// Whether every adjacent pair is in descending (non-increasing) order.
pub fn non_increasing(v: &[u32]) -> (r: bool)
    ensures
        r == spec_non_increasing(v@),
{
    if v.len() == 0 {
        return true;
    }
    let mut i: usize = 1;
    while i < v.len()
        invariant
            1 <= i <= v@.len(),
            forall|j: int| 0 <= j < i - 1 ==> #[trigger] falls_at(v@, j),
        decreases v@.len() - i,
    {
        if v[i - 1] < v[i] {
            assert(!falls_at(v@, i - 1));
            return false;
        }
        i = i + 1;
    }
    true
}

/// Adjacent order spreads to every pair.
proof fn lemma_non_decreasing_pairs(v: Seq<u32>, i: int, j: int)
    requires
        spec_non_decreasing(v),
        0 <= i <= j < v.len(),
    ensures
        v[i] <= v[j],
    decreases j - i,
{
    if i < j {
        lemma_non_decreasing_pairs(v, i, j - 1);
        assert(rises_at(v, j - 1));
    }
}

proof fn lemma_non_increasing_pairs(v: Seq<u32>, i: int, j: int)
    requires
        spec_non_increasing(v),
        0 <= i <= j < v.len(),
    ensures
        v[i] >= v[j],
    decreases j - i,
{
    if i < j {
        lemma_non_increasing_pairs(v, i, j - 1);
        assert(falls_at(v, j - 1));
    }
}

/// Odds are both ascending and descending exactly when they are all equal.
pub proof fn law_sorted_both_ways(v: Seq<u32>)
    ensures
        (spec_non_decreasing(v) && spec_non_increasing(v)) <==> (forall|i: int, j: int|
            0 <= i < v.len() && 0 <= j < v.len() ==> #[trigger] v[i] == #[trigger] v[j]),
{
    if spec_non_decreasing(v) && spec_non_increasing(v) {
        assert forall|i: int, j: int| 0 <= i < v.len() && 0 <= j < v.len() implies #[trigger] v[i]
            == #[trigger] v[j] by {
            if i <= j {
                lemma_non_decreasing_pairs(v, i, j);
                lemma_non_increasing_pairs(v, i, j);
            } else {
                lemma_non_decreasing_pairs(v, j, i);
                lemma_non_increasing_pairs(v, j, i);
            }
        }
    }
    if forall|i: int, j: int| 0 <= i < v.len() && 0 <= j < v.len() ==> #[trigger] v[i] == #[trigger] v[j] {
        assert forall|i: int| 0 <= i < v.len() - 1 implies #[trigger] rises_at(v, i) by {
            assert(v[i] == v[i + 1]);
        }
        assert forall|i: int| 0 <= i < v.len() - 1 implies #[trigger] falls_at(v, i) by {
            assert(v[i] == v[i + 1]);
        }
    }
}

/// Position of the lowest odds (the strongest pirate), the first on ties.
pub fn first_lowest_position(v: &[u32]) -> (pos: usize)
    requires
        v@.len() > 0,
    ensures
        pos < v@.len(),
        forall|j: int| 0 <= j < v@.len() ==> v@[pos as int] <= #[trigger] v@[j],
        forall|j: int| 0 <= j < pos ==> v@[pos as int] < #[trigger] v@[j],
{
    let mut pos: usize = 0;
    let mut i: usize = 1;
    while i < v.len()
        invariant
            1 <= i <= v@.len(),
            pos < i,
            forall|j: int| 0 <= j < i ==> v@[pos as int] <= #[trigger] v@[j],
            forall|j: int| 0 <= j < pos ==> v@[pos as int] < #[trigger] v@[j],
        decreases v@.len() - i,
    {
        if v[i] < v[pos] {
            pos = i;
        }
        i = i + 1;
    }
    pos
}

/// Number of positions `j` with `i < j < j_end` whose odds exceed those at `i`.
pub open spec fn higher_after(v: Seq<u32>, i: int, j_end: int) -> int
    decreases j_end - i,
{
    if j_end <= i + 1 {
        0
    } else {
        higher_after(v, i, j_end - 1) + if v[j_end - 1] > v[i] {
            1int
        } else {
            0int
        }
    }
}

/// Number of pairs `i < j` with `i < i_end` where the later position has
/// higher odds.
pub open spec fn higher_pairs(v: Seq<u32>, i_end: int) -> int
    decreases i_end,
{
    if i_end <= 0 {
        0
    } else {
        higher_pairs(v, i_end - 1) + higher_after(v, i_end - 1, v.len() as int)
    }
}

proof fn lemma_higher_after_bound(v: Seq<u32>, i: int, j_end: int)
    ensures
        0 <= higher_after(v, i, j_end) <= if j_end > i + 1 {
            j_end - i - 1
        } else {
            0
        },
    decreases j_end - i,
{
    if j_end > i + 1 {
        lemma_higher_after_bound(v, i, j_end - 1);
    }
}

/// `(pairs where the later position has higher odds, all pairs)` over the
/// positions of one arena; twice the number of pairs is `n * (n - 1)`.
pub fn later_higher_pairs(v: &[u32]) -> (r: (u64, u64))
    requires
        v@.len() <= u32::MAX,
    ensures
        r.0 == higher_pairs(v@, v@.len() as int),
        2 * r.1 == v@.len() * (v@.len() - 1),
        r.0 <= r.1,
{
    let n = v.len();
    let mut higher: u64 = 0;
    let mut pairs: u64 = 0;
    let mut i: usize = 0;
    while i < n
        invariant
            i <= n == v@.len() <= u32::MAX,
            2 * pairs == i * (2 * n - i - 1),
            pairs <= i * n,
            higher <= pairs,
            higher == higher_pairs(v@, i as int),
        decreases n - i,
    {
        let mut j: usize = i + 1;
        assert(i * n + n <= u64::MAX) by (nonlinear_arith)
            requires
                i < n <= u32::MAX,
        ;
        while j < n
            invariant
                i < n == v@.len() <= u32::MAX,
                i + 1 <= j <= n,
                2 * pairs == i * (2 * n - i - 1) + 2 * (j - i - 1),
                pairs <= i * n + (j - i - 1),
                i * n + n <= u64::MAX,
                higher <= pairs,
                higher == higher_pairs(v@, i as int) + higher_after(v@, i as int, j as int),
            decreases n - j,
        {
            proof {
                lemma_higher_after_bound(v@, i as int, j as int);
            }
            pairs = pairs + 1;
            if v[j] > v[i] {
                higher = higher + 1;
            }
            j = j + 1;
        }
        proof {
            assert(i * (2 * n - i - 1) + 2 * (n - i - 1) == (i + 1) * (2 * n - (i + 1) - 1)) by (nonlinear_arith);
            assert(i * n + (n - i - 1) <= (i + 1) * n) by (nonlinear_arith);
        }
        i = i + 1;
    }
    (higher, pairs)
}

// ---------------------------------------------------------------------------
// Odds clamps
// ---------------------------------------------------------------------------

/// Which clamped odds an arena shows: the 2:1 lower clamp and/or the 13:1
/// upper clamp.
#[derive(Clone, Copy, Debug, PartialEq, Eq, Structural)]
pub enum ClampClass {
    NoClamp,
    ThirteenOnly,
    TwoNoThirteen,
    TwoAndThirteen,
}

pub open spec fn has_odds(odds: [u32; 4], o: u32) -> bool {
    exists|i: int| 0 <= i < 4 && #[trigger] odds@[i] == o
}

/// The clamp class of an arena's odds.
pub fn clamp_class(odds: &[u32; 4]) -> (c: ClampClass)
    ensures
        c == match (has_odds(*odds, 2), has_odds(*odds, 13)) {
            (false, false) => ClampClass::NoClamp,
            (false, true) => ClampClass::ThirteenOnly,
            (true, false) => ClampClass::TwoNoThirteen,
            (true, true) => ClampClass::TwoAndThirteen,
        },
{
    let mut has2 = false;
    let mut has13 = false;
    let mut i: usize = 0;
    while i < 4
        invariant
            i <= 4,
            has2 == exists|j: int| 0 <= j < i && #[trigger] odds@[j] == 2,
            has13 == exists|j: int| 0 <= j < i && #[trigger] odds@[j] == 13,
        decreases 4 - i,
    {
        if odds[i] == 2 {
            has2 = true;
        }
        if odds[i] == 13 {
            has13 = true;
        }
        i = i + 1;
    }
    match (has2, has13) {
        (false, false) => ClampClass::NoClamp,
        (false, true) => ClampClass::ThirteenOnly,
        (true, false) => ClampClass::TwoNoThirteen,
        (true, true) => ClampClass::TwoAndThirteen,
    }
}


// ---------------------------------------------------------------------------
// Tallies of pirate appearances and wins over historical arenas
// ---------------------------------------------------------------------------

/// One pirate slot of a historical arena: pirate name, whether that pirate
/// won, its position in the arena, the arena's index within its day, and the
/// pirate's opening odds.
pub struct Slot {
    pub name: Seq<char>,
    pub won: bool,
    pub pos: int,
    pub arena: int,
    pub odds: int,
}

/// The slots of arena number `ai` of a day, in position order.
pub open spec fn arena_slots(a: HistArena, ai: int) -> Seq<Slot> {
    Seq::new(
        a.pirates@.len(),
        |i: int|
            Slot {
                name: a.pirates@[i].name@,
                won: a.pirates@[i].name@ == a.winner@,
                pos: i,
                arena: ai,
                odds: a.pirates@[i].odds as int,
            },
    )
}

/// The slots of the first `n` arenas of a day.
pub open spec fn day_slots(day: Seq<HistArena>, n: int) -> Seq<Slot>
    decreases n,
{
    if n <= 0 {
        Seq::empty()
    } else {
        day_slots(day, n - 1) + arena_slots(day[n - 1], n - 1)
    }
}

/// The slots of the first `n` days.
pub open spec fn days_slots(days: Seq<Vec<HistArena>>, n: int) -> Seq<Slot>
    decreases n,
{
    if n <= 0 {
        Seq::empty()
    } else {
        days_slots(days, n - 1) + day_slots(days[n - 1]@, days[n - 1]@.len() as int)
    }
}

/// Every slot of every day.
pub open spec fn all_slots(days: Seq<Vec<HistArena>>) -> Seq<Slot> {
    days_slots(days, days.len() as int)
}

/// What a tally is keyed by besides the pirate: position in the arena, or
/// the arena's index within its day.
#[derive(Clone, Copy, Debug, PartialEq, Eq, Structural)]
pub enum SlotKey {
    Position,
    Arena,
}

pub open spec fn key_of(s: Slot, key: SlotKey) -> int {
    match key {
        SlotKey::Position => s.pos,
        SlotKey::Arena => s.arena,
    }
}

/// Number of slots satisfying `p`.
pub open spec fn slot_count(slots: Seq<Slot>, p: spec_fn(Slot) -> bool) -> nat
    decreases slots.len(),
{
    if slots.len() == 0 {
        0
    } else {
        slot_count(slots.drop_last(), p) + if p(slots.last()) {
            1nat
        } else {
            0nat
        }
    }
}

/// Slots of pirate `name`.
pub open spec fn named(name: Seq<char>) -> spec_fn(Slot) -> bool {
    |s: Slot| s.name == name
}

/// Slots that pirate `name` won.
pub open spec fn named_won(name: Seq<char>) -> spec_fn(Slot) -> bool {
    |s: Slot| s.name == name && s.won
}

/// Slots of pirate `name` with key `k`.
pub open spec fn named_at(name: Seq<char>, key: SlotKey, k: int) -> spec_fn(Slot) -> bool {
    |s: Slot| s.name == name && key_of(s, key) == k
}

/// Slots of pirate `name` with key `k` that it won.
pub open spec fn named_won_at(name: Seq<char>, key: SlotKey, k: int) -> spec_fn(Slot) -> bool {
    |s: Slot| s.name == name && s.won && key_of(s, key) == k
}

/// Per-pirate tallies, one row per distinct pirate name in order of first
/// appearance; the keyed counts of row `r` and key `k < width` are at
/// `r * width + k`.
pub struct SlotTallies {
    pub names: Vec<String>,
    pub appearances: Vec<u32>,
    pub wins: Vec<u32>,
    pub width: usize,
    pub keyed_appearances: Vec<u32>,
    pub keyed_wins: Vec<u32>,
}

/// `t` tallies exactly the `slots`.
pub open spec fn tallies_match(t: SlotTallies, slots: Seq<Slot>, key: SlotKey) -> bool {
    let n = t.names.len();
    &&& t.appearances.len() == n
    &&& t.wins.len() == n
    &&& t.keyed_appearances.len() == n * t.width
    &&& t.keyed_wins.len() == n * t.width
    &&& forall|r: int, q: int|
        0 <= r < q < n ==> #[trigger] t.names@[r]@ != #[trigger] t.names@[q]@
    &&& forall|r: int|
        0 <= r < n ==> #[trigger] t.appearances@[r] == slot_count(slots, named(t.names@[r]@))
    &&& forall|r: int| 0 <= r < n ==> #[trigger] t.wins@[r] == slot_count(slots, named_won(t.names@[r]@))
    &&& forall|r: int, k: int|
        0 <= r < n && 0 <= k < t.width ==> #[trigger] t.keyed_appearances@[r * t.width + k]
            == slot_count(slots, named_at(t.names@[r]@, key, k))
    &&& forall|r: int, k: int|
        0 <= r < n && 0 <= k < t.width ==> #[trigger] t.keyed_wins@[r * t.width + k]
            == slot_count(slots, named_won_at(t.names@[r]@, key, k))
    &&& forall|i: int|
        0 <= i < slots.len() ==> exists|r: int| 0 <= r < n && #[trigger] t.names@[r]@ == #[trigger] slots[i].name
    &&& forall|r: int| 0 <= r < n ==> #[trigger] t.appearances@[r] >= 1
}


proof fn lemma_slot_count_push(slots: Seq<Slot>, s: Slot, p: spec_fn(Slot) -> bool)
    ensures
        slot_count(slots.push(s), p) == slot_count(slots, p) + if p(s) {
            1nat
        } else {
            0nat
        },
{
    assert(slots.push(s).drop_last() =~= slots);
}

proof fn lemma_slot_count_bound(slots: Seq<Slot>, p: spec_fn(Slot) -> bool)
    ensures
        slot_count(slots, p) <= slots.len(),
    decreases slots.len(),
{
    if slots.len() > 0 {
        lemma_slot_count_bound(slots.drop_last(), p);
    }
}

/// A pirate never wins more arenas than it appears in, in total and at any
/// one key (position or arena).
pub proof fn law_wins_within_appearances(slots: Seq<Slot>, name: Seq<char>, key: SlotKey, k: int)
    ensures
        slot_count(slots, named_won(name)) <= slot_count(slots, named(name)),
        slot_count(slots, named_won_at(name, key, k)) <= slot_count(slots, named_at(name, key, k)),
        slot_count(slots, named_at(name, key, k)) <= slot_count(slots, named(name)),
    decreases slots.len(),
{
    if slots.len() > 0 {
        law_wins_within_appearances(slots.drop_last(), name, key, k);
    }
}

proof fn lemma_slot_count_none(slots: Seq<Slot>, p: spec_fn(Slot) -> bool)
    requires
        forall|i: int| 0 <= i < slots.len() ==> !p(#[trigger] slots[i]),
    ensures
        slot_count(slots, p) == 0,
    decreases slots.len(),
{
    if slots.len() > 0 {
        assert(!p(slots[slots.len() - 1]));
        lemma_slot_count_none(slots.drop_last(), p);
    }
}

proof fn lemma_slot_count_some(slots: Seq<Slot>, p: spec_fn(Slot) -> bool)
    requires
        slot_count(slots, p) >= 1,
    ensures
        exists|i: int| 0 <= i < slots.len() && p(#[trigger] slots[i]),
    decreases slots.len(),
{
    if !p(slots.last()) {
        lemma_slot_count_some(slots.drop_last(), p);
        let i = choose|i: int| 0 <= i < slots.len() - 1 && p(#[trigger] slots.drop_last()[i]);
        assert(slots.drop_last()[i] == slots[i]);
    } else {
        assert(p(slots[slots.len() - 1]));
    }
}

/// Row of pirate `name`, if it has one.
fn find_row(names: &Vec<String>, name: &String) -> (r: Option<usize>)
    ensures
        match r {
            Some(i) => i < names.len() && names@[i as int]@ == name@,
            None => forall|i: int| 0 <= i < names.len() ==> #[trigger] names@[i]@ != name@,
        },
{
    let mut i: usize = 0;
    while i < names.len()
        invariant
            i <= names.len(),
            forall|j: int| 0 <= j < i ==> #[trigger] names@[j]@ != name@,
        decreases names.len() - i,
    {
        if names[i] == *name {
            return Some(i);
        }
        i = i + 1;
    }
    None
}

/// Row-major indices of a `? x w` table are distinct.
proof fn lemma_row_index(q: int, j: int, r: int, k: int, w: int)
    requires
        0 <= q,
        0 <= r,
        0 <= j < w,
        0 <= k < w,
    ensures
        q * w + j == r * w + k <==> (q == r && j == k),
{
    if q < r {
        assert(q * w + j < r * w) by (nonlinear_arith)
            requires
                0 <= q < r,
                0 <= j < w,
        ;
    } else if q > r {
        assert(r * w + k < q * w) by (nonlinear_arith)
            requires
                0 <= r < q,
                0 <= k < w,
        ;
    }
}

/// Adds slot `s` to the tallies.
fn tally_add(t: &mut SlotTallies, name: &String, won: bool, k: usize, Ghost(slots): Ghost<Seq<Slot>>, Ghost(s): Ghost<Slot>, Ghost(key): Ghost<SlotKey>)
    requires
        tallies_match(*old(t), slots, key),
        s.name == name@,
        s.won == won,
        key_of(s, key) == k,
        slots.len() + 1 <= u32::MAX,
    ensures
        tallies_match(*final(t), slots.push(s), key),
        final(t).width == old(t).width,
{
    let ghost ns = slots.push(s);
    let w = t.width;
    proof {
        lemma_slot_count_push(slots, s, named(name@));
        lemma_slot_count_push(slots, s, named_won(name@));
        assert forall|r: int| 0 <= r < t.names.len() implies #[trigger] slot_count(ns, named(t.names@[r]@))
            == slot_count(slots, named(t.names@[r]@)) + if t.names@[r]@ == name@ {
            1nat
        } else {
            0nat
        } by {
            lemma_slot_count_push(slots, s, named(t.names@[r]@));
        }
        assert forall|r: int| 0 <= r < t.names.len() implies #[trigger] slot_count(ns, named_won(t.names@[r]@))
            == slot_count(slots, named_won(t.names@[r]@)) + if t.names@[r]@ == name@ && won {
            1nat
        } else {
            0nat
        } by {
            lemma_slot_count_push(slots, s, named_won(t.names@[r]@));
        }
        assert forall|r: int, j: int| 0 <= r < t.names.len() && 0 <= j < w implies #[trigger] slot_count(
            ns,
            named_at(t.names@[r]@, key, j),
        ) == slot_count(slots, named_at(t.names@[r]@, key, j)) + if t.names@[r]@ == name@ && j == k {
            1nat
        } else {
            0nat
        } by {
            lemma_slot_count_push(slots, s, named_at(t.names@[r]@, key, j));
        }
        assert forall|r: int, j: int| 0 <= r < t.names.len() && 0 <= j < w implies #[trigger] slot_count(
            ns,
            named_won_at(t.names@[r]@, key, j),
        ) == slot_count(slots, named_won_at(t.names@[r]@, key, j)) + if t.names@[r]@ == name@ && won
            && j == k {
            1nat
        } else {
            0nat
        } by {
            lemma_slot_count_push(slots, s, named_won_at(t.names@[r]@, key, j));
        }
    }
    match find_row(&t.names, name) {
        Some(r) => {
            proof {
                lemma_slot_count_bound(slots, named(name@));
                lemma_slot_count_bound(slots, named_won(name@));
                lemma_slot_count_bound(slots, named_at(name@, key, k as int));
                lemma_slot_count_bound(slots, named_won_at(name@, key, k as int));
            }
            let a = t.appearances[r];
            t.appearances.set(r, a + 1);
            if won {
                let v = t.wins[r];
                t.wins.set(r, v + 1);
            }
            if k < w {
                proof {
                    assert(r * w + k < t.names.len() * w) by (nonlinear_arith)
                        requires
                            r < t.names.len(),
                            k < w,
                    ;
                }
                let i = r * w + k;
                let v = t.keyed_appearances[i];
                t.keyed_appearances.set(i, v + 1);
                if won {
                    let v2 = t.keyed_wins[i];
                    t.keyed_wins.set(i, v2 + 1);
                }
            }
            proof {
                assert forall|q: int, j: int|
                    #![trigger t.keyed_appearances@[q * w + j]]
                    #![trigger t.keyed_wins@[q * w + j]]
                    0 <= q < t.names.len() && 0 <= j < w implies t.keyed_appearances@[q * w + j]
                    == slot_count(ns, named_at(t.names@[q]@, key, j)) && t.keyed_wins@[q * w + j]
                    == slot_count(ns, named_won_at(t.names@[q]@, key, j)) by {
                    assert(q * w + j < t.names.len() * w) by (nonlinear_arith)
                        requires
                            0 <= q < t.names.len(),
                            0 <= j < w,
                    ;
                    if k < w {
                        lemma_row_index(q, j, r as int, k as int, w as int);
                        assert(q == r ==> t.names@[q]@ == name@);
                        assert(q != r ==> t.names@[q]@ != name@);
                    } else {
                        assert(q == r ==> j != k);
                    }
                }
                assert forall|i: int| 0 <= i < ns.len() implies exists|q: int|
                    0 <= q < t.names.len() && #[trigger] t.names@[q]@ == #[trigger] ns[i].name by {
                    if i < slots.len() {
                        assert(ns[i] == slots[i]);
                        let q = choose|q: int|
                            0 <= q < old(t).names.len() && #[trigger] old(t).names@[q]@ == #[trigger] slots[i].name;
                        assert(t.names@[q]@ == ns[i].name);
                    } else {
                        assert(t.names@[r as int]@ == ns[i].name);
                    }
                }
            }
        },
        None => {
            proof {
                assert forall|i: int| 0 <= i < slots.len() implies !named(name@)(#[trigger] slots[i]) by {
                    if slots[i].name == name@ {
                        let q = choose|q: int| 0 <= q < t.names.len() && #[trigger] t.names@[q]@ == slots[i].name;
                        assert(t.names@[q]@ == name@);
                    }
                }
                lemma_slot_count_none(slots, named(name@));
                assert forall|i: int| 0 <= i < slots.len() implies !named_won(name@)(#[trigger] slots[i]) by {
                    assert(!named(name@)(slots[i]));
                }
                lemma_slot_count_none(slots, named_won(name@));
                assert forall|j: int| 0 <= j < w implies slot_count(slots, #[trigger] named_at(name@, key, j)) == 0 && slot_count(slots, named_won_at(name@, key, j)) == 0 by {
                    assert forall|i: int| 0 <= i < slots.len() implies !named_at(name@, key, j)(#[trigger] slots[i]) by {
                        assert(!named(name@)(slots[i]));
                    }
                    lemma_slot_count_none(slots, named_at(name@, key, j));
                    assert forall|i: int| 0 <= i < slots.len() implies !named_won_at(name@, key, j)(#[trigger] slots[i]) by {
                        assert(!named(name@)(slots[i]));
                    }
                    lemma_slot_count_none(slots, named_won_at(name@, key, j));
                }
            }
            let ghost n0 = t.names.len();
            t.names.push(name.clone());
            t.appearances.push(1);
            t.wins.push(if won {
                1
            } else {
                0
            });
            let ghost names1 = t.names@;
            let ghost apps1 = t.appearances@;
            let ghost wins1 = t.wins@;
            let mut j: usize = 0;
            while j < w
                invariant
                    j <= w == t.width,
                    t.names@ == names1,
                    t.appearances@ == apps1,
                    t.wins@ == wins1,
                    t.names.len() == n0 + 1,
                    t.keyed_appearances.len() == n0 * w + j,
                    t.keyed_wins.len() == n0 * w + j,
                    forall|i: int| 0 <= i < n0 * w ==> #[trigger] t.keyed_appearances@[i] == old(t).keyed_appearances@[i],
                    forall|i: int| 0 <= i < n0 * w ==> #[trigger] t.keyed_wins@[i] == old(t).keyed_wins@[i],
                    old(t).keyed_appearances.len() == n0 * w,
                    old(t).keyed_wins.len() == n0 * w,
                    forall|q: int| 0 <= q < j ==> #[trigger] t.keyed_appearances@[n0 * w + q] == if q == k {
                        1u32
                    } else {
                        0u32
                    },
                    forall|q: int| 0 <= q < j ==> #[trigger] t.keyed_wins@[n0 * w + q] == if q == k && won {
                        1u32
                    } else {
                        0u32
                    },
                decreases w - j,
            {
                t.keyed_appearances.push(if j == k {
                    1
                } else {
                    0
                });
                t.keyed_wins.push(if j == k && won {
                    1
                } else {
                    0
                });
                j = j + 1;
            }
            proof {
                assert((n0 + 1) * w == n0 * w + w) by (nonlinear_arith);
                assert forall|q: int, j2: int|
                    #![trigger t.keyed_appearances@[q * w + j2]]
                    #![trigger t.keyed_wins@[q * w + j2]]
                    0 <= q < t.names.len() && 0 <= j2 < w implies t.keyed_appearances@[q * w + j2]
                    == slot_count(ns, named_at(t.names@[q]@, key, j2)) && t.keyed_wins@[q * w + j2]
                    == slot_count(ns, named_won_at(t.names@[q]@, key, j2)) by {
                    if q < n0 {
                        assert(q * w + j2 < n0 * w) by (nonlinear_arith)
                            requires
                                0 <= q < n0,
                                0 <= j2 < w,
                        ;
                        assert(t.names@[q] == old(t).names@[q]);
                        assert(old(t).names@[q]@ != name@);
                    } else {
                        assert(t.names@[q]@ == name@);
                        assert(q * w + j2 == n0 * w + j2) by (nonlinear_arith)
                            requires
                                q == n0,
                        ;
                        lemma_slot_count_push(slots, s, named_at(name@, key, j2));
                        lemma_slot_count_push(slots, s, named_won_at(name@, key, j2));
                        assert(slot_count(slots, named_at(name@, key, j2)) == 0);
                        assert(slot_count(slots, named_won_at(name@, key, j2)) == 0);
                    }
                }
                assert forall|q: int, q2: int| 0 <= q < q2 < t.names.len() implies #[trigger] t.names@[q]@
                    != #[trigger] t.names@[q2]@ by {
                    if q2 == n0 {
                        assert(old(t).names@[q]@ != name@);
                    } else {
                        assert(old(t).names@[q]@ != old(t).names@[q2]@);
                    }
                }
                assert forall|i: int| 0 <= i < ns.len() implies exists|q: int|
                    0 <= q < t.names.len() && #[trigger] t.names@[q]@ == #[trigger] ns[i].name by {
                    if i < slots.len() {
                        assert(ns[i] == slots[i]);
                        let q = choose|q: int| 0 <= q < n0 && #[trigger] old(t).names@[q]@ == slots[i].name;
                        assert(t.names@[q]@ == ns[i].name);
                    } else {
                        assert(t.names@[n0 as int]@ == ns[i].name);
                    }
                }
            }
        },
    }
}


proof fn lemma_day_slots_len(day: Seq<HistArena>, a: int, b: int)
    requires
        0 <= a <= b,
    ensures
        day_slots(day, a).len() <= day_slots(day, b).len(),
    decreases b - a,
{
    if a < b {
        lemma_day_slots_len(day, a, b - 1);
    }
}

pub(crate) proof fn lemma_days_slots_len(days: Seq<Vec<HistArena>>, d: int, e: int)
    requires
        0 <= d <= e,
    ensures
        days_slots(days, d).len() <= days_slots(days, e).len(),
    decreases e - d,
{
    if d < e {
        lemma_days_slots_len(days, d, e - 1);
    }
}

/// Tallies, per pirate name, its appearances and wins over all `days`, in
/// total and by `key` (position in the arena, or arena index within the
/// day) for keys below `width`.
pub fn tally_slots(days: &Vec<Vec<HistArena>>, key: SlotKey, width: usize) -> (t: SlotTallies)
    requires
        all_slots(days@).len() < u32::MAX,
    ensures
        tallies_match(t, all_slots(days@), key),
        t.width == width,
        forall|r: int|
            0 <= r < t.names.len() ==> exists|i: int|
                0 <= i < all_slots(days@).len() && #[trigger] all_slots(days@)[i].name == #[trigger] t.names@[r]@,
{
    let mut t = SlotTallies {
        names: Vec::new(),
        appearances: Vec::new(),
        wins: Vec::new(),
        width,
        keyed_appearances: Vec::new(),
        keyed_wins: Vec::new(),
    };
    proof {
        assert(tallies_match(t, Seq::<Slot>::empty(), key));
        assert(days_slots(days@, 0) =~= Seq::<Slot>::empty());
    }
    let mut d: usize = 0;
    while d < days.len()
        invariant
            d <= days.len(),
            t.width == width,
            all_slots(days@).len() < u32::MAX,
            tallies_match(t, days_slots(days@, d as int), key),
        decreases days.len() - d,
    {
        let day = &days[d];
        let ghost before_day = days_slots(days@, d as int);
        proof {
            lemma_days_slots_len(days@, d + 1, days@.len() as int);
            assert(before_day + day_slots(day@, 0) =~= before_day);
        }
        let mut a: usize = 0;
        while a < day.len()
            invariant
                a <= day.len(),
                *day == days@[d as int],
                d < days.len(),
                t.width == width,
                before_day == days_slots(days@, d as int),
                before_day.len() + day_slots(day@, day@.len() as int).len() < u32::MAX,
                tallies_match(t, before_day + day_slots(day@, a as int), key),
            decreases day.len() - a,
        {
            let arena = &day[a];
            let ghost before_arena = before_day + day_slots(day@, a as int);
            proof {
                lemma_day_slots_len(day@, a + 1, day@.len() as int);
                assert(arena_slots(*arena, a as int).take(0) =~= Seq::<Slot>::empty());
                assert(before_arena + arena_slots(*arena, a as int).take(0) =~= before_arena);
            }
            let mut i: usize = 0;
            while i < arena.pirates.len()
                invariant
                    i <= arena.pirates.len(),
                    *arena == day@[a as int],
                    a < day.len(),
                    t.width == width,
                    before_arena == before_day + day_slots(day@, a as int),
                    before_arena.len() + arena_slots(*arena, a as int).len() < u32::MAX,
                    tallies_match(t, before_arena + arena_slots(*arena, a as int).take(i as int), key),
                decreases arena.pirates.len() - i,
            {
                let hp = &arena.pirates[i];
                let won = hp.name == arena.winner;
                let k = match key {
                    SlotKey::Position => i,
                    SlotKey::Arena => a,
                };
                let ghost prefix = before_arena + arena_slots(*arena, a as int).take(i as int);
                let ghost slot = arena_slots(*arena, a as int)[i as int];
                tally_add(&mut t, &hp.name, won, k, Ghost(prefix), Ghost(slot), Ghost(key));
                proof {
                    assert(prefix.push(slot) =~= before_arena + arena_slots(*arena, a as int).take(
                        i + 1,
                    ));
                }
                i = i + 1;
            }
            proof {
                assert(arena_slots(*arena, a as int).take(arena.pirates.len() as int) =~= arena_slots(
                    *arena,
                    a as int,
                ));
                assert(before_day + day_slots(day@, a + 1) =~= before_arena + arena_slots(
                    *arena,
                    a as int,
                ));
            }
            a = a + 1;
        }
        proof {
            assert(days_slots(days@, d + 1) =~= before_day + day_slots(day@, day@.len() as int));
        }
        d = d + 1;
    }
    proof {
        assert(tallies_match(t, all_slots(days@), key));
        assert forall|r: int| 0 <= r < t.names.len() implies exists|i: int|
            0 <= i < all_slots(days@).len() && #[trigger] all_slots(days@)[i].name == #[trigger] t.names@[r]@ by {
            assert(t.appearances@[r] >= 1);
            let all = all_slots(days@);
            lemma_slot_count_some(all, named(t.names@[r]@));
            let i = choose|i: int| 0 <= i < all.len() && named(t.names@[r]@)(#[trigger] all[i]);
            assert(all[i].name == t.names@[r]@);
        }
    }
    t
}


// ---------------------------------------------------------------------------
// Engine equivalence of pirates and arenas
// ---------------------------------------------------------------------------

/// Everything the game engine sees of a pirate under Model 4:
/// `strength * 100 + weight offset`.
pub open spec fn spec_engine_class(strength: u32, weight: u32) -> int {
    strength * 100 + spec_capped_weight_offset(weight, MODEL4_MAX_EFFECT)
}

pub fn engine_class(strength: u32, weight: u32) -> (c: u32)
    requires
        strength * 100 + MODEL4_MAX_EFFECT <= u32::MAX,
    ensures
        c == spec_engine_class(strength, weight),
{
    strength * 100 + capped_weight_offset(weight, MODEL4_MAX_EFFECT)
}

/// Code of one arena position for the equivalence signature:
/// `class * 100000 + nf * 1000 + na * 10 + overlaps`.
pub open spec fn spec_position_code(class: u32, nf: u32, na: u32, ov: u32) -> int {
    class * 100000 + nf * 1000 + na * 10 + ov
}

pub fn position_code(class: u32, nf: u32, na: u32, ov: u32) -> (c: u64)
    requires
        spec_position_code(class, nf, na, ov) <= u64::MAX,
    ensures
        c == spec_position_code(class, nf, na, ov),
{
    class as u64 * 100_000 + (nf as u64) * 1000 + (na as u64) * 10 + ov as u64
}

/// A position code keeps its parts apart: with fewer than 100 favourites and
/// allergies and fewer than 10 overlaps, the class, the favourite count, the
/// allergy count and the overlap count can each be read back from the code's
/// digits, so two positions share a code only when all four agree, and each
/// overlap adds exactly one to the code.
pub proof fn law_position_code_separates(class: u32, nf: u32, na: u32, ov: u32, class2: u32, nf2: u32, na2: u32, ov2: u32)
    requires
        nf < 100,
        na < 100,
        ov < 10,
        nf2 < 100,
        na2 < 100,
        ov2 < 10,
    ensures
        spec_position_code(class, nf, na, ov) / 100000 == class,
        spec_position_code(class, nf, na, ov) % 100000 / 1000 == nf,
        spec_position_code(class, nf, na, ov) % 1000 / 10 == na,
        spec_position_code(class, nf, na, ov) % 10 == ov,
        spec_position_code(class, nf, na, ov) == spec_position_code(class2, nf2, na2, ov2) <==> (class == class2
            && nf == nf2 && na == na2 && ov == ov2),
        spec_position_code(class, nf, na, ov) - spec_position_code(class, nf, na, 0) == ov,
{
    let c = class as int;
    let low = nf * 1000 + na * 10 + ov;
    assert(0 <= low < 100000);
    assert((c * 100000 + low) / 100000 == c) by (nonlinear_arith)
        requires
            0 <= low < 100000,
            c >= 0,
    ;
    assert((c * 100000 + low) % 100000 == low) by (nonlinear_arith)
        requires
            0 <= low < 100000,
            c >= 0,
    ;
    let mid = na * 10 + ov;
    assert(0 <= mid < 1000);
    assert(low / 1000 == nf as int) by (nonlinear_arith)
        requires
            low == nf * 1000 + mid,
            0 <= mid < 1000,
            nf >= 0,
    ;
    assert((c * 100000 + low) % 1000 == mid) by (nonlinear_arith)
        requires
            low == nf * 1000 + mid,
            0 <= mid < 1000,
            nf >= 0,
            c >= 0,
    ;
    assert(mid / 10 == na as int) by (nonlinear_arith)
        requires
            mid == na * 10 + ov,
            0 <= ov < 10,
            na >= 0,
    ;
    assert((c * 100000 + low) % 10 == ov as int) by (nonlinear_arith)
        requires
            low == nf * 1000 + na * 10 + ov,
            0 <= ov < 10,
            na >= 0,
            nf >= 0,
            c >= 0,
    ;
    let c2 = class2 as int;
    let low2 = nf2 * 1000 + na2 * 10 + ov2;
    let mid2 = na2 * 10 + ov2;
    assert((c2 * 100000 + low2) / 100000 == c2) by (nonlinear_arith)
        requires
            0 <= low2 < 100000,
            c2 >= 0,
    ;
    assert((c2 * 100000 + low2) % 100000 == low2) by (nonlinear_arith)
        requires
            0 <= low2 < 100000,
            c2 >= 0,
    ;
    assert(low2 / 1000 == nf2 as int) by (nonlinear_arith)
        requires
            low2 == nf2 * 1000 + mid2,
            0 <= mid2 < 1000,
            nf2 >= 0,
    ;
    assert((c2 * 100000 + low2) % 1000 == mid2) by (nonlinear_arith)
        requires
            low2 == nf2 * 1000 + mid2,
            0 <= mid2 < 1000,
            nf2 >= 0,
            c2 >= 0,
    ;
    assert(mid2 / 10 == na2 as int) by (nonlinear_arith)
        requires
            mid2 == na2 * 10 + ov2,
            0 <= ov2 < 10,
            na2 >= 0,
    ;
    assert((c2 * 100000 + low2) % 10 == ov2 as int) by (nonlinear_arith)
        requires
            low2 == nf2 * 1000 + na2 * 10 + ov2,
            0 <= ov2 < 10,
            na2 >= 0,
            nf2 >= 0,
            c2 >= 0,
    ;
}

/// Signature seed (the FNV offset basis).
pub const SIGNATURE_SEED: u64 = 0xcbf29ce484222325;

/// Engine-equivalence signature of an arena: its four position codes folded
/// into [`SIGNATURE_SEED`] with [`hash2`].
pub open spec fn spec_arena_signature(codes: [u64; 4]) -> u64 {
    spec_hash2(
        spec_hash2(spec_hash2(spec_hash2(SIGNATURE_SEED, codes@[0]), codes@[1]), codes@[2]),
        codes@[3],
    )
}

pub fn arena_signature(codes: &[u64; 4]) -> (sig: u64)
    ensures
        sig == spec_arena_signature(*codes),
{
    let mut sig = SIGNATURE_SEED;
    sig = hash2(sig, codes[0]);
    sig = hash2(sig, codes[1]);
    sig = hash2(sig, codes[2]);
    sig = hash2(sig, codes[3]);
    sig
}

// ---------------------------------------------------------------------------
// Where a pirate's foods sit in the course list
// ---------------------------------------------------------------------------

/// Positions of `courses` that are allergies (`allergy`) or favourites that
/// are not allergies (otherwise) of the pirate, ascending.
pub fn food_positions(pirate: &Pirate, courses: &[usize], allergy: bool) -> (pos: Vec<usize>)
    ensures
        forall|k: int|
            0 <= k < pos.len() ==> #[trigger] pos@[k] < courses@.len() && (if allergy {
                is_alg(*pirate, courses@[pos@[k] as int])
            } else {
                is_fav(*pirate, courses@[pos@[k] as int]) && !is_alg(*pirate, courses@[pos@[k] as int])
            }),
        forall|k: int, l: int| 0 <= k < l < pos.len() ==> pos@[k] < pos@[l],
        forall|i: int|
            0 <= i < courses@.len() && (if allergy {
                is_alg(*pirate, courses@[i])
            } else {
                is_fav(*pirate, courses@[i]) && !is_alg(*pirate, courses@[i])
            }) ==> pos@.contains(i as usize),
{
    let mut pos: Vec<usize> = Vec::new();
    let mut i: usize = 0;
    while i < courses.len()
        invariant
            i <= courses@.len(),
            forall|k: int|
                0 <= k < pos.len() ==> #[trigger] pos@[k] < i && (if allergy {
                    is_alg(*pirate, courses@[pos@[k] as int])
                } else {
                    is_fav(*pirate, courses@[pos@[k] as int]) && !is_alg(
                        *pirate,
                        courses@[pos@[k] as int],
                    )
                }),
            forall|k: int, l: int| 0 <= k < l < pos.len() ==> pos@[k] < pos@[l],
            forall|j: int|
                0 <= j < i && (if allergy {
                    is_alg(*pirate, courses@[j])
                } else {
                    is_fav(*pirate, courses@[j]) && !is_alg(*pirate, courses@[j])
                }) ==> pos@.contains(j as usize),
        decreases courses@.len() - i,
    {
        let c = courses[i];
        let a = pirate.allergy_courses.contains(&c);
        let keep = if allergy {
            a
        } else {
            !a && pirate.favorite_courses.contains(&c)
        };
        if keep {
            let ghost old_pos = pos@;
            pos.push(i);
            proof {
                assert forall|j: int|
                    0 <= j < i + 1 && (if allergy {
                        is_alg(*pirate, courses@[j])
                    } else {
                        is_fav(*pirate, courses@[j]) && !is_alg(*pirate, courses@[j])
                    }) implies pos@.contains(j as usize) by {
                    if j < i {
                        assert(old_pos.contains(j as usize));
                        let k = choose|k: int| 0 <= k < old_pos.len() && old_pos[k] == j as usize;
                        assert(pos@[k] == j as usize);
                    } else {
                        assert(pos@[pos.len() - 1] == j as usize);
                    }
                }
            }
        }
        i = i + 1;
    }
    pos
}


// ---------------------------------------------------------------------------
// Odds distribution by position
// ---------------------------------------------------------------------------

/// `slice::sort` on `u32`: leaves the same values in ascending order, as
/// its documentation states.
#[verifier::external_body]
fn sort_u32(v: &mut Vec<u32>)
    ensures
        final(v)@.to_multiset() == old(v)@.to_multiset(),
        forall|i: int, j: int| 0 <= i <= j < final(v)@.len() ==> final(v)@[i] <= final(v)@[j],
{
    v.sort();
}

/// `(min, 25th percentile, median, 75th percentile, max)` of a non-empty list
/// of odds, read at indices `0, n/4, n/2, 3n/4, n-1` once sorted; the list is
/// left sorted.
pub fn odds_quantiles(v: &mut Vec<u32>) -> (q: [u32; 5])
    requires
        old(v)@.len() > 0,
        3 * old(v)@.len() <= usize::MAX,
    ensures
        final(v)@.to_multiset() == old(v)@.to_multiset(),
        forall|i: int, j: int| 0 <= i <= j < final(v)@.len() ==> final(v)@[i] <= final(v)@[j],
        ({
            let n = final(v)@.len() as int;
            &&& q@[0] == final(v)@[0]
            &&& q@[1] == final(v)@[n / 4]
            &&& q@[2] == final(v)@[n / 2]
            &&& q@[3] == final(v)@[3 * n / 4]
            &&& q@[4] == final(v)@[n - 1]
        }),
{
    sort_u32(v);
    proof {
        v@.to_multiset_ensures();
        old(v)@.to_multiset_ensures();
    }
    let n = v.len();
    [v[0], v[n / 4], v[n / 2], v[3 * n / 4], v[n - 1]]
}


// ---------------------------------------------------------------------------
// Appearances and wins by opening odds and position
// ---------------------------------------------------------------------------

/// Slots at opening odds `o` and position `k`.
pub open spec fn at_odds_pos(o: int, k: int) -> spec_fn(Slot) -> bool {
    |s: Slot| s.odds == o && s.pos == k
}

/// Slots at opening odds `o` and position `k` whose pirate won.
pub open spec fn won_at_odds_pos(o: int, k: int) -> spec_fn(Slot) -> bool {
    |s: Slot| s.odds == o && s.pos == k && s.won
}

/// Appearances and wins by opening odds `o < n_odds` and position `k < 4`,
/// at index `o * 4 + k`.
pub struct OddsTally {
    pub n_odds: usize,
    pub appearances: Vec<u32>,
    pub wins: Vec<u32>,
}

/// `t` counts exactly the `slots` by odds and position.
pub open spec fn odds_tally_match(t: OddsTally, slots: Seq<Slot>) -> bool {
    &&& t.appearances.len() == t.n_odds * 4
    &&& t.wins.len() == t.n_odds * 4
    &&& forall|o: int, k: int|
        #![trigger t.appearances@[o * 4 + k]]
        #![trigger t.wins@[o * 4 + k]]
        0 <= o < t.n_odds && 0 <= k < 4 ==> t.appearances@[o * 4 + k] == slot_count(slots, at_odds_pos(o, k))
            && t.wins@[o * 4 + k] == slot_count(slots, won_at_odds_pos(o, k))
}

proof fn lemma_cell_index(o: int, k: int, p: int, q: int)
    requires
        0 <= k < 4,
        0 <= q < 4,
        o >= 0,
        p >= 0,
        o * 4 + k == p * 4 + q,
    ensures
        o == p,
        k == q,
{
}

/// Counts slot `s` into the tally.
fn odds_tally_add(t: &mut OddsTally, odds: u32, pos: usize, won: bool, Ghost(slots): Ghost<Seq<Slot>>, Ghost(s): Ghost<Slot>)
    requires
        odds_tally_match(*old(t), slots),
        s.odds == odds,
        s.pos == pos,
        s.won == won,
        slots.len() + 1 < u32::MAX,
    ensures
        odds_tally_match(*final(t), slots.push(s)),
        final(t).n_odds == old(t).n_odds,
{
    let ghost ns = slots.push(s);
    proof {
        assert forall|o: int, k: int| 0 <= o < t.n_odds && 0 <= k < 4 implies #[trigger] slot_count(
            ns,
            at_odds_pos(o, k),
        ) == slot_count(slots, at_odds_pos(o, k)) + if s.odds == o && s.pos == k {
            1nat
        } else {
            0nat
        } && slot_count(ns, won_at_odds_pos(o, k)) == slot_count(slots, won_at_odds_pos(o, k)) + if s.odds
            == o && s.pos == k && s.won {
            1nat
        } else {
            0nat
        } by {
            lemma_slot_count_push(slots, s, at_odds_pos(o, k));
            lemma_slot_count_push(slots, s, won_at_odds_pos(o, k));
        }
    }
    if (odds as usize) < t.n_odds && pos < 4 {
        let i = odds as usize * 4 + pos;
        proof {
            lemma_slot_count_bound(slots, at_odds_pos(odds as int, pos as int));
            lemma_slot_count_bound(slots, won_at_odds_pos(odds as int, pos as int));
            assert(t.appearances@[odds * 4 + pos] == slot_count(slots, at_odds_pos(odds as int, pos as int)));
        }
        let a = t.appearances[i];
        t.appearances.set(i, a + 1);
        if won {
            let w = t.wins[i];
            t.wins.set(i, w + 1);
        }
        proof {
            assert forall|o: int, k: int|
                #![trigger t.appearances@[o * 4 + k]]
                #![trigger t.wins@[o * 4 + k]]
                0 <= o < t.n_odds && 0 <= k < 4 implies t.appearances@[o * 4 + k] == slot_count(
                    ns,
                    at_odds_pos(o, k),
                ) && t.wins@[o * 4 + k] == slot_count(ns, won_at_odds_pos(o, k)) by {
                assert(old(t).appearances@[o * 4 + k] == slot_count(slots, at_odds_pos(o, k)));
                assert(old(t).wins@[o * 4 + k] == slot_count(slots, won_at_odds_pos(o, k)));
                lemma_slot_count_push(slots, s, at_odds_pos(o, k));
                lemma_slot_count_push(slots, s, won_at_odds_pos(o, k));
                assert(at_odds_pos(o, k)(s) == (s.odds == o && s.pos == k));
                assert(won_at_odds_pos(o, k)(s) == (s.odds == o && s.pos == k && s.won));
                if o * 4 + k == i as int {
                    lemma_cell_index(o, k, odds as int, pos as int);
                } else {
                    if s.odds == o && s.pos == k {
                        assert(o * 4 + k == i as int);
                    }
                }
            }
        }
    } else {
        proof {
            assert forall|o: int, k: int|
                #![trigger t.appearances@[o * 4 + k]]
                #![trigger t.wins@[o * 4 + k]]
                0 <= o < t.n_odds && 0 <= k < 4 implies t.appearances@[o * 4 + k] == slot_count(
                    ns,
                    at_odds_pos(o, k),
                ) && t.wins@[o * 4 + k] == slot_count(ns, won_at_odds_pos(o, k)) by {
                assert(old(t).appearances@[o * 4 + k] == slot_count(slots, at_odds_pos(o, k)));
                assert(old(t).wins@[o * 4 + k] == slot_count(slots, won_at_odds_pos(o, k)));
                lemma_slot_count_push(slots, s, at_odds_pos(o, k));
                lemma_slot_count_push(slots, s, won_at_odds_pos(o, k));
                assert(!(s.odds == o && s.pos == k));
                assert(!at_odds_pos(o, k)(s));
                assert(!won_at_odds_pos(o, k)(s));
            }
        }
    }
}

/// Appearances and wins over all `days` by opening odds below `n_odds` and
/// position below 4.
pub fn odds_position_tally(days: &Vec<Vec<HistArena>>, n_odds: usize) -> (t: OddsTally)
    requires
        all_slots(days@).len() < u32::MAX - 1,
        n_odds * 4 <= usize::MAX,
    ensures
        odds_tally_match(t, all_slots(days@)),
        t.n_odds == n_odds,
{
    let cells = n_odds * 4;
    let mut t = OddsTally { n_odds, appearances: Vec::new(), wins: Vec::new() };
    let mut c: usize = 0;
    while c < cells
        invariant
            cells == n_odds * 4,
            t.n_odds == n_odds,
            c <= cells,
            t.appearances.len() == c,
            t.wins.len() == c,
            forall|j: int| 0 <= j < c ==> #[trigger] t.appearances@[j] == 0 && t.wins@[j] == 0,
        decreases cells - c,
    {
        t.appearances.push(0);
        t.wins.push(0);
        c = c + 1;
    }
    proof {
        assert forall|o: int, k: int|
            #![trigger t.appearances@[o * 4 + k]]
            #![trigger t.wins@[o * 4 + k]]
            0 <= o < t.n_odds && 0 <= k < 4 implies t.appearances@[o * 4 + k] == slot_count(
                Seq::<Slot>::empty(),
                at_odds_pos(o, k),
            ) && t.wins@[o * 4 + k] == slot_count(Seq::<Slot>::empty(), won_at_odds_pos(o, k)) by {
            assert(0 <= o * 4 + k < cells);
            assert(t.appearances@[o * 4 + k] == 0);
            assert(t.wins@[o * 4 + k] == 0);
            assert(slot_count(Seq::<Slot>::empty(), at_odds_pos(o, k)) == 0);
            assert(slot_count(Seq::<Slot>::empty(), won_at_odds_pos(o, k)) == 0);
        }
        assert(days_slots(days@, 0) =~= Seq::<Slot>::empty());
    }
    let mut d: usize = 0;
    while d < days.len()
        invariant
            d <= days.len(),
            t.n_odds == n_odds,
            all_slots(days@).len() < u32::MAX - 1,
            odds_tally_match(t, days_slots(days@, d as int)),
        decreases days.len() - d,
    {
        let day = &days[d];
        let ghost before_day = days_slots(days@, d as int);
        proof {
            lemma_days_slots_len(days@, d + 1, days@.len() as int);
            assert(before_day + day_slots(day@, 0) =~= before_day);
        }
        let mut a: usize = 0;
        while a < day.len()
            invariant
                a <= day.len(),
                *day == days@[d as int],
                d < days.len(),
                t.n_odds == n_odds,
                before_day == days_slots(days@, d as int),
                before_day.len() + day_slots(day@, day@.len() as int).len() < u32::MAX - 1,
                odds_tally_match(t, before_day + day_slots(day@, a as int)),
            decreases day.len() - a,
        {
            let arena = &day[a];
            let ghost before_arena = before_day + day_slots(day@, a as int);
            proof {
                lemma_day_slots_len(day@, a + 1, day@.len() as int);
                assert(arena_slots(*arena, a as int).take(0) =~= Seq::<Slot>::empty());
                assert(before_arena + arena_slots(*arena, a as int).take(0) =~= before_arena);
            }
            let mut i: usize = 0;
            while i < arena.pirates.len()
                invariant
                    i <= arena.pirates.len(),
                    *arena == day@[a as int],
                    a < day.len(),
                    t.n_odds == n_odds,
                    before_arena == before_day + day_slots(day@, a as int),
                    before_arena.len() + arena_slots(*arena, a as int).len() < u32::MAX - 1,
                    odds_tally_match(t, before_arena + arena_slots(*arena, a as int).take(i as int)),
                decreases arena.pirates.len() - i,
            {
                let hp = &arena.pirates[i];
                let won = hp.name == arena.winner;
                let ghost prefix = before_arena + arena_slots(*arena, a as int).take(i as int);
                let ghost slot = arena_slots(*arena, a as int)[i as int];
                odds_tally_add(&mut t, hp.odds, i, won, Ghost(prefix), Ghost(slot));
                proof {
                    assert(prefix.push(slot) =~= before_arena + arena_slots(*arena, a as int).take(
                        i + 1,
                    ));
                }
                i = i + 1;
            }
            proof {
                assert(arena_slots(*arena, a as int).take(arena.pirates.len() as int) =~= arena_slots(
                    *arena,
                    a as int,
                ));
                assert(before_day + day_slots(day@, a + 1) =~= before_arena + arena_slots(
                    *arena,
                    a as int,
                ));
            }
            a = a + 1;
        }
        proof {
            assert(days_slots(days@, d + 1) =~= before_day + day_slots(day@, day@.len() as int));
        }
        d = d + 1;
    }
    t
}

} // verus!
