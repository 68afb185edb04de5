//! Does the order of an arena's foods matter? For a pirate with exactly one
//! allergy (or one favourite) among an arena's ten courses, its record when
//! that course is among the first five against the last five.

use crate::model::{is_alg, is_fav};
use crate::pirates::{names, resolved_courses, GameData, HistArena, Pirate};
use vstd::prelude::*;

verus! {

/// Course `c` is what the split looks at: an allergy of the pirate
/// (`allergy`), or a favourite that is not an allergy.
pub open spec fn relevant(pirate: Pirate, c: usize, allergy: bool) -> bool {
    if allergy {
        is_alg(pirate, c)
    } else {
        is_fav(pirate, c) && !is_alg(pirate, c)
    }
}

/// How many of the first `k` courses are relevant.
pub open spec fn relevant_before(pirate: Pirate, courses: Seq<usize>, allergy: bool, k: int) -> nat
    decreases k,
{
    if k <= 0 {
        0
    } else {
        relevant_before(pirate, courses, allergy, k - 1) + if relevant(pirate, courses[k - 1], allergy) {
            1nat
        } else {
            0nat
        }
    }
}

/// The pirate named `name` is listed in the arena.
pub open spec fn listed(a: HistArena, name: Seq<char>) -> bool {
    exists|i: int| 0 <= i < a.pirates@.len() && #[trigger] a.pirates@[i].name@ == name
}

/// The arena counts for the split: the pirate is in it, ten of its foods
/// are courses, and exactly one of them is relevant.
pub open spec fn split_arena(data: GameData, pirate: Pirate, allergy: bool, a: HistArena) -> bool {
    let courses = resolved_courses(data.course_names(), names(a.foods@));
    &&& listed(a, pirate.name@)
    &&& courses.len() == 10
    &&& relevant_before(pirate, courses, allergy, 10) == 1
}

/// A counted arena whose relevant course is among the first five (`early`)
/// or the last five (otherwise); `won_only` keeps those the pirate won.
pub open spec fn in_half(data: GameData, pirate: Pirate, allergy: bool, early: bool, won_only: bool) -> spec_fn(HistArena) -> bool {
    |a: HistArena|
        split_arena(data, pirate, allergy, a) && (relevant_before(
            pirate,
            resolved_courses(data.course_names(), names(a.foods@)),
            allergy,
            5,
        ) == 1) == early && (!won_only || a.winner@ == pirate.name@)
}

/// Number of arenas satisfying `p`.
pub open spec fn arena_count(arenas: Seq<HistArena>, p: spec_fn(HistArena) -> bool) -> nat
    decreases arenas.len(),
{
    if arenas.len() == 0 {
        0
    } else {
        arena_count(arenas.drop_last(), p) + if p(arenas.last()) {
            1nat
        } else {
            0nat
        }
    }
}

/// The arenas of the first `n` days, in order.
pub open spec fn days_arenas(days: Seq<Vec<HistArena>>, n: int) -> Seq<HistArena>
    decreases n,
{
    if n <= 0 {
        Seq::empty()
    } else {
        days_arenas(days, n - 1) + days[n - 1]@
    }
}

/// Every arena of `days`, in order.
pub open spec fn all_arenas(days: Seq<Vec<HistArena>>) -> Seq<HistArena> {
    days_arenas(days, days.len() as int)
}

/// A pirate's record split by where its one relevant course stands.
pub struct EarlyLate {
    pub early_n: u32,
    pub early_wins: u32,
    pub late_n: u32,
    pub late_wins: u32,
}

proof fn lemma_arena_count_push(arenas: Seq<HistArena>, a: HistArena, p: spec_fn(HistArena) -> bool)
    ensures
        arena_count(arenas.push(a), p) == arena_count(arenas, p) + if p(a) {
            1nat
        } else {
            0nat
        },
{
    assert(arenas.push(a).drop_last() =~= arenas);
}

proof fn lemma_arena_count_bound(arenas: Seq<HistArena>, p: spec_fn(HistArena) -> bool)
    ensures
        arena_count(arenas, p) <= arenas.len(),
    decreases arenas.len(),
{
    if arenas.len() > 0 {
        lemma_arena_count_bound(arenas.drop_last(), p);
    }
}

proof fn lemma_days_arenas_len(days: Seq<Vec<HistArena>>, d: int, e: int)
    requires
        0 <= d <= e,
    ensures
        days_arenas(days, d).len() <= days_arenas(days, e).len(),
    decreases e - d,
{
    if d < e {
        lemma_days_arenas_len(days, d, e - 1);
    }
}

/// Whether the arena lists a pirate named `name`.
fn is_listed(a: &HistArena, name: &String) -> (b: bool)
    ensures
        b == listed(*a, name@),
{
    let mut i: usize = 0;
    while i < a.pirates.len()
        invariant
            i <= a.pirates@.len(),
            forall|j: int| 0 <= j < i ==> #[trigger] a.pirates@[j].name@ != name@,
        decreases a.pirates@.len() - i,
    {
        if a.pirates[i].name == *name {
            return true;
        }
        i = i + 1;
    }
    false
}

/// How many of the first `k` courses are relevant.
fn count_relevant(pirate: &Pirate, courses: &Vec<usize>, allergy: bool, k: usize) -> (n: usize)
    requires
        k <= courses@.len(),
    ensures
        n == relevant_before(*pirate, courses@, allergy, k as int),
        n <= k,
{
    let mut n: usize = 0;
    let mut i: usize = 0;
    while i < k
        invariant
            i <= k <= courses@.len(),
            n == relevant_before(*pirate, courses@, allergy, i as int),
            n <= i,
        decreases k - i,
    {
        let c = courses[i];
        let a = pirate.allergy_courses.contains(&c);
        let keep = if allergy {
            a
        } else {
            !a && pirate.favorite_courses.contains(&c)
        };
        if keep {
            n = n + 1;
        }
        i = i + 1;
    }
    n
}

/// The record of `pirate` over `days`, split by whether its one relevant
/// course (an allergy with `allergy`, else a favourite that is not an
/// allergy) is among the first five or the last five of ten courses.
pub fn early_late(data: &GameData, days: &Vec<Vec<HistArena>>, pirate: &Pirate, allergy: bool) -> (r: EarlyLate)
    requires
        all_arenas(days@).len() < u32::MAX,
    ensures
        r.early_n == arena_count(all_arenas(days@), in_half(*data, *pirate, allergy, true, false)),
        r.early_wins == arena_count(all_arenas(days@), in_half(*data, *pirate, allergy, true, true)),
        r.late_n == arena_count(all_arenas(days@), in_half(*data, *pirate, allergy, false, false)),
        r.late_wins == arena_count(all_arenas(days@), in_half(*data, *pirate, allergy, false, true)),
{
    let mut r = EarlyLate { early_n: 0, early_wins: 0, late_n: 0, late_wins: 0 };
    proof {
        assert(days_arenas(days@, 0) =~= Seq::<HistArena>::empty());
    }
    let mut d: usize = 0;
    while d < days.len()
        invariant
            d <= days.len(),
            all_arenas(days@).len() < u32::MAX,
            r.early_n == arena_count(days_arenas(days@, d as int), in_half(*data, *pirate, allergy, true, false)),
            r.early_wins == arena_count(days_arenas(days@, d as int), in_half(*data, *pirate, allergy, true, true)),
            r.late_n == arena_count(days_arenas(days@, d as int), in_half(*data, *pirate, allergy, false, false)),
            r.late_wins == arena_count(days_arenas(days@, d as int), in_half(*data, *pirate, allergy, false, true)),
        decreases days.len() - d,
    {
        let day = &days[d];
        let ghost before = days_arenas(days@, d as int);
        proof {
            lemma_days_arenas_len(days@, d + 1, days@.len() as int);
            assert(before + day@.take(0) =~= before);
        }
        let mut a: usize = 0;
        while a < day.len()
            invariant
                a <= day.len(),
                d < days.len(),
                *day == days@[d as int],
                before == days_arenas(days@, d as int),
                before.len() + day@.len() < u32::MAX,
                r.early_n == arena_count(before + day@.take(a as int), in_half(*data, *pirate, allergy, true, false)),
                r.early_wins == arena_count(before + day@.take(a as int), in_half(*data, *pirate, allergy, true, true)),
                r.late_n == arena_count(before + day@.take(a as int), in_half(*data, *pirate, allergy, false, false)),
                r.late_wins == arena_count(before + day@.take(a as int), in_half(*data, *pirate, allergy, false, true)),
            decreases day.len() - a,
        {
            let arena = &day[a];
            let ghost prefix = before + day@.take(a as int);
            let ghost courses_s = resolved_courses(data.course_names(), names(arena.foods@));
            let courses = data.resolve_courses(&arena.foods);
            let counted = if is_listed(arena, &pirate.name) && courses.len() == 10 {
                count_relevant(pirate, &courses, allergy, 10) == 1
            } else {
                false
            };
            let early = if counted {
                count_relevant(pirate, &courses, allergy, 5) == 1
            } else {
                false
            };
            let late = counted && !early;
            let won = arena.winner == pirate.name;
            proof {
                assert(courses@ == courses_s);
                assert(counted == split_arena(*data, *pirate, allergy, *arena));
                assert(in_half(*data, *pirate, allergy, true, false)(*arena) == early);
                assert(in_half(*data, *pirate, allergy, true, true)(*arena) == (early && won));
                assert(in_half(*data, *pirate, allergy, false, false)(*arena) == late);
                assert(in_half(*data, *pirate, allergy, false, true)(*arena) == (late && won));
                lemma_arena_count_push(prefix, *arena, in_half(*data, *pirate, allergy, true, false));
                lemma_arena_count_push(prefix, *arena, in_half(*data, *pirate, allergy, true, true));
                lemma_arena_count_push(prefix, *arena, in_half(*data, *pirate, allergy, false, false));
                lemma_arena_count_push(prefix, *arena, in_half(*data, *pirate, allergy, false, true));
                lemma_arena_count_bound(prefix, in_half(*data, *pirate, allergy, true, false));
                lemma_arena_count_bound(prefix, in_half(*data, *pirate, allergy, true, true));
                lemma_arena_count_bound(prefix, in_half(*data, *pirate, allergy, false, false));
                lemma_arena_count_bound(prefix, in_half(*data, *pirate, allergy, false, true));
                assert(prefix.push(*arena) =~= before + day@.take(a + 1));
            }
            if early {
                r.early_n = r.early_n + 1;
                if won {
                    r.early_wins = r.early_wins + 1;
                }
            }
            if late {
                r.late_n = r.late_n + 1;
                if won {
                    r.late_wins = r.late_wins + 1;
                }
            }
            a = a + 1;
        }
        proof {
            assert(day@.take(day@.len() as int) =~= day@);
        }
        d = d + 1;
    }
    r
}

} // verus!
