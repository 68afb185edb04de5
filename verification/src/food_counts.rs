use crate::model::{alg_counts, count_where, course_counts, fav_counts};
use crate::pirates::{first_index, names, pirate_names, resolved_courses, GameData, HistArena, HistPirate};
use crate::stats::{all_slots, arena_slots, day_slots, days_slots};
use vstd::prelude::*;

verus! {

// ---------------------------------------------------------------------------
// Appearances and wins of each pirate by its favourite and allergy counts, in
// the arenas whose ten foods all name courses
// ---------------------------------------------------------------------------

/// One appearance of a known pirate in an arena whose ten foods all name
/// courses: the pirate's index, its favourite and allergy counts there
/// (allergies taking priority), and whether it won.
pub struct FoodSlot {
    pub pirate: int,
    pub nf: int,
    pub na: int,
    pub won: bool,
}

/// The courses named by an arena's foods, in order.
pub open spec fn arena_courses(data: GameData, a: HistArena) -> Seq<usize> {
    resolved_courses(names(data.courses@), names(a.foods@))
}

/// The slot of `hp` on `courses`, if the pirate is known.
pub open spec fn food_slot_of(data: GameData, courses: Seq<usize>, hp: HistPirate, winner: Seq<char>) -> Seq<FoodSlot> {
    let p = first_index(pirate_names(data.pirates@), hp.name@);
    if p >= 0 {
        let pirate = data.pirates@[p];
        seq![
            FoodSlot {
                pirate: p,
                nf: count_where(courses, fav_counts(pirate, 0)) as int,
                na: count_where(courses, alg_counts(pirate, 0)) as int,
                won: hp.name@ == winner,
            },
        ]
    } else {
        Seq::empty()
    }
}

/// The slots of the first `n` pirates of an arena on `courses`.
pub open spec fn pirates_food_slots(data: GameData, courses: Seq<usize>, ps: Seq<HistPirate>, winner: Seq<char>, n: int) -> Seq<FoodSlot>
    decreases n,
{
    if n <= 0 {
        Seq::empty()
    } else {
        pirates_food_slots(data, courses, ps, winner, n - 1) + food_slot_of(data, courses, ps[n - 1], winner)
    }
}

/// The slots of an arena: none unless its ten foods all name courses.
pub open spec fn arena_food_slots(data: GameData, a: HistArena) -> Seq<FoodSlot> {
    let courses = arena_courses(data, a);
    if courses.len() == 10 {
        pirates_food_slots(data, courses, a.pirates@, a.winner@, a.pirates@.len() as int)
    } else {
        Seq::empty()
    }
}

/// The slots of the first `n` arenas of a day.
pub open spec fn day_food_slots(data: GameData, day: Seq<HistArena>, n: int) -> Seq<FoodSlot>
    decreases n,
{
    if n <= 0 {
        Seq::empty()
    } else {
        day_food_slots(data, day, n - 1) + arena_food_slots(data, day[n - 1])
    }
}

/// The slots of the first `n` days.
pub open spec fn days_food_slots(data: GameData, days: Seq<Vec<HistArena>>, n: int) -> Seq<FoodSlot>
    decreases n,
{
    if n <= 0 {
        Seq::empty()
    } else {
        days_food_slots(data, days, n - 1) + day_food_slots(data, days[n - 1]@, days[n - 1]@.len() as int)
    }
}

/// Every slot of every day.
pub open spec fn all_food_slots(data: GameData, days: Seq<Vec<HistArena>>) -> Seq<FoodSlot> {
    days_food_slots(data, days, days.len() as int)
}

/// Number of slots of pirate `p` at counts `(nf, na)`; only won ones when `won_only`.
pub open spec fn bucket_count(slots: Seq<FoodSlot>, p: int, nf: int, na: int, won_only: bool) -> nat
    decreases slots.len(),
{
    if slots.len() == 0 {
        0
    } else {
        let s = slots.last();
        bucket_count(slots.drop_last(), p, nf, na, won_only) + if s.pirate == p && s.nf == nf && s.na == na && (
        !won_only || s.won) {
            1nat
        } else {
            0nat
        }
    }
}

/// Appearances and wins of pirate `p < n_pirates` at counts `nf, na < width`,
/// at index `(p * width + nf) * width + na`.
pub struct FoodTally {
    pub n_pirates: usize,
    pub width: usize,
    pub appearances: Vec<u32>,
    pub wins: Vec<u32>,
}

/// Index of a bucket.
pub open spec fn bucket_index(p: int, nf: int, na: int, w: int) -> int {
    (p * w + nf) * w + na
}

/// `t` counts exactly the `slots`.
pub open spec fn food_tally_match(t: FoodTally, slots: Seq<FoodSlot>) -> bool {
    let w = t.width as int;
    &&& t.appearances.len() == t.n_pirates * w * w
    &&& t.wins.len() == t.n_pirates * w * w
    &&& forall|p: int, nf: int, na: int|
        #![trigger t.appearances@[bucket_index(p, nf, na, w)]]
        #![trigger t.wins@[bucket_index(p, nf, na, w)]]
        0 <= p < t.n_pirates && 0 <= nf < w && 0 <= na < w ==> t.appearances@[bucket_index(p, nf, na, w)]
            == bucket_count(slots, p, nf, na, false) && t.wins@[bucket_index(p, nf, na, w)] == bucket_count(
            slots,
            p,
            nf,
            na,
            true,
        )
}

proof fn lemma_bucket_count_bound(slots: Seq<FoodSlot>, p: int, nf: int, na: int, won_only: bool)
    ensures
        bucket_count(slots, p, nf, na, won_only) <= slots.len(),
    decreases slots.len(),
{
    if slots.len() > 0 {
        lemma_bucket_count_bound(slots.drop_last(), p, nf, na, won_only);
    }
}

proof fn lemma_bucket_count_push(slots: Seq<FoodSlot>, s: FoodSlot, p: int, nf: int, na: int, won_only: bool)
    ensures
        bucket_count(slots.push(s), p, nf, na, won_only) == bucket_count(slots, p, nf, na, won_only) + if s.pirate
            == p && s.nf == nf && s.na == na && (!won_only || s.won) {
            1nat
        } else {
            0nat
        },
{
    assert(slots.push(s).drop_last() =~= slots);
}

/// Buckets of a `? x w x w` table have distinct indices.
proof fn lemma_bucket_index(p: int, nf: int, na: int, q: int, mf: int, ma: int, w: int)
    requires
        0 <= p,
        0 <= q,
        0 <= nf < w,
        0 <= mf < w,
        0 <= na < w,
        0 <= ma < w,
    ensures
        bucket_index(p, nf, na, w) == bucket_index(q, mf, ma, w) <==> (p == q && nf == mf && na == ma),
{
    lemma_row(p * w + nf, na, q * w + mf, ma, w);
    lemma_row(p, nf, q, mf, w);
    assert(p * w + nf >= 0) by (nonlinear_arith)
        requires
            0 <= p,
            0 <= nf,
            0 < w,
    ;
    assert(q * w + mf >= 0) by (nonlinear_arith)
        requires
            0 <= q,
            0 <= mf,
            0 < w,
    ;
}

/// Row-major indices of a `? x w` table are distinct.
proof fn lemma_row(q: int, j: int, r: int, k: int, w: int)
    ensures
        0 <= q && 0 <= r && 0 <= j < w && 0 <= k < w ==> (q * w + j == r * w + k <==> (q == r && j == k)),
{
    if 0 <= q && 0 <= r && 0 <= j < w && 0 <= k < w {
        if q < r {
            assert(q * w + j < r * w) by (nonlinear_arith)
                requires
                    0 <= q < r,
                    0 <= j < w,
            ;
        } else if q > r {
            assert(r * w + k < q * w) by (nonlinear_arith)
                requires
                    0 <= r < q,
                    0 <= k < w,
            ;
        }
    }
}

proof fn lemma_pirates_food_slots_len(data: GameData, courses: Seq<usize>, ps: Seq<HistPirate>, winner: Seq<char>, n: int)
    requires
        n >= 0,
    ensures
        pirates_food_slots(data, courses, ps, winner, n).len() <= n,
    decreases n,
{
    if n > 0 {
        lemma_pirates_food_slots_len(data, courses, ps, winner, n - 1);
    }
}

proof fn lemma_day_food_slots_len(data: GameData, day: Seq<HistArena>, n: int)
    requires
        n >= 0,
    ensures
        day_food_slots(data, day, n).len() <= day_slots(day, n).len(),
    decreases n,
{
    if n > 0 {
        lemma_day_food_slots_len(data, day, n - 1);
        let a = day[n - 1];
        lemma_pirates_food_slots_len(data, arena_courses(data, a), a.pirates@, a.winner@, a.pirates@.len() as int);
        assert(arena_slots(a, n - 1).len() == a.pirates@.len());
    }
}

/// There are no more food slots than pirate slots.
proof fn lemma_days_food_slots_len(data: GameData, days: Seq<Vec<HistArena>>, n: int)
    requires
        n >= 0,
    ensures
        days_food_slots(data, days, n).len() <= days_slots(days, n).len(),
    decreases n,
{
    if n > 0 {
        lemma_days_food_slots_len(data, days, n - 1);
        lemma_day_food_slots_len(data, days[n - 1]@, days[n - 1]@.len() as int);
    }
}

/// Counts slot `s` into the tally.
fn food_tally_add(t: &mut FoodTally, p: usize, nf: u32, na: u32, won: bool, Ghost(slots): Ghost<Seq<FoodSlot>>, Ghost(s): Ghost<FoodSlot>)
    requires
        food_tally_match(*old(t), slots),
        old(t).n_pirates * old(t).width * old(t).width <= usize::MAX,
        s.pirate == p,
        s.nf == nf,
        s.na == na,
        s.won == won,
        slots.len() + 1 < u32::MAX,
    ensures
        food_tally_match(*final(t), slots.push(s)),
        final(t).n_pirates == old(t).n_pirates,
        final(t).width == old(t).width,
{
    let ghost ns = slots.push(s);
    let w = t.width;
    if p < t.n_pirates && (nf as usize) < w && (na as usize) < w {
        proof {
            assert(bucket_index(p as int, nf as int, na as int, w as int) < t.n_pirates * w * w) by (nonlinear_arith)
                requires
                    p < t.n_pirates,
                    nf < w,
                    na < w,
            ;
            assert(bucket_index(p as int, nf as int, na as int, w as int) >= 0) by (nonlinear_arith)
                requires
                    p >= 0,
                    nf >= 0,
                    na >= 0,
                    w >= 0,
            ;
            assert((p * w + nf) * w + na < t.n_pirates * w * w) by (nonlinear_arith)
                requires
                    p < t.n_pirates,
                    nf < w,
                    na < w,
            ;
            assert(p * w + nf <= (p * w + nf) * w) by (nonlinear_arith)
                requires
                    nf < w,
                    p >= 0,
                    nf >= 0,
            ;
            assert(p * w <= p * w + nf);
            lemma_bucket_count_bound(slots, p as int, nf as int, na as int, false);
            lemma_bucket_count_bound(slots, p as int, nf as int, na as int, true);
            assert(t.appearances@[bucket_index(p as int, nf as int, na as int, w as int)] == bucket_count(
                slots,
                p as int,
                nf as int,
                na as int,
                false,
            ));
        }
        let i = (p * w + nf as usize) * w + na as usize;
        let a = t.appearances[i];
        t.appearances.set(i, a + 1);
        if won {
            let v = t.wins[i];
            t.wins.set(i, v + 1);
        }
        proof {
            assert forall|q: int, mf: int, ma: int|
                #![trigger t.appearances@[bucket_index(q, mf, ma, w as int)]]
                #![trigger t.wins@[bucket_index(q, mf, ma, w as int)]]
                0 <= q < t.n_pirates && 0 <= mf < w && 0 <= ma < w implies t.appearances@[bucket_index(
                    q,
                    mf,
                    ma,
                    w as int,
                )] == bucket_count(ns, q, mf, ma, false) && t.wins@[bucket_index(q, mf, ma, w as int)]
                == bucket_count(ns, q, mf, ma, true) by {
                assert(old(t).appearances@[bucket_index(q, mf, ma, w as int)] == bucket_count(slots, q, mf, ma, false));
                assert(old(t).wins@[bucket_index(q, mf, ma, w as int)] == bucket_count(slots, q, mf, ma, true));
                lemma_bucket_count_push(slots, s, q, mf, ma, false);
                lemma_bucket_count_push(slots, s, q, mf, ma, true);
                lemma_bucket_index(q, mf, ma, p as int, nf as int, na as int, w as int);
                assert(0 <= bucket_index(q, mf, ma, w as int) < t.n_pirates * w * w) by (nonlinear_arith)
                    requires
                        0 <= q < t.n_pirates,
                        0 <= mf < w,
                        0 <= ma < w,
                ;
            }
        }
    } else {
        proof {
            assert forall|q: int, mf: int, ma: int|
                #![trigger t.appearances@[bucket_index(q, mf, ma, w as int)]]
                #![trigger t.wins@[bucket_index(q, mf, ma, w as int)]]
                0 <= q < t.n_pirates && 0 <= mf < w && 0 <= ma < w implies t.appearances@[bucket_index(
                    q,
                    mf,
                    ma,
                    w as int,
                )] == bucket_count(ns, q, mf, ma, false) && t.wins@[bucket_index(q, mf, ma, w as int)]
                == bucket_count(ns, q, mf, ma, true) by {
                assert(old(t).appearances@[bucket_index(q, mf, ma, w as int)] == bucket_count(slots, q, mf, ma, false));
                assert(old(t).wins@[bucket_index(q, mf, ma, w as int)] == bucket_count(slots, q, mf, ma, true));
                lemma_bucket_count_push(slots, s, q, mf, ma, false);
                lemma_bucket_count_push(slots, s, q, mf, ma, true);
            }
        }
    }
}

/// Appearances and wins of every pirate by its (favourite, allergy) counts
/// below `width`, over the arenas of `days` whose ten foods all name courses;
/// favourites that are also allergies count as allergies, and pirates not in
/// `data` are left out.
pub fn food_count_tally(data: &GameData, days: &Vec<Vec<HistArena>>, width: usize) -> (t: FoodTally)
    requires
        all_slots(days@).len() < u32::MAX - 1,
        data.pirates.len() * width * width <= usize::MAX,
    ensures
        food_tally_match(t, all_food_slots(*data, days@)),
        t.n_pirates == data.pirates.len(),
        t.width == width,
{
    let n = data.pirates.len();
    assert(n * width * width == (n * width) * width);
    assert(n * width <= n * width * width || width == 0) by (nonlinear_arith)
        requires
            width >= 0,
            n >= 0,
    ;
    let cells: usize = if width == 0 { 0 } else { n * width * width };
    assert(cells == n * width * width);
    let mut t = FoodTally { n_pirates: n, width, appearances: Vec::new(), wins: Vec::new() };
    let mut c: usize = 0;
    while c < cells
        invariant
            cells == n * width * width,
            t.n_pirates == n,
            t.width == width,
            c <= cells,
            t.appearances.len() == c,
            t.wins.len() == c,
            forall|j: int| 0 <= j < c ==> #[trigger] t.appearances@[j] == 0 && t.wins@[j] == 0,
        decreases cells - c,
    {
        t.appearances.push(0);
        t.wins.push(0);
        c = c + 1;
    }
    proof {
        let w = width as int;
        assert forall|p: int, nf: int, na: int|
            #![trigger t.appearances@[bucket_index(p, nf, na, w)]]
            #![trigger t.wins@[bucket_index(p, nf, na, w)]]
            0 <= p < t.n_pirates && 0 <= nf < w && 0 <= na < w implies t.appearances@[bucket_index(p, nf, na, w)]
                == bucket_count(Seq::<FoodSlot>::empty(), p, nf, na, false) && t.wins@[bucket_index(
                p,
                nf,
                na,
                w,
            )] == bucket_count(Seq::<FoodSlot>::empty(), p, nf, na, true) by {
            assert(0 <= bucket_index(p, nf, na, w) < cells) by (nonlinear_arith)
                requires
                    0 <= p < n,
                    0 <= nf < w,
                    0 <= na < w,
                    cells == n * w * w,
            ;
            assert(t.appearances@[bucket_index(p, nf, na, w)] == 0);
            assert(t.wins@[bucket_index(p, nf, na, w)] == 0);
        }
        assert(days_food_slots(*data, days@, 0) =~= Seq::<FoodSlot>::empty());
    }
    let mut d: usize = 0;
    while d < days.len()
        invariant
            d <= days.len(),
            t.n_pirates == n,
            n == data.pirates.len(),
            t.width == width,
            n * width * width <= usize::MAX,
            all_slots(days@).len() < u32::MAX - 1,
            food_tally_match(t, days_food_slots(*data, days@, d as int)),
        decreases days.len() - d,
    {
        let day = &days[d];
        let ghost before_day = days_food_slots(*data, days@, d as int);
        proof {
            lemma_days_food_slots_len(*data, days@, d + 1);
            crate::stats::lemma_days_slots_len(days@, d + 1, days@.len() as int);
            assert(before_day + day_food_slots(*data, day@, 0) =~= before_day);
        }
        let mut a: usize = 0;
        while a < day.len()
            invariant
                a <= day.len(),
                *day == days@[d as int],
                d < days.len(),
                t.n_pirates == n,
                n == data.pirates.len(),
                t.width == width,
                n * width * width <= usize::MAX,
                before_day == days_food_slots(*data, days@, d as int),
                before_day + day_food_slots(*data, day@, day@.len() as int) == days_food_slots(*data, days@, d + 1),
                days_food_slots(*data, days@, d + 1).len() < u32::MAX - 1,
                food_tally_match(t, before_day + day_food_slots(*data, day@, a as int)),
            decreases day.len() - a,
        {
            let arena = &day[a];
            let ghost before_arena = before_day + day_food_slots(*data, day@, a as int);
            proof {
                lemma_day_food_prefix_len(*data, day@, a + 1, day@.len() as int);
            }
            let courses = data.resolve_courses(&arena.foods);
            if courses.len() == 10 {
                proof {
                    assert(before_arena + pirates_food_slots(*data, courses@, arena.pirates@, arena.winner@, 0) =~= before_arena);
                    lemma_pirates_food_prefix_len(*data, courses@, arena.pirates@, arena.winner@, 0, arena.pirates@.len() as int);
                }
                let mut i: usize = 0;
                while i < arena.pirates.len()
                    invariant
                        i <= arena.pirates.len(),
                        *arena == day@[a as int],
                        a < day.len(),
                        t.n_pirates == n,
                        n == data.pirates.len(),
                        t.width == width,
                        n * width * width <= usize::MAX,
                        courses@ == arena_courses(*data, *arena),
                        courses@.len() == 10,
                        before_arena == before_day + day_food_slots(*data, day@, a as int),
                        (before_arena + arena_food_slots(*data, *arena)).len() < u32::MAX - 1,
                        food_tally_match(t, before_arena + pirates_food_slots(*data, courses@, arena.pirates@, arena.winner@, i as int)),
                    decreases arena.pirates.len() - i,
                {
                    let hp = &arena.pirates[i];
                    let ghost prefix = before_arena + pirates_food_slots(*data, courses@, arena.pirates@, arena.winner@, i as int);
                    proof {
                        lemma_pirates_food_prefix_len(*data, courses@, arena.pirates@, arena.winner@, i + 1, arena.pirates@.len() as int);
                        lemma_pirates_food_prefix_len(*data, courses@, arena.pirates@, arena.winner@, i as int, i + 1);
                    }
                    match data.find_pirate(hp.name.as_str()) {
                        Some(p) => {
                            let (nf, na) = course_counts(&data.pirates[p], &courses, 0);
                            let won = hp.name == arena.winner;
                            let ghost slot = FoodSlot {
                                pirate: p as int,
                                nf: nf as int,
                                na: na as int,
                                won,
                            };
                            food_tally_add(&mut t, p, nf, na, won, Ghost(prefix), Ghost(slot));
                            proof {
                                assert(food_slot_of(*data, courses@, arena.pirates@[i as int], arena.winner@) =~= seq![slot]);
                                assert(prefix.push(slot) =~= before_arena + pirates_food_slots(
                                    *data,
                                    courses@,
                                    arena.pirates@,
                                    arena.winner@,
                                    i + 1,
                                ));
                            }
                        },
                        None => {
                            proof {
                                assert(food_slot_of(*data, courses@, arena.pirates@[i as int], arena.winner@) =~= Seq::<FoodSlot>::empty());
                                assert(prefix =~= before_arena + pirates_food_slots(
                                    *data,
                                    courses@,
                                    arena.pirates@,
                                    arena.winner@,
                                    i + 1,
                                ));
                            }
                        },
                    }
                    i = i + 1;
                }
                proof {
                    assert(before_day + day_food_slots(*data, day@, a + 1) =~= before_arena + arena_food_slots(*data, *arena));
                }
            } else {
                proof {
                    assert(arena_food_slots(*data, *arena) =~= Seq::<FoodSlot>::empty());
                    assert(before_day + day_food_slots(*data, day@, a + 1) =~= before_arena);
                }
            }
            a = a + 1;
        }
        proof {
            assert(days_food_slots(*data, days@, d + 1) =~= before_day + day_food_slots(*data, day@, day@.len() as int));
        }
        d = d + 1;
    }
    t
}

/// Longer prefixes of an arena's pirates give no fewer slots.
proof fn lemma_pirates_food_prefix_len(data: GameData, courses: Seq<usize>, ps: Seq<HistPirate>, winner: Seq<char>, i: int, j: int)
    requires
        0 <= i <= j,
    ensures
        pirates_food_slots(data, courses, ps, winner, i).len() <= pirates_food_slots(data, courses, ps, winner, j).len(),
    decreases j - i,
{
    if i < j {
        lemma_pirates_food_prefix_len(data, courses, ps, winner, i, j - 1);
    }
}

/// Longer prefixes of a day's arenas give no fewer slots.
proof fn lemma_day_food_prefix_len(data: GameData, day: Seq<HistArena>, i: int, j: int)
    requires
        0 <= i <= j,
    ensures
        day_food_slots(data, day, i).len() <= day_food_slots(data, day, j).len(),
    decreases j - i,
{
    if i < j {
        lemma_day_food_prefix_len(data, day, i, j - 1);
    }
}

} // verus!
