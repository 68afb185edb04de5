//! Head-to-head records: for every two pirates that met in an arena, how
//! often they met and how often each of them won.

use crate::pirates::HistArena;
use vstd::prelude::*;

verus! {

/// Two pirates listed in one arena, the first listed before the second, and
/// the arena's winner.
pub struct PairEvent {
    pub a: Seq<char>,
    pub b: Seq<char>,
    pub winner: Seq<char>,
}

/// The meetings of pirate `i` of arena `a` with each pirate after it and
/// below `j`.
pub open spec fn row_events(a: HistArena, i: int, j: int) -> Seq<PairEvent>
    decreases j - i,
{
    if j <= i + 1 {
        Seq::empty()
    } else {
        row_events(a, i, j - 1).push(
            PairEvent { a: a.pirates@[i].name@, b: a.pirates@[j - 1].name@, winner: a.winner@ },
        )
    }
}

/// The meetings in arena `a` of its first `i` pirates with those after them.
pub open spec fn arena_events_upto(a: HistArena, i: int) -> Seq<PairEvent>
    decreases i,
{
    if i <= 0 {
        Seq::empty()
    } else {
        arena_events_upto(a, i - 1) + row_events(a, i - 1, a.pirates@.len() as int)
    }
}

/// Every meeting of two pirates in arena `a`.
pub open spec fn arena_events(a: HistArena) -> Seq<PairEvent> {
    arena_events_upto(a, a.pirates@.len() as int)
}

/// The meetings in the first `n` arenas of a day.
pub open spec fn day_events(day: Seq<HistArena>, n: int) -> Seq<PairEvent>
    decreases n,
{
    if n <= 0 {
        Seq::empty()
    } else {
        day_events(day, n - 1) + arena_events(day[n - 1])
    }
}

/// The meetings in the first `n` days.
pub open spec fn days_events(days: Seq<Vec<HistArena>>, n: int) -> Seq<PairEvent>
    decreases n,
{
    if n <= 0 {
        Seq::empty()
    } else {
        days_events(days, n - 1) + day_events(days[n - 1]@, days[n - 1]@.len() as int)
    }
}

/// Every meeting of two pirates over all `days`.
pub open spec fn all_pair_events(days: Seq<Vec<HistArena>>) -> Seq<PairEvent> {
    days_events(days, days.len() as int)
}

/// `{x, y}` and `{a, b}` are the same two names, in either order.
pub open spec fn same_pair(x: Seq<char>, y: Seq<char>, a: Seq<char>, b: Seq<char>) -> bool {
    (x == a && y == b) || (x == b && y == a)
}

/// Meetings of `a` and `b`.
pub open spec fn of_pair(a: Seq<char>, b: Seq<char>) -> spec_fn(PairEvent) -> bool {
    |e: PairEvent| same_pair(e.a, e.b, a, b)
}

/// Meetings of `a` and `b` that `w` won.
pub open spec fn of_pair_won_by(a: Seq<char>, b: Seq<char>, w: Seq<char>) -> spec_fn(PairEvent) -> bool {
    |e: PairEvent| same_pair(e.a, e.b, a, b) && e.winner == w
}

/// Number of meetings satisfying `p`.
pub open spec fn event_count(evs: Seq<PairEvent>, p: spec_fn(PairEvent) -> bool) -> nat
    decreases evs.len(),
{
    if evs.len() == 0 {
        0
    } else {
        event_count(evs.drop_last(), p) + if p(evs.last()) {
            1nat
        } else {
            0nat
        }
    }
}

/// Head-to-head records, one row per pair of pirates that met, in the order
/// of their first meeting: the pair's names (as first listed), how often they
/// met, and how often each of the two won.
pub struct PairTally {
    pub first: Vec<String>,
    pub second: Vec<String>,
    pub together: Vec<u32>,
    pub first_wins: Vec<u32>,
    pub second_wins: Vec<u32>,
}

/// `t` has a row for the two pirates of meeting `e`.
pub open spec fn has_row(t: PairTally, e: PairEvent) -> bool {
    exists|r: int| 0 <= r < t.first.len() && #[trigger] same_pair(e.a, e.b, t.first@[r]@, t.second@[r]@)
}

/// `t` records exactly the meetings `evs`.
pub open spec fn pair_tally_match(t: PairTally, evs: Seq<PairEvent>) -> bool {
    let n = t.first.len();
    &&& t.second.len() == n
    &&& t.together.len() == n
    &&& t.first_wins.len() == n
    &&& t.second_wins.len() == n
    &&& forall|r: int, q: int|
        0 <= r < q < n ==> !same_pair(
            #[trigger] t.first@[r]@,
            t.second@[r]@,
            #[trigger] t.first@[q]@,
            t.second@[q]@,
        )
    &&& forall|r: int|
        0 <= r < n ==> #[trigger] t.together@[r] == event_count(evs, of_pair(t.first@[r]@, t.second@[r]@))
    &&& forall|r: int|
        0 <= r < n ==> #[trigger] t.first_wins@[r] == event_count(
            evs,
            of_pair_won_by(t.first@[r]@, t.second@[r]@, t.first@[r]@),
        )
    &&& forall|r: int|
        0 <= r < n ==> #[trigger] t.second_wins@[r] == event_count(
            evs,
            of_pair_won_by(t.first@[r]@, t.second@[r]@, t.second@[r]@),
        )
    &&& forall|i: int| 0 <= i < evs.len() ==> #[trigger] has_row(t, evs[i])
    &&& forall|r: int| 0 <= r < n ==> #[trigger] t.together@[r] >= 1
}

proof fn lemma_event_count_push(evs: Seq<PairEvent>, e: PairEvent, p: spec_fn(PairEvent) -> bool)
    ensures
        event_count(evs.push(e), p) == event_count(evs, p) + if p(e) {
            1nat
        } else {
            0nat
        },
{
    assert(evs.push(e).drop_last() =~= evs);
}

proof fn lemma_event_count_bound(evs: Seq<PairEvent>, p: spec_fn(PairEvent) -> bool)
    ensures
        event_count(evs, p) <= evs.len(),
    decreases evs.len(),
{
    if evs.len() > 0 {
        lemma_event_count_bound(evs.drop_last(), p);
    }
}

proof fn lemma_event_count_none(evs: Seq<PairEvent>, p: spec_fn(PairEvent) -> bool)
    requires
        forall|i: int| 0 <= i < evs.len() ==> !p(#[trigger] evs[i]),
    ensures
        event_count(evs, p) == 0,
    decreases evs.len(),
{
    if evs.len() > 0 {
        assert(!p(evs[evs.len() - 1]));
        lemma_event_count_none(evs.drop_last(), p);
    }
}

/// Row of the pair `{x, y}`, if it has one.
fn find_pair(first: &Vec<String>, second: &Vec<String>, x: &String, y: &String) -> (r: Option<usize>)
    requires
        first.len() == second.len(),
    ensures
        match r {
            Some(i) => i < first.len() && same_pair(x@, y@, first@[i as int]@, second@[i as int]@),
            None => forall|i: int| 0 <= i < first.len() ==> !#[trigger] same_pair(x@, y@, first@[i]@, second@[i]@),
        },
{
    let mut i: usize = 0;
    while i < first.len()
        invariant
            i <= first.len(),
            first.len() == second.len(),
            forall|j: int| 0 <= j < i ==> !#[trigger] same_pair(x@, y@, first@[j]@, second@[j]@),
        decreases first.len() - i,
    {
        if (first[i] == *x && second[i] == *y) || (first[i] == *y && second[i] == *x) {
            return Some(i);
        }
        i = i + 1;
    }
    None
}

/// Records one meeting of `x` (listed first) and `y`, won by `w`.
fn pair_tally_add(t: &mut PairTally, x: &String, y: &String, w: &String, Ghost(evs): Ghost<Seq<PairEvent>>)
    requires
        pair_tally_match(*old(t), evs),
        evs.len() + 1 <= u32::MAX,
    ensures
        pair_tally_match(*final(t), evs.push(PairEvent { a: x@, b: y@, winner: w@ })),
{
    let ghost e = PairEvent { a: x@, b: y@, winner: w@ };
    let ghost ns = evs.push(e);
    let ghost t0 = *t;
    proof {
        assert forall|q: int| 0 <= q < t.first.len() implies {
            &&& #[trigger] event_count(ns, of_pair(t.first@[q]@, t.second@[q]@)) == event_count(
                evs,
                of_pair(t.first@[q]@, t.second@[q]@),
            ) + if same_pair(x@, y@, t.first@[q]@, t.second@[q]@) {
                1nat
            } else {
                0nat
            }
            &&& event_count(ns, of_pair_won_by(t.first@[q]@, t.second@[q]@, t.first@[q]@)) == event_count(
                evs,
                of_pair_won_by(t.first@[q]@, t.second@[q]@, t.first@[q]@),
            ) + if same_pair(x@, y@, t.first@[q]@, t.second@[q]@) && w@ == t.first@[q]@ {
                1nat
            } else {
                0nat
            }
            &&& event_count(ns, of_pair_won_by(t.first@[q]@, t.second@[q]@, t.second@[q]@)) == event_count(
                evs,
                of_pair_won_by(t.first@[q]@, t.second@[q]@, t.second@[q]@),
            ) + if same_pair(x@, y@, t.first@[q]@, t.second@[q]@) && w@ == t.second@[q]@ {
                1nat
            } else {
                0nat
            }
        } by {
            lemma_event_count_push(evs, e, of_pair(t.first@[q]@, t.second@[q]@));
            lemma_event_count_push(evs, e, of_pair_won_by(t.first@[q]@, t.second@[q]@, t.first@[q]@));
            lemma_event_count_push(evs, e, of_pair_won_by(t.first@[q]@, t.second@[q]@, t.second@[q]@));
        }
    }
    match find_pair(&t.first, &t.second, x, y) {
        Some(r) => {
            proof {
                lemma_event_count_bound(evs, of_pair(t.first@[r as int]@, t.second@[r as int]@));
                lemma_event_count_bound(evs, of_pair_won_by(t.first@[r as int]@, t.second@[r as int]@, t.first@[r as int]@));
                lemma_event_count_bound(evs, of_pair_won_by(t.first@[r as int]@, t.second@[r as int]@, t.second@[r as int]@));
                assert forall|q: int| 0 <= q < t.first.len() && q != r implies !same_pair(
                    x@,
                    y@,
                    #[trigger] t.first@[q]@,
                    t.second@[q]@,
                ) by {
                    if q < r {
                        assert(!same_pair(t.first@[q]@, t.second@[q]@, t.first@[r as int]@, t.second@[r as int]@));
                    } else {
                        assert(!same_pair(t.first@[r as int]@, t.second@[r as int]@, t.first@[q]@, t.second@[q]@));
                    }
                }
            }
            let c = t.together[r];
            t.together.set(r, c + 1);
            if *w == t.first[r] {
                let v = t.first_wins[r];
                t.first_wins.set(r, v + 1);
            }
            if *w == t.second[r] {
                let v = t.second_wins[r];
                t.second_wins.set(r, v + 1);
            }
            proof {
                assert forall|i: int| 0 <= i < ns.len() implies #[trigger] has_row(*t, ns[i]) by {
                    if i < evs.len() {
                        assert(ns[i] == evs[i]);
                        assert(has_row(t0, evs[i]));
                        let q = choose|q: int|
                            0 <= q < t0.first.len() && #[trigger] same_pair(evs[i].a, evs[i].b, t0.first@[q]@, t0.second@[q]@);
                        assert(same_pair(ns[i].a, ns[i].b, t.first@[q]@, t.second@[q]@));
                    } else {
                        assert(same_pair(ns[i].a, ns[i].b, t.first@[r as int]@, t.second@[r as int]@));
                    }
                }
                assert forall|q: int| 0 <= q < t.first.len() implies #[trigger] t.together@[q] == event_count(ns, of_pair(t.first@[q]@, t.second@[q]@)) by {}
                assert forall|q: int| 0 <= q < t.first.len() implies #[trigger] t.first_wins@[q] == event_count(ns, of_pair_won_by(t.first@[q]@, t.second@[q]@, t.first@[q]@)) by {
                    if q < t0.first.len() {
                        assert(event_count(ns, of_pair(t0.first@[q]@, t0.second@[q]@)) >= 0);
                    }
                }
                assert forall|q: int| 0 <= q < t.first.len() implies #[trigger] t.second_wins@[q] == event_count(ns, of_pair_won_by(t.first@[q]@, t.second@[q]@, t.second@[q]@)) by {
                    if q < t0.first.len() {
                        assert(event_count(ns, of_pair(t0.first@[q]@, t0.second@[q]@)) >= 0);
                    }
                }
                assert forall|q: int| 0 <= q < t.first.len() implies #[trigger] t.together@[q] >= 1 by {}

            }
        },
        None => {
            proof {
                assert forall|i: int| 0 <= i < evs.len() implies !of_pair(x@, y@)(#[trigger] evs[i]) by {
                    assert(has_row(t0, evs[i]));
                    let q = choose|q: int|
                        0 <= q < t0.first.len() && #[trigger] same_pair(evs[i].a, evs[i].b, t0.first@[q]@, t0.second@[q]@);
                    assert(!same_pair(x@, y@, t0.first@[q]@, t0.second@[q]@));
                }
                lemma_event_count_none(evs, of_pair(x@, y@));
                assert forall|i: int| 0 <= i < evs.len() implies !of_pair_won_by(x@, y@, x@)(#[trigger] evs[i]) by {
                    assert(!of_pair(x@, y@)(evs[i]));
                }
                lemma_event_count_none(evs, of_pair_won_by(x@, y@, x@));
                assert forall|i: int| 0 <= i < evs.len() implies !of_pair_won_by(x@, y@, y@)(#[trigger] evs[i]) by {
                    assert(!of_pair(x@, y@)(evs[i]));
                }
                lemma_event_count_none(evs, of_pair_won_by(x@, y@, y@));
                lemma_event_count_push(evs, e, of_pair(x@, y@));
                lemma_event_count_push(evs, e, of_pair_won_by(x@, y@, x@));
                lemma_event_count_push(evs, e, of_pair_won_by(x@, y@, y@));
            }
            let n0 = t.first.len();
            t.first.push(x.clone());
            t.second.push(y.clone());
            t.together.push(1);
            t.first_wins.push(if *w == *x {
                1
            } else {
                0
            });
            t.second_wins.push(if *w == *y {
                1
            } else {
                0
            });
            proof {
                assert forall|r: int, q: int| 0 <= r < q < t.first.len() implies !same_pair(
                    #[trigger] t.first@[r]@,
                    t.second@[r]@,
                    #[trigger] t.first@[q]@,
                    t.second@[q]@,
                ) by {
                    if q == n0 {
                        assert(!same_pair(x@, y@, t0.first@[r]@, t0.second@[r]@));
                    } else {
                        assert(!same_pair(t0.first@[r]@, t0.second@[r]@, t0.first@[q]@, t0.second@[q]@));
                    }
                }
                assert forall|i: int| 0 <= i < ns.len() implies #[trigger] has_row(*t, ns[i]) by {
                    if i < evs.len() {
                        assert(ns[i] == evs[i]);
                        assert(has_row(t0, evs[i]));
                        let q = choose|q: int|
                            0 <= q < t0.first.len() && #[trigger] same_pair(evs[i].a, evs[i].b, t0.first@[q]@, t0.second@[q]@);
                        assert(same_pair(ns[i].a, ns[i].b, t.first@[q]@, t.second@[q]@));
                    } else {
                        assert(same_pair(ns[i].a, ns[i].b, t.first@[n0 as int]@, t.second@[n0 as int]@));
                    }
                }
                assert forall|q: int| 0 <= q < t.first.len() implies #[trigger] t.together@[q] == event_count(ns, of_pair(t.first@[q]@, t.second@[q]@)) by {}
                assert forall|q: int| 0 <= q < t.first.len() implies #[trigger] t.first_wins@[q] == event_count(ns, of_pair_won_by(t.first@[q]@, t.second@[q]@, t.first@[q]@)) by {
                    if q < t0.first.len() {
                        assert(event_count(ns, of_pair(t0.first@[q]@, t0.second@[q]@)) >= 0);
                    }
                }
                assert forall|q: int| 0 <= q < t.first.len() implies #[trigger] t.second_wins@[q] == event_count(ns, of_pair_won_by(t.first@[q]@, t.second@[q]@, t.second@[q]@)) by {
                    if q < t0.first.len() {
                        assert(event_count(ns, of_pair(t0.first@[q]@, t0.second@[q]@)) >= 0);
                    }
                }
                assert forall|q: int| 0 <= q < t.first.len() implies #[trigger] t.together@[q] >= 1 by {}

            }
        },
    }
}

proof fn lemma_row_events_len(a: HistArena, i: int, j: int)
    requires
        i + 1 <= j,
    ensures
        row_events(a, i, j).len() == j - i - 1,
    decreases j - i,
{
    if j > i + 1 {
        lemma_row_events_len(a, i, j - 1);
    }
}

proof fn lemma_upto_len(a: HistArena, i: int, k: int)
    requires
        0 <= i <= k,
    ensures
        arena_events_upto(a, i).len() <= arena_events_upto(a, k).len(),
    decreases k - i,
{
    if i < k {
        lemma_upto_len(a, i, k - 1);
    }
}

proof fn lemma_day_events_len(day: Seq<HistArena>, a: int, b: int)
    requires
        0 <= a <= b,
    ensures
        day_events(day, a).len() <= day_events(day, b).len(),
    decreases b - a,
{
    if a < b {
        lemma_day_events_len(day, a, b - 1);
    }
}

proof fn lemma_days_events_len(days: Seq<Vec<HistArena>>, d: int, e: int)
    requires
        0 <= d <= e,
    ensures
        days_events(days, d).len() <= days_events(days, e).len(),
    decreases e - d,
{
    if d < e {
        lemma_days_events_len(days, d, e - 1);
    }
}

/// Head-to-head records of every two pirates listed together in an arena of
/// `days`: each pair of list positions of an arena is one meeting.
pub fn pair_tally(days: &Vec<Vec<HistArena>>) -> (t: PairTally)
    requires
        all_pair_events(days@).len() < u32::MAX,
    ensures
        pair_tally_match(t, all_pair_events(days@)),
{
    let mut t = PairTally {
        first: Vec::new(),
        second: Vec::new(),
        together: Vec::new(),
        first_wins: Vec::new(),
        second_wins: Vec::new(),
    };
    proof {
        assert(days_events(days@, 0) =~= Seq::<PairEvent>::empty());
    }
    let mut d: usize = 0;
    while d < days.len()
        invariant
            d <= days.len(),
            all_pair_events(days@).len() < u32::MAX,
            pair_tally_match(t, days_events(days@, d as int)),
        decreases days.len() - d,
    {
        let day = &days[d];
        let ghost before_day = days_events(days@, d as int);
        proof {
            lemma_days_events_len(days@, d + 1, days@.len() as int);
            assert(before_day + day_events(day@, 0) =~= before_day);
        }
        let mut a: usize = 0;
        while a < day.len()
            invariant
                a <= day.len(),
                *day == days@[d as int],
                d < days.len(),
                before_day == days_events(days@, d as int),
                before_day.len() + day_events(day@, day@.len() as int).len() < u32::MAX,
                pair_tally_match(t, before_day + day_events(day@, a as int)),
            decreases day.len() - a,
        {
            let arena = &day[a];
            let n = arena.pirates.len();
            let ghost before_arena = before_day + day_events(day@, a as int);
            proof {
                lemma_day_events_len(day@, a + 1, day@.len() as int);
                assert(before_arena + arena_events_upto(*arena, 0) =~= before_arena);
            }
            let mut i: usize = 0;
            while i < n
                invariant
                    i <= n,
                    n == arena.pirates@.len(),
                    *arena == day@[a as int],
                    a < day.len(),
                    before_arena == before_day + day_events(day@, a as int),
                    before_arena.len() + arena_events(*arena).len() < u32::MAX,
                    pair_tally_match(t, before_arena + arena_events_upto(*arena, i as int)),
                decreases n - i,
            {
                let ghost before_row = before_arena + arena_events_upto(*arena, i as int);
                proof {
                    lemma_upto_len(*arena, i + 1, n as int);
                    assert(before_row + row_events(*arena, i as int, i + 1) =~= before_row);
                }
                let mut j: usize = i + 1;
                while j < n
                    invariant
                        i < n,
                        i + 1 <= j <= n,
                        n == arena.pirates@.len(),
                        before_row == before_arena + arena_events_upto(*arena, i as int),
                        before_arena.len() + arena_events_upto(*arena, i + 1).len() < u32::MAX,
                        pair_tally_match(t, before_row + row_events(*arena, i as int, j as int)),
                    decreases n - j,
                {
                    let ghost prefix = before_row + row_events(*arena, i as int, j as int);
                    proof {
                        lemma_row_events_len(*arena, i as int, j as int);
                        lemma_row_events_len(*arena, i as int, n as int);
                    }
                    pair_tally_add(&mut t, &arena.pirates[i].name, &arena.pirates[j].name, &arena.winner, Ghost(prefix));
                    proof {
                        assert(prefix.push(
                            PairEvent { a: arena.pirates@[i as int].name@, b: arena.pirates@[j as int].name@, winner: arena.winner@ },
                        ) =~= before_row + row_events(*arena, i as int, j + 1));
                    }
                    j = j + 1;
                }
                proof {
                    assert(before_arena + arena_events_upto(*arena, i + 1) =~= before_row + row_events(
                        *arena,
                        i as int,
                        n as int,
                    ));
                }
                i = i + 1;
            }
            proof {
                assert(before_day + day_events(day@, a + 1) =~= before_arena + arena_events(*arena));
            }
            a = a + 1;
        }
        proof {
            assert(days_events(days@, d + 1) =~= before_day + day_events(day@, day@.len() as int));
        }
        d = d + 1;
    }
    t
}

} // verus!
