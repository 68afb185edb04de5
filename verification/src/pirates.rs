use std::collections::HashSet;
use vstd::prelude::*;

verus! {

broadcast use vstd::std_specs::hash::group_hash_axioms;

/// A pirate as listed in the game data, with its food categories by name.
pub struct RawPirate {
    pub name: String,
    pub weight: u32,
    pub strength: u32,
    pub favorites: Vec<String>,
    pub allergies: Vec<String>,
}

/// A course of the game data and the food categories it belongs to.
pub struct RawCourse {
    pub name: String,
    pub categories: Vec<String>,
}

/// The game data as read: pirates, and the courses in the order given.
pub struct RawData {
    pub pirates: Vec<RawPirate>,
    pub courses: Vec<RawCourse>,
}

/// A pirate with its favourite and allergy foods resolved to course indices.
pub struct Pirate {
    pub name: String,
    pub weight: u32,
    pub strength: u32,
    pub favorite_courses: HashSet<usize>,
    pub allergy_courses: HashSet<usize>,
}

/// Resolved game data: pirates, and course index -> course name.
pub struct GameData {
    pub pirates: Vec<Pirate>,
    pub courses: Vec<String>,
}

/// The names of a vector of strings, as character sequences.
pub open spec fn names(v: Seq<String>) -> Seq<Seq<char>> {
    v.map_values(|s: String| s@)
}

/// Some category of `course_cats` is one of the `wanted` categories.
pub open spec fn shares_category(course_cats: Seq<String>, wanted: Seq<String>) -> bool {
    exists|j: int, k: int|
        0 <= j < course_cats.len() && 0 <= k < wanted.len() && #[trigger] course_cats[j]@
            == #[trigger] wanted[k]@
}

/// Indices of the courses that belong to at least one of the `wanted` categories.
pub open spec fn courses_in_categories(courses: Seq<RawCourse>, wanted: Seq<String>) -> Set<usize> {
    Set::new(
        |c: usize| c < courses.len() && shares_category(courses[c as int].categories@, wanted),
    )
}

/// `pirate` is `raw` with its categories resolved against `courses`.
pub open spec fn resolves(pirate: Pirate, raw: RawPirate, courses: Seq<RawCourse>) -> bool {
    &&& pirate.name@ == raw.name@
    &&& pirate.weight == raw.weight
    &&& pirate.strength == raw.strength
    &&& pirate.favorite_courses@ == courses_in_categories(courses, raw.favorites@)
    &&& pirate.allergy_courses@ == courses_in_categories(courses, raw.allergies@)
}

/// Position of the first element of `s` equal to `x`, or -1 when there is none.
pub open spec fn first_index(s: Seq<Seq<char>>, x: Seq<char>) -> int
    decreases s.len(),
{
    if s.len() == 0 {
        -1
    } else if s[0] == x {
        0
    } else {
        let r = first_index(s.drop_first(), x);
        if r < 0 { -1 } else { r + 1 }
    }
}

pub proof fn lemma_first_index(s: Seq<Seq<char>>, x: Seq<char>)
    ensures
        -1 <= first_index(s, x) < s.len(),
        first_index(s, x) >= 0 ==> s[first_index(s, x)] == x,
        forall|j: int| 0 <= j < first_index(s, x) ==> s[j] != x,
        first_index(s, x) < 0 ==> forall|j: int| 0 <= j < s.len() ==> s[j] != x,
    decreases s.len(),
{
    if s.len() > 0 && s[0] != x {
        lemma_first_index(s.drop_first(), x);
        assert forall|j: int| 0 < j < s.len() implies s[j] == s.drop_first()[j - 1] by {}
    }
}

/// Where no name occurs twice, the first index of a name is its only index:
/// a lookup by first match then finds exactly the position that holds it.
pub proof fn law_first_index_distinct(s: Seq<Seq<char>>, x: Seq<char>, i: int)
    requires
        forall|j: int, k: int| 0 <= j < k < s.len() ==> s[j] != s[k],
        0 <= i < s.len(),
    ensures
        first_index(s, x) == i <==> s[i] == x,
{
    lemma_first_index(s, x);
    if s[i] == x {
        let f = first_index(s, x);
        assert(f >= 0);
        if f < i {
            assert(s[f] != s[i]);
        }
    }
}

/// Whether `v` holds a string equal to `s`.
fn contains_string(v: &Vec<String>, s: &String) -> (found: bool)
    ensures
        found == exists|k: int| 0 <= k < v.len() && #[trigger] v@[k]@ == s@,
{
    let mut k: usize = 0;
    while k < v.len()
        invariant
            k <= v.len(),
            forall|j: int| 0 <= j < k ==> #[trigger] v@[j]@ != s@,
        decreases v.len() - k,
    {
        if v[k] == *s {
            return true;
        }
        k = k + 1;
    }
    false
}

/// Whether some category of `cats` is one of `wanted`.
fn any_category(cats: &Vec<String>, wanted: &Vec<String>) -> (found: bool)
    ensures
        found == shares_category(cats@, wanted@),
{
    let mut j: usize = 0;
    while j < cats.len()
        invariant
            j <= cats.len(),
            forall|i: int, k: int|
                0 <= i < j && 0 <= k < wanted.len() ==> #[trigger] cats@[i]@ != #[trigger] wanted@[k]@,
        decreases cats.len() - j,
    {
        if contains_string(wanted, &cats[j]) {
            return true;
        }
        j = j + 1;
    }
    false
}

/// The set of course indices whose course belongs to one of the `wanted` categories.
fn resolve_categories(courses: &Vec<RawCourse>, wanted: &Vec<String>) -> (set: HashSet<usize>)
    ensures
        set@ == courses_in_categories(courses@, wanted@),
{
    let mut set: HashSet<usize> = HashSet::new();
    let mut c: usize = 0;
    while c < courses.len()
        invariant
            c <= courses.len(),
            set@ == Set::new(
                |x: usize| x < c && shares_category(courses@[x as int].categories@, wanted@),
            ),
        decreases courses.len() - c,
    {
        if any_category(&courses[c].categories, wanted) {
            set.insert(c);
        }
        c = c + 1;
        assert(set@ =~= Set::new(
            |x: usize| x < c && shares_category(courses@[x as int].categories@, wanted@),
        ));
    }
    assert(set@ =~= courses_in_categories(courses@, wanted@));
    set
}

fn clone_string(s: &String) -> (r: String)
    ensures
        r@ == s@,
{
    s.clone()
}

impl GameData {
    /// Builds the game data: courses keep the order given, and each pirate's
    /// favourite (allergy) courses are the courses that belong to one of its
    /// favourite (allergy) categories.
    pub fn load(raw: &RawData) -> (data: GameData)
        ensures
            names(data.courses@) == raw.courses@.map_values(|c: RawCourse| c.name@),
            data.pirates.len() == raw.pirates.len(),
            forall|i: int|
                0 <= i < data.pirates.len() ==> resolves(
                    #[trigger] data.pirates@[i],
                    raw.pirates@[i],
                    raw.courses@,
                ),
    {
        let mut courses: Vec<String> = Vec::new();
        let mut c: usize = 0;
        while c < raw.courses.len()
            invariant
                c <= raw.courses.len(),
                courses.len() == c,
                forall|j: int| 0 <= j < c ==> #[trigger] courses@[j]@ == raw.courses@[j].name@,
            decreases raw.courses.len() - c,
        {
            courses.push(clone_string(&raw.courses[c].name));
            c = c + 1;
        }
        let mut pirates: Vec<Pirate> = Vec::new();
        let mut i: usize = 0;
        while i < raw.pirates.len()
            invariant
                i <= raw.pirates.len(),
                pirates.len() == i,
                forall|j: int|
                    0 <= j < i ==> resolves(#[trigger] pirates@[j], raw.pirates@[j], raw.courses@),
            decreases raw.pirates.len() - i,
        {
            let rp = &raw.pirates[i];
            let p = Pirate {
                name: clone_string(&rp.name),
                weight: rp.weight,
                strength: rp.strength,
                favorite_courses: resolve_categories(&raw.courses, &rp.favorites),
                allergy_courses: resolve_categories(&raw.courses, &rp.allergies),
            };
            pirates.push(p);
            i = i + 1;
        }
        assert(names(courses@) =~= raw.courses@.map_values(|c: RawCourse| c.name@));
        GameData { pirates, courses }
    }
}


/// The names of the pirates, in order.
pub open spec fn pirate_names(ps: Seq<Pirate>) -> Seq<Seq<char>> {
    ps.map_values(|p: Pirate| p.name@)
}

/// Whether two strings hold the same characters.
fn str_eq(a: &str, b: &str) -> (eq: bool)
    ensures
        eq == (a@ == b@),
{
    let n = a.unicode_len();
    if n != b.unicode_len() {
        return false;
    }
    let mut i: usize = 0;
    while i < n
        invariant
            n == a@.len() == b@.len(),
            i <= n,
            forall|j: int| 0 <= j < i ==> a@[j] == b@[j],
        decreases n - i,
    {
        if a.get_char(i) != b.get_char(i) {
            return false;
        }
        i = i + 1;
    }
    assert(a@ =~= b@);
    true
}

impl GameData {
    pub open spec fn course_names(&self) -> Seq<Seq<char>> {
        names(self.courses@)
    }

    pub open spec fn names_of_pirates(&self) -> Seq<Seq<char>> {
        pirate_names(self.pirates@)
    }

    /// Number of courses.
    pub fn num_courses(&self) -> (n: usize)
        ensures
            n == self.courses.len(),
    {
        self.courses.len()
    }

    /// Index of the first pirate named `name`, if any.
    pub(crate) fn find_pirate(&self, name: &str) -> (r: Option<usize>)
        ensures
            match r {
                Some(i) => i < self.pirates.len() && i as int == first_index(
                    self.names_of_pirates(),
                    name@,
                ),
                None => first_index(self.names_of_pirates(), name@) == -1,
            },
    {
        proof {
            lemma_first_index(self.names_of_pirates(), name@);
        }
        let mut i: usize = 0;
        while i < self.pirates.len()
            invariant
                i <= self.pirates.len(),
                forall|j: int| 0 <= j < i ==> #[trigger] self.pirates@[j].name@ != name@,
            decreases self.pirates.len() - i,
        {
            if str_eq(self.pirates[i].name.as_str(), name) {
                proof {
                    lemma_first_index_is(self.names_of_pirates(), name@, i as int);
                }
                return Some(i);
            }
            i = i + 1;
        }
        proof {
            lemma_first_index_absent(self.names_of_pirates(), name@);
        }
        None
    }

    /// The first pirate named `name`, if any.
    pub fn pirate_by_name(&self, name: &str) -> (r: Option<&Pirate>)
        ensures
            match r {
                Some(p) => {
                    let i = first_index(self.names_of_pirates(), name@);
                    0 <= i < self.pirates.len() && *p == self.pirates@[i]
                },
                None => first_index(self.names_of_pirates(), name@) == -1,
            },
    {
        match self.find_pirate(name) {
            Some(i) => Some(&self.pirates[i]),
            None => None,
        }
    }

    /// Index of the first pirate named `name`; the pirate must exist.
    pub fn pirate_index(&self, name: &str) -> (i: usize)
        requires
            first_index(self.names_of_pirates(), name@) >= 0,
        ensures
            i as int == first_index(self.names_of_pirates(), name@),
    {
        match self.find_pirate(name) {
            Some(i) => i,
            None => 0,
        }
    }

    /// Index of the first course named `name`, if any.
    pub fn course_index(&self, name: &str) -> (r: Option<usize>)
        ensures
            match r {
                Some(i) => i < self.courses.len() && i as int == first_index(
                    self.course_names(),
                    name@,
                ),
                None => first_index(self.course_names(), name@) == -1,
            },
    {
        proof {
            lemma_first_index(self.course_names(), name@);
        }
        let mut i: usize = 0;
        while i < self.courses.len()
            invariant
                i <= self.courses.len(),
                forall|j: int| 0 <= j < i ==> #[trigger] self.courses@[j]@ != name@,
            decreases self.courses.len() - i,
        {
            if str_eq(self.courses[i].as_str(), name) {
                proof {
                    lemma_first_index_is(self.course_names(), name@, i as int);
                }
                return Some(i);
            }
            i = i + 1;
        }
        proof {
            lemma_first_index_absent(self.course_names(), name@);
        }
        None
    }
}

/// An element equal to `x` with none before it is at the first index of `x`.
proof fn lemma_first_index_is(s: Seq<Seq<char>>, x: Seq<char>, i: int)
    requires
        0 <= i < s.len(),
        s[i] == x,
        forall|j: int| 0 <= j < i ==> s[j] != x,
    ensures
        first_index(s, x) == i,
    decreases i,
{
    if i > 0 {
        lemma_first_index_is(s.drop_first(), x, i - 1);
    }
}

/// Without an element equal to `x` the first index of `x` is -1.
proof fn lemma_first_index_absent(s: Seq<Seq<char>>, x: Seq<char>)
    requires
        forall|j: int| 0 <= j < s.len() ==> s[j] != x,
    ensures
        first_index(s, x) == -1,
    decreases s.len(),
{
    if s.len() > 0 {
        lemma_first_index_absent(s.drop_first(), x);
    }
}


/// One pirate's entry in a historical arena: name, opening odds, and the
/// current odds where they were recorded.
pub struct HistPirate {
    pub name: String,
    pub odds: u32,
    pub current_odds: Option<u32>,
}

/// One historical arena as recorded.
pub struct HistArena {
    pub arena_name: String,
    pub foods: Vec<String>,
    pub pirates: Vec<HistPirate>,
    pub winner: String,
    pub legacy: bool,
}

/// A single arena match from historical data.
#[derive(Clone)]
pub struct HistMatch {
    pub pirate_indices: [usize; 4],
    pub course_indices: Vec<usize>,
    /// 0-3 index into `pirate_indices`
    pub winner_pos: usize,
}

/// The names of the pirates of an arena, in order.
pub open spec fn arena_pirate_names(ps: Seq<HistPirate>) -> Seq<Seq<char>> {
    ps.map_values(|p: HistPirate| p.name@)
}

/// The course indices of the `foods` that name a course, in order; foods
/// that name no course are skipped.
pub open spec fn resolved_courses(courses: Seq<Seq<char>>, foods: Seq<Seq<char>>) -> Seq<usize>
    decreases foods.len(),
{
    if foods.len() == 0 {
        Seq::empty()
    } else {
        let prefix = resolved_courses(courses, foods.drop_last());
        let i = first_index(courses, foods.last());
        if i >= 0 {
            prefix.push(i as usize)
        } else {
            prefix
        }
    }
}

/// An arena can be resolved against `data`: its first four pirates are known
/// by name, and its winner is first found among them.
pub open spec fn arena_resolvable(data: GameData, arena: HistArena) -> bool {
    &&& arena.pirates.len() >= 4
    &&& forall|k: int|
        0 <= k < 4 ==> first_index(pirate_names(data.pirates@), #[trigger] arena.pirates@[k].name@)
            >= 0
    &&& 0 <= first_index(arena_pirate_names(arena.pirates@), arena.winner@) < 4
}

/// `m` is `arena` with pirates, foods and winner resolved to indices.
pub open spec fn resolves_match(m: HistMatch, data: GameData, arena: HistArena) -> bool {
    &&& forall|k: int|
        0 <= k < 4 ==> #[trigger] m.pirate_indices@[k] as int == first_index(
            pirate_names(data.pirates@),
            arena.pirates@[k].name@,
        )
    &&& m.course_indices@ == resolved_courses(names(data.courses@), names(arena.foods@))
    &&& m.winner_pos as int == first_index(arena_pirate_names(arena.pirates@), arena.winner@)
    &&& m.winner_pos < 4
}

impl GameData {
    /// Indices of the `foods` that name a course, in order.
    pub fn resolve_courses(&self, foods: &Vec<String>) -> (idx: Vec<usize>)
        ensures
            idx@ == resolved_courses(self.course_names(), names(foods@)),
            forall|k: int| 0 <= k < idx.len() ==> #[trigger] idx@[k] < self.courses.len(),
    {
        let mut idx: Vec<usize> = Vec::new();
        let mut i: usize = 0;
        while i < foods.len()
            invariant
                i <= foods.len(),
                idx@ == resolved_courses(self.course_names(), names(foods@).take(i as int)),
                forall|k: int| 0 <= k < idx.len() ==> #[trigger] idx@[k] < self.courses.len(),
            decreases foods.len() - i,
        {
            let found = self.course_index(foods[i].as_str());
            proof {
                assert(names(foods@).take(i + 1).drop_last() =~= names(foods@).take(i as int));
                assert(names(foods@).take(i + 1).last() == foods@[i as int]@);
            }
            match found {
                Some(c) => {
                    idx.push(c);
                },
                None => {},
            }
            i = i + 1;
        }
        assert(names(foods@).take(foods.len() as int) =~= names(foods@));
        idx
    }
}

/// Index of the first pirate of the arena named `name`; it must be there.
fn arena_position(pirates: &Vec<HistPirate>, name: &String) -> (pos: usize)
    requires
        first_index(arena_pirate_names(pirates@), name@) >= 0,
    ensures
        pos as int == first_index(arena_pirate_names(pirates@), name@),
        pos < pirates.len(),
{
    proof {
        lemma_first_index(arena_pirate_names(pirates@), name@);
    }
    let mut i: usize = 0;
    while i < pirates.len()
        invariant
            i <= pirates.len(),
            first_index(arena_pirate_names(pirates@), name@) >= i,
            forall|j: int| 0 <= j < i ==> #[trigger] pirates@[j].name@ != name@,
        decreases pirates.len() - i,
    {
        if pirates[i].name == *name {
            proof {
                lemma_first_index_is(arena_pirate_names(pirates@), name@, i as int);
            }
            return i;
        }
        proof {
            lemma_first_index(arena_pirate_names(pirates@), name@);
        }
        i = i + 1;
    }
    0
}

/// Resolves one arena to a match.
pub fn resolve_match(data: &GameData, arena: &HistArena) -> (m: HistMatch)
    requires
        arena_resolvable(*data, *arena),
    ensures
        resolves_match(m, *data, *arena),
{
    assert(first_index(pirate_names(data.pirates@), arena.pirates@[0].name@) >= 0);
    assert(first_index(pirate_names(data.pirates@), arena.pirates@[1].name@) >= 0);
    assert(first_index(pirate_names(data.pirates@), arena.pirates@[2].name@) >= 0);
    assert(first_index(pirate_names(data.pirates@), arena.pirates@[3].name@) >= 0);
    let p0 = data.pirate_index(arena.pirates[0].name.as_str());
    let p1 = data.pirate_index(arena.pirates[1].name.as_str());
    let p2 = data.pirate_index(arena.pirates[2].name.as_str());
    let p3 = data.pirate_index(arena.pirates[3].name.as_str());
    let pirate_indices: [usize; 4] = [p0, p1, p2, p3];
    let course_indices = data.resolve_courses(&arena.foods);
    let winner_pos = arena_position(&arena.pirates, &arena.winner);
    let m = HistMatch { pirate_indices, course_indices, winner_pos };
    assert forall|k: int| 0 <= k < 4 implies #[trigger] m.pirate_indices@[k] as int == first_index(
        pirate_names(data.pirates@),
        arena.pirates@[k].name@,
    ) by {
        if k == 0 {
        } else if k == 1 {
        } else if k == 2 {
        } else {
        }
    }
    m
}

/// Load historical matches and map them to `data`'s indices, day by day.
pub fn load_historical_matches(data: &GameData, days: &Vec<Vec<HistArena>>) -> (out: Vec<Vec<HistMatch>>)
    requires
        forall|d: int, a: int|
            0 <= d < days.len() && 0 <= a < days@[d].len() ==> arena_resolvable(
                *data,
                #[trigger] days@[d]@[a],
            ),
    ensures
        out.len() == days.len(),
        forall|d: int| 0 <= d < days.len() ==> #[trigger] out@[d].len() == days@[d].len(),
        forall|d: int, a: int|
            0 <= d < days.len() && 0 <= a < days@[d].len() ==> resolves_match(
                #[trigger] out@[d]@[a],
                *data,
                days@[d]@[a],
            ),
{
    let mut out: Vec<Vec<HistMatch>> = Vec::new();
    let mut d: usize = 0;
    while d < days.len()
        invariant
            d <= days.len(),
            out.len() == d,
            forall|e: int, a: int|
                0 <= e < days.len() && 0 <= a < days@[e].len() ==> arena_resolvable(
                    *data,
                    #[trigger] days@[e]@[a],
                ),
            forall|e: int| 0 <= e < d ==> #[trigger] out@[e].len() == days@[e].len(),
            forall|e: int, a: int|
                0 <= e < d && 0 <= a < days@[e].len() ==> resolves_match(
                    #[trigger] out@[e]@[a],
                    *data,
                    days@[e]@[a],
                ),
        decreases days.len() - d,
    {
        let day = &days[d];
        let mut ms: Vec<HistMatch> = Vec::new();
        let mut a: usize = 0;
        while a < day.len()
            invariant
                a <= day.len(),
                *day == days@[d as int],
                ms.len() == a,
                forall|b: int| 0 <= b < day.len() ==> arena_resolvable(*data, #[trigger] day@[b]),
                forall|b: int| 0 <= b < a ==> resolves_match(#[trigger] ms@[b], *data, day@[b]),
            decreases day.len() - a,
        {
            ms.push(resolve_match(data, &day[a]));
            a = a + 1;
        }
        out.push(ms);
        d = d + 1;
    }
    out
}

} // verus!
