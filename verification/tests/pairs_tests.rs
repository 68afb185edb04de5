use foodclub::food_order::early_late;
use foodclub::pairs::pair_tally;
use foodclub::pirates::{GameData, HistArena, HistPirate, Pirate, RawCourse, RawData, RawPirate};
use std::collections::HashSet;

fn s(x: &str) -> String {
    x.to_string()
}

fn arena(names: &[&str], foods: &[&str], winner: &str) -> HistArena {
    HistArena {
        arena_name: s("Lagoon"),
        foods: foods.iter().map(|f| s(f)).collect(),
        pirates: names.iter().map(|n| HistPirate { name: s(n), odds: 2, current_odds: None }).collect(),
        winner: s(winner),
        legacy: false,
    }
}

#[test]
fn head_to_head_records() {
    let days = vec![
        vec![arena(&["A", "B", "C"], &[], "A"), arena(&["B", "A", "D"], &[], "B")],
        vec![arena(&["C", "A", "B", "D"], &[], "C")],
    ];
    let t = pair_tally(&days);
    // pairs in order of first meeting: AB, AC, BC, BD, AD, CD
    assert_eq!(t.first.len(), 6);
    assert_eq!((t.first[0].as_str(), t.second[0].as_str()), ("A", "B"));
    assert_eq!((t.together[0], t.first_wins[0], t.second_wins[0]), (3, 1, 1));
    assert_eq!((t.first[1].as_str(), t.second[1].as_str()), ("A", "C"));
    assert_eq!((t.together[1], t.first_wins[1], t.second_wins[1]), (2, 1, 1));
    assert_eq!((t.first[2].as_str(), t.second[2].as_str()), ("B", "C"));
    assert_eq!((t.together[2], t.first_wins[2], t.second_wins[2]), (2, 0, 1));
    assert_eq!((t.first[3].as_str(), t.second[3].as_str()), ("B", "D"));
    assert_eq!((t.together[3], t.first_wins[3], t.second_wins[3]), (2, 1, 0));
    assert_eq!((t.first[4].as_str(), t.second[4].as_str()), ("A", "D"));
    assert_eq!((t.together[4], t.first_wins[4], t.second_wins[4]), (2, 0, 0));
    assert_eq!((t.first[5].as_str(), t.second[5].as_str()), ("C", "D"));
    assert_eq!((t.together[5], t.first_wins[5], t.second_wins[5]), (1, 1, 0));
    assert!(pair_tally(&vec![]).first.is_empty());
}

fn ten_course_data() -> GameData {
    let courses: Vec<RawCourse> =
        (0..10).map(|i| RawCourse { name: format!("F{}", i), categories: vec![format!("c{}", i)] }).collect();
    let pirates = vec![RawPirate {
        name: s("Dan"),
        weight: 200,
        strength: 80,
        favorites: vec![s("c1"), s("c8")],
        allergies: vec![s("c3")],
    }];
    GameData::load(&RawData { pirates, courses })
}

#[test]
fn early_and_late_allergy_records() {
    let data = ten_course_data();
    let dan: &Pirate = &data.pirates[0];
    assert!(dan.allergy_courses == [3usize].into_iter().collect::<HashSet<usize>>());
    let all: Vec<&str> = vec!["F0", "F1", "F2", "F3", "F4", "F5", "F6", "F7", "F8", "F9"];
    let late_order: Vec<&str> = vec!["F0", "F1", "F2", "F4", "F5", "F6", "F3", "F7", "F8", "F9"];
    let no_allergy: Vec<&str> = vec!["F0", "F1", "F2", "F4", "F5", "F6", "F7", "F8", "F9", "F0"];
    let days = vec![vec![
        arena(&["Dan", "X", "Y", "Z"], &all, "Dan"),
        arena(&["X", "Dan", "Y", "Z"], &all, "X"),
        arena(&["X", "Dan", "Y", "Z"], &late_order, "Dan"),
        arena(&["X", "Dan", "Y", "Z"], &no_allergy, "Dan"),
        arena(&["X", "Y", "Z", "W"], &all, "X"),
        arena(&["Dan", "X", "Y", "Z"], &all[..9], "Dan"),
    ]];
    let r = early_late(&data, &days, dan, true);
    assert_eq!((r.early_n, r.early_wins, r.late_n, r.late_wins), (2, 1, 1, 1));
    // two favourites in ten courses: no arena counts
    let f = early_late(&data, &days, dan, false);
    assert_eq!((f.early_n, f.early_wins, f.late_n, f.late_wins), (0, 0, 0, 0));
}
