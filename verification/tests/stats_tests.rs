use foodclub::hashing::{hash2, hash_day, roll, splitmix};
use foodclub::pirates::{HistArena, HistPirate, Pirate};
use foodclub::stats::{
    arena_signature, clamp_class, engine_class, first_lowest_position, food_positions, later_higher_pairs,
    non_decreasing, non_increasing, odds_position_tally, odds_quantiles, position_code, tally_slots, ClampClass, SlotKey,
};
use std::collections::HashSet;

#[test]
fn hashes_match_reference_values() {
    assert_eq!(hash_day(0), 0);
    assert_eq!(hash_day(1), 15360201268076995951);
    assert_eq!(hash_day(12345), 9956388077628691986);
    assert_eq!(hash2(0, 0), 14071187026543628969);
    assert_eq!(hash2(1, 2), 7511909664855526862);
    let mut state = 0u64;
    assert_eq!(splitmix(&mut state), 16294208416658607535);
    assert_eq!(state, 11400714819323198485);
    assert_eq!(arena_signature(&[1, 2, 3, 4]), 14641159397736445280);
}

#[test]
fn rejection_sampled_roll() {
    let mut state = 0u64;
    assert_eq!(roll(&mut state, 6), 2);
    assert_eq!(state, 11400714819323198485);
    let mut state = 12345u64;
    assert_eq!(roll(&mut state, 6), 3);
    let mut state = 0u64;
    assert_eq!(roll(&mut state, 20), 16);
    // The first draw from this state is u64::MAX, which is rejected; the
    // second one is accepted.
    let mut state = 3558559446808474027u64;
    assert_eq!(roll(&mut state, 6), 2);
    assert_eq!(state, 7913245011745319381);
}

#[test]
fn odds_order() {
    assert!(non_decreasing(&[2, 3, 3, 13]));
    assert!(!non_decreasing(&[2, 3, 2]));
    assert!(non_increasing(&[13, 5, 5, 2]));
    assert!(non_decreasing(&[]) && non_increasing(&[]));
    assert!(non_decreasing(&[4, 4]) && non_increasing(&[4, 4]));
    assert_eq!(first_lowest_position(&[5, 2, 7, 2]), 1);
    assert_eq!(later_higher_pairs(&[2, 5, 3, 13]), (5, 6));
    assert_eq!(later_higher_pairs(&[13, 5, 3, 2]), (0, 6));
    assert_eq!(clamp_class(&[2, 3, 4, 13]), ClampClass::TwoAndThirteen);
    assert_eq!(clamp_class(&[3, 3, 4, 12]), ClampClass::NoClamp);
    assert_eq!(clamp_class(&[3, 3, 4, 13]), ClampClass::ThirteenOnly);
    assert_eq!(clamp_class(&[2, 3, 4, 12]), ClampClass::TwoNoThirteen);
    let mut v = vec![9u32, 2, 13, 4, 4, 7, 3, 12];
    assert_eq!(odds_quantiles(&mut v), [2, 4, 7, 12, 13]);
    assert_eq!(v, vec![2, 3, 4, 4, 7, 9, 12, 13]);
}

#[test]
fn engine_codes() {
    assert_eq!(engine_class(52, 221), 5200);
    assert_eq!(engine_class(80, 150), 8006);
    assert_eq!(position_code(8006, 2, 1, 0), 800602010);
}

#[test]
fn food_positions_in_course_order() {
    let p = Pirate {
        name: "x".to_string(),
        weight: 200,
        strength: 80,
        favorite_courses: [1usize, 4, 6].into_iter().collect::<HashSet<usize>>(),
        allergy_courses: [4usize, 8].into_iter().collect::<HashSet<usize>>(),
    };
    let courses = [8usize, 1, 2, 4, 6, 8];
    assert_eq!(food_positions(&p, &courses, true), vec![0, 3, 5]);
    assert_eq!(food_positions(&p, &courses, false), vec![1, 4]);
}

fn arena(names: [&str; 4], winner: &str) -> HistArena {
    HistArena {
        arena_name: "A".to_string(),
        foods: vec![],
        pirates: names.iter().map(|n| HistPirate { name: n.to_string(), odds: 3, current_odds: None }).collect(),
        winner: winner.to_string(),
        legacy: false,
    }
}

#[test]
fn tallies_by_position_and_arena() {
    let days = vec![
        vec![arena(["a", "b", "c", "d"], "a"), arena(["e", "f", "g", "h"], "g")],
        vec![arena(["b", "a", "c", "d"], "a"), arena(["e", "f", "g", "h"], "e")],
    ];
    let t = tally_slots(&days, SlotKey::Position, 4);
    assert_eq!(t.names.len(), 8);
    let ia = t.names.iter().position(|n| n == "a").unwrap();
    assert_eq!(t.appearances[ia], 2);
    assert_eq!(t.wins[ia], 2);
    assert_eq!(&t.keyed_appearances[ia * 4..ia * 4 + 4], &[1, 1, 0, 0]);
    assert_eq!(&t.keyed_wins[ia * 4..ia * 4 + 4], &[1, 1, 0, 0]);
    let ig = t.names.iter().position(|n| n == "g").unwrap();
    assert_eq!(t.wins[ig], 1);
    assert_eq!(t.appearances.iter().sum::<u32>(), 16);
    assert_eq!(t.wins.iter().sum::<u32>(), 4);
    for r in 0..t.names.len() {
        assert!(t.wins[r] <= t.appearances[r]);
        for k in 0..4 {
            assert!(t.keyed_wins[r * 4 + k] <= t.keyed_appearances[r * 4 + k]);
            assert!(t.keyed_appearances[r * 4 + k] <= t.appearances[r]);
        }
    }
    let u = tally_slots(&days, SlotKey::Arena, 2);
    let ie = u.names.iter().position(|n| n == "e").unwrap();
    assert_eq!(&u.keyed_appearances[ie * 2..ie * 2 + 2], &[0, 2]);
    assert_eq!(&u.keyed_wins[ie * 2..ie * 2 + 2], &[0, 1]);
    let none = tally_slots(&days, SlotKey::Arena, 0);
    assert!(none.keyed_appearances.is_empty());
    assert_eq!(none.appearances[ie], 2);
}

#[test]
fn splitmix_draws_do_not_repeat() {
    let mut state = 42u64;
    let mut draws: Vec<u64> = (0..1000).map(|_| splitmix(&mut state)).collect();
    draws.sort_unstable();
    draws.dedup();
    assert_eq!(draws.len(), 1000);
}

#[test]
fn tally_by_odds_and_position() {
    let priced = |names: [(&str, u32); 4], winner: &str| HistArena {
        arena_name: "A".to_string(),
        foods: vec![],
        pirates: names.iter().map(|&(n, o)| HistPirate { name: n.to_string(), odds: o, current_odds: None }).collect(),
        winner: winner.to_string(),
        legacy: false,
    };
    let days = vec![
        vec![priced([("a", 2), ("b", 5), ("c", 13), ("d", 3)], "a")],
        vec![priced([("b", 5), ("a", 2), ("c", 13), ("d", 2)], "d"), priced([("e", 13), ("f", 4), ("g", 4), ("h", 2)], "h")],
    ];
    let t = odds_position_tally(&days, 14);
    assert_eq!(t.n_odds, 14);
    assert_eq!(t.appearances.len(), 56);
    // odds 2: position 0 once (won), position 1 once, position 3 twice (both won)
    assert_eq!(&t.appearances[8..12], &[1, 1, 0, 2]);
    assert_eq!(&t.wins[8..12], &[1, 0, 0, 2]);
    // odds 13: positions 0 and 2
    assert_eq!(&t.appearances[52..56], &[1, 0, 2, 0]);
    assert_eq!(t.wins[52..56].iter().sum::<u32>(), 0);
    assert_eq!(t.appearances.iter().sum::<u32>(), 12);
    assert_eq!(t.wins.iter().sum::<u32>(), 3);
    // odds at or above the table width are left out
    let small = odds_position_tally(&days, 3);
    assert_eq!(small.appearances.iter().sum::<u32>(), 4);
}
