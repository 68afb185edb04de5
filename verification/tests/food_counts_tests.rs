use foodclub::food_counts::food_count_tally;
use foodclub::pirates::{GameData, HistArena, HistPirate, Pirate};
use std::collections::HashSet;

fn pirate(name: &str, fav: &[usize], alg: &[usize]) -> Pirate {
    Pirate {
        name: name.to_string(),
        weight: 200,
        strength: 80,
        favorite_courses: fav.iter().copied().collect::<HashSet<usize>>(),
        allergy_courses: alg.iter().copied().collect::<HashSet<usize>>(),
    }
}

fn arena(foods: &[&str], names: &[&str], winner: &str) -> HistArena {
    HistArena {
        arena_name: "A".to_string(),
        foods: foods.iter().map(|f| f.to_string()).collect(),
        pirates: names.iter().map(|n| HistPirate { name: n.to_string(), odds: 3, current_odds: None }).collect(),
        winner: winner.to_string(),
        legacy: false,
    }
}

#[test]
fn buckets_by_favourite_and_allergy_counts() {
    let courses: Vec<String> = (0..12).map(|i| format!("c{}", i)).collect();
    let data = GameData {
        pirates: vec![pirate("a", &[0, 1, 2], &[2, 3]), pirate("b", &[5], &[])],
        courses,
    };
    let ten: Vec<String> = (0..10).map(|i| format!("c{}", i)).collect();
    let ten: Vec<&str> = ten.iter().map(|s| s.as_str()).collect();
    let nine = &ten[..9];
    let days = vec![
        vec![arena(&ten, &["a", "b", "zz", "b"], "a"), arena(nine, &["a", "b", "c", "d"], "b")],
        vec![arena(&ten, &["b", "a", "q", "r"], "b")],
    ];
    let w = 11;
    let t = food_count_tally(&data, &days, w);
    assert_eq!(t.n_pirates, 2);
    assert_eq!(t.appearances.len(), 2 * 11 * 11);
    let cell = |p: usize, nf: usize, na: usize| (p * w + nf) * w + na;
    // "a" on c0..c9: favourites 0, 1 (2 is also an allergy), allergies 2, 3
    assert_eq!(t.appearances[cell(0, 2, 2)], 2);
    assert_eq!(t.wins[cell(0, 2, 2)], 1);
    // "b" appears three times in the two arenas with ten courses, once per slot
    assert_eq!(t.appearances[cell(1, 1, 0)], 3);
    assert_eq!(t.wins[cell(1, 1, 0)], 1);
    // the arena with nine foods and the unknown pirates count nowhere
    assert_eq!(t.appearances.iter().sum::<u32>(), 5);
}
