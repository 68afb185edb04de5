use foodclub::pirates::{GameData, HistArena, HistPirate, RawCourse, RawData, RawPirate, load_historical_matches, resolve_match};

fn s(x: &str) -> String {
    x.to_string()
}

fn sample_data() -> GameData {
    let raw = RawData {
        pirates: vec![
            RawPirate { name: s("Dan"), weight: 200, strength: 80, favorites: vec![s("Fish")], allergies: vec![s("Fruit")] },
            RawPirate { name: s("Sproggie"), weight: 150, strength: 70, favorites: vec![s("Fruit"), s("Meat")], allergies: vec![] },
            RawPirate { name: s("Orvinn"), weight: 221, strength: 52, favorites: vec![], allergies: vec![s("Fish"), s("Meat")] },
            RawPirate { name: s("Lucky"), weight: 180, strength: 82, favorites: vec![s("Unknown")], allergies: vec![] },
        ],
        courses: vec![
            RawCourse { name: s("Salmon"), categories: vec![s("Fish")] },
            RawCourse { name: s("Apple"), categories: vec![s("Fruit")] },
            RawCourse { name: s("Fish Pie"), categories: vec![s("Fish"), s("Meat")] },
            RawCourse { name: s("Stew"), categories: vec![s("Meat")] },
        ],
    };
    GameData::load(&raw)
}

#[test]
fn load_resolves_categories_to_courses() {
    let data = sample_data();
    assert_eq!(data.courses, vec![s("Salmon"), s("Apple"), s("Fish Pie"), s("Stew")]);
    assert_eq!(data.num_courses(), 4);
    let dan = &data.pirates[0];
    assert_eq!(dan.weight, 200);
    assert_eq!(dan.strength, 80);
    let mut fav: Vec<usize> = dan.favorite_courses.iter().copied().collect();
    fav.sort();
    assert_eq!(fav, vec![0, 2]);
    let alg: Vec<usize> = dan.allergy_courses.iter().copied().collect();
    assert_eq!(alg, vec![1]);
    let mut fav2: Vec<usize> = data.pirates[1].favorite_courses.iter().copied().collect();
    fav2.sort();
    assert_eq!(fav2, vec![1, 2, 3]);
    let mut alg3: Vec<usize> = data.pirates[2].allergy_courses.iter().copied().collect();
    alg3.sort();
    assert_eq!(alg3, vec![0, 2, 3]);
    assert!(data.pirates[3].favorite_courses.is_empty());
}

#[test]
fn lookups_find_first_match() {
    let data = sample_data();
    assert_eq!(data.pirate_index("Orvinn"), 2);
    assert_eq!(data.pirate_by_name("Lucky").map(|p| p.strength), Some(82));
    assert!(data.pirate_by_name("Nobody").is_none());
    assert_eq!(data.course_index("Stew"), Some(3));
    assert_eq!(data.course_index("Cake"), None);
    let foods = vec![s("Stew"), s("Cake"), s("Salmon")];
    assert_eq!(data.resolve_courses(&foods), vec![3, 0]);
}

fn arena(names: [&str; 4], foods: &[&str], winner: &str) -> HistArena {
    HistArena {
        arena_name: s("Shipwreck"),
        foods: foods.iter().map(|f| s(f)).collect(),
        pirates: names.iter().map(|n| HistPirate { name: s(n), odds: 2, current_odds: None }).collect(),
        winner: s(winner),
        legacy: false,
    }
}

#[test]
fn historical_matches_resolve_indices_and_winner() {
    let data = sample_data();
    let days = vec![
        vec![arena(["Lucky", "Dan", "Orvinn", "Sproggie"], &["Apple", "Stew", "Pizza"], "Orvinn")],
        vec![arena(["Dan", "Sproggie", "Lucky", "Orvinn"], &["Salmon"], "Dan"), arena(["Orvinn", "Lucky", "Dan", "Sproggie"], &[], "Sproggie")],
    ];
    let hist = load_historical_matches(&data, &days);
    assert_eq!(hist.len(), 2);
    assert_eq!(hist[1].len(), 2);
    assert_eq!(hist[0][0].pirate_indices, [3, 0, 2, 1]);
    assert_eq!(hist[0][0].course_indices, vec![1, 3]);
    assert_eq!(hist[0][0].winner_pos, 2);
    assert_eq!(hist[1][0].winner_pos, 0);
    assert_eq!(hist[1][1].winner_pos, 3);
    let m = resolve_match(&data, &days[1][1]);
    assert_eq!(m.pirate_indices, [2, 3, 0, 1]);
    assert!(m.course_indices.is_empty());
}

#[test]
fn distinct_courses_are_found_where_they_stand() {
    let data = sample_data();
    for (i, c) in data.courses.iter().enumerate() {
        assert_eq!(data.course_index(c), Some(i));
    }
}
