use foodclub::arena::{
    allergy_damage, earlier_wins_ties, hypothesis_life, initial_life, later_wins_ties, model4_score, model4_slot,
    model4_win_counts, splitmix_win_counts, quantize_score_index, quantize_time, roll, three_roll_score, tiebreak_winner, Hypothesis,
    Model4Slot,
};
use foodclub::pirates::Pirate;
use rand::rngs::SmallRng;
use rand::SeedableRng;
use std::collections::HashSet;

fn pirate(weight: u32, strength: u32, fav: &[usize], alg: &[usize]) -> Pirate {
    Pirate {
        name: "Test".to_string(),
        weight,
        strength,
        favorite_courses: fav.iter().copied().collect::<HashSet<usize>>(),
        allergy_courses: alg.iter().copied().collect::<HashSet<usize>>(),
    }
}

#[test]
fn quantization_rounds() {
    assert_eq!(quantize_time(45, 14, 0), 3);
    assert_eq!(quantize_time(45, 14, 1), 4);
    assert_eq!(quantize_time(45, 14, 2), 3);
    assert_eq!(quantize_time(49, 14, 2), 4);
    assert_eq!(quantize_time(42, 14, 1), 3);
    assert_eq!(quantize_score_index(45, 22, 0), Some(2));
    assert_eq!(quantize_score_index(0, 22, 3), None);
    assert_eq!(quantize_score_index(5, 22, 3), Some(18));
    assert_eq!(quantize_score_index(30, 22, 3), Some(22));
}

#[test]
fn tie_breaks() {
    let t = [5u32, 3, 7, 3];
    assert_eq!(later_wins_ties(&t), 3);
    assert_eq!(earlier_wins_ties(&t), 1);
    let mut rng = SmallRng::seed_from_u64(7);
    assert_eq!(tiebreak_winner(&t, 0, &mut rng), 3);
    assert_eq!(tiebreak_winner(&t, 1, &mut rng), 1);
    for _ in 0..50 {
        let w = tiebreak_winner(&t, 2, &mut rng);
        assert!(w == 1 || w == 3);
    }
    assert_eq!(later_wins_ties(&[2, 2, 2, 2]), 3);
    assert_eq!(earlier_wins_ties(&[2, 2, 2, 2]), 0);
}

#[test]
fn rolls_and_damage_stay_in_range() {
    let mut rng = SmallRng::seed_from_u64(42);
    assert_eq!(roll(&mut rng, 0), 0);
    for _ in 0..200 {
        let r = roll(&mut rng, 6);
        assert!((1..=6).contains(&r));
    }
    let heavy = pirate(221, 52, &[], &[0]);
    assert_eq!(allergy_damage(&heavy, 3, 7, 0, &mut rng), 0);
    let light = pirate(150, 60, &[], &[0]);
    assert_eq!(allergy_damage(&light, 3, 7, 1, &mut rng), 21);
    for _ in 0..100 {
        let d = allergy_damage(&light, 3, 7, 0, &mut rng);
        assert!((3..=21).contains(&d));
    }
    assert_eq!(initial_life(80, &[0, -5, 3], 1), 75);
    assert_eq!(initial_life(80, &[0, -5, 3], 7), 80);
    assert_eq!(initial_life(4, &[-10], 0), 0);
}

#[test]
fn model4_draws() {
    let p = pirate(200, 68, &[0, 1], &[2]);
    let slot = model4_slot(&p, &[0, 1, 2, 5]);
    assert_eq!(slot.upper, 46);
    assert_eq!(slot.na, 1);
    assert_eq!(slot.wo, 6);
    let mut rng = SmallRng::seed_from_u64(1);
    for _ in 0..100 {
        let s = model4_score(&slot, &mut rng);
        assert!(s <= (46 + 6) * 6 / 22);
    }
    let slots = [slot, Model4Slot { upper: 1, na: 0, wo: 0 }, slot, slot];
    let wins = model4_win_counts(&slots, 500, &mut rng);
    assert_eq!(wins.iter().sum::<u32>(), 500);
    // a one-sided die always scores 0, the lowest, and wins every tie it is in
    let ones = [Model4Slot { upper: 1, na: 0, wo: 0 }; 4];
    assert_eq!(model4_win_counts(&ones, 10, &mut rng), [0, 0, 0, 10]);
}

#[test]
fn hypothesis_life_bounds() {
    let p = pirate(200, 80, &[], &[]);
    let mut rng = SmallRng::seed_from_u64(3);
    let h = Hypothesis::H19PosLife { max_weight: 221, max_effect: 10, base: 103, fav_pct: 91, zv_bonus: 8, pos_bonus: 2 };
    for _ in 0..50 {
        let life = hypothesis_life(&p, 1, 0, 3, h, &mut rng);
        assert_eq!(life, 86);
        let life = hypothesis_life(&p, 0, 2, 3, h, &mut rng);
        assert!((86 - 20..=86 - 2).contains(&life));
        let life = hypothesis_life(&p, 0, 0, 3, h, &mut rng);
        assert!((87..=94).contains(&life));
    }
    for _ in 0..50 {
        let s = three_roll_score(10, &mut rng);
        assert!((-30..=-3).contains(&s));
    }
    assert_eq!(three_roll_score(0, &mut rng), 0);
}

#[test]
fn splitmix_monte_carlo_is_reproducible() {
    let slots = [
        Model4Slot { upper: 100, na: 0, wo: 0 },
        Model4Slot { upper: 60, na: 1, wo: 3 },
        Model4Slot { upper: 80, na: 2, wo: 6 },
        Model4Slot { upper: 100, na: 0, wo: 2 },
    ];
    assert_eq!(splitmix_win_counts(&slots, 1000, 42), [48, 694, 161, 97]);
    let ones = [Model4Slot { upper: 1, na: 0, wo: 0 }; 4];
    assert_eq!(splitmix_win_counts(&ones, 7, 0), [0, 0, 0, 7]);
}

#[test]
fn inverse_bins_keep_lowest_wins() {
    let bins: Vec<usize> = (1..=40).map(|k| quantize_score_index(k, 22, 3).unwrap()).collect();
    for w in bins.windows(2) {
        assert!(w[0] <= w[1]);
    }
    assert!(bins.iter().all(|&b| b <= 22));
    assert_eq!(bins[0], 0);
}

#[test]
fn floor_quantization_near_the_top() {
    assert_eq!(quantize_time(u32::MAX, 14, 0), u32::MAX / 14);
    assert_eq!(quantize_time(u32::MAX - 7, 14, 2), u32::MAX / 14);
    assert_eq!(quantize_score_index(usize::MAX, 14, 0), Some(usize::MAX / 14));
}

#[test]
fn roll_of_no_sides_leaves_generator() {
    let mut a = SmallRng::seed_from_u64(11);
    let mut b = a.clone();
    assert_eq!(roll(&mut a, 0), 0);
    for _ in 0..5 {
        assert_eq!(roll(&mut a, 1000), roll(&mut b, 1000));
    }
}

#[test]
fn zero_food_roll_adds_life() {
    let p = pirate(200, 50, &[], &[]);
    let mut rng = SmallRng::seed_from_u64(5);
    let h = Hypothesis::H19 { max_weight: 221, max_effect: 6, base: 120, fav_pct: 80, zv_bonus: 5 };
    for _ in 0..50 {
        let life = hypothesis_life(&p, 0, 0, 2, h, &mut rng);
        assert!(51 <= life && life <= 55);
    }
    let r = Hypothesis::H19PosRoll { max_weight: 221, max_effect: 6, base: 120, fav_pct: 80, zv_bonus: 0, pos_bonus: 3 };
    for _ in 0..50 {
        let life = hypothesis_life(&p, 1, 0, 2, r, &mut rng);
        assert!(51 <= life && life <= 56);
    }
}
