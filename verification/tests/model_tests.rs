use foodclub::model::{
    capped_weight_offset, compute_upper, counted_favourites, course_counts, course_counts_overlap, fav_adjusted_upper,
    fav_bonus_upper, fav_reduced_upper, iterative_reduce, life_after_allergy, linear_upper, model_weight_offset,
    position_upper, strength_upper, allergy_scaled, die_after_allergy, arena_params, weight_offset, Params,
};
use foodclub::pirates::Pirate;
use std::collections::HashSet;

fn pirate(weight: u32, strength: u32, fav: &[usize], alg: &[usize]) -> Pirate {
    Pirate {
        name: "Test".to_string(),
        weight,
        strength,
        favorite_courses: fav.iter().copied().collect::<HashSet<usize>>(),
        allergy_courses: alg.iter().copied().collect::<HashSet<usize>>(),
    }
}

fn base_params() -> Params {
    Params {
        base: 112, n_rolls: 4, fav_mode: 0, fav_param: 15, pos_mode: 0, pos_step: 0, tiebreak: 0, divisor: 14,
        quant_round: 0, max_effect: 7, allergy_mode: 0, allergy_param: 0, wo_min: 0, max_fav: 0, str_mode: 0,
        str_decay: 0, overlap_mode: 0, allergy_order: 0, fav_str_bonus: 0, legacy_wo_min: 0,
    }
}

#[test]
fn weight_offsets() {
    assert_eq!(weight_offset(200, 221, 10), 10);
    assert_eq!(weight_offset(215, 221, 10), 3);
    assert_eq!(weight_offset(221, 221, 10), 0);
    assert_eq!(weight_offset(300, 221, 10), 0);
    assert_eq!(capped_weight_offset(150, 6), 6);
    assert_eq!(capped_weight_offset(150, 0), 35);
    assert_eq!(capped_weight_offset(219, 6), 1);
    assert_eq!(capped_weight_offset(250, 6), 0);
    // with a positive cap the two agree
    for w in [100u32, 150, 200, 210, 218, 221, 230] {
        assert_eq!(capped_weight_offset(w, 7), weight_offset(w, 221, 7));
    }
    let mut p = base_params();
    p.max_effect = 6;
    p.wo_min = 2;
    assert_eq!(model_weight_offset(221, &p), 2);
    assert_eq!(model_weight_offset(100, &p), 6);
}

#[test]
fn overlap_modes_count_shared_courses() {
    // course 1 is both a favourite and an allergy
    let p = pirate(200, 80, &[0, 1, 2], &[1, 3]);
    let courses = [0usize, 1, 2, 3, 4, 1];
    assert_eq!(course_counts(&p, &courses, 0), (2, 3));
    assert_eq!(course_counts(&p, &courses, 1), (4, 1));
    assert_eq!(course_counts(&p, &courses, 2), (2, 1));
    assert_eq!(course_counts(&p, &courses, 3), (4, 3));
    assert_eq!(course_counts_overlap(&p, &courses, 0), (2, 3, 2));
    assert_eq!(course_counts(&p, &[], 0), (0, 0));
}

#[test]
fn iterative_favourite_reduction() {
    assert_eq!(iterative_reduce(58, 0, 16), 58);
    assert_eq!(iterative_reduce(58, 1, 16), 55);
    assert_eq!(iterative_reduce(58, 2, 16), 52);
    assert_eq!(iterative_reduce(1, 5, 16), 1);
    assert_eq!(linear_upper(120, 52), 68);
    assert_eq!(linear_upper(120, 130), 1);
    // Model 4: 120 - 68 = 52; 52 - 3 = 49; 49 - 3 = 46
    assert_eq!(fav_adjusted_upper(68, 0), 52);
    assert_eq!(fav_adjusted_upper(68, 1), 49);
    assert_eq!(fav_adjusted_upper(68, 2), 46);
    let mut prev = fav_adjusted_upper(52, 0);
    for nf in 1..10 {
        let u = fav_adjusted_upper(52, nf);
        assert!(u <= prev && u >= 1);
        prev = u;
    }
}

#[test]
fn favourite_modes() {
    let mut p = base_params();
    // bulk: 50 - 2 * floor(50 / 15) = 44
    assert_eq!(fav_reduced_upper(50, 2, &p, 200, 80), Some(44));
    p.fav_mode = 1;
    assert_eq!(fav_reduced_upper(50, 2, &p, 200, 80), None);
    p.fav_mode = 2;
    p.fav_param = 16;
    assert_eq!(fav_reduced_upper(52, 2, &p, 200, 80), Some(46));
    p.fav_mode = 3;
    p.fav_param = 5;
    assert_eq!(fav_reduced_upper(12, 3, &p, 200, 80), Some(1));
    p.fav_mode = 6;
    p.fav_param = 50;
    assert_eq!(fav_reduced_upper(40, 2, &p, 200, 80), Some(32));
    p.fav_mode = 7;
    p.fav_param = 10;
    p.allergy_param = 100;
    assert_eq!(fav_reduced_upper(40, 2, &p, 200, 80), Some(28));
    p.fav_mode = 8;
    p.fav_param = 60;
    assert_eq!(fav_reduced_upper(40, 1, &p, 200, 80), Some(36));
    p.fav_mode = 9;
    p.fav_param = 10;
    p.allergy_param = 100;
    assert_eq!(fav_reduced_upper(40, 2, &p, 150, 80), Some(28));
    p.fav_mode = 10;
    p.fav_param = 100;
    p.allergy_param = 20;
    assert_eq!(fav_reduced_upper(40, 1, &p, 200, 80), Some(36));
    p.fav_mode = 11;
    p.fav_param = 20;
    assert_eq!(fav_reduced_upper(40, 2, &p, 200, 80), Some(32));
    p.fav_mode = 5;
    assert_eq!(fav_reduced_upper(0, 2, &p, 200, 80), Some(1));
}

#[test]
fn position_rule() {
    let mut p = base_params();
    assert_eq!(position_upper(50, 3, &p), 50);
    p.pos_mode = 1;
    p.pos_step = 7;
    // 50 * (100 - 21) / 100 = 39
    assert_eq!(position_upper(50, 3, &p), 39);
    assert_eq!(position_upper(1, 3, &p), 1);
    p.fav_mode = 0;
    p.fav_param = 15;
    assert_eq!(compute_upper(50, 2, 3, &p, 200, 80), Some(34));
    p.fav_mode = 1;
    assert_eq!(compute_upper(50, 2, 3, &p, 200, 80), None);
}

#[test]
fn strength_and_allergy_rules() {
    let mut p = base_params();
    assert_eq!(strength_upper(&p, 200, 80), Some(32));
    p.str_mode = 1;
    assert_eq!(strength_upper(&p, 200, 80), None);
    p.str_mode = 2;
    p.str_decay = 50;
    assert_eq!(strength_upper(&p, 200, 80), Some(36));
    p.str_mode = 3;
    p.str_decay = 100;
    assert_eq!(strength_upper(&p, 200, 80), Some(48));
    p.str_mode = 4;
    assert_eq!(strength_upper(&p, 200, 80), None);
    assert_eq!(life_after_allergy(80, 5, 0), 75);
    assert_eq!(life_after_allergy(3, 5, 0), 0);
    assert_eq!(life_after_allergy(80, 5, 1), 80);
    let mut q = base_params();
    q.allergy_order = 1;
    assert_eq!(die_after_allergy(30, 5, &q), 35);
    q.allergy_order = 0;
    assert_eq!(die_after_allergy(30, 5, &q), 30);
    q.allergy_mode = 3;
    q.allergy_param = 10;
    // 30 + floor(2 * 30 * 10 / 100) = 36
    assert_eq!(allergy_scaled(30, 2, &q), Some(36));
    assert_eq!(allergy_scaled(30, 0, &q), Some(30));
    q.allergy_mode = 2;
    assert_eq!(allergy_scaled(30, 1, &q), None);
    assert_eq!(counted_favourites(5, 3), 3);
    assert_eq!(counted_favourites(5, 0), 5);
}

#[test]
fn favourites_adding_to_life() {
    let mut p = base_params();
    p.fav_str_bonus = 3;
    // life 80 - 5 + 2 * 3 = 81, die 112 - 81 = 31
    assert_eq!(fav_bonus_upper(&p, 80, 2, 5, 0), 31);
    p.allergy_order = 1;
    // life 80 + 6 = 86, die 26 + 5 = 31
    assert_eq!(fav_bonus_upper(&p, 80, 2, 5, 0), 31);
    assert_eq!(fav_bonus_upper(&p, 200, 2, 5, 0), 6);
}

#[test]
fn legacy_arenas_use_their_minimum_offset() {
    let mut p = base_params();
    p.legacy_wo_min = 1;
    assert_eq!(arena_params(&p, true).wo_min, 1);
    assert_eq!(arena_params(&p, false).wo_min, 0);
    p.legacy_wo_min = 0;
    assert_eq!(arena_params(&p, true).wo_min, 0);
}

#[test]
fn multiplicative_mode_exact_cases() {
    let mut p = base_params();
    p.fav_mode = 1;
    p.fav_param = 80;
    assert_eq!(fav_reduced_upper(50, 0, &p, 200, 80), Some(50));
    assert_eq!(compute_upper(50, 0, 2, &p, 200, 80), Some(50));
    p.fav_param = 100;
    assert_eq!(fav_reduced_upper(50, 3, &p, 200, 80), Some(50));
    p.fav_param = 0;
    assert_eq!(fav_reduced_upper(50, 3, &p, 200, 80), Some(1));
    assert_eq!(fav_reduced_upper(0, 0, &p, 200, 80), Some(1));
}

#[test]
fn no_favourite_keeps_die_in_every_mode() {
    let mut p = base_params();
    p.fav_param = 10;
    p.allergy_param = 20;
    for mode in [0u8, 1, 2, 3, 6, 7, 8, 9, 10, 11, 5] {
        p.fav_mode = mode;
        assert_eq!(compute_upper(47, 0, 7, &p, 200, 80), Some(47));
    }
}

#[test]
fn favourites_and_position_only_shrink() {
    let mut p = base_params();
    p.fav_param = 10;
    p.allergy_param = 20;
    p.pos_mode = 1;
    p.pos_step = 20;
    for mode in [0u8, 2, 3, 6, 7, 8, 9, 10, 11, 5] {
        p.fav_mode = mode;
        for nf in 0..4 {
            let u = compute_upper(47, nf, 3, &p, 200, 80).unwrap();
            assert!(1 <= u && u <= 47);
        }
    }
}

#[test]
fn position_beyond_four() {
    let mut p = base_params();
    p.pos_mode = 1;
    p.pos_step = 5;
    // 60 * (100 - 50) / 100 = 30
    assert_eq!(position_upper(60, 10, &p), 30);
    p.pos_step = 0;
    assert_eq!(position_upper(60, usize::MAX, &p), 60);
    p.pos_mode = 0;
    assert_eq!(position_upper(60, 1000, &p), 60);
}
