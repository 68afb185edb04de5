use foodclub::bets::{
    arena_subset, bet_won, candidate_codes, capped_payout, code_digits, code_hits, code_odds, eff_odds, is_anchor, is_jump,
    next_combo, outcome_winners, saturating_mul,
};
use foodclub::pirates::{HistArena, HistPirate};

fn hp(name: &str, odds: u32, current: Option<u32>) -> HistPirate {
    HistPirate { name: name.to_string(), odds, current_odds: current }
}

fn arena(p: [(&str, u32, Option<u32>); 4], winner: &str) -> HistArena {
    HistArena {
        arena_name: "A".to_string(),
        foods: vec![],
        pirates: p.iter().map(|&(n, o, c)| hp(n, o, c)).collect(),
        winner: winner.to_string(),
        legacy: false,
    }
}

#[test]
fn odds_and_anchors() {
    assert_eq!(eff_odds(&hp("a", 5, Some(7))), 7);
    assert_eq!(eff_odds(&hp("a", 5, None)), 5);
    assert!(is_jump(&hp("a", 5, Some(6)), 1));
    assert!(!is_jump(&hp("a", 5, Some(5)), 1));
    assert!(!is_jump(&hp("a", 5, None), 1));
    assert!(is_anchor(&hp("a", 2, None), true, 1));
    assert!(!is_anchor(&hp("a", 2, None), false, 1));
    assert!(!is_anchor(&hp("a", 3, None), true, 1));
    assert!(is_anchor(&hp("a", 3, Some(4)), false, 1));
}

#[test]
fn candidate_codes_need_an_anchor_leg() {
    // one arena, only pirate 2 (digit 3) is an anchor
    let anchors = vec![[false, false, true, false]];
    assert_eq!(candidate_codes(&anchors), vec![3]);
    // two arenas: anchor pirate 0 in arena 1 (digit 1 at weight 5)
    let anchors = vec![[false; 4], [true, false, false, false]];
    let codes = candidate_codes(&anchors);
    assert_eq!(codes, vec![5, 6, 7, 8, 9]);
    assert!(candidate_codes(&vec![[false; 4]; 3]).is_empty());
    let all = candidate_codes(&vec![[true; 4]; 2]);
    assert_eq!(all.len(), 24);
}

#[test]
fn code_odds_and_hits() {
    let arenas = vec![
        arena([("a", 2, None), ("b", 3, Some(4)), ("c", 5, None), ("d", 13, None)], "b"),
        arena([("e", 2, None), ("f", 4, None), ("g", 6, None), ("h", 13, Some(2))], "h"),
    ];
    // code 2 + 5 * 4 = 22: pirate b (current 4) and pirate h (current 2)
    assert_eq!(code_odds(&arenas, 22), (8, 2));
    assert_eq!(code_odds(&arenas, 3), (5, 1));
    assert_eq!(code_odds(&arenas, 0), (1, 0));
    assert!(code_hits(22, &[1, 3], 2));
    assert!(!code_hits(22, &[1, 2], 2));
    assert!(code_hits(5, &[0, 0], 2));
    assert_eq!(saturating_mul(70000, 70000), u32::MAX);
    assert_eq!(saturating_mul(7, 6), 42);
    assert_eq!(outcome_winners(0, 3), vec![0, 0, 0]);
    assert_eq!(outcome_winners(1 + 2 * 4 + 3 * 16, 3), vec![1, 2, 3]);
}

#[test]
fn payouts_cap() {
    assert_eq!(capped_payout(&[3, 4], 60), 12);
    assert_eq!(capped_payout(&[13, 13], 60), 60);
    assert_eq!(capped_payout(&[13, 13, 2], 60), 60);
    assert_eq!(capped_payout(&[], 60), 1);
}

#[test]
fn subsets_and_combinations() {
    assert_eq!(arena_subset(0b10110, 5), vec![1, 2, 4]);
    assert_eq!(arena_subset(0b10110, 3), vec![1, 2]);
    assert!(arena_subset(0, 5).is_empty());
    let sizes = vec![2usize, 3];
    let mut combo = vec![0usize, 0];
    let mut seen = vec![combo.clone()];
    loop {
        if next_combo(&mut combo, &sizes) {
            break;
        }
        seen.push(combo.clone());
    }
    assert_eq!(seen, vec![vec![0, 0], vec![0, 1], vec![0, 2], vec![1, 0], vec![1, 1], vec![1, 2]]);
    assert_eq!(combo, vec![0, 0]);
}

#[test]
fn bets_win_when_every_pick_won() {
    let arenas = vec![
        arena([("a", 2, None), ("b", 3, None), ("c", 5, None), ("d", 13, None)], "b"),
        arena([("e", 2, None), ("f", 4, None), ("g", 6, None), ("h", 13, None)], "h"),
    ];
    assert!(bet_won(&vec!["b".to_string(), "h".to_string()], &arenas));
    assert!(bet_won(&vec!["h".to_string()], &arenas));
    assert!(!bet_won(&vec!["b".to_string(), "g".to_string()], &arenas));
    assert!(bet_won(&vec![], &arenas));
}

#[test]
fn code_digits_decode_base_five() {
    // 1 + 3*5 + 0*25 + 4*125 = 516
    assert_eq!(code_digits(516, 4), vec![1, 3, 0, 4]);
    assert_eq!(code_digits(516, 2), vec![1, 3]);
    assert_eq!(code_digits(0, 3), vec![0, 0, 0]);
}
