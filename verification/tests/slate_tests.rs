use foodclub::pirates::{HistArena, HistPirate};
use foodclub::slate::{anchored_bets, SlateBet};

fn hp(name: &str, odds: u32, current: Option<u32>) -> HistPirate {
    HistPirate { name: name.to_string(), odds, current_odds: current }
}

fn arena(name: &str, pirates: Vec<HistPirate>) -> HistArena {
    HistArena {
        arena_name: name.to_string(),
        foods: vec![],
        pirates,
        winner: String::new(),
        legacy: false,
    }
}

fn day() -> Vec<HistArena> {
    vec![
        arena("A", vec![hp("p0", 2, None), hp("p1", 5, None)]),
        arena("B", vec![hp("q0", 3, Some(4)), hp("q1", 13, None)]),
    ]
}

fn summary(bets: &[SlateBet]) -> Vec<(u32, Vec<usize>, Vec<usize>, u32)> {
    bets.iter().map(|b| (b.mask, b.arenas.clone(), b.picks.clone(), b.payout)).collect()
}

#[test]
fn slate_keeps_anchored_bets_in_order() {
    let anchors = vec![vec![false, true], vec![false, false]];
    let bets = anchored_bets(&day(), &anchors, false, 60);
    assert_eq!(
        summary(&bets),
        vec![(1, vec![0], vec![1], 5), (3, vec![0, 1], vec![1, 0], 15), (3, vec![0, 1], vec![1, 1], 60)]
    );
}

#[test]
fn slate_pays_current_odds_when_asked() {
    let anchors = vec![vec![false, true], vec![false, false]];
    let bets = anchored_bets(&day(), &anchors, true, 60);
    assert_eq!(
        summary(&bets),
        vec![(1, vec![0], vec![1], 5), (3, vec![0, 1], vec![1, 0], 20), (3, vec![0, 1], vec![1, 1], 60)]
    );
}

#[test]
fn slate_with_every_pirate_an_anchor_is_every_bet() {
    let anchors = vec![vec![true, true], vec![true, true]];
    let bets = anchored_bets(&day(), &anchors, false, 60);
    // 2 + 2 single bets and 4 doubles
    assert_eq!(bets.len(), 8);
    assert_eq!(summary(&bets)[0], (1, vec![0], vec![0], 2));
    assert_eq!(summary(&bets)[2], (2, vec![1], vec![0], 3));
    assert_eq!(summary(&bets)[4], (3, vec![0, 1], vec![0, 0], 6));
    let none = vec![vec![false, false], vec![false, false]];
    assert!(anchored_bets(&day(), &none, false, 60).is_empty());
}
