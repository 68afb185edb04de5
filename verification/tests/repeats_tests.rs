use foodclub::repeats::{odds_gap, repeat_summary};

#[test]
fn odds_gap_is_largest_position_difference() {
    assert_eq!(odds_gap(&[2, 5, 13, 3], &[2, 7, 10, 3]), 3);
    assert_eq!(odds_gap(&[2, 5, 13, 3], &[2, 5, 13, 3]), 0);
    assert_eq!(odds_gap(&[13, 2, 2, 2], &[2, 2, 2, 2]), 11);
}

#[test]
fn repeats_counted_by_signature() {
    let arenas = vec![
        (7u64, [2u32, 3, 4, 5]),
        (9, [2, 2, 2, 2]),
        (7, [2, 3, 4, 5]),
        (1, [3, 3, 3, 3]),
        (7, [2, 3, 6, 5]),
        (9, [2, 2, 2, 2]),
    ];
    let r = repeat_summary(&arenas, 4);
    // signatures 7 and 9 repeat; 7 gives three pairs, 9 one
    assert_eq!(r.signatures, 2);
    assert_eq!(r.pairs, 4);
    // (0,2) of signature 7 and (1,5) of signature 9 agree
    assert_eq!(r.identical, 2);
    assert_eq!(r.disagreeing, 1);
    assert_eq!(r.gaps, vec![2, 0, 2, 0]);
}

#[test]
fn no_repeats_and_narrow_bins() {
    let arenas = vec![(1u64, [2u32, 2, 2, 2]), (2, [3, 3, 3, 3])];
    let r = repeat_summary(&arenas, 2);
    assert_eq!((r.signatures, r.pairs, r.identical, r.disagreeing), (0, 0, 0, 0));
    assert_eq!(r.gaps, vec![0, 0]);
    let wide = vec![(5u64, [2u32, 2, 2, 2]), (5, [12, 2, 2, 2])];
    let r = repeat_summary(&wide, 3);
    assert_eq!((r.signatures, r.pairs, r.identical, r.disagreeing), (1, 1, 0, 1));
    assert_eq!(r.gaps, vec![0, 0, 0]);
    assert!(repeat_summary(&[], 0).gaps.is_empty());
}
