use foodclub::scans::{scan_cells, ScanRow};

fn row(odds: u32, won: bool) -> ScanRow {
    ScanRow { odds, won }
}

#[test]
fn groups_in_first_seen_order_with_tallies() {
    let rows = vec![row(4, true), row(2, true), row(5, false), row(4, false), row(13, true), row(3, false)];
    let keys = vec![Some(9), Some(9), Some(1), Some(9), None, Some(1)];
    let cells = scan_cells(&rows, &keys, 0);
    assert_eq!(cells.len(), 2);
    assert_eq!(cells[0].key, 9);
    // row 1 has odds 2 and takes no part; row 4 has no key
    assert_eq!(cells[0].rows, vec![0, 3]);
    assert_eq!((cells[0].n, cells[0].wins, cells[0].won_odds, cells[0].null_var), (2, 1, 4, 6));
    assert_eq!(cells[1].key, 1);
    assert_eq!(cells[1].rows, vec![2, 5]);
    assert_eq!((cells[1].n, cells[1].wins, cells[1].won_odds, cells[1].null_var), (2, 0, 0, 6));
}

#[test]
fn small_groups_are_dropped() {
    let rows = vec![row(3, true), row(6, true), row(3, false), row(7, true)];
    let keys = vec![Some(0), Some(1), Some(0), Some(2)];
    let cells = scan_cells(&rows, &keys, 2);
    assert_eq!(cells.len(), 1);
    assert_eq!(cells[0].key, 0);
    assert_eq!((cells[0].n, cells[0].wins, cells[0].won_odds, cells[0].null_var), (2, 1, 3, 4));
    assert!(scan_cells(&rows, &keys, 3).is_empty());
    assert!(scan_cells(&[], &[], 0).is_empty());
}
