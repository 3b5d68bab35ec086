use gol2::board::Board;
use gol2::snapshot::{bools_to_u8s, u8s_to_bools, Snapshot, SnapshotError};

#[test]
fn test_bools_to_u8s() {
    let bools = vec![true, false, true, true, false, false, true, true];
    let result = bools_to_u8s(bools);
    assert_eq!(result, vec![0b11001101]);

    let bools = vec![true; 16];
    let result = bools_to_u8s(bools);
    assert_eq!(result, vec![0xFF, 0xFF]);
}

#[test]
fn packing_pads_the_last_byte() {
    assert_eq!(bools_to_u8s(vec![true, false, false, true, true]), vec![0b11001]);
    assert_eq!(bools_to_u8s(vec![]), Vec::<u8>::new());
    assert_eq!(u8s_to_bools(&vec![0b11001], 5), vec![true, false, false, true, true]);
}

fn pattern_board() -> Board {
    let mut b = Board::new(5, 3);
    b.set(0, 0, true);
    b.set(4, 0, true);
    b.set(2, 1, true);
    b.set(3, 2, true);
    b
}

#[test]
fn snapshot_round_trip() {
    let b = pattern_board();
    let s = b.to_snapshot();
    assert_eq!(s.width, 5);
    assert_eq!(s.height, 3);
    // bits 0,4 | 7 | 13 -> 0b1001_0001, 0b0010_0000
    assert_eq!(s.cells, "kSA=");
    let back = Board::from_snapshot(&s).unwrap();
    assert_eq!(back.width(), 5);
    assert_eq!(back.height(), 3);
    for y in 0..3 {
        for x in 0..5 {
            assert_eq!(back.get(x, y).alive(), b.get(x, y).alive());
            assert_eq!(back.get(x, y).heat(), 0);
        }
    }
}

#[test]
fn snapshot_errors() {
    let bad = Snapshot { width: 5, height: 3, cells: "not base64!".to_string() };
    assert_eq!(Board::from_snapshot(&bad).err(), Some(SnapshotError::InvalidBase64));
    let short = Snapshot { width: 5, height: 3, cells: "kQ==".to_string() };
    assert_eq!(Board::from_snapshot(&short).err(), Some(SnapshotError::CellCountMismatch));
    let long = Snapshot { width: 2, height: 2, cells: "kSA=".to_string() };
    assert_eq!(Board::from_snapshot(&long).err(), Some(SnapshotError::CellCountMismatch));
    let zero = Snapshot { width: 0, height: 3, cells: "".to_string() };
    assert_eq!(Board::from_snapshot(&zero).err(), Some(SnapshotError::InvalidDimensions));
    assert_eq!(SnapshotError::InvalidBase64.message(), "cells are not valid base64");
}
