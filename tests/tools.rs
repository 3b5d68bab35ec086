use gol2::board::Board;
use gol2::custom::{rule_catalog, PERLIN_NOISE};
use gol2::rules::{conway, Rule};
use gol2::snapshot::{SnapshotError};
use gol2::tile::Tile;
use gol2::tools::{Selection, Tool};
use gol2::utils::Vec2I;

#[test]
fn selection_from_any_corners() {
    let s = Selection::from_corners(Vec2I::new(5, -2), Vec2I::new(1, 3));
    assert_eq!(s.start, Vec2I::new(5, 3));
    assert_eq!(s.end, Vec2I::new(1, -2));
    assert_eq!(s.width, 5);
    assert_eq!(s.height, 6);
    let one = Selection::from_corners(Vec2I::new(2, 2), Vec2I::new(2, 2));
    assert_eq!((one.width, one.height), (1, 1));
}

#[test]
fn tool_selection_and_line_ends() {
    assert!(Tool::Brush.selection().is_none());
    let half = Tool::Selection { start: Some(Vec2I::new(0, 0)), end: None };
    assert!(half.selection().is_none());
    let full = Tool::Selection { start: Some(Vec2I::new(4, 0)), end: Some(Vec2I::new(0, 2)) };
    let s = full.selection().unwrap();
    assert_eq!((s.width, s.height), (5, 3));
    let line = Tool::Line { start: Some(Vec2I::new(1, 2)), end: Some(Vec2I::new(3, 4)) };
    assert_eq!(line.line_ends(), Some((Vec2I::new(1, 2), Vec2I::new(3, 4))));
    assert_eq!(full.line_ends(), None);
    assert_eq!(Tool::Brush.name(), "Brush");
    assert_eq!(line.name(), "Line");
    assert_eq!(full.name(), "Selection");
}

#[test]
fn catalog_lists_every_rule() {
    let c = rule_catalog();
    assert_eq!(c.len(), 9);
    assert_eq!(c[0].0, "Conway");
    assert!(c[0].1 == conway());
    assert_eq!(c[8].0, "Perlin noise");
    assert!(c[8].1 == Rule::Custom(PERLIN_NOISE));
    assert!(c[3].1 == Rule::Custom(0));
}

#[test]
fn randomize_with_coins() {
    let mut b = Board::new(2, 2);
    b.randomize_with(&vec![0, 1, 2, 3]);
    assert_eq!(b.get(0, 0), Tile { alive: true, heat: 255 });
    assert_eq!(b.get(1, 0), Tile { alive: false, heat: 255 });
    assert_eq!(b.get(0, 1), Tile { alive: true, heat: 255 });
    assert_eq!(b.get(1, 1), Tile { alive: false, heat: 255 });
}

#[test]
fn paint_points_in_order() {
    let mut b = Board::new(3, 3);
    b.paint_points(&vec![(0, 0), (2, 1), (0, 0)], true);
    assert!(b.get(0, 0).alive());
    assert!(b.get(2, 1).alive());
    b.paint_points(&vec![(2, 1)], false);
    assert!(!b.get(2, 1).alive());
}

#[test]
fn cells_from_bytes() {
    let b = Board::from_cell_bytes(3, 3, &vec![0b1000_0001, 0b1]).unwrap();
    assert!(b.get(0, 0).alive());
    assert!(b.get(1, 2).alive());
    assert!(b.get(2, 2).alive());
    assert!(!b.get(1, 1).alive());
    assert_eq!(Board::from_cell_bytes(3, 3, &vec![1]).err(), Some(SnapshotError::CellCountMismatch));
}

#[test]
fn get_mut_writes_through() {
    let mut b = Board::new(4, 4);
    *b.get_mut(-1, 5) = Tile { alive: true, heat: 9 };
    assert_eq!(b.get(3, 1), Tile { alive: true, heat: 9 });
    b.get_mut_u(7, 1).heat = 3;
    assert_eq!(b.get(3, 1).heat(), 3);
}
