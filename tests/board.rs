use gol2::board::Board;
use gol2::tile::{HeatConfig, Tile};
use gol2::utils::Vec2I;

fn heat_off() -> HeatConfig {
    HeatConfig { enable_heat: false, soft_heat: false, soft_heat_amount: 0 }
}

#[test]
fn new_board_is_dead_and_cold() {
    let b = Board::new(4, 3);
    assert_eq!(b.width(), 4);
    assert_eq!(b.height(), 3);
    assert_eq!(b.len(), 12);
    for y in 0..3 {
        for x in 0..4 {
            assert_eq!(b.get(x, y), Tile { alive: false, heat: 0 });
        }
    }
}

#[test]
fn coordinates_wrap_toroidally() {
    let mut b = Board::new(4, 3);
    b.set(-1, -1, true);
    assert!(b.get(3, 2).alive());
    assert!(b.get(7, 5).alive());
    assert!(b.get(-5, -4).alive());
    assert!(b.get(3 - 4 * 1000, 2 + 3 * 1000).alive());
    assert!(!b.get(0, 0).alive());
    b.set_u(5, 4, true);
    assert!(b.get(1, 1).alive());
    assert!(b.get_u(9, 7).alive());
}

#[test]
fn set_keeps_heat() {
    let mut b = Board::new(3, 3);
    b.randomize();
    b.set(1, 1, false);
    assert_eq!(b.get(1, 1).heat(), 255);
    assert!(!b.get(1, 1).alive());
}

#[test]
fn neighbors_wrap_and_exclude_self() {
    let mut b = Board::new(5, 5);
    b.set(0, 0, true);
    b.set(4, 4, true);
    b.set(1, 0, true);
    assert_eq!(b.count_neighbors(0, 0), 2);
    assert_eq!(b.count_neighbors(4, 0), 2);
    assert_eq!(b.count_neighbors(2, 2), 0);
    let mut full = Board::new(3, 3);
    for y in 0..3 {
        for x in 0..3 {
            full.set(x, y, true);
        }
    }
    assert_eq!(full.count_neighbors(1, 1), 8);
    assert_eq!(full.count_neighbors(0, 0), 8);
}

#[test]
fn is_inside_does_not_wrap() {
    let b = Board::new(4, 3);
    assert!(b.is_inside(0, 0));
    assert!(b.is_inside(3, 2));
    assert!(!b.is_inside(4, 0));
    assert!(!b.is_inside(0, 3));
    assert!(!b.is_inside(-1, 1));
}

#[test]
fn clear_and_randomize() {
    let mut b = Board::new(6, 4);
    b.randomize();
    for y in 0..4 {
        for x in 0..6 {
            assert_eq!(b.get(x, y).heat(), 255);
        }
    }
    b.clear();
    for y in 0..4 {
        for x in 0..6 {
            assert_eq!(b.get(x, y), Tile { alive: false, heat: 0 });
        }
    }
}

#[test]
fn set_line_inside() {
    let mut b = Board::new(10, 10);
    assert_eq!(b.set_line(1, 1, 4, 1, true), Some(()));
    for x in 0..10 {
        assert_eq!(b.get(x, 1).alive(), (1..=4).contains(&x));
    }
    assert_eq!(b.set_line(2, 2, 5, 5, true), Some(()));
    for i in 2..=5 {
        assert!(b.get(i, i).alive());
    }
    assert!(!b.get(6, 6).alive());
}

#[test]
fn set_line_clips_to_grid() {
    let mut b = Board::new(5, 5);
    assert_eq!(b.set_line(-3, 2, 8, 2, true), Some(()));
    let mut count = 0;
    for y in 0..5 {
        for x in 0..5 {
            if b.get(x, y).alive() {
                assert_eq!(y, 2);
                count += 1;
            }
        }
    }
    assert_eq!(count, 5);
}

#[test]
fn set_line_outside_sets_nothing() {
    let mut b = Board::new(5, 5);
    assert_eq!(b.set_line(-3, -1, 8, -1, true), None);
    assert_eq!(b.set_line(-10, 0, -2, 9, true), None);
    for y in 0..5 {
        for x in 0..5 {
            assert!(!b.get(x, y).alive());
        }
    }
    b.set_line_u(0, 4, 4, 4, true);
    assert!(b.get(2, 4).alive());
}

#[test]
fn duplicate_is_equal() {
    let mut b = Board::new(3, 2);
    b.set(2, 1, true);
    let c = b.duplicate();
    assert!(c.get(2, 1).alive());
    assert_eq!(c.width(), 3);
    let _ = heat_off();
}

#[test]
fn tile_heat_policy() {
    let soft = HeatConfig { enable_heat: true, soft_heat: true, soft_heat_amount: 100 };
    let mut t = Tile::new();
    t.set(true);
    t.update_heat(&soft);
    assert_eq!(t.heat(), 100);
    t.update_heat(&soft);
    t.update_heat(&soft);
    assert_eq!(t.heat(), 255);
    t.update_heat(&soft);
    assert_eq!(t.heat(), 255);
    let hard = HeatConfig { enable_heat: true, soft_heat: false, soft_heat_amount: 100 };
    let mut u = Tile::new();
    u.set(true);
    u.update_heat(&hard);
    assert_eq!(u.heat(), 255);
    u.set(false);
    u.update_heat(&hard);
    assert_eq!(u.heat(), 254);
    let mut cold = Tile::new();
    cold.update_heat(&hard);
    assert_eq!(cold.heat(), 0);
    assert!(!cold.alive());
}

#[test]
fn vec2i_new() {
    let v = Vec2I::new(-3, 7);
    assert_eq!(v, Vec2I { x: -3, y: 7 });
}
