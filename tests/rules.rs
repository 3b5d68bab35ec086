use gol2::board::Board;
use gol2::custom::{dither, FALLING_STARS, MAZE_CYCLE, NOISE, SPACE, WORLEY_LINES};
use gol2::rules::{conway, maze, maze_mice, Rule, Rulestring};
use gol2::tile::HeatConfig;

fn heat_off() -> HeatConfig {
    HeatConfig { enable_heat: false, soft_heat: false, soft_heat_amount: 0 }
}

fn alive_set(b: &Board) -> Vec<(isize, isize)> {
    let mut v = Vec::new();
    for y in 0..b.height() as isize {
        for x in 0..b.width() as isize {
            if b.get(x, y).alive() {
                v.push((x, y));
            }
        }
    }
    v
}

fn table(survive: &[usize], spawn: &[usize]) -> Rulestring {
    let mut t = Rulestring { survive: [false; 9], spawn: [false; 9] };
    for &d in survive {
        t.survive[d] = true;
    }
    for &d in spawn {
        t.spawn[d] = true;
    }
    t
}

#[test]
fn rule_notation() {
    assert!(conway() == Rule::Rulestring(table(&[2, 3], &[3])));
    assert!(maze() == Rule::Rulestring(table(&[1, 2, 3, 4, 5], &[3])));
    assert!(maze_mice() == Rule::Rulestring(table(&[1, 2, 3, 4, 5], &[3, 7])));
    assert!(Rulestring::parse("/") == table(&[], &[]));
    assert!(Rulestring::parse("0x8/9 1") == table(&[0, 8], &[1]));
    assert!(Rulestring::parse("3/4/5") == table(&[3], &[4, 5]));
}

#[test]
fn conway_glider_moves_diagonally() {
    let mut b = Board::new(10, 10);
    let glider = [(1, 0), (2, 1), (0, 2), (1, 2), (2, 2)];
    for &(x, y) in &glider {
        b.set(x + 2, y + 2, true);
    }
    for _ in 0..4 {
        b.update(conway(), &heat_off());
    }
    let mut expected: Vec<(isize, isize)> = glider.iter().map(|&(x, y)| (x + 3, y + 3)).collect();
    expected.sort_by_key(|&(x, y)| (y, x));
    assert_eq!(alive_set(&b), expected);
}

#[test]
fn block_is_still_life() {
    let mut b = Board::new(6, 6);
    for &(x, y) in &[(2, 2), (3, 2), (2, 3), (3, 3)] {
        b.set(x, y, true);
    }
    let before = alive_set(&b);
    for _ in 0..20 {
        b.update(conway(), &heat_off());
        assert_eq!(alive_set(&b), before);
    }
}

#[test]
fn blinker_oscillates() {
    let mut b = Board::new(5, 5);
    for x in 1..4 {
        b.set(x, 2, true);
    }
    b.update(conway(), &heat_off());
    assert_eq!(alive_set(&b), vec![(2, 1), (2, 2), (2, 3)]);
    b.update(conway(), &heat_off());
    assert_eq!(alive_set(&b), vec![(1, 2), (2, 2), (3, 2)]);
}

#[test]
fn generic_tick_is_deterministic() {
    let mut a = Board::new(8, 7);
    a.randomize();
    let mut b = a.duplicate();
    let cfg = HeatConfig { enable_heat: true, soft_heat: true, soft_heat_amount: 30 };
    for _ in 0..5 {
        a.update(maze(), &cfg);
        b.update(maze(), &cfg);
    }
    for y in 0..7 {
        for x in 0..8 {
            assert_eq!(a.get(x, y), b.get(x, y));
        }
    }
}

#[test]
fn soft_heat_saturates_and_dead_heat_floors() {
    let mut b = Board::new(4, 4);
    for &(x, y) in &[(1, 1), (2, 1), (1, 2), (2, 2)] {
        b.set(x, y, true);
    }
    let cfg = HeatConfig { enable_heat: true, soft_heat: true, soft_heat_amount: 50 };
    for tick in 1..=8u32 {
        b.update(conway(), &cfg);
        let expected = std::cmp::min(50 * tick, 255) as u8;
        assert_eq!(b.get(1, 1).heat(), expected);
        assert_eq!(b.get(0, 0).heat(), 0);
    }
}

#[test]
fn heat_disabled_keeps_heat() {
    let mut b = Board::new(4, 4);
    b.randomize();
    b.clear();
    b.set(1, 1, true);
    b.update(conway(), &heat_off());
    assert_eq!(b.get(1, 1).heat(), 0);
    assert!(!b.get(1, 1).alive());
}

#[test]
fn dither_bands() {
    assert_eq!(dither(0, 0, 50), Some(false));
    assert_eq!(dither(3, 6, 150), Some(true));
    assert_eq!(dither(3, 5, 150), Some(false));
    assert_eq!(dither(2, 4, 250), Some(true));
    assert_eq!(dither(1, 4, 250), Some(false));
    assert_eq!(dither(1, 3, 350), Some(true));
    assert_eq!(dither(1, 2, 350), Some(false));
    assert_eq!(dither(2, 2, 450), Some(false));
    assert_eq!(dither(2, 3, 450), Some(true));
    assert_eq!(dither(3, 3, 600), Some(false));
    assert_eq!(dither(3, 4, 600), Some(true));
    assert_eq!(dither(0, 0, 999), Some(true));
    assert_eq!(dither(0, 0, 1000), None);
}

#[test]
fn dither_field_keeps_undecided_cells() {
    let mut b = Board::new(2, 1);
    b.set(1, 0, true);
    b.apply_dither_field(&vec![700, 1500]);
    assert!(b.get(0, 0).alive());
    assert!(b.get(1, 0).alive());
    b.apply_dither_field(&vec![0, 0]);
    assert!(!b.get(0, 0).alive());
    assert!(!b.get(1, 0).alive());
}

#[test]
fn noise_flips_on_multiples_of_500() {
    let mut b = Board::new(2, 2);
    b.set(0, 0, true);
    b.set(1, 0, true);
    let cfg = HeatConfig { enable_heat: true, soft_heat: false, soft_heat_amount: 0 };
    b.noise_with(&vec![1000, 7, 500, 3], &cfg);
    assert!(!b.get(0, 0).alive());
    assert!(b.get(1, 0).alive());
    assert!(b.get(0, 1).alive());
    assert!(!b.get(1, 1).alive());
    assert_eq!(b.get(1, 0).heat(), 255);
    assert_eq!(b.get(1, 1).heat(), 0);
}

#[test]
fn falling_stars_fall_one_row() {
    let mut b = Board::new(3, 4);
    b.set(1, 0, true);
    b.set(2, 1, true);
    b.set(2, 2, true);
    let cfg = HeatConfig { enable_heat: true, soft_heat: false, soft_heat_amount: 0 };
    let keep = vec![1u32; 12];
    let mut sparks = vec![1u32; 12];
    sparks[0] = 2000;
    b.falling_stars_with(&keep, &sparks, &cfg);
    // (1,0) falls to (1,1); (2,1) is blocked by (2,2) and dies; (2,2) falls to (2,3).
    assert_eq!(alive_set(&b), vec![(0, 0), (1, 1), (2, 3)]);
    assert_eq!(b.get(1, 1).heat(), 245);
    assert_eq!(b.get(1, 0).heat(), 0);

    let mut e = Board::new(2, 2);
    e.set(0, 0, true);
    let mut erosion = vec![1u32; 4];
    erosion[0] = 40;
    e.falling_stars_with(&erosion, &vec![1u32; 4], &cfg);
    assert!(alive_set(&e).is_empty());
}

#[test]
fn maze_cycle_seeds_the_center() {
    let mut b = Board::new(8, 8);
    let mut rolls = vec![1u32; 16];
    rolls[5] = 4;
    b.maze_cycle_with(&rolls);
    // the seed at (3, 3) has no neighbors: it does not survive under Maze.
    assert!(!b.get(3, 3).alive());
    let mut c = Board::new(8, 8);
    c.set(4, 3, true);
    c.maze_cycle_with(&rolls);
    assert!(c.get(3, 3).alive());
    assert!(c.get(4, 3).alive());
    assert_eq!(c.get(3, 3).heat(), 5);
}

#[test]
fn space_moves_toward_empty_cells() {
    let mut b = Board::new(3, 3);
    b.set(1, 0, true);
    b.set(1, 1, true);
    let cfg = HeatConfig { enable_heat: true, soft_heat: false, soft_heat_amount: 0 };
    let axis = vec![0u32; 9];
    let fwd = vec![1u32; 9];
    let back = vec![1u32; 9];
    b.space_with(&axis, &fwd, &back, &cfg);
    // (1,1) has (1,0) above it and (1,2) empty below: it moves down.
    assert_eq!(alive_set(&b), vec![(1, 0), (1, 2)]);
    assert_eq!(b.get(1, 1).heat(), 0);
    assert_eq!(b.get(1, 2).heat(), 255);
}

#[test]
fn worley_lines_from_fixed_points() {
    let mut b = Board::new(10, 1);
    b.set(9, 0, true);
    b.worley_with(&vec![(0, 0), (9, 0)]);
    // distances 0,1,4,9,16 from (0,0) and 16,9,4,1,0 from (9,0); 2*d < 100 everywhere,
    // so only the boundary at x = 4 (its right neighbor belongs to the other point) lives.
    assert_eq!(alive_set(&b), vec![(4, 0)]);
    let mut none = Board::new(4, 4);
    none.set(1, 1, true);
    none.worley_with(&vec![]);
    assert!(alive_set(&none).is_empty());
}

#[test]
fn update_dispatches_custom_rules() {
    let cfg = HeatConfig { enable_heat: true, soft_heat: false, soft_heat_amount: 0 };
    for i in [FALLING_STARS, MAZE_CYCLE, NOISE, WORLEY_LINES, SPACE] {
        let mut b = Board::new(30, 30);
        b.randomize();
        b.update(Rule::Custom(i), &cfg);
        assert_eq!(b.width(), 30);
        assert_eq!(b.height(), 30);
    }
    let mut w = Board::new(40, 40);
    w.update(Rule::Custom(WORLEY_LINES), &cfg);
    assert!(!alive_set(&w).is_empty() || w.get(0, 0).heat() == 0);
}
