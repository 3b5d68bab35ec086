//! The catalog of custom rules: stochastic or structural transformations
//! that act on the grid directly instead of through a survive/spawn table.
//!
//! Each rule comes in two parts: a `*_with` method that takes the random
//! draws it needs as an argument and is specified exactly in terms of them,
//! and a method that draws them from the shared generator first.

use vstd::prelude::*;
use crate::board::{Board, BoardView, lemma_index_of_position, lemma_index_in_range, lemma_dims_fit};
use crate::random::{random_below, random_u32};
use crate::rules::{Rule, Rulestring, conway, has_sets, maze, maze_mice, maze_table, tick};
use crate::tile::{HeatConfig, Tile, heat_step, sat_add, sat_sub};

verus! {

broadcast use {lemma_index_of_position, lemma_index_in_range};

/// Catalog position of Falling stars.
pub const FALLING_STARS: usize = 0;

/// Catalog position of Maze cycle.
pub const MAZE_CYCLE: usize = 1;

/// Catalog position of Noise.
pub const NOISE: usize = 2;

/// Catalog position of Worley lines.
pub const WORLEY_LINES: usize = 3;

/// Catalog position of Space.
pub const SPACE: usize = 4;

/// Catalog position of Perlin noise.
pub const PERLIN_NOISE: usize = 5;

/// The named rules offered to the user: the three tables, then the custom
/// rules in catalog order.
pub fn rule_catalog() -> (r: Vec<(&'static str, Rule)>)
    ensures
        r.len() == 9,
        forall|k: int| 3 <= k < 9 ==> #[trigger] r@[k].1 == Rule::Custom((k - 3) as usize),
        r@[0].1 matches Rule::Rulestring(t) && has_sets(t, set![2, 3], set![3]),
        r@[1].1 matches Rule::Rulestring(t) && has_sets(t, set![1, 2, 3, 4, 5], set![3]),
        r@[2].1 matches Rule::Rulestring(t) && has_sets(t, set![1, 2, 3, 4, 5], set![3, 7]),
{
    let mut r: Vec<(&'static str, Rule)> = Vec::new();
    r.push(("Conway", conway()));
    r.push(("Maze", maze()));
    r.push(("Maze with mice", maze_mice()));
    r.push(("Falling stars", Rule::Custom(FALLING_STARS)));
    r.push(("Maze cycle", Rule::Custom(MAZE_CYCLE)));
    r.push(("Noise", Rule::Custom(NOISE)));
    r.push(("Worley noise", Rule::Custom(WORLEY_LINES)));
    r.push(("Space", Rule::Custom(SPACE)));
    r.push(("Perlin noise", Rule::Custom(PERLIN_NOISE)));
    r
}

/// `n` draws from the shared generator.
fn draw_rolls(n: usize) -> (r: Vec<u32>)
    ensures
        r.len() == n,
{
    let mut r: Vec<u32> = Vec::new();
    let mut i: usize = 0;
    while i < n
        invariant
            i <= n,
            r.len() == i,
        decreases n - i,
    {
        r.push(random_u32());
        i += 1;
    }
    r
}

// ---------------------------------------------------------------- noise

/// One cell under noise: it flips when its draw is a multiple of 500, then
/// its heat follows the policy.
pub open spec fn noise_tile(t: Tile, roll: u32, config: HeatConfig) -> Tile {
    let a = if t.alive {
        roll % 500 != 0
    } else {
        roll % 500 == 0
    };
    Tile { alive: a, heat: heat_step(a, t.heat, config) }
}

pub open spec fn noise_spec(v: BoardView, rolls: Seq<u32>, config: HeatConfig) -> BoardView {
    BoardView {
        cells: Seq::new(v.cells.len(), |i: int| noise_tile(v.cells[i], rolls[i], config)),
        ..v
    }
}

// ------------------------------------------------------- falling stars

/// The grid after erosion: a live cell dies when its draw is a multiple of 40.
pub open spec fn eroded(v: BoardView, rolls: Seq<u32>) -> BoardView {
    BoardView {
        cells: Seq::new(
            v.cells.len(),
            |i: int| Tile { alive: v.cells[i].alive && rolls[i] % 40 != 0, heat: v.cells[i].heat },
        ),
        ..v
    }
}

/// One cell after the fall, read from the eroded grid `e`: every live cell
/// leaves its place (falling into the cell below when that one is dead,
/// dying otherwise), so a cell is alive when it was dead and either the cell
/// above fell into it or it sparked (draw a multiple of 2000). Heat follows
/// the policy, then cools by a further 10.
pub open spec fn fallen_tile(e: BoardView, rolls: Seq<u32>, config: HeatConfig, i: int) -> Tile {
    let (x, y) = (e.col(i), e.row(i));
    let a = !e.cells[i].alive && (rolls[i] % 2000 == 0 || e.alive(x, y - 1));
    Tile { alive: a, heat: sat_sub(heat_step(a, e.cells[i].heat, config), 10) }
}

pub open spec fn falling_stars_spec(
    v: BoardView,
    erosion: Seq<u32>,
    sparks: Seq<u32>,
    config: HeatConfig,
) -> BoardView {
    let e = eroded(v, erosion);
    BoardView { cells: Seq::new(v.cells.len(), |i: int| fallen_tile(e, sparks, config, i)), ..v }
}


// ---------------------------------------------------------- maze cycle

/// Column of the k-th of the 16 seed positions, a 4 by 4 block whose
/// top-left corner is two cells up and left of the center.
pub open spec fn seed_x(v: BoardView, k: int) -> int {
    v.width / 2 - 2 + k % 4
}

pub open spec fn seed_y(v: BoardView, k: int) -> int {
    v.height / 2 - 2 + k / 4
}

/// The grid after the first `k` seed positions were considered: a position
/// comes alive when its draw is a multiple of 4.
pub open spec fn seeded(v: BoardView, rolls: Seq<u32>, k: nat) -> BoardView
    decreases k,
{
    if k == 0 {
        v
    } else {
        let p = seeded(v, rolls, (k - 1) as nat);
        if rolls[k - 1] % 4 == 0 {
            p.set_alive(seed_x(v, k - 1), seed_y(v, k - 1), true)
        } else {
            p
        }
    }
}

/// One cell of the maze cycle, read from the seeded grid `o`: a live cell
/// warms by 5 and follows the survive table, dying once its heat reaches
/// 255; a dead cell cools by 1 and may spawn only while its heat is below 100.
pub open spec fn maze_tile(rs: Rulestring, o: BoardView, i: int) -> Tile {
    let t = o.cells[i];
    let n = o.neighbors(o.col(i), o.row(i));
    if t.alive {
        let h = sat_add(t.heat, 5);
        Tile { alive: rs.survive@[n] && h != 255, heat: h }
    } else {
        Tile { alive: rs.spawn@[n] && t.heat < 100, heat: sat_sub(t.heat, 1) }
    }
}

pub open spec fn maze_cycle_spec(v: BoardView, rs: Rulestring, rolls: Seq<u32>) -> BoardView {
    let o = seeded(v, rolls, 16);
    BoardView { cells: Seq::new(o.cells.len(), |i: int| maze_tile(rs, o, i)), ..o }
}

/// The survive/spawn sets of the Maze table.
pub open spec fn is_maze_table(rs: Rulestring) -> bool {
    has_sets(rs, set![1, 2, 3, 4, 5], set![3])
}

// --------------------------------------------------------------- space

/// Where the particle at position `i` moves, if anywhere. Its draws are
/// `axis[i]` (vertical when even), `fwd[i]` and `back[i]` (the jitter of
/// each direction). It moves down (right) into an empty cell when the cell
/// behind it is occupied or on jitter; else up (left) when the cell ahead is
/// occupied or on jitter and the cell behind is empty. Nothing wraps.
pub open spec fn space_target(v: BoardView, axis: Seq<u32>, fwd: Seq<u32>, back: Seq<u32>, i: int) -> Option<int> {
    let (x, y, w, h) = (v.col(i), v.row(i), v.width, v.height);
    let (coin, j1, j2) = (axis[i], fwd[i], back[i]);
    if !v.cells[i].alive {
        None
    } else if coin % 2 == 0 {
        if y + 1 < h && !v.alive(x, y + 1) && y > 0 && (v.alive(x, y - 1) || j1 % 10 == 0) {
            Some(i + w)
        } else if y + 1 < h && (v.alive(x, y + 1) || j2 % 10 == 0) && y > 0 && !v.alive(x, y - 1) {
            Some(i - w)
        } else {
            None
        }
    } else {
        if x + 1 < w && !v.alive(x + 1, y) && x > 0 && (v.alive(x - 1, y) || j1 % 10 == 0) {
            Some(i + 1)
        } else if x + 1 < w && (v.alive(x + 1, y) || j2 % 10 == 0) && x > 0 && !v.alive(x - 1, y) {
            Some(i - 1)
        } else {
            None
        }
    }
}

/// The moves of the particles at positions below `k`, in raster order, as
/// (from, to) pairs; all read from the grid before the tick.
pub open spec fn space_moves(v: BoardView, axis: Seq<u32>, fwd: Seq<u32>, back: Seq<u32>, k: nat) -> Seq<(int, int)>
    decreases k,
{
    if k == 0 {
        seq![]
    } else {
        let m = space_moves(v, axis, fwd, back, (k - 1) as nat);
        match space_target(v, axis, fwd, back, k - 1) {
            Some(t) => m.push((k - 1, t)),
            None => m,
        }
    }
}

/// One move applied: the source dies and the target lives, each with the
/// heat policy applied once.
pub open spec fn moved(v: BoardView, m: (int, int), config: HeatConfig) -> BoardView {
    let from = v.cells[m.0];
    let c1 = v.cells.update(m.0, Tile { alive: false, heat: heat_step(false, from.heat, config) });
    let to = c1[m.1];
    BoardView { cells: c1.update(m.1, Tile { alive: true, heat: heat_step(true, to.heat, config) }), ..v }
}

/// The moves applied in order.
pub open spec fn apply_moves(v: BoardView, ms: Seq<(int, int)>, config: HeatConfig) -> BoardView
    decreases ms.len(),
{
    if ms.len() == 0 {
        v
    } else {
        moved(apply_moves(v, ms.drop_last(), config), ms.last(), config)
    }
}

pub open spec fn space_spec(
    v: BoardView,
    axis: Seq<u32>,
    fwd: Seq<u32>,
    back: Seq<u32>,
    config: HeatConfig,
) -> BoardView {
    apply_moves(v, space_moves(v, axis, fwd, back, v.cells.len()), config)
}

/// Every move stays inside the grid.
proof fn lemma_space_moves_in_grid(v: BoardView, axis: Seq<u32>, fwd: Seq<u32>, back: Seq<u32>, k: nat)
    requires
        v.valid(),
        k <= v.cells.len(),
    ensures
        forall|j: int| 0 <= j < space_moves(v, axis, fwd, back, k).len() ==> {
            let m = #[trigger] space_moves(v, axis, fwd, back, k)[j];
            0 <= m.0 < v.cells.len() && 0 <= m.1 < v.cells.len()
        },
    decreases k,
{
    if k > 0 {
        lemma_space_moves_in_grid(v, axis, fwd, back, (k - 1) as nat);
        let i = k - 1;
        let (x, y, w, h) = (v.col(i), v.row(i), v.width, v.height);
        lemma_index_of_position(v, i);
        assert((y + 1) * w == y * w + w) by (nonlinear_arith);
        assert(y + 1 < h ==> (y + 1) * w <= (h - 1) * w) by (nonlinear_arith)
            requires w > 0;
        assert((h - 1) * w == h * w - w) by (nonlinear_arith);
        assert(w * h == h * w) by (nonlinear_arith);
        assert(y > 0 ==> y * w >= w) by (nonlinear_arith)
            requires w > 0;
        assert((y + 1) * w <= h * w) by (nonlinear_arith)
            requires y + 1 <= h, w > 0;
        let m = space_moves(v, axis, fwd, back, (k - 1) as nat);
        if let Some(t) = space_target(v, axis, fwd, back, i) {
            assert(0 <= t < v.cells.len());
            assert forall|j: int| 0 <= j < m.push((i, t)).len() implies {
                let mm = #[trigger] m.push((i, t))[j];
                0 <= mm.0 < v.cells.len() && 0 <= mm.1 < v.cells.len()
            } by {
                if j < m.len() {
                    assert(m.push((i, t))[j] == m[j]);
                }
            }
        }
    }
}


// ----------------------------------------------------------- dithering

/// Ordered dithering of a value in [0, 1) given in thousandths: seven bands
/// of growing density, from always dead to always alive. Values of 1000 and
/// more give no decision.
pub open spec fn dither_spec(x: int, y: int, milli: int) -> Option<bool> {
    if milli < 100 {
        Some(false)
    } else if milli < 200 {
        Some(x % 3 == 0 && y % 3 == 0)
    } else if milli < 300 {
        Some(x % 2 == 0 && y % 2 == 0)
    } else if milli < 400 {
        Some(x % 2 == y % 2)
    } else if milli < 520 {
        Some(!(x % 2 == 0 && y % 2 == 0))
    } else if milli < 640 {
        Some(!(x % 3 == 0 && y % 3 == 0))
    } else if milli < 1000 {
        Some(true)
    } else {
        None
    }
}

/// Every cell dithered from its level; a cell without a decision is kept.
pub open spec fn dithered(v: BoardView, levels: Seq<u32>) -> BoardView {
    BoardView {
        cells: Seq::new(
            v.cells.len(),
            |i: int|
                match dither_spec(v.col(i), v.row(i), levels[i] as int) {
                    Some(a) => Tile { alive: a, heat: v.cells[i].heat },
                    None => v.cells[i],
                },
        ),
        ..v
    }
}

// ------------------------------------------------------- worley lines

pub open spec fn dist2(x: int, y: int, p: (usize, usize)) -> int {
    (x - p.0) * (x - p.0) + (y - p.1) * (y - p.1)
}

/// Position in `pts` of the first point nearest to (x, y) among the first `k`.
pub open spec fn nearest(pts: Seq<(usize, usize)>, x: int, y: int, k: nat) -> int
    decreases k,
{
    if k <= 1 {
        0
    } else {
        let j = nearest(pts, x, y, (k - 1) as nat);
        if dist2(x, y, pts[k - 1]) < dist2(x, y, pts[j]) {
            k - 1
        } else {
            j
        }
    }
}

proof fn lemma_nearest_bound(pts: Seq<(usize, usize)>, x: int, y: int, k: nat)
    requires
        k >= 1,
    ensures
        0 <= nearest(pts, x, y, k) < k,
    decreases k,
{
    if k > 1 {
        lemma_nearest_bound(pts, x, y, (k - 1) as nat);
    }
}

/// The seed point that (x, y) belongs to: the first nearest one.
pub open spec fn owner(pts: Seq<(usize, usize)>, x: int, y: int) -> Option<(usize, usize)> {
    if pts.len() == 0 {
        None
    } else {
        Some(pts[nearest(pts, x, y, pts.len())])
    }
}

/// The dithered texture: the squared distance to the owner, over 500, is the
/// dither value.
pub open spec fn worley_base(pts: Seq<(usize, usize)>, x: int, y: int) -> bool {
    pts.len() > 0 && {
        let d = dist2(x, y, pts[nearest(pts, x, y, pts.len())]);
        d < 500 && dither_spec(x, y, 2 * d) == Some(true)
    }
}

/// A boundary cell: its right or its lower neighbor, inside the grid,
/// belongs to another seed point.
pub open spec fn worley_edge(v: BoardView, pts: Seq<(usize, usize)>, x: int, y: int) -> bool {
    (x + 1 < v.width && owner(pts, x + 1, y) != owner(pts, x, y)) || (y + 1 < v.height && owner(
        pts,
        x,
        y + 1,
    ) != owner(pts, x, y))
}

pub open spec fn worley_spec(v: BoardView, pts: Seq<(usize, usize)>) -> BoardView {
    BoardView {
        cells: Seq::new(
            v.cells.len(),
            |i: int|
                Tile {
                    alive: worley_base(pts, v.col(i), v.row(i)) || worley_edge(v, pts, v.col(i), v.row(i)),
                    heat: 0,
                },
        ),
        ..v
    }
}

/// Every point lies in the grid.
pub open spec fn points_in_grid(v: BoardView, pts: Seq<(usize, usize)>) -> bool {
    forall|k: int| 0 <= k < pts.len() ==> (#[trigger] pts[k]).0 < v.width && pts[k].1 < v.height
}

/// Ordered dithering of a level in thousandths at (x, y); see `dither_spec`.
pub fn dither(x: usize, y: usize, milli: u32) -> (r: Option<bool>)
    ensures
        r == dither_spec(x as int, y as int, milli as int),
{
    if milli < 100 {
        Some(false)
    } else if milli < 200 {
        Some(x % 3 == 0 && y % 3 == 0)
    } else if milli < 300 {
        Some(x % 2 == 0 && y % 2 == 0)
    } else if milli < 400 {
        Some(x % 2 == y % 2)
    } else if milli < 520 {
        Some(!(x % 2 == 0 && y % 2 == 0))
    } else if milli < 640 {
        Some(!(x % 3 == 0 && y % 3 == 0))
    } else if milli < 1000 {
        Some(true)
    } else {
        None
    }
}

/// Squared distance between (x, y) and `p`, both inside a grid.
fn distance2(x: usize, y: usize, p: (usize, usize)) -> (r: u128)
    requires
        x <= isize::MAX,
        y <= isize::MAX,
        p.0 <= isize::MAX,
        p.1 <= isize::MAX,
    ensures
        r == dist2(x as int, y as int, p),
{
    let dx: u128 = if x >= p.0 {
        (x - p.0) as u128
    } else {
        (p.0 - x) as u128
    };
    let dy: u128 = if y >= p.1 {
        (y - p.1) as u128
    } else {
        (p.1 - y) as u128
    };
    assert(dx * dx <= 0x4000_0000_0000_0000_0000_0000_0000_0000) by (nonlinear_arith)
        requires dx <= 0x8000_0000_0000_0000;
    assert(dy * dy <= 0x4000_0000_0000_0000_0000_0000_0000_0000) by (nonlinear_arith)
        requires dy <= 0x8000_0000_0000_0000;
    assert(dx * dx == (x - p.0) * (x - p.0)) by (nonlinear_arith)
        requires dx == x - p.0 || dx == p.0 - x;
    assert(dy * dy == (y - p.1) * (y - p.1)) by (nonlinear_arith)
        requires dy == y - p.1 || dy == p.1 - y;
    dx * dx + dy * dy
}

/// Whether `Board::update` runs `rule` by itself: every table and every
/// custom rule but Perlin noise, whose noise field is sampled by the caller
/// and handed to `Board::apply_dither_field`.
pub open spec fn runs_in_library(rule: Rule) -> bool {
    match rule {
        Rule::Rulestring(_) => true,
        Rule::Custom(i) => i < PERLIN_NOISE,
    }
}

/// What a tick of the custom rule at catalog position `i` turns `v` into,
/// for some value of the random draws it took.
pub open spec fn custom_outcome(i: usize, v: BoardView, r: BoardView, config: HeatConfig) -> bool {
    let n = v.cells.len();
    if i == FALLING_STARS {
        exists|erosion: Seq<u32>, sparks: Seq<u32>|
            erosion.len() == n && sparks.len() == n && r == falling_stars_spec(v, erosion, sparks, config)
    } else if i == MAZE_CYCLE {
        exists|rs: Rulestring, rolls: Seq<u32>|
            is_maze_table(rs) && rolls.len() == 16 && r == maze_cycle_spec(v, rs, rolls)
    } else if i == NOISE {
        exists|rolls: Seq<u32>| rolls.len() == n && r == noise_spec(v, rolls, config)
    } else if i == WORLEY_LINES {
        exists|pts: Seq<(usize, usize)>|
            pts.len() <= n / 400 && points_in_grid(v, pts) && r == worley_spec(v, pts)
    } else if i == SPACE {
        exists|axis: Seq<u32>, fwd: Seq<u32>, back: Seq<u32>|
            axis.len() == n && fwd.len() == n && back.len() == n && r == space_spec(v, axis, fwd, back, config)
    } else {
        false
    }
}

impl Board {
    /// One simulation tick under `rule`: the synchronous generic tick for a
    /// table, or the custom rule at the given catalog position.
    pub fn update(&mut self, rule: Rule, config: &HeatConfig)
        requires
            old(self).wf(),
            runs_in_library(rule),
        ensures
            final(self).wf(),
            match rule {
                Rule::Rulestring(rs) => final(self)@ == tick(rs, *config, old(self)@),
                Rule::Custom(i) => custom_outcome(i, old(self)@, final(self)@, *config),
            },
    {
        match rule {
            Rule::Rulestring(rs) => self.apply_rulestring(&rs, config),
            Rule::Custom(i) => {
                if i == FALLING_STARS {
                    self.falling_stars(config);
                } else if i == MAZE_CYCLE {
                    self.maze_cycle();
                } else if i == NOISE {
                    self.noise(config);
                } else if i == WORLEY_LINES {
                    self.worley();
                } else {
                    self.space(config);
                }
            },
        }
    }

    /// Noise: each cell flips when its draw is a multiple of 500; heat then
    /// follows the policy.
    pub fn noise_with(&mut self, rolls: &Vec<u32>, config: &HeatConfig)
        requires
            old(self).wf(),
            rolls.len() == old(self)@.cells.len(),
        ensures
            final(self).wf(),
            final(self)@ == noise_spec(old(self)@, rolls@, *config),
    {
        let n = self.len();
        let mut i: usize = 0;
        while i < n
            invariant
                i <= n,
                self.wf(),
                n == old(self)@.cells.len(),
                rolls.len() == n,
                self@.same_shape(old(self)@),
                self@.width == old(self)@.width,
                forall|j: int| 0 <= j < i ==> self@.cells[j] == noise_tile(old(self)@.cells[j], rolls@[j], *config),
                forall|j: int| i <= j < n ==> self@.cells[j] == old(self)@.cells[j],
            decreases n - i,
        {
            let mut t = self.tile_at(i);
            let r = rolls[i];
            if t.alive {
                t.alive = r % 500 != 0;
            } else {
                t.alive = r % 500 == 0;
            }
            t.update_heat(config);
            self.put_tile(i, t);
            i += 1;
        }
        assert(self@.cells =~= noise_spec(old(self)@, rolls@, *config).cells);
    }

    /// Noise with fresh draws from the shared generator.
    pub fn noise(&mut self, config: &HeatConfig)
        requires
            old(self).wf(),
        ensures
            final(self).wf(),
            exists|rolls: Seq<u32>|
                rolls.len() == old(self)@.cells.len() && final(self)@ == noise_spec(old(self)@, rolls, *config),
    {
        let rolls = draw_rolls(self.len());
        self.noise_with(&rolls, config);
    }

    /// Falling stars: erosion by `erosion`, then every live cell falls one
    /// row or dies, with sparks from `sparks`; see `falling_stars_spec`.
    pub fn falling_stars_with(&mut self, erosion: &Vec<u32>, sparks: &Vec<u32>, config: &HeatConfig)
        requires
            old(self).wf(),
            erosion.len() == old(self)@.cells.len(),
            sparks.len() == old(self)@.cells.len(),
        ensures
            final(self).wf(),
            final(self)@ == falling_stars_spec(old(self)@, erosion@, sparks@, *config),
    {
        let n = self.len();
        let w = self.width();
        let mut i: usize = 0;
        while i < n
            invariant
                i <= n,
                self.wf(),
                n == old(self)@.cells.len(),
                erosion.len() == n,
                self@.same_shape(old(self)@),
                self@.width == old(self)@.width,
                forall|j: int| 0 <= j < i ==> self@.cells[j] == eroded(old(self)@, erosion@).cells[j],
                forall|j: int| i <= j < n ==> self@.cells[j] == old(self)@.cells[j],
            decreases n - i,
        {
            let t = self.tile_at(i);
            if erosion[i] % 40 == 0 {
                self.put_tile(i, Tile { alive: false, heat: t.heat });
            }
            i += 1;
        }
        assert(self@ == eroded(old(self)@, erosion@)) by {
            assert(self@.cells =~= eroded(old(self)@, erosion@).cells);
        }
        let prev = self.duplicate();
        let ghost e = prev@;
        let mut i: usize = 0;
        while i < n
            invariant
                i <= n,
                self.wf(),
                prev.wf(),
                prev@ == e,
                e == eroded(old(self)@, erosion@),
                n == e.cells.len(),
                w == e.width,
                sparks.len() == n,
                self@.same_shape(e),
                self@.width == e.width,
                forall|j: int| 0 <= j < i ==> self@.cells[j] == fallen_tile(e, sparks@, *config, j),
                forall|j: int| i <= j < n ==> self@.cells[j] == e.cells[j],
            decreases n - i,
        {
            proof {
                lemma_dims_fit(e);
            }
            let x = (i % w) as isize;
            let y = (i / w) as isize;
            let above = prev.get(x, y - 1).alive;
            let cur = prev.tile_at(i);
            let mut t = Tile { alive: !cur.alive && (sparks[i] % 2000 == 0 || above), heat: cur.heat };
            t.update_heat(config);
            t.heat = t.heat.saturating_sub(10);
            self.put_tile(i, t);
            i += 1;
        }
        assert(self@.cells =~= falling_stars_spec(old(self)@, erosion@, sparks@, *config).cells);
    }

    /// Falling stars with fresh draws from the shared generator.
    pub fn falling_stars(&mut self, config: &HeatConfig)
        requires
            old(self).wf(),
        ensures
            final(self).wf(),
            exists|erosion: Seq<u32>, sparks: Seq<u32>|
                erosion.len() == old(self)@.cells.len() && sparks.len() == old(self)@.cells.len()
                    && final(self)@ == falling_stars_spec(old(self)@, erosion, sparks, *config),
    {
        let erosion = draw_rolls(self.len());
        let sparks = draw_rolls(self.len());
        self.falling_stars_with(&erosion, &sparks, config);
    }

    /// Maze cycle: seeds the 4 by 4 block at the center from `rolls`, then
    /// applies the Maze table with heat acting as a refractory period; see
    /// `maze_cycle_spec`.
    pub fn maze_cycle_with(&mut self, rolls: &Vec<u32>)
        requires
            old(self).wf(),
            rolls.len() == 16,
        ensures
            final(self).wf(),
            exists|rs: Rulestring| is_maze_table(rs) && final(self)@ == maze_cycle_spec(old(self)@, rs, rolls@),
    {
        let rs = maze_table();
        proof {
            lemma_dims_fit(self@);
        }
        let cx = (self.width() / 2) as isize;
        let cy = (self.height() / 2) as isize;
        let mut k: usize = 0;
        while k < 16
            invariant
                k <= 16,
                rolls.len() == 16,
                self.wf(),
                cx == old(self)@.width / 2,
                cy == old(self)@.height / 2,
                0 <= cx <= isize::MAX / 2,
                0 <= cy <= isize::MAX / 2,
                self@ == seeded(old(self)@, rolls@, k as nat),
                self@.width == old(self)@.width,
                self@.height == old(self)@.height,
            decreases 16 - k,
        {
            if rolls[k] % 4 == 0 {
                self.set(cx - 2 + (k % 4) as isize, cy - 2 + (k / 4) as isize, true);
            }
            k += 1;
        }
        let prev = self.duplicate();
        let ghost o = prev@;
        let n = self.len();
        let w = self.width();
        let mut i: usize = 0;
        while i < n
            invariant
                i <= n,
                self.wf(),
                prev.wf(),
                prev@ == o,
                n == o.cells.len(),
                w == o.width,
                self@.same_shape(o),
                self@.width == o.width,
                forall|j: int| 0 <= j < i ==> self@.cells[j] == maze_tile(rs, o, j),
                forall|j: int| i <= j < n ==> self@.cells[j] == o.cells[j],
            decreases n - i,
        {
            proof {
                lemma_dims_fit(o);
            }
            let x = (i % w) as isize;
            let y = (i / w) as isize;
            let k = prev.count_neighbors(x, y);
            let t = prev.tile_at(i);
            let next = if t.alive {
                let h = t.heat.saturating_add(5);
                Tile { alive: rs.survive[k] && h != 255, heat: h }
            } else {
                Tile { alive: rs.spawn[k] && t.heat < 100, heat: t.heat.saturating_sub(1) }
            };
            self.put_tile(i, next);
            i += 1;
        }
        assert(self@.cells =~= maze_cycle_spec(old(self)@, rs, rolls@).cells);
        assert(is_maze_table(rs) && self@ == maze_cycle_spec(old(self)@, rs, rolls@));
    }

    /// Maze cycle with fresh draws from the shared generator.
    pub fn maze_cycle(&mut self)
        requires
            old(self).wf(),
        ensures
            final(self).wf(),
            exists|rs: Rulestring, rolls: Seq<u32>|
                is_maze_table(rs) && rolls.len() == 16 && final(self)@ == maze_cycle_spec(old(self)@, rs, rolls),
    {
        let rolls = draw_rolls(16);
        self.maze_cycle_with(&rolls);
    }

    /// Space: every particle picks a move from the grid before the tick
    /// (see `space_target`), then the moves are applied in raster order.
    pub fn space_with(&mut self, axis: &Vec<u32>, fwd: &Vec<u32>, back: &Vec<u32>, config: &HeatConfig)
        requires
            old(self).wf(),
            axis.len() == old(self)@.cells.len(),
            fwd.len() == old(self)@.cells.len(),
            back.len() == old(self)@.cells.len(),
        ensures
            final(self).wf(),
            final(self)@ == space_spec(old(self)@, axis@, fwd@, back@, *config),
    {
        let ghost v = self@;
        let n = self.len();
        let w = self.width();
        let h = self.height();
        let mut moves: Vec<(usize, usize)> = Vec::new();
        let mut i: usize = 0;
        while i < n
            invariant
                i <= n,
                self.wf(),
                self@ == v,
                n == v.cells.len(),
                w == v.width,
                h == v.height,
                axis.len() == n,
                fwd.len() == n,
                back.len() == n,
                moves.len() == space_moves(v, axis@, fwd@, back@, i as nat).len(),
                forall|j: int| 0 <= j < moves.len() ==> (#[trigger] moves@[j]).0 == space_moves(v, axis@, fwd@, back@, i as nat)[j].0
                    && moves@[j].1 == space_moves(v, axis@, fwd@, back@, i as nat)[j].1,
            decreases n - i,
        {
            proof {
                lemma_dims_fit(v);
                lemma_space_moves_in_grid(v, axis@, fwd@, back@, (i + 1) as nat);
                lemma_index_of_position(v, i as int);
                assert(v.row(i as int) > 0 ==> v.row(i as int) * w >= w) by (nonlinear_arith)
                    requires w > 0;
            }
            let t = self.tile_at(i);
            if t.alive {
                let x = i % w;
                let y = i / w;
                let (xs, ys) = (x as isize, y as isize);
                let coin = axis[i];
                let j1 = fwd[i];
                let j2 = back[i];
                let target: Option<usize> = if coin % 2 == 0 {
                    if y + 1 < h && !self.get(xs, ys + 1).alive && y > 0 && (self.get(xs, ys - 1).alive
                        || j1 % 10 == 0) {
                        Some(i + w)
                    } else if y + 1 < h && (self.get(xs, ys + 1).alive || j2 % 10 == 0) && y > 0
                        && !self.get(xs, ys - 1).alive {
                        Some(i - w)
                    } else {
                        None
                    }
                } else {
                    if x + 1 < w && !self.get(xs + 1, ys).alive && x > 0 && (self.get(xs - 1, ys).alive
                        || j1 % 10 == 0) {
                        Some(i + 1)
                    } else if x + 1 < w && (self.get(xs + 1, ys).alive || j2 % 10 == 0) && x > 0
                        && !self.get(xs - 1, ys).alive {
                        Some(i - 1)
                    } else {
                        None
                    }
                };
                if let Some(to) = target {
                    moves.push((i, to));
                }
            }
            i += 1;
        }
        let ghost ms = space_moves(v, axis@, fwd@, back@, n as nat);
        proof {
            lemma_space_moves_in_grid(v, axis@, fwd@, back@, n as nat);
        }
        let mut j: usize = 0;
        while j < moves.len()
            invariant
                j <= moves.len(),
                moves.len() == ms.len(),
                forall|k: int| 0 <= k < moves.len() ==> (#[trigger] moves@[k]).0 == ms[k].0 && moves@[k].1 == ms[k].1,
                forall|k: int| 0 <= k < ms.len() ==> 0 <= (#[trigger] ms[k]).0 < n && 0 <= ms[k].1 < n,
                self.wf(),
                n == v.cells.len(),
                self@.same_shape(v),
                self@ == apply_moves(v, ms.subrange(0, j as int), *config),
            decreases moves.len() - j,
        {
            let (from, to) = moves[j];
            let mut a = self.tile_at(from);
            a.alive = false;
            a.update_heat(config);
            self.put_tile(from, a);
            let mut b = self.tile_at(to);
            b.alive = true;
            b.update_heat(config);
            self.put_tile(to, b);
            proof {
                let pre = ms.subrange(0, j as int);
                let post = ms.subrange(0, j + 1);
                assert(post.drop_last() =~= pre);
                assert(post.last() == ms[j as int]);
                assert(self@.cells =~= moved(apply_moves(v, pre, *config), ms[j as int], *config).cells);
            }
            j += 1;
        }
        assert(ms.subrange(0, ms.len() as int) =~= ms);
    }

    /// Space with fresh draws from the shared generator.
    pub fn space(&mut self, config: &HeatConfig)
        requires
            old(self).wf(),
        ensures
            final(self).wf(),
            exists|axis: Seq<u32>, fwd: Seq<u32>, back: Seq<u32>|
                axis.len() == old(self)@.cells.len() && fwd.len() == old(self)@.cells.len() && back.len()
                    == old(self)@.cells.len() && final(self)@ == space_spec(old(self)@, axis, fwd, back, *config),
    {
        let axis = draw_rolls(self.len());
        let fwd = draw_rolls(self.len());
        let back = draw_rolls(self.len());
        self.space_with(&axis, &fwd, &back, config);
    }

    /// Sets every cell from the dithering of its level (thousandths, see
    /// `dither_spec`); a cell whose level gives no decision is kept. Heat is
    /// kept. The Perlin noise rule feeds its sampled field through here.
    pub fn apply_dither_field(&mut self, levels: &Vec<u32>)
        requires
            old(self).wf(),
            levels.len() == old(self)@.cells.len(),
        ensures
            final(self).wf(),
            final(self)@ == dithered(old(self)@, levels@),
    {
        let n = self.len();
        let w = self.width();
        let mut i: usize = 0;
        while i < n
            invariant
                i <= n,
                self.wf(),
                n == old(self)@.cells.len(),
                w == old(self)@.width,
                levels.len() == n,
                self@.same_shape(old(self)@),
                self@.width == old(self)@.width,
                forall|j: int| 0 <= j < i ==> self@.cells[j] == dithered(old(self)@, levels@).cells[j],
                forall|j: int| i <= j < n ==> self@.cells[j] == old(self)@.cells[j],
            decreases n - i,
        {
            let t = self.tile_at(i);
            if let Some(a) = dither(i % w, i / w, levels[i]) {
                self.put_tile(i, Tile { alive: a, heat: t.heat });
            }
            i += 1;
        }
        assert(self@.cells =~= dithered(old(self)@, levels@).cells);
    }

    /// Worley lines from the seed points `pts`: every cell is dithered by its
    /// squared distance to its nearest seed point, and cells whose right or
    /// lower neighbor belongs to another seed point are alive; all heat is 0.
    pub fn worley_with(&mut self, pts: &Vec<(usize, usize)>)
        requires
            old(self).wf(),
            points_in_grid(old(self)@, pts@),
        ensures
            final(self).wf(),
            final(self)@ == worley_spec(old(self)@, pts@),
    {
        let ghost v = self@;
        proof {
            lemma_dims_fit(v);
        }
        let n = self.len();
        let w = self.width();
        let h = self.height();
        let m = pts.len();
        let mut near: Vec<usize> = Vec::new();
        let mut dist: Vec<u128> = Vec::new();
        let mut i: usize = 0;
        while i < n
            invariant
                i <= n,
                v.valid(),
                n == v.cells.len(),
                w == v.width,
                h == v.height,
                w <= isize::MAX,
                h <= isize::MAX,
                m == pts.len(),
                points_in_grid(v, pts@),
                near.len() == i,
                dist.len() == i,
                forall|j: int| 0 <= j < i ==> #[trigger] near@[j] == nearest(pts@, v.col(j), v.row(j), m as nat),
                forall|j: int| 0 <= j < i ==> m > 0 ==> #[trigger] near@[j] < m,
                forall|j: int| 0 <= j < i ==> m > 0 ==> #[trigger] dist@[j] == dist2(v.col(j), v.row(j), pts@[near@[j] as int]),
            decreases n - i,
        {
            proof {
                lemma_index_of_position(v, i as int);
            }
            let x = i % w;
            let y = i / w;
            let mut best: usize = 0;
            let mut bestd: u128 = 0;
            if m > 0 {
                bestd = distance2(x, y, pts[0]);
                let mut k: usize = 1;
                while k < m
                    invariant
                        1 <= k <= m,
                        m == pts.len(),
                        x < w,
                        y < h,
                        w <= isize::MAX,
                        h <= isize::MAX,
                        points_in_grid(v, pts@),
                        w == v.width,
                        h == v.height,
                        best < k,
                        best == nearest(pts@, x as int, y as int, k as nat),
                        bestd == dist2(x as int, y as int, pts@[best as int]),
                    decreases m - k,
                {
                    let d = distance2(x, y, pts[k]);
                    if d < bestd {
                        best = k;
                        bestd = d;
                    }
                    k += 1;
                }
            }
            near.push(best);
            dist.push(bestd);
            i += 1;
        }
        let mut i: usize = 0;
        while i < n
            invariant
                i <= n,
                self.wf(),
                self@.same_shape(v),
                self@.width == v.width,
                v.valid(),
                n == v.cells.len(),
                w == v.width,
                h == v.height,
                m == pts.len(),
                near.len() == n,
                dist.len() == n,
                forall|j: int| 0 <= j < n ==> #[trigger] near@[j] == nearest(pts@, v.col(j), v.row(j), m as nat),
                forall|j: int| 0 <= j < n ==> m > 0 ==> #[trigger] near@[j] < m,
                forall|j: int| 0 <= j < n ==> m > 0 ==> #[trigger] dist@[j] == dist2(v.col(j), v.row(j), pts@[near@[j] as int]),
                forall|j: int| 0 <= j < i ==> self@.cells[j] == worley_spec(v, pts@).cells[j],
            decreases n - i,
        {
            let x = i % w;
            let y = i / w;
            proof {
                lemma_index_of_position(v, i as int);
                assert((y + 1) * w == y * w + w) by (nonlinear_arith);
                assert((y + 1) * w <= h * w) by (nonlinear_arith)
                    requires y + 1 <= h, w > 0;
                assert(h * w == w * h) by (nonlinear_arith);
                if x + 1 < w {
                    lemma_index_in_range(v, x + 1, y as int);
                }
                if y + 1 < h {
                    lemma_index_in_range(v, x as int, y + 1);
                    assert((y + 2) * w <= h * w) by (nonlinear_arith)
                        requires y + 2 <= h, w > 0;
                    assert((y + 2) * w == y * w + 2 * w) by (nonlinear_arith);
                }
            }
            let mut alive = false;
            if m > 0 {
                let own = pts[near[i]];
                if dist[i] < 500 {
                    alive = dither(x, y, (2 * dist[i]) as u32) == Some(true);
                }
                if x + 1 < w {
                    let right = pts[near[i + 1]];
                    if right.0 != own.0 || right.1 != own.1 {
                        alive = true;
                    }
                }
                if y + 1 < h {
                    let below = pts[near[i + w]];
                    if below.0 != own.0 || below.1 != own.1 {
                        alive = true;
                    }
                }
            }
            self.put_tile(i, Tile { alive, heat: 0 });
            i += 1;
        }
        assert(self@.cells =~= worley_spec(v, pts@).cells);
    }

    /// Worley lines with about one seed point per 400 cells drawn from the
    /// shared generator (none on a grid wider or taller than u32::MAX).
    pub fn worley(&mut self)
        requires
            old(self).wf(),
        ensures
            final(self).wf(),
            exists|pts: Seq<(usize, usize)>|
                pts.len() <= old(self)@.cells.len() / 400 && points_in_grid(old(self)@, pts)
                    && final(self)@ == worley_spec(old(self)@, pts),
    {
        let w = self.width();
        let h = self.height();
        let count = self.len() / 400;
        let mut pts: Vec<(usize, usize)> = Vec::new();
        if w <= u32::MAX as usize && h <= u32::MAX as usize {
            let mut k: usize = 0;
            while k < count
                invariant
                    k <= count,
                    pts.len() == k,
                    w == self@.width,
                    h == self@.height,
                    self.wf(),
                    0 < w <= u32::MAX,
                    0 < h <= u32::MAX,
                    points_in_grid(self@, pts@),
                decreases count - k,
            {
                let x = random_below(w);
                let y = random_below(h);
                pts.push((x, y));
                k += 1;
            }
        }
        self.worley_with(&pts);
    }
}

} // verus!
