//! The toroidal grid: storage, wrapped coordinates, neighbor counts and the
//! edit operations offered to tools.

use vstd::prelude::*;
use vstd::arithmetic::div_mod::{
    lemma_add_mod_noop, lemma_fundamental_div_mod, lemma_fundamental_div_mod_converse,
    lemma_mod_add_multiples_vanish, lemma_mod_sub_multiples_vanish, lemma_mod_twice, lemma_small_mod,
};
use vstd::arithmetic::mul::lemma_mul_inequality;
use crate::tile::{Tile, dead_tile};
use crate::random::random_u32;
use crate::clip::{clip_line, clipped_pixels, line_limit};

verus! {

/// The mathematical grid: dimensions and the row-major sequence of tiles.
pub struct BoardView {
    pub width: int,
    pub height: int,
    pub cells: Seq<Tile>,
}

/// 1 for a live cell, 0 for a dead one.
pub open spec fn count(b: bool) -> int {
    if b {
        1
    } else {
        0
    }
}

impl BoardView {
    pub open spec fn valid(self) -> bool {
        &&& self.width > 0
        &&& self.height > 0
        &&& self.width * self.height <= isize::MAX
        &&& self.cells.len() == self.width * self.height
    }

    /// Row-major position of the toroidally wrapped coordinate (x, y).
    pub open spec fn index(self, x: int, y: int) -> int {
        x % self.width + (y % self.height) * self.width
    }

    pub open spec fn tile(self, x: int, y: int) -> Tile {
        self.cells[self.index(x, y)]
    }

    pub open spec fn alive(self, x: int, y: int) -> bool {
        self.tile(x, y).alive
    }

    /// Live cells among the eight wrapped Moore neighbors of (x, y).
    pub open spec fn neighbors(self, x: int, y: int) -> int {
        count(self.alive(x - 1, y - 1)) + count(self.alive(x, y - 1)) + count(
            self.alive(x + 1, y - 1),
        ) + count(self.alive(x - 1, y)) + count(self.alive(x + 1, y)) + count(
            self.alive(x - 1, y + 1),
        ) + count(self.alive(x, y + 1)) + count(self.alive(x + 1, y + 1))
    }

    /// Column of the cell stored at row-major position `i`.
    pub open spec fn col(self, i: int) -> int {
        i % self.width
    }

    /// Row of the cell stored at row-major position `i`.
    pub open spec fn row(self, i: int) -> int {
        i / self.width
    }

    pub open spec fn same_shape(self, other: BoardView) -> bool {
        self.width == other.width && self.height == other.height && self.cells.len()
            == other.cells.len()
    }

    /// The grid with the cell at (x, y) set to `to`, its heat kept.
    pub open spec fn set_alive(self, x: int, y: int, to: bool) -> BoardView {
        let i = self.index(x, y);
        BoardView { cells: self.cells.update(i, Tile { alive: to, heat: self.cells[i].heat }), ..self }
    }

    /// The grid with the cells at `pts`, in order, set to `to`.
    pub open spec fn painted(self, pts: Seq<(isize, isize)>, to: bool) -> BoardView
        decreases pts.len(),
    {
        if pts.len() == 0 {
            self
        } else {
            let p = pts.last();
            self.painted(pts.drop_last(), to).set_alive(p.0 as int, p.1 as int, to)
        }
    }

    /// Whether (x, y) lies in the grid without wrapping.
    pub open spec fn inside(self, x: int, y: int) -> bool {
        0 <= x < self.width && 0 <= y < self.height
    }

    /// Whether every point of `pts` lies in the grid without wrapping.
    pub open spec fn all_inside(self, pts: Seq<(isize, isize)>) -> bool {
        forall|k: int|
            0 <= k < pts.len() ==> 0 <= (#[trigger] pts[k]).0 < self.width && 0 <= pts[k].1 < self.height
    }

    /// The alive flags in row-major order.
    pub open spec fn alive_bits(self) -> Seq<bool> {
        Seq::new(self.cells.len(), |i: int| self.cells[i].alive)
    }
}

/// Wrapped coordinates always land inside the grid.
pub broadcast proof fn lemma_index_in_bounds(v: BoardView, x: int, y: int)
    requires
        v.valid(),
    ensures
        0 <= #[trigger] v.index(x, y) < v.cells.len(),
        0 <= x % v.width < v.width,
        0 <= y % v.height < v.height,
{
    let (w, h) = (v.width, v.height);
    let (a, b) = (x % w, y % h);
    assert(0 <= a < w && 0 <= b < h);
    assert(b * w <= (h - 1) * w) by {
        lemma_mul_inequality(b, h - 1, w);
    }
    assert((h - 1) * w == h * w - w) by (nonlinear_arith);
    assert(b * w >= 0) by (nonlinear_arith)
        requires b >= 0, w > 0;
    assert(w * h == h * w) by (nonlinear_arith);
}

/// Each stored position is the wrap of its own column and row.
pub broadcast proof fn lemma_index_of_position(v: BoardView, i: int)
    requires
        v.valid(),
        0 <= i < v.cells.len(),
    ensures
        #[trigger] v.index(v.col(i), v.row(i)) == i,
        i == v.col(i) + v.row(i) * v.width,
        0 <= v.col(i) < v.width,
        0 <= v.row(i) < v.height,
{
    let (w, h) = (v.width, v.height);
    lemma_fundamental_div_mod(i, w);
    let (c, r) = (i % w, i / w);
    assert(0 <= r) by (nonlinear_arith)
        requires i >= 0, w > 0, r == i / w;
    assert(r < h) by (nonlinear_arith)
        requires i < w * h, w > 0, i == w * r + c, 0 <= c;
    lemma_mod_twice(i, w);
    lemma_small_mod(r as nat, h as nat);
    assert(w * r == r * w) by (nonlinear_arith);
}

/// The cell at (x, y) with 0 <= x < width and 0 <= y < height is stored at x + y * width.
pub broadcast proof fn lemma_index_in_range(v: BoardView, x: int, y: int)
    requires
        v.valid(),
        0 <= x < v.width,
        0 <= y < v.height,
    ensures
        #[trigger] v.index(x, y) == x + y * v.width,
        v.col(x + y * v.width) == x,
        v.row(x + y * v.width) == y,
{
    lemma_small_mod(x as nat, v.width as nat);
    lemma_small_mod(y as nat, v.height as nat);
    lemma_fundamental_div_mod_converse(x + y * v.width, v.width, y, x);
}

/// Each dimension is at most the cell count, hence fits in isize.
pub proof fn lemma_dims_fit(v: BoardView)
    requires
        v.valid(),
    ensures
        v.width <= isize::MAX,
        v.height <= isize::MAX,
{
    assert(v.width <= v.width * v.height) by (nonlinear_arith)
        requires v.height > 0, v.width > 0;
    assert(v.height <= v.width * v.height) by (nonlinear_arith)
        requires v.height > 0, v.width > 0;
}

/// Shifting a wrapped coordinate and wrapping again equals shifting the unwrapped one.
pub proof fn lemma_wrap_shift(x: int, d: int, m: int)
    requires
        m > 0,
    ensures
        (x % m + d) % m == (x + d) % m,
{
    lemma_add_mod_noop(x, d, m);
    lemma_add_mod_noop(x % m, d, m);
    lemma_mod_twice(x, m);
}

/// Toroidal wrap: moving by a whole width or height lands on the same cell.
pub proof fn lemma_toroidal_wrap(v: BoardView, x: int, y: int)
    requires
        v.valid(),
    ensures
        v.tile(x, y) == v.tile(x + v.width, y),
        v.tile(x, y) == v.tile(x, y + v.height),
        v.tile(x, y) == v.tile(x - v.width, y),
        v.tile(x, y) == v.tile(x, y - v.height),
{
    lemma_mod_add_multiples_vanish(x, v.width);
    lemma_mod_add_multiples_vanish(y, v.height);
    lemma_mod_sub_multiples_vanish(x, v.width);
    lemma_mod_sub_multiples_vanish(y, v.height);
}

/// Neighbor counts lie in 0..=8 whatever the grid holds.
pub proof fn lemma_neighbors_bounded(v: BoardView, x: int, y: int)
    ensures
        0 <= v.neighbors(x, y) <= 8,
{
}

/// Painting touches only the painted points: any cell that differs is
/// stored at the position of one of them, and the shape is kept.
pub proof fn lemma_painted_touches_only(v: BoardView, pts: Seq<(isize, isize)>, to: bool)
    requires
        v.valid(),
    ensures
        v.painted(pts, to).same_shape(v),
        v.painted(pts, to).width == v.width,
        forall|i: int|
            0 <= i < v.cells.len() && #[trigger] v.painted(pts, to).cells[i] != v.cells[i] ==> exists|k: int|
                0 <= k < pts.len() && v.index(pts[k].0 as int, pts[k].1 as int) == i,
    decreases pts.len(),
{
    if pts.len() > 0 {
        let rest = pts.drop_last();
        lemma_painted_touches_only(v, rest, to);
        let p = pts.last();
        let u = v.painted(rest, to);
        lemma_index_in_bounds(u, p.0 as int, p.1 as int);
        assert forall|i: int|
            0 <= i < v.cells.len() && #[trigger] v.painted(pts, to).cells[i] != v.cells[i] implies exists|k: int|
                0 <= k < pts.len() && v.index(pts[k].0 as int, pts[k].1 as int) == i by {
            if i == u.index(p.0 as int, p.1 as int) {
                assert(pts[pts.len() - 1] == p);
            } else {
                assert(u.cells[i] != v.cells[i]);
                let k = choose|k: int| 0 <= k < rest.len() && v.index(rest[k].0 as int, rest[k].1 as int) == i;
                assert(pts[k] == rest[k]);
            }
        }
    }
}

/// Every painted point is set to `to`.
pub proof fn lemma_painted_sets(v: BoardView, pts: Seq<(isize, isize)>, to: bool, k: int)
    requires
        v.valid(),
        0 <= k < pts.len(),
    ensures
        v.painted(pts, to).alive(pts[k].0 as int, pts[k].1 as int) == to,
    decreases pts.len(),
{
    let rest = pts.drop_last();
    let p = pts.last();
    lemma_painted_touches_only(v, rest, to);
    let u = v.painted(rest, to);
    lemma_index_in_bounds(u, p.0 as int, p.1 as int);
    lemma_index_in_bounds(u, pts[k].0 as int, pts[k].1 as int);
    if k < pts.len() - 1 {
        lemma_painted_sets(v, rest, to, k);
        assert(rest[k] == pts[k]);
    }
}

/// `v` reduced to 0..m, for m > 0 that fits in isize.
fn wrap(v: isize, m: usize) -> (r: usize)
    requires
        0 < m <= isize::MAX,
    ensures
        r as int == v as int % m as int,
        r < m,
{
    if v >= 0 {
        let r = (v as usize) % m;
        r
    } else {
        let k = (-(v + 1)) as usize;
        let q = k % m;
        proof {
            let (kk, mm) = (k as int, m as int);
            lemma_fundamental_div_mod(kk, mm);
            let d = kk / mm;
            assert(v as int == (-d - 1) * mm + (mm - 1 - q)) by (nonlinear_arith)
                requires kk == mm * d + q, v as int == -(kk + 1);
            lemma_fundamental_div_mod_converse(v as int, mm, -d - 1, mm - 1 - q);
        }
        m - 1 - q
    }
}

#[derive(Clone, Debug)]
pub struct Board {
    cells: Vec<Tile>,
    width: usize,
    height: usize,
}

impl View for Board {
    type V = BoardView;

    closed spec fn view(&self) -> BoardView {
        BoardView { width: self.width as int, height: self.height as int, cells: self.cells@ }
    }
}

impl Board {
    pub open spec fn wf(&self) -> bool {
        self@.valid()
    }

    /// A `width` by `height` grid of dead, cold cells.
    pub fn new(width: usize, height: usize) -> (r: Board)
        requires
            width > 0,
            height > 0,
            width * height <= isize::MAX,
        ensures
            r.wf(),
            r@.width == width,
            r@.height == height,
            forall|i: int| 0 <= i < r@.cells.len() ==> r@.cells[i] == dead_tile(),
    {
        let n = width * height;
        let mut cells: Vec<Tile> = Vec::new();
        let mut i: usize = 0;
        while i < n
            invariant
                i <= n,
                cells.len() == i,
                forall|j: int| 0 <= j < i ==> cells[j] == dead_tile(),
            decreases n - i,
        {
            cells.push(Tile::new());
            i += 1;
        }
        Board { cells, width, height }
    }

    /// A grid of the given shape holding `cells` as they are.
    pub(crate) fn from_cells(width: usize, height: usize, cells: Vec<Tile>) -> (r: Board)
        requires
            width > 0,
            height > 0,
            width * height <= isize::MAX,
            cells.len() == width * height,
        ensures
            r.wf(),
            r@ == (BoardView { width: width as int, height: height as int, cells: cells@ }),
    {
        Board { cells, width, height }
    }

    pub fn width(&self) -> (r: usize)
        ensures
            r == self@.width,
    {
        self.width
    }

    pub fn height(&self) -> (r: usize)
        ensures
            r == self@.height,
    {
        self.height
    }

    /// Number of cells, `width * height`.
    pub fn len(&self) -> (r: usize)
        requires
            self.wf(),
        ensures
            r == self@.cells.len(),
            r == self@.width * self@.height,
    {
        self.cells.len()
    }

    fn wrap_xy(&self, x: isize, y: isize) -> (r: (usize, usize))
        requires
            self.wf(),
        ensures
            r.0 == x as int % self@.width,
            r.1 == y as int % self@.height,
            r.0 < self@.width,
            r.1 < self@.height,
            self@.width <= isize::MAX,
            self@.height <= isize::MAX,
    {
        proof {
            lemma_dims_fit(self@);
        }
        (wrap(x, self.width), wrap(y, self.height))
    }

    fn xy_to_idx(&self, x: usize, y: usize) -> (r: usize)
        requires
            self.wf(),
            x < self@.width,
            y < self@.height,
        ensures
            r == x + y * self@.width,
            r < self@.cells.len(),
    {
        proof {
            lemma_index_in_bounds(self@, x as int, y as int);
            lemma_index_in_range(self@, x as int, y as int);
        }
        x + y * self.width
    }

    /// The tile at the toroidally wrapped position (x, y).
    pub fn get(&self, x: isize, y: isize) -> (r: Tile)
        requires
            self.wf(),
        ensures
            r == self@.tile(x as int, y as int),
    {
        let (xw, yw) = self.wrap_xy(x, y);
        let i = self.xy_to_idx(xw, yw);
        self.cells[i]
    }

    /// The tile at the usize position (x, y), wrapped.
    pub fn get_u(&self, x: usize, y: usize) -> (r: Tile)
        requires
            self.wf(),
        ensures
            r == self@.tile(x as int, y as int),
    {
        let i = self.xy_to_idx(x % self.width, y % self.height);
        self.cells[i]
    }

    fn is_alive(&self, x: isize, y: isize) -> (r: bool)
        requires
            self.wf(),
        ensures
            r == self@.alive(x as int, y as int),
    {
        self.get(x, y).alive
    }

    /// A mutable reference to the tile at the wrapped position (x, y).
    pub fn get_mut(&mut self, x: isize, y: isize) -> (r: &mut Tile)
        requires
            old(self).wf(),
        ensures
            *r == old(self)@.tile(x as int, y as int),
            final(self)@ == (BoardView {
                cells: old(self)@.cells.update(old(self)@.index(x as int, y as int), *final(r)),
                ..old(self)@
            }),
    {
        let (xw, yw) = self.wrap_xy(x, y);
        let i = self.xy_to_idx(xw, yw);
        &mut self.cells[i]
    }

    /// `get_mut` for usize coordinates.
    pub fn get_mut_u(&mut self, x: usize, y: usize) -> (r: &mut Tile)
        requires
            old(self).wf(),
        ensures
            *r == old(self)@.tile(x as int, y as int),
            final(self)@ == (BoardView {
                cells: old(self)@.cells.update(old(self)@.index(x as int, y as int), *final(r)),
                ..old(self)@
            }),
    {
        let i = self.xy_to_idx(x % self.width, y % self.height);
        &mut self.cells[i]
    }

    /// The tile stored at row-major position `i`.
    pub fn tile_at(&self, i: usize) -> (r: Tile)
        requires
            self.wf(),
            i < self@.cells.len(),
        ensures
            r == self@.cells[i as int],
    {
        self.cells[i]
    }

    /// Replaces the tile stored at row-major position `i`.
    pub fn put_tile(&mut self, i: usize, t: Tile)
        requires
            old(self).wf(),
            i < old(self)@.cells.len(),
        ensures
            final(self)@ == (BoardView { cells: old(self)@.cells.update(i as int, t), ..old(self)@ }),
            final(self).wf(),
    {
        self.cells.set(i, t);
    }

    /// Live cells among the eight wrapped neighbors of (x, y); self excluded.
    pub fn count_neighbors(&self, x: isize, y: isize) -> (r: usize)
        requires
            self.wf(),
        ensures
            r == self@.neighbors(x as int, y as int),
            r <= 8,
    {
        let (xw, yw) = self.wrap_xy(x, y);
        let (xs, ys) = (xw as isize, yw as isize);
        proof {
            let (w, h) = (self@.width, self@.height);
            lemma_wrap_shift(x as int, -1, w);
            lemma_wrap_shift(x as int, 0, w);
            lemma_wrap_shift(x as int, 1, w);
            lemma_wrap_shift(y as int, -1, h);
            lemma_wrap_shift(y as int, 0, h);
            lemma_wrap_shift(y as int, 1, h);
        }
        let mut n: usize = 0;
        if self.is_alive(xs - 1, ys - 1) {
            n += 1;
        }
        if self.is_alive(xs, ys - 1) {
            n += 1;
        }
        if self.is_alive(xs + 1, ys - 1) {
            n += 1;
        }
        if self.is_alive(xs - 1, ys) {
            n += 1;
        }
        if self.is_alive(xs + 1, ys) {
            n += 1;
        }
        if self.is_alive(xs - 1, ys + 1) {
            n += 1;
        }
        if self.is_alive(xs, ys + 1) {
            n += 1;
        }
        if self.is_alive(xs + 1, ys + 1) {
            n += 1;
        }
        n
    }

    /// Whether (x, y) lies in the grid without wrapping.
    pub fn is_inside(&self, x: isize, y: isize) -> (r: bool)
        requires
            self.wf(),
        ensures
            r == (0 <= x < self@.width && 0 <= y < self@.height),
    {
        proof {
            lemma_dims_fit(self@);
        }
        x >= 0 && x < self.width as isize && y >= 0 && y < self.height as isize
    }

    /// Sets the alive flag of the wrapped cell (x, y); its heat is kept.
    pub fn set(&mut self, x: isize, y: isize, to: bool)
        requires
            old(self).wf(),
        ensures
            final(self).wf(),
            final(self)@ == old(self)@.set_alive(x as int, y as int, to),
    {
        let (xw, yw) = self.wrap_xy(x, y);
        let i = self.xy_to_idx(xw, yw);
        let heat = self.cells[i].heat;
        self.cells.set(i, Tile { alive: to, heat });
    }

    /// `set` for usize coordinates.
    pub fn set_u(&mut self, x: usize, y: usize, to: bool)
        requires
            old(self).wf(),
        ensures
            final(self).wf(),
            final(self)@ == old(self)@.set_alive(x as int, y as int, to),
    {
        let i = self.xy_to_idx(x % self.width, y % self.height);
        let heat = self.cells[i].heat;
        self.cells.set(i, Tile { alive: to, heat });
    }

    /// Sets every cell on the segment from (x0, y0) to (x1, y1) that lies
    /// inside the grid (no wrapping: the segment is clipped to the grid's
    /// rectangle) to `alive`. Returns `None`, changing nothing, when the
    /// segment misses the grid.
    pub fn set_line(&mut self, x0: isize, y0: isize, x1: isize, y1: isize, alive: bool) -> (r: Option<()>)
        requires
            old(self).wf(),
            -line_limit() <= x0 <= line_limit(),
            -line_limit() <= y0 <= line_limit(),
            -line_limit() <= x1 <= line_limit(),
            -line_limit() <= y1 <= line_limit(),
            old(self)@.width - 1 <= line_limit(),
            old(self)@.height - 1 <= line_limit(),
        ensures
            final(self).wf(),
            ({
                let c = clipped_pixels(
                    x0 as int,
                    y0 as int,
                    x1 as int,
                    y1 as int,
                    old(self)@.width - 1,
                    old(self)@.height - 1,
                );
                match c {
                    None => r is None && final(self)@ == old(self)@,
                    Some(pts) => r is Some && old(self)@.all_inside(pts) && final(self)@ == old(self)@.painted(
                        pts,
                        alive,
                    ),
                }
            }),
            (old(self)@.inside(x0 as int, y0 as int) && old(self)@.inside(x1 as int, y1 as int)) ==> (
            final(self)@.alive(x0 as int, y0 as int) == alive && final(self)@.alive(x1 as int, y1 as int)
                == alive),
    {
        proof {
            lemma_dims_fit(self@);
        }
        let pts = match clip_line(x0, y0, x1, y1, self.width as isize - 1, self.height as isize - 1) {
            Some(p) => p,
            None => {
                return None;
            },
        };
        proof {
            assert(self@.all_inside(pts@));
            if self@.inside(x0 as int, y0 as int) && self@.inside(x1 as int, y1 as int) {
                lemma_painted_sets(self@, pts@, alive, 0);
                lemma_painted_sets(self@, pts@, alive, pts.len() - 1);
            }
        }
        self.paint_points(&pts, alive);
        Some(())
    }

    /// Sets the cells at `pts`, in order, to `to`.
    pub fn paint_points(&mut self, pts: &Vec<(isize, isize)>, to: bool)
        requires
            old(self).wf(),
        ensures
            final(self).wf(),
            final(self)@ == old(self)@.painted(pts@, to),
    {
        let ghost start = self@;
        let mut k: usize = 0;
        while k < pts.len()
            invariant
                k <= pts.len(),
                self.wf(),
                self@ == start.painted(pts@.subrange(0, k as int), to),
            decreases pts.len() - k,
        {
            let (x, y) = pts[k];
            self.set(x, y, to);
            proof {
                let pre = pts@.subrange(0, k as int);
                let post = pts@.subrange(0, k + 1);
                assert(post.drop_last() =~= pre);
                assert(post.last() == pts@[k as int]);
            }
            k += 1;
        }
        assert(pts@.subrange(0, pts.len() as int) =~= pts@);
    }

    /// `set_line` for usize coordinates.
    pub fn set_line_u(&mut self, x0: usize, y0: usize, x1: usize, y1: usize, to: bool) -> (r: Option<()>)
        requires
            old(self).wf(),
            x0 <= line_limit(),
            y0 <= line_limit(),
            x1 <= line_limit(),
            y1 <= line_limit(),
            old(self)@.width - 1 <= line_limit(),
            old(self)@.height - 1 <= line_limit(),
        ensures
            final(self).wf(),
            ({
                let c = clipped_pixels(
                    x0 as int,
                    y0 as int,
                    x1 as int,
                    y1 as int,
                    old(self)@.width - 1,
                    old(self)@.height - 1,
                );
                match c {
                    None => r is None && final(self)@ == old(self)@,
                    Some(pts) => r is Some && old(self)@.all_inside(pts) && final(self)@ == old(self)@.painted(
                        pts,
                        to,
                    ),
                }
            }),
    {
        self.set_line(x0 as isize, y0 as isize, x1 as isize, y1 as isize, to)
    }

    /// Every cell alive exactly when its coin (`coins[i]`) is even; every
    /// heat set to 255.
    pub fn randomize_with(&mut self, coins: &Vec<u32>)
        requires
            old(self).wf(),
            coins.len() == old(self)@.cells.len(),
        ensures
            final(self).wf(),
            final(self)@.same_shape(old(self)@),
            final(self)@.width == old(self)@.width,
            forall|i: int|
                0 <= i < final(self)@.cells.len() ==> #[trigger] final(self)@.cells[i] == (Tile {
                    alive: coins@[i] % 2 == 0,
                    heat: 255,
                }),
    {
        let n = self.cells.len();
        let mut i: usize = 0;
        while i < n
            invariant
                i <= n,
                n == old(self)@.cells.len(),
                coins.len() == n,
                self.wf(),
                self@.same_shape(old(self)@),
                self@.width == old(self)@.width,
                forall|j: int|
                    0 <= j < i ==> #[trigger] self@.cells[j] == (Tile { alive: coins@[j] % 2 == 0, heat: 255 }),
            decreases n - i,
        {
            self.cells.set(i, Tile { alive: coins[i] % 2 == 0, heat: 255 });
            i += 1;
        }
    }

    /// Every cell's alive flag drawn by a coin flip from the shared
    /// generator; every heat set to 255.
    pub fn randomize(&mut self)
        requires
            old(self).wf(),
        ensures
            final(self).wf(),
            final(self)@.same_shape(old(self)@),
            final(self)@.width == old(self)@.width,
            forall|i: int| 0 <= i < final(self)@.cells.len() ==> #[trigger] final(self)@.cells[i].heat == 255,
    {
        let n = self.cells.len();
        let mut coins: Vec<u32> = Vec::new();
        let mut i: usize = 0;
        while i < n
            invariant
                i <= n,
                coins.len() == i,
            decreases n - i,
        {
            coins.push(random_u32());
            i += 1;
        }
        self.randomize_with(&coins);
    }

    /// Every cell dead with heat 0.
    pub fn clear(&mut self)
        requires
            old(self).wf(),
        ensures
            final(self).wf(),
            final(self)@.same_shape(old(self)@),
            forall|i: int| 0 <= i < final(self)@.cells.len() ==> #[trigger] final(self)@.cells[i] == dead_tile(),
    {
        let n = self.cells.len();
        let mut i: usize = 0;
        while i < n
            invariant
                i <= n,
                n == old(self)@.cells.len(),
                self.wf(),
                self@.same_shape(old(self)@),
                forall|j: int| 0 <= j < i ==> #[trigger] self@.cells[j] == dead_tile(),
            decreases n - i,
        {
            self.cells.set(i, Tile::new());
            i += 1;
        }
    }

    /// A copy holding the same grid.
    pub fn duplicate(&self) -> (r: Board)
        requires
            self.wf(),
        ensures
            r.wf(),
            r@ == self@,
    {
        let n = self.cells.len();
        let mut cells: Vec<Tile> = Vec::new();
        let mut i: usize = 0;
        while i < n
            invariant
                i <= n,
                n == self@.cells.len(),
                cells@ == self@.cells.subrange(0, i as int),
            decreases n - i,
        {
            cells.push(self.cells[i]);
            i += 1;
        }
        assert(cells@ == self@.cells);
        Board { cells, width: self.width, height: self.height }
    }
}

} // verus!
