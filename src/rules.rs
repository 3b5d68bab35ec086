//! Survive/spawn rules, their compact notation, and the generic tick.

use vstd::prelude::*;
use vstd::string::StringSliceAdditionalSpecFns;
use crate::board::{
    Board, BoardView, lemma_index_in_bounds, lemma_index_in_range, lemma_index_of_position,
    lemma_wrap_shift,
};
use vstd::arithmetic::div_mod::lemma_fundamental_div_mod_converse;
use crate::tile::{HeatConfig, Tile, heat_step};

verus! {

broadcast use lemma_index_of_position;

/// Which live-neighbor counts (0 to 8) keep a live cell alive, and which
/// bring a dead cell to life.
#[derive(Clone, Copy, Debug, PartialEq, Eq)]
pub struct Rulestring {
    pub survive: [bool; 9],
    pub spawn: [bool; 9],
}

/// A rule: a survive/spawn table, or a position in the catalog of custom rules.
#[derive(Clone, Copy, Debug, PartialEq, Eq)]
pub enum Rule {
    Rulestring(Rulestring),
    Custom(usize),
}

/// Digit `d` appears in `b` before any '/'.
pub open spec fn in_survive_part(b: Seq<u8>, d: int) -> bool {
    exists|k: int| 0 <= k < b.len() && b[k] == 48 + d && forall|j: int| 0 <= j < k ==> b[j] != 47
}

/// Digit `d` appears in `b` after some '/'.
pub open spec fn in_spawn_part(b: Seq<u8>, d: int) -> bool {
    exists|k: int| 0 <= k < b.len() && b[k] == 48 + d && exists|j: int| 0 <= j < k && b[j] == 47
}

/// The table that the notation `b` ("<survive digits>/<spawn digits>") denotes.
pub open spec fn denotes(r: Rulestring, b: Seq<u8>) -> bool {
    forall|d: int|
        0 <= d < 9 ==> (r.survive@[d] == in_survive_part(b, d) && r.spawn@[d] == in_spawn_part(
            b,
            d,
        ))
}

impl Rulestring {
    /// Reads the notation "<survive digits>/<spawn digits>", such as "23/3".
    /// Digits 0 to 8 before the first '/' set `survive`, those after it set
    /// `spawn`; any other byte is skipped.
    pub fn parse(s: &str) -> (r: Rulestring)
        ensures
            denotes(r, s.spec_bytes()),
    {
        let b = s.as_bytes();
        let mut survive = [false; 9];
        let mut spawn = [false; 9];
        let mut parsing_survive = true;
        let mut i: usize = 0;
        while i < b.len()
            invariant
                i <= b@.len(),
                b@ == s.spec_bytes(),
                parsing_survive == forall|j: int| 0 <= j < i ==> b@[j] != 47,
                forall|d: int|
                    0 <= d < 9 ==> #[trigger] survive@[d] == exists|k: int|
                        0 <= k < i && b@[k] == 48 + d && forall|j: int| 0 <= j < k ==> b@[j] != 47,
                forall|d: int|
                    0 <= d < 9 ==> #[trigger] spawn@[d] == exists|k: int|
                        0 <= k < i && b@[k] == 48 + d && exists|j: int| 0 <= j < k && b@[j] == 47,
            decreases b@.len() - i,
        {
            let c = b[i];
            if c == 47 {
                parsing_survive = false;
            } else if 48 <= c && c <= 56 {
                let d = (c - 48) as usize;
                if parsing_survive {
                    survive[d] = true;
                } else {
                    spawn[d] = true;
                }
            }
            proof {
                assert forall|dd: int| 0 <= dd < 9 implies #[trigger] survive@[dd] == exists|k: int|
                    0 <= k < i + 1 && b@[k] == 48 + dd && forall|j: int| 0 <= j < k ==> b@[j] != 47 by {
                    if b@[i as int] == 48 + dd && forall|j: int| 0 <= j < i ==> b@[j] != 47 {
                        assert(0 <= i < i + 1 && b@[i as int] == 48 + dd);
                    }
                }
                assert forall|dd: int| 0 <= dd < 9 implies #[trigger] spawn@[dd] == exists|k: int|
                    0 <= k < i + 1 && b@[k] == 48 + dd && exists|j: int| 0 <= j < k && b@[j] == 47 by {
                    if b@[i as int] == 48 + dd && exists|j: int| 0 <= j < i && b@[j] == 47 {
                        assert(0 <= i < i + 1 && b@[i as int] == 48 + dd);
                    }
                }
            }
            i += 1;
        }
        Rulestring { survive, spawn }
    }
}

/// The bytes of an ASCII string are its characters' codes.
proof fn lemma_literal_bytes(s: &str, chars: Seq<char>)
    requires
        s@ == chars,
        vstd::utf8::is_ascii_chars(chars),
    ensures
        s.spec_bytes() == Seq::new(chars.len(), |i: int| chars[i] as u8),
{
    vstd::string::is_ascii_spec_bytes(s);
    assert(s.spec_bytes() =~= Seq::new(chars.len(), |i: int| chars[i] as u8));
}

/// The table whose survive set is `survive` and whose spawn set is `spawn`.
pub open spec fn has_sets(t: Rulestring, survive: Set<int>, spawn: Set<int>) -> bool {
    forall|d: int| 0 <= d < 9 ==> (t.survive@[d] == survive.contains(d) && t.spawn@[d] == spawn.contains(d))
}

/// Conway's Life, "23/3".
pub fn conway() -> (r: Rule)
    ensures
        r matches Rule::Rulestring(t) && has_sets(t, set![2, 3], set![3]),
{
    let s = "23/3";
    proof {
        reveal_strlit("23/3");
        assert(s@ =~= seq!['2', '3', '/', '3']);
        lemma_literal_bytes(s, seq!['2', '3', '/', '3']);
    }
    let t = Rulestring::parse(s);
    proof {
        let b = s.spec_bytes();
        assert(b == seq![50u8, 51, 47, 51]);
        assert forall|d: int| 0 <= d < 9 implies (t.survive@[d] == set![2int, 3].contains(d) && t.spawn@[d] == set![3int].contains(d)) by {
            if d == 2 { assert(b[0] == 48 + d); }
            if d == 3 { assert(b[1] == 48 + d); assert(b[3] == 48 + d && b[2] == 47); }
            if in_survive_part(b, d) {
                let k = choose|k: int| 0 <= k < b.len() && b[k] == 48 + d && forall|j: int| 0 <= j < k ==> b[j] != 47;
                if k == 3 { assert(b[2] == 47); }
            }
        }
    }
    Rule::Rulestring(t)
}

/// The Maze table, "12345/3": survive on 1 to 5 neighbors, spawn on 3.
pub fn maze_table() -> (t: Rulestring)
    ensures
        has_sets(t, set![1, 2, 3, 4, 5], set![3]),
{
    let s = "12345/3";
    proof {
        reveal_strlit("12345/3");
        assert(s@ =~= seq!['1', '2', '3', '4', '5', '/', '3']);
        lemma_literal_bytes(s, seq!['1', '2', '3', '4', '5', '/', '3']);
    }
    let t = Rulestring::parse(s);
    proof {
        let b = s.spec_bytes();
        assert(b == seq![49u8, 50, 51, 52, 53, 47, 51]);
        assert forall|d: int| 0 <= d < 9 implies (t.survive@[d] == set![1int, 2, 3, 4, 5].contains(d) && t.spawn@[d] == set![3int].contains(d)) by {
            if 1 <= d <= 5 { assert(b[d - 1] == 48 + d); }
            if d == 3 { assert(b[6] == 48 + d && b[5] == 47); }
            if in_survive_part(b, d) {
                let k = choose|k: int| 0 <= k < b.len() && b[k] == 48 + d && forall|j: int| 0 <= j < k ==> b[j] != 47;
                if k > 5 { assert(b[5] == 47); }
            }
        }
    }
    t
}

/// Maze, "12345/3".
pub fn maze() -> (r: Rule)
    ensures
        r matches Rule::Rulestring(t) && has_sets(t, set![1, 2, 3, 4, 5], set![3]),
{
    Rule::Rulestring(maze_table())
}

/// Maze with mice, "12345/37".
pub fn maze_mice() -> (r: Rule)
    ensures
        r matches Rule::Rulestring(t) && has_sets(t, set![1, 2, 3, 4, 5], set![3, 7]),
{
    let s = "12345/37";
    proof {
        reveal_strlit("12345/37");
        assert(s@ =~= seq!['1', '2', '3', '4', '5', '/', '3', '7']);
        lemma_literal_bytes(s, seq!['1', '2', '3', '4', '5', '/', '3', '7']);
    }
    let t = Rulestring::parse(s);
    proof {
        let b = s.spec_bytes();
        assert(b == seq![49u8, 50, 51, 52, 53, 47, 51, 55]);
        assert forall|d: int| 0 <= d < 9 implies (t.survive@[d] == set![1int, 2, 3, 4, 5].contains(d) && t.spawn@[d] == set![3int, 7].contains(d)) by {
            if 1 <= d <= 5 { assert(b[d - 1] == 48 + d); }
            if d == 3 { assert(b[6] == 48 + d && b[5] == 47); }
            if d == 7 { assert(b[7] == 48 + d && b[5] == 47); }
            if in_survive_part(b, d) {
                let k = choose|k: int| 0 <= k < b.len() && b[k] == 48 + d && forall|j: int| 0 <= j < k ==> b[j] != 47;
                if k > 5 { assert(b[5] == 47); }
            }
        }
    }
    Rule::Rulestring(t)
}

/// Whether the cell at (x, y) of `v` lives in the next generation under `rs`.
pub open spec fn next_alive(rs: Rulestring, v: BoardView, x: int, y: int) -> bool {
    let n = v.neighbors(x, y);
    if v.alive(x, y) {
        rs.survive@[n]
    } else {
        rs.spawn@[n]
    }
}

/// The next tile at (x, y): its new liveness, and heat that follows it when
/// heat tracking is on.
pub open spec fn next_tile(rs: Rulestring, config: HeatConfig, v: BoardView, x: int, y: int) -> Tile {
    let a = next_alive(rs, v, x, y);
    let h = v.tile(x, y).heat;
    Tile { alive: a, heat: if config.enable_heat { heat_step(a, h, config) } else { h } }
}

/// One synchronous generation of `v` under `rs`: every cell computed from
/// the previous generation alone.
pub open spec fn tick(rs: Rulestring, config: HeatConfig, v: BoardView) -> BoardView {
    BoardView {
        cells: Seq::new(v.cells.len(), |i: int| next_tile(rs, config, v, v.col(i), v.row(i))),
        ..v
    }
}

/// The generic tick is a function of grid, table and heat settings alone:
/// equal inputs give equal next generations.
pub proof fn lemma_tick_deterministic(
    a: BoardView,
    b: BoardView,
    rs: Rulestring,
    config: HeatConfig,
)
    requires
        a == b,
    ensures
        tick(rs, config, a) == tick(rs, config, b),
{
}

/// `n` generations of `v` under `rs`.
pub open spec fn ticks(rs: Rulestring, config: HeatConfig, v: BoardView, n: nat) -> BoardView
    decreases n,
{
    if n == 0 {
        v
    } else {
        tick(rs, config, ticks(rs, config, v, (n - 1) as nat))
    }
}

/// Whether the wrapped offset `t` is one of the two rows (or columns) of a
/// 2 by 2 block.
pub open spec fn in_pair(t: int) -> bool {
    t == 0 || t == 1
}

/// Whether (x, y) lies in the 2 by 2 block whose top-left cell is (bx, by),
/// wrapping around the grid.
pub open spec fn in_block(v: BoardView, bx: int, by: int, x: int, y: int) -> bool {
    in_pair((x - bx) % v.width) && in_pair((y - by) % v.height)
}

/// The live cells of `v` are exactly the 2 by 2 block at (bx, by).
pub open spec fn is_lone_block(v: BoardView, bx: int, by: int) -> bool {
    forall|i: int| 0 <= i < v.cells.len() ==> #[trigger] v.cells[i].alive == in_block(v, bx, by, v.col(i), v.row(i))
}

proof fn lemma_shift_mod(a: int, d: int, m: int)
    requires
        0 <= a < m,
        -1 <= d <= 1,
    ensures
        (a + d) % m == if a + d < 0 {
            m - 1
        } else if a + d >= m {
            0
        } else {
            a + d
        },
{
    if a + d < 0 {
        lemma_fundamental_div_mod_converse(a + d, m, -1, m - 1);
    } else if a + d >= m {
        lemma_fundamental_div_mod_converse(a + d, m, 1, 0);
    } else {
        lemma_fundamental_div_mod_converse(a + d, m, 0, a + d);
    }
}

proof fn lemma_block_alive(v: BoardView, bx: int, by: int, x: int, y: int)
    requires
        v.valid(),
        is_lone_block(v, bx, by),
    ensures
        v.alive(x, y) == (in_pair((x - bx) % v.width) && in_pair((y - by) % v.height)),
{
    let (w, h) = (v.width, v.height);
    let (c, r) = (x % w, y % h);
    lemma_index_in_bounds(v, x, y);
    lemma_index_in_range(v, c, r);
    let i = v.index(x, y);
    assert(v.cells[i].alive == in_block(v, bx, by, v.col(i), v.row(i)));
    lemma_wrap_shift(x, -bx, w);
    lemma_wrap_shift(y, -by, h);
}

proof fn lemma_block_neighbor(v: BoardView, bx: int, by: int, x: int, y: int, dx: int, dy: int)
    requires
        v.valid(),
        is_lone_block(v, bx, by),
        -1 <= dx <= 1,
        -1 <= dy <= 1,
    ensures
        ({
            let a = (x - bx) % v.width;
            let b = (y - by) % v.height;
            v.alive(x + dx, y + dy) == (in_pair((a + dx) % v.width) && in_pair((b + dy) % v.height))
        }),
{
    lemma_block_alive(v, bx, by, x + dx, y + dy);
    lemma_wrap_shift(x - bx, dx, v.width);
    lemma_wrap_shift(y - by, dy, v.height);
}

/// One generation of "23/3" keeps a lone 2 by 2 block on a grid at least
/// 4 by 4: every cell of the block has 3 live neighbors and every other
/// cell at most 2.
pub proof fn lemma_block_stays(v: BoardView, rs: Rulestring, config: HeatConfig, bx: int, by: int)
    requires
        v.valid(),
        v.width >= 4,
        v.height >= 4,
        has_sets(rs, set![2, 3], set![3]),
        is_lone_block(v, bx, by),
    ensures
        tick(rs, config, v).valid(),
        tick(rs, config, v).same_shape(v),
        tick(rs, config, v).alive_bits() == v.alive_bits(),
        is_lone_block(tick(rs, config, v), bx, by),
{
    let t = tick(rs, config, v);
    let (w, h) = (v.width, v.height);
    assert forall|i: int| 0 <= i < v.cells.len() implies #[trigger] t.cells[i].alive == v.cells[i].alive by {
        let (x, y) = (v.col(i), v.row(i));
        lemma_index_of_position(v, i);
        let a = (x - bx) % w;
        let b = (y - by) % h;
        assert(0 <= a < w && 0 <= b < h);
        lemma_block_alive(v, bx, by, x, y);
        assert(v.alive(x, y) == v.cells[i].alive);
        lemma_block_neighbor(v, bx, by, x, y, -1, -1);
        lemma_block_neighbor(v, bx, by, x, y, 0, -1);
        lemma_block_neighbor(v, bx, by, x, y, 1, -1);
        lemma_block_neighbor(v, bx, by, x, y, -1, 0);
        lemma_block_neighbor(v, bx, by, x, y, 1, 0);
        lemma_block_neighbor(v, bx, by, x, y, -1, 1);
        lemma_block_neighbor(v, bx, by, x, y, 0, 1);
        lemma_block_neighbor(v, bx, by, x, y, 1, 1);
        lemma_shift_mod(a, -1, w);
        lemma_shift_mod(a, 0, w);
        lemma_shift_mod(a, 1, w);
        lemma_shift_mod(b, -1, h);
        lemma_shift_mod(b, 0, h);
        lemma_shift_mod(b, 1, h);
        let n = v.neighbors(x, y);
        if in_pair(a) && in_pair(b) {
            assert(n == 3);
        } else {
            assert(n <= 2);
        }
        assert(rs.survive@[n] == set![2int, 3].contains(n));
        assert(rs.spawn@[n] == set![3int].contains(n));
    }
    assert(t.alive_bits() =~= v.alive_bits());
}

/// A lone 2 by 2 block is a still life under "23/3": after any number of
/// generations the live cells are the same.
pub proof fn lemma_block_still_life(
    v: BoardView,
    rs: Rulestring,
    config: HeatConfig,
    bx: int,
    by: int,
    n: nat,
)
    requires
        v.valid(),
        v.width >= 4,
        v.height >= 4,
        has_sets(rs, set![2, 3], set![3]),
        is_lone_block(v, bx, by),
    ensures
        ticks(rs, config, v, n).valid(),
        ticks(rs, config, v, n).same_shape(v),
        ticks(rs, config, v, n).alive_bits() == v.alive_bits(),
        is_lone_block(ticks(rs, config, v, n), bx, by),
    decreases n,
{
    if n > 0 {
        lemma_block_still_life(v, rs, config, bx, by, (n - 1) as nat);
        let u = ticks(rs, config, v, (n - 1) as nat);
        lemma_block_stays(u, rs, config, bx, by);
    }
}

impl Board {
    /// Applies one generation of the table `rs`, reading only the previous
    /// generation.
    pub fn apply_rulestring(&mut self, rs: &Rulestring, config: &HeatConfig)
        requires
            old(self).wf(),
        ensures
            final(self).wf(),
            final(self)@ == tick(*rs, *config, old(self)@),
    {
        let prev = self.duplicate();
        let n = self.len();
        let w = self.width();
        let mut i: usize = 0;
        while i < n
            invariant
                i <= n,
                prev.wf(),
                self.wf(),
                prev@ == old(self)@,
                n == prev@.cells.len(),
                w == prev@.width,
                self@.same_shape(prev@),
                forall|j: int|
                    0 <= j < i ==> self@.cells[j] == next_tile(
                        *rs,
                        *config,
                        prev@,
                        prev@.col(j),
                        prev@.row(j),
                    ),
                forall|j: int| i <= j < n ==> self@.cells[j] == prev@.cells[j],
            decreases n - i,
        {
            proof {
                crate::board::lemma_dims_fit(prev@);
                assert(prev@.index(prev@.col(i as int), prev@.row(i as int)) == i);
            }
            let x = (i % w) as isize;
            let y = (i / w) as isize;
            let k = prev.count_neighbors(x, y);
            let cur = prev.tile_at(i);
            let alive = if cur.alive {
                rs.survive[k]
            } else {
                rs.spawn[k]
            };
            let mut t = Tile { alive, heat: cur.heat };
            if config.enable_heat {
                t.update_heat(config);
            }
            self.put_tile(i, t);
            i += 1;
        }
        assert(self@.cells =~= tick(*rs, *config, old(self)@).cells);
    }
}

} // verus!
