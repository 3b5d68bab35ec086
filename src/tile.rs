//! A single cell of the grid and the heat policy that trails it.

use vstd::prelude::*;

verus! {

/// The numeric settings that govern the heat trail of a tick.
#[derive(Clone, Copy, Debug, PartialEq, Eq, Structural)]
pub struct HeatConfig {
    /// Whether the generic tick updates heat at all.
    pub enable_heat: bool,
    /// Soft heat adds `soft_heat_amount` per live tick; hard heat jumps to 255.
    pub soft_heat: bool,
    pub soft_heat_amount: u8,
}

/// One grid position: alive or dead, plus a heat value that decays over time.
#[derive(Clone, Copy, Debug, PartialEq, Eq, Structural)]
pub struct Tile {
    pub alive: bool,
    pub heat: u8,
}

/// The tile of a fresh grid: dead and cold.
pub open spec fn dead_tile() -> Tile {
    Tile { alive: false, heat: 0 }
}

/// `a + b`, held at 255.
pub open spec fn sat_add(a: u8, b: u8) -> u8 {
    if a + b > 255 {
        255
    } else {
        (a + b) as u8
    }
}

/// `a - b`, held at 0.
pub open spec fn sat_sub(a: u8, b: u8) -> u8 {
    if a < b {
        0
    } else {
        (a - b) as u8
    }
}

/// The heat a tile has after one application of the heat policy: a live tile
/// warms (by the soft amount, or straight to 255), a dead one cools by 1.
pub open spec fn heat_step(alive: bool, heat: u8, config: HeatConfig) -> u8 {
    if alive {
        if config.soft_heat {
            sat_add(heat, config.soft_heat_amount)
        } else {
            255
        }
    } else {
        sat_sub(heat, 1)
    }
}

/// The heat after `n` consecutive policy applications to a tile whose
/// liveness stays `alive`.
pub open spec fn heat_after(alive: bool, heat: u8, config: HeatConfig, n: nat) -> u8
    decreases n,
{
    if n == 0 {
        heat
    } else {
        heat_after(alive, heat_step(alive, heat, config), config, (n - 1) as nat)
    }
}

impl Tile {
    pub fn new() -> (r: Tile)
        ensures
            r == dead_tile(),
    {
        Tile { alive: false, heat: 0 }
    }

    /// Applies the heat policy once, according to the tile's current liveness.
    pub fn update_heat(&mut self, config: &HeatConfig)
        ensures
            final(self).alive == old(self).alive,
            final(self).heat == heat_step(old(self).alive, old(self).heat, *config),
    {
        if self.alive {
            if config.soft_heat {
                self.heat = self.heat.saturating_add(config.soft_heat_amount);
            } else {
                self.heat = 255;
            }
        } else {
            self.heat = self.heat.saturating_sub(1);
        }
    }

    pub fn set(&mut self, to: bool)
        ensures
            final(self).alive == to,
            final(self).heat == old(self).heat,
    {
        self.alive = to;
    }

    pub fn alive(&self) -> (r: bool)
        ensures
            r == self.alive,
    {
        self.alive
    }

    pub fn heat(&self) -> (r: u8)
        ensures
            r == self.heat,
    {
        self.heat
    }
}

/// Under soft heat with a positive amount, a tile that stays alive for `n`
/// ticks with `n * amount >= 255` has heat exactly 255, from any start.
pub proof fn lemma_soft_heat_saturates(heat: u8, config: HeatConfig, n: nat)
    requires
        config.soft_heat,
        config.soft_heat_amount > 0,
        n * config.soft_heat_amount >= 255,
    ensures
        heat_after(true, heat, config, n) == 255,
{
    lemma_soft_heat_reaches(heat, config, n);
}

/// Under soft heat, a live tile's heat never goes beyond 255 and never drops.
pub proof fn lemma_saturated_heat_stays(config: HeatConfig, n: nat)
    requires
        config.soft_heat,
    ensures
        heat_after(true, 255, config, n) == 255,
    decreases n,
{
    if n > 0 {
        lemma_saturated_heat_stays(config, (n - 1) as nat);
    }
}

proof fn lemma_soft_heat_reaches(heat: u8, config: HeatConfig, n: nat)
    requires
        config.soft_heat,
        config.soft_heat_amount > 0,
        n * config.soft_heat_amount >= 255 - heat,
    ensures
        heat_after(true, heat, config, n) == 255,
    decreases n,
{
    let a = config.soft_heat_amount;
    if heat == 255 {
        lemma_saturated_heat_stays(config, n);
    } else {
        assert(n > 0) by (nonlinear_arith)
            requires n * a >= 255 - heat, heat < 255;
        let next = heat_step(true, heat, config);
        if heat as int + a >= 255 {
            lemma_saturated_heat_stays(config, (n - 1) as nat);
        } else {
            assert((n - 1) * a >= 255 - next as int) by (nonlinear_arith)
                requires n * a >= 255 - heat, next as int == heat + a;
            lemma_soft_heat_reaches(next, config, (n - 1) as nat);
        }
    }
}

/// A dead tile cools by exactly one per tick and stops at 0: after `n` ticks
/// its heat is `max(heat - n, 0)`.
pub proof fn lemma_dead_heat_floor(heat: u8, config: HeatConfig, n: nat)
    ensures
        heat_after(false, heat, config, n) as int == if heat as int >= n {
            heat as int - n
        } else {
            0
        },
    decreases n,
{
    if n > 0 {
        lemma_dead_heat_floor(heat_step(false, heat, config), config, (n - 1) as nat);
    }
}

} // verus!
