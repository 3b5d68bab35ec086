//! A toroidal cellular-automaton grid with survive/spawn rules, custom
//! stochastic rules, a decaying heat trail and a compact snapshot format.

use vstd::prelude::*;

pub mod board;
pub mod clip;
pub mod custom;
pub mod random;
pub mod rules;
pub mod snapshot;
pub mod tile;
pub mod tiny_str;
pub mod tools;
pub mod utils;
