//! Grid-based shortest-path search over an elevation map, with a best-first
//! frontier and a multi-source driver, alongside a set of smaller verified
//! components: a CPU/CRT emulator, a filesystem model, a circular buffer,
//! ranges, a rope simulation, tree visibility scans, rucksack bookkeeping,
//! and monkey worry-level accounting.

use vstd::prelude::*;

pub mod calories;
pub mod emulator;
pub mod filesystem;
pub mod forest;
pub mod monkeys;
mod frontier;
pub mod partialsort;
pub mod piles;
pub mod ranges;
pub mod rope;
pub mod rucksack;
pub mod shift;
pub mod stream;
pub mod terminal;
pub mod grid;
pub mod route;
pub mod search;

pub use grid::Coordinate;
pub use grid::HeightMap;

verus! {

/// The lowest elevation value, corresponding to the letter `a`.
pub const LOWEST_ELEVATION: u8 = 97;

} // verus!
