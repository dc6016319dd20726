//! Cage descriptors: a cage is a group of cells identified by a shared
//! index, with a fixed target sum for the digits placed in it.

use vstd::prelude::*;

verus! {

/// One cage of a Killer Sudoku board: cells whose `Cage` values carry
/// equal `index` belong to the same cage, and their digits must add up
/// to `sum`. A `sum` of zero (or less) marks an unconstrained cell, as
/// on a plain Sudoku board.
#[derive(Debug, Copy, Clone, PartialEq, Eq, Structural)]
pub struct Cage {
    pub(crate) index: usize,
    pub(crate) sum: i32,
}

/// Display colour assigned to a cage, chosen by its index so that
/// neighbouring cages are likely to differ.
#[derive(Debug, Clone, PartialEq, Eq, Structural)]
pub enum CageColor {
    Yellow,
    Red,
    Green,
    Blue,
}

} // verus!
