//! A Killer Sudoku solver library.
//!
//! A Killer Sudoku board is a 9x9 grid carrying the usual Sudoku
//! row/column/box uniqueness rules together with "cages": groups of
//! cells that must sum to a fixed target. This crate provides the
//! board model with its constraint checks, a precomputed table of
//! digit combinations per cage size and target sum used to prune
//! search, and three depth-first backtracking search strategies.

#![verifier::loop_isolation(false)]

pub mod board;
pub mod cage;
pub mod cage_table;
pub mod counting;
pub mod node;
pub mod solver;
