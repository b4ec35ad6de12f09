use vstd::prelude::*;

/// Cells, directions and the word-reading predicates shared by the
/// builder and the solver.
pub mod geometry;
/// The parsed puzzle: a character grid plus its word set, and the
/// plain-text format's parser.
pub mod puzzle;
/// The grid builder: random word placement over a blank grid, reserving
/// cells for the hidden message.
pub mod partial_puzzle;
/// The uniqueness solver: fixed-point constraint propagation that locates
/// every word unambiguously and reads off the hidden message.
pub mod puzzle_solver;
/// The word source: a normalized, deduplicated word list with a rotated
/// traversal order.
pub mod dictionary;
/// The orchestrator: builds candidate grids and accepts the first one the
/// solver decodes back to the message.
pub mod generator;
mod support;

verus! {

/// The number of cells a grid of the given dimensions holds, or `None`
/// where it does not fit in `usize`.
pub fn grid_cell_count(width: usize, height: usize) -> (r: Option<usize>)
    ensures
        r is Some ==> r->0 == width * height,
        r is None ==> width * height > usize::MAX,
{
    width.checked_mul(height)
}

} // verus!
