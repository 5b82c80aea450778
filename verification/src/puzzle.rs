//! The puzzle itself: its six pieces and the score that solves it.

use crate::grid::{cell, in_cube, lemma_grid_ext};
use crate::ruban::{shape_cell, Ruban, Shape};
use crate::search::{all_searched, search};
use crate::trial::{stackable, Trial};
use vstd::prelude::*;

verus! {

/// The score that solves the puzzle.
pub const TARGET: u8 = 56;

/// The patterns of the six pieces.
pub const SHAPES: [Shape; 6] = [
    [[[0, 1, 0, 0], [1, 1, 1, 1]], [[0, 0, 0, 0], [1, 0, 0, 1]]],
    [[[1, 1, 1, 1], [1, 1, 0, 0]], [[1, 0, 0, 1], [1, 0, 0, 0]]],
    [[[1, 1, 1, 1], [0, 1, 0, 0]], [[1, 0, 0, 1], [0, 0, 0, 0]]],
    [[[1, 1, 1, 1], [1, 1, 1, 1]], [[0, 0, 1, 1], [0, 0, 1, 1]]],
    [[[1, 1, 1, 1], [0, 1, 1, 1]], [[1, 0, 0, 1], [0, 0, 0, 1]]],
    [[[1, 1, 1, 1], [1, 0, 1, 1]], [[1, 0, 0, 1], [1, 0, 0, 1]]],
];

/// Whether `pieces` are the six pieces of the puzzle.
pub open spec fn are_puzzle_pieces(pieces: Seq<Ruban>) -> bool {
    &&& pieces.len() == 6
    &&& forall|i: int, x: int, y: int, z: int|
        0 <= i < 6 && in_cube(x, y, z) ==> #[trigger] cell(pieces[i]@, x, y, z) == shape_cell(
            SHAPES[i],
            x,
            y,
            z,
        )
}

/// Builds the six pieces of the puzzle.
pub fn puzzle_pieces() -> (pieces: [Ruban; 6])
    ensures
        are_puzzle_pieces(pieces@),
        stackable(pieces@),
{
    let pieces = [
        Ruban::new(SHAPES[0]),
        Ruban::new(SHAPES[1]),
        Ruban::new(SHAPES[2]),
        Ruban::new(SHAPES[3]),
        Ruban::new(SHAPES[4]),
        Ruban::new(SHAPES[5]),
    ];
    pieces
}

/// Searches for the first setting of the puzzle's pieces that scores
/// [`TARGET`].
pub fn solve() -> (found: Option<Trial>)
    ensures
        forall|pieces: Seq<Ruban>| #[trigger]
            are_puzzle_pieces(pieces) ==> all_searched(pieces, TARGET, found),
{
    let pieces = puzzle_pieces();
    let found = search(&pieces, TARGET);
    proof {
        assert forall|others: Seq<Ruban>| #[trigger] are_puzzle_pieces(others) implies all_searched(
            others,
            TARGET,
            found,
        ) by {
            lemma_puzzle_pieces_are_one(pieces@, others);
        }
    }
    found
}

/// The patterns leave no choice: there is one sequence of puzzle pieces.
pub proof fn lemma_puzzle_pieces_are_one(pieces: Seq<Ruban>, others: Seq<Ruban>)
    requires
        are_puzzle_pieces(pieces),
        are_puzzle_pieces(others),
    ensures
        pieces == others,
{
    assert forall|i: int| 0 <= i < 6 implies pieces[i] == others[i] by {
        assert forall|x: int, y: int, z: int| in_cube(x, y, z) implies #[trigger] cell(
            pieces[i]@,
            x,
            y,
            z,
        ) == cell(others[i]@, x, y, z) by {
            assert(cell(others[i]@, x, y, z) == shape_cell(SHAPES[i], x, y, z));
        }
        lemma_grid_ext(pieces[i]@, others[i]@);
        pieces[i].lemma_view_is_all(others[i]);
    }
    assert(pieces =~= others);
}

} // verus!
