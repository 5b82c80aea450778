//! The text form of a grid.
//!
//! A grid is written as four blocks, one for each `x`. A block has four rows,
//! one for each `y`, and ends with an empty line. A row is indented by a
//! number of spaces and holds the four numbers of its cells, one for each
//! `z`, each followed by a space.

use crate::grid::{cell, Grid};
use vstd::prelude::*;

verus! {

/// The byte that writes a space.
pub const SPACE: u8 = 32;

/// The byte that ends a line.
pub const NEWLINE: u8 = 10;

/// The byte that writes the digit zero.
pub const ZERO: u8 = 48;

/// The most bytes that a grid's text takes besides the indents: sixteen rows
/// of four numbers of three digits, a space after each number, a line end
/// after each row and after each block.
pub const TEXT_MAX: usize = 276;

/// The decimal digits of `value`, as text.
pub open spec fn decimal(value: nat) -> Seq<u8>
    decreases value,
{
    if value < 10 {
        seq![(ZERO + value) as u8]
    } else {
        decimal(value / 10).push((ZERO + value % 10) as u8)
    }
}

/// The first `n` numbers of the row `(x, y)`, each followed by a space.
pub open spec fn numbers_text(grids: Grid, x: int, y: int, n: nat) -> Seq<u8>
    decreases n,
{
    if n == 0 {
        Seq::empty()
    } else {
        numbers_text(grids, x, y, (n - 1) as nat) + decimal(cell(grids, x, y, n - 1) as nat).push(
            SPACE,
        )
    }
}

/// The row `(x, y)`: the indent, the four numbers, the line end.
pub open spec fn row_text(grids: Grid, indent: nat, x: int, y: int) -> Seq<u8> {
    (Seq::new(indent, |i: int| SPACE) + numbers_text(grids, x, y, 4)).push(NEWLINE)
}

/// The first `n` rows of the block `x`.
pub open spec fn rows_text(grids: Grid, indent: nat, x: int, n: nat) -> Seq<u8>
    decreases n,
{
    if n == 0 {
        Seq::empty()
    } else {
        rows_text(grids, indent, x, (n - 1) as nat) + row_text(grids, indent, x, n - 1)
    }
}

/// The first `n` blocks, each four rows and an empty line.
pub open spec fn blocks_text(grids: Grid, indent: nat, n: nat) -> Seq<u8>
    decreases n,
{
    if n == 0 {
        Seq::empty()
    } else {
        blocks_text(grids, indent, (n - 1) as nat) + rows_text(grids, indent, n - 1, 4).push(
            NEWLINE,
        )
    }
}

/// The text of the whole grid.
pub open spec fn grid_text(grids: Grid, indent: nat) -> Seq<u8> {
    blocks_text(grids, indent, 4)
}

/// Appends the decimal digits of `value` to `text`.
fn push_decimal(text: &mut Vec<u8>, value: u8)
    ensures
        final(text)@ == old(text)@ + decimal(value as nat),
        1 <= decimal(value as nat).len() <= 3,
{
    reveal_with_fuel(decimal, 3);
    if value >= 100 {
        text.push(ZERO + value / 100);
        text.push(ZERO + (value / 10) % 10);
        text.push(ZERO + value % 10);
        assert((value as nat / 10) / 10 == value as nat / 100);
    } else if value >= 10 {
        text.push(ZERO + value / 10);
        text.push(ZERO + value % 10);
    } else {
        text.push(ZERO + value);
    }
    assert(final(text)@ =~= old(text)@ + decimal(value as nat));
}

/// Writes `grids` as text, each row indented by `indent` spaces.
pub fn format_grids(grids: &Grid, indent: usize) -> (text: Vec<u8>)
    requires
        16 * indent + TEXT_MAX <= usize::MAX,
    ensures
        text@ == grid_text(*grids, indent as nat),
        text.len() <= 16 * indent + TEXT_MAX,
{
    let mut text: Vec<u8> = Vec::new();
    let mut x: usize = 0;
    while x < 4
        invariant
            x <= 4,
            text@ == blocks_text(*grids, indent as nat, x as nat),
            text.len() <= x * (4 * indent + 69),
        decreases 4 - x,
    {
        let ghost blocks = text@;
        let mut y: usize = 0;
        while y < 4
            invariant
                x < 4,
                y <= 4,
                text@ == blocks + rows_text(*grids, indent as nat, x as int, y as nat),
                rows_text(*grids, indent as nat, x as int, y as nat).len() <= y * (indent + 17),
            decreases 4 - y,
        {
            let ghost rows = text@;
            let mut i: usize = 0;
            while i < indent
                invariant
                    i <= indent,
                    text@ == rows + Seq::new(i as nat, |i: int| SPACE),
                decreases indent - i,
            {
                text.push(SPACE);
                i += 1;
                assert(text@ =~= rows + Seq::new(i as nat, |i: int| SPACE));
            }
            let ghost indented = text@;
            let mut z: usize = 0;
            while z < 4
                invariant
                    x < 4,
                    y < 4,
                    z <= 4,
                    text@ == indented + numbers_text(*grids, x as int, y as int, z as nat),
                    numbers_text(*grids, x as int, y as int, z as nat).len() <= 4 * z,
                decreases 4 - z,
            {
                push_decimal(&mut text, grids[x][y][z]);
                text.push(SPACE);
                z += 1;
                assert(text@ =~= indented + numbers_text(*grids, x as int, y as int, z as nat));
            }
            text.push(NEWLINE);
            y += 1;
            assert(text@ =~= blocks + rows_text(*grids, indent as nat, x as int, y as nat));
            assert(y * (indent + 17) == (y - 1) * (indent + 17) + (indent + 17))
                by (nonlinear_arith);
        }
        text.push(NEWLINE);
        x += 1;
        assert(text@ =~= blocks_text(*grids, indent as nat, x as nat));
        assert(x * (4 * indent + 69) == (x - 1) * (4 * indent + 69) + (4 * indent + 69))
            by (nonlinear_arith);
    }
    text
}

} // verus!
