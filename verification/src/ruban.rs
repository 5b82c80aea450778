//! A piece of the puzzle, and how it is set into the cube.
//!
//! A piece is a ribbon: a pattern of 2×2×4 cells, held in the middle of a cube
//! of its own. It can be turned by quarter turns about its long axis, and it is
//! set into the cube along one of the three axes, in one of the two slabs that
//! lie along that axis, facing one way or the other.

use crate::grid::{
    cell, empty_grids, in_cube, is_empty, lemma_grid_ext, odd_count, walked, Direction, Grid,
};
use vstd::pervasive::unreached;
use vstd::prelude::*;

verus! {

/// The pattern that defines a piece: 2×2×4 cells, indexed `[x][y][z]`.
pub type Shape = [[[u8; 4]; 2]; 2];

/// A piece, as a cube of its own with the pattern in the middle.
pub struct Ruban {
    grids: Grid,
}

impl View for Ruban {
    type V = Grid;

    /// The piece's own cube, before any turn or placement.
    closed spec fn view(&self) -> Grid {
        self.grids
    }
}

/// How a piece is set into the cube: along which axis, facing which way,
/// after how many quarter turns, and in which of the two slabs along the axis.
pub struct Placement {
    pub direction: Direction,
    pub polarity: u8,
    pub rotation: u8,
    pub shift: u8,
}

/// The placement with the given parts.
pub open spec fn placement(
    direction: Direction,
    polarity: u8,
    rotation: u8,
    shift: u8,
) -> Placement {
    Placement { direction, polarity, rotation, shift }
}

/// What the piece defined by `shape` holds at `(x, y, z)` of its own cube: the
/// pattern fills the four middle columns, the rest is empty.
pub open spec fn shape_cell(shape: Shape, x: int, y: int, z: int) -> int {
    if 1 <= x <= 2 && 1 <= y <= 2 {
        shape[x - 1][y - 1][z] as int
    } else {
        0
    }
}

/// The column that the column `(x, y)` shows after `rotation` quarter turns.
pub open spec fn turned(x: int, y: int, rotation: int) -> (int, int) {
    if rotation == 0 {
        (x, y)
    } else if rotation == 1 {
        (y, 3 - x)
    } else if rotation == 2 {
        (3 - x, 3 - y)
    } else {
        (3 - y, x)
    }
}

/// Whether the cell `(x, y, z)` of the cube lies in the slab that a piece set
/// along `direction` with `shift` fills: the two middle layers across one of
/// the other axes, and the lower (`shift` 0) or upper (`shift` 1) two layers
/// across the remaining one.
pub open spec fn in_slab(direction: Direction, shift: int, x: int, y: int, z: int) -> bool {
    in_cube(x, y, z) && match direction {
        Direction::X => 1 <= y <= 2 && 2 * shift <= z <= 2 * shift + 1,
        Direction::Y => 2 * shift <= x <= 2 * shift + 1 && 1 <= z <= 2,
        Direction::Z => 1 <= x <= 2 && 2 * shift <= y <= 2 * shift + 1,
    }
}

/// The cells of the slab that a piece set along `direction` with `shift` fills.
pub open spec fn slab(direction: Direction, shift: int) -> Set<(int, int, int)> {
    Set::new(|c: (int, int, int)| in_slab(direction, shift, c.0, c.1, c.2))
}

/// The cells of the band that the two slabs along `direction` share between
/// them: the two middle layers across one of the other axes.
pub open spec fn band(direction: Direction) -> Set<(int, int, int)> {
    Set::new(
        |c: (int, int, int)|
            in_cube(c.0, c.1, c.2) && match direction {
                Direction::X => 1 <= c.1 <= 2,
                Direction::Y => 1 <= c.2 <= 2,
                Direction::Z => 1 <= c.0 <= 2,
            },
    )
}

/// The cell of the piece's own cube that lands on the cell `(x, y, z)` of the
/// slab. Polarity 0 and any other polarity give the two mirror images.
pub open spec fn source(direction: Direction, polarity: u8, shift: int, x: int, y: int, z: int) -> (
    int,
    int,
    int,
) {
    match direction {
        Direction::X => {
            let across = z - 2 * shift + 1;
            if polarity == 0 {
                (across, y, 3 - x)
            } else {
                (3 - across, y, x)
            }
        },
        Direction::Y => {
            let across = x - 2 * shift + 1;
            if polarity == 0 {
                (across, 3 - z, y)
            } else {
                (across, z, 3 - y)
            }
        },
        Direction::Z => {
            let across = y - 2 * shift + 1;
            if polarity == 0 {
                (x, across, z)
            } else {
                (3 - x, across, 3 - z)
            }
        },
    }
}

/// Whether `grids` holds the piece defined by `shape` on the cells that the
/// walk meets before it reaches `(x, y, z)`, and nothing on the others.
spec fn filled_before(shape: Shape, grids: Grid, x: int, y: int, z: int) -> bool {
    forall|a: int, b: int, c: int|
        in_cube(a, b, c) ==> #[trigger] cell(grids, a, b, c) == if walked(a, b, c, x, y, z) {
            shape_cell(shape, a, b, c)
        } else {
            0
        }
}

/// Whether the slab is the box of cells from the corner `low` up to, but not
/// reaching, the corner `high`.
spec fn slab_is_box(
    direction: Direction,
    shift: int,
    low: (usize, usize, usize),
    high: (usize, usize, usize),
) -> bool {
    &&& low.0 <= high.0 <= 4
    &&& low.1 <= high.1 <= 4
    &&& low.2 <= high.2 <= 4
    &&& forall|x: int, y: int, z: int| #[trigger]
        in_slab(direction, shift, x, y, z) <==> {
            &&& low.0 <= x < high.0
            &&& low.1 <= y < high.1
            &&& low.2 <= z < high.2
        }
}

/// The corner of the slab with the lowest coordinates, and the corner just
/// past the one with the highest.
fn slab_corners(direction: &Direction, shift: u8) -> (corners: (
    (usize, usize, usize),
    (usize, usize, usize),
))
    requires
        shift < 2,
    ensures
        slab_is_box(*direction, shift as int, corners.0, corners.1),
{
    let low: usize = match shift {
        0 => 0,
        1 => 2,
        _ => unreached(),
    };
    match direction {
        Direction::X => ((0, 1, low), (4, 3, low + 2)),
        Direction::Y => ((low, 0, 1), (low + 2, 4, 3)),
        Direction::Z => ((1, low, 0), (3, low + 2, 4)),
    }
}

/// Computes [`source`] for a cell of the slab.
fn source_of(
    direction: &Direction,
    polarity: u8,
    shift: u8,
    x: usize,
    y: usize,
    z: usize,
) -> (from: (usize, usize, usize))
    requires
        shift < 2,
        in_slab(*direction, shift as int, x as int, y as int, z as int),
    ensures
        (from.0 as int, from.1 as int, from.2 as int) == source(
            *direction,
            polarity,
            shift as int,
            x as int,
            y as int,
            z as int,
        ),
        in_cube(from.0 as int, from.1 as int, from.2 as int),
{
    let low: usize = if shift == 0 {
        0
    } else {
        2
    };
    match direction {
        Direction::X => {
            let across = z - low + 1;
            if polarity == 0 {
                (across, y, 3 - x)
            } else {
                (3 - across, y, x)
            }
        },
        Direction::Y => {
            let across = x - low + 1;
            if polarity == 0 {
                (across, 3 - z, y)
            } else {
                (across, z, 3 - y)
            }
        },
        Direction::Z => {
            let across = y - low + 1;
            if polarity == 0 {
                (x, across, z)
            } else {
                (3 - x, across, 3 - z)
            }
        },
    }
}

impl Ruban {
    /// What the piece shows at `(x, y, z)` of its own cube after `rotation`
    /// quarter turns.
    pub open spec fn turned_cell(&self, x: int, y: int, z: int, rotation: int) -> int {
        cell(self@, turned(x, y, rotation).0, turned(x, y, rotation).1, z)
    }

    /// What the piece, set into the cube as `how` says, puts on the cell
    /// `(x, y, z)` of the cube: nothing outside its slab, and inside what the
    /// turned piece shows at the cell's source.
    pub open spec fn placed_cell(&self, how: Placement, x: int, y: int, z: int) -> int {
        if in_slab(how.direction, how.shift as int, x, y, z) {
            let from = source(how.direction, how.polarity, how.shift as int, x, y, z);
            self.turned_cell(from.0, from.1, from.2, how.rotation as int)
        } else {
            0
        }
    }

    /// Whether `grids` is the projection of the piece into the cube: each cell
    /// holds what [`Self::placed_cell`] puts there.
    pub open spec fn is_placement(&self, how: Placement, grids: Grid) -> bool {
        forall|x: int, y: int, z: int|
            in_cube(x, y, z) ==> #[trigger] cell(grids, x, y, z) == self.placed_cell(how, x, y, z)
    }

    /// Whether `after` is `before` with the projection of the piece added on
    /// each cell.
    pub open spec fn is_added(&self, how: Placement, before: Grid, after: Grid) -> bool {
        forall|x: int, y: int, z: int|
            in_cube(x, y, z) ==> #[trigger] cell(after, x, y, z) == cell(before, x, y, z)
                + self.placed_cell(how, x, y, z)
    }

    /// Whether the projection of the piece can be added to `grids` with every
    /// cell still fitting in a byte.
    pub open spec fn fits_onto(&self, how: Placement, grids: Grid) -> bool {
        forall|x: int, y: int, z: int|
            in_cube(x, y, z) ==> #[trigger] cell(grids, x, y, z) + self.placed_cell(how, x, y, z)
                <= u8::MAX
    }

    /// Whether no cell of the piece holds more than `bound`.
    pub open spec fn cells_at_most(&self, bound: int) -> bool {
        forall|x: int, y: int, z: int| in_cube(x, y, z) ==> #[trigger] cell(self@, x, y, z) <= bound
    }

    /// Whether `grids` is `base` with the projection added on the cells that
    /// the walk through the cube meets before it reaches `(x, y, z)`.
    #[verifier::opaque]
    spec fn added_before(
        &self,
        how: Placement,
        base: Grid,
        grids: Grid,
        x: int,
        y: int,
        z: int,
    ) -> bool {
        forall|a: int, b: int, c: int|
            in_cube(a, b, c) ==> #[trigger] cell(grids, a, b, c) == cell(base, a, b, c) + if walked(
                a,
                b,
                c,
                x,
                y,
                z,
            ) {
                self.placed_cell(how, a, b, c)
            } else {
                0
            }
    }

    /// Before the walk starts nothing has been added.
    proof fn lemma_added_none(&self, how: Placement, base: Grid)
        ensures
            self.added_before(how, base, base, 0, 0, 0),
    {
        reveal(Ruban::added_before);
    }

    /// The walk may jump from `from` to `to` when the same cells of the slab
    /// lie before both: the projection adds nothing outside the slab.
    proof fn lemma_added_skip(
        &self,
        how: Placement,
        base: Grid,
        grids: Grid,
        from: (int, int, int),
        to: (int, int, int),
    )
        requires
            self.added_before(how, base, grids, from.0, from.1, from.2),
            forall|a: int, b: int, c: int| #[trigger]
                in_slab(how.direction, how.shift as int, a, b, c) ==> (walked(
                    a,
                    b,
                    c,
                    from.0,
                    from.1,
                    from.2,
                ) <==> walked(a, b, c, to.0, to.1, to.2)),
        ensures
            self.added_before(how, base, grids, to.0, to.1, to.2),
    {
        reveal(Ruban::added_before);
        assert forall|a: int, b: int, c: int| in_cube(a, b, c) implies #[trigger] cell(
            grids,
            a,
            b,
            c,
        ) == cell(base, a, b, c) + if walked(a, b, c, to.0, to.1, to.2) {
            self.placed_cell(how, a, b, c)
        } else {
            0
        } by {
            if in_slab(how.direction, how.shift as int, a, b, c) {
                assert(walked(a, b, c, from.0, from.1, from.2) <==> walked(
                    a,
                    b,
                    c,
                    to.0,
                    to.1,
                    to.2,
                ));
            }
        }
    }

    /// The cell that the walk has reached still holds what it held at first.
    proof fn lemma_added_here(
        &self,
        how: Placement,
        base: Grid,
        grids: Grid,
        x: int,
        y: int,
        z: int,
    )
        requires
            in_cube(x, y, z),
            self.added_before(how, base, grids, x, y, z),
        ensures
            cell(grids, x, y, z) == cell(base, x, y, z),
    {
        reveal(Ruban::added_before);
    }

    /// Adding the projection's value on the cell that the walk has reached
    /// moves the walk one cell on.
    proof fn lemma_added_step(
        &self,
        how: Placement,
        base: Grid,
        before: Grid,
        after: Grid,
        x: int,
        y: int,
        z: int,
    )
        requires
            in_cube(x, y, z),
            self.added_before(how, base, before, x, y, z),
            cell(after, x, y, z) == cell(before, x, y, z) + self.placed_cell(how, x, y, z),
            forall|a: int, b: int, c: int|
                in_cube(a, b, c) && !(a == x && b == y && c == z) ==> #[trigger] cell(
                    after,
                    a,
                    b,
                    c,
                ) == cell(before, a, b, c),
        ensures
            self.added_before(how, base, after, x, y, z + 1),
    {
        reveal(Ruban::added_before);
        assert forall|a: int, b: int, c: int| in_cube(a, b, c) implies #[trigger] cell(
            after,
            a,
            b,
            c,
        ) == cell(base, a, b, c) + if walked(a, b, c, x, y, z + 1) {
            self.placed_cell(how, a, b, c)
        } else {
            0
        } by {
            assert(cell(before, a, b, c) == cell(base, a, b, c) + if walked(a, b, c, x, y, z) {
                self.placed_cell(how, a, b, c)
            } else {
                0
            });
        }
    }

    /// Once the walk is through the cube the projection has been added.
    proof fn lemma_added_all(&self, how: Placement, base: Grid, grids: Grid)
        requires
            self.added_before(how, base, grids, 4, 0, 0),
        ensures
            self.is_added(how, base, grids),
    {
        reveal(Ruban::added_before);
    }

    /// Builds the piece that `shape` defines.
    pub fn new(shape: Shape) -> (ruban: Ruban)
        ensures
            forall|x: int, y: int, z: int|
                in_cube(x, y, z) ==> #[trigger] cell(ruban@, x, y, z) == shape_cell(shape, x, y, z),
    {
        let mut grids = empty_grids();
        let mut x: usize = 1;
        while x < 3
            invariant
                1 <= x <= 3,
                filled_before(shape, grids, x as int, 0, 0),
            decreases 3 - x,
        {
            let mut y: usize = 1;
            while y < 3
                invariant
                    1 <= x < 3,
                    1 <= y <= 3,
                    filled_before(shape, grids, x as int, y as int, 0),
                decreases 3 - y,
            {
                let mut z: usize = 0;
                while z < 4
                    invariant
                        1 <= x < 3,
                        1 <= y < 3,
                        z <= 4,
                        filled_before(shape, grids, x as int, y as int, z as int),
                    decreases 4 - z,
                {
                    let ghost before = grids;
                    grids[x][y][z] = shape[x - 1][y - 1][z];
                    assert forall|a: int, b: int, c: int| in_cube(a, b, c) implies #[trigger] cell(
                        grids,
                        a,
                        b,
                        c,
                    ) == if walked(a, b, c, x as int, y as int, z as int + 1) {
                        shape_cell(shape, a, b, c)
                    } else {
                        0
                    } by {
                        assert(cell(before, a, b, c) == if walked(
                            a,
                            b,
                            c,
                            x as int,
                            y as int,
                            z as int,
                        ) {
                            shape_cell(shape, a, b, c)
                        } else {
                            0
                        });
                    }
                    z += 1;
                }
                y += 1;
            }
            x += 1;
        }
        Ruban { grids }
    }

    /// Reads one cell of the piece after `rotation` quarter turns.
    pub fn get_single_grid(&self, x: usize, y: usize, z: usize, rotation: u8) -> (value: u8)
        requires
            in_cube(x as int, y as int, z as int),
            rotation < 4,
        ensures
            value == self.turned_cell(x as int, y as int, z as int, rotation as int),
    {
        match rotation {
            0 => self.grids[x][y][z],
            1 => self.grids[y][3 - x][z],
            2 => self.grids[3 - x][3 - y][z],
            3 => self.grids[3 - y][x][z],
            _ => unreached(),
        }
    }

    /// Projects the piece into the cube: returns the grid that holds what the
    /// piece puts on each cell.
    pub fn get_grids(&self, direction: &Direction, polarity: u8, rotation: u8, shift: u8) -> (grids:
        Grid)
        requires
            rotation < 4,
            shift < 2,
        ensures
            self.is_placement(placement(*direction, polarity, rotation, shift), grids),
    {
        let ghost how = placement(*direction, polarity, rotation, shift);
        let mut grids = empty_grids();
        let ghost base = grids;
        let (low, high) = slab_corners(direction, shift);
        proof {
            self.lemma_added_none(how, base);
            self.lemma_added_skip(how, base, grids, (0, 0, 0), (low.0 as int, 0, 0));
        }
        let mut x: usize = low.0;
        while x < high.0
            invariant
                how == placement(*direction, polarity, rotation, shift),
                rotation < 4,
                shift < 2,
                slab_is_box(*direction, shift as int, low, high),
                low.0 <= x <= high.0,
                is_empty(base),
                self.added_before(how, base, grids, x as int, 0, 0),
            decreases high.0 - x,
        {
            proof {
                self.lemma_added_skip(
                    how,
                    base,
                    grids,
                    (x as int, 0, 0),
                    (x as int, low.1 as int, 0),
                );
            }
            let mut y: usize = low.1;
            while y < high.1
                invariant
                    how == placement(*direction, polarity, rotation, shift),
                    rotation < 4,
                    shift < 2,
                    slab_is_box(*direction, shift as int, low, high),
                    low.0 <= x < high.0,
                    low.1 <= y <= high.1,
                    is_empty(base),
                    self.added_before(how, base, grids, x as int, y as int, 0),
                decreases high.1 - y,
            {
                proof {
                    self.lemma_added_skip(
                        how,
                        base,
                        grids,
                        (x as int, y as int, 0),
                        (x as int, y as int, low.2 as int),
                    );
                }
                let mut z: usize = low.2;
                while z < high.2
                    invariant
                        how == placement(*direction, polarity, rotation, shift),
                        rotation < 4,
                        shift < 2,
                        slab_is_box(*direction, shift as int, low, high),
                        low.0 <= x < high.0,
                        low.1 <= y < high.1,
                        low.2 <= z <= high.2,
                        is_empty(base),
                        self.added_before(how, base, grids, x as int, y as int, z as int),
                    decreases high.2 - z,
                {
                    let ghost before = grids;
                    proof {
                        assert(in_slab(*direction, shift as int, x as int, y as int, z as int));
                        self.lemma_added_here(how, base, before, x as int, y as int, z as int);
                    }
                    let from = source_of(direction, polarity, shift, x, y, z);
                    grids[x][y][z] = self.get_single_grid(from.0, from.1, from.2, rotation);
                    proof {
                        self.lemma_added_step(
                            how,
                            base,
                            before,
                            grids,
                            x as int,
                            y as int,
                            z as int,
                        );
                    }
                    z += 1;
                }
                proof {
                    self.lemma_added_skip(
                        how,
                        base,
                        grids,
                        (x as int, y as int, high.2 as int),
                        (x as int, y as int + 1, 0),
                    );
                }
                y += 1;
            }
            proof {
                self.lemma_added_skip(
                    how,
                    base,
                    grids,
                    (x as int, high.1 as int, 0),
                    (x as int + 1, 0, 0),
                );
            }
            x += 1;
        }
        proof {
            self.lemma_added_skip(how, base, grids, (high.0 as int, 0, 0), (4, 0, 0));
            self.lemma_added_all(how, base, grids);
        }
        grids
    }

    /// Adds the piece's projection into `grids`, cell by cell.
    pub fn add_to_grids(
        &self,
        grids: &mut Grid,
        direction: &Direction,
        polarity: u8,
        rotation: u8,
        shift: u8,
    )
        requires
            rotation < 4,
            shift < 2,
            self.fits_onto(placement(*direction, polarity, rotation, shift), *old(grids)),
        ensures
            self.is_added(
                placement(*direction, polarity, rotation, shift),
                *old(grids),
                *final(grids),
            ),
    {
        let ghost how = placement(*direction, polarity, rotation, shift);
        let ghost base = *grids;
        let (low, high) = slab_corners(direction, shift);
        proof {
            self.lemma_added_none(how, base);
            self.lemma_added_skip(how, base, *grids, (0, 0, 0), (low.0 as int, 0, 0));
        }
        let mut x: usize = low.0;
        while x < high.0
            invariant
                how == placement(*direction, polarity, rotation, shift),
                rotation < 4,
                shift < 2,
                slab_is_box(*direction, shift as int, low, high),
                low.0 <= x <= high.0,
                self.fits_onto(how, base),
                self.added_before(how, base, *grids, x as int, 0, 0),
            decreases high.0 - x,
        {
            proof {
                self.lemma_added_skip(
                    how,
                    base,
                    *grids,
                    (x as int, 0, 0),
                    (x as int, low.1 as int, 0),
                );
            }
            let mut y: usize = low.1;
            while y < high.1
                invariant
                    how == placement(*direction, polarity, rotation, shift),
                    rotation < 4,
                    shift < 2,
                    slab_is_box(*direction, shift as int, low, high),
                    low.0 <= x < high.0,
                    low.1 <= y <= high.1,
                    self.fits_onto(how, base),
                    self.added_before(how, base, *grids, x as int, y as int, 0),
                decreases high.1 - y,
            {
                proof {
                    self.lemma_added_skip(
                        how,
                        base,
                        *grids,
                        (x as int, y as int, 0),
                        (x as int, y as int, low.2 as int),
                    );
                }
                let mut z: usize = low.2;
                while z < high.2
                    invariant
                        how == placement(*direction, polarity, rotation, shift),
                        rotation < 4,
                        shift < 2,
                        slab_is_box(*direction, shift as int, low, high),
                        low.0 <= x < high.0,
                        low.1 <= y < high.1,
                        low.2 <= z <= high.2,
                        self.fits_onto(how, base),
                        self.added_before(how, base, *grids, x as int, y as int, z as int),
                    decreases high.2 - z,
                {
                    let ghost before = *grids;
                    proof {
                        assert(in_slab(*direction, shift as int, x as int, y as int, z as int));
                        self.lemma_added_here(how, base, before, x as int, y as int, z as int);
                        assert(cell(base, x as int, y as int, z as int) + self.placed_cell(
                            how,
                            x as int,
                            y as int,
                            z as int,
                        ) <= u8::MAX);
                    }
                    let from = source_of(direction, polarity, shift, x, y, z);
                    grids[x][y][z] += self.get_single_grid(from.0, from.1, from.2, rotation);
                    proof {
                        self.lemma_added_step(
                            how,
                            base,
                            before,
                            *grids,
                            x as int,
                            y as int,
                            z as int,
                        );
                    }
                    z += 1;
                }
                proof {
                    self.lemma_added_skip(
                        how,
                        base,
                        *grids,
                        (x as int, y as int, high.2 as int),
                        (x as int, y as int + 1, 0),
                    );
                }
                y += 1;
            }
            proof {
                self.lemma_added_skip(
                    how,
                    base,
                    *grids,
                    (x as int, high.1 as int, 0),
                    (x as int + 1, 0, 0),
                );
            }
            x += 1;
        }
        proof {
            self.lemma_added_skip(how, base, *grids, (high.0 as int, 0, 0), (4, 0, 0));
            self.lemma_added_all(how, base, *grids);
        }
    }

    /// Turning the piece and then reading a turned column is reading the
    /// column turned by the sum of the two.
    pub proof fn lemma_turned_cell_adds_up(&self, x: int, y: int, z: int, first: int, second: int)
        requires
            0 <= first < 4,
            0 <= second < 4,
        ensures
            self.turned_cell(turned(x, y, first).0, turned(x, y, first).1, z, second)
                == self.turned_cell(x, y, z, (first + second) % 4),
            self.turned_cell(x, y, z, 0) == cell(self@, x, y, z),
    {
        lemma_turns_add_up(x, y, first, second);
    }

    /// A placement puts nothing on a cell outside its slab; a cell of its slab
    /// has its source inside the piece's own cube.
    pub proof fn lemma_placement_stays_in_slab(&self, how: Placement, x: int, y: int, z: int)
        ensures
            !slab(how.direction, how.shift as int).contains((x, y, z)) ==> self.placed_cell(
                how,
                x,
                y,
                z,
            ) == 0,
            how.shift < 2 && slab(how.direction, how.shift as int).contains((x, y, z)) ==> {
                let from = source(how.direction, how.polarity, how.shift as int, x, y, z);
                in_cube(from.0, from.1, from.2)
            },
    {
    }

    /// Two pieces with the same cube are the same piece.
    pub proof fn lemma_view_is_all(self, other: Ruban)
        requires
            self@ == other@,
        ensures
            self == other,
    {
    }

    /// Adding a projection into a grid of zeros gives the projection itself:
    /// the grid that [`Self::add_to_grids`] leaves is the one that
    /// [`Self::get_grids`] returns.
    pub proof fn lemma_add_to_empty_is_get(
        &self,
        how: Placement,
        fresh: Grid,
        before: Grid,
        after: Grid,
    )
        requires
            self.is_placement(how, fresh),
            is_empty(before),
            self.is_added(how, before, after),
        ensures
            after == fresh,
    {
        assert forall|x: int, y: int, z: int| in_cube(x, y, z) implies #[trigger] cell(
            after,
            x,
            y,
            z,
        ) == cell(fresh, x, y, z) by {
            assert(cell(before, x, y, z) == 0);
        }
        lemma_grid_ext(after, fresh);
    }

    /// Two additions can be made in either order: adding this piece and then
    /// `other`, or `other` and then this piece, leaves the same grid, and so
    /// the same number of odd cells.
    pub proof fn lemma_additions_commute(
        &self,
        how: Placement,
        other: Ruban,
        other_how: Placement,
        start: Grid,
        after_self: Grid,
        after_self_other: Grid,
        after_other: Grid,
        after_other_self: Grid,
    )
        requires
            self.is_added(how, start, after_self),
            other.is_added(other_how, after_self, after_self_other),
            other.is_added(other_how, start, after_other),
            self.is_added(how, after_other, after_other_self),
        ensures
            after_self_other == after_other_self,
            odd_count(after_self_other) == odd_count(after_other_self),
    {
        assert forall|x: int, y: int, z: int| in_cube(x, y, z) implies #[trigger] cell(
            after_self_other,
            x,
            y,
            z,
        ) == cell(after_other_self, x, y, z) by {
            assert(cell(after_self, x, y, z) == cell(start, x, y, z) + self.placed_cell(
                how,
                x,
                y,
                z,
            ));
            assert(cell(after_other, x, y, z) == cell(start, x, y, z) + other.placed_cell(
                other_how,
                x,
                y,
                z,
            ));
        }
        lemma_grid_ext(after_self_other, after_other_self);
    }
}

/// Quarter turns add up: turning by `first` and then by `second` is turning
/// by their sum, counted modulo four. A turn keeps a column inside the cube.
pub proof fn lemma_turns_add_up(x: int, y: int, first: int, second: int)
    requires
        0 <= first < 4,
        0 <= second < 4,
    ensures
        turned(turned(x, y, first).0, turned(x, y, first).1, second) == turned(
            x,
            y,
            (first + second) % 4,
        ),
        turned(x, y, 0) == (x, y),
        0 <= x < 4 && 0 <= y < 4 ==> 0 <= turned(x, y, first).0 < 4 && 0 <= turned(x, y, first).1
            < 4,
{
}

/// The quarter turns form a cycle of four: four quarter turns, two half
/// turns, or a quarter turn and a three-quarter turn in either order, bring
/// every column back to where it was.
pub proof fn lemma_turns_cycle(x: int, y: int)
    ensures
        ({
            let once = turned(x, y, 1);
            let twice = turned(once.0, once.1, 1);
            let thrice = turned(twice.0, twice.1, 1);
            turned(thrice.0, thrice.1, 1) == (x, y)
        }),
        turned(turned(x, y, 2).0, turned(x, y, 2).1, 2) == (x, y),
        turned(turned(x, y, 1).0, turned(x, y, 1).1, 3) == (x, y),
        turned(turned(x, y, 3).0, turned(x, y, 3).1, 1) == (x, y),
{
}

/// A slab holds 16 of the cube's 64 cells. The two slabs along one direction
/// share no cell, and together they make up the band along that direction.
pub proof fn lemma_slabs(direction: Direction, shift: int)
    requires
        0 <= shift < 2,
    ensures
        slab(direction, shift).finite(),
        slab(direction, shift).len() == 16,
        slab(direction, 0).disjoint(slab(direction, 1)),
        slab(direction, 0).union(slab(direction, 1)) == band(direction),
{
    let low = 2 * shift;
    let cells: Set<(int, int, int)> = match direction {
        Direction::X => set![
            (0, 1, low), (0, 1, low + 1), (0, 2, low), (0, 2, low + 1),
            (1, 1, low), (1, 1, low + 1), (1, 2, low), (1, 2, low + 1),
            (2, 1, low), (2, 1, low + 1), (2, 2, low), (2, 2, low + 1),
            (3, 1, low), (3, 1, low + 1), (3, 2, low), (3, 2, low + 1)
        ],
        Direction::Y => set![
            (low, 0, 1), (low, 0, 2), (low, 1, 1), (low, 1, 2),
            (low, 2, 1), (low, 2, 2), (low, 3, 1), (low, 3, 2),
            (low + 1, 0, 1), (low + 1, 0, 2), (low + 1, 1, 1), (low + 1, 1, 2),
            (low + 1, 2, 1), (low + 1, 2, 2), (low + 1, 3, 1), (low + 1, 3, 2)
        ],
        Direction::Z => set![
            (1, low, 0), (1, low, 1), (1, low, 2), (1, low, 3),
            (1, low + 1, 0), (1, low + 1, 1), (1, low + 1, 2), (1, low + 1, 3),
            (2, low, 0), (2, low, 1), (2, low, 2), (2, low, 3),
            (2, low + 1, 0), (2, low + 1, 1), (2, low + 1, 2), (2, low + 1, 3)
        ],
    };
    assert(slab(direction, shift) =~= cells);
    assert(cells.finite() && cells.len() == 16);
    assert(slab(direction, 0).union(slab(direction, 1)) =~= band(direction));
}

} // verus!
