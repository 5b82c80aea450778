//! The cube: 4×4×4 cells, each a small count.

use vstd::prelude::*;

verus! {

/// A cube of 4×4×4 cells, indexed `[x][y][z]`.
pub type Grid = [[[u8; 4]; 4]; 4];

/// One of the cube's three axes.
#[derive(Clone, Copy, Debug, PartialEq, Eq, Structural)]
pub enum Direction {
    X,
    Y,
    Z,
}

/// Whether `(x, y, z)` names a cell of the cube.
pub open spec fn in_cube(x: int, y: int, z: int) -> bool {
    0 <= x < 4 && 0 <= y < 4 && 0 <= z < 4
}

/// The value that `g` holds at `(x, y, z)`.
pub open spec fn cell(g: Grid, x: int, y: int, z: int) -> int {
    g[x][y][z] as int
}

/// Whether every cell of `g` is zero.
pub open spec fn is_empty(g: Grid) -> bool {
    forall|x: int, y: int, z: int| in_cube(x, y, z) ==> #[trigger] cell(g, x, y, z) == 0
}

/// The cells of `g` that hold an odd value.
pub open spec fn odd_cells(g: Grid) -> Set<(int, int, int)> {
    Set::new(|c: (int, int, int)| in_cube(c.0, c.1, c.2) && cell(g, c.0, c.1, c.2) % 2 == 1)
}

/// How many cells of `g` hold an odd value.
pub open spec fn odd_count(g: Grid) -> nat {
    odd_cells(g).len()
}

/// Whether a walk through the cube, with `z` running fastest and `x`
/// slowest, meets `(a, b, c)` before it reaches `(x, y, z)`.
pub open spec fn walked(a: int, b: int, c: int, x: int, y: int, z: int) -> bool {
    a < x || (a == x && (b < y || (b == y && c < z)))
}

/// Whether `after` is `before` with `other` added on each cell.
pub open spec fn is_sum(before: Grid, other: Grid, after: Grid) -> bool {
    forall|x: int, y: int, z: int|
        in_cube(x, y, z) ==> #[trigger] cell(after, x, y, z) == cell(before, x, y, z) + cell(
            other,
            x,
            y,
            z,
        )
}

/// Whether `other` can be added to `grids` with every cell still fitting in
/// a byte.
pub open spec fn fits_sum(grids: Grid, other: Grid) -> bool {
    forall|x: int, y: int, z: int|
        in_cube(x, y, z) ==> #[trigger] cell(grids, x, y, z) + cell(other, x, y, z) <= u8::MAX
}

/// Whether `grids` is `base` with `other` added on the cells that the walk
/// meets before it reaches `(x, y, z)`.
spec fn summed_before(base: Grid, other: Grid, grids: Grid, x: int, y: int, z: int) -> bool {
    forall|a: int, b: int, c: int|
        in_cube(a, b, c) ==> #[trigger] cell(grids, a, b, c) == cell(base, a, b, c) + if walked(
            a,
            b,
            c,
            x,
            y,
            z,
        ) {
            cell(other, a, b, c)
        } else {
            0
        }
}

/// The position of a cell when the cube is walked with `z` running fastest.
spec fn rank(x: int, y: int, z: int) -> int {
    16 * x + 4 * y + z
}

/// The cells among the first `n` of the walk that satisfy `p`.
spec fn cells_before(p: spec_fn(int, int, int) -> bool, n: int) -> Set<(int, int, int)> {
    Set::new(
        |c: (int, int, int)| in_cube(c.0, c.1, c.2) && rank(c.0, c.1, c.2) < n && p(c.0, c.1, c.2),
    )
}

/// Nothing has been walked at the start.
proof fn lemma_cells_before_none(p: spec_fn(int, int, int) -> bool)
    ensures
        cells_before(p, 0) == Set::<(int, int, int)>::empty(),
{
    assert(cells_before(p, 0) =~= Set::<(int, int, int)>::empty());
}

/// Walking one cell further adds that cell if it satisfies `p`, and nothing else.
proof fn lemma_cells_before_next(p: spec_fn(int, int, int) -> bool, x: int, y: int, z: int)
    requires
        in_cube(x, y, z),
    ensures
        !cells_before(p, rank(x, y, z)).contains((x, y, z)),
        cells_before(p, rank(x, y, z) + 1) == if p(x, y, z) {
            cells_before(p, rank(x, y, z)).insert((x, y, z))
        } else {
            cells_before(p, rank(x, y, z))
        },
{
    let n = rank(x, y, z);
    let next = if p(x, y, z) {
        cells_before(p, n).insert((x, y, z))
    } else {
        cells_before(p, n)
    };
    assert forall|c: (int, int, int)| cells_before(p, n + 1).contains(c) == next.contains(c) by {
        if in_cube(c.0, c.1, c.2) && rank(c.0, c.1, c.2) == n {
            assert(c.0 == x && c.1 == y && c.2 == z);
        }
    }
    assert(cells_before(p, n + 1) =~= next);
}

/// The first `n` cells hold finitely many that satisfy `p`, and no more than `n`.
proof fn lemma_cells_before_bound(p: spec_fn(int, int, int) -> bool, n: int)
    requires
        0 <= n <= 64,
    ensures
        cells_before(p, n).finite(),
        cells_before(p, n).len() <= n,
    decreases n,
{
    if n == 0 {
        lemma_cells_before_none(p);
    } else {
        let m = n - 1;
        let (x, y, z) = (m / 16, (m / 4) % 4, m % 4);
        assert(in_cube(x, y, z) && rank(x, y, z) == m);
        lemma_cells_before_bound(p, m);
        lemma_cells_before_next(p, x, y, z);
    }
}

/// Once the whole cube is walked, every cell that satisfies `p` has been met.
proof fn lemma_cells_before_all(p: spec_fn(int, int, int) -> bool)
    ensures
        cells_before(p, 64) == Set::new(
            |c: (int, int, int)| in_cube(c.0, c.1, c.2) && p(c.0, c.1, c.2),
        ),
{
    assert(cells_before(p, 64) =~= Set::new(
        |c: (int, int, int)| in_cube(c.0, c.1, c.2) && p(c.0, c.1, c.2),
    ));
}

/// Two grids that agree on every cell are the same grid.
pub proof fn lemma_grid_ext(a: Grid, b: Grid)
    requires
        forall|x: int, y: int, z: int|
            in_cube(x, y, z) ==> #[trigger] cell(a, x, y, z) == cell(b, x, y, z),
    ensures
        a == b,
{
    assert forall|x: int| 0 <= x < 4 implies a[x] == b[x] by {
        assert forall|y: int| 0 <= y < 4 implies a[x][y] == b[x][y] by {
            assert forall|z: int| 0 <= z < 4 implies a[x][y][z] == b[x][y][z] by {
                assert(cell(a, x, y, z) == cell(b, x, y, z));
            }
            assert(a[x][y] =~= b[x][y]);
        }
        assert(a[x] =~= b[x]);
    }
    assert(a =~= b);
}

/// The number of odd cells never exceeds the number of cells.
pub proof fn lemma_odd_count_bound(g: Grid)
    ensures
        odd_cells(g).finite(),
        odd_count(g) <= 64,
{
    let p = |x: int, y: int, z: int| cell(g, x, y, z) % 2 == 1;
    lemma_cells_before_bound(p, 64);
    lemma_cells_before_all(p);
    assert(odd_cells(g) =~= cells_before(p, 64));
}

/// A grid whose cells are all zero.
pub fn empty_grids() -> (grids: Grid)
    ensures
        is_empty(grids),
{
    [[[0u8; 4]; 4]; 4]
}

/// Adds `other` to `grids`, cell by cell.
pub fn add_grids(grids: &mut Grid, other: &Grid)
    requires
        fits_sum(*old(grids), *other),
    ensures
        is_sum(*old(grids), *other, *final(grids)),
{
    let ghost base = *grids;
    for x in 0..4usize
        invariant
            fits_sum(base, *other),
            summed_before(base, *other, *grids, x as int, 0, 0),
    {
        for y in 0..4usize
            invariant
                x < 4,
                fits_sum(base, *other),
                summed_before(base, *other, *grids, x as int, y as int, 0),
        {
            for z in 0..4usize
                invariant
                    x < 4,
                    y < 4,
                    fits_sum(base, *other),
                    summed_before(base, *other, *grids, x as int, y as int, z as int),
            {
                let ghost before = *grids;
                assert(cell(before, x as int, y as int, z as int) == cell(
                    base,
                    x as int,
                    y as int,
                    z as int,
                ));
                grids[x][y][z] += other[x][y][z];
                assert forall|a: int, b: int, c: int| in_cube(a, b, c) implies #[trigger] cell(
                    *grids,
                    a,
                    b,
                    c,
                ) == cell(base, a, b, c) + if walked(a, b, c, x as int, y as int, z as int + 1) {
                    cell(*other, a, b, c)
                } else {
                    0
                } by {
                    assert(cell(before, a, b, c) == cell(base, a, b, c) + if walked(
                        a,
                        b,
                        c,
                        x as int,
                        y as int,
                        z as int,
                    ) {
                        cell(*other, a, b, c)
                    } else {
                        0
                    });
                }
            }
        }
    }
}

/// Counts the cells of `grids` that hold an odd value.
pub fn count_grids(grids: &Grid) -> (count: u8)
    ensures
        count == odd_count(*grids),
        count <= 64,
{
    let ghost p = |x: int, y: int, z: int| cell(*grids, x, y, z) % 2 == 1;
    let mut count: u8 = 0;
    proof {
        lemma_cells_before_none(p);
    }
    for x in 0..4usize
        invariant
            p == (|x: int, y: int, z: int| cell(*grids, x, y, z) % 2 == 1),
            cells_before(p, rank(x as int, 0, 0)).finite(),
            count == cells_before(p, rank(x as int, 0, 0)).len(),
            count <= rank(x as int, 0, 0),
    {
        for y in 0..4usize
            invariant
                x < 4,
                p == (|x: int, y: int, z: int| cell(*grids, x, y, z) % 2 == 1),
                cells_before(p, rank(x as int, y as int, 0)).finite(),
                count == cells_before(p, rank(x as int, y as int, 0)).len(),
                count <= rank(x as int, y as int, 0),
        {
            for z in 0..4usize
                invariant
                    x < 4,
                    y < 4,
                    p == (|x: int, y: int, z: int| cell(*grids, x, y, z) % 2 == 1),
                    cells_before(p, rank(x as int, y as int, z as int)).finite(),
                    count == cells_before(p, rank(x as int, y as int, z as int)).len(),
                    count <= rank(x as int, y as int, z as int),
            {
                let value: u8 = grids[x][y][z];
                assert(value & 1 == value % 2) by (bit_vector);
                proof {
                    lemma_cells_before_next(p, x as int, y as int, z as int);
                }
                count += value & 1;
            }
        }
    }
    proof {
        lemma_cells_before_all(p);
        assert(odd_cells(*grids) =~= cells_before(p, 64));
    }
    count
}

} // verus!
