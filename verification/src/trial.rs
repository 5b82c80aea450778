//! One setting of the six pieces into the six slots of the cube.
//!
//! The cube has six slots, two along each axis. A trial gives each slot a
//! piece, a polarity and a rotation; stacking the six projections gives the
//! count of every cell, and the trial's score is the number of cells with an
//! odd count.

use crate::grid::{cell, count_grids, empty_grids, in_cube, odd_cells, Direction, Grid};
use crate::ruban::{in_slab, placement, source, turned, Placement, Ruban};
use vstd::arithmetic::div_mod::lemma_div_denominator;
use vstd::arithmetic::power::{lemma_pow_positive, pow};
use vstd::pervasive::unreached;
use vstd::prelude::*;
use vstd::seq_lib::lemma_fold_left_permutation;

verus! {

/// The number of slots, and of pieces.
pub const SLOTS: usize = 6;

/// The largest cell value of a piece for which six stacked projections are
/// sure to fit in a byte: at most three slots meet in a cell.
pub const STACKABLE_MAX: u8 = 85;

/// The axis along which the slot lies: slots 0 and 1 along X, 2 and 3 along
/// Y, 4 and 5 along Z.
pub open spec fn slot_direction(slot: int) -> Direction {
    if slot < 2 {
        Direction::X
    } else if slot < 4 {
        Direction::Y
    } else {
        Direction::Z
    }
}

/// Which of the two slabs along its axis the slot is: 0 for even slots, 1
/// for odd ones.
pub open spec fn slot_shift(slot: int) -> u8 {
    if slot % 2 == 0 {
        0
    } else {
        1
    }
}

/// The digit of `value` at `position`, written in base `radix` with
/// position 0 the least significant.
pub open spec fn digit(value: int, radix: int, position: int) -> int {
    (value / pow(radix, position as nat)) % radix
}

/// The six lowest digits of `value` in base `radix`, one for each slot.
pub open spec fn digits(value: int, radix: int) -> Seq<u8> {
    Seq::new(SLOTS as nat, |slot: int| digit(value, radix, slot) as u8)
}

/// The slots in their own order.
pub open spec fn all_slots() -> Seq<int> {
    Seq::new(SLOTS as nat, |slot: int| slot)
}

/// What a trial is made of: for each slot the number of the piece set into
/// it, its polarity and its rotation.
#[verifier::ext_equal]
pub struct TrialView {
    pub order: Seq<usize>,
    pub polarities: Seq<u8>,
    pub rotations: Seq<u8>,
}

/// A trial, as it is run.
#[derive(Clone, Copy, Debug)]
pub struct Trial {
    pub order: [usize; 6],
    pub polarities: [u8; 6],
    pub rotations: [u8; 6],
}

impl View for Trial {
    type V = TrialView;

    open spec fn view(&self) -> TrialView {
        TrialView { order: self.order@, polarities: self.polarities@, rotations: self.rotations@ }
    }
}

/// The trial that sets the pieces in `order`, with the polarities that are
/// the binary digits of `polarity` and the rotations that are the digits of
/// `rotation` in base 4.
pub open spec fn trial_at(order: Seq<usize>, polarity: int, rotation: int) -> TrialView {
    TrialView { order, polarities: digits(polarity, 2), rotations: digits(rotation, 4) }
}

/// Whether every piece's cells are small enough for six projections to be
/// stacked in bytes.
pub open spec fn stackable(pieces: Seq<Ruban>) -> bool {
    &&& pieces.len() == SLOTS
    &&& forall|i: int| 0 <= i < SLOTS ==> (#[trigger] pieces[i]).cells_at_most(STACKABLE_MAX as int)
}

impl TrialView {
    /// Whether the trial names a piece and a rotation for each slot.
    pub open spec fn wf(self) -> bool {
        &&& self.order.len() == SLOTS
        &&& self.polarities.len() == SLOTS
        &&& self.rotations.len() == SLOTS
        &&& forall|slot: int| 0 <= slot < SLOTS ==> #[trigger] self.order[slot] < SLOTS
        &&& forall|slot: int| 0 <= slot < SLOTS ==> #[trigger] self.rotations[slot] < 4
    }

    /// How the piece in `slot` is set into the cube.
    pub open spec fn slot_placement(self, slot: int) -> Placement {
        placement(
            slot_direction(slot),
            self.polarities[slot],
            self.rotations[slot],
            slot_shift(slot),
        )
    }

    /// What the piece in `slot` puts on the cell `(x, y, z)`.
    pub open spec fn slot_cell(self, pieces: Seq<Ruban>, slot: int, x: int, y: int, z: int) -> int {
        pieces[self.order[slot] as int].placed_cell(self.slot_placement(slot), x, y, z)
    }

    /// What the cell `(x, y, z)` holds once the pieces of `slots` have been
    /// added one after the other, in that order, to an empty cube.
    pub open spec fn stacked_cell(
        self,
        pieces: Seq<Ruban>,
        slots: Seq<int>,
        x: int,
        y: int,
        z: int,
    ) -> int {
        slots.fold_left(0int, |sum: int, slot: int| sum + self.slot_cell(pieces, slot, x, y, z))
    }

    /// What the cell `(x, y, z)` holds once all six pieces are in.
    pub open spec fn cell(self, pieces: Seq<Ruban>, x: int, y: int, z: int) -> int {
        self.stacked_cell(pieces, all_slots(), x, y, z)
    }

    /// Whether every cell, once all six pieces are in, holds a value that
    /// fits in a byte.
    pub open spec fn fits(self, pieces: Seq<Ruban>) -> bool {
        forall|x: int, y: int, z: int|
            in_cube(x, y, z) ==> #[trigger] self.cell(pieces, x, y, z) <= u8::MAX
    }

    /// The cells covered an odd number of times once the pieces of `slots`
    /// have been added in that order.
    pub open spec fn stacked_odd_cells(self, pieces: Seq<Ruban>, slots: Seq<int>) -> Set<
        (int, int, int),
    > {
        Set::new(
            |c: (int, int, int)|
                in_cube(c.0, c.1, c.2) && self.stacked_cell(pieces, slots, c.0, c.1, c.2) % 2 == 1,
        )
    }

    /// The trial's score: how many cells are covered an odd number of times
    /// once all six pieces are in.
    pub open spec fn odd_count(self, pieces: Seq<Ruban>) -> nat {
        self.stacked_odd_cells(pieces, all_slots()).len()
    }

    /// Adding one more piece adds what it puts on the cell.
    pub proof fn lemma_stacked_push(
        self,
        pieces: Seq<Ruban>,
        slots: Seq<int>,
        slot: int,
        x: int,
        y: int,
        z: int,
    )
        ensures
            self.stacked_cell(pieces, slots.push(slot), x, y, z) == self.stacked_cell(
                pieces,
                slots,
                x,
                y,
                z,
            ) + self.slot_cell(pieces, slot, x, y, z),
            self.stacked_cell(pieces, Seq::<int>::empty(), x, y, z) == 0,
    {
        assert(slots.push(slot).drop_last() =~= slots);
    }

    /// The order in which pieces are added does not matter: two sequences
    /// that hold the same slots the same number of times leave the same
    /// value on every cell, and so the same cells odd.
    pub proof fn lemma_stacking_order(self, pieces: Seq<Ruban>, first: Seq<int>, second: Seq<int>)
        requires
            first.to_multiset() == second.to_multiset(),
        ensures
            forall|x: int, y: int, z: int| #[trigger]
                self.stacked_cell(pieces, first, x, y, z) == self.stacked_cell(
                    pieces,
                    second,
                    x,
                    y,
                    z,
                ),
            self.stacked_odd_cells(pieces, first) == self.stacked_odd_cells(pieces, second),
            self.stacked_odd_cells(pieces, first).len() == self.stacked_odd_cells(
                pieces,
                second,
            ).len(),
    {
        assert forall|x: int, y: int, z: int| #[trigger]
            self.stacked_cell(pieces, first, x, y, z) == self.stacked_cell(
                pieces,
                second,
                x,
                y,
                z,
            ) by {
            let add = |sum: int, slot: int| sum + self.slot_cell(pieces, slot, x, y, z);
            lemma_fold_left_permutation(first, second, add, 0int);
        }
        assert(self.stacked_odd_cells(pieces, first) =~= self.stacked_odd_cells(pieces, second));
    }

    /// The score does not depend on the order in which the six pieces are
    /// added: stacking them in any order leaves as many odd cells.
    pub proof fn lemma_score_in_any_order(self, pieces: Seq<Ruban>, slots: Seq<int>)
        requires
            slots.to_multiset() == all_slots().to_multiset(),
        ensures
            self.stacked_odd_cells(pieces, slots).len() == self.odd_count(pieces),
    {
        self.lemma_stacking_order(pieces, slots, all_slots());
    }

    /// A piece puts nothing on a cell outside its slab, and never more than
    /// its largest cell on a cell inside.
    pub proof fn lemma_slot_cell_bound(
        self,
        pieces: Seq<Ruban>,
        slot: int,
        x: int,
        y: int,
        z: int,
    )
        requires
            self.wf(),
            pieces.len() == SLOTS,
            0 <= slot < SLOTS,
        ensures
            0 <= self.slot_cell(pieces, slot, x, y, z),
            !in_slab(slot_direction(slot), slot_shift(slot) as int, x, y, z) ==> self.slot_cell(
                pieces,
                slot,
                x,
                y,
                z,
            ) == 0,
            stackable(pieces) ==> self.slot_cell(pieces, slot, x, y, z) <= STACKABLE_MAX,
    {
        let direction = slot_direction(slot);
        let shift = slot_shift(slot);
        let piece = pieces[self.order[slot] as int];
        if in_slab(direction, shift as int, x, y, z) {
            let from = source(direction, self.polarities[slot], shift as int, x, y, z);
            let column = turned(from.0, from.1, self.rotations[slot] as int);
            assert(in_cube(column.0, column.1, from.2));
            if stackable(pieces) {
                assert(piece.cells_at_most(STACKABLE_MAX as int));
                assert(cell(piece@, column.0, column.1, from.2) <= STACKABLE_MAX);
            }
        }
    }

    /// The sums met while the six pieces are added one by one never exceed
    /// the final sum; and the final sum fits in a byte where the pieces are
    /// stackable, since no more than three slabs meet in a cell.
    pub proof fn lemma_stacking_bounds(self, pieces: Seq<Ruban>, n: int, x: int, y: int, z: int)
        requires
            self.wf(),
            pieces.len() == SLOTS,
            0 <= n <= SLOTS,
        ensures
            0 <= self.stacked_cell(pieces, all_slots().take(n), x, y, z) <= self.cell(
                pieces,
                x,
                y,
                z,
            ),
            stackable(pieces) ==> self.cell(pieces, x, y, z) <= u8::MAX,
    {
        let slots = all_slots();
        assert(slots.take(0) =~= Seq::<int>::empty());
        assert(slots.take(1) =~= slots.take(0).push(0));
        assert(slots.take(2) =~= slots.take(1).push(1));
        assert(slots.take(3) =~= slots.take(2).push(2));
        assert(slots.take(4) =~= slots.take(3).push(3));
        assert(slots.take(5) =~= slots.take(4).push(4));
        assert(slots.take(6) =~= slots.take(5).push(5));
        assert(slots.take(6) =~= slots);
        self.lemma_stacked_push(pieces, slots.take(0), 0, x, y, z);
        self.lemma_stacked_push(pieces, slots.take(1), 1, x, y, z);
        self.lemma_stacked_push(pieces, slots.take(2), 2, x, y, z);
        self.lemma_stacked_push(pieces, slots.take(3), 3, x, y, z);
        self.lemma_stacked_push(pieces, slots.take(4), 4, x, y, z);
        self.lemma_stacked_push(pieces, slots.take(5), 5, x, y, z);
        self.lemma_slot_cell_bound(pieces, 0, x, y, z);
        self.lemma_slot_cell_bound(pieces, 1, x, y, z);
        self.lemma_slot_cell_bound(pieces, 2, x, y, z);
        self.lemma_slot_cell_bound(pieces, 3, x, y, z);
        self.lemma_slot_cell_bound(pieces, 4, x, y, z);
        self.lemma_slot_cell_bound(pieces, 5, x, y, z);
    }

    /// With stackable pieces every trial fits.
    pub proof fn lemma_stackable_fits(self, pieces: Seq<Ruban>)
        requires
            self.wf(),
            stackable(pieces),
        ensures
            self.fits(pieces),
    {
        assert forall|x: int, y: int, z: int| in_cube(x, y, z) implies #[trigger] self.cell(
            pieces,
            x,
            y,
            z,
        ) <= u8::MAX by {
            self.lemma_stacking_bounds(pieces, 0, x, y, z);
        }
    }
}

/// The axis and the slab of a slot.
pub fn slot_of(slot: usize) -> (place: (Direction, u8))
    requires
        slot < SLOTS,
    ensures
        place.0 == slot_direction(slot as int),
        place.1 == slot_shift(slot as int),
{
    match slot {
        0 => (Direction::X, 0),
        1 => (Direction::X, 1),
        2 => (Direction::Y, 0),
        3 => (Direction::Y, 1),
        4 => (Direction::Z, 0),
        5 => (Direction::Z, 1),
        _ => unreached(),
    }
}

/// The polarity of each slot in the choice numbered `choice`: its binary
/// digits, the least significant first.
pub fn polarities_of(choice: u64) -> (polarities: [u8; 6])
    ensures
        polarities@ == digits(choice as int, 2),
{
    let mut polarities = [0u8; 6];
    let mut rest = choice;
    let mut slot: usize = 0;
    proof {
        reveal(pow);
    }
    while slot < SLOTS
        invariant
            slot <= SLOTS,
            rest == choice as int / pow(2, slot as nat),
            forall|i: int| 0 <= i < slot ==> polarities[i] == digit(choice as int, 2, i) as u8,
        decreases SLOTS - slot,
    {
        proof {
            reveal(pow);
            lemma_pow_positive(2, slot as nat);
            lemma_div_denominator(choice as int, pow(2, slot as nat), 2);
            assert(pow(2, (slot + 1) as nat) == pow(2, slot as nat) * 2);
            assert(rest & 1 == rest % 2) by (bit_vector);
            assert(rest >> 1 == rest / 2) by (bit_vector);
        }
        polarities[slot] = (rest & 1) as u8;
        rest = rest >> 1;
        slot += 1;
    }
    assert(polarities@ =~= digits(choice as int, 2));
    polarities
}

/// The rotation of each slot in the choice numbered `choice`: its digits in
/// base 4, the least significant first.
pub fn rotations_of(choice: u64) -> (rotations: [u8; 6])
    ensures
        rotations@ == digits(choice as int, 4),
{
    let mut rotations = [0u8; 6];
    let mut rest = choice;
    let mut slot: usize = 0;
    proof {
        reveal(pow);
    }
    while slot < SLOTS
        invariant
            slot <= SLOTS,
            rest == choice as int / pow(4, slot as nat),
            forall|i: int| 0 <= i < slot ==> rotations[i] == digit(choice as int, 4, i) as u8,
        decreases SLOTS - slot,
    {
        proof {
            reveal(pow);
            lemma_pow_positive(4, slot as nat);
            lemma_div_denominator(choice as int, pow(4, slot as nat), 4);
            assert(pow(4, (slot + 1) as nat) == pow(4, slot as nat) * 4);
            assert(rest & 3 == rest % 4) by (bit_vector);
            assert(rest >> 2 == rest / 4) by (bit_vector);
        }
        rotations[slot] = (rest & 3) as u8;
        rest = rest >> 2;
        slot += 1;
    }
    assert(rotations@ =~= digits(choice as int, 4));
    rotations
}

impl Trial {
    /// Adds the projections of all six pieces into `grids`, slot by slot.
    pub fn add_to_grids(&self, pieces: &[Ruban; 6], grids: &mut Grid)
        requires
            self@.wf(),
            forall|x: int, y: int, z: int|
                in_cube(x, y, z) ==> #[trigger] cell(*old(grids), x, y, z) + self@.cell(
                    pieces@,
                    x,
                    y,
                    z,
                ) <= u8::MAX,
        ensures
            forall|x: int, y: int, z: int|
                in_cube(x, y, z) ==> #[trigger] cell(*final(grids), x, y, z) == cell(
                    *old(grids),
                    x,
                    y,
                    z,
                ) + self@.cell(pieces@, x, y, z),
    {
        let ghost base = *grids;
        let mut slot: usize = 0;
        proof {
            assert(all_slots().take(0) =~= Seq::<int>::empty());
        }
        while slot < SLOTS
            invariant
                slot <= SLOTS,
                self@.wf(),
                forall|x: int, y: int, z: int|
                    in_cube(x, y, z) ==> #[trigger] cell(base, x, y, z) + self@.cell(
                        pieces@,
                        x,
                        y,
                        z,
                    ) <= u8::MAX,
                forall|x: int, y: int, z: int|
                    in_cube(x, y, z) ==> #[trigger] cell(*grids, x, y, z) == cell(base, x, y, z)
                        + self@.stacked_cell(pieces@, all_slots().take(slot as int), x, y, z),
            decreases SLOTS - slot,
        {
            let (direction, shift) = slot_of(slot);
            let piece = &pieces[self.order[slot]];
            let ghost before = *grids;
            proof {
                assert(all_slots().take(slot as int + 1) =~= all_slots().take(slot as int).push(
                    slot as int,
                ));
                assert forall|x: int, y: int, z: int| in_cube(x, y, z) implies #[trigger] cell(
                    before,
                    x,
                    y,
                    z,
                ) + piece.placed_cell(self@.slot_placement(slot as int), x, y, z) <= u8::MAX by {
                    self@.lemma_stacked_push(
                        pieces@,
                        all_slots().take(slot as int),
                        slot as int,
                        x,
                        y,
                        z,
                    );
                    self@.lemma_stacking_bounds(pieces@, slot as int + 1, x, y, z);
                    assert(cell(base, x, y, z) + self@.cell(pieces@, x, y, z) <= u8::MAX);
                }
            }
            piece.add_to_grids(
                grids,
                &direction,
                self.polarities[slot],
                self.rotations[slot],
                shift,
            );
            proof {
                assert forall|x: int, y: int, z: int| in_cube(x, y, z) implies #[trigger] cell(
                    *grids,
                    x,
                    y,
                    z,
                ) == cell(base, x, y, z) + self@.stacked_cell(
                    pieces@,
                    all_slots().take(slot as int + 1),
                    x,
                    y,
                    z,
                ) by {
                    self@.lemma_stacked_push(
                        pieces@,
                        all_slots().take(slot as int),
                        slot as int,
                        x,
                        y,
                        z,
                    );
                    assert(cell(before, x, y, z) == cell(base, x, y, z) + self@.stacked_cell(
                        pieces@,
                        all_slots().take(slot as int),
                        x,
                        y,
                        z,
                    ));
                }
            }
            slot += 1;
        }
        proof {
            assert(all_slots().take(SLOTS as int) =~= all_slots());
        }
    }

    /// The trial's score: stacks the six projections in an empty cube and
    /// counts the cells that hold an odd value.
    pub fn odd_count(&self, pieces: &[Ruban; 6]) -> (count: u8)
        requires
            self@.wf(),
            self@.fits(pieces@),
        ensures
            count == self@.odd_count(pieces@),
            count <= 64,
    {
        let mut grids = empty_grids();
        proof {
            assert forall|x: int, y: int, z: int| in_cube(x, y, z) implies #[trigger] cell(
                grids,
                x,
                y,
                z,
            ) + self@.cell(pieces@, x, y, z) <= u8::MAX by {
                assert(self@.cell(pieces@, x, y, z) <= u8::MAX);
            }
        }
        self.add_to_grids(pieces, &mut grids);
        proof {
            assert(odd_cells(grids) =~= self@.stacked_odd_cells(pieces@, all_slots()));
        }
        count_grids(&grids)
    }
}

} // verus!
