//! The search: every order of the pieces, every choice of polarities, every
//! choice of rotations, until a trial scores the target.
//!
//! The orders are tried in dictionary order. For each order the polarity
//! choices are numbered from 0 to 63 and, for each of them, the rotation
//! choices from 0 to 4095; the digits of the two numbers give the polarity and
//! the rotation of each slot.
//!
//! A trial is scored as [`Trial::odd_count`] scores it: the six projections
//! are stacked in an empty cube and the odd cells are counted. Since a slot's
//! projection depends only on its own piece, polarity and rotation, the
//! search projects each piece once for each choice of polarities and each
//! rotation, and stacks for each trial the six projections that its rotations
//! pick.

use crate::grid::{add_grids, cell, count_grids, empty_grids, in_cube, odd_cells, Grid};
use crate::ruban::{placement, Ruban};
use crate::trial::{
    all_slots, digits, polarities_of, rotations_of, slot_direction, slot_of, slot_shift,
    stackable, trial_at, Trial, TrialView, SLOTS,
};
use itertools::Itertools;
use vstd::prelude::*;

verus! {

/// The number of ways to choose a polarity for each slot.
pub const POLARITY_CHOICES: u64 = 64;

/// The number of ways to choose a rotation for each slot.
pub const ROTATION_CHOICES: u64 = 4096;

/// Whether `order` names a piece for each slot.
pub open spec fn is_order(order: Seq<usize>) -> bool {
    &&& order.len() == SLOTS
    &&& forall|slot: int| 0 <= slot < SLOTS ==> #[trigger] order[slot] < SLOTS
}

/// Whether `order` holds each of the numbers below `n` once.
pub open spec fn is_permutation(order: Seq<usize>, n: int) -> bool {
    &&& order.len() == n
    &&& forall|i: int| 0 <= i < n ==> #[trigger] order[i] < n
    &&& forall|i: int, j: int| 0 <= i < j < n ==> #[trigger] order[i] != #[trigger] order[j]
}

/// Whether `a` and `b` agree before position `i` and `a` is smaller there.
pub open spec fn smaller_at(a: Seq<usize>, b: Seq<usize>, i: int) -> bool {
    &&& 0 <= i < a.len()
    &&& i < b.len()
    &&& a.take(i) == b.take(i)
    &&& a[i] < b[i]
}

/// Whether `a` comes before `b` in dictionary order.
pub open spec fn precedes(a: Seq<usize>, b: Seq<usize>) -> bool {
    exists|i: int| smaller_at(a, b, i)
}

/// The number of permutations of `n` things.
pub open spec fn factorial(n: nat) -> nat
    decreases n,
{
    if n == 0 {
        1
    } else {
        n * factorial((n - 1) as nat)
    }
}

/// Whether `orders` lists the permutations of the numbers below `n`: all of
/// them, each once, in dictionary order.
pub open spec fn lists_permutations(orders: Seq<Seq<usize>>, n: int) -> bool {
    &&& orders.len() == factorial(n as nat)
    &&& forall|p: int| 0 <= p < orders.len() ==> is_permutation(#[trigger] orders[p], n)
    &&& forall|p: int, q: int|
        0 <= p < q < orders.len() ==> precedes(#[trigger] orders[p], #[trigger] orders[q])
    &&& forall|order: Seq<usize>| #[trigger] is_permutation(order, n) ==> orders.contains(order)
}

/// Whether `polarity` and `rotation` number a choice of polarities and a
/// choice of rotations.
pub open spec fn is_choice(polarity: int, rotation: int) -> bool {
    0 <= polarity < POLARITY_CHOICES && 0 <= rotation < ROTATION_CHOICES
}

/// Whether the trial with the pieces in `order` and the choices numbered
/// `polarity` and `rotation` scores `target`.
pub open spec fn scores(
    pieces: Seq<Ruban>,
    order: Seq<usize>,
    polarity: int,
    rotation: int,
    target: u8,
) -> bool {
    trial_at(order, polarity, rotation).odd_count(pieces) == target
}

/// Whether no trial with the pieces in `order` scores `target`.
pub open spec fn order_fails(pieces: Seq<Ruban>, order: Seq<usize>, target: u8) -> bool {
    forall|polarity: int, rotation: int|
        is_choice(polarity, rotation) ==> !#[trigger] scores(
            pieces,
            order,
            polarity,
            rotation,
            target,
        )
}

/// Whether `trial` is the first trial with the pieces in `order` that scores
/// `target`, and is the one numbered `polarity` and `rotation`.
pub open spec fn first_of_order(
    pieces: Seq<Ruban>,
    order: Seq<usize>,
    target: u8,
    trial: TrialView,
    polarity: int,
    rotation: int,
) -> bool {
    &&& is_choice(polarity, rotation)
    &&& trial == trial_at(order, polarity, rotation)
    &&& scores(pieces, order, polarity, rotation, target)
    &&& forall|p: int, r: int|
        is_choice(p, r) && (p < polarity || (p == polarity && r < rotation)) ==> !#[trigger] scores(
            pieces,
            order,
            p,
            r,
            target,
        )
}

/// What a search through the trials of one order has to return.
pub open spec fn order_searched(
    pieces: Seq<Ruban>,
    order: Seq<usize>,
    target: u8,
    found: Option<Trial>,
) -> bool {
    match found {
        Some(trial) => exists|polarity: int, rotation: int|
            first_of_order(pieces, order, target, trial@, polarity, rotation),
        None => order_fails(pieces, order, target),
    }
}

/// What a search through the orders of a list, one after the other, has to
/// return: the first trial of the first order that has one.
pub open spec fn list_searched(
    pieces: Seq<Ruban>,
    orders: Seq<Seq<usize>>,
    target: u8,
    found: Option<Trial>,
) -> bool {
    match found {
        Some(trial) => exists|p: int|
            {
                &&& 0 <= p < orders.len()
                &&& #[trigger] orders[p] == trial@.order
                &&& order_searched(pieces, orders[p], target, found)
                &&& forall|q: int| 0 <= q < p ==> order_fails(pieces, #[trigger] orders[q], target)
            },
        None => forall|p: int|
            0 <= p < orders.len() ==> order_fails(pieces, #[trigger] orders[p], target),
    }
}

/// What the search through all the trials has to return: the first trial
/// that scores `target`, where an order that comes first in the dictionary
/// is tried first; or nothing if no trial scores it.
pub open spec fn all_searched(pieces: Seq<Ruban>, target: u8, found: Option<Trial>) -> bool {
    match found {
        Some(trial) => {
            &&& is_permutation(trial@.order, SLOTS as int)
            &&& order_searched(pieces, trial@.order, target, found)
            &&& forall|order: Seq<usize>|
                #[trigger] is_permutation(order, SLOTS as int) && precedes(order, trial@.order)
                    ==> order_fails(pieces, order, target)
        },
        None => forall|order: Seq<usize>| #[trigger]
            is_permutation(order, SLOTS as int) ==> order_fails(pieces, order, target),
    }
}

/// The permutations of the numbers below `n`, from
/// `itertools::Itertools::permutations` on the range from 0 to `n` taken `n`
/// at a time, gathered into a vector by `itertools::Itertools::collect_vec`.
///
/// Not proved: that the iterator yields every permutation of the positions
/// once, `n!` in all, in dictionary order of the positions, which for a range
/// are the numbers themselves. The bound on `n` keeps the list small.
#[verifier::external_body]
fn permutations_below(n: usize) -> (orders: Vec<Vec<usize>>)
    requires
        n <= SLOTS,
    ensures
        lists_permutations(orders.deep_view(), n as int),
{
    (0..n).permutations(n).collect_vec()
}

/// Dictionary order never holds both ways.
pub proof fn lemma_precedes_one_way(a: Seq<usize>, b: Seq<usize>)
    requires
        precedes(a, b),
    ensures
        !precedes(b, a),
        a != b,
{
    let i = choose|i: int| smaller_at(a, b, i);
    if precedes(b, a) {
        let j = choose|j: int| smaller_at(b, a, j);
        if i < j {
            assert(b.take(j)[i] == a.take(j)[i]);
        } else if j < i {
            assert(a.take(i)[j] == b.take(i)[j]);
        }
    }
}

/// The orders in which the pieces can be set into the slots: the 720
/// permutations of the six pieces, in dictionary order.
pub fn all_orders() -> (orders: Vec<Vec<usize>>)
    ensures
        lists_permutations(orders.deep_view(), SLOTS as int),
        orders.len() == 720,
{
    proof {
        reveal_with_fuel(factorial, 7);
    }
    permutations_below(SLOTS)
}

/// Whether `table` holds, for each slot and each rotation, the projection of
/// the piece that `order` sets into the slot, with the polarity that
/// `polarities` gives it.
spec fn is_projection_table(
    pieces: Seq<Ruban>,
    order: Seq<usize>,
    polarities: Seq<u8>,
    table: [[Grid; 4]; 6],
) -> bool {
    forall|slot: int, rotation: int|
        0 <= slot < SLOTS && 0 <= rotation < 4 ==> pieces[order[slot] as int].is_placement(
            placement(slot_direction(slot), polarities[slot], rotation as u8, slot_shift(slot)),
            #[trigger] table[slot][rotation],
        )
}

/// Projects the piece of each slot into the cube, once for each rotation.
fn project_all(pieces: &[Ruban; 6], order: &[usize; 6], polarities: &[u8; 6]) -> (table: [[Grid;
    4]; 6])
    requires
        is_order(order@),
    ensures
        is_projection_table(pieces@, order@, polarities@, table),
{
    let mut table = [[empty_grids(); 4]; 6];
    let mut slot: usize = 0;
    while slot < SLOTS
        invariant
            slot <= SLOTS,
            is_order(order@),
            forall|s: int, r: int|
                0 <= s < slot && 0 <= r < 4 ==> pieces[order[s] as int].is_placement(
                    placement(slot_direction(s), polarities[s], r as u8, slot_shift(s)),
                    #[trigger] table[s][r],
                ),
        decreases SLOTS - slot,
    {
        let (direction, shift) = slot_of(slot);
        let piece = &pieces[order[slot]];
        let mut rotation: u8 = 0;
        while rotation < 4
            invariant
                slot < SLOTS,
                rotation <= 4,
                is_order(order@),
                direction == slot_direction(slot as int),
                shift == slot_shift(slot as int),
                *piece == pieces[order[slot as int] as int],
                forall|s: int, r: int|
                    0 <= s < slot && 0 <= r < 4 ==> pieces[order[s] as int].is_placement(
                        placement(slot_direction(s), polarities[s], r as u8, slot_shift(s)),
                        #[trigger] table[s][r],
                    ),
                forall|r: int|
                    0 <= r < rotation ==> piece.is_placement(
                        placement(direction, polarities[slot as int], r as u8, shift),
                        #[trigger] table[slot as int][r],
                    ),
            decreases 4 - rotation,
        {
            table[slot][rotation as usize] = piece.get_grids(
                &direction,
                polarities[slot],
                rotation,
                shift,
            );
            rotation += 1;
        }
        slot += 1;
    }
    table
}

/// The score of `trial`, from the projections in `table`: stacks the six
/// that the trial's rotations pick in an empty cube and counts the odd cells.
fn score(table: &[[Grid; 4]; 6], trial: &Trial, Ghost(pieces): Ghost<Seq<Ruban>>) -> (count: u8)
    requires
        trial@.wf(),
        stackable(pieces),
        is_projection_table(pieces, trial@.order, trial@.polarities, *table),
    ensures
        count == trial@.odd_count(pieces),
{
    let mut grids = empty_grids();
    let mut slot: usize = 0;
    proof {
        assert(all_slots().take(0) =~= Seq::<int>::empty());
    }
    while slot < SLOTS
        invariant
            slot <= SLOTS,
            trial@.wf(),
            stackable(pieces),
            is_projection_table(pieces, trial@.order, trial@.polarities, *table),
            forall|x: int, y: int, z: int|
                in_cube(x, y, z) ==> #[trigger] cell(grids, x, y, z) == trial@.stacked_cell(
                    pieces,
                    all_slots().take(slot as int),
                    x,
                    y,
                    z,
                ),
        decreases SLOTS - slot,
    {
        let rotation = trial.rotations[slot];
        let placed = &table[slot][rotation as usize];
        let ghost before = grids;
        proof {
            assert(all_slots().take(slot as int + 1) =~= all_slots().take(slot as int).push(
                slot as int,
            ));
            assert(pieces[trial@.order[slot as int] as int].is_placement(
                trial@.slot_placement(slot as int),
                *placed,
            ));
            assert forall|x: int, y: int, z: int| in_cube(x, y, z) implies #[trigger] cell(
                before,
                x,
                y,
                z,
            ) + cell(*placed, x, y, z) == trial@.stacked_cell(
                pieces,
                all_slots().take(slot as int + 1),
                x,
                y,
                z,
            ) <= u8::MAX by {
                trial@.lemma_stacked_push(
                    pieces,
                    all_slots().take(slot as int),
                    slot as int,
                    x,
                    y,
                    z,
                );
                trial@.lemma_stacking_bounds(pieces, slot as int + 1, x, y, z);
            }
        }
        add_grids(&mut grids, placed);
        slot += 1;
    }
    proof {
        assert(all_slots().take(SLOTS as int) =~= all_slots());
        assert(odd_cells(grids) =~= trial@.stacked_odd_cells(pieces, all_slots()));
    }
    count_grids(&grids)
}

/// Searches the trials with the pieces in `order`: for each choice of
/// polarities in turn, each choice of rotations in turn. Returns the first
/// trial that scores `target`.
pub fn search_order(pieces: &[Ruban; 6], order: &Vec<usize>, target: u8) -> (found: Option<Trial>)
    requires
        stackable(pieces@),
        is_order(order@),
    ensures
        order_searched(pieces@, order@, target, found),
{
    let mut slots = [0usize; 6];
    let mut slot: usize = 0;
    while slot < SLOTS
        invariant
            slot <= SLOTS,
            is_order(order@),
            forall|i: int| 0 <= i < slot ==> slots[i] == order[i],
        decreases SLOTS - slot,
    {
        slots[slot] = order[slot];
        slot += 1;
    }
    assert(slots@ =~= order@);
    let mut polarity: u64 = 0;
    while polarity < POLARITY_CHOICES
        invariant
            polarity <= POLARITY_CHOICES,
            stackable(pieces@),
            is_order(order@),
            slots@ == order@,
            forall|p: int, r: int|
                is_choice(p, r) && p < polarity ==> !#[trigger] scores(
                    pieces@,
                    order@,
                    p,
                    r,
                    target,
                ),
        decreases POLARITY_CHOICES - polarity,
    {
        let polarities = polarities_of(polarity);
        let table = project_all(pieces, &slots, &polarities);
        let mut rotation: u64 = 0;
        while rotation < ROTATION_CHOICES
            invariant
                polarity < POLARITY_CHOICES,
                rotation <= ROTATION_CHOICES,
                stackable(pieces@),
                is_order(order@),
                slots@ == order@,
                polarities@ == digits(polarity as int, 2),
                is_projection_table(pieces@, order@, polarities@, table),
                forall|p: int, r: int|
                    is_choice(p, r) && (p < polarity || (p == polarity && r < rotation))
                        ==> !#[trigger] scores(pieces@, order@, p, r, target),
            decreases ROTATION_CHOICES - rotation,
        {
            let rotations = rotations_of(rotation);
            let trial = Trial { order: slots, polarities, rotations };
            assert(trial@ =~= trial_at(order@, polarity as int, rotation as int));
            if score(&table, &trial, Ghost(pieces@)) == target {
                let found = Some(trial);
                assert(first_of_order(
                    pieces@,
                    order@,
                    target,
                    found->0@,
                    polarity as int,
                    rotation as int,
                ));
                return found;
            }
            rotation += 1;
        }
        polarity += 1;
    }
    None
}

/// Searches the orders of `orders` one after the other, each as
/// [`search_order`] does, and returns the first trial that scores `target`.
pub fn search_orders(pieces: &[Ruban; 6], orders: &Vec<Vec<usize>>, target: u8) -> (found: Option<
    Trial,
>)
    requires
        stackable(pieces@),
        forall|p: int| 0 <= p < orders.len() ==> is_order(#[trigger] orders.deep_view()[p]),
    ensures
        list_searched(pieces@, orders.deep_view(), target, found),
{
    let mut index: usize = 0;
    while index < orders.len()
        invariant
            index <= orders.len(),
            stackable(pieces@),
            forall|p: int| 0 <= p < orders.len() ==> is_order(#[trigger] orders.deep_view()[p]),
            forall|q: int|
                0 <= q < index ==> order_fails(pieces@, #[trigger] orders.deep_view()[q], target),
        decreases orders.len() - index,
    {
        assert(orders.deep_view()[index as int] == orders[index as int]@);
        let found = search_order(pieces, &orders[index], target);
        if found.is_some() {
            return found;
        }
        index += 1;
    }
    None
}

/// Searches all the trials: the orders in dictionary order, and the trials
/// of each order as [`search_order`] does. Returns the first trial that
/// scores `target`, or nothing if none does.
pub fn search(pieces: &[Ruban; 6], target: u8) -> (found: Option<Trial>)
    requires
        stackable(pieces@),
    ensures
        all_searched(pieces@, target, found),
{
    let orders = all_orders();
    let found = search_orders(pieces, &orders, target);
    proof {
        lemma_list_covers_all(pieces@, orders.deep_view(), target, found);
    }
    found
}

/// A search through the list of all permutations in dictionary order is a
/// search through all the trials.
pub proof fn lemma_list_covers_all(
    pieces: Seq<Ruban>,
    orders: Seq<Seq<usize>>,
    target: u8,
    found: Option<Trial>,
)
    requires
        lists_permutations(orders, SLOTS as int),
        list_searched(pieces, orders, target, found),
    ensures
        all_searched(pieces, target, found),
{
    match found {
        Some(trial) => {
            let p = choose|p: int|
                {
                    &&& 0 <= p < orders.len()
                    &&& #[trigger] orders[p] == trial@.order
                    &&& order_searched(pieces, orders[p], target, found)
                    &&& forall|q: int|
                        0 <= q < p ==> order_fails(pieces, #[trigger] orders[q], target)
                };
            assert forall|order: Seq<usize>|
                #[trigger] is_permutation(order, SLOTS as int) && precedes(
                    order,
                    trial@.order,
                ) implies order_fails(pieces, order, target) by {
                assert(orders.contains(order));
                let q = choose|q: int| 0 <= q < orders.len() && orders[q] == order;
                lemma_precedes_one_way(order, trial@.order);
                if p < q {
                    assert(precedes(orders[p], orders[q]));
                }
            }
        },
        None => {
            assert forall|order: Seq<usize>| #[trigger]
                is_permutation(order, SLOTS as int) implies order_fails(pieces, order, target) by {
                assert(orders.contains(order));
                let q = choose|q: int| 0 <= q < orders.len() && orders[q] == order;
                assert(order_fails(pieces, orders[q], target));
            }
        },
    }
}

} // verus!
