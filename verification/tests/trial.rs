use ruban_puzzle::grid::{count_grids, empty_grids, Direction, Grid};
use ruban_puzzle::puzzle::{puzzle_pieces, TARGET};
use ruban_puzzle::ruban::Ruban;
use ruban_puzzle::trial::{polarities_of, rotations_of, slot_of, Trial, SLOTS, STACKABLE_MAX};

#[test]
fn slots_lie_two_along_each_axis() {
    assert_eq!(SLOTS, 6);
    let expected = [
        (Direction::X, 0),
        (Direction::X, 1),
        (Direction::Y, 0),
        (Direction::Y, 1),
        (Direction::Z, 0),
        (Direction::Z, 1),
    ];
    for slot in 0..6 {
        assert_eq!(slot_of(slot), expected[slot]);
    }
}

#[test]
fn polarities_are_the_binary_digits() {
    assert_eq!(polarities_of(0), [0, 0, 0, 0, 0, 0]);
    assert_eq!(polarities_of(1), [1, 0, 0, 0, 0, 0]);
    assert_eq!(polarities_of(2), [0, 1, 0, 0, 0, 0]);
    assert_eq!(polarities_of(25), [1, 0, 0, 1, 1, 0]);
    assert_eq!(polarities_of(32), [0, 0, 0, 0, 0, 1]);
    assert_eq!(polarities_of(63), [1, 1, 1, 1, 1, 1]);
}

#[test]
fn rotations_are_the_digits_in_base_four() {
    assert_eq!(rotations_of(0), [0, 0, 0, 0, 0, 0]);
    assert_eq!(rotations_of(3), [3, 0, 0, 0, 0, 0]);
    assert_eq!(rotations_of(4), [0, 1, 0, 0, 0, 0]);
    assert_eq!(rotations_of(6), [2, 1, 0, 0, 0, 0]);
    assert_eq!(rotations_of(3191), [3, 1, 3, 1, 0, 3]);
    assert_eq!(rotations_of(1024), [0, 0, 0, 0, 0, 1]);
    assert_eq!(rotations_of(4095), [3, 3, 3, 3, 3, 3]);
}

#[test]
fn digits_above_the_sixth_are_dropped() {
    assert_eq!(polarities_of(64), [0, 0, 0, 0, 0, 0]);
    assert_eq!(polarities_of(64 + 25), [1, 0, 0, 1, 1, 0]);
    assert_eq!(rotations_of(4096 + 6), [2, 1, 0, 0, 0, 0]);
    assert_eq!(polarities_of(u64::MAX), [1; 6]);
    assert_eq!(rotations_of(u64::MAX), [3; 6]);
}

#[test]
fn trial_with_no_turn_and_no_mirror_is_rejected() {
    let pieces = puzzle_pieces();
    let trial = Trial { order: [0, 1, 2, 3, 4, 5], polarities: [0; 6], rotations: [0; 6] };
    assert_eq!(trial.odd_count(&pieces), 36);
    assert_ne!(trial.odd_count(&pieces), TARGET);
}

#[test]
fn trial_scores_are_exact() {
    let pieces = puzzle_pieces();
    let solved = Trial {
        order: [0, 5, 1, 2, 4, 3],
        polarities: [1, 0, 0, 1, 1, 0],
        rotations: [3, 1, 3, 1, 0, 3],
    };
    assert_eq!(solved.odd_count(&pieces), 56);
    let unturned =
        Trial { order: [0, 5, 1, 2, 4, 3], polarities: [1, 0, 0, 1, 1, 0], rotations: [0; 6] };
    assert_eq!(unturned.odd_count(&pieces), 36);
    let other = Trial {
        order: [3, 1, 4, 0, 5, 2],
        polarities: [1, 1, 0, 0, 1, 0],
        rotations: [2, 0, 1, 3, 3, 1],
    };
    assert_eq!(other.odd_count(&pieces), 34);
}

#[test]
fn trial_add_to_grids_stacks_the_six_projections() {
    let pieces = puzzle_pieces();
    let trial = Trial { order: [0, 1, 2, 3, 4, 5], polarities: [0; 6], rotations: [0; 6] };
    let mut grids = empty_grids();
    trial.add_to_grids(&pieces, &mut grids);
    let expected: Grid = [
        [[0, 0, 1, 0], [0, 1, 2, 1], [1, 1, 1, 0], [0, 0, 1, 0]],
        [[1, 1, 2, 1], [0, 1, 2, 1], [2, 1, 1, 1], [1, 0, 2, 1]],
        [[1, 1, 1, 1], [1, 1, 2, 1], [2, 1, 2, 1], [1, 1, 1, 1]],
        [[0, 0, 0, 0], [0, 0, 1, 1], [1, 2, 2, 1], [0, 1, 1, 0]],
    ];
    assert_eq!(grids, expected);
    trial.add_to_grids(&pieces, &mut grids);
    for x in 0..4 {
        for y in 0..4 {
            for z in 0..4 {
                assert_eq!(grids[x][y][z], 2 * expected[x][y][z]);
            }
        }
    }
}

#[test]
fn solution_covers_every_cell_but_the_corners_once() {
    let pieces = puzzle_pieces();
    let solved = Trial {
        order: [0, 5, 1, 2, 4, 3],
        polarities: [1, 0, 0, 1, 1, 0],
        rotations: [3, 1, 3, 1, 0, 3],
    };
    let mut grids = empty_grids();
    solved.add_to_grids(&pieces, &mut grids);
    for x in 0..4usize {
        for y in 0..4usize {
            for z in 0..4usize {
                let corner = x % 3 == 0 && y % 3 == 0 && z % 3 == 0;
                assert_eq!(grids[x][y][z], if corner { 0 } else { 1 });
            }
        }
    }
}

#[test]
fn score_does_not_depend_on_the_order_of_the_additions() {
    let pieces = puzzle_pieces();
    let trial = Trial {
        order: [3, 1, 4, 0, 5, 2],
        polarities: [1, 1, 0, 0, 1, 0],
        rotations: [2, 0, 1, 3, 3, 1],
    };
    let sequences: [[usize; 6]; 5] = [
        [0, 1, 2, 3, 4, 5],
        [5, 4, 3, 2, 1, 0],
        [1, 0, 3, 2, 5, 4],
        [2, 4, 0, 5, 1, 3],
        [3, 5, 1, 4, 0, 2],
    ];
    let mut reference = empty_grids();
    trial.add_to_grids(&pieces, &mut reference);
    for sequence in sequences.iter() {
        let mut grids = empty_grids();
        for &slot in sequence.iter() {
            let (direction, shift) = slot_of(slot);
            pieces[trial.order[slot]].add_to_grids(
                &mut grids,
                &direction,
                trial.polarities[slot],
                trial.rotations[slot],
                shift,
            );
        }
        assert_eq!(grids, reference);
        assert_eq!(count_grids(&grids), trial.odd_count(&pieces));
        assert_eq!(count_grids(&grids), 34);
    }
}

#[test]
fn three_slabs_at_most_meet_in_a_cell() {
    let heavy = Ruban::new([[[STACKABLE_MAX; 4]; 2]; 2]);
    let pieces = [
        Ruban::new([[[STACKABLE_MAX; 4]; 2]; 2]),
        Ruban::new([[[STACKABLE_MAX; 4]; 2]; 2]),
        Ruban::new([[[STACKABLE_MAX; 4]; 2]; 2]),
        Ruban::new([[[STACKABLE_MAX; 4]; 2]; 2]),
        Ruban::new([[[STACKABLE_MAX; 4]; 2]; 2]),
        heavy,
    ];
    let trial = Trial { order: [0, 1, 2, 3, 4, 5], polarities: [0; 6], rotations: [0; 6] };
    let mut grids = empty_grids();
    trial.add_to_grids(&pieces, &mut grids);
    let mut largest = 0;
    for x in 0..4 {
        for y in 0..4 {
            for z in 0..4 {
                largest = largest.max(grids[x][y][z]);
            }
        }
    }
    assert_eq!(largest, 255);
    assert_eq!(grids[1][1][1], 255);
    assert_eq!(grids[0][1][1], 170);
    assert_eq!(grids[0][0][1], 85);
    assert_eq!(grids[0][0][0], 0);
    // 8 corners hold 0, 24 cells on the edges hold 85, the 8 inner cells hold 255.
    assert_eq!(trial.odd_count(&pieces), 32);
}
