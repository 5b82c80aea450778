use ruban_puzzle::grid::{count_grids, empty_grids};
use ruban_puzzle::puzzle::{puzzle_pieces, solve, TARGET};
use ruban_puzzle::search::{
    all_orders, search, search_order, search_orders, POLARITY_CHOICES, ROTATION_CHOICES,
};
use ruban_puzzle::trial::{polarities_of, rotations_of, slot_of, Trial};

#[test]
fn all_orders_lists_the_permutations_in_dictionary_order() {
    let orders = all_orders();
    assert_eq!(orders.len(), 720);
    assert_eq!(orders[0], vec![0, 1, 2, 3, 4, 5]);
    assert_eq!(orders[1], vec![0, 1, 2, 3, 5, 4]);
    assert_eq!(orders[2], vec![0, 1, 2, 4, 3, 5]);
    assert_eq!(orders[97], vec![0, 5, 1, 2, 4, 3]);
    assert_eq!(orders[719], vec![5, 4, 3, 2, 1, 0]);
    for order in orders.iter() {
        assert_eq!(order.len(), 6);
        for piece in 0..6 {
            assert_eq!(order.iter().filter(|&&entry| entry == piece).count(), 1);
        }
    }
    for pair in orders.windows(2) {
        assert!(pair[0] < pair[1]);
    }
}

#[test]
fn choices_number_the_polarities_and_the_rotations() {
    assert_eq!(POLARITY_CHOICES, 64);
    assert_eq!(ROTATION_CHOICES, 4096);
    assert_eq!(polarities_of(POLARITY_CHOICES - 1), [1; 6]);
    assert_eq!(rotations_of(ROTATION_CHOICES - 1), [3; 6]);
}

#[test]
fn search_order_finds_the_first_trial_of_the_order() {
    let pieces = puzzle_pieces();
    let found = search_order(&pieces, &vec![0, 5, 1, 2, 4, 3], TARGET);
    let trial = found.expect("this order holds a solution");
    assert_eq!(trial.order, [0, 5, 1, 2, 4, 3]);
    assert_eq!(trial.polarities, polarities_of(25));
    assert_eq!(trial.rotations, rotations_of(3191));
    assert_eq!(trial.odd_count(&pieces), TARGET);
}

#[test]
fn search_order_returns_nothing_where_no_trial_scores() {
    let pieces = puzzle_pieces();
    assert!(search_order(&pieces, &vec![0, 1, 2, 3, 4, 5], TARGET).is_none());
    assert!(search_order(&pieces, &vec![0, 5, 1, 2, 4, 3], 64).is_none());
}

#[test]
fn search_order_takes_the_first_of_several() {
    let pieces = puzzle_pieces();
    // The trial with no mirror and no turn comes first and scores 36.
    let found = search_order(&pieces, &vec![0, 1, 2, 3, 4, 5], 36);
    let trial = found.expect("the first trial scores 36");
    assert_eq!(trial.order, [0, 1, 2, 3, 4, 5]);
    assert_eq!(trial.polarities, [0; 6]);
    assert_eq!(trial.rotations, [0; 6]);
}

#[test]
fn search_order_accepts_an_order_that_repeats_a_piece() {
    let pieces = puzzle_pieces();
    let order = vec![3, 3, 3, 3, 3, 3];
    let first = Trial { order: [3; 6], polarities: [0; 6], rotations: [0; 6] };
    let score = first.odd_count(&pieces);
    let found = search_order(&pieces, &order, score).expect("the first trial scores it");
    assert_eq!(found.order, [3; 6]);
    assert_eq!(found.polarities, [0; 6]);
    assert_eq!(found.rotations, [0; 6]);
}

#[test]
fn search_orders_walks_the_list_in_order() {
    let pieces = puzzle_pieces();
    let orders = vec![
        vec![0, 1, 2, 3, 4, 5],
        vec![5, 4, 3, 2, 1, 0],
        vec![0, 5, 1, 2, 4, 3],
        vec![0, 1, 2, 3, 4, 5],
    ];
    let first = Trial { order: [5, 4, 3, 2, 1, 0], polarities: [0; 6], rotations: [0; 6] };
    let score = first.odd_count(&pieces);
    assert_ne!(score, 36);
    let found = search_orders(&pieces, &orders, score).expect("a trial scores it");
    if search_order(&pieces, &orders[0], score).is_none() {
        assert_eq!(found.order, [5, 4, 3, 2, 1, 0]);
        assert_eq!(found.polarities, [0; 6]);
        assert_eq!(found.rotations, [0; 6]);
    } else {
        assert_eq!(found.order, [0, 1, 2, 3, 4, 5]);
    }
    let found = search_orders(&pieces, &orders, 36).expect("the very first trial scores 36");
    assert_eq!(found.order, [0, 1, 2, 3, 4, 5]);
    assert_eq!(found.polarities, [0; 6]);
}

#[test]
fn search_orders_returns_nothing_for_an_empty_list() {
    let pieces = puzzle_pieces();
    assert!(search_orders(&pieces, &Vec::new(), TARGET).is_none());
    assert!(search_orders(&pieces, &vec![vec![0, 1, 2, 3, 4, 5]], TARGET).is_none());
}

#[test]
fn search_skips_the_trial_with_no_turn_and_no_mirror() {
    let pieces = puzzle_pieces();
    let first = Trial { order: [0, 1, 2, 3, 4, 5], polarities: [0; 6], rotations: [0; 6] };
    assert_ne!(first.odd_count(&pieces), TARGET);
    let found = search(&pieces, TARGET).expect("the puzzle has a solution");
    assert_ne!(found.order, first.order);
    assert_eq!(found.odd_count(&pieces), TARGET);
}

#[test]
fn search_returns_nothing_when_no_trial_scores() {
    let pieces = puzzle_pieces();
    // No slab reaches a corner of the cube, so no trial makes all 64 cells odd.
    assert!(search(&pieces, 64).is_none());
}

#[test]
fn search_orders_returns_nothing_when_no_trial_of_the_list_scores() {
    let pieces = puzzle_pieces();
    let orders = all_orders();
    assert!(search_orders(&pieces, &orders[..97].to_vec(), TARGET).is_none());
    assert!(search_orders(&pieces, &orders[..5].to_vec(), 57).is_none());
    let found = search_orders(&pieces, &orders[..98].to_vec(), TARGET);
    let trial = found.expect("the last order of the list holds a solution");
    assert_eq!(trial.order, [0, 5, 1, 2, 4, 3]);
}

#[test]
fn search_order_numbers_the_first_trial_of_each_score() {
    let pieces = puzzle_pieces();
    let order = vec![2, 0, 5, 1, 3, 4];
    let expected: [(u8, u64, u64); 8] = [
        (34, 0, 0),
        (32, 0, 1),
        (30, 0, 5),
        (40, 0, 911),
        (44, 0, 2931),
        (20, 8, 3973),
        (46, 18, 2375),
        (18, 41, 3206),
    ];
    for (target, polarity, rotation) in expected {
        let found = search_order(&pieces, &order, target).expect("a trial scores the target");
        assert_eq!(found.order, [2, 0, 5, 1, 3, 4]);
        assert_eq!(found.polarities, polarities_of(polarity));
        assert_eq!(found.rotations, rotations_of(rotation));
        assert_eq!(found.odd_count(&pieces), target);
    }
    assert!(search_order(&pieces, &order, 50).is_none());
    assert!(search_order(&pieces, &order, 33).is_none());
}

#[test]
fn search_order_passes_over_every_earlier_trial() {
    let pieces = puzzle_pieces();
    let slots = [2, 0, 5, 1, 3, 4];
    let found = search_order(&pieces, &slots.to_vec(), 40).expect("a trial scores 40");
    assert_eq!(found.rotations, rotations_of(911));
    for rotation in 0..911 {
        let earlier =
            Trial { order: slots, polarities: [0; 6], rotations: rotations_of(rotation) };
        assert_ne!(earlier.odd_count(&pieces), 40);
    }
}

#[test]
fn full_search_finds_a_setting_that_scores_the_target() {
    let pieces = puzzle_pieces();
    let found = solve();
    let trial = found.expect("the puzzle has a solution");
    assert_eq!(trial.order, [0, 5, 1, 2, 4, 3]);
    assert_eq!(trial.polarities, [1, 0, 0, 1, 1, 0]);
    assert_eq!(trial.rotations, [3, 1, 3, 1, 0, 3]);
    let mut sum = empty_grids();
    for slot in 0..6 {
        let (direction, shift) = slot_of(slot);
        let placed = pieces[trial.order[slot]].get_grids(
            &direction,
            trial.polarities[slot],
            trial.rotations[slot],
            shift,
        );
        for x in 0..4 {
            for y in 0..4 {
                for z in 0..4 {
                    sum[x][y][z] += placed[x][y][z];
                }
            }
        }
    }
    assert_eq!(count_grids(&sum), TARGET);
    assert_eq!(count_grids(&sum), 56);
}
