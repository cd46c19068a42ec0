use stockcamel::accumulators::{PositionAccumulator, TileAccumulator};
use stockcamel::board::{Board, Roll};
use stockcamel::calculate::{
    calculate_game_step, calculate_round_step, solve_counts, terminal_node_heuristic,
    terminal_round_states_from_board, CACHE_CAPACITY,
};
use stockcamel::camel::{
    camel_has_finished, camel_has_rolled, camel_position, camel_roll, camel_tile,
    camel_tile_and_position, create_camel, set_roll_false, set_roll_true, update_camel,
};
use stockcamel::transposition::{same_board, GameTranspositionTable, RoundTranspositionTable};

fn board_of(places: [(usize, usize, u8); 5]) -> Board {
    let mut camels = [0u8; 5];
    for (i, (tile, position, rolled)) in places.iter().enumerate() {
        camels[i] = create_camel(tile, position, rolled);
    }
    Board { camels, oasis: [false; 16], desert: [false; 16] }
}

#[test]
fn camel_bytes_pack_tile_position_and_roll() {
    let camel = create_camel(&7, &3, &1);
    assert_eq!(camel, ((7 * 5 + 3) * 2 + 1) as u8);
    assert_eq!(camel_tile(&camel), 7);
    assert_eq!(camel_position(&camel), 3);
    assert_eq!(camel_tile_and_position(&camel), (7, 3));
    assert!(camel_has_rolled(&camel));
    assert_eq!(camel_roll(&camel), 1);
    assert!(!camel_has_finished(&camel));
    assert!(camel_has_finished(&create_camel(&16, &0, &0)));
    let cleared = set_roll_false(&camel);
    assert!(!camel_has_rolled(&cleared));
    assert_eq!(camel_tile_and_position(&cleared), (7, 3));
    assert_eq!(set_roll_true(&cleared), camel);
    let moved = update_camel(&camel, &9, &0);
    assert_eq!(camel_tile_and_position(&moved), (9, 0));
    assert!(camel_has_rolled(&moved));
}

#[test]
fn new_board_clears_rolled_bits() {
    let camels = [
        create_camel(&0, &0, &1),
        create_camel(&0, &1, &0),
        create_camel(&2, &0, &1),
        create_camel(&3, &0, &1),
        create_camel(&3, &1, &1),
    ];
    let board = Board::new(camels, [false; 16], [false; 16]);
    assert_eq!(board.num_unrolled(), 5);
    assert!(!board.all_rolled());
    assert_eq!(board.potential_moves().len(), 15);
    assert!(board.is_well_formed());
}

#[test]
fn rolled_camels_leave_the_round() {
    let board = board_of([(0, 0, 1), (0, 1, 0), (2, 0, 1), (3, 0, 0), (3, 1, 1)]);
    assert_eq!(board.num_unrolled(), 2);
    let moves = board.potential_moves();
    assert_eq!(moves.len(), 6);
    let camels: Vec<usize> = moves.iter().map(|m| m.camel).collect();
    assert_eq!(camels, vec![1, 1, 1, 3, 3, 3]);
    let tiles: Vec<u8> = moves.iter().map(|m| m.tiles).collect();
    assert_eq!(tiles, vec![1, 2, 3, 1, 2, 3]);
    // Once every camel has rolled, all five may roll again.
    let all = board_of([(0, 0, 1), (0, 1, 1), (2, 0, 1), (3, 0, 1), (3, 1, 1)]);
    assert!(all.all_rolled());
    assert_eq!(all.num_unrolled(), 0);
    assert_eq!(all.potential_moves().len(), 15);
}

#[test]
fn moving_stack_lands_on_top() {
    let board = board_of([(0, 0, 0), (0, 1, 0), (0, 2, 0), (2, 0, 0), (2, 1, 0)]);
    // Camel 1 carries camel 2 onto tile 2, above camels 3 and 4.
    let next = board.update(&Roll { camel: 1, tiles: 2 });
    assert_eq!(camel_tile_and_position(&next.camels[0]), (0, 0));
    assert_eq!(camel_tile_and_position(&next.camels[1]), (2, 2));
    assert_eq!(camel_tile_and_position(&next.camels[2]), (2, 3));
    assert_eq!(camel_tile_and_position(&next.camels[3]), (2, 0));
    assert_eq!(camel_tile_and_position(&next.camels[4]), (2, 1));
    assert!(camel_has_rolled(&next.camels[1]));
    assert!(!camel_has_rolled(&next.camels[2]));
    assert!(next.is_well_formed());
}

#[test]
fn desert_next_door_sends_stack_under_its_own_tile() {
    let mut board = board_of([(4, 0, 0), (4, 1, 0), (4, 2, 0), (9, 0, 0), (10, 0, 0)]);
    board.desert[5] = true;
    // Camel 1 and camel 2 go to tile 5, back to tile 4, beneath camel 0.
    let next = board.update(&Roll { camel: 1, tiles: 1 });
    assert_eq!(camel_tile_and_position(&next.camels[1]), (4, 0));
    assert_eq!(camel_tile_and_position(&next.camels[2]), (4, 1));
    assert_eq!(camel_tile_and_position(&next.camels[0]), (4, 2));
    assert!(next.is_well_formed());
}

#[test]
fn crossing_the_finish_ends_the_game() {
    let board = board_of([(14, 0, 0), (14, 1, 0), (3, 0, 0), (12, 0, 0), (14, 2, 0)]);
    assert!(!board.is_terminal());
    let (next, target) = board.update_with_target(&Roll { camel: 1, tiles: 3 });
    assert_eq!(target, 17);
    assert!(next.is_terminal());
    assert_eq!(camel_tile_and_position(&next.camels[1]), (16, 0));
    assert_eq!(camel_tile_and_position(&next.camels[4]), (16, 1));
    assert_eq!(camel_tile_and_position(&next.camels[0]), (14, 0));
    assert_eq!(next.camel_order(), [4, 1, 0, 3, 2]);
    // An oasis on the last tile pushes past the finish too.
    let mut oasis_board = board_of([(13, 0, 0), (1, 0, 0), (2, 0, 0), (3, 0, 0), (4, 0, 0)]);
    oasis_board.oasis[15] = true;
    let pushed = oasis_board.update(&Roll { camel: 0, tiles: 2 });
    assert!(pushed.is_terminal());
}

#[test]
fn last_roll_of_a_round_clears_every_bit() {
    let board = board_of([(0, 0, 1), (1, 0, 1), (2, 0, 0), (3, 0, 1), (4, 0, 1)]);
    let next = board.update(&Roll { camel: 2, tiles: 1 });
    assert_eq!(next.num_unrolled(), 5);
    assert!(!next.all_rolled());
    assert_eq!(terminal_round_states_from_board(&next), 1);
}

#[test]
fn camel_order_ranks_by_tile_then_height() {
    let board = board_of([(3, 0, 0), (3, 1, 1), (9, 0, 0), (0, 0, 0), (9, 1, 0)]);
    assert_eq!(board.camel_order(), [4, 2, 1, 0, 3]);
    assert_eq!(terminal_node_heuristic(&board), [4, 2, 1, 0, 3]);
    let start = board_of([(0, 0, 0), (0, 1, 0), (0, 2, 0), (0, 3, 0), (0, 4, 0)]);
    assert_eq!(start.camel_order(), [4, 3, 2, 1, 0]);
}

#[test]
fn round_completions_by_camels_left() {
    let mut places = [(0, 0, 1), (1, 0, 1), (2, 0, 1), (3, 0, 1), (4, 0, 1)];
    let expected = [1u64, 3, 18, 162, 1944];
    for unrolled in 1..5 {
        places[unrolled - 1].2 = 0;
        let board = board_of(places);
        assert_eq!(board.num_unrolled() as usize, unrolled);
        assert_eq!(terminal_round_states_from_board(&board), expected[unrolled]);
    }
}

#[test]
fn hash_is_canonical() {
    let mut board = board_of([(0, 0, 0), (0, 1, 0), (2, 0, 1), (3, 0, 0), (5, 0, 0)]);
    board.oasis[0] = true;
    board.oasis[9] = true;
    board.desert[7] = true;
    let bytes = board.hash();
    assert_eq!(&bytes[0..5], &board.camels[..]);
    assert_eq!(bytes[5], 0b1000_0000);
    assert_eq!(bytes[6], 0b0100_0000);
    assert_eq!(bytes[7], 0b0000_0001);
    assert_eq!(bytes[8], 0);
    let copy = board;
    assert_eq!(copy.hash(), bytes);
    assert!(same_board(&copy, &board));
    let mut other = board;
    other.desert[7] = false;
    assert_ne!(other.hash(), bytes);
    assert!(!same_board(&other, &board));
}

#[test]
fn malformed_boards_are_recognised() {
    let gap = board_of([(0, 0, 0), (0, 2, 0), (1, 0, 0), (2, 0, 0), (3, 0, 0)]);
    assert!(!gap.is_well_formed());
    let shared = board_of([(0, 0, 0), (0, 0, 0), (1, 0, 0), (2, 0, 0), (3, 0, 0)]);
    assert!(!shared.is_well_formed());
    let mut both = board_of([(0, 0, 0), (1, 0, 0), (2, 0, 0), (3, 0, 0), (4, 0, 0)]);
    assert!(both.is_well_formed());
    both.oasis[6] = true;
    both.desert[6] = true;
    assert!(!both.is_well_formed());
}

#[test]
fn steps_stop_at_leaves_and_expand_otherwise() {
    let board = board_of([(0, 0, 0), (0, 1, 0), (0, 2, 0), (0, 3, 0), (0, 4, 0)]);
    let (leaf, none) = calculate_game_step(&board, 0);
    assert!(none.is_none());
    assert_eq!(leaf.count_terminal(), 1);
    assert_eq!(leaf.0[4][0], 1);
    let (zero, boards) = calculate_game_step(&board, 3);
    assert_eq!(zero.count_terminal(), 0);
    assert_eq!(boards.unwrap().len(), 15);
    let (_, _, tiles, boards) = calculate_round_step(&board, 5);
    assert_eq!(boards.unwrap().len(), 15);
    // Each of the fifteen rolls lands once per way to finish the round: 4! * 3^4.
    assert_eq!(tiles.0[1] + tiles.0[2] + tiles.0[3], 15 * 1944);
    assert_eq!(tiles.0[1], 5 * 1944);
}

#[test]
fn accumulators_add_and_count() {
    let first = PositionAccumulator::from_order(&[2, 0, 1, 4, 3]);
    assert_eq!(first.0[2][0], 1);
    assert_eq!(first.0[3][4], 1);
    assert_eq!(first.count_terminal(), 1);
    let second = PositionAccumulator::from_order(&[0, 2, 1, 3, 4]);
    let sum = first.add(&second);
    assert_eq!(sum.0[2][0], 1);
    assert_eq!(sum.0[0][0], 1);
    assert_eq!(sum.0[1][2], 2);
    assert_eq!(sum.count_terminal(), 2);
    let mut tiles = TileAccumulator::new();
    tiles.add_landings(3, 18);
    let mut more = TileAccumulator::new();
    more.add_landings(3, 2);
    more.add_landings(15, 1);
    tiles.add_assign(&more);
    assert_eq!(tiles.0[3], 20);
    assert_eq!(tiles.0[15], 1);
}

#[test]
fn transposition_table_answers_only_deep_enough_entries() {
    let board = board_of([(0, 0, 0), (0, 1, 0), (2, 0, 1), (3, 0, 0), (5, 0, 0)]);
    let mut table = GameTranspositionTable::new(2);
    assert!(table.check(&board, 3).is_none());
    let counts = PositionAccumulator::from_order(&board.camel_order());
    table.update(&board, 3, counts);
    assert_eq!(table.check(&board, 3).unwrap().0, counts.0);
    assert!(table.check(&board, 2).is_none());
    let mut other_terrain = board;
    other_terrain.oasis[4] = true;
    assert!(table.check(&other_terrain, 3).is_none());
    // A full table starts over.
    let next = board.update(&Roll { camel: 0, tiles: 1 });
    table.update(&next, 2, counts);
    table.update(&next, 1, counts);
    assert!(table.check(&board, 3).is_none());
    assert!(table.check(&next, 1).is_some());
    // With no capacity nothing is kept.
    let mut off = RoundTranspositionTable::new(0);
    off.update(&board, 1, (counts, counts, TileAccumulator::new()));
    assert!(off.check(&board, 1).is_none());
}

#[test]
fn round_outcomes_follow_camels_left_to_roll() {
    // Three camels left to roll, far from the finish: 3! * 3^3 outcomes, three landings each.
    let board = board_of([(0, 0, 1), (0, 1, 0), (2, 0, 0), (4, 0, 1), (5, 0, 0)]);
    let counts = solve_counts(&board, 1, CACHE_CAPACITY);
    assert_eq!(counts.round_positions.count_terminal(), 162);
    let landed: u64 = counts.tiles.0.iter().sum();
    assert_eq!(landed, 3 * 162);
    for c in 0..5 {
        let row: u128 = counts.round_positions.0[c].iter().sum();
        assert_eq!(row, 162);
    }
}

#[test]
fn swapping_two_camels_swaps_their_odds() {
    let board = board_of([(0, 0, 0), (1, 0, 0), (1, 1, 0), (4, 0, 0), (6, 0, 0)]);
    let mut swapped = board;
    swapped.camels.swap(1, 3);
    let counts = solve_counts(&board, 1, CACHE_CAPACITY);
    let other = solve_counts(&swapped, 1, CACHE_CAPACITY);
    assert_eq!(counts.round_positions.0[1], other.round_positions.0[3]);
    assert_eq!(counts.round_positions.0[3], other.round_positions.0[1]);
    assert_eq!(counts.round_positions.0[0], other.round_positions.0[0]);
    assert_eq!(counts.tiles.0, other.tiles.0);
}
