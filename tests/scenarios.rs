use stockcamel::accumulators::{PositionAccumulator, TileAccumulator};
use stockcamel::board::{Board, Roll};
use stockcamel::calculate::{process_task, plan_search, solve_counts, SolveCounts, CACHE_CAPACITY};
use stockcamel::camel::create_camel;
use stockcamel::schedule::solve_counts_queued;
use stockcamel::transposition::{GameTranspositionTable, RoundTranspositionTable};

fn board_with(places: [(usize, usize); 5], oasis: [bool; 16], desert: [bool; 16]) -> Board {
    let mut camels = [0u8; 5];
    for (i, (tile, position)) in places.iter().enumerate() {
        camels[i] = create_camel(tile, position, &0);
    }
    Board::new(camels, oasis, desert)
}

fn start_board(oasis: [bool; 16], desert: [bool; 16]) -> Board {
    board_with([(0, 0), (0, 1), (0, 2), (0, 3), (0, 4)], oasis, desert)
}

fn odds(counts: &PositionAccumulator) -> [[f64; 5]; 5] {
    let total = counts.count_terminal() as f64;
    let mut odds = [[0.0; 5]; 5];
    for c in 0..5 {
        for r in 0..5 {
            odds[c][r] = counts.0[c][r] as f64 / total;
        }
    }
    odds
}

fn tile_odds(tiles: &TileAccumulator, round: &PositionAccumulator) -> [f64; 16] {
    let total = round.count_terminal() as f64;
    let mut odds = [0.0; 16];
    for i in 0..16 {
        odds[i] = tiles.0[i] as f64 / total;
    }
    odds
}

fn assert_rows_and_columns_sum_to_one(odds: &[[f64; 5]; 5]) {
    for c in 0..5 {
        let row: f64 = odds[c].iter().sum();
        assert!((row - 1.0).abs() < 1e-9);
    }
    for r in 0..5 {
        let column: f64 = (0..5).map(|c| odds[c][r]).sum();
        assert!((column - 1.0).abs() < 1e-9);
    }
}

#[test]
fn single_round_from_start_counts_every_continuation() {
    let board = start_board([false; 16], [false; 16]);
    let counts = solve_counts(&board, 1, CACHE_CAPACITY);
    assert_eq!(counts.round_positions.count_terminal(), 29160);
    assert_eq!(counts.game_positions.count_terminal(), 29160);
    assert_eq!(counts.game_positions.0, counts.round_positions.0);
    let round = odds(&counts.round_positions);
    assert_rows_and_columns_sum_to_one(&round);
    // Five rolls per round: the landings add up to five per continuation.
    let landed: u64 = counts.tiles.0.iter().sum();
    assert_eq!(landed, 5 * 29160);
    let tiles = tile_odds(&counts.tiles, &counts.round_positions);
    for i in 0..16 {
        assert!(tiles[i] >= 0.0 && tiles[i] <= 5.0);
    }
}

#[test]
fn desert_sends_camels_back_underneath() {
    let mut desert = [false; 16];
    desert[3] = true;
    let board = start_board([false; 16], desert);
    // The top camel rolls three: it lands on tile 2, alone.
    let next = board.update(&Roll { camel: 4, tiles: 3 });
    assert_eq!(next.camels[4], create_camel(&2, &0, &1));
    // The bottom camel rolls three: the whole stack goes to tile 2, underneath camel 4.
    let after = next.update(&Roll { camel: 0, tiles: 3 });
    assert_eq!(after.camels[0], create_camel(&2, &0, &1));
    assert_eq!(after.camels[3], create_camel(&2, &3, &0));
    assert_eq!(after.camels[4], create_camel(&2, &4, &1));
    let counts = solve_counts(&board, 1, CACHE_CAPACITY);
    assert_eq!(counts.round_positions.count_terminal(), 29160);
    // Landings are counted on the tile a roll aims at, before the desert sends the
    // stack back: tile 3 is counted, and no camel ever stands on it.
    let tiles = tile_odds(&counts.tiles, &counts.round_positions);
    assert!(tiles[3] > 0.0);
    let (_, target) = board.update_with_target(&Roll { camel: 4, tiles: 3 });
    assert_eq!(target, 3);
}

#[test]
fn oasis_pushes_forward_and_counts_the_intended_tile() {
    let mut oasis = [false; 16];
    oasis[2] = true;
    let board = start_board(oasis, [false; 16]);
    let (next, target) = board.update_with_target(&Roll { camel: 4, tiles: 2 });
    assert_eq!(target, 2);
    assert_eq!(next.camels[4], create_camel(&3, &0, &1));
    let counts = solve_counts(&board, 1, CACHE_CAPACITY);
    let tiles = tile_odds(&counts.tiles, &counts.round_positions);
    assert!(tiles[2] > 0.0);
}

#[test]
fn spread_board_favours_the_leader() {
    let board = board_with(
        [(0, 0), (5, 0), (10, 0), (13, 0), (14, 0)],
        [false; 16],
        [false; 16],
    );
    let counts = solve_counts(&board, 4, CACHE_CAPACITY);
    let game = odds(&counts.game_positions);
    assert_rows_and_columns_sum_to_one(&game);
    // The trailing camel almost never wins. The camel on tile 13 often lands on the
    // leader's back, so it is the favourite.
    assert!(game[0][0] < 0.01);
    assert!((game[3][0] - 0.5445).abs() < 5e-4);
    assert!((game[4][0] - 0.2129).abs() < 5e-4);
    assert!((game[2][0] - 0.2416).abs() < 5e-4);
}

#[test]
fn board_one_step_from_finish_ends_round_and_game_together() {
    let mut camels = [
        create_camel(&15, &0, &0),
        create_camel(&3, &0, &1),
        create_camel(&4, &0, &0),
        create_camel(&5, &0, &1),
        create_camel(&6, &0, &0),
    ];
    camels[1] = create_camel(&3, &0, &1);
    let board = Board { camels, oasis: [false; 16], desert: [false; 16] };
    let counts = solve_counts(&board, 2, CACHE_CAPACITY);
    assert_eq!(counts.round_positions.0, counts.game_positions.0);
    let round = odds(&counts.round_positions);
    assert_eq!(round[0][0], 1.0);
}

#[test]
fn deeper_search_keeps_round_odds() {
    // Two camels left to roll in this round.
    let camels = [
        create_camel(&4, &0, &1),
        create_camel(&4, &1, &0),
        create_camel(&6, &0, &1),
        create_camel(&7, &0, &0),
        create_camel(&7, &1, &1),
    ];
    let board = Board { camels, oasis: [false; 16], desert: [false; 16] };
    let one = solve_counts(&board, 1, CACHE_CAPACITY);
    let two = solve_counts(&board, 2, CACHE_CAPACITY);
    assert_eq!(one.round_positions.0, two.round_positions.0);
    assert_eq!(one.tiles.0, two.tiles.0);
    assert_ne!(one.game_positions.0, two.game_positions.0);
}

#[test]
fn cache_does_not_change_counts() {
    let mut desert = [false; 16];
    desert[5] = true;
    let mut oasis = [false; 16];
    oasis[8] = true;
    let board = board_with([(2, 0), (2, 1), (4, 0), (7, 0), (7, 1)], oasis, desert);
    let cached = solve_counts(&board, 1, CACHE_CAPACITY);
    let plain = solve_counts(&board, 1, 0);
    let small = solve_counts(&board, 1, 16);
    assert_eq!(cached.game_positions.0, plain.game_positions.0);
    assert_eq!(cached.round_positions.0, plain.round_positions.0);
    assert_eq!(cached.tiles.0, plain.tiles.0);
    assert_eq!(small.game_positions.0, plain.game_positions.0);
}

fn run_queue(board: &Board, depth: u8, expand_below: usize, lifo: bool) -> SolveCounts {
    let (plies, transition_depth) = plan_search(board, depth);
    let mut round_table = RoundTranspositionTable::new(CACHE_CAPACITY);
    let mut game_table = GameTranspositionTable::new(CACHE_CAPACITY);
    let mut queue: Vec<(Board, u8)> = vec![(*board, plies)];
    let mut totals = SolveCounts {
        game_positions: PositionAccumulator::new(),
        round_positions: PositionAccumulator::new(),
        tiles: TileAccumulator::new(),
    };
    while !queue.is_empty() {
        let (task, task_depth) = if lifo { queue.pop().unwrap() } else { queue.remove(0) };
        let expand = queue.len() < expand_below;
        let outcome = process_task(
            &task,
            task_depth,
            transition_depth,
            expand,
            &mut round_table,
            &mut game_table,
        );
        totals.game_positions.add_assign(&outcome.game);
        totals.round_positions.add_assign(&outcome.round);
        totals.tiles.add_assign(&outcome.tiles);
        for next in outcome.next {
            queue.push((next, task_depth - 1));
        }
    }
    totals
}

#[test]
fn splitting_work_between_workers_gives_identical_counts() {
    let mut camels = [
        create_camel(&1, &0, &1),
        create_camel(&1, &1, &0),
        create_camel(&3, &0, &1),
        create_camel(&6, &0, &0),
        create_camel(&6, &1, &1),
    ];
    camels[0] = create_camel(&1, &0, &1);
    let board = Board { camels, oasis: [false; 16], desert: [false; 16] };
    let whole = solve_counts(&board, 2, CACHE_CAPACITY);
    for (expand_below, lifo) in [(0, true), (1, true), (8, false), (40, true), (200, false)] {
        let split = run_queue(&board, 2, expand_below, lifo);
        assert_eq!(split.game_positions.0, whole.game_positions.0);
        assert_eq!(split.round_positions.0, whole.round_positions.0);
        assert_eq!(split.tiles.0, whole.tiles.0);
    }
}

#[test]
fn queued_scheduler_matches_whole_search() {
    let mut desert = [false; 16];
    desert[4] = true;
    let board = board_with([(0, 0), (0, 1), (1, 0), (2, 0), (2, 1)], [false; 16], desert);
    let whole = solve_counts(&board, 1, CACHE_CAPACITY);
    for expand_below in [0, 1, 4, 64] {
        let queued = solve_counts_queued(&board, 1, CACHE_CAPACITY, expand_below);
        assert_eq!(queued.game_positions.0, whole.game_positions.0);
        assert_eq!(queued.round_positions.0, whole.round_positions.0);
        assert_eq!(queued.tiles.0, whole.tiles.0);
    }
    assert_eq!(whole.round_positions.count_terminal(), 29160);
}
