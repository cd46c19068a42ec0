//! The enumerator: one ply at a time, or a whole sub-search with caching.
//!
//! A task is a board with `depth` plies left. The current round ends when the search
//! reaches `transition_depth`; above it a task counts game outcomes, round outcomes and
//! tile landings, at or below it game outcomes only.
use vstd::prelude::*;
use crate::accumulators::{
    add_counts, add_tiles, counts_within, tiles_within, zero_counts, zero_tiles,
    PositionAccumulator, TileAccumulator,
};
use crate::board::{ranking, is_permutation, rolls_left, Board, BoardView, CamelOrder, Roll};
use crate::camel::BOARD_SIZE;
use crate::outcomes::{
    completions, game_counts, game_sum, landings, leaf_counts, lemma_completions_bound,
    lemma_game_bound, lemma_game_sum_bound, lemma_landings_bound, lemma_moves_valid,
    lemma_pow15_fits, lemma_pow15_grows, lemma_tile_bound, lemma_tile_bound_fits,
    lemma_tile_sum_bound, pow15, tile_bound, tile_counts, tile_sum, MAX_PLIES,
};
use crate::transposition::{GameTranspositionTable, RoundTranspositionTable};

verus! {

/// Rolls left in the round for a task `depth` plies deep.
pub open spec fn round_plies(depth: int, transition_depth: int) -> nat {
    if depth >= transition_depth {
        (depth - transition_depth) as nat
    } else {
        0
    }
}

/// Round counts of a task: its sub-search to the end of the round, or nothing once the
/// round is over.
pub open spec fn task_round(b: BoardView, depth: int, transition_depth: int) -> Seq<Seq<int>> {
    if depth >= transition_depth {
        game_counts(b, round_plies(depth, transition_depth))
    } else {
        zero_counts()
    }
}

/// Tile landings of a task: those of the rolls left in the round.
pub open spec fn task_tiles(b: BoardView, depth: int, transition_depth: int) -> Seq<int> {
    tile_counts(b, round_plies(depth, transition_depth))
}

/// Every cached game entry holds the game counts of its board and depth.
pub open spec fn game_table_sound(t: GameTranspositionTable) -> bool {
    &&& t.wf()
    &&& forall|k: u64| #[trigger]
        t@.contains_key(k) ==> t@[k].1@ == game_counts(t@[k].0@, t@[k].2 as nat)
}

/// Every cached round entry holds the three counts of its board and depth.
pub open spec fn round_table_sound(t: RoundTranspositionTable, transition_depth: int) -> bool {
    &&& t.wf()
    &&& forall|k: u64| #[trigger]
        t@.contains_key(k) ==> {
            let (b, v, d) = t@[k];
            &&& v.0@ == game_counts(b@, d as nat)
            &&& v.1@ == task_round(b@, d as int, transition_depth)
            &&& v.2@ == task_tiles(b@, d as int, transition_depth)
        }
}

/// Successors of `b` in the order of its legal rolls.
pub open spec fn successors_of(b: BoardView, boards: Seq<Board>) -> bool {
    &&& boards.len() == b.moves().len()
    &&& forall|i: int| 0 <= i < boards.len() ==> #[trigger] boards[i]@ == b.succ(b.moves()[i])
}

/// The ranking used when the search stops at a board that has not finished: its
/// current order stands as the outcome. This approximation is the only bias of a
/// solve within its depth.
pub fn terminal_node_heuristic(board: &Board) -> (r: CamelOrder)
    ensures
        r@ == ranking(board@.camels),
        is_permutation(r@),
{
    board.camel_order()
}

/// Ways to finish the round from `board`, by the number of camels still to roll.
pub fn terminal_round_states_from_board(board: &Board) -> (r: u64)
    ensures
        r == completions(board@.num_unrolled()),
{
    match board.num_unrolled() {
        1 => 3,
        2 => 18,
        3 => 162,
        4 => 1944,
        _ => 1,
    }
}

fn leaf_accumulator(board: &Board) -> (r: PositionAccumulator)
    ensures
        r@ == leaf_counts(board@),
{
    let order = terminal_node_heuristic(board);
    PositionAccumulator::from_order(&order)
}

/// One ply of the game search: the leaf's counts, or the successors to search.
pub fn calculate_game_step(board: &Board, depth: u8) -> (r: (PositionAccumulator, Option<Vec<Board>>))
    ensures
        r.1 is None <==> (depth == 0 || board@.is_terminal()),
        r.1 is None ==> r.0@ == leaf_counts(board@),
        r.1 matches Some(boards) ==> r.0@ == zero_counts() && successors_of(board@, boards@),
{
    if depth == 0 || board.is_terminal() {
        return (leaf_accumulator(board), None);
    }
    let moves = board.potential_moves();
    proof {
        lemma_moves_valid(board@);
    }
    let mut boards: Vec<Board> = Vec::new();
    for i in 0..moves.len()
        invariant
            moves@ == board@.moves(),
            !board@.is_terminal(),
            forall|k: int| 0 <= k < moves@.len() ==> crate::board::valid_roll(#[trigger] moves@[k]),
            boards@.len() == i,
            forall|j: int| 0 <= j < i ==> #[trigger] boards@[j]@ == board@.succ(moves@[j]),
    {
        let next = board.update(&moves[i]);
        boards.push(next);
    }
    (PositionAccumulator::new(), Some(boards))
}

/// One ply of the round search: the leaf's counts, or the landings of every roll and
/// the successors to search.
pub fn calculate_round_step(
    board: &Board,
    depth: u8,
) -> (r: (PositionAccumulator, PositionAccumulator, TileAccumulator, Option<Vec<Board>>))
    ensures
        r.3 is None <==> (depth == 0 || board@.is_terminal()),
        r.3 is None ==> r.0@ == leaf_counts(board@) && r.1@ == leaf_counts(board@) && r.2@
            == zero_tiles(),
        r.3 matches Some(boards) ==> r.0@ == zero_counts() && r.1@ == zero_counts() && r.2@
            == landings(board@, board@.moves()) && successors_of(board@, boards@),
{
    if depth == 0 || board.is_terminal() {
        let accum = leaf_accumulator(board);
        return (accum, accum, TileAccumulator::new(), None);
    }
    let moves = board.potential_moves();
    proof {
        lemma_moves_valid(board@);
        lemma_landings_bound(board@, board@.moves());
    }
    let mut tile_accumulator = TileAccumulator::new();
    let mut boards: Vec<Board> = Vec::new();
    for i in 0..moves.len()
        invariant
            moves@ == board@.moves(),
            moves@.len() <= 15,
            !board@.is_terminal(),
            forall|k: int| 0 <= k < moves@.len() ==> crate::board::valid_roll(#[trigger] moves@[k]),
            boards@.len() == i,
            forall|j: int| 0 <= j < i ==> #[trigger] boards@[j]@ == board@.succ(moves@[j]),
            tile_accumulator@ == landings(board@, moves@.take(i as int)),
    {
        let (next, target) = board.update_with_target(&moves[i]);
        let completed = terminal_round_states_from_board(&next);
        proof {
            lemma_landings_bound(board@, moves@.take(i as int));
            lemma_completions_bound(next@.num_unrolled());
            assert(moves@.take(i + 1).drop_last() =~= moves@.take(i as int));
        }
        if target < BOARD_SIZE {
            tile_accumulator.add_landings(target, completed);
        }
        assert(tile_accumulator@ =~= landings(board@, moves@.take(i + 1)));
        boards.push(next);
    }
    assert(moves@.take(moves@.len() as int) =~= moves@);
    (PositionAccumulator::new(), PositionAccumulator::new(), tile_accumulator, Some(boards))
}


/// Game counts of `board` searched `depth` plies deep, reusing and filling the cache.
pub fn calculate_game_recursive(
    board: &Board,
    depth: u8,
    transposition_table: &mut GameTranspositionTable,
) -> (r: PositionAccumulator)
    requires
        depth <= MAX_PLIES,
        game_table_sound(*old(transposition_table)),
    ensures
        r@ == game_counts(board@, depth as nat),
        game_table_sound(*final(transposition_table)),
    decreases depth,
{
    if let Some(game_positions) = transposition_table.check(board, depth) {
        return game_positions;
    }
    let (mut positions_accumulator, boards) = calculate_game_step(board, depth);
    if let Some(boards) = boards {
        let ghost moves = board@.moves();
        proof {
            lemma_moves_valid(board@);
            lemma_pow15_fits(depth as nat);
        }
        for i in 0..boards.len()
            invariant
                depth > 0,
                depth <= MAX_PLIES,
                !board@.is_terminal(),
                moves == board@.moves(),
                moves.len() <= 15,
                pow15(depth as nat) <= u128::MAX,
                successors_of(board@, boards@),
                positions_accumulator@ == game_sum(board@, moves.take(i as int), depth as nat),
                game_table_sound(*transposition_table),
        {
            let positions = calculate_game_recursive(&boards[i], depth - 1, transposition_table);
            proof {
                let p = pow15((depth - 1) as nat);
                lemma_game_sum_bound(board@, moves.take(i as int), depth as nat);
                lemma_game_bound(boards@[i as int]@, (depth - 1) as nat);
                assert((i + 1) * p <= 15 * p) by (nonlinear_arith)
                    requires
                        i + 1 <= 15,
                ;
                assert(i * p + p == (i + 1) * p) by (nonlinear_arith);
                assert forall|c: int, r: int| 0 <= c < 5 && 0 <= r < 5 implies positions_accumulator@[c][r]
                    + positions@[c][r] <= u128::MAX by {
                    assert(counts_within(positions_accumulator@, i * p));
                    assert(counts_within(positions@, p as int));
                }
                assert(moves.take(i + 1).drop_last() =~= moves.take(i as int));
            }
            positions_accumulator.add_assign(&positions);
        }
        assert(moves.take(boards@.len() as int) =~= moves);
    }
    transposition_table.update(board, depth, positions_accumulator);
    positions_accumulator
}

/// Game counts, round counts and tile landings of a task, reusing and filling the caches.
pub fn calculate_round_and_game_recursive(
    board: &Board,
    depth: u8,
    transition_depth: u8,
    round_transposition_table: &mut RoundTranspositionTable,
    game_transposition_table: &mut GameTranspositionTable,
) -> (r: (PositionAccumulator, PositionAccumulator, TileAccumulator))
    requires
        depth <= MAX_PLIES,
        depth <= transition_depth + 5,
        round_table_sound(*old(round_transposition_table), transition_depth as int),
        game_table_sound(*old(game_transposition_table)),
    ensures
        r.0@ == game_counts(board@, depth as nat),
        r.1@ == task_round(board@, depth as int, transition_depth as int),
        r.2@ == task_tiles(board@, depth as int, transition_depth as int),
        round_table_sound(*final(round_transposition_table), transition_depth as int),
        game_table_sound(*final(game_transposition_table)),
    decreases depth,
{
    if depth <= transition_depth {
        let game_positions = calculate_game_recursive(board, depth, game_transposition_table);
        let round_positions = if depth == transition_depth {
            leaf_accumulator(board)
        } else {
            PositionAccumulator::new()
        };
        return (game_positions, round_positions, TileAccumulator::new());
    }
    if let Some(accumulators) = round_transposition_table.check(board, depth) {
        return accumulators;
    }
    let (mut game_accumulator, mut round_accumulator, mut tile_accumulator, boards) =
        calculate_round_step(board, depth);
    if let Some(boards) = boards {
        let ghost moves = board@.moves();
        let ghost k = (depth - transition_depth) as nat;
        proof {
            lemma_moves_valid(board@);
            lemma_pow15_fits(depth as nat);
            lemma_pow15_grows(k, depth as nat);
            lemma_tile_bound_fits(k);
            lemma_landings_bound(board@, moves);
        }
        for i in 0..boards.len()
            invariant
                depth > transition_depth,
                depth <= MAX_PLIES,
                depth <= transition_depth + 5,
                k == depth - transition_depth,
                !board@.is_terminal(),
                moves == board@.moves(),
                moves.len() <= 15,
                pow15(depth as nat) <= u128::MAX,
                pow15(k) <= pow15(depth as nat),
                tile_bound(k) <= 1_600_000_000,
                tiles_within(landings(board@, moves), 15 * 1944int),
                successors_of(board@, boards@),
                game_accumulator@ == game_sum(board@, moves.take(i as int), depth as nat),
                round_accumulator@ == game_sum(board@, moves.take(i as int), k),
                tile_accumulator@ == add_tiles(landings(board@, moves), tile_sum(board@, moves.take(i as int), k)),
                round_table_sound(*round_transposition_table, transition_depth as int),
                game_table_sound(*game_transposition_table),
        {
            let (game_positions, round_positions, tiles) = calculate_round_and_game_recursive(
                &boards[i],
                depth - 1,
                transition_depth,
                round_transposition_table,
                game_transposition_table,
            );
            proof {
                let next = boards@[i as int]@;
                let p = pow15((depth - 1) as nat);
                let q = pow15((k - 1) as nat);
                let t = tile_bound((k - 1) as nat);
                lemma_game_sum_bound(board@, moves.take(i as int), depth as nat);
                lemma_game_sum_bound(board@, moves.take(i as int), k);
                lemma_tile_sum_bound(board@, moves.take(i as int), k);
                lemma_game_bound(next, (depth - 1) as nat);
                lemma_game_bound(next, (k - 1) as nat);
                lemma_tile_bound(next, (k - 1) as nat);
                assert((i + 1) * p <= 15 * p) by (nonlinear_arith)
                    requires
                        i + 1 <= 15,
                ;
                assert((i + 1) * q <= 15 * q) by (nonlinear_arith)
                    requires
                        i + 1 <= 15,
                ;
                assert((i + 1) * t <= 15 * t) by (nonlinear_arith)
                    requires
                        i + 1 <= 15,
                ;
                assert(i * p + p == (i + 1) * p) by (nonlinear_arith);
                assert(i * q + q == (i + 1) * q) by (nonlinear_arith);
                assert(i * t + t == (i + 1) * t) by (nonlinear_arith);
                assert(tile_bound(k) == 15 * (1944 + t));
                assert forall|c: int, r: int| 0 <= c < 5 && 0 <= r < 5 implies game_accumulator@[c][r]
                    + game_positions@[c][r] <= u128::MAX by {
                    assert(counts_within(game_accumulator@, i * p));
                    assert(counts_within(game_positions@, p as int));
                }
                assert forall|c: int, r: int| 0 <= c < 5 && 0 <= r < 5 implies round_accumulator@[c][r]
                    + round_positions@[c][r] <= u128::MAX by {
                    assert(counts_within(round_accumulator@, i * q));
                    assert(counts_within(round_positions@, q as int));
                }
                assert forall|j: int| 0 <= j < BOARD_SIZE implies tile_accumulator@[j] + tiles@[j]
                    <= u64::MAX by {
                    assert(tiles_within(tile_sum(board@, moves.take(i as int), k), i * t));
                    assert(tiles_within(tiles@, t as int));
                }
                assert(moves.take(i + 1).drop_last() =~= moves.take(i as int));
            }
            game_accumulator.add_assign(&game_positions);
            round_accumulator.add_assign(&round_positions);
            tile_accumulator.add_assign(&tiles);
            assert(tile_accumulator@ =~= add_tiles(
                landings(board@, moves),
                tile_sum(board@, moves.take(i + 1), k),
            ));
        }
        assert(moves.take(boards@.len() as int) =~= moves);
    }
    round_transposition_table.update(
        board,
        depth,
        (game_accumulator, round_accumulator, tile_accumulator),
    );
    (game_accumulator, round_accumulator, tile_accumulator)
}


/// Game counts of the boards `bs`, each searched `depth` plies deep.
pub open spec fn boards_game(bs: Seq<Board>, depth: nat) -> Seq<Seq<int>>
    decreases bs.len(),
{
    if bs.len() == 0 {
        zero_counts()
    } else {
        add_counts(boards_game(bs.drop_last(), depth), game_counts(bs.last()@, depth))
    }
}

/// Round counts of the tasks `bs`, each `depth` plies deep.
pub open spec fn boards_round(bs: Seq<Board>, depth: int, transition_depth: int) -> Seq<Seq<int>>
    decreases bs.len(),
{
    if bs.len() == 0 {
        zero_counts()
    } else {
        add_counts(
            boards_round(bs.drop_last(), depth, transition_depth),
            task_round(bs.last()@, depth, transition_depth),
        )
    }
}

/// Tile landings of the tasks `bs`, each `depth` plies deep.
pub open spec fn boards_tiles(bs: Seq<Board>, depth: int, transition_depth: int) -> Seq<int>
    decreases bs.len(),
{
    if bs.len() == 0 {
        zero_tiles()
    } else {
        add_tiles(
            boards_tiles(bs.drop_last(), depth, transition_depth),
            task_tiles(bs.last()@, depth, transition_depth),
        )
    }
}

proof fn lemma_successor_sums(b: BoardView, bs: Seq<Board>, n: int, depth: nat, transition_depth: int)
    requires
        successors_of(b, bs),
        0 <= n <= bs.len(),
        depth > 0,
        depth > transition_depth,
    ensures
        boards_game(bs.take(n), (depth - 1) as nat) == game_sum(b, b.moves().take(n), depth),
        boards_round(bs.take(n), depth - 1, transition_depth) == game_sum(
            b,
            b.moves().take(n),
            round_plies(depth as int, transition_depth),
        ),
        boards_tiles(bs.take(n), depth - 1, transition_depth) == tile_sum(
            b,
            b.moves().take(n),
            round_plies(depth as int, transition_depth),
        ),
    decreases n,
{
    let ms = b.moves();
    if n > 0 {
        lemma_successor_sums(b, bs, n - 1, depth, transition_depth);
        assert(bs.take(n).drop_last() =~= bs.take(n - 1));
        assert(ms.take(n).drop_last() =~= ms.take(n - 1));
        assert(bs.take(n).last() == bs[n - 1]);
    } else {
        assert(bs.take(0) =~= Seq::<Board>::empty());
        assert(ms.take(0) =~= Seq::<Roll>::empty());
    }
}

proof fn lemma_game_successor_sums(b: BoardView, bs: Seq<Board>, n: int, depth: nat)
    requires
        successors_of(b, bs),
        0 <= n <= bs.len(),
        depth > 0,
    ensures
        boards_game(bs.take(n), (depth - 1) as nat) == game_sum(b, b.moves().take(n), depth),
    decreases n,
{
    let ms = b.moves();
    if n > 0 {
        lemma_game_successor_sums(b, bs, n - 1, depth);
        assert(bs.take(n).drop_last() =~= bs.take(n - 1));
        assert(ms.take(n).drop_last() =~= ms.take(n - 1));
    } else {
        assert(bs.take(0) =~= Seq::<Board>::empty());
        assert(ms.take(0) =~= Seq::<Roll>::empty());
    }
}

proof fn lemma_no_round_below(bs: Seq<Board>, depth: int, transition_depth: int)
    requires
        depth < transition_depth,
    ensures
        boards_round(bs, depth, transition_depth) == zero_counts(),
        boards_tiles(bs, depth, transition_depth) == zero_tiles(),
    decreases bs.len(),
{
    if bs.len() > 0 {
        lemma_no_round_below(bs.drop_last(), depth, transition_depth);
        assert(add_counts(zero_counts(), zero_counts()) =~~= zero_counts());
        assert(add_tiles(zero_tiles(), zero_tiles()) =~= zero_tiles());
    }
}

/// Splitting a task into one ply and its successor tasks keeps every total: what the
/// ply counts, plus what the successors count one ply deeper, is what the task counts.
/// So the order in which tasks are taken, and by which worker, cannot change a result.
pub proof fn lemma_task_split(b: BoardView, bs: Seq<Board>, depth: nat, transition_depth: int)
    requires
        depth > 0,
        !b.is_terminal(),
        successors_of(b, bs),
    ensures
        boards_game(bs, (depth - 1) as nat) == game_counts(b, depth),
        depth > transition_depth ==> add_counts(zero_counts(), boards_round(bs, depth - 1, transition_depth))
            == task_round(b, depth as int, transition_depth),
        depth > transition_depth ==> add_tiles(landings(b, b.moves()), boards_tiles(bs, depth - 1, transition_depth))
            == task_tiles(b, depth as int, transition_depth),
{
    assert(bs.take(bs.len() as int) =~= bs);
    assert(b.moves().take(bs.len() as int) =~= b.moves());
    lemma_game_successor_sums(b, bs, bs.len() as int, depth);
    if depth > transition_depth {
        lemma_successor_sums(b, bs, bs.len() as int, depth, transition_depth);
        let k = round_plies(depth as int, transition_depth);
        assert(add_counts(zero_counts(), game_sum(b, b.moves(), k)) =~~= game_sum(b, b.moves(), k));
    }
}

/// What one task hands back: its own counts and the successor tasks, one ply deeper,
/// that it leaves for the shared queue.
pub struct TaskOutcome {
    pub game: PositionAccumulator,
    pub round: PositionAccumulator,
    pub tiles: TileAccumulator,
    pub next: Vec<Board>,
}

/// Works on one task. With `expand` it does a single ply and hands the successors
/// back, so that idle workers can take them; without, it searches the whole task.
/// Either way the outcome plus the counts of the successors is the task's count.
pub fn process_task(
    board: &Board,
    depth: u8,
    transition_depth: u8,
    expand: bool,
    round_transposition_table: &mut RoundTranspositionTable,
    game_transposition_table: &mut GameTranspositionTable,
) -> (r: TaskOutcome)
    requires
        depth <= MAX_PLIES,
        depth <= transition_depth + 5,
        round_table_sound(*old(round_transposition_table), transition_depth as int),
        game_table_sound(*old(game_transposition_table)),
    ensures
        round_table_sound(*final(round_transposition_table), transition_depth as int),
        game_table_sound(*final(game_transposition_table)),
        !expand ==> r.next@.len() == 0,
        r.next@.len() > 0 ==> depth > 0 && !board@.is_terminal() && successors_of(board@, r.next@),
        add_counts(r.game@, boards_game(r.next@, (depth - 1) as nat)) == game_counts(board@, depth as nat),
        add_counts(r.round@, boards_round(r.next@, depth - 1, transition_depth as int)) == task_round(
            board@,
            depth as int,
            transition_depth as int,
        ),
        add_tiles(r.tiles@, boards_tiles(r.next@, depth - 1, transition_depth as int)) == task_tiles(
            board@,
            depth as int,
            transition_depth as int,
        ),
{
    if !expand {
        let (game, round, tiles) = calculate_round_and_game_recursive(
            board,
            depth,
            transition_depth,
            round_transposition_table,
            game_transposition_table,
        );
        let next: Vec<Board> = Vec::new();
        assert(add_counts(game@, zero_counts()) =~~= game@);
        assert(add_counts(round@, zero_counts()) =~~= round@);
        assert(add_tiles(tiles@, zero_tiles()) =~= tiles@);
        return TaskOutcome { game, round, tiles, next };
    }
    if depth > transition_depth {
        let (game, round, tiles, boards) = calculate_round_step(board, depth);
        match boards {
            None => {
                let next: Vec<Board> = Vec::new();
                assert(add_counts(game@, zero_counts()) =~~= game@);
                assert(add_counts(round@, zero_counts()) =~~= round@);
                assert(add_tiles(tiles@, zero_tiles()) =~= tiles@);
                TaskOutcome { game, round, tiles, next }
            },
            Some(next) => {
                proof {
                    lemma_task_split(board@, next@, depth as nat, transition_depth as int);
                    assert(add_counts(game@, boards_game(next@, (depth - 1) as nat)) =~~= boards_game(
                        next@,
                        (depth - 1) as nat,
                    ));
                }
                TaskOutcome { game, round, tiles, next }
            },
        }
    } else {
        let (game, boards) = calculate_game_step(board, depth);
        let round = if depth == transition_depth {
            leaf_accumulator(board)
        } else {
            PositionAccumulator::new()
        };
        let tiles = TileAccumulator::new();
        match boards {
            None => {
                let next: Vec<Board> = Vec::new();
                assert(add_counts(game@, zero_counts()) =~~= game@);
                assert(add_counts(round@, zero_counts()) =~~= round@);
                assert(add_tiles(tiles@, zero_tiles()) =~= tiles@);
                TaskOutcome { game, round, tiles, next }
            },
            Some(next) => {
                proof {
                    lemma_task_split(board@, next@, depth as nat, transition_depth as int);
                    lemma_no_round_below(next@, depth - 1, transition_depth as int);
                    assert(add_counts(game@, boards_game(next@, (depth - 1) as nat)) =~~= boards_game(
                        next@,
                        (depth - 1) as nat,
                    ));
                    assert(add_counts(round@, zero_counts()) =~~= round@);
                    assert(add_tiles(tiles@, zero_tiles()) =~= tiles@);
                }
                TaskOutcome { game, round, tiles, next }
            },
        }
    }
}


/// Deepest search, in rounds, that the counters always hold.
pub const MAX_DEPTH: u8 = 6;

/// Entries each cache holds before it is emptied.
pub const CACHE_CAPACITY: u32 = 100_000;

/// Plies searched for the round odds of a solve `depth` rounds deep.
pub open spec fn round_rolls(b: BoardView, depth: nat) -> nat {
    if depth == 0 {
        0
    } else {
        rolls_left(b)
    }
}

/// Plies searched for a solve `depth` rounds deep: the rest of this round, then whole
/// rounds of five rolls.
pub open spec fn search_plies(b: BoardView, depth: nat) -> nat {
    if depth == 0 {
        0
    } else {
        rolls_left(b) + 5 * (depth - 1) as nat
    }
}

/// The plies to search and the depth at which the current round ends, for a solve
/// `depth` rounds deep.
pub fn plan_search(board: &Board, depth: u8) -> (r: (u8, u8))
    requires
        depth <= MAX_DEPTH,
    ensures
        r.0 == search_plies(board@, depth as nat),
        r.0 - r.1 == round_rolls(board@, depth as nat),
        r.1 <= r.0 <= MAX_PLIES,
        r.0 <= r.1 + 5,
{
    if depth == 0 {
        return (0, 0);
    }
    let rolls: u8 = if board.all_rolled() {
        5
    } else {
        board.num_unrolled()
    };
    let transition_depth: u8 = 5 * (depth - 1);
    (rolls + transition_depth, transition_depth)
}

/// Everything a solve counts: game outcomes, round outcomes and tile landings.
pub struct SolveCounts {
    pub game_positions: PositionAccumulator,
    pub round_positions: PositionAccumulator,
    pub tiles: TileAccumulator,
}

/// Counts every continuation of `board` for `depth` rounds, on one thread. A
/// `cache_capacity` of zero searches without the transposition tables.
pub fn solve_counts(board: &Board, depth: u8, cache_capacity: u32) -> (r: SolveCounts)
    requires
        depth <= MAX_DEPTH,
    ensures
        r.game_positions@ == game_counts(board@, search_plies(board@, depth as nat)),
        r.round_positions@ == game_counts(board@, round_rolls(board@, depth as nat)),
        r.tiles@ == tile_counts(board@, round_rolls(board@, depth as nat)),
{
    let (plies, transition_depth) = plan_search(board, depth);
    let mut round_table = RoundTranspositionTable::new(cache_capacity);
    let mut game_table = GameTranspositionTable::new(cache_capacity);
    let (game_positions, round_positions, tiles) = calculate_round_and_game_recursive(
        board,
        plies,
        transition_depth,
        &mut round_table,
        &mut game_table,
    );
    SolveCounts { game_positions, round_positions, tiles }
}

} // verus!
