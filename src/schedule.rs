//! The shared-queue scheduler on one thread: take a task, expand it one ply while the
//! queue is short so that others could help, search it whole otherwise. The worker
//! pool runs the same steps on many threads.
use vstd::prelude::*;
use crate::accumulators::{
    add_counts, add_tiles, counts_within, tiles_within, zero_counts, zero_tiles,
    PositionAccumulator, TileAccumulator,
};
use crate::board::{Board, BoardView, Roll};
use crate::calculate::{
    boards_game, boards_round, boards_tiles, game_table_sound, plan_search, process_task,
    round_plies, round_rolls, round_table_sound, search_plies, successors_of, task_round,
    task_tiles, SolveCounts,
};
use crate::outcomes::{
    game_counts, lemma_game_bound, lemma_pow15_fits, lemma_pow15_grows, lemma_tile_bound,
    lemma_tile_bound_fits, pow15, tile_bound, tile_counts, MAX_PLIES,
};
use crate::transposition::{GameTranspositionTable, RoundTranspositionTable};

verus! {

/// Boards a search visits below a task, the task's own board included.
pub open spec fn nodes(b: BoardView, depth: nat) -> nat
    decreases depth, b.moves().len() + 1,
{
    if depth == 0 || b.is_terminal() {
        1
    } else {
        1 + nodes_sum(b, b.moves(), depth)
    }
}

pub open spec fn nodes_sum(b: BoardView, ms: Seq<Roll>, depth: nat) -> nat
    decreases depth, ms.len(),
{
    if depth == 0 || ms.len() == 0 {
        0
    } else {
        nodes_sum(b, ms.drop_last(), depth) + nodes(b.succ(ms.last()), (depth - 1) as nat)
    }
}

pub open spec fn boards_nodes(bs: Seq<Board>, depth: nat) -> nat
    decreases bs.len(),
{
    if bs.len() == 0 {
        0
    } else {
        boards_nodes(bs.drop_last(), depth) + nodes(bs.last()@, depth)
    }
}

/// The game counts still owed by the queued tasks `(board, plies left)`.
pub open spec fn queue_game(q: Seq<(Board, u8)>) -> Seq<Seq<int>>
    decreases q.len(),
{
    if q.len() == 0 {
        zero_counts()
    } else {
        add_counts(queue_game(q.drop_last()), game_counts(q.last().0@, q.last().1 as nat))
    }
}

pub open spec fn queue_round(q: Seq<(Board, u8)>, transition_depth: int) -> Seq<Seq<int>>
    decreases q.len(),
{
    if q.len() == 0 {
        zero_counts()
    } else {
        add_counts(
            queue_round(q.drop_last(), transition_depth),
            task_round(q.last().0@, q.last().1 as int, transition_depth),
        )
    }
}

pub open spec fn queue_tiles(q: Seq<(Board, u8)>, transition_depth: int) -> Seq<int>
    decreases q.len(),
{
    if q.len() == 0 {
        zero_tiles()
    } else {
        add_tiles(
            queue_tiles(q.drop_last(), transition_depth),
            task_tiles(q.last().0@, q.last().1 as int, transition_depth),
        )
    }
}

pub open spec fn queue_nodes(q: Seq<(Board, u8)>) -> nat
    decreases q.len(),
{
    if q.len() == 0 {
        0
    } else {
        queue_nodes(q.drop_last()) + nodes(q.last().0@, q.last().1 as nat)
    }
}

/// The tasks for the boards `bs`, each with `depth` plies left.
pub open spec fn tasks_of(bs: Seq<Board>, depth: u8) -> Seq<(Board, u8)> {
    Seq::new(bs.len(), |i: int| (bs[i], depth))
}

proof fn lemma_successor_nodes(b: BoardView, bs: Seq<Board>, n: int, depth: nat)
    requires
        successors_of(b, bs),
        0 <= n <= bs.len(),
        depth > 0,
    ensures
        boards_nodes(bs.take(n), (depth - 1) as nat) == nodes_sum(b, b.moves().take(n), depth),
    decreases n,
{
    let ms = b.moves();
    if n > 0 {
        lemma_successor_nodes(b, bs, n - 1, depth);
        assert(bs.take(n).drop_last() =~= bs.take(n - 1));
        assert(ms.take(n).drop_last() =~= ms.take(n - 1));
    } else {
        assert(bs.take(0) =~= Seq::<Board>::empty());
        assert(ms.take(0) =~= Seq::<Roll>::empty());
    }
}

proof fn lemma_push_tasks(q: Seq<(Board, u8)>, bs: Seq<Board>, depth: u8, transition_depth: int)
    ensures
        queue_game(q + tasks_of(bs, depth)) == add_counts(queue_game(q), boards_game(bs, depth as nat)),
        queue_round(q + tasks_of(bs, depth), transition_depth) == add_counts(
            queue_round(q, transition_depth),
            boards_round(bs, depth as int, transition_depth),
        ),
        queue_tiles(q + tasks_of(bs, depth), transition_depth) == add_tiles(
            queue_tiles(q, transition_depth),
            boards_tiles(bs, depth as int, transition_depth),
        ),
        queue_nodes(q + tasks_of(bs, depth)) == queue_nodes(q) + boards_nodes(bs, depth as nat),
    decreases bs.len(),
{
    let all = q + tasks_of(bs, depth);
    if bs.len() == 0 {
        assert(all =~= q);
        assert(add_counts(queue_game(q), zero_counts()) =~~= queue_game(q));
        assert(add_counts(queue_round(q, transition_depth), zero_counts()) =~~= queue_round(
            q,
            transition_depth,
        ));
        assert(add_tiles(queue_tiles(q, transition_depth), zero_tiles()) =~= queue_tiles(
            q,
            transition_depth,
        ));
    } else {
        lemma_push_tasks(q, bs.drop_last(), depth, transition_depth);
        assert(all.drop_last() =~= q + tasks_of(bs.drop_last(), depth));
        assert(all.last() == (bs.last(), depth));
        let g = queue_game(q);
        let gb = boards_game(bs.drop_last(), depth as nat);
        let gl = game_counts(bs.last()@, depth as nat);
        assert(add_counts(add_counts(g, gb), gl) =~~= add_counts(g, add_counts(gb, gl)));
        let r = queue_round(q, transition_depth);
        let rb = boards_round(bs.drop_last(), depth as int, transition_depth);
        let rl = task_round(bs.last()@, depth as int, transition_depth);
        assert(add_counts(add_counts(r, rb), rl) =~~= add_counts(r, add_counts(rb, rl)));
        let t = queue_tiles(q, transition_depth);
        let tb = boards_tiles(bs.drop_last(), depth as int, transition_depth);
        let tl = task_tiles(bs.last()@, depth as int, transition_depth);
        assert(add_tiles(add_tiles(t, tb), tl) =~= add_tiles(t, add_tiles(tb, tl)));
    }
}

proof fn lemma_task_nonnegative(b: BoardView, d: int, transition_depth: int)
    requires
        d >= 0,
    ensures
        forall|c: int, r: int| 0 <= c < 5 && 0 <= r < 5 ==> 0 <= #[trigger] game_counts(b, d as nat)[c][r],
        forall|c: int, r: int| 0 <= c < 5 && 0 <= r < 5 ==> 0 <= #[trigger] task_round(b, d, transition_depth)[c][r],
        forall|i: int| 0 <= i < 16 ==> 0 <= #[trigger] task_tiles(b, d, transition_depth)[i],
{
    let k = round_plies(d, transition_depth);
    lemma_game_bound(b, d as nat);
    lemma_game_bound(b, k);
    lemma_tile_bound(b, k);
    assert forall|c: int, r: int| 0 <= c < 5 && 0 <= r < 5 implies 0 <= #[trigger] game_counts(b, d as nat)[c][r] by {
        assert(counts_within(game_counts(b, d as nat), pow15(d as nat) as int));
    }
    assert forall|c: int, r: int| 0 <= c < 5 && 0 <= r < 5 implies 0 <= #[trigger] task_round(b, d, transition_depth)[c][r] by {
        assert(counts_within(game_counts(b, k), pow15(k) as int));
        if d >= transition_depth {
            assert(task_round(b, d, transition_depth)[c][r] == game_counts(b, k)[c][r]);
        }
    }
    assert forall|i: int| 0 <= i < 16 implies 0 <= #[trigger] task_tiles(b, d, transition_depth)[i] by {
        assert(tiles_within(tile_counts(b, k), tile_bound(k) as int));
        assert(task_tiles(b, d, transition_depth)[i] == tile_counts(b, k)[i]);
    }
}

/// What a queue still owes is never negative.
proof fn lemma_queue_nonnegative(q: Seq<(Board, u8)>, transition_depth: int)
    ensures
        forall|c: int, r: int| 0 <= c < 5 && 0 <= r < 5 ==> 0 <= #[trigger] queue_game(q)[c][r],
        forall|c: int, r: int| 0 <= c < 5 && 0 <= r < 5 ==> 0 <= #[trigger] queue_round(q, transition_depth)[c][r],
        forall|i: int| 0 <= i < 16 ==> 0 <= #[trigger] queue_tiles(q, transition_depth)[i],
    decreases q.len(),
{
    if q.len() > 0 {
        lemma_queue_nonnegative(q.drop_last(), transition_depth);
        let (b, d) = q.last();
        lemma_task_nonnegative(b@, d as int, transition_depth);
        assert forall|c: int, r: int| 0 <= c < 5 && 0 <= r < 5 implies 0 <= #[trigger] queue_game(q)[c][r] by {
            assert(queue_game(q)[c][r] == queue_game(q.drop_last())[c][r] + game_counts(b@, d as nat)[c][r]);
            lemma_game_bound(b@, d as nat);
            assert(counts_within(game_counts(b@, d as nat), pow15(d as nat) as int));
        }
        assert forall|c: int, r: int| 0 <= c < 5 && 0 <= r < 5 implies 0 <= #[trigger] queue_round(q, transition_depth)[c][r] by {
            assert(queue_round(q, transition_depth)[c][r] == queue_round(q.drop_last(), transition_depth)[c][r]
                + task_round(b@, d as int, transition_depth)[c][r]);
        }
        assert forall|i: int| 0 <= i < 16 implies 0 <= #[trigger] queue_tiles(q, transition_depth)[i] by {
            assert(queue_tiles(q, transition_depth)[i] == queue_tiles(q.drop_last(), transition_depth)[i]
                + task_tiles(b@, d as int, transition_depth)[i]);
        }
    }
}

proof fn lemma_boards_nonnegative(bs: Seq<Board>, depth: int, transition_depth: int)
    requires
        depth >= 0,
    ensures
        forall|c: int, r: int| 0 <= c < 5 && 0 <= r < 5 ==> 0 <= #[trigger] boards_game(bs, depth as nat)[c][r],
        forall|c: int, r: int| 0 <= c < 5 && 0 <= r < 5 ==> 0 <= #[trigger] boards_round(bs, depth, transition_depth)[c][r],
        forall|i: int| 0 <= i < 16 ==> 0 <= #[trigger] boards_tiles(bs, depth, transition_depth)[i],
    decreases bs.len(),
{
    if bs.len() > 0 {
        lemma_boards_nonnegative(bs.drop_last(), depth, transition_depth);
        let b = bs.last();
        lemma_task_nonnegative(b@, depth, transition_depth);
        assert forall|c: int, r: int| 0 <= c < 5 && 0 <= r < 5 implies 0 <= #[trigger] boards_game(bs, depth as nat)[c][r] by {
            assert(boards_game(bs, depth as nat)[c][r] == boards_game(bs.drop_last(), depth as nat)[c][r]
                + game_counts(b@, depth as nat)[c][r]);
        }
        assert forall|c: int, r: int| 0 <= c < 5 && 0 <= r < 5 implies 0 <= #[trigger] boards_round(bs, depth, transition_depth)[c][r] by {
            assert(boards_round(bs, depth, transition_depth)[c][r] == boards_round(bs.drop_last(), depth, transition_depth)[c][r]
                + task_round(b@, depth, transition_depth)[c][r]);
        }
        assert forall|i: int| 0 <= i < 16 implies 0 <= #[trigger] boards_tiles(bs, depth, transition_depth)[i] by {
            assert(boards_tiles(bs, depth, transition_depth)[i] == boards_tiles(bs.drop_last(), depth, transition_depth)[i]
                + task_tiles(b@, depth, transition_depth)[i]);
        }
    }
}


/// Counts every continuation of `board` for `depth` rounds through a queue of tasks:
/// while fewer than `expand_below` tasks wait, a task is expanded by one ply and its
/// successors queued; otherwise it is searched whole. Whatever the threshold, the
/// counts are those of `solve_counts`.
pub fn solve_counts_queued(
    board: &Board,
    depth: u8,
    cache_capacity: u32,
    expand_below: usize,
) -> (r: SolveCounts)
    requires
        depth <= crate::calculate::MAX_DEPTH,
    ensures
        r.game_positions@ == game_counts(board@, search_plies(board@, depth as nat)),
        r.round_positions@ == game_counts(board@, round_rolls(board@, depth as nat)),
        r.tiles@ == tile_counts(board@, round_rolls(board@, depth as nat)),
{
    let (plies, transition_depth) = plan_search(board, depth);
    let ghost root = board@;
    let ghost td = transition_depth as int;
    let ghost k = (plies - transition_depth) as nat;
    let mut round_table = RoundTranspositionTable::new(cache_capacity);
    let mut game_table = GameTranspositionTable::new(cache_capacity);
    let mut game_positions = PositionAccumulator::new();
    let mut round_positions = PositionAccumulator::new();
    let mut tiles = TileAccumulator::new();
    let mut queue: Vec<(Board, u8)> = Vec::new();
    queue.push((*board, plies));
    proof {
        lemma_pow15_fits(plies as nat);
        lemma_pow15_grows(k, plies as nat);
        lemma_tile_bound_fits(k);
        lemma_game_bound(root, plies as nat);
        lemma_game_bound(root, k);
        lemma_tile_bound(root, k);
        let q = queue@;
        assert(q.drop_last() =~= Seq::<(Board, u8)>::empty());
        assert(q.last().0@ == root && q.last().1 == plies);
        assert(queue_game(q.drop_last()) == zero_counts());
        assert(queue_round(q.drop_last(), td) == zero_counts());
        assert(queue_tiles(q.drop_last(), td) == zero_tiles());
        assert(queue_game(q) == add_counts(zero_counts(), game_counts(root, plies as nat)));
        assert(queue_round(q, td) == add_counts(zero_counts(), task_round(root, plies as int, td)));
        assert(queue_tiles(q, td) == add_tiles(zero_tiles(), task_tiles(root, plies as int, td)));
        assert(add_counts(zero_counts(), queue_game(q)) =~~= game_counts(root, plies as nat));
        assert(add_counts(zero_counts(), queue_round(q, td)) =~~= task_round(root, plies as int, td));
        assert(add_tiles(zero_tiles(), queue_tiles(q, td)) =~= task_tiles(root, plies as int, td));
    }
    while queue.len() > 0
        invariant
            plies <= MAX_PLIES,
            transition_depth <= plies <= transition_depth + 5,
            td == transition_depth,
            k == plies - transition_depth,
            pow15(plies as nat) <= u128::MAX,
            pow15(k) <= pow15(plies as nat),
            tile_bound(k) <= 1_600_000_000,
            counts_within(game_counts(root, plies as nat), pow15(plies as nat) as int),
            counts_within(game_counts(root, k), pow15(k) as int),
            tiles_within(tile_counts(root, k), tile_bound(k) as int),
            forall|i: int| 0 <= i < queue@.len() ==> #[trigger] queue@[i].1 <= plies,
            add_counts(game_positions@, queue_game(queue@)) == game_counts(root, plies as nat),
            add_counts(round_positions@, queue_round(queue@, td)) == task_round(root, plies as int, td),
            add_tiles(tiles@, queue_tiles(queue@, td)) == task_tiles(root, plies as int, td),
            round_table_sound(round_table, td),
            game_table_sound(game_table),
        decreases queue_nodes(queue@),
    {
        let ghost before = queue@;
        let (task, task_depth) = queue.pop().unwrap();
        assert(before =~= queue@.push((task, task_depth)));
        assert(before.drop_last() =~= queue@);
        assert(task_depth <= plies) by {
            assert(before[before.len() - 1].1 <= plies);
        }
        let expand = queue.len() < expand_below;
        let outcome = process_task(
            &task,
            task_depth,
            transition_depth,
            expand,
            &mut round_table,
            &mut game_table,
        );
        let next_depth: u8 = if task_depth > 0 {
            task_depth - 1
        } else {
            0
        };
        let ghost rest = queue@;
        let ghost next = outcome.next@;
        proof {
            lemma_queue_nonnegative(rest, td);
            lemma_boards_nonnegative(next, next_depth as int, td);
            if next.len() == 0 {
                assert(boards_game(next, next_depth as nat) == boards_game(next, (task_depth - 1) as nat));
                assert(boards_round(next, next_depth as int, td) == boards_round(next, task_depth - 1, td));
                assert(boards_tiles(next, next_depth as int, td) == boards_tiles(next, task_depth - 1, td));
            }
            assert forall|c: int, r: int| 0 <= c < 5 && 0 <= r < 5 implies game_positions@[c][r]
                + outcome.game@[c][r] <= u128::MAX by {
                assert(game_counts(root, plies as nat)[c][r] == game_positions@[c][r] + queue_game(rest)[c][r]
                    + outcome.game@[c][r] + boards_game(next, next_depth as nat)[c][r]);
            }
            assert forall|c: int, r: int| 0 <= c < 5 && 0 <= r < 5 implies round_positions@[c][r]
                + outcome.round@[c][r] <= u128::MAX by {
                assert(task_round(root, plies as int, td)[c][r] == game_counts(root, k)[c][r]);
                assert(task_round(root, plies as int, td)[c][r] == round_positions@[c][r] + queue_round(rest, td)[c][r]
                    + outcome.round@[c][r] + boards_round(next, next_depth as int, td)[c][r]);
            }
            assert forall|i: int| 0 <= i < 16 implies tiles@[i] + outcome.tiles@[i] <= u64::MAX by {
                assert(task_tiles(root, plies as int, td)[i] == tile_counts(root, k)[i]);
                assert(task_tiles(root, plies as int, td)[i] == tiles@[i] + queue_tiles(rest, td)[i]
                    + outcome.tiles@[i] + boards_tiles(next, next_depth as int, td)[i]);
            }
        }
        game_positions.add_assign(&outcome.game);
        round_positions.add_assign(&outcome.round);
        tiles.add_assign(&outcome.tiles);
        for i in 0..outcome.next.len()
            invariant
                next == outcome.next@,
                next_depth <= plies,
                queue@ == rest + tasks_of(next.take(i as int), next_depth),
        {
            queue.push((outcome.next[i], next_depth));
            assert(queue@ =~= rest + tasks_of(next.take(i + 1), next_depth));
        }
        proof {
            assert(next.take(next.len() as int) =~= next);
            lemma_push_tasks(rest, next, next_depth, td);
            assert(add_counts(game_positions@, queue_game(queue@)) =~~= game_counts(root, plies as nat));
            assert(add_counts(round_positions@, queue_round(queue@, td)) =~~= task_round(
                root,
                plies as int,
                td,
            ));
            assert(add_tiles(tiles@, queue_tiles(queue@, td)) =~= task_tiles(root, plies as int, td));
            assert forall|i: int| 0 <= i < queue@.len() implies #[trigger] queue@[i].1 <= plies by {
                if i >= rest.len() {
                    assert(queue@[i] == tasks_of(next, next_depth)[i - rest.len()]);
                } else {
                    assert(queue@[i] == rest[i]);
                    assert(before[i] == rest[i]);
                }
            }
            if next.len() > 0 {
                lemma_successor_nodes(task@, next, next.len() as int, task_depth as nat);
                assert(task@.moves().take(next.len() as int) =~= task@.moves());
            }
        }
    }
    proof {
        assert(queue@ =~= Seq::<(Board, u8)>::empty());
        assert(game_positions@ =~~= game_counts(root, plies as nat));
        assert(round_positions@ =~~= task_round(root, plies as int, td));
        assert(tiles@ =~= task_tiles(root, plies as int, td));
    }
    SolveCounts { game_positions, round_positions, tiles }
}

} // verus!
