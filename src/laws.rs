//! Properties that hold of every solve.
use vstd::prelude::*;
use crate::accumulators::{add_counts, add_tiles, column_total, order_counts, row_total, zero_tiles};
use crate::board::{
    is_permutation, lemma_finish_when_past_track, lemma_moves_count, lemma_ranking_sorted,
    lemma_rolls_left_after, lemma_rolls_left_positive, rolls_left, BoardView, Roll,
};
use crate::camel::{BOARD_SIZE, NUM_CAMELS};
use crate::calculate::{round_rolls, search_plies};
use crate::outcomes::{
    completions, game_counts, game_sum, landing, landings, leaf_counts, lemma_tile_bound,
    tile_counts, tile_sum,
};

verus! {

/// Every row and every column of `m` totals `n`.
pub open spec fn balanced(m: Seq<Seq<int>>, n: int) -> bool {
    &&& forall|c: int| 0 <= c < NUM_CAMELS ==> #[trigger] row_total(m, c) == n
    &&& forall|r: int| 0 <= r < NUM_CAMELS ==> #[trigger] column_total(m, r) == n
}

proof fn lemma_permutation_covers(o: Seq<usize>, c: int)
    requires
        is_permutation(o),
        0 <= c < NUM_CAMELS,
    ensures
        row_total(order_counts(o), c) == 1,
{
    let m = order_counts(o);
    assert(m[c][0] == if o[0] == c { 1int } else { 0int });
    assert(m[c][1] == if o[1] == c { 1int } else { 0int });
    assert(m[c][2] == if o[2] == c { 1int } else { 0int });
    assert(m[c][3] == if o[3] == c { 1int } else { 0int });
    assert(m[c][4] == if o[4] == c { 1int } else { 0int });
    assert(o[0] != o[1] && o[0] != o[2] && o[0] != o[3] && o[0] != o[4] && o[1] != o[2] && o[1]
        != o[3] && o[1] != o[4] && o[2] != o[3] && o[2] != o[4] && o[3] != o[4]);
    assert(o[0] < 5 && o[1] < 5 && o[2] < 5 && o[3] < 5 && o[4] < 5);
}

proof fn lemma_leaf_balanced(b: BoardView)
    requires
        b.camels.len() == NUM_CAMELS,
    ensures
        balanced(leaf_counts(b), 1),
{
    let o = crate::board::ranking(b.camels);
    lemma_ranking_sorted(b.camels);
    let m = leaf_counts(b);
    assert forall|c: int| 0 <= c < NUM_CAMELS implies #[trigger] row_total(m, c) == 1 by {
        lemma_permutation_covers(o, c);
    }
    assert forall|r: int| 0 <= r < NUM_CAMELS implies #[trigger] column_total(m, r) == 1 by {
        assert(o[r] < 5);
        assert(m[0][r] == if o[r] == 0 { 1int } else { 0int });
        assert(m[1][r] == if o[r] == 1 { 1int } else { 0int });
        assert(m[2][r] == if o[r] == 2 { 1int } else { 0int });
        assert(m[3][r] == if o[r] == 3 { 1int } else { 0int });
        assert(m[4][r] == if o[r] == 4 { 1int } else { 0int });
    }
}

proof fn lemma_add_balanced(a: Seq<Seq<int>>, na: int, b: Seq<Seq<int>>, nb: int)
    requires
        balanced(a, na),
        balanced(b, nb),
    ensures
        balanced(add_counts(a, b), na + nb),
{
    let s = add_counts(a, b);
    assert forall|c: int| 0 <= c < NUM_CAMELS implies #[trigger] row_total(s, c) == na + nb by {
        assert(row_total(a, c) == na && row_total(b, c) == nb);
    }
    assert forall|r: int| 0 <= r < NUM_CAMELS implies #[trigger] column_total(s, r) == na + nb by {
        assert(column_total(a, r) == na && column_total(b, r) == nb);
    }
}

proof fn lemma_game_sum_balanced(b: BoardView, ms: Seq<Roll>, plies: nat)
    requires
        b.camels.len() == NUM_CAMELS,
    ensures
        balanced(game_sum(b, ms, plies), row_total(game_sum(b, ms, plies), 0)),
        plies > 0 ==> row_total(game_sum(b, ms, plies), 0) >= ms.len(),
    decreases plies, ms.len(),
{
    if plies == 0 || ms.len() == 0 {
    } else {
        let rest = game_sum(b, ms.drop_last(), plies);
        let last = game_counts(b.succ(ms.last()), (plies - 1) as nat);
        lemma_game_sum_balanced(b, ms.drop_last(), plies);
        lemma_game_balanced(b.succ(ms.last()), (plies - 1) as nat);
        lemma_add_balanced(rest, row_total(rest, 0), last, row_total(last, 0));
    }
}

/// In every search, each camel's counts over the ranks, and each rank's counts over the
/// camels, total the number of outcomes, which is at least one: every row and every
/// column of the game odds, and of the round odds, sums to one.
pub proof fn lemma_game_balanced(b: BoardView, plies: nat)
    requires
        b.camels.len() == NUM_CAMELS,
    ensures
        balanced(game_counts(b, plies), row_total(game_counts(b, plies), 0)),
        row_total(game_counts(b, plies), 0) >= 1,
    decreases plies, b.moves().len() + 1,
{
    if plies == 0 || b.is_terminal() {
        lemma_leaf_balanced(b);
    } else {
        lemma_game_sum_balanced(b, b.moves(), plies);
        lemma_moves_count(b);
        lemma_rolls_left_positive(b);
    }
}


/// Every leaf of the search `plies` deep from `b` is a board where a camel has finished.
pub open spec fn finishes_within(b: BoardView, plies: nat) -> bool
    decreases plies,
{
    b.is_terminal() || (plies > 0 && forall|i: int|
        0 <= i < b.moves().len() ==> finishes_within(
            #[trigger] b.succ(b.moves()[i]),
            (plies - 1) as nat,
        ))
}

proof fn lemma_game_sum_settled(b: BoardView, n: int, plies: nat, deeper: nat)
    requires
        0 < plies <= deeper,
        0 <= n <= b.moves().len(),
        forall|i: int|
            0 <= i < b.moves().len() ==> finishes_within(
                #[trigger] b.succ(b.moves()[i]),
                (plies - 1) as nat,
            ),
    ensures
        game_sum(b, b.moves().take(n), plies) == game_sum(b, b.moves().take(n), deeper),
    decreases plies, n,
{
    let ms = b.moves().take(n);
    if n > 0 {
        assert(ms.drop_last() =~= b.moves().take(n - 1));
        lemma_game_sum_settled(b, n - 1, plies, deeper);
        assert(ms.last() == b.moves()[n - 1]);
        lemma_game_settled(b.succ(b.moves()[n - 1]), (plies - 1) as nat, (deeper - 1) as nat);
    }
}

/// A search whose every leaf is a finished board counts the same at any greater depth.
pub proof fn lemma_game_settled(b: BoardView, plies: nat, deeper: nat)
    requires
        plies <= deeper,
        finishes_within(b, plies),
    ensures
        game_counts(b, plies) == game_counts(b, deeper),
    decreases plies, b.moves().len() + 1,
{
    if !b.is_terminal() {
        lemma_game_sum_settled(b, b.moves().len() as int, plies, deeper);
        assert(b.moves().take(b.moves().len() as int) =~= b.moves());
    }
}

/// The round odds, and the tile odds, of a solve do not depend on how many rounds it
/// searches; its game odds do not change with more rounds once every continuation
/// within the shallower search ends with a camel across the finish.
pub proof fn lemma_deeper_search(b: BoardView, depth: nat, deeper: nat)
    requires
        1 <= depth <= deeper,
    ensures
        game_counts(b, round_rolls(b, depth)) == game_counts(b, round_rolls(b, deeper)),
        tile_counts(b, round_rolls(b, depth)) == tile_counts(b, round_rolls(b, deeper)),
        finishes_within(b, search_plies(b, depth)) ==> game_counts(b, search_plies(b, depth))
            == game_counts(b, search_plies(b, deeper)),
{
    if finishes_within(b, search_plies(b, depth)) {
        lemma_game_settled(b, search_plies(b, depth), search_plies(b, deeper));
    }
}


/// Ways to play out `k` rolls of a round: `k! * 3^k`.
pub open spec fn round_outcomes(k: nat) -> nat
    decreases k,
{
    if k == 0 {
        1
    } else {
        3 * k * round_outcomes((k - 1) as nat)
    }
}

/// No camel crosses the finish during the next `k` rolls, whatever they are.
pub open spec fn stays_on_track(b: BoardView, k: nat) -> bool
    decreases k,
{
    !b.is_terminal() && (k == 0 || forall|i: int|
        0 <= i < b.moves().len() ==> stays_on_track(
            #[trigger] b.succ(b.moves()[i]),
            (k - 1) as nat,
        ))
}

/// Sum of the first `n` tile counts.
pub open spec fn tiles_prefix(t: Seq<int>, n: int) -> int
    decreases n,
{
    if n <= 0 {
        0
    } else {
        tiles_prefix(t, n - 1) + t[n - 1]
    }
}

/// Landings over the whole track.
pub open spec fn tiles_total(t: Seq<int>) -> int {
    tiles_prefix(t, BOARD_SIZE as int)
}

proof fn lemma_tiles_prefix_add(a: Seq<int>, b: Seq<int>, n: int)
    requires
        0 <= n <= BOARD_SIZE,
    ensures
        tiles_prefix(add_tiles(a, b), n) == tiles_prefix(a, n) + tiles_prefix(b, n),
    decreases n,
{
    if n > 0 {
        lemma_tiles_prefix_add(a, b, n - 1);
    }
}

proof fn lemma_tiles_prefix_zero(n: int)
    requires
        0 <= n <= BOARD_SIZE,
    ensures
        tiles_prefix(zero_tiles(), n) == 0,
    decreases n,
{
    if n > 0 {
        lemma_tiles_prefix_zero(n - 1);
    }
}

proof fn lemma_tiles_prefix_single(t: Seq<int>, at: int, n: int)
    requires
        0 <= n <= BOARD_SIZE,
        t.len() == BOARD_SIZE,
        forall|i: int| 0 <= i < BOARD_SIZE && i != at ==> t[i] == 0,
    ensures
        tiles_prefix(t, n) == if 0 <= at < n { t[at] } else { 0 },
    decreases n,
{
    if n > 0 {
        lemma_tiles_prefix_single(t, at, n - 1);
    }
}

proof fn lemma_tiles_prefix_bounds(t: Seq<int>, n: int)
    requires
        0 <= n <= BOARD_SIZE,
        forall|i: int| 0 <= i < BOARD_SIZE ==> 0 <= #[trigger] t[i],
    ensures
        forall|i: int| 0 <= i < n ==> #[trigger] t[i] <= tiles_prefix(t, n),
        0 <= tiles_prefix(t, n),
    decreases n,
{
    if n > 0 {
        lemma_tiles_prefix_bounds(t, n - 1);
    }
}

proof fn lemma_round_sums(b: BoardView, n: int, k: nat)
    requires
        b.camels.len() == NUM_CAMELS,
        b.oasis.len() == BOARD_SIZE,
        b.desert.len() == BOARD_SIZE,
        k >= 1,
        k == rolls_left(b),
        0 <= n <= b.moves().len(),
        stays_on_track(b, k),
    ensures
        row_total(game_sum(b, b.moves().take(n), k), 0) == n * round_outcomes((k - 1) as nat),
        tiles_total(landings(b, b.moves().take(n))) == n * round_outcomes((k - 1) as nat),
        tiles_total(tile_sum(b, b.moves().take(n), k)) == n * (k - 1) * round_outcomes(
            (k - 1) as nat,
        ),
    decreases k, n,
{
    let ms = b.moves().take(n);
    if n > 0 {
        lemma_round_sums(b, n - 1, k);
        assert(ms.drop_last() =~= b.moves().take(n - 1));
        let m = b.moves()[n - 1];
        assert(ms.last() == m);
        let next = b.succ(m);
        lemma_moves_count(b);
        assert(b.movable(m.camel as int));
        crate::outcomes::lemma_moves_valid(b);
        lemma_rolls_left_after(b, m);
        assert(stays_on_track(next, (k - 1) as nat));
        lemma_round_laws(next, (k - 1) as nat);
        // The landing of this roll: on the track, once per way to finish the round.
        if b.target(m) >= BOARD_SIZE {
            lemma_finish_when_past_track(b, m);
        }
        lemma_tiles_prefix_single(landing(b, m), b.target(m), BOARD_SIZE as int);
        lemma_rolls_left_positive(b);
        assert(completions(next.num_unrolled()) == round_outcomes((k - 1) as nat)) by {
            reveal_with_fuel(round_outcomes, 5);
            assert(round_outcomes(0) == 1 && round_outcomes(1) == 3 && round_outcomes(2) == 18
                && round_outcomes(3) == 162 && round_outcomes(4) == 1944);
        }
        lemma_tiles_prefix_add(landings(b, ms.drop_last()), landing(b, m), BOARD_SIZE as int);
        lemma_tiles_prefix_add(
            tile_sum(b, ms.drop_last(), k),
            tile_counts(next, (k - 1) as nat),
            BOARD_SIZE as int,
        );
        assert((n - 1) * round_outcomes((k - 1) as nat) + round_outcomes((k - 1) as nat) == n
            * round_outcomes((k - 1) as nat)) by (nonlinear_arith);
        assert((n - 1) * (k - 1) * round_outcomes((k - 1) as nat) + (k - 1) * round_outcomes(
            (k - 1) as nat,
        ) == n * (k - 1) * round_outcomes((k - 1) as nat)) by (nonlinear_arith);
    } else {
        assert(ms =~= Seq::<Roll>::empty());
        lemma_tiles_prefix_zero(BOARD_SIZE as int);
    }
}

/// While no camel can cross the finish, a round with `k` rolls left plays out in
/// `k! * 3^k` ways, and lands `k` times in each of them: the tile landings total `k`
/// per outcome, so each tile's landing odds lie between zero and `k`.
pub proof fn lemma_round_laws(b: BoardView, k: nat)
    requires
        b.camels.len() == NUM_CAMELS,
        b.oasis.len() == BOARD_SIZE,
        b.desert.len() == BOARD_SIZE,
        k == 0 || k == rolls_left(b),
        stays_on_track(b, k),
    ensures
        row_total(game_counts(b, k), 0) == round_outcomes(k),
        tiles_total(tile_counts(b, k)) == k * round_outcomes(k),
        forall|i: int| 0 <= i < BOARD_SIZE ==> 0 <= #[trigger] tile_counts(b, k)[i] <= k * round_outcomes(k),
    decreases k, b.moves().len() + 1,
{
    lemma_tile_bound(b, k);
    if k == 0 {
        lemma_leaf_balanced(b);
        lemma_tiles_prefix_zero(BOARD_SIZE as int);
    } else {
        lemma_moves_count(b);
        lemma_round_sums(b, b.moves().len() as int, k);
        assert(b.moves().take(b.moves().len() as int) =~= b.moves());
        lemma_tiles_prefix_add(landings(b, b.moves()), tile_sum(b, b.moves(), k), BOARD_SIZE as int);
        assert(3 * k * round_outcomes((k - 1) as nat) + 3 * k * (k - 1) * round_outcomes(
            (k - 1) as nat,
        ) == k * (3 * k * round_outcomes((k - 1) as nat))) by (nonlinear_arith);
    }
    lemma_tiles_prefix_bounds(tile_counts(b, k), BOARD_SIZE as int);
}

} // verus!
