//! What a solve counts, stated over the game tree.
//!
//! From a board, each legal roll leads to a successor. A search `plies` deep stops at
//! a board where some camel has finished, or when no plies are left; each such leaf
//! counts the camels' ranking on it once. The counts of one round are the counts of a
//! search as deep as the rolls left in the round.
use vstd::prelude::*;
use crate::accumulators::{
    add_counts, add_tiles, counts_within, order_counts, tiles_within, zero_counts, zero_tiles,
};
use crate::board::{ranking, valid_roll, BoardView, Roll};
use crate::camel::{BOARD_SIZE, NUM_CAMELS};

verus! {

/// Most rolls a board can offer: five camels, three faces.
pub const MAX_MOVES: usize = 15;

/// Deepest search, in plies, whose counts a `u128` always holds.
pub const MAX_PLIES: u8 = 30;

/// Largest number of round completions counted for one landing.
pub const MAX_COMPLETIONS: u64 = 1944;

/// The counts of a leaf: its current ranking, once.
pub open spec fn leaf_counts(b: BoardView) -> Seq<Seq<int>> {
    order_counts(ranking(b.camels))
}

/// Camel-by-rank counts over the leaves of a search `plies` deep from `b`.
pub open spec fn game_counts(b: BoardView, plies: nat) -> Seq<Seq<int>>
    decreases plies, b.moves().len() + 1,
{
    if plies == 0 || b.is_terminal() {
        leaf_counts(b)
    } else {
        game_sum(b, b.moves(), plies)
    }
}

/// The counts below the successors of `b` by the rolls `ms`.
pub open spec fn game_sum(b: BoardView, ms: Seq<Roll>, plies: nat) -> Seq<Seq<int>>
    decreases plies, ms.len(),
{
    if plies == 0 || ms.len() == 0 {
        zero_counts()
    } else {
        add_counts(
            game_sum(b, ms.drop_last(), plies),
            game_counts(b.succ(ms.last()), (plies - 1) as nat),
        )
    }
}

/// Ways to finish a round from a board where `n` camels have yet to roll: each roll
/// picks one of them and a face, `n! * 3^n` in all. A board whose round has just been
/// completed (all five camels to roll again) counts once.
pub open spec fn completions(n: nat) -> nat {
    if n == 1 {
        3
    } else if n == 2 {
        18
    } else if n == 3 {
        162
    } else if n == 4 {
        1944
    } else {
        1
    }
}

/// The landing counted for `roll`: its intended tile, before any terrain applies, once
/// per way to finish the round below, counted as if the round always played out.
pub open spec fn landing(b: BoardView, roll: Roll) -> Seq<int> {
    Seq::new(
        BOARD_SIZE as nat,
        |i: int|
            if i == b.target(roll) {
                completions(b.succ(roll).num_unrolled()) as int
            } else {
                0int
            },
    )
}

/// The landings of the rolls `ms` from `b`.
pub open spec fn landings(b: BoardView, ms: Seq<Roll>) -> Seq<int>
    decreases ms.len(),
{
    if ms.len() == 0 {
        zero_tiles()
    } else {
        add_tiles(landings(b, ms.drop_last()), landing(b, ms.last()))
    }
}

/// Tile landing counts over the `k` rolls left in the round.
pub open spec fn tile_counts(b: BoardView, k: nat) -> Seq<int>
    decreases k, b.moves().len() + 1,
{
    if k == 0 || b.is_terminal() {
        zero_tiles()
    } else {
        add_tiles(landings(b, b.moves()), tile_sum(b, b.moves(), k))
    }
}

pub open spec fn tile_sum(b: BoardView, ms: Seq<Roll>, k: nat) -> Seq<int>
    decreases k, ms.len(),
{
    if k == 0 || ms.len() == 0 {
        zero_tiles()
    } else {
        add_tiles(tile_sum(b, ms.drop_last(), k), tile_counts(b.succ(ms.last()), (k - 1) as nat))
    }
}

/// Bound on the counts of a search `n` plies deep: at most fifteen rolls per board.
pub open spec fn pow15(n: nat) -> nat
    decreases n,
{
    if n == 0 {
        1
    } else {
        15 * pow15((n - 1) as nat)
    }
}

/// Bound on the tile counts of a round with `k` rolls left.
pub open spec fn tile_bound(k: nat) -> nat
    decreases k,
{
    if k == 0 {
        0
    } else {
        (15 * (MAX_COMPLETIONS + tile_bound((k - 1) as nat))) as nat
    }
}

pub proof fn lemma_moves(b: BoardView, n: int)
    requires
        0 <= n <= NUM_CAMELS,
    ensures
        b.moves_upto(n).len() <= 3 * n,
        forall|k: int| 0 <= k < b.moves_upto(n).len() ==> valid_roll(#[trigger] b.moves_upto(n)[k]),
    decreases n,
{
    if n > 0 {
        lemma_moves(b, n - 1);
        let prev = b.moves_upto(n - 1);
        assert forall|k: int| 0 <= k < b.moves_upto(n).len() implies valid_roll(
            #[trigger] b.moves_upto(n)[k],
        ) by {
            if k >= prev.len() {
                assert(b.moves_upto(n)[k] == b.moves_of(n - 1)[k - prev.len()]);
            } else {
                assert(b.moves_upto(n)[k] == prev[k]);
            }
        }
    }
}

/// A board offers at most fifteen rolls, each a legal one.
pub proof fn lemma_moves_valid(b: BoardView)
    ensures
        b.moves().len() <= MAX_MOVES,
        forall|k: int| 0 <= k < b.moves().len() ==> valid_roll(#[trigger] b.moves()[k]),
{
    lemma_moves(b, NUM_CAMELS as int);
}

pub proof fn lemma_pow15_grows(a: nat, b: nat)
    requires
        a <= b,
    ensures
        1 <= pow15(a) <= pow15(b),
    decreases b,
{
    if b > a {
        lemma_pow15_grows(a, (b - 1) as nat);
    } else if a > 0 {
        lemma_pow15_grows((a - 1) as nat, (a - 1) as nat);
    }
}

pub proof fn lemma_pow15_fits(n: nat)
    requires
        n <= MAX_PLIES,
    ensures
        pow15(n) <= u128::MAX,
{
    lemma_pow15_grows(n, MAX_PLIES as nat);
    assert(pow15(MAX_PLIES as nat) == 191751059232884086668491363525390625int) by {
        reveal_with_fuel(pow15, 31);
    }
}

pub proof fn lemma_tile_bound_fits(k: nat)
    requires
        k <= NUM_CAMELS,
    ensures
        tile_bound(k) <= 1_600_000_000,
{
    reveal_with_fuel(tile_bound, 6);
}

pub proof fn lemma_completions_bound(n: nat)
    ensures
        1 <= completions(n) <= MAX_COMPLETIONS,
{

}

/// Every cell of a search `plies` deep is at most `15^plies`.
pub proof fn lemma_game_bound(b: BoardView, plies: nat)
    ensures
        counts_within(game_counts(b, plies), pow15(plies) as int),
    decreases plies, b.moves().len() + 1,
{
    lemma_pow15_grows(0, plies);
    if plies == 0 || b.is_terminal() {
    } else {
        lemma_moves_valid(b);
        lemma_game_sum_bound(b, b.moves(), plies);
        assert(b.moves().len() * pow15((plies - 1) as nat) <= pow15(plies)) by (nonlinear_arith)
            requires
                b.moves().len() <= 15,
                pow15(plies) == 15 * pow15((plies - 1) as nat),
        ;
    }
}

pub proof fn lemma_game_sum_bound(b: BoardView, ms: Seq<Roll>, plies: nat)
    requires
        plies > 0,
    ensures
        counts_within(game_sum(b, ms, plies), (ms.len() * pow15((plies - 1) as nat)) as int),
    decreases plies, ms.len(),
{
    if ms.len() > 0 {
        lemma_game_sum_bound(b, ms.drop_last(), plies);
        lemma_game_bound(b.succ(ms.last()), (plies - 1) as nat);
        assert((ms.len() - 1) * pow15((plies - 1) as nat) + pow15((plies - 1) as nat) == ms.len()
            * pow15((plies - 1) as nat)) by (nonlinear_arith);
    }
}

pub proof fn lemma_landings_bound(b: BoardView, ms: Seq<Roll>)
    ensures
        tiles_within(landings(b, ms), (ms.len() * MAX_COMPLETIONS) as int),
    decreases ms.len(),
{
    if ms.len() > 0 {
        lemma_landings_bound(b, ms.drop_last());
        lemma_completions_bound(b.succ(ms.last()).num_unrolled());
    }
}

/// Every tile count of a round with `k` rolls left is at most `tile_bound(k)`.
pub proof fn lemma_tile_bound(b: BoardView, k: nat)
    ensures
        tiles_within(tile_counts(b, k), tile_bound(k) as int),
    decreases k, b.moves().len() + 1,
{
    if k == 0 || b.is_terminal() {
    } else {
        lemma_moves_valid(b);
        lemma_landings_bound(b, b.moves());
        lemma_tile_sum_bound(b, b.moves(), k);
        assert(b.moves().len() * MAX_COMPLETIONS + b.moves().len() * tile_bound((k - 1) as nat)
            <= tile_bound(k)) by (nonlinear_arith)
            requires
                b.moves().len() <= 15,
                tile_bound(k) == 15 * (MAX_COMPLETIONS + tile_bound((k - 1) as nat)),
        ;
    }
}

pub proof fn lemma_tile_sum_bound(b: BoardView, ms: Seq<Roll>, k: nat)
    requires
        k > 0,
    ensures
        tiles_within(tile_sum(b, ms, k), (ms.len() * tile_bound((k - 1) as nat)) as int),
    decreases k, ms.len(),
{
    if ms.len() > 0 {
        lemma_tile_sum_bound(b, ms.drop_last(), k);
        lemma_tile_bound(b.succ(ms.last()), (k - 1) as nat);
        assert((ms.len() - 1) * tile_bound((k - 1) as nat) + tile_bound((k - 1) as nat) == ms.len()
            * tile_bound((k - 1) as nat)) by (nonlinear_arith);
    }
}

} // verus!
