//! Camels are interchangeable: only where a camel stands matters, not which it is.
use vstd::prelude::*;
use crate::accumulators::{add_counts, zero_counts};
use crate::board::{
    is_permutation, lemma_ranking_sorted, lemma_update_well_formed, ranking, valid_roll,
    BoardView, Roll,
};
use crate::camel::{pos_of, tile_of, NUM_CAMELS};
use crate::outcomes::{game_counts, game_sum, leaf_counts};

verus! {

/// The camel index that takes the place of `i` when `x` and `y` trade places.
pub open spec fn swap_index(i: int, x: int, y: int) -> int {
    if i == x {
        y
    } else if i == y {
        x
    } else {
        i
    }
}

/// The board with camels `x` and `y` relabelled: each takes over the other's byte.
pub open spec fn relabel(b: BoardView, x: int, y: int) -> BoardView {
    BoardView {
        camels: Seq::new(NUM_CAMELS as nat, |i: int| b.camels[swap_index(i, x, y)]),
        oasis: b.oasis,
        desert: b.desert,
    }
}

/// The count matrix with the rows of camels `x` and `y` exchanged.
pub open spec fn swap_rows(m: Seq<Seq<int>>, x: int, y: int) -> Seq<Seq<int>> {
    Seq::new(NUM_CAMELS as nat, |c: int| m[swap_index(c, x, y)])
}

pub open spec fn relabel_roll(roll: Roll, x: int, y: int) -> Roll {
    Roll { camel: swap_index(roll.camel as int, x, y) as usize, tiles: roll.tiles }
}

/// The sum of `f` over the five camels.
pub open spec fn sum5(f: spec_fn(int) -> int) -> int {
    f(0) + f(1) + f(2) + f(3) + f(4)
}

proof fn lemma_sum5_swap(f: spec_fn(int) -> int, x: int, y: int)
    requires
        0 <= x < NUM_CAMELS,
        0 <= y < NUM_CAMELS,
    ensures
        sum5(|i: int| f(swap_index(i, x, y))) == sum5(f),
{
}

proof fn lemma_count_is_sum(b: BoardView, t: int)
    ensures
        b.height(t) == sum5(|i: int| if b.tile(i) == t { 1int } else { 0int }),
{
    reveal_with_fuel(BoardView::count_on, 6);
}

proof fn lemma_swap_in_range(x: int, y: int)
    requires
        0 <= x < NUM_CAMELS,
        0 <= y < NUM_CAMELS,
    ensures
        forall|i: int| 0 <= i < NUM_CAMELS ==> 0 <= #[trigger] swap_index(i, x, y) < NUM_CAMELS,
        forall|i: int| #[trigger] swap_index(swap_index(i, x, y), x, y) == i,
{
}

proof fn lemma_relabel_basics(b: BoardView, x: int, y: int)
    requires
        b.shaped(),
        0 <= x < NUM_CAMELS,
        0 <= y < NUM_CAMELS,
    ensures
        relabel(b, x, y).shaped(),
        forall|i: int| 0 <= i < NUM_CAMELS ==> #[trigger] relabel(b, x, y).camels[i] == b.camels[swap_index(i, x, y)],
        forall|t: int| #[trigger] relabel(b, x, y).height(t) == b.height(t),
        relabel(b, x, y).all_rolled() == b.all_rolled(),
        relabel(b, x, y).is_terminal() == b.is_terminal(),
        b.well_formed() ==> relabel(b, x, y).well_formed(),
{
    let n = relabel(b, x, y);
    lemma_swap_in_range(x, y);
    assert forall|t: int| #[trigger] n.height(t) == b.height(t) by {
        let f = |i: int| if b.tile(i) == t { 1int } else { 0int };
        lemma_count_is_sum(b, t);
        lemma_count_is_sum(n, t);
        lemma_sum5_swap(f, x, y);
        assert(n.tile(0) == b.tile(swap_index(0, x, y)));
        assert(n.tile(1) == b.tile(swap_index(1, x, y)));
        assert(n.tile(2) == b.tile(swap_index(2, x, y)));
        assert(n.tile(3) == b.tile(swap_index(3, x, y)));
        assert(n.tile(4) == b.tile(swap_index(4, x, y)));
    }
    if b.all_rolled() {
        assert forall|i: int| 0 <= i < NUM_CAMELS implies n.rolled(i) by {
            assert(b.rolled(swap_index(i, x, y)));
        }
    }
    if n.all_rolled() {
        assert forall|i: int| 0 <= i < NUM_CAMELS implies b.rolled(i) by {
            assert(n.rolled(swap_index(i, x, y)));
        }
    }
    if b.is_terminal() {
        let i = choose|i: int| 0 <= i < NUM_CAMELS && b.tile(i) >= 16;
        assert(n.tile(swap_index(i, x, y)) >= 16);
    }
    if n.is_terminal() {
        let i = choose|i: int| 0 <= i < NUM_CAMELS && n.tile(i) >= 16;
        assert(b.tile(swap_index(i, x, y)) >= 16);
    }
    if b.well_formed() {
        assert forall|i: int| 0 <= i < NUM_CAMELS implies n.tile(i) <= 16 by {
            assert(b.tile(swap_index(i, x, y)) <= 16);
        }
        assert forall|i: int, j: int|
            0 <= i < NUM_CAMELS && 0 <= j < NUM_CAMELS && i != j implies n.tile(i) != n.tile(j)
            || n.pos(i) != n.pos(j) by {
            assert(b.tile(swap_index(i, x, y)) != b.tile(swap_index(j, x, y)) || b.pos(
                swap_index(i, x, y),
            ) != b.pos(swap_index(j, x, y)));
        }
        assert forall|i: int| 0 <= i < NUM_CAMELS implies n.pos(i) < n.height(n.tile(i)) by {
            assert(b.pos(swap_index(i, x, y)) < b.height(b.tile(swap_index(i, x, y))));
        }
    }
}

proof fn lemma_moving_is_sum(b: BoardView, roll: Roll)
    ensures
        b.moving_height(roll) == sum5(|i: int| if b.moving(roll, i) { 1int } else { 0int }),
{
    reveal_with_fuel(BoardView::moving_among, 6);
}

/// Rolling a camel of the relabelled board gives the relabelled successor.
proof fn lemma_relabel_succ(b: BoardView, roll: Roll, x: int, y: int)
    requires
        b.shaped(),
        0 <= x < NUM_CAMELS,
        0 <= y < NUM_CAMELS,
        valid_roll(roll),
    ensures
        relabel(b, x, y).succ(relabel_roll(roll, x, y)) == relabel(b.succ(roll), x, y),
{
    let n = relabel(b, x, y);
    let r = relabel_roll(roll, x, y);
    let c = roll.camel as int;
    lemma_relabel_basics(b, x, y);
    lemma_swap_in_range(x, y);
    assert(n.camels[r.camel as int] == b.camels[c]);
    assert(n.target(r) == b.target(roll));
    assert(n.destination(r) == b.destination(roll));
    assert(n.goes_under(r) == b.goes_under(roll));
    assert forall|i: int| 0 <= i < NUM_CAMELS implies #[trigger] n.moving(r, i) == b.moving(
        roll,
        swap_index(i, x, y),
    ) by {
        assert(n.camels[i] == b.camels[swap_index(i, x, y)]);
    }
    assert(n.moving_height(r) == b.moving_height(roll)) by {
        let f = |i: int| if b.moving(roll, i) { 1int } else { 0int };
        lemma_moving_is_sum(b, roll);
        lemma_moving_is_sum(n, r);
        lemma_sum5_swap(f, x, y);
        assert(n.moving(r, 0) == b.moving(roll, swap_index(0, x, y)));
        assert(n.moving(r, 1) == b.moving(roll, swap_index(1, x, y)));
        assert(n.moving(r, 2) == b.moving(roll, swap_index(2, x, y)));
        assert(n.moving(r, 3) == b.moving(roll, swap_index(3, x, y)));
        assert(n.moving(r, 4) == b.moving(roll, swap_index(4, x, y)));
    }
    assert forall|i: int| 0 <= i < NUM_CAMELS implies #[trigger] n.marked(r, i) == b.marked(
        roll,
        swap_index(i, x, y),
    ) by {
        assert(n.camels[i] == b.camels[swap_index(i, x, y)]);
    }
    assert(n.completes_round(r) == b.completes_round(roll)) by {
        if n.completes_round(r) {
            assert forall|i: int| 0 <= i < NUM_CAMELS implies b.marked(roll, i) by {
                assert(n.marked(r, swap_index(i, x, y)));
            }
        }
        if b.completes_round(roll) {
            assert forall|i: int| 0 <= i < NUM_CAMELS implies n.marked(r, i) by {
                assert(b.marked(roll, swap_index(i, x, y)));
            }
        }
    }
    assert forall|i: int| 0 <= i < NUM_CAMELS implies #[trigger] n.camel_after(r, i) == b.camel_after(
        roll,
        swap_index(i, x, y),
    ) by {
        let j = swap_index(i, x, y);
        assert(n.camels[i] == b.camels[j]);
        assert(n.moving(r, i) == b.moving(roll, j));
        assert(n.tile_after(r, i) == b.tile_after(roll, j));
        assert(n.pos_after(r, i) == b.pos_after(roll, j));
        assert(n.marked(r, i) == b.marked(roll, j));
        assert(n.rolled_after(r, i) == b.rolled_after(roll, j));
    }
    assert(n.succ(r).camels =~= relabel(b.succ(roll), x, y).camels);
}

proof fn lemma_sorted_unique(o1: Seq<usize>, o2: Seq<usize>, v: Seq<u8>)
    requires
        is_permutation(o1),
        is_permutation(o2),
        v.len() == NUM_CAMELS,
        strictly_ahead(v, o1),
        strictly_ahead(v, o2),
    ensures
        o1 == o2,
{
    assert(o1[0] != o1[1] && o1[0] != o1[2] && o1[0] != o1[3] && o1[0] != o1[4] && o1[1] != o1[2]
        && o1[1] != o1[3] && o1[1] != o1[4] && o1[2] != o1[3] && o1[2] != o1[4] && o1[3] != o1[4]);
    assert(o2[0] != o2[1] && o2[0] != o2[2] && o2[0] != o2[3] && o2[0] != o2[4] && o2[1] != o2[2]
        && o2[1] != o2[3] && o2[1] != o2[4] && o2[2] != o2[3] && o2[2] != o2[4] && o2[3] != o2[4]);
    assert(o1 =~= o2);
}

/// On a well-formed board no two camels tie, so the ranking is strictly ordered.
proof fn lemma_ranking_strict(b: BoardView)
    requires
        b.well_formed(),
    ensures
        strictly_ahead(b.camels, ranking(b.camels)),
        is_permutation(ranking(b.camels)),
{
    let o = ranking(b.camels);
    lemma_ranking_sorted(b.camels);
    assert forall|r: int| 0 <= r < 4 implies #[trigger] b.camels[o[r] as int] / 2 > b.camels[o[r
        + 1] as int] / 2 by {
        assert(o[r] != o[r + 1]);
        assert(b.tile(o[r] as int) != b.tile(o[r + 1] as int) || b.pos(o[r] as int) != b.pos(
            o[r + 1] as int,
        ));
        let u = b.camels[o[r] as int];
        let w = b.camels[o[r + 1] as int];
        assert(tile_of(u) * 5 + pos_of(u) == u / 2);
        assert(tile_of(w) * 5 + pos_of(w) == w / 2);
    }
    assert(b.camels[o[0] as int] / 2 > b.camels[o[1] as int] / 2);
    assert(b.camels[o[1] as int] / 2 > b.camels[o[2] as int] / 2);
    assert(b.camels[o[2] as int] / 2 > b.camels[o[3] as int] / 2);
    assert(b.camels[o[3] as int] / 2 > b.camels[o[4] as int] / 2);
}

/// On a well-formed board the ranking of the relabelled camels is the relabelled ranking.
proof fn lemma_relabel_ranking(b: BoardView, x: int, y: int)
    requires
        b.well_formed(),
        0 <= x < NUM_CAMELS,
        0 <= y < NUM_CAMELS,
    ensures
        forall|r: int| 0 <= r < NUM_CAMELS ==> #[trigger] ranking(relabel(b, x, y).camels)[r] as int
            == swap_index(ranking(b.camels)[r] as int, x, y),
{
    let n = relabel(b, x, y);
    lemma_relabel_basics(b, x, y);
    lemma_swap_in_range(x, y);
    let o = ranking(b.camels);
    lemma_ranking_strict(b);
    lemma_ranking_strict(n);
    let moved = Seq::new(NUM_CAMELS as nat, |r: int| swap_index(o[r] as int, x, y) as usize);
    assert(n.camels[moved[0] as int] == b.camels[o[0] as int]);
    assert(n.camels[moved[1] as int] == b.camels[o[1] as int]);
    assert(n.camels[moved[2] as int] == b.camels[o[2] as int]);
    assert(n.camels[moved[3] as int] == b.camels[o[3] as int]);
    assert(n.camels[moved[4] as int] == b.camels[o[4] as int]);
    assert(is_permutation(moved)) by {
        assert forall|r1: int, r2: int| 0 <= r1 < r2 < NUM_CAMELS implies moved[r1] != moved[r2] by {
            assert(o[r1] != o[r2]);
            assert(swap_index(swap_index(o[r1] as int, x, y), x, y) == o[r1]);
            assert(swap_index(swap_index(o[r2] as int, x, y), x, y) == o[r2]);
        }
    }
    lemma_sorted_unique(ranking(n.camels), moved, n.camels);
}

/// The camels of `o` stand strictly further ahead from each rank to the next.
pub open spec fn strictly_ahead(v: Seq<u8>, o: Seq<usize>) -> bool {
    &&& v[o[0] as int] > v[o[1] as int]
    &&& v[o[1] as int] > v[o[2] as int]
    &&& v[o[2] as int] > v[o[3] as int]
    &&& v[o[3] as int] > v[o[4] as int]
}


proof fn lemma_game_sum_concat(b: BoardView, ms1: Seq<Roll>, ms2: Seq<Roll>, plies: nat)
    requires
        plies > 0,
    ensures
        game_sum(b, ms1 + ms2, plies) == add_counts(game_sum(b, ms1, plies), game_sum(b, ms2, plies)),
    decreases ms2.len(),
{
    if ms2.len() == 0 {
        assert(ms1 + ms2 =~= ms1);
        assert(add_counts(game_sum(b, ms1, plies), zero_counts()) =~~= game_sum(b, ms1, plies));
    } else {
        lemma_game_sum_concat(b, ms1, ms2.drop_last(), plies);
        assert((ms1 + ms2).drop_last() =~= ms1 + ms2.drop_last());
        assert((ms1 + ms2).last() == ms2.last());
        let a = game_sum(b, ms1, plies);
        let m = game_sum(b, ms2.drop_last(), plies);
        let l = game_counts(b.succ(ms2.last()), (plies - 1) as nat);
        assert(add_counts(add_counts(a, m), l) =~~= add_counts(a, add_counts(m, l)));
    }
}

/// The counts below the rolls of camel `i`.
pub open spec fn block(b: BoardView, i: int, plies: nat) -> Seq<Seq<int>> {
    game_sum(b, b.moves_of(i), plies)
}

proof fn lemma_blocks(b: BoardView, plies: nat, c: int, r: int)
    requires
        plies > 0,
        0 <= c < NUM_CAMELS,
        0 <= r < NUM_CAMELS,
    ensures
        game_sum(b, b.moves(), plies)[c][r] == sum5(|i: int| block(b, i, plies)[c][r]),
{
    let z = zero_counts();
    assert(b.moves_upto(0) =~= Seq::<Roll>::empty());
    assert forall|n: int| 1 <= n <= 5 implies #[trigger] game_sum(b, b.moves_upto(n), plies) == add_counts(
        game_sum(b, b.moves_upto(n - 1), plies),
        block(b, n - 1, plies),
    ) by {
        lemma_game_sum_concat(b, b.moves_upto(n - 1), b.moves_of(n - 1), plies);
    }
    assert(game_sum(b, b.moves_upto(1), plies) == add_counts(game_sum(b, b.moves_upto(0), plies), block(b, 0, plies)));
    assert(game_sum(b, b.moves_upto(2), plies) == add_counts(game_sum(b, b.moves_upto(1), plies), block(b, 1, plies)));
    assert(game_sum(b, b.moves_upto(3), plies) == add_counts(game_sum(b, b.moves_upto(2), plies), block(b, 2, plies)));
    assert(game_sum(b, b.moves_upto(4), plies) == add_counts(game_sum(b, b.moves_upto(3), plies), block(b, 3, plies)));
    assert(game_sum(b, b.moves_upto(5), plies) == add_counts(game_sum(b, b.moves_upto(4), plies), block(b, 4, plies)));
}

proof fn lemma_sum3(b: BoardView, s: Seq<Roll>, plies: nat)
    requires
        plies > 0,
        s.len() == 3,
    ensures
        game_sum(b, s, plies) == add_counts(
            add_counts(
                add_counts(zero_counts(), game_counts(b.succ(s[0]), (plies - 1) as nat)),
                game_counts(b.succ(s[1]), (plies - 1) as nat),
            ),
            game_counts(b.succ(s[2]), (plies - 1) as nat),
        ),
{
    let s2 = s.drop_last();
    let s1 = s2.drop_last();
    let s0 = s1.drop_last();
    assert(s0 =~= Seq::<Roll>::empty());
    assert(s1.last() == s[0]);
    assert(s2.last() == s[1]);
    assert(s.last() == s[2]);
    assert(game_sum(b, s0, plies) == zero_counts());
    assert(game_sum(b, s1, plies) == add_counts(
        game_sum(b, s0, plies),
        game_counts(b.succ(s[0]), (plies - 1) as nat),
    ));
    assert(game_sum(b, s2, plies) == add_counts(
        game_sum(b, s1, plies),
        game_counts(b.succ(s[1]), (plies - 1) as nat),
    ));
    assert(game_sum(b, s, plies) == add_counts(
        game_sum(b, s2, plies),
        game_counts(b.succ(s[2]), (plies - 1) as nat),
    ));
}

proof fn lemma_swap_rows_add(a: Seq<Seq<int>>, m: Seq<Seq<int>>, x: int, y: int)
    requires
        0 <= x < NUM_CAMELS,
        0 <= y < NUM_CAMELS,
    ensures
        swap_rows(add_counts(a, m), x, y) == add_counts(swap_rows(a, x, y), swap_rows(m, x, y)),
        swap_rows(zero_counts(), x, y) == zero_counts(),
{
    lemma_swap_in_range(x, y);
    assert(swap_rows(add_counts(a, m), x, y) =~~= add_counts(swap_rows(a, x, y), swap_rows(m, x, y)));
    assert(swap_rows(zero_counts(), x, y) =~~= zero_counts());
}

proof fn lemma_roll_relabel(b: BoardView, x: int, y: int, roll: Roll, plies: nat)
    requires
        b.well_formed(),
        !b.is_terminal(),
        valid_roll(roll),
        plies > 0,
        0 <= x < NUM_CAMELS,
        0 <= y < NUM_CAMELS,
    ensures
        game_counts(relabel(b, x, y).succ(relabel_roll(roll, x, y)), (plies - 1) as nat) == swap_rows(
            game_counts(b.succ(roll), (plies - 1) as nat),
            x,
            y,
        ),
    decreases plies, 0nat,
{
    lemma_relabel_succ(b, roll, x, y);
    lemma_update_well_formed(b, roll);
    lemma_game_relabel(b.succ(roll), (plies - 1) as nat, x, y);
}

proof fn lemma_block_relabel(b: BoardView, x: int, y: int, i: int, plies: nat)
    requires
        b.well_formed(),
        !b.is_terminal(),
        plies > 0,
        0 <= x < NUM_CAMELS,
        0 <= y < NUM_CAMELS,
        0 <= i < NUM_CAMELS,
    ensures
        block(relabel(b, x, y), i, plies) == swap_rows(block(b, swap_index(i, x, y), plies), x, y),
    decreases plies, 1nat,
{
    let n = relabel(b, x, y);
    let j = swap_index(i, x, y);
    lemma_relabel_basics(b, x, y);
    lemma_swap_in_range(x, y);
    assert(n.camels[i] == b.camels[j]);
    assert(n.movable(i) == b.movable(j));
    if b.movable(j) {
        let mb = b.moves_of(j);
        let mn = n.moves_of(i);
        assert(relabel_roll(mb[0], x, y) == mn[0]);
        assert(relabel_roll(mb[1], x, y) == mn[1]);
        assert(relabel_roll(mb[2], x, y) == mn[2]);
        lemma_roll_relabel(b, x, y, mb[0], plies);
        lemma_roll_relabel(b, x, y, mb[1], plies);
        lemma_roll_relabel(b, x, y, mb[2], plies);
        lemma_sum3(n, mn, plies);
        lemma_sum3(b, mb, plies);
        let gb0 = game_counts(b.succ(mb[0]), (plies - 1) as nat);
        let gb1 = game_counts(b.succ(mb[1]), (plies - 1) as nat);
        let gb2 = game_counts(b.succ(mb[2]), (plies - 1) as nat);
        lemma_swap_rows_add(zero_counts(), gb0, x, y);
        lemma_swap_rows_add(add_counts(zero_counts(), gb0), gb1, x, y);
        lemma_swap_rows_add(add_counts(add_counts(zero_counts(), gb0), gb1), gb2, x, y);
    } else {
        assert(n.moves_of(i) =~= Seq::<Roll>::empty());
        assert(b.moves_of(j) =~= Seq::<Roll>::empty());
        lemma_swap_rows_add(zero_counts(), zero_counts(), x, y);
    }
}

/// Relabelling two camels exchanges their rows of counts, in a search of any depth
/// from a well-formed board: which camel is which does not matter, only where each
/// stands. So two camels that trade places trade their game odds and round odds.
pub proof fn lemma_game_relabel(b: BoardView, plies: nat, x: int, y: int)
    requires
        b.well_formed(),
        0 <= x < NUM_CAMELS,
        0 <= y < NUM_CAMELS,
    ensures
        game_counts(relabel(b, x, y), plies) == swap_rows(game_counts(b, plies), x, y),
    decreases plies, 2nat,
{
    let n = relabel(b, x, y);
    lemma_relabel_basics(b, x, y);
    lemma_swap_in_range(x, y);
    if plies == 0 || b.is_terminal() {
        lemma_relabel_ranking(b, x, y);
        let o = ranking(b.camels);
        lemma_ranking_strict(b);
        assert forall|c: int, r: int| 0 <= c < NUM_CAMELS && 0 <= r < NUM_CAMELS implies
            #[trigger] leaf_counts(n)[c][r] == swap_rows(leaf_counts(b), x, y)[c][r] by {
            assert(ranking(n.camels)[r] as int == swap_index(o[r] as int, x, y));
            assert(swap_index(swap_index(c, x, y), x, y) == c);
            assert(o[r] < 5);
        }
        assert(leaf_counts(n) =~~= swap_rows(leaf_counts(b), x, y));
    } else {
        assert forall|c: int, r: int| 0 <= c < NUM_CAMELS && 0 <= r < NUM_CAMELS implies
            #[trigger] game_counts(n, plies)[c][r] == swap_rows(game_counts(b, plies), x, y)[c][r] by {
            let sc = swap_index(c, x, y);
            let f = |i: int| block(b, i, plies)[sc][r];
            lemma_blocks(n, plies, c, r);
            lemma_blocks(b, plies, sc, r);
            lemma_sum5_swap(f, x, y);
            assert forall|i: int| 0 <= i < NUM_CAMELS implies #[trigger] block(n, i, plies)[c][r] == f(
                swap_index(i, x, y),
            ) by {
                lemma_block_relabel(b, x, y, i, plies);
            }
            assert(block(n, 0, plies)[c][r] == f(swap_index(0, x, y)));
            assert(block(n, 1, plies)[c][r] == f(swap_index(1, x, y)));
            assert(block(n, 2, plies)[c][r] == f(swap_index(2, x, y)));
            assert(block(n, 3, plies)[c][r] == f(swap_index(3, x, y)));
            assert(block(n, 4, plies)[c][r] == f(swap_index(4, x, y)));
        }
        assert(game_counts(n, plies) =~~= swap_rows(game_counts(b, plies), x, y));
    }
}

} // verus!
