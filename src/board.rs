//! The board: five packed camels and the terrain of the sixteen tiles.
use vstd::prelude::*;
use crate::camel::{
    camel_has_finished, camel_has_rolled, camel_tile_and_position, encode, pos_of, rolled_of,
    tile_of, Camel, BOARD_SIZE, FINISH_TILE, NUM_CAMELS,
};

verus! {

/// The packed camels, indexed by camel.
pub type Camels = [Camel; NUM_CAMELS];

/// One flag per tile of the track.
pub type Terrain = [bool; BOARD_SIZE];

/// Camel indices from the leading camel (index 0) to the trailing one.
pub type CamelOrder = [usize; NUM_CAMELS];

/// Largest value of the die.
pub const MAX_ROLL: u8 = 3;

#[derive(Copy, Clone)]
pub struct Board {
    pub camels: Camels,
    pub oasis: Terrain,
    pub desert: Terrain,
}

/// The die shows `tiles` for camel `camel`.
#[derive(Copy, Clone)]
pub struct Roll {
    pub camel: usize,
    pub tiles: u8,
}

/// A board as the contracts see it.
pub struct BoardView {
    pub camels: Seq<u8>,
    pub oasis: Seq<bool>,
    pub desert: Seq<bool>,
}

impl View for Board {
    type V = BoardView;

    open spec fn view(&self) -> BoardView {
        BoardView { camels: self.camels@, oasis: self.oasis@, desert: self.desert@ }
    }
}

/// A legal roll names a camel and a face of the die.
pub open spec fn valid_roll(roll: Roll) -> bool {
    roll.camel < NUM_CAMELS && 1 <= roll.tiles <= MAX_ROLL
}

impl BoardView {
    pub open spec fn tile(self, i: int) -> int {
        tile_of(self.camels[i])
    }

    pub open spec fn pos(self, i: int) -> int {
        pos_of(self.camels[i])
    }

    pub open spec fn rolled(self, i: int) -> bool {
        rolled_of(self.camels[i])
    }

    /// Some camel has crossed the finish.
    pub open spec fn is_terminal(self) -> bool {
        exists|i: int| 0 <= i < NUM_CAMELS && self.tile(i) >= FINISH_TILE
    }

    /// Every camel has rolled in this round.
    pub open spec fn all_rolled(self) -> bool {
        forall|i: int| 0 <= i < NUM_CAMELS ==> self.rolled(i)
    }

    /// Unrolled camels among the first `n`.
    pub open spec fn unrolled_among(self, n: int) -> nat
        decreases n,
    {
        if n <= 0 {
            0
        } else {
            self.unrolled_among(n - 1) + if !self.rolled(n - 1) {
                1nat
            } else {
                0nat
            }
        }
    }

    pub open spec fn num_unrolled(self) -> nat {
        self.unrolled_among(NUM_CAMELS as int)
    }

    /// Camels among the first `n` that stand on `tile`.
    pub open spec fn count_on(self, tile: int, n: int) -> nat
        decreases n,
    {
        if n <= 0 {
            0
        } else {
            self.count_on(tile, n - 1) + if self.tile(n - 1) == tile {
                1nat
            } else {
                0nat
            }
        }
    }

    /// Height of the stack on `tile`.
    pub open spec fn height(self, tile: int) -> nat {
        self.count_on(tile, NUM_CAMELS as int)
    }

    /// A camel may roll now: it has not rolled, or the round has just been completed.
    pub open spec fn movable(self, i: int) -> bool {
        self.all_rolled() || !self.rolled(i)
    }

    /// The three rolls of camel `i`, if it may roll.
    pub open spec fn moves_of(self, i: int) -> Seq<Roll> {
        if self.movable(i) {
            seq![
                Roll { camel: i as usize, tiles: 1 },
                Roll { camel: i as usize, tiles: 2 },
                Roll { camel: i as usize, tiles: 3 },
            ]
        } else {
            Seq::empty()
        }
    }

    /// The legal rolls of the first `n` camels, camel by camel, die value by die value.
    pub open spec fn moves_upto(self, n: int) -> Seq<Roll>
        decreases n,
    {
        if n <= 0 {
            Seq::empty()
        } else {
            self.moves_upto(n - 1) + self.moves_of(n - 1)
        }
    }

    /// Every legal roll from this board.
    pub open spec fn moves(self) -> Seq<Roll> {
        self.moves_upto(NUM_CAMELS as int)
    }

    /// The tile the rolled camel aims at before any terrain applies.
    pub open spec fn target(self, roll: Roll) -> int {
        self.tile(roll.camel as int) + roll.tiles
    }

    /// The moving stack lands on a desert and goes one tile back, underneath.
    pub open spec fn goes_under(self, roll: Roll) -> bool {
        self.target(roll) < BOARD_SIZE && self.desert[self.target(roll)]
    }

    /// The tile where the moving stack ends up.
    pub open spec fn destination(self, roll: Roll) -> int {
        let t = self.target(roll);
        if t >= BOARD_SIZE {
            FINISH_TILE as int
        } else if self.desert[t] {
            t - 1
        } else if self.oasis[t] {
            t + 1
        } else {
            t
        }
    }

    /// Camel `i` rides along: it is the rolled camel or stands above it.
    pub open spec fn moving(self, roll: Roll, i: int) -> bool {
        self.tile(i) == self.tile(roll.camel as int) && self.pos(i) >= self.pos(roll.camel as int)
    }

    /// Riding camels among the first `n`.
    pub open spec fn moving_among(self, roll: Roll, n: int) -> nat
        decreases n,
    {
        if n <= 0 {
            0
        } else {
            self.moving_among(roll, n - 1) + if self.moving(roll, n - 1) {
                1nat
            } else {
                0nat
            }
        }
    }

    /// Height of the moving stack.
    pub open spec fn moving_height(self, roll: Roll) -> nat {
        self.moving_among(roll, NUM_CAMELS as int)
    }

    /// Tile of camel `i` after the roll.
    pub open spec fn tile_after(self, roll: Roll, i: int) -> int {
        if self.moving(roll, i) {
            self.destination(roll)
        } else {
            self.tile(i)
        }
    }

    /// Position of camel `i` after the roll: the moving stack keeps its order and goes
    /// on top of the destination, or underneath it on a desert.
    pub open spec fn pos_after(self, roll: Roll, i: int) -> int {
        let p = self.pos(roll.camel as int);
        if self.moving(roll, i) {
            if self.goes_under(roll) {
                self.pos(i) - p
            } else {
                self.height(self.destination(roll)) + self.pos(i) - p
            }
        } else if self.goes_under(roll) && self.tile(i) == self.destination(roll) {
            self.pos(i) + self.moving_height(roll)
        } else {
            self.pos(i)
        }
    }

    /// Rolled bit of camel `i` once the roll is marked, before a completed round resets.
    pub open spec fn marked(self, roll: Roll, i: int) -> bool {
        i == roll.camel || (!self.all_rolled() && self.rolled(i))
    }

    /// The roll completes the round.
    pub open spec fn completes_round(self, roll: Roll) -> bool {
        forall|i: int| 0 <= i < NUM_CAMELS ==> self.marked(roll, i)
    }

    pub open spec fn rolled_after(self, roll: Roll, i: int) -> bool {
        self.marked(roll, i) && !self.completes_round(roll)
    }

    pub open spec fn camel_after(self, roll: Roll, i: int) -> u8 {
        encode(self.tile_after(roll, i), self.pos_after(roll, i), self.rolled_after(roll, i)) as u8
    }

    /// The board after `roll`.
    pub open spec fn succ(self, roll: Roll) -> BoardView {
        BoardView {
            camels: Seq::new(NUM_CAMELS as nat, |i: int| self.camel_after(roll, i)),
            oasis: self.oasis,
            desert: self.desert,
        }
    }

    pub open spec fn shaped(self) -> bool {
        self.camels.len() == NUM_CAMELS && self.oasis.len() == BOARD_SIZE && self.desert.len()
            == BOARD_SIZE
    }

    /// Camels stack from position 0 up, one camel per place, and no tile is both
    /// oasis and desert.
    pub open spec fn well_formed(self) -> bool {
        &&& self.shaped()
        &&& forall|i: int| 0 <= i < NUM_CAMELS ==> self.tile(i) <= FINISH_TILE
        &&& forall|i: int| 0 <= i < NUM_CAMELS ==> self.pos(i) < self.height(self.tile(i))
        &&& forall|i: int, j: int|
            0 <= i < NUM_CAMELS && 0 <= j < NUM_CAMELS && i != j ==> self.tile(i) != self.tile(j)
                || self.pos(i) != self.pos(j)
        &&& forall|t: int| 0 <= t < BOARD_SIZE ==> !(self.oasis[t] && self.desert[t])
    }
}


/// One comparator of a sorting network: the larger camel goes to `large_index`.
pub open spec fn compare_swap_spec(perm: Seq<usize>, camels: Seq<u8>, large_index: int, small_index: int) -> Seq<usize> {
    if camels[perm[large_index] as int] < camels[perm[small_index] as int] {
        perm.update(large_index, perm[small_index]).update(small_index, perm[large_index])
    } else {
        perm
    }
}

/// The ranking that `camel_order` computes with a nine-comparator sorting network.
pub open spec fn ranking(camels: Seq<u8>) -> Seq<usize> {
    let p = seq![0usize, 1, 2, 3, 4];
    let p = compare_swap_spec(p, camels, 0, 1);
    let p = compare_swap_spec(p, camels, 2, 3);
    let p = compare_swap_spec(p, camels, 0, 2);
    let p = compare_swap_spec(p, camels, 1, 4);
    let p = compare_swap_spec(p, camels, 0, 1);
    let p = compare_swap_spec(p, camels, 2, 3);
    let p = compare_swap_spec(p, camels, 1, 2);
    let p = compare_swap_spec(p, camels, 3, 4);
    compare_swap_spec(p, camels, 2, 3)
}

/// `o` lists each of the five camels exactly once.
pub open spec fn is_permutation(o: Seq<usize>) -> bool {
    &&& o.len() == NUM_CAMELS
    &&& forall|r: int| 0 <= r < NUM_CAMELS ==> o[r] < NUM_CAMELS
    &&& forall|r1: int, r2: int| 0 <= r1 < r2 < NUM_CAMELS ==> o[r1] != o[r2]
}

/// Earlier in `o` means further ahead: a higher tile, or higher in the same stack.
pub open spec fn leads_first(camels: Seq<u8>, o: Seq<usize>) -> bool {
    forall|r1: int, r2: int|
        0 <= r1 < r2 < NUM_CAMELS ==> tile_of(camels[o[r1] as int]) * 5 + pos_of(
            camels[o[r1] as int],
        ) >= tile_of(camels[o[r2] as int]) * 5 + pos_of(camels[o[r2] as int])
}

/// The camel at rank `i` of `p` is at least as far ahead as the one at rank `j`.
spec fn ahead_or_level(p: Seq<usize>, camels: Seq<u8>, i: int, j: int) -> bool {
    camels[p[i] as int] >= camels[p[j] as int]
}

proof fn lemma_compare_swap(p: Seq<usize>, camels: Seq<u8>, l: int, s: int)
    requires
        is_permutation(p),
        camels.len() == NUM_CAMELS,
        0 <= l < NUM_CAMELS,
        0 <= s < NUM_CAMELS,
        l != s,
    ensures
        is_permutation(compare_swap_spec(p, camels, l, s)),
        ahead_or_level(compare_swap_spec(p, camels, l, s), camels, l, s),
        ({
            let q = compare_swap_spec(p, camels, l, s);
            &&& camels[q[l] as int] == camels[p[l] as int] || camels[q[l] as int] == camels[p[s] as int]
            &&& camels[q[s] as int] == camels[p[l] as int] || camels[q[s] as int] == camels[p[s] as int]
            &&& camels[q[l] as int] >= camels[p[l] as int]
            &&& camels[q[l] as int] >= camels[p[s] as int]
            &&& camels[q[s] as int] <= camels[p[l] as int]
            &&& camels[q[s] as int] <= camels[p[s] as int]
            &&& forall|k: int| 0 <= k < NUM_CAMELS && k != l && k != s ==> q[k] == p[k]
        }),
{
}

proof fn lemma_chain_sorted(o: Seq<usize>, camels: Seq<u8>)
    requires
        is_permutation(o),
        camels.len() == NUM_CAMELS,
        ahead_or_level(o, camels, 0, 1),
        ahead_or_level(o, camels, 1, 2),
        ahead_or_level(o, camels, 2, 3),
        ahead_or_level(o, camels, 3, 4),
    ensures
        forall|r1: int, r2: int| 0 <= r1 < r2 < NUM_CAMELS ==> camels[o[r1] as int] >= camels[o[r2] as int],
{
}

/// The sorting network puts every board's camels in order, each exactly once.
pub proof fn lemma_ranking_sorted(camels: Seq<u8>)
    requires
        camels.len() == NUM_CAMELS,
    ensures
        is_permutation(ranking(camels)),
        leads_first(camels, ranking(camels)),
{
    let stage0 = seq![0usize, 1, 2, 3, 4];
    assert(is_permutation(stage0));
    lemma_compare_swap(stage0, camels, 0, 1);
    let stage1 = compare_swap_spec(stage0, camels, 0, 1);
    lemma_compare_swap(stage1, camels, 2, 3);
    let stage2 = compare_swap_spec(stage1, camels, 2, 3);
    assert(ahead_or_level(stage2, camels, 0, 1));
    lemma_compare_swap(stage2, camels, 0, 2);
    let stage3 = compare_swap_spec(stage2, camels, 0, 2);
    assert(ahead_or_level(stage3, camels, 0, 1) && ahead_or_level(stage3, camels, 0, 3));
    lemma_compare_swap(stage3, camels, 1, 4);
    let stage4 = compare_swap_spec(stage3, camels, 1, 4);
    assert(ahead_or_level(stage4, camels, 0, 2) && ahead_or_level(stage4, camels, 0, 3)
        && ahead_or_level(stage4, camels, 0, 4));
    lemma_compare_swap(stage4, camels, 0, 1);
    let stage5 = compare_swap_spec(stage4, camels, 0, 1);
    assert(ahead_or_level(stage5, camels, 0, 2) && ahead_or_level(stage5, camels, 0, 3)
        && ahead_or_level(stage5, camels, 1, 4));
    lemma_compare_swap(stage5, camels, 2, 3);
    let stage6 = compare_swap_spec(stage5, camels, 2, 3);
    assert(ahead_or_level(stage6, camels, 0, 1) && ahead_or_level(stage6, camels, 0, 2)
        && ahead_or_level(stage6, camels, 1, 4));
    lemma_compare_swap(stage6, camels, 1, 2);
    let stage7 = compare_swap_spec(stage6, camels, 1, 2);
    assert(ahead_or_level(stage7, camels, 0, 1) && ahead_or_level(stage7, camels, 1, 3)
        && ahead_or_level(stage7, camels, 1, 4));
    lemma_compare_swap(stage7, camels, 3, 4);
    let stage8 = compare_swap_spec(stage7, camels, 3, 4);
    assert(ahead_or_level(stage8, camels, 0, 1) && ahead_or_level(stage8, camels, 1, 2)
        && ahead_or_level(stage8, camels, 1, 3) && ahead_or_level(stage8, camels, 2, 4));
    lemma_compare_swap(stage8, camels, 2, 3);
    let o = compare_swap_spec(stage8, camels, 2, 3);
    assert(ahead_or_level(o, camels, 0, 1) && ahead_or_level(o, camels, 1, 2)
        && ahead_or_level(o, camels, 3, 4));
    assert(o == ranking(camels));
    lemma_chain_sorted(o, camels);
    assert forall|r1: int, r2: int| 0 <= r1 < r2 < NUM_CAMELS implies tile_of(camels[o[r1] as int]) * 5
        + pos_of(camels[o[r1] as int]) >= tile_of(camels[o[r2] as int]) * 5 + pos_of(
        camels[o[r2] as int],
    ) by {
        let a = camels[o[r1] as int];
        let b = camels[o[r2] as int];
        assert(tile_of(a) * 5 + pos_of(a) == a / 2);
        assert(tile_of(b) * 5 + pos_of(b) == b / 2);
    }
}

fn compare_swap(permutation: &mut CamelOrder, camels: &Camels, large_index: usize, small_index: usize)
    requires
        large_index < NUM_CAMELS,
        small_index < NUM_CAMELS,
        forall|r: int| 0 <= r < NUM_CAMELS ==> old(permutation)[r] < NUM_CAMELS,
    ensures
        final(permutation)@ == compare_swap_spec(old(permutation)@, camels@, large_index as int, small_index as int),
{
    if camels[permutation[large_index]] < camels[permutation[small_index]] {
        let large = permutation[large_index];
        permutation[large_index] = permutation[small_index];
        permutation[small_index] = large;
    }
    proof {
        assert(final(permutation)@ =~= compare_swap_spec(old(permutation)@, camels@, large_index as int, small_index as int));
    }
}

proof fn lemma_count_bound(bv: BoardView, tile: int, n: int)
    requires
        0 <= n,
    ensures
        bv.count_on(tile, n) <= n,
    decreases n,
{
    if n > 0 {
        lemma_count_bound(bv, tile, n - 1);
    }
}

proof fn lemma_moving_bound(bv: BoardView, roll: Roll, n: int)
    requires
        0 <= n,
    ensures
        bv.moving_among(roll, n) <= n,
    decreases n,
{
    if n > 0 {
        lemma_moving_bound(bv, roll, n - 1);
    }
}

/// Rolls left in the current round; a board whose camels have all rolled starts anew.
pub open spec fn rolls_left(b: BoardView) -> nat {
    if b.all_rolled() {
        5
    } else {
        b.num_unrolled()
    }
}

proof fn lemma_moves_count_upto(b: BoardView, n: int)
    requires
        0 <= n <= NUM_CAMELS,
        b.camels.len() == NUM_CAMELS,
    ensures
        b.moves_upto(n).len() == 3 * if b.all_rolled() { n as nat } else { b.unrolled_among(n) },
        forall|k: int| 0 <= k < b.moves_upto(n).len() ==> {
            let m = #[trigger] b.moves_upto(n)[k];
            &&& m.camel < n
            &&& b.movable(m.camel as int)
        },
    decreases n,
{
    if n > 0 {
        lemma_moves_count_upto(b, n - 1);
        let prev = b.moves_upto(n - 1);
        assert forall|k: int| 0 <= k < b.moves_upto(n).len() implies {
            let m = #[trigger] b.moves_upto(n)[k];
            &&& m.camel < n
            &&& b.movable(m.camel as int)
        } by {
            if k >= prev.len() {
                assert(b.moves_upto(n)[k] == b.moves_of(n - 1)[k - prev.len()]);
            } else {
                assert(b.moves_upto(n)[k] == prev[k]);
            }
        }
    }
}

/// A board offers three rolls for each camel left to roll in the round, and only
/// those camels roll.
pub proof fn lemma_moves_count(b: BoardView)
    requires
        b.camels.len() == NUM_CAMELS,
    ensures
        b.moves().len() == 3 * rolls_left(b),
        forall|k: int| 0 <= k < b.moves().len() ==> b.movable(#[trigger] b.moves()[k].camel as int),
        forall|k: int| 0 <= k < b.moves().len() ==> (#[trigger] b.moves()[k]).camel < NUM_CAMELS,
{
    lemma_moves_count_upto(b, NUM_CAMELS as int);
}

/// A board still in its round has a camel left to roll.
pub proof fn lemma_rolls_left_positive(b: BoardView)
    ensures
        1 <= rolls_left(b) <= 5,
{
    reveal_with_fuel(BoardView::unrolled_among, 6);
    if !b.all_rolled() {
        let i = choose|i: int| 0 <= i < NUM_CAMELS && !b.rolled(i);
        assert(!b.rolled(i));
    }
}

/// After a legal roll of a camel that may roll, one fewer camel is left to roll, and a
/// round that is complete starts anew with all five.
pub proof fn lemma_rolls_left_after(b: BoardView, roll: Roll)
    requires
        b.shaped(),
        !b.is_terminal(),
        valid_roll(roll),
        b.movable(roll.camel as int),
    ensures
        rolls_left(b.succ(roll)) == if rolls_left(b) == 1 { 5 } else { (rolls_left(b) - 1) as nat },
        !b.succ(roll).all_rolled(),
        b.succ(roll).num_unrolled() == rolls_left(b.succ(roll)),
{
    let n = b.succ(roll);
    assert forall|i: int| 0 <= i < NUM_CAMELS implies n.rolled(i) == b.rolled_after(roll, i) by {
        lemma_count_bound(b, b.destination(roll), NUM_CAMELS as int);
        lemma_moving_bound(b, roll, NUM_CAMELS as int);
        assert(b.tile(i) < 16);
        let v = encode(b.tile_after(roll, i), b.pos_after(roll, i), b.rolled_after(roll, i));
        assert(0 <= v < 256);
    }
    reveal_with_fuel(BoardView::unrolled_among, 6);
    assert(n.rolled(0) == b.rolled_after(roll, 0));
    assert(n.rolled(1) == b.rolled_after(roll, 1));
    assert(n.rolled(2) == b.rolled_after(roll, 2));
    assert(n.rolled(3) == b.rolled_after(roll, 3));
    assert(n.rolled(4) == b.rolled_after(roll, 4));
    if b.completes_round(roll) {
        assert(b.marked(roll, 0) && b.marked(roll, 1) && b.marked(roll, 2) && b.marked(roll, 3)
            && b.marked(roll, 4));
    } else {
        let j = choose|j: int| 0 <= j < NUM_CAMELS && !b.marked(roll, j);
        assert(!b.marked(roll, j));
        assert(!n.rolled(j));
    }
}

/// A roll that aims past the last tile takes the rolled camel across the finish.
pub proof fn lemma_finish_when_past_track(b: BoardView, roll: Roll)
    requires
        b.shaped(),
        !b.is_terminal(),
        valid_roll(roll),
        b.target(roll) >= BOARD_SIZE,
    ensures
        b.succ(roll).is_terminal(),
{
    let c = roll.camel as int;
    reveal_with_fuel(BoardView::count_on, 6);
    assert(b.tile(0) < 16 && b.tile(1) < 16 && b.tile(2) < 16 && b.tile(3) < 16 && b.tile(4) < 16);
    assert(b.height(FINISH_TILE as int) == 0);
    assert(b.pos_after(roll, c) == 0);
    crate::camel::lemma_decode_encode(16, 0, b.rolled_after(roll, c));
    assert(b.succ(roll).tile(c) == 16);
}

/// Eight terrain flags from tile `lo` packed into a byte, the first in the high bit.
pub open spec fn terrain_byte(t: Seq<bool>, lo: int) -> int {
    (if t[lo] { 128int } else { 0int }) + (if t[lo + 1] { 64int } else { 0int }) + (if t[lo + 2] {
        32int
    } else {
        0int
    }) + (if t[lo + 3] { 16int } else { 0int }) + (if t[lo + 4] { 8int } else { 0int }) + (if t[lo
        + 5] {
        4int
    } else {
        0int
    }) + (if t[lo + 6] { 2int } else { 0int }) + (if t[lo + 7] { 1int } else { 0int })
}

/// The canonical bytes of a board: the five camels, then the oasis and desert flags.
pub open spec fn fingerprint(b: BoardView) -> Seq<u8> {
    seq![
        b.camels[0],
        b.camels[1],
        b.camels[2],
        b.camels[3],
        b.camels[4],
        terrain_byte(b.oasis, 0) as u8,
        terrain_byte(b.oasis, 8) as u8,
        terrain_byte(b.desert, 0) as u8,
        terrain_byte(b.desert, 8) as u8,
    ]
}

fn pack_terrain(t: &Terrain, lo: usize) -> (r: u8)
    requires
        lo == 0 || lo == 8,
    ensures
        r == terrain_byte(t@, lo as int),
{
    let mut byte: u8 = 0;
    if t[lo] {
        byte = byte + 128;
    }
    if t[lo + 1] {
        byte = byte + 64;
    }
    if t[lo + 2] {
        byte = byte + 32;
    }
    if t[lo + 3] {
        byte = byte + 16;
    }
    if t[lo + 4] {
        byte = byte + 8;
    }
    if t[lo + 5] {
        byte = byte + 4;
    }
    if t[lo + 6] {
        byte = byte + 2;
    }
    if t[lo + 7] {
        byte = byte + 1;
    }
    byte
}

/// Camels among the first `n` on `tile` with a position in `[lo, hi)`.
pub open spec fn in_range_among(b: BoardView, tile: int, lo: int, hi: int, n: int) -> nat
    decreases n,
{
    if n <= 0 {
        0
    } else {
        in_range_among(b, tile, lo, hi, n - 1) + if b.tile(n - 1) == tile && lo <= b.pos(n - 1)
            < hi {
            1nat
        } else {
            0nat
        }
    }
}

proof fn lemma_range_split(b: BoardView, tile: int, lo: int, mid: int, hi: int, n: int)
    requires
        lo <= mid <= hi,
        0 <= n,
    ensures
        in_range_among(b, tile, lo, hi, n) == in_range_among(b, tile, lo, mid, n)
            + in_range_among(b, tile, mid, hi, n),
    decreases n,
{
    if n > 0 {
        lemma_range_split(b, tile, lo, mid, hi, n - 1);
    }
}

/// Distinct places: at most one camel stands at a given position of a tile.
proof fn lemma_one_per_place(b: BoardView, tile: int, v: int)
    requires
        b.well_formed(),
    ensures
        in_range_among(b, tile, v, v + 1, 5) <= 1,
{
    reveal_with_fuel(in_range_among, 6);
    assert(b.tile(0) != b.tile(1) || b.pos(0) != b.pos(1));
    assert(b.tile(0) != b.tile(2) || b.pos(0) != b.pos(2));
    assert(b.tile(0) != b.tile(3) || b.pos(0) != b.pos(3));
    assert(b.tile(0) != b.tile(4) || b.pos(0) != b.pos(4));
    assert(b.tile(1) != b.tile(2) || b.pos(1) != b.pos(2));
    assert(b.tile(1) != b.tile(3) || b.pos(1) != b.pos(3));
    assert(b.tile(1) != b.tile(4) || b.pos(1) != b.pos(4));
    assert(b.tile(2) != b.tile(3) || b.pos(2) != b.pos(3));
    assert(b.tile(2) != b.tile(4) || b.pos(2) != b.pos(4));
    assert(b.tile(3) != b.tile(4) || b.pos(3) != b.pos(4));
}

/// No more camels fit in a range of positions than it has places.
proof fn lemma_range_fits(b: BoardView, tile: int, lo: int, hi: int)
    requires
        b.well_formed(),
        lo <= hi,
    ensures
        in_range_among(b, tile, lo, hi, 5) <= hi - lo,
    decreases hi - lo,
{
    if lo < hi {
        lemma_range_split(b, tile, lo, hi - 1, hi, 5);
        lemma_one_per_place(b, tile, hi - 1);
        lemma_range_fits(b, tile, lo, hi - 1);
    } else {
        reveal_with_fuel(in_range_among, 6);
    }
}

proof fn lemma_height_is_range(b: BoardView, tile: int, n: int)
    requires
        b.well_formed(),
        0 <= n <= 5,
    ensures
        b.count_on(tile, n) == in_range_among(b, tile, 0, b.height(tile) as int, n),
    decreases n,
{
    if n > 0 {
        lemma_height_is_range(b, tile, n - 1);
        assert(b.pos(n - 1) >= 0);
        if b.tile(n - 1) == tile {
            assert(b.pos(n - 1) < b.height(b.tile(n - 1)));
        }
    }
}

/// On a well-formed board the stack on a tile fills positions 0 up to its height:
/// exactly `p` of its camels stand below position `p`.
proof fn lemma_dense(b: BoardView, tile: int, p: int)
    requires
        b.well_formed(),
        0 <= p <= b.height(tile),
    ensures
        in_range_among(b, tile, 0, p, 5) == p,
        in_range_among(b, tile, p, b.height(tile) as int, 5) == b.height(tile) - p,
{
    let h = b.height(tile) as int;
    lemma_height_is_range(b, tile, 5);
    lemma_range_split(b, tile, 0, p, h, 5);
    lemma_range_fits(b, tile, 0, p);
    lemma_range_fits(b, tile, p, h);
}

proof fn lemma_moving_is_range(b: BoardView, roll: Roll)
    requires
        b.well_formed(),
        roll.camel < NUM_CAMELS,
    ensures
        b.moving_height(roll) == in_range_among(
            b,
            b.tile(roll.camel as int),
            b.pos(roll.camel as int),
            b.height(b.tile(roll.camel as int)) as int,
            5,
        ),
{
    let t = b.tile(roll.camel as int);
    reveal_with_fuel(BoardView::moving_among, 6);
    reveal_with_fuel(in_range_among, 6);
    assert(b.tile(0) == t ==> b.pos(0) < b.height(t));
    assert(b.tile(1) == t ==> b.pos(1) < b.height(t));
    assert(b.tile(2) == t ==> b.pos(2) < b.height(t));
    assert(b.tile(3) == t ==> b.pos(3) < b.height(t));
    assert(b.tile(4) == t ==> b.pos(4) < b.height(t));
}

/// Heights after a roll: the moving stack leaves its tile and joins the destination.
proof fn lemma_heights_after(b: BoardView, roll: Roll, x: int)
    requires
        b.shaped(),
        roll.camel < NUM_CAMELS,
        forall|i: int| 0 <= i < NUM_CAMELS ==> #[trigger] b.succ(roll).tile(i) == b.tile_after(roll, i),
        b.destination(roll) != b.tile(roll.camel as int) ==> b.destination(roll) > b.tile(roll.camel as int),
    ensures
        b.succ(roll).height(x) == if x == b.destination(roll) {
            b.height(x) as int + if x != b.tile(roll.camel as int) { b.moving_height(roll) as int } else { 0int }
        } else if x == b.tile(roll.camel as int) {
            b.height(x) - b.moving_height(roll)
        } else {
            b.height(x) as int
        },
{
    let n = b.succ(roll);
    reveal_with_fuel(BoardView::count_on, 6);
    reveal_with_fuel(BoardView::moving_among, 6);
    assert(n.tile(0) == b.tile_after(roll, 0));
    assert(n.tile(1) == b.tile_after(roll, 1));
    assert(n.tile(2) == b.tile_after(roll, 2));
    assert(n.tile(3) == b.tile_after(roll, 3));
    assert(n.tile(4) == b.tile_after(roll, 4));
}

/// A roll keeps a well-formed board well formed.
pub proof fn lemma_update_well_formed(b: BoardView, roll: Roll)
    requires
        b.well_formed(),
        !b.is_terminal(),
        valid_roll(roll),
    ensures
        b.succ(roll).well_formed(),
{
    let c = roll.camel as int;
    let t = b.tile(c);
    let p = b.pos(c);
    let d = b.destination(roll);
    let h = b.moving_height(roll);
    let n = b.succ(roll);
    assert(forall|i: int| 0 <= i < NUM_CAMELS ==> b.tile(i) < 16);
    lemma_moving_is_range(b, roll);
    lemma_dense(b, t, p);
    assert(b.pos(c) < b.height(t));
    assert(h == b.height(t) - p);
    // The moving stack and the destination's stack fit on one tile.
    assert(d != t ==> b.height(d) + h <= 5) by {
        reveal_with_fuel(BoardView::count_on, 6);
        reveal_with_fuel(BoardView::moving_among, 6);
    }
    assert(b.height(t) <= 5) by {
        lemma_count_bound(b, t, 5);
    }
    assert forall|i: int| 0 <= i < NUM_CAMELS implies 0 <= #[trigger] b.pos_after(roll, i) < 5
        && 0 <= b.tile_after(roll, i) <= 16 by {
        if b.tile(i) == d {
            assert(b.pos(i) < b.height(d));
        }
        if b.tile(i) == t {
            assert(b.pos(i) < b.height(t));
        }
    }
    assert forall|i: int| 0 <= i < NUM_CAMELS implies #[trigger] n.tile(i) == b.tile_after(roll, i)
        && n.pos(i) == b.pos_after(roll, i) by {
        assert(0 <= b.pos_after(roll, i) < 5);
        crate::camel::lemma_decode_encode(
            b.tile_after(roll, i),
            b.pos_after(roll, i),
            b.rolled_after(roll, i),
        );
    }
    assert forall|x: int| #[trigger] n.height(x) == if x == d {
        b.height(x) as int + if x != t { h as int } else { 0int }
    } else if x == t {
        b.height(x) - h
    } else {
        b.height(x) as int
    } by {
        lemma_heights_after(b, roll, x);
    }
    assert forall|i: int| 0 <= i < NUM_CAMELS implies #[trigger] n.pos(i) < n.height(n.tile(i)) by {
        assert(b.pos(i) < b.height(b.tile(i)));
        if b.moving(roll, i) {
        } else if b.tile(i) == t {
            assert(b.pos(i) < p);
        }
    }
    assert forall|i: int, j: int|
        0 <= i < NUM_CAMELS && 0 <= j < NUM_CAMELS && i != j implies n.tile(i) != n.tile(j) || n.pos(i)
        != n.pos(j) by {
        assert(b.tile(i) != b.tile(j) || b.pos(i) != b.pos(j));
        assert(b.pos(i) < b.height(b.tile(i)));
        assert(b.pos(j) < b.height(b.tile(j)));
    }
}

impl Board {
    /// A fresh board: the placement and terrain given, every rolled bit clear.
    pub fn new(camels: Camels, oasis: Terrain, desert: Terrain) -> (r: Board)
        ensures
            r@.oasis == oasis@,
            r@.desert == desert@,
            forall|i: int| 0 <= i < NUM_CAMELS ==> r.camels[i] == camels[i] - camels[i] % 2,
            (BoardView { camels: camels@, oasis: oasis@, desert: desert@ }).well_formed()
                ==> r@.well_formed(),
    {
        let mut cleared = camels;
        for i in 0..NUM_CAMELS
            invariant
                forall|j: int| 0 <= j < i ==> cleared[j] == camels[j] - camels[j] % 2,
                forall|j: int| i <= j < NUM_CAMELS ==> cleared[j] == camels[j],
        {
            cleared[i] = crate::camel::set_roll_false(&camels[i]);
        }
        let r = Board { camels: cleared, oasis, desert };
        proof {
            let given = BoardView { camels: camels@, oasis: oasis@, desert: desert@ };
            assert forall|i: int| 0 <= i < NUM_CAMELS implies #[trigger] r@.tile(i) == given.tile(i)
                && r@.pos(i) == given.pos(i) by {
                assert(r.camels[i] / 2 == camels[i] / 2);
            }
            assert forall|x: int| #[trigger] r@.height(x) == given.height(x) by {
                reveal_with_fuel(BoardView::count_on, 6);
                assert(r@.tile(0) == given.tile(0) && r@.tile(1) == given.tile(1) && r@.tile(2)
                    == given.tile(2) && r@.tile(3) == given.tile(3) && r@.tile(4) == given.tile(4));
            }
        }
        r
    }

    /// Number of camels standing on `tile`.
    pub fn stack_height(&self, tile: usize) -> (r: usize)
        ensures
            r == self@.height(tile as int),
            r <= NUM_CAMELS,
    {
        let mut count: usize = 0;
        for i in 0..NUM_CAMELS
            invariant
                count == self@.count_on(tile as int, i as int),
                count <= i,
        {
            if crate::camel::camel_tile(&self.camels[i]) == tile {
                count = count + 1;
            }
        }
        count
    }

    fn moving_height(&self, roll: &Roll) -> (r: usize)
        requires
            roll.camel < NUM_CAMELS,
        ensures
            r == self@.moving_height(*roll),
            r <= NUM_CAMELS,
    {
        let (current_tile, current_position) = camel_tile_and_position(&self.camels[roll.camel]);
        let mut count: usize = 0;
        for i in 0..NUM_CAMELS
            invariant
                roll.camel < NUM_CAMELS,
                current_tile == self@.tile(roll.camel as int),
                current_position == self@.pos(roll.camel as int),
                count == self@.moving_among(*roll, i as int),
                count <= i,
        {
            let (tile, position) = camel_tile_and_position(&self.camels[i]);
            if tile == current_tile && position >= current_position {
                count = count + 1;
            }
        }
        count
    }

    /// The board after `roll`: the rolled camel and every camel above it move together
    /// (see `BoardView::succ`), and the camel is marked as rolled.
    pub fn update(&self, roll: &Roll) -> (r: Board)
        requires
            !self@.is_terminal(),
            valid_roll(*roll),
        ensures
            r@ == self@.succ(*roll),
            self@.well_formed() ==> r@.well_formed(),
    {
        let ghost bv = self@;
        proof {
            if bv.well_formed() {
                lemma_update_well_formed(bv, *roll);
            }
        }
        let c = roll.camel;
        let (current_tile, current_position) = camel_tile_and_position(&self.camels[c]);
        assert(current_tile < BOARD_SIZE) by {
            if current_tile >= BOARD_SIZE {
                assert(bv.tile(c as int) >= FINISH_TILE);
            }
        }
        let target = current_tile + roll.tiles as usize;
        let goes_under = target < BOARD_SIZE && self.desert[target];
        let destination: usize = if target >= BOARD_SIZE {
            FINISH_TILE
        } else if self.desert[target] {
            target - 1
        } else if self.oasis[target] {
            target + 1
        } else {
            target
        };
        let destination_height = self.stack_height(destination);
        let moving_height = self.moving_height(roll);
        let was_all_rolled = self.all_rolled();
        let mut completes = true;
        for i in 0..NUM_CAMELS
            invariant
                c < NUM_CAMELS,
                c == roll.camel,
                was_all_rolled == bv.all_rolled(),
                bv == self@,
                completes == (forall|j: int| 0 <= j < i ==> bv.marked(*roll, j)),
        {
            let marked = i == c || (!was_all_rolled && camel_has_rolled(&self.camels[i]));
            assert(marked == bv.marked(*roll, i as int));
            if !marked {
                completes = false;
            }
        }
        let mut next = *self;
        for i in 0..NUM_CAMELS
            invariant
                c < NUM_CAMELS,
                c == roll.camel,
                bv == self@,
                valid_roll(*roll),
                current_tile == bv.tile(c as int),
                current_position == bv.pos(c as int),
                current_tile < BOARD_SIZE,
                goes_under == bv.goes_under(*roll),
                destination == bv.destination(*roll),
                destination_height == bv.height(destination as int),
                destination_height <= NUM_CAMELS,
                moving_height == bv.moving_height(*roll),
                moving_height <= NUM_CAMELS,
                was_all_rolled == bv.all_rolled(),
                completes == bv.completes_round(*roll),
                next.oasis == self.oasis,
                next.desert == self.desert,
                forall|j: int| 0 <= j < i ==> next.camels[j] == bv.camel_after(*roll, j),
        {
            let (tile, position) = camel_tile_and_position(&self.camels[i]);
            let moving = tile == current_tile && position >= current_position;
            let (new_tile, new_position): (usize, usize) = if moving {
                if goes_under {
                    (destination, position - current_position)
                } else {
                    (destination, destination_height + position - current_position)
                }
            } else if goes_under && tile == destination {
                (tile, position + moving_height)
            } else {
                (tile, position)
            };
            let marked = i == c || (!was_all_rolled && camel_has_rolled(&self.camels[i]));
            let rolled: usize = if marked && !completes {
                1
            } else {
                0
            };
            assert(tile <= 25) by {
                assert(bv.camels[i as int] < 256);
            }
            assert(new_tile == bv.tile_after(*roll, i as int));
            assert(new_position == bv.pos_after(*roll, i as int));
            assert(marked == bv.marked(*roll, i as int));
            assert((rolled == 1) == bv.rolled_after(*roll, i as int));
            next.camels[i] = ((new_tile * 5 + new_position) * 2 + rolled) as u8;
            assert(next.camels[i as int] == bv.camel_after(*roll, i as int));
        }
        proof {
            assert(next@.camels =~= bv.succ(*roll).camels);
        }
        next
    }

    /// The board after `roll`, with the tile the camel aimed at before terrain applied.
    pub fn update_with_target(&self, roll: &Roll) -> (r: (Board, usize))
        requires
            !self@.is_terminal(),
            valid_roll(*roll),
        ensures
            r.0@ == self@.succ(*roll),
            r.1 == self@.target(*roll),
    {
        let (current_tile, _) = camel_tile_and_position(&self.camels[roll.camel]);
        let original_target_tile = current_tile + roll.tiles as usize;
        let board = self.update(roll);
        (board, original_target_tile)
    }

    /// Camel indices from the leader to the last camel.
    pub fn camel_order(&self) -> (r: CamelOrder)
        ensures
            r@ == ranking(self@.camels),
            is_permutation(r@),
            leads_first(self@.camels, r@),
    {
        let mut permutation: CamelOrder = [0, 1, 2, 3, 4];
        assert(permutation@ =~= seq![0usize, 1, 2, 3, 4]);
        compare_swap(&mut permutation, &self.camels, 0, 1);
        compare_swap(&mut permutation, &self.camels, 2, 3);
        compare_swap(&mut permutation, &self.camels, 0, 2);
        compare_swap(&mut permutation, &self.camels, 1, 4);
        compare_swap(&mut permutation, &self.camels, 0, 1);
        compare_swap(&mut permutation, &self.camels, 2, 3);
        compare_swap(&mut permutation, &self.camels, 1, 2);
        compare_swap(&mut permutation, &self.camels, 3, 4);
        compare_swap(&mut permutation, &self.camels, 2, 3);
        proof {
            lemma_ranking_sorted(self@.camels);
        }
        permutation
    }

    /// Some camel has crossed the finish.
    pub fn is_terminal(&self) -> (r: bool)
        ensures
            r == self@.is_terminal(),
    {
        for i in 0..NUM_CAMELS
            invariant
                forall|j: int| 0 <= j < i ==> self@.tile(j) < FINISH_TILE,
        {
            if camel_has_finished(&self.camels[i]) {
                assert(self@.tile(i as int) >= FINISH_TILE);
                return true;
            }
        }
        false
    }

    /// Every camel has rolled in this round.
    pub fn all_rolled(&self) -> (r: bool)
        ensures
            r == self@.all_rolled(),
    {
        for i in 0..NUM_CAMELS
            invariant
                forall|j: int| 0 <= j < i ==> self@.rolled(j),
        {
            if !camel_has_rolled(&self.camels[i]) {
                assert(!self@.rolled(i as int));
                return false;
            }
        }
        true
    }

    /// How many camels have yet to roll in this round.
    pub fn num_unrolled(&self) -> (r: u8)
        ensures
            r == self@.num_unrolled(),
            r <= NUM_CAMELS,
    {
        let mut count: u8 = 0;
        for i in 0..NUM_CAMELS
            invariant
                count == self@.unrolled_among(i as int),
                count <= i,
        {
            if !camel_has_rolled(&self.camels[i]) {
                count = count + 1;
            }
        }
        count
    }

    /// The board's canonical bytes: equal exactly when the camels and terrain are.
    pub fn hash(&self) -> (r: [u8; 9])
        ensures
            r@ == fingerprint(self@),
    {
        let r = [
            self.camels[0],
            self.camels[1],
            self.camels[2],
            self.camels[3],
            self.camels[4],
            pack_terrain(&self.oasis, 0),
            pack_terrain(&self.oasis, 8),
            pack_terrain(&self.desert, 0),
            pack_terrain(&self.desert, 8),
        ];
        assert(r@ =~= fingerprint(self@));
        r
    }

    /// Whether the board is well formed: camels stack from position 0 up, one per
    /// place, and no tile is both oasis and desert.
    pub fn is_well_formed(&self) -> (r: bool)
        ensures
            r == self@.well_formed(),
    {
        for i in 0..NUM_CAMELS
            invariant
                forall|j: int| 0 <= j < i ==> self@.tile(j) <= FINISH_TILE,
                forall|j: int| 0 <= j < i ==> self@.pos(j) < self@.height(self@.tile(j)),
                forall|j: int, l: int|
                    0 <= j < i && 0 <= l < NUM_CAMELS && j != l ==> self@.tile(j) != self@.tile(l)
                        || self@.pos(j) != self@.pos(l),
        {
            let (tile, position) = camel_tile_and_position(&self.camels[i]);
            if tile > FINISH_TILE {
                assert(!(self@.tile(i as int) <= FINISH_TILE));
                return false;
            }
            if position >= self.stack_height(tile) {
                assert(!(self@.pos(i as int) < self@.height(self@.tile(i as int))));
                return false;
            }
            for j in 0..NUM_CAMELS
                invariant
                    i < NUM_CAMELS,
                    tile == self@.tile(i as int),
                    position == self@.pos(i as int),
                    forall|l: int| 0 <= l < j && l != i ==> self@.tile(i as int) != self@.tile(l)
                        || self@.pos(i as int) != self@.pos(l),
            {
                let (other_tile, other_position) = camel_tile_and_position(&self.camels[j]);
                if j != i && other_tile == tile && other_position == position {
                    assert(!(self@.tile(i as int) != self@.tile(j as int) || self@.pos(i as int)
                        != self@.pos(j as int)));
                    return false;
                }
            }
        }
        for t in 0..BOARD_SIZE
            invariant
                forall|j: int| 0 <= j < t ==> !(self@.oasis[j] && self@.desert[j]),
        {
            if self.oasis[t] && self.desert[t] {
                assert(self@.oasis[t as int] && self@.desert[t as int]);
                return false;
            }
        }
        true
    }

    /// Every legal roll: each camel that may roll, with each face of the die.
    pub fn potential_moves(&self) -> (r: Vec<Roll>)
        ensures
            r@ == self@.moves(),
    {
        let all_rolled = self.all_rolled();
        let mut potential_moves: Vec<Roll> = Vec::new();
        for camel_num in 0..NUM_CAMELS
            invariant
                all_rolled == self@.all_rolled(),
                potential_moves@ == self@.moves_upto(camel_num as int),
        {
            if all_rolled || !camel_has_rolled(&self.camels[camel_num]) {
                let ghost before = potential_moves@;
                for die_roll in 1..(MAX_ROLL + 1)
                    invariant
                        potential_moves@ == before + Seq::new(
                            (die_roll - 1) as nat,
                            |k: int| Roll { camel: camel_num, tiles: (k + 1) as u8 },
                        ),
                {
                    potential_moves.push(Roll { camel: camel_num, tiles: die_roll });
                    assert(potential_moves@ =~= before + Seq::new(
                        die_roll as nat,
                        |k: int| Roll { camel: camel_num, tiles: (k + 1) as u8 },
                    ));
                }
                assert(potential_moves@ =~= self@.moves_upto(camel_num + 1));
            } else {
                assert(potential_moves@ =~= self@.moves_upto(camel_num + 1));
            }
        }
        potential_moves
    }
}

} // verus!
