//! Counters filled during a solve: camel-by-rank counts and tile landings.
use vstd::prelude::*;
use crate::board::CamelOrder;
use crate::camel::{BOARD_SIZE, NUM_CAMELS};

verus! {

/// A camel-by-rank matrix of counts, `m[c][r]`.
pub open spec fn zero_counts() -> Seq<Seq<int>> {
    Seq::new(NUM_CAMELS as nat, |c: int| Seq::new(NUM_CAMELS as nat, |r: int| 0int))
}

pub open spec fn add_counts(a: Seq<Seq<int>>, b: Seq<Seq<int>>) -> Seq<Seq<int>> {
    Seq::new(
        NUM_CAMELS as nat,
        |c: int| Seq::new(NUM_CAMELS as nat, |r: int| a[c][r] + b[c][r]),
    )
}

/// One outcome: camel `o[r]` finished at rank `r`.
pub open spec fn order_counts(o: Seq<usize>) -> Seq<Seq<int>> {
    Seq::new(
        NUM_CAMELS as nat,
        |c: int| Seq::new(NUM_CAMELS as nat, |r: int| if o[r] == c { 1int } else { 0int }),
    )
}

/// Every cell lies in `[0, bound]`.
pub open spec fn counts_within(m: Seq<Seq<int>>, bound: int) -> bool {
    forall|c: int, r: int| 0 <= c < NUM_CAMELS && 0 <= r < NUM_CAMELS ==> 0 <= #[trigger] m[c][r] <= bound
}

/// How often camel `c` was counted, over all ranks.
pub open spec fn row_total(m: Seq<Seq<int>>, c: int) -> int {
    m[c][0] + m[c][1] + m[c][2] + m[c][3] + m[c][4]
}

/// How often rank `r` was filled, over all camels.
pub open spec fn column_total(m: Seq<Seq<int>>, r: int) -> int {
    m[0][r] + m[1][r] + m[2][r] + m[3][r] + m[4][r]
}

/// Landing counts per tile.
pub open spec fn zero_tiles() -> Seq<int> {
    Seq::new(BOARD_SIZE as nat, |i: int| 0int)
}

pub open spec fn add_tiles(a: Seq<int>, b: Seq<int>) -> Seq<int> {
    Seq::new(BOARD_SIZE as nat, |i: int| a[i] + b[i])
}

pub open spec fn tiles_within(t: Seq<int>, bound: int) -> bool {
    forall|i: int| 0 <= i < BOARD_SIZE ==> 0 <= #[trigger] t[i] <= bound
}

/// Counts how often each camel finished at each rank.
#[derive(Clone, Copy)]
pub struct PositionAccumulator(pub [[u128; NUM_CAMELS]; NUM_CAMELS]);

impl View for PositionAccumulator {
    type V = Seq<Seq<int>>;

    open spec fn view(&self) -> Seq<Seq<int>> {
        Seq::new(
            NUM_CAMELS as nat,
            |c: int| Seq::new(NUM_CAMELS as nat, |r: int| self.0[c][r] as int),
        )
    }
}

impl PositionAccumulator {
    pub fn new() -> (r: PositionAccumulator)
        ensures
            r@ =~~= zero_counts(),
    {
        PositionAccumulator([[0; NUM_CAMELS]; NUM_CAMELS])
    }

    /// One outcome, given as the camels from first to last.
    pub fn from_order(camel_order: &CamelOrder) -> (r: PositionAccumulator)
        requires
            forall|k: int| 0 <= k < NUM_CAMELS ==> camel_order[k] < NUM_CAMELS,
        ensures
            r@ =~~= order_counts(camel_order@),
    {
        let mut counts = [[0u128; NUM_CAMELS]; NUM_CAMELS];
        for position in 0..NUM_CAMELS
            invariant
                forall|k: int| 0 <= k < NUM_CAMELS ==> camel_order[k] < NUM_CAMELS,
                forall|c: int, r: int|
                    0 <= c < NUM_CAMELS && 0 <= r < NUM_CAMELS ==> counts[c][r] == if r
                        < position && camel_order[r] == c {
                        1u128
                    } else {
                        0u128
                    },
        {
            let camel_num = camel_order[position];
            let mut row = counts[camel_num];
            row[position] = 1;
            counts[camel_num] = row;
        }
        let r = PositionAccumulator(counts);
        assert(r@ =~~= order_counts(camel_order@));
        r
    }

    /// Number of outcomes counted: the total of the first camel's row.
    pub fn count_terminal(&self) -> (r: u128)
        requires
            counts_within(self@, u128::MAX as int),
            row_total(self@, 0) <= u128::MAX,
        ensures
            r == row_total(self@, 0),
    {
        let row = self.0[0];
        assert(self@[0][0] == row[0] && self@[0][1] == row[1] && self@[0][2] == row[2]
            && self@[0][3] == row[3] && self@[0][4] == row[4]);
        row[0] + row[1] + row[2] + row[3] + row[4]
    }

    /// Adds `other` cell by cell.
    pub fn add_assign(&mut self, other: &PositionAccumulator)
        requires
            forall|c: int, r: int|
                0 <= c < NUM_CAMELS && 0 <= r < NUM_CAMELS ==> old(self)@[c][r] + other@[c][r]
                    <= u128::MAX,
        ensures
            final(self)@ =~~= add_counts(old(self)@, other@),
    {
        let ghost before = self.0;
        assert forall|c: int, r: int| 0 <= c < NUM_CAMELS && 0 <= r < NUM_CAMELS implies before[c][r]
            + other.0[c][r] <= u128::MAX by {
            assert(old(self)@[c][r] == before[c][r] && other@[c][r] == other.0[c][r]);
        }
        for x in 0..NUM_CAMELS
            invariant
                forall|c: int, r: int|
                    0 <= c < NUM_CAMELS && 0 <= r < NUM_CAMELS ==> before[c][r] + other.0[c][r]
                        <= u128::MAX,
                forall|c: int, r: int|
                    0 <= c < NUM_CAMELS && 0 <= r < NUM_CAMELS ==> self.0[c][r] == if c < x {
                        before[c][r] + other.0[c][r]
                    } else {
                        before[c][r] as int
                    },
        {
            let mut row = self.0[x];
            for y in 0..NUM_CAMELS
                invariant
                    x < NUM_CAMELS,
                    forall|c: int, r: int|
                        0 <= c < NUM_CAMELS && 0 <= r < NUM_CAMELS ==> before[c][r] + other.0[c][r]
                            <= u128::MAX,
                    forall|c: int, r: int|
                        0 <= c < NUM_CAMELS && 0 <= r < NUM_CAMELS ==> self.0[c][r] == if c < x {
                            before[c][r] + other.0[c][r]
                        } else {
                            before[c][r] as int
                        },
                    forall|r: int|
                        0 <= r < NUM_CAMELS ==> row[r] == if r < y {
                            before[x as int][r] + other.0[x as int][r]
                        } else {
                            before[x as int][r] as int
                        },
            {
                row[y] = row[y] + other.0[x][y];
            }
            self.0[x] = row;
        }
        assert(self@ =~~= add_counts(old(self)@, other@));
    }

    /// The cell-by-cell sum of two matrices.
    pub fn add(&self, other: &PositionAccumulator) -> (r: PositionAccumulator)
        requires
            forall|c: int, r: int|
                0 <= c < NUM_CAMELS && 0 <= r < NUM_CAMELS ==> self@[c][r] + other@[c][r]
                    <= u128::MAX,
        ensures
            r@ =~~= add_counts(self@, other@),
    {
        let mut result = *self;
        result.add_assign(other);
        result
    }
}

/// Counts landings per tile.
#[derive(Clone, Copy)]
pub struct TileAccumulator(pub [u64; BOARD_SIZE]);

impl View for TileAccumulator {
    type V = Seq<int>;

    open spec fn view(&self) -> Seq<int> {
        Seq::new(BOARD_SIZE as nat, |i: int| self.0[i] as int)
    }
}

impl TileAccumulator {
    pub fn new() -> (r: TileAccumulator)
        ensures
            r@ =~= zero_tiles(),
    {
        TileAccumulator([0; BOARD_SIZE])
    }

    /// Adds `amount` landings on `tile`.
    pub fn add_landings(&mut self, tile: usize, amount: u64)
        requires
            tile < BOARD_SIZE,
            old(self)@[tile as int] + amount <= u64::MAX,
        ensures
            final(self)@ =~= old(self)@.update(tile as int, old(self)@[tile as int] + amount),
    {
        self.0[tile] = self.0[tile] + amount;
    }

    /// Adds `other` tile by tile.
    pub fn add_assign(&mut self, other: &TileAccumulator)
        requires
            forall|i: int| 0 <= i < BOARD_SIZE ==> old(self)@[i] + other@[i] <= u64::MAX,
        ensures
            final(self)@ =~= add_tiles(old(self)@, other@),
    {
        let ghost before = self.0;
        assert forall|i: int| 0 <= i < BOARD_SIZE implies before[i] + other.0[i] <= u64::MAX by {
            assert(old(self)@[i] == before[i] && other@[i] == other.0[i]);
        }
        for idx in 0..BOARD_SIZE
            invariant
                forall|i: int| 0 <= i < BOARD_SIZE ==> before[i] + other.0[i] <= u64::MAX,
                forall|i: int|
                    0 <= i < BOARD_SIZE ==> self.0[i] == if i < idx {
                        before[i] + other.0[i]
                    } else {
                        before[i] as int
                    },
        {
            self.0[idx] = self.0[idx] + other.0[idx];
        }
        assert(self@ =~= add_tiles(old(self)@, other@));
    }
}

} // verus!
