//! A capacity-bounded cache of sub-results, keyed by board and depth.
use vstd::prelude::*;
use std::collections::HashMap;
use crate::accumulators::{PositionAccumulator, TileAccumulator};
use crate::board::{Board, BoardView};
use crate::camel::{BOARD_SIZE, NUM_CAMELS};

verus! {

broadcast use vstd::std_specs::hash::group_hash_axioms;

/// Cached (game, round, tile) counts of a sub-search inside the current round.
pub type RoundTranspositionTable = ProbabilitiesTranspositionTable<
    (PositionAccumulator, PositionAccumulator, TileAccumulator),
>;

/// Cached game counts of a sub-search after the current round.
pub type GameTranspositionTable = ProbabilitiesTranspositionTable<PositionAccumulator>;

/// The key of a board searched `depth` plies deep: the five camel bytes, then the depth.
/// Boards that differ only in terrain share a key; an entry keeps its whole board.
pub open spec fn table_key(b: BoardView, depth: int) -> int {
    ((((((b.camels[4] as int) * 256 + b.camels[3]) * 256 + b.camels[2]) * 256 + b.camels[1])
        * 256 + b.camels[0]) * 256) + depth
}

/// Two boards with the same camels and terrain.
pub fn same_board(a: &Board, b: &Board) -> (r: bool)
    ensures
        r == (a@ == b@),
{
    for i in 0..NUM_CAMELS
        invariant
            forall|j: int| 0 <= j < i ==> a.camels[j] == b.camels[j],
    {
        if a.camels[i] != b.camels[i] {
            return false;
        }
    }
    assert(a@.camels =~= b@.camels);
    for i in 0..BOARD_SIZE
        invariant
            a@.camels == b@.camels,
            forall|j: int| 0 <= j < i ==> a.oasis[j] == b.oasis[j] && a.desert[j] == b.desert[j],
    {
        if a.oasis[i] != b.oasis[i] || a.desert[i] != b.desert[i] {
            assert(a@.oasis[i as int] != b@.oasis[i as int] || a@.desert[i as int] != b@.desert[i as int]);
            return false;
        }
    }
    assert(a@.oasis =~= b@.oasis);
    assert(a@.desert =~= b@.desert);
    true
}

fn hash_board(board: &Board, depth: u8) -> (r: u64)
    ensures
        r == table_key(board@, depth as int),
{
    let c = &board.camels;
    ((((((c[4] as u64) * 256 + c[3] as u64) * 256 + c[2] as u64) * 256 + c[1] as u64) * 256
        + c[0] as u64) * 256) + depth as u64
}

/// Entries map a key to the board, the value and the depth it was stored with.
/// A capacity of zero turns the cache off.
pub struct ProbabilitiesTranspositionTable<T> {
    map: HashMap<u64, (Board, T, u8)>,
    modulo: u32,
}

impl<T> View for ProbabilitiesTranspositionTable<T> {
    type V = Map<u64, (Board, T, u8)>;

    closed spec fn view(&self) -> Map<u64, (Board, T, u8)> {
        self.map@
    }
}

impl<T: Copy> ProbabilitiesTranspositionTable<T> {
    /// Each entry sits under the key of its own board and depth.
    pub closed spec fn wf(&self) -> bool {
        forall|k: u64| #[trigger]
            self.map@.contains_key(k) ==> k == table_key(self.map@[k].0@, self.map@[k].2 as int)
    }

    pub closed spec fn capacity(&self) -> nat {
        self.modulo as nat
    }

    pub fn new(capacity: u32) -> (r: Self)
        ensures
            r.wf(),
            r@ == Map::<u64, (Board, T, u8)>::empty(),
            r.capacity() == capacity,
    {
        ProbabilitiesTranspositionTable { map: HashMap::new(), modulo: capacity }
    }

    /// The value stored for `board` if it was searched at least `depth` plies deep.
    /// Since the depth is part of the key, such an entry has exactly that depth.
    pub fn check(&self, board: &Board, depth: u8) -> (r: Option<T>)
        requires
            self.wf(),
        ensures
            r is Some <==> ({
                let k = table_key(board@, depth as int) as u64;
                self@.contains_key(k) && self@[k].0@ == board@ && self@[k].2 >= depth
            }),
            r matches Some(v) ==> ({
                let k = table_key(board@, depth as int) as u64;
                v == self@[k].1 && self@[k].2 == depth
            }),
    {
        let key = hash_board(board, depth);
        match self.map.get(&key) {
            Some(entry) => {
                let (stored, value, stored_depth) = *entry;
                if same_board(&stored, board) && stored_depth >= depth {
                    Some(value)
                } else {
                    None
                }
            },
            None => None,
        }
    }

    /// Stores `store_value` for `board` searched `depth` plies deep. A full table is
    /// emptied first.
    pub fn update(&mut self, board: &Board, depth: u8, store_value: T)
        requires
            old(self).wf(),
        ensures
            final(self).wf(),
            final(self).capacity() == old(self).capacity(),
            final(self)@ == if old(self).capacity() == 0 {
                old(self)@
            } else if old(self)@.len() >= old(self).capacity() {
                Map::<u64, (Board, T, u8)>::empty().insert(
                    table_key(board@, depth as int) as u64,
                    (*board, store_value, depth),
                )
            } else {
                old(self)@.insert(
                    table_key(board@, depth as int) as u64,
                    (*board, store_value, depth),
                )
            },
    {
        if self.modulo == 0 {
            return;
        }
        if self.map.len() >= self.modulo as usize {
            self.map.clear();
        }
        let key = hash_board(board, depth);
        self.map.insert(key, (*board, store_value, depth));
    }
}

} // verus!
