//! A camel packed into one byte: `(tile * 5 + position) * 2 + rolled`.
//!
//! Tiles run from 0 to 15; tile 16 holds the camels that crossed the finish.
//! Positions count from the bottom of a stack (0) to its top (at most 4).
use vstd::prelude::*;

verus! {

pub type Camel = u8;

/// Number of camels in the race.
pub const NUM_CAMELS: usize = 5;

/// Number of tiles on the track.
pub const BOARD_SIZE: usize = 16;

/// Tile on which camels that crossed the finish are stacked.
pub const FINISH_TILE: usize = 16;

/// The tile a packed camel stands on.
pub open spec fn tile_of(c: u8) -> int {
    (c as int / 2) / 5
}

/// The position of a packed camel in its stack, 0 being the bottom.
pub open spec fn pos_of(c: u8) -> int {
    (c as int / 2) % 5
}

/// Whether a packed camel has rolled in the current round.
pub open spec fn rolled_of(c: u8) -> bool {
    c % 2 == 1
}

/// The byte that packs a tile, a position and a rolled bit.
pub open spec fn encode(tile: int, pos: int, rolled: bool) -> int {
    (tile * 5 + pos) * 2 + if rolled {
        1int
    } else {
        0int
    }
}

/// Decoding a packed camel gives back what was packed.
pub proof fn lemma_decode_encode(tile: int, pos: int, rolled: bool)
    requires
        0 <= tile <= 16,
        0 <= pos < 5,
    ensures
        0 <= encode(tile, pos, rolled) < 256,
        tile_of(encode(tile, pos, rolled) as u8) == tile,
        pos_of(encode(tile, pos, rolled) as u8) == pos,
        rolled_of(encode(tile, pos, rolled) as u8) == rolled,
{
    let e = encode(tile, pos, rolled);
    assert(e / 2 == tile * 5 + pos);
    assert((tile * 5 + pos) / 5 == tile) by (nonlinear_arith)
        requires
            0 <= pos < 5,
    ;
    assert((tile * 5 + pos) % 5 == pos) by (nonlinear_arith)
        requires
            0 <= pos < 5,
    ;
}

pub fn camel_has_rolled(camel: &Camel) -> (r: bool)
    ensures
        r == rolled_of(*camel),
{
    let c = *camel;
    assert((c & 1u8 == 1u8) == (c % 2 == 1)) by (bit_vector);
    (c & 1) == 1
}

pub fn camel_has_finished(camel: &Camel) -> (r: bool)
    ensures
        r == (tile_of(*camel) >= FINISH_TILE),
{
    let c = *camel;
    assert(c >> 1u8 == c / 2) by (bit_vector);
    ((c >> 1) / 5) as usize >= FINISH_TILE
}

pub fn camel_tile_and_position(camel: &Camel) -> (r: (usize, usize))
    ensures
        r.0 == tile_of(*camel),
        r.1 == pos_of(*camel),
{
    let c = *camel;
    assert(c >> 1u8 == c / 2) by (bit_vector);
    let tile_and_pos = c >> 1;
    ((tile_and_pos / 5) as usize, (tile_and_pos % 5) as usize)
}

pub fn camel_tile(camel: &Camel) -> (r: usize)
    ensures
        r == tile_of(*camel),
{
    let c = *camel;
    assert(c >> 1u8 == c / 2) by (bit_vector);
    ((c >> 1) / 5) as usize
}

pub fn camel_position(camel: &Camel) -> (r: usize)
    ensures
        r == pos_of(*camel),
{
    let c = *camel;
    assert(c >> 1u8 == c / 2) by (bit_vector);
    ((c >> 1) % 5) as usize
}

pub fn camel_roll(camel: &Camel) -> (r: u8)
    ensures
        r == *camel % 2,
{
    let c = *camel;
    assert(c & 1u8 == c % 2) by (bit_vector);
    c & 1
}

pub fn create_camel(tile: &usize, position: &usize, is_rolled: &u8) -> (r: Camel)
    requires
        *tile <= FINISH_TILE,
        *position < NUM_CAMELS,
        *is_rolled <= 1,
    ensures
        r == encode(*tile as int, *position as int, *is_rolled == 1),
{
    let tile_and_pos: u8 = (*tile * 5 + *position) as u8;
    let rolled = *is_rolled;
    assert(tile_and_pos <= 84 && rolled <= 1 ==> (tile_and_pos << 1u8) | rolled == tile_and_pos
        * 2 + rolled) by (bit_vector);
    (tile_and_pos << 1) | rolled
}

pub fn update_camel(camel: &Camel, tile: &usize, position: &usize) -> (r: Camel)
    requires
        *tile <= FINISH_TILE,
        *position < NUM_CAMELS,
    ensures
        r == encode(*tile as int, *position as int, rolled_of(*camel)),
{
    create_camel(tile, position, &camel_roll(camel))
}

pub fn set_roll_true(camel: &Camel) -> (r: Camel)
    ensures
        r == *camel - *camel % 2 + 1,
{
    let c = *camel;
    assert(c | 1u8 == c - c % 2 + 1) by (bit_vector);
    c | 1
}

pub fn set_roll_false(camel: &Camel) -> (r: Camel)
    ensures
        r == *camel - *camel % 2,
{
    let c = *camel;
    assert(c & 254u8 == c - c % 2) by (bit_vector);
    c & 254
}

} // verus!
