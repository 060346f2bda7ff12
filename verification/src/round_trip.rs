//! Encoding and decoding undo each other.

use crate::binary::lemma_bit_of_half;
use crate::quadkey::{
    all_digits, column_of, digit_char, is_quadkey, lemma_spelled_below_grid_size, parsed,
    quadkey_digits, quadkey_of, row_of, tile_of, QuadkeyError,
};
use crate::tile::Tile;
use vstd::arithmetic::power2::{
    lemma2_to64, lemma_pow2_strictly_increases, lemma_pow2_unfold, pow2,
};
use vstd::prelude::*;

verus! {

/// Dropping the last digit of a quadkey gives the quadkey of the halved
/// coordinates one level up, and the digit dropped is the one of bit 0.
proof fn lemma_digits_of_parent(x: nat, y: nat, z: nat)
    requires
        z > 0,
    ensures
        quadkey_digits(x, y, z).drop_last() == quadkey_digits(x / 2, y / 2, (z - 1) as nat),
        quadkey_digits(x, y, z).last() == digit_char(x % 2 + 2 * (y % 2)),
{
    let whole = quadkey_digits(x, y, z);
    let parent = quadkey_digits(x / 2, y / 2, (z - 1) as nat);
    assert forall|p: int| 0 <= p < z - 1 implies whole[p] == parent[p] by {
        lemma_bit_of_half(x, (z - 2 - p) as nat);
        lemma_bit_of_half(y, (z - 2 - p) as nat);
    }
    lemma_bit_of_half(x, 0);
    lemma_bit_of_half(y, 0);
}

/// The digits of a column and a row below `2^z` spell them back.
proof fn lemma_digits_spell_coordinates(x: nat, y: nat, z: nat)
    requires
        x < pow2(z),
        y < pow2(z),
    ensures
        all_digits(quadkey_digits(x, y, z)),
        column_of(quadkey_digits(x, y, z)) == x,
        row_of(quadkey_digits(x, y, z)) == y,
    decreases z,
{
    if z == 0 {
        lemma2_to64();
    } else {
        lemma_pow2_unfold(z);
        lemma_digits_of_parent(x, y, z);
        lemma_digits_spell_coordinates(x / 2, y / 2, (z - 1) as nat);
    }
}

/// A string of digits is the quadkey of the column and the row that it spells.
proof fn lemma_coordinates_spell_digits(s: Seq<char>)
    requires
        all_digits(s),
    ensures
        quadkey_digits(column_of(s), row_of(s), s.len()) == s,
    decreases s.len(),
{
    let x = column_of(s);
    let y = row_of(s);
    if s.len() > 0 {
        lemma_coordinates_spell_digits(s.drop_last());
        lemma_digits_of_parent(x, y, s.len());
        let again = quadkey_digits(x, y, s.len());
        assert(again =~= again.drop_last().push(again.last()));
    }
}

/// Reading the quadkey of a tile gives the tile back, for every tile that
/// lies in the grid of its zoom level.
pub proof fn lemma_tile_round_trip(tile: Tile)
    requires
        tile.in_grid(),
    ensures
        is_quadkey(quadkey_of(tile)),
        parsed(quadkey_of(tile)) == Ok::<Tile, QuadkeyError>(tile),
{
    lemma_digits_spell_coordinates(tile.x as nat, tile.y as nat, tile.z as nat);
}

/// Writing the tile that a quadkey names gives the quadkey back, and that
/// tile lies in the grid of its zoom level.
pub proof fn lemma_quadkey_round_trip(key: Seq<char>)
    requires
        is_quadkey(key),
    ensures
        parsed(key) == Ok::<Tile, QuadkeyError>(tile_of(key)),
        tile_of(key).in_grid(),
        quadkey_of(tile_of(key)) == key,
{
    lemma_spelled_below_grid_size(key);
    lemma_coordinates_spell_digits(key);
    lemma2_to64();
    if key.len() < 64 {
        lemma_pow2_strictly_increases(key.len(), 64);
    }
}

/// Two tiles in the grid with the same quadkey are the same tile.
pub proof fn lemma_quadkey_is_injective(a: Tile, b: Tile)
    requires
        a.in_grid(),
        b.in_grid(),
        quadkey_of(a) == quadkey_of(b),
    ensures
        a == b,
{
    lemma_tile_round_trip(a);
    lemma_tile_round_trip(b);
}

} // verus!
