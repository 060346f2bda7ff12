//! Quadkeys: a tile written as one base-4 digit per zoom level.
//!
//! The digit for a level packs two bits, the column's and the row's at that
//! level: its value is the column's bit plus twice the row's. The coarsest
//! level comes first, so a quadkey is a path from the whole map down to the
//! tile, and its length is the tile's zoom.

use crate::binary::{bit_of, lemma_bit_above_range, lemma_mask_sets_bit, lemma_mask_tests_bit};
use crate::round_trip::lemma_quadkey_round_trip;
use crate::tile::{Tile, MAX_ZOOM};
use vstd::arithmetic::power2::{lemma2_to64, lemma_pow2_unfold, pow2};
use vstd::prelude::*;
use vstd::string::StrSliceExecFns;

verus! {

/// The character that writes the digit `d`, for `d` from 0 to 3.
pub open spec fn digit_char(d: nat) -> char {
    if d == 0 {
        '0'
    } else if d == 1 {
        '1'
    } else if d == 2 {
        '2'
    } else {
        '3'
    }
}

/// The quadkey digit of column `x` and row `y` at the level whose bit is `k`:
/// bit `k` of the column, plus twice bit `k` of the row.
pub open spec fn level_digit(x: nat, y: nat, k: nat) -> char {
    digit_char(bit_of(x, k) + 2 * bit_of(y, k))
}

/// The `z` digits of column `x` and row `y`: the digit at position `p` is the
/// one of bit `z - 1 - p`, so the most significant bit comes first.
pub open spec fn quadkey_digits(x: nat, y: nat, z: nat) -> Seq<char> {
    Seq::new(z, |p: int| level_digit(x, y, (z - 1 - p) as nat))
}

/// The quadkey of a tile.
pub open spec fn quadkey_of(tile: Tile) -> Seq<char> {
    quadkey_digits(tile.x as nat, tile.y as nat, tile.z as nat)
}

/// Why a string is not the quadkey of any tile.
#[derive(Clone, Copy, Debug, PartialEq, Eq, Structural)]
pub enum QuadkeyError {
    /// The string has `len` characters, more than [`MAX_ZOOM`].
    TooLong { len: usize },
    /// The character `found`, at index `position` counted in characters, is
    /// none of `0`, `1`, `2`, `3`; every character before it is.
    InvalidDigit { position: usize, found: char },
}

/// The character is one of the four quadkey digits.
pub open spec fn is_digit(c: char) -> bool {
    c == '0' || c == '1' || c == '2' || c == '3'
}

/// The value of a quadkey digit, from 0 to 3.
pub open spec fn digit_value(c: char) -> nat {
    if c == '1' {
        1
    } else if c == '2' {
        2
    } else if c == '3' {
        3
    } else {
        0
    }
}

/// Every character of the string is a quadkey digit.
pub open spec fn all_digits(s: Seq<char>) -> bool {
    forall|i: int| 0 <= i < s.len() ==> is_digit(#[trigger] s[i])
}

/// The string is the quadkey of a tile: digits only, at most [`MAX_ZOOM`] of
/// them.
pub open spec fn is_quadkey(s: Seq<char>) -> bool {
    s.len() <= MAX_ZOOM && all_digits(s)
}

/// Index of the first character that is no quadkey digit; the string's length
/// where there is none.
pub open spec fn first_stray(s: Seq<char>) -> nat
    decreases s.len(),
{
    if s.len() == 0 || !is_digit(s[0]) {
        0
    } else {
        1 + first_stray(s.drop_first())
    }
}

/// The column that a string of digits spells: the low bits of its digits,
/// read as a binary number with the first digit most significant.
pub open spec fn column_of(s: Seq<char>) -> nat
    decreases s.len(),
{
    if s.len() == 0 {
        0
    } else {
        2 * column_of(s.drop_last()) + digit_value(s.last()) % 2
    }
}

/// The row that a string of digits spells: the high bits of its digits, read
/// as a binary number with the first digit most significant.
pub open spec fn row_of(s: Seq<char>) -> nat
    decreases s.len(),
{
    if s.len() == 0 {
        0
    } else {
        2 * row_of(s.drop_last()) + digit_value(s.last()) / 2
    }
}

/// The tile that a quadkey names: its zoom is the key's length.
pub open spec fn tile_of(s: Seq<char>) -> Tile {
    Tile { x: column_of(s) as u64, y: row_of(s) as u64, z: s.len() as u8 }
}

/// What reading a string as a quadkey gives: the tile that it names, or the
/// reason why it names none. Length is judged before the characters are.
pub open spec fn parsed(s: Seq<char>) -> Result<Tile, QuadkeyError> {
    if s.len() > MAX_ZOOM {
        Err(QuadkeyError::TooLong { len: s.len() as usize })
    } else if !all_digits(s) {
        Err(
            QuadkeyError::InvalidDigit {
                position: first_stray(s) as usize,
                found: s[first_stray(s) as int],
            },
        )
    } else {
        Ok(tile_of(s))
    }
}

/// The first stray character is the one that is no digit while all before it
/// are.
pub proof fn lemma_first_stray(s: Seq<char>, p: int)
    requires
        0 <= p < s.len(),
        !is_digit(s[p]),
        forall|j: int| 0 <= j < p ==> is_digit(#[trigger] s[j]),
    ensures
        first_stray(s) == p,
    decreases p,
{
    if p > 0 {
        lemma_first_stray(s.drop_first(), p - 1);
    }
}

/// A string of `n` digits spells a column and a row below `2^n`.
pub proof fn lemma_spelled_below_grid_size(s: Seq<char>)
    ensures
        column_of(s) < pow2(s.len()),
        row_of(s) < pow2(s.len()),
    decreases s.len(),
{
    if s.len() == 0 {
        lemma2_to64();
    } else {
        lemma_spelled_below_grid_size(s.drop_last());
        lemma_pow2_unfold(s.len());
    }
}

/// The one-character string of the digit `d`.
fn digit_str(d: u8) -> (s: &'static str)
    requires
        d < 4,
    ensures
        s@ == seq![digit_char(d as nat)],
{
    proof {
        reveal_strlit("0");
        reveal_strlit("1");
        reveal_strlit("2");
        reveal_strlit("3");
    }
    if d == 0 {
        "0"
    } else if d == 1 {
        "1"
    } else if d == 2 {
        "2"
    } else {
        "3"
    }
}

/// Writes a tile as its quadkey.
///
/// The key has one digit per zoom level. Only the low `z` bits of each
/// coordinate are read, so a row beyond the grid is encoded by its low bits;
/// levels deeper than the coordinates have bits give the digit `0`.
pub fn tile_to_quadkey(tile: Tile) -> (key: String)
    ensures
        key@ == quadkey_of(tile),
        key@.len() == tile.z,
{
    let mut key = String::new();
    let mut i: u8 = tile.z;
    while i > 0
        invariant
            i <= tile.z,
            key@ == quadkey_of(tile).take(tile.z - i),
        decreases i,
    {
        let k: u8 = i - 1;
        let mut digit: u8 = 0;
        if k < 64 {
            let mask: u64 = 1u64 << k;
            proof {
                lemma_mask_tests_bit(tile.x, k as u64);
                lemma_mask_tests_bit(tile.y, k as u64);
            }
            if tile.x & mask != 0 {
                digit += 1;
            }
            if tile.y & mask != 0 {
                digit += 2;
            }
        } else {
            proof {
                lemma_bit_above_range(tile.x, k as nat);
                lemma_bit_above_range(tile.y, k as nat);
            }
        }
        key.append(digit_str(digit));
        i -= 1;
    }
    key
}

/// Reads a quadkey back into the tile that it names.
///
/// The tile's zoom is the number of digits. A key of more than [`MAX_ZOOM`]
/// characters is refused, and so is one with a character other than `0` to
/// `3`; the error names the first such character.
pub fn quadkey_to_tile(key: String) -> (r: Result<Tile, QuadkeyError>)
    ensures
        r == parsed(key@),
        r is Ok <==> is_quadkey(key@),
        r matches Ok(tile) ==> tile.in_grid() && quadkey_of(tile) == key@,
{
    let digits = key.as_str();
    let z = digits.unicode_len();
    if z > MAX_ZOOM as usize {
        return Err(QuadkeyError::TooLong { len: z });
    }
    let mut x: u64 = 0;
    let mut y: u64 = 0;
    let mut i: usize = z;
    proof {
        assert(0 * pow2(z as nat) == 0) by (nonlinear_arith);
    }
    while i > 0
        invariant
            digits@ == key@,
            z == digits@.len(),
            z <= MAX_ZOOM,
            i <= z,
            all_digits(digits@.take(z - i)),
            x == column_of(digits@.take(z - i)) * pow2(i as nat),
            y == row_of(digits@.take(z - i)) * pow2(i as nat),
        decreases i,
    {
        let p = z - i;
        let mask: u64 = 1u64 << (i - 1);
        let q = digits.get_char(p);
        let ghost before = digits@.take(p as int);
        let ghost upto = digits@.take(p + 1);
        proof {
            assert(upto.drop_last() =~= before);
            lemma_pow2_unfold(i as nat);
            assert(x == (2 * column_of(before)) * pow2((i - 1) as nat)) by (nonlinear_arith)
                requires
                    x == column_of(before) * pow2(i as nat),
                    pow2(i as nat) == 2 * pow2((i - 1) as nat),
            ;
            assert(y == (2 * row_of(before)) * pow2((i - 1) as nat)) by (nonlinear_arith)
                requires
                    y == row_of(before) * pow2(i as nat),
                    pow2(i as nat) == 2 * pow2((i - 1) as nat),
            ;
            lemma_mask_sets_bit(x, column_of(before), (i - 1) as u64);
            lemma_mask_sets_bit(y, row_of(before), (i - 1) as u64);
        }
        if q == '1' {
            x |= mask;
        } else if q == '2' {
            y |= mask;
        } else if q == '3' {
            x |= mask;
            y |= mask;
        } else if q != '0' {
            proof {
                assert forall|j: int| 0 <= j < p implies is_digit(#[trigger] digits@[j]) by {
                    assert(before[j] == digits@[j]);
                }
                lemma_first_stray(digits@, p as int);
            }
            return Err(QuadkeyError::InvalidDigit { position: p, found: q });
        }
        i -= 1;
    }
    proof {
        assert(digits@.take(z as int) =~= digits@);
        lemma2_to64();
        lemma_quadkey_round_trip(digits@);
    }
    Ok(Tile { x, y, z: z as u8 })
}

} // verus!
