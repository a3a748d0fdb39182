//! Codec between 0..63 square indices, single-bit 64-bit masks, and
//! two-character algebraic square names such as `"e4"`.
//!
//! A square index counts files left to right and ranks bottom to top:
//! index 0 is `"a1"`, index 63 is `"h8"`, and `index = row * 8 + column`.

use vstd::prelude::*;

verus! {

/// Failures of the square-name and bit-mask codecs.
#[derive(Debug, Clone, Copy, PartialEq, Eq, Structural)]
pub enum PositionError {
    /// The mask was zero: no piece present.
    NoPiecePresent,
    /// The name was not exactly two characters long.
    InvalidLength,
    /// The first character was not a file letter `'a'..='h'`.
    InvalidColumn,
    /// The second character was not a rank digit `'1'..='8'`.
    InvalidRow,
}

/// The file letter for a column number 0..7.
pub open spec fn file_char(col: int) -> char {
    if col == 0 {
        'a'
    } else if col == 1 {
        'b'
    } else if col == 2 {
        'c'
    } else if col == 3 {
        'd'
    } else if col == 4 {
        'e'
    } else if col == 5 {
        'f'
    } else if col == 6 {
        'g'
    } else {
        'h'
    }
}

/// The rank digit for a row number 1..8.
pub open spec fn rank_char(row: int) -> char {
    if row == 1 {
        '1'
    } else if row == 2 {
        '2'
    } else if row == 3 {
        '3'
    } else if row == 4 {
        '4'
    } else if row == 5 {
        '5'
    } else if row == 6 {
        '6'
    } else if row == 7 {
        '7'
    } else {
        '8'
    }
}

/// The algebraic name of the square at a 0..63 index: file letter, then
/// rank digit.
pub open spec fn square_name(index: int) -> Seq<char> {
    seq![file_char(index % 8), rank_char(index / 8 + 1)]
}

/// Whether `c` is a file letter `'a'..='h'`.
pub open spec fn is_file_char(c: char) -> bool {
    97 <= c as u32 <= 104
}

/// The column number 0..7 of a file letter.
pub open spec fn file_val(c: char) -> int {
    c as u32 - 97
}

/// Whether `c` is a rank digit `'1'..='8'`.
pub open spec fn is_rank_char(c: char) -> bool {
    49 <= c as u32 <= 56
}

/// The row number 1..8 of a rank digit.
pub open spec fn rank_val(c: char) -> int {
    c as u32 - 48
}

/// Whether `s` is a well-formed algebraic square name.
pub open spec fn name_wf(s: Seq<char>) -> bool {
    s.len() == 2 && is_file_char(s[0]) && is_rank_char(s[1])
}

/// The 0..63 index of the square a well-formed name denotes.
pub open spec fn name_square(s: Seq<char>) -> int {
    (rank_val(s[1]) - 1) * 8 + file_val(s[0])
}

/// The index of the lowest set bit of `b`, found by scanning upward from
/// bit `i`; 63 when no bit below 63 is set.
pub open spec fn low_index_from(b: u64, i: int) -> int
    decreases 64 - i,
{
    if i >= 63 {
        63
    } else if (b >> (i as u64)) & 1u64 == 1u64 {
        i
    } else {
        low_index_from(b, i + 1)
    }
}

/// The index of the lowest set bit of a nonzero mask.
pub open spec fn low_index(b: u64) -> int {
    low_index_from(b, 0)
}

/// Converts a single-bit mask to the algebraic name of its square.
/// A zero mask is rejected: it means no piece is present.  A mask with
/// more than one set bit resolves to its lowest set bit.
pub fn bit_to_position(bit: u64) -> (r: Result<String, PositionError>)
    ensures
        bit == 0 ==> r == Err::<String, PositionError>(PositionError::NoPiecePresent),
        bit != 0 ==> (r matches Ok(s) && s@ == square_name(low_index(bit))),
{
    if bit == 0 {
        Err(PositionError::NoPiecePresent)
    } else {
        let onebit_index = bit_scan(bit);
        Ok(index_to_position(onebit_index))
    }
}

/// Returns the index of the lowest set bit of a nonzero mask.
pub fn bit_scan(bit: u64) -> (idx: usize)
    requires
        bit != 0,
    ensures
        idx < 64,
        idx == low_index(bit),
        (bit >> idx as u64) & 1u64 == 1u64,
        bit & (((1u64 << idx as u64) - 1) as u64) == 0,
{
    let mut i: usize = 0;
    proof {
        assert(bit & (((1u64 << 0u64) - 1) as u64) == 0) by (bit_vector);
    }
    while i < 63
        invariant
            i <= 63,
            bit & (((1u64 << i as u64) - 1) as u64) == 0,
            low_index(bit) == low_index_from(bit, i as int),
        decreases 63 - i,
    {
        if (bit >> i as u64) & 1 == 1 {
            return i;
        }
        proof {
            assert(bit & (((1u64 << ((i + 1) as u64)) - 1) as u64) == 0)
                by (bit_vector)
                requires
                    i < 63usize,
                    bit & (((1u64 << i as u64) - 1) as u64) == 0,
                    (bit >> i as u64) & 1u64 != 1u64,
            ;
        }
        i = i + 1;
    }
    proof {
        assert((bit >> 63u64) & 1u64 == 1u64) by (bit_vector)
            requires
                bit != 0,
                bit & (((1u64 << 63u64) - 1) as u64) == 0,
        ;
    }
    63
}

/// Converts a 0..63 square index to its algebraic name.
pub fn index_to_position(index: usize) -> (r: String)
    requires
        index < 64,
    ensures
        r@ == square_name(index as int),
{
    let column = index % 8;
    let row = index / 8 + 1;
    let col_str: &str = match column {
        0 => "a",
        1 => "b",
        2 => "c",
        3 => "d",
        4 => "e",
        5 => "f",
        6 => "g",
        _ => "h",
    };
    let row_str: &str = match row {
        1 => "1",
        2 => "2",
        3 => "3",
        4 => "4",
        5 => "5",
        6 => "6",
        7 => "7",
        _ => "8",
    };
    let mut r = String::from_str(col_str);
    r.append(row_str);
    proof {
        reveal_strlit("a");
        reveal_strlit("b");
        reveal_strlit("c");
        reveal_strlit("d");
        reveal_strlit("e");
        reveal_strlit("f");
        reveal_strlit("g");
        reveal_strlit("h");
        reveal_strlit("1");
        reveal_strlit("2");
        reveal_strlit("3");
        reveal_strlit("4");
        reveal_strlit("5");
        reveal_strlit("6");
        reveal_strlit("7");
        reveal_strlit("8");
        assert(r@ =~= square_name(index as int));
    }
    r
}

/// Converts an algebraic square name to the single-bit mask of its square,
/// validating the length, the file letter, and the rank digit in that order.
pub fn position_to_bit(position: &str) -> (r: Result<u64, PositionError>)
    ensures
        position@.len() != 2 ==> r == Err::<u64, PositionError>(PositionError::InvalidLength),
        position@.len() == 2 && !is_file_char(position@[0]) ==> r == Err::<u64, PositionError>(
            PositionError::InvalidColumn,
        ),
        position@.len() == 2 && is_file_char(position@[0]) && !is_rank_char(position@[1]) ==> r
            == Err::<u64, PositionError>(PositionError::InvalidRow),
        name_wf(position@) ==> r == Ok::<u64, PositionError>(
            1u64 << (name_square(position@) as u64),
        ),
{
    if position.unicode_len() != 2 {
        return Err(PositionError::InvalidLength);
    }
    let code0 = position.get_char(0) as u32;
    if code0 < 97 || code0 >= 105 {
        return Err(PositionError::InvalidColumn);
    }
    let column = code0 - 97;
    let code1 = position.get_char(1) as u32;
    if code1 < 49 || code1 > 56 {
        return Err(PositionError::InvalidRow);
    }
    let row = code1 - 48;
    let square_number = (row - 1) * 8 + column;
    let bit = 1u64 << (square_number as u64);
    Ok(bit)
}

/// Round trip of the codecs: the name of square index `i` is well formed,
/// denotes index `i` again, and the single-bit mask `1 << i` scans back to
/// index `i`.  Hence `position_to_bit(index_to_position(i)) == 1 << i` and
/// `bit_to_position(1 << i) == index_to_position(i)` for every index 0..63.
pub proof fn lemma_position_round_trip(i: int)
    requires
        0 <= i < 64,
    ensures
        name_wf(square_name(i)),
        name_square(square_name(i)) == i,
        low_index(1u64 << (i as u64)) == i,
{
    lemma_file_rank_chars(i % 8, i / 8 + 1);
    lemma_low_index_single(i as u64, 0);
}

/// The file and rank characters carry their column and row values back.
proof fn lemma_file_rank_chars(col: int, row: int)
    requires
        0 <= col < 8,
        1 <= row <= 8,
    ensures
        is_file_char(file_char(col)),
        file_val(file_char(col)) == col,
        is_rank_char(rank_char(row)),
        rank_val(rank_char(row)) == row,
{
}

/// Scanning a single-bit mask from any index at or below the set bit finds
/// exactly that bit.
proof fn lemma_low_index_single(i: u64, j: u64)
    requires
        i < 64,
        j <= i,
    ensures
        low_index_from(1u64 << i, j as int) == i,
    decreases 64 - j,
{
    if j == i {
        if i < 63 {
            assert(((1u64 << i) >> i) & 1u64 == 1u64) by (bit_vector)
                requires
                    i < 63u64,
            ;
        }
    } else {
        assert(((1u64 << i) >> j) & 1u64 == 0u64) by (bit_vector)
            requires
                j < i < 64u64,
        ;
        lemma_low_index_single(i, (j + 1) as u64);
    }
}

} // verus!
