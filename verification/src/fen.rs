//! The FEN reader: turns a six-field position string into a `Game`.
//!
//! The specification side models every field of the notation as a
//! recursive function over character sequences; the executable reader is
//! proved to return exactly what the model says, or the error of the
//! first malformed field in detection order.

use vstd::prelude::*;

use crate::board::CastlingRights;
use crate::board::Color;
use crate::board::Game;
use crate::board::Piece;
use crate::board::PieceType;
use crate::board::Square;
use crate::board::is_single_bit;
use crate::board::no_rights;
use crate::position::is_rank_char;
use crate::position::name_square;
use crate::position::name_wf;
use crate::position::rank_val;
use crate::position::position_to_bit;

verus! {

/// The first malformed field of a FEN string, in detection order.
#[derive(Debug, Clone, Copy, PartialEq, Eq, Structural)]
pub enum FenError {
    /// The string does not have exactly six space-separated fields.
    BadFieldCount,
    /// The piece-placement field is not eight rows of eight squares made
    /// of piece letters and empty-square digits.
    BadPlacement,
    /// The active-color field is neither `"w"` nor `"b"`.
    BadColor,
    /// The castling field holds a character other than `K`, `Q`, `k`,
    /// `q`, `-`.
    BadCastling,
    /// The en-passant field is neither `"-"` nor a valid square name.
    BadEnPassant,
    /// The halfmove clock is not a decimal number in range.
    BadHalfmove,
    /// The fullmove number is not a decimal number in range.
    BadFullmove,
}

/// The index of the first occurrence of `sep` in `s`, or `s.len()` when
/// `s` does not contain it.
pub open spec fn find_sep(s: Seq<char>, sep: char) -> nat
    decreases s.len(),
{
    if s.len() == 0 {
        0
    } else if s[0] == sep {
        0
    } else {
        (1 + find_sep(s.skip(1), sep)) as nat
    }
}

/// Splits `s` at every occurrence of `sep`; always returns at least one
/// part, and `n` separators yield `n + 1` parts.
pub open spec fn split_on(s: Seq<char>, sep: char) -> Seq<Seq<char>>
    decreases s.len(),
{
    let i = find_sep(s, sep);
    if i < s.len() {
        seq![s.take(i as int)] + split_on(s.skip(i as int + 1), sep)
    } else {
        seq![s]
    }
}

/// Whether `c` is a FEN piece letter.
pub open spec fn is_piece_char(c: char) -> bool {
    ||| c == 'r' || c == 'n' || c == 'b' || c == 'q' || c == 'k' || c == 'p'
    ||| c == 'R' || c == 'N' || c == 'B' || c == 'Q' || c == 'K' || c == 'P'
}

/// The color a FEN piece letter denotes: uppercase is White.
pub open spec fn piece_color(c: char) -> Color {
    if 65 <= c as u32 <= 90 {
        Color::White
    } else {
        Color::Black
    }
}

/// The piece kind a FEN piece letter denotes.
pub open spec fn piece_kind(c: char) -> PieceType {
    if c == 'r' || c == 'R' {
        PieceType::Rook
    } else if c == 'n' || c == 'N' {
        PieceType::Knight
    } else if c == 'b' || c == 'B' {
        PieceType::Bishop
    } else if c == 'q' || c == 'Q' {
        PieceType::Queen
    } else if c == 'k' || c == 'K' {
        PieceType::King
    } else {
        PieceType::Pawn
    }
}

/// Whether every character of a row is a piece letter or an empty-square
/// digit `'1'..='8'`.
pub open spec fn row_wf(row: Seq<char>) -> bool
    decreases row.len(),
{
    row.len() == 0 || ((is_piece_char(row[0]) || is_rank_char(row[0])) && row_wf(row.skip(1)))
}

/// The number of squares a row's characters cover: one per piece letter,
/// the digit's value per digit.
pub open spec fn row_width(row: Seq<char>) -> int
    decreases row.len(),
{
    if row.len() == 0 {
        0
    } else if is_piece_char(row[0]) {
        1 + row_width(row.skip(1))
    } else if is_rank_char(row[0]) {
        rank_val(row[0]) + row_width(row.skip(1))
    } else {
        row_width(row.skip(1))
    }
}

/// A valid row: well-formed characters covering exactly eight squares.
pub open spec fn row_ok(row: Seq<char>) -> bool {
    row_wf(row) && row_width(row) == 8
}

/// The number of pieces a row places.
pub open spec fn row_piece_count(row: Seq<char>) -> int
    decreases row.len(),
{
    if row.len() == 0 {
        0
    } else if is_piece_char(row[0]) {
        1 + row_piece_count(row.skip(1))
    } else {
        row_piece_count(row.skip(1))
    }
}

/// The pieces a row places, scanning left to right from square index
/// `pos`: digits skip squares, letters place a piece on the current one.
pub open spec fn row_piece_seq(row: Seq<char>, pos: int) -> Seq<Piece>
    decreases row.len(),
{
    if row.len() == 0 {
        seq![]
    } else if is_piece_char(row[0]) {
        seq![
            (Piece {
                position: 1u64 << (pos as u64),
                color: piece_color(row[0]),
                piece_type: piece_kind(row[0]),
            }),
        ] + row_piece_seq(row.skip(1), pos + 1)
    } else if is_rank_char(row[0]) {
        row_piece_seq(row.skip(1), pos + rank_val(row[0]))
    } else {
        row_piece_seq(row.skip(1), pos)
    }
}

/// The squares a row describes, left to right, with occupied squares
/// referring to piece-list indices counted from `pidx`.
pub open spec fn row_square_seq(row: Seq<char>, pidx: int) -> Seq<Square>
    decreases row.len(),
{
    if row.len() == 0 {
        seq![]
    } else if is_piece_char(row[0]) {
        seq![Square::Occupied(pidx as usize)] + row_square_seq(row.skip(1), pidx + 1)
    } else if is_rank_char(row[0]) {
        Seq::new(rank_val(row[0]) as nat, |j: int| Square::Empty) + row_square_seq(row.skip(1), pidx)
    } else {
        row_square_seq(row.skip(1), pidx)
    }
}

/// Whether every row of the placement field is valid.
pub open spec fn rows_ok(rows: Seq<Seq<char>>) -> bool
    decreases rows.len(),
{
    rows.len() == 0 || (row_ok(rows[0]) && rows_ok(rows.skip(1)))
}

/// A valid placement field: exactly eight valid rows.
pub open spec fn placement_ok(field: Seq<char>) -> bool {
    let rows = split_on(field, '/');
    rows.len() == 8 && rows_ok(rows)
}

/// The piece list of the whole placement: rows in the order written
/// (rank 8 first), the first row starting at square index
/// `8 * (rows.len() - 1)`.
pub open spec fn placement_pieces(rows: Seq<Seq<char>>) -> Seq<Piece>
    decreases rows.len(),
{
    if rows.len() == 0 {
        seq![]
    } else {
        row_piece_seq(rows[0], 8 * (rows.len() - 1)) + placement_pieces(rows.skip(1))
    }
}

/// The 64 squares of the whole placement in storage order (square index
/// 0, `"a1"`, first): later rows of the field stand lower on the board,
/// while piece indices count through earlier rows first, from `pidx`.
pub open spec fn placement_squares(rows: Seq<Seq<char>>, pidx: int) -> Seq<Square>
    decreases rows.len(),
{
    if rows.len() == 0 {
        seq![]
    } else {
        placement_squares(rows.skip(1), pidx + row_piece_count(rows[0])) + row_square_seq(
            rows[0],
            pidx,
        )
    }
}

/// The number of pieces placed by the rows before row `j`.
pub open spec fn pieces_before(rows: Seq<Seq<char>>, j: int) -> int
    decreases j,
{
    if j <= 0 {
        0
    } else {
        pieces_before(rows, j - 1) + row_piece_count(rows[j - 1])
    }
}

/// The active color a one-character field denotes, if valid.
pub open spec fn color_field(f: Seq<char>) -> Option<Color> {
    if f.len() == 1 && f[0] == 'w' {
        Some(Color::White)
    } else if f.len() == 1 && f[0] == 'b' {
        Some(Color::Black)
    } else {
        None
    }
}

/// Folds the castling field left to right over an accumulated set of
/// flags; `'-'` adds nothing, any other character fails.
pub open spec fn castling_fold(f: Seq<char>, acc: CastlingRights) -> Option<CastlingRights>
    decreases f.len(),
{
    if f.len() == 0 {
        Some(acc)
    } else if f[0] == 'K' {
        castling_fold(f.skip(1), CastlingRights { white_kingside: true, ..acc })
    } else if f[0] == 'Q' {
        castling_fold(f.skip(1), CastlingRights { white_queenside: true, ..acc })
    } else if f[0] == 'k' {
        castling_fold(f.skip(1), CastlingRights { black_kingside: true, ..acc })
    } else if f[0] == 'q' {
        castling_fold(f.skip(1), CastlingRights { black_queenside: true, ..acc })
    } else if f[0] == '-' {
        castling_fold(f.skip(1), acc)
    } else {
        None
    }
}

/// The castling rights a field denotes, starting from no rights.
pub open spec fn castling_field(f: Seq<char>) -> Option<CastlingRights> {
    castling_fold(f, no_rights())
}

/// The en-passant target a field denotes: `"-"` means none, a valid
/// square name means that square's bit, anything else fails.
pub open spec fn en_passant_field(f: Seq<char>) -> Option<Option<u64>> {
    if f.len() == 1 && f[0] == '-' {
        Some(None)
    } else if name_wf(f) {
        Some(Some(1u64 << (name_square(f) as u64)))
    } else {
        None
    }
}

/// Whether `c` is a decimal digit.
pub open spec fn is_digit(c: char) -> bool {
    48 <= c as u32 <= 57
}

/// The value of a decimal digit.
pub open spec fn digit_val(c: char) -> int {
    c as u32 - 48
}

/// Whether `s` is made of decimal digits only.
pub open spec fn all_digits(s: Seq<char>) -> bool
    decreases s.len(),
{
    s.len() == 0 || (is_digit(s[0]) && all_digits(s.skip(1)))
}

/// The value of a digit string read in base ten.
pub open spec fn dec_val(s: Seq<char>) -> int
    decreases s.len(),
{
    if s.len() == 0 {
        0
    } else {
        dec_val(s.drop_last()) * 10 + digit_val(s.last())
    }
}

/// The value of a move-counter field, if it is a nonempty digit string
/// whose value fits the machine.
pub open spec fn counter_field(s: Seq<char>) -> Option<int> {
    if s.len() > 0 && all_digits(s) && dec_val(s) <= usize::MAX {
        Some(dec_val(s))
    } else {
        None
    }
}

/// The first malformed field of a FEN string in detection order, or
/// `None` when every field is valid.
pub open spec fn fen_error(s: Seq<char>) -> Option<FenError> {
    let fields = split_on(s, ' ');
    if fields.len() != 6 {
        Some(FenError::BadFieldCount)
    } else if !placement_ok(fields[0]) {
        Some(FenError::BadPlacement)
    } else if color_field(fields[1]) is None {
        Some(FenError::BadColor)
    } else if castling_field(fields[2]) is None {
        Some(FenError::BadCastling)
    } else if en_passant_field(fields[3]) is None {
        Some(FenError::BadEnPassant)
    } else if counter_field(fields[4]) is None {
        Some(FenError::BadHalfmove)
    } else if counter_field(fields[5]) is None {
        Some(FenError::BadFullmove)
    } else {
        None
    }
}

/// A `Game` holds exactly what a valid FEN string `s` describes.
pub open spec fn parses_to(s: Seq<char>, g: Game) -> bool {
    let fields = split_on(s, ' ');
    let rows = split_on(fields[0], '/');
    &&& g.pieces@ == placement_pieces(rows)
    &&& g.squares@ == placement_squares(rows, 0)
    &&& Some(g.active_color) == color_field(fields[1])
    &&& Some(g.castling_rights) == castling_field(fields[2])
    &&& Some(g.en_passant) == en_passant_field(fields[3])
    &&& Some(g.halfmove_clock as int) == counter_field(fields[4])
    &&& Some(g.fullmove_number as int) == counter_field(fields[5])
}

/// The standard chess starting position in FEN.
pub open spec fn standard_fen() -> Seq<char> {
    "rnbqkbnr/pppppppp/8/8/8/8/PPPPPPPP/RNBQKBNR w KQkq - 0 1"@
}

/// `all_digits` says each character is a digit.
proof fn lemma_all_digits_index(s: Seq<char>)
    ensures
        all_digits(s) <==> (forall|i: int| 0 <= i < s.len() ==> is_digit(#[trigger] s[i])),
    decreases s.len(),
{
    if s.len() > 0 {
        lemma_all_digits_index(s.skip(1));
        if all_digits(s) {
            assert forall|i: int| 0 <= i < s.len() implies is_digit(#[trigger] s[i]) by {
                if i >= 1 {
                    assert(s.skip(1)[i - 1] == s[i]);
                }
            }
        }
        if forall|i: int| 0 <= i < s.len() ==> is_digit(#[trigger] s[i]) {
            assert forall|j: int| 0 <= j < s.skip(1).len() implies is_digit(
                #[trigger] s.skip(1)[j],
            ) by {
                assert(s.skip(1)[j] == s[j + 1]);
            }
            assert(all_digits(s.skip(1)));
        }
    }
}

/// A digit string's value is nonnegative.
proof fn lemma_dec_val_nonneg(s: Seq<char>)
    requires
        forall|i: int| 0 <= i < s.len() ==> is_digit(#[trigger] s[i]),
    ensures
        dec_val(s) >= 0,
    decreases s.len(),
{
    if s.len() > 0 {
        lemma_dec_val_nonneg(s.drop_last());
    }
}

/// Reading more digits never shrinks the value.
proof fn lemma_dec_val_prefix(s: Seq<char>, m: int)
    requires
        forall|i: int| 0 <= i < s.len() ==> is_digit(#[trigger] s[i]),
        0 <= m <= s.len(),
    ensures
        dec_val(s) >= dec_val(s.take(m)),
    decreases s.len(),
{
    if m == s.len() {
        assert(s.take(m) =~= s);
    } else {
        lemma_dec_val_nonneg(s.drop_last());
        lemma_dec_val_prefix(s.drop_last(), m);
        assert(s.drop_last().take(m) =~= s.take(m));
    }
}

/// Returns the index of the first occurrence of `sep` in `s` at or after
/// `from`, or the length of `s` when there is none.
fn find_from(s: &str, from: usize, sep: char) -> (i: usize)
    requires
        from <= s@.len(),
    ensures
        from <= i <= s@.len(),
        i - from == find_sep(s@.skip(from as int), sep),
{
    let n = s.unicode_len();
    let mut j = from;
    while j < n
        invariant
            from <= j <= n,
            n == s@.len(),
            find_sep(s@.skip(from as int), sep) == (j - from) + find_sep(s@.skip(j as int), sep),
        decreases n - j,
    {
        let c = s.get_char(j);
        proof {
            assert(s@.skip(j as int)[0] == s@[j as int]);
            assert(s@.skip(j as int).skip(1) =~= s@.skip(j as int + 1));
        }
        if c == sep {
            return j;
        }
        j += 1;
    }
    proof {
        assert(s@.skip(n as int) =~= Seq::<char>::empty());
    }
    n
}

/// Splits `s` at every occurrence of `sep`, returning the parts in order.
fn split_fields<'a>(s: &'a str, sep: char) -> (parts: Vec<&'a str>)
    ensures
        parts@.map_values(|p: &str| p@) == split_on(s@, sep),
{
    let mut parts: Vec<&str> = Vec::new();
    let mut start: usize = 0;
    let n = s.unicode_len();
    proof {
        assert(s@.skip(0) =~= s@);
    }
    loop
        invariant
            start <= n,
            n == s@.len(),
            parts@.map_values(|p: &str| p@) + split_on(s@.skip(start as int), sep) == split_on(
                s@,
                sep,
            ),
        decreases n - start,
    {
        let j = find_from(s, start, sep);
        let part = s.substring_char(start, j);
        let ghost rem = s@.skip(start as int);
        proof {
            assert(rem.take(j - start) =~= s@.subrange(start as int, j as int));
            assert((parts@ + seq![part]).map_values(|p: &str| p@) =~= parts@.map_values(
                |p: &str| p@,
            ) + seq![part@]);
        }
        parts.push(part);
        if j < n {
            proof {
                assert(rem.skip(j - start + 1) =~= s@.skip(j as int + 1));
                assert(parts@.map_values(|p: &str| p@) + split_on(s@.skip(j as int + 1), sep)
                    =~= split_on(s@, sep));
            }
            start = j + 1;
        } else {
            proof {
                assert(rem.take(j - start) =~= rem);
                assert(parts@.map_values(|p: &str| p@) =~= split_on(s@, sep));
            }
            return parts;
        }
    }
}

/// Parses a move-counter field: the digits of `s` in base ten, if `s` is
/// a nonempty digit string whose value fits.
fn parse_counter(s: &str) -> (r: Option<usize>)
    ensures
        match r {
            Some(n) => counter_field(s@) == Some(n as int),
            None => counter_field(s@) is None,
        },
{
    let n = s.unicode_len();
    if n == 0 {
        return None;
    }
    let mut val: usize = 0;
    let mut i: usize = 0;
    proof {
        assert(s@.skip(0) =~= s@);
        assert(s@.take(0) =~= Seq::<char>::empty());
    }
    while i < n
        invariant
            0 <= i <= n,
            n == s@.len(),
            all_digits(s@) == all_digits(s@.skip(i as int)),
            forall|j: int| 0 <= j < i ==> is_digit(#[trigger] s@[j]),
            val == dec_val(s@.take(i as int)),
        decreases n - i,
    {
        let c = s.get_char(i);
        let u = c as u32;
        proof {
            assert(s@.skip(i as int)[0] == s@[i as int]);
            assert(s@.skip(i as int).skip(1) =~= s@.skip(i as int + 1));
        }
        if u < 48 || u > 57 {
            proof {
                assert(!all_digits(s@.skip(i as int)));
            }
            return None;
        }
        let d = (u - 48) as usize;
        if val > (usize::MAX - d) / 10 {
            proof {
                let t = s@.take(i as int + 1);
                assert(t.drop_last() =~= s@.take(i as int));
                assert(t.last() == s@[i as int]);
                assert(val * 10 + d > usize::MAX) by {
                    let q = (usize::MAX - d) / 10;
                    assert(usize::MAX - d == 10 * q + (usize::MAX - d) % 10);
                };
                if all_digits(s@) {
                    lemma_all_digits_index(s@);
                    lemma_dec_val_prefix(s@, i as int + 1);
                    assert(dec_val(s@) > usize::MAX);
                }
            }
            return None;
        }
        proof {
            let q = (usize::MAX - d) / 10;
            assert(usize::MAX - d == 10 * q + (usize::MAX - d) % 10);
            assert(val * 10 <= 10 * q);
            let t = s@.take(i as int + 1);
            assert(t.drop_last() =~= s@.take(i as int));
            assert(t.last() == s@[i as int]);
        }
        val = val * 10 + d;
        i += 1;
    }
    proof {
        assert(s@.take(n as int) =~= s@);
        assert(s@.skip(n as int) =~= Seq::<char>::empty());
        lemma_all_digits_index(s@);
    }
    Some(val)
}

/// A row's width and piece count are never negative, and a well-formed
/// row never places more pieces than the squares it covers.
proof fn lemma_row_measures_nonneg(row: Seq<char>)
    ensures
        row_width(row) >= 0,
        row_piece_count(row) >= 0,
        row_wf(row) ==> row_piece_count(row) <= row_width(row),
    decreases row.len(),
{
    if row.len() > 0 {
        lemma_row_measures_nonneg(row.skip(1));
    }
}

/// Parses one row of the placement field, scanning left to right from
/// square index `piece_position` with piece-list indices counted from
/// `piece_index`.  Succeeds exactly on valid rows: well-formed characters
/// covering exactly eight squares.
pub fn parse_row(row: &str, piece_index: usize, piece_position: usize) -> (r: Result<
    (Vec<Piece>, Vec<Square>),
    FenError,
>)
    requires
        piece_position + 8 <= 64,
        piece_index + 8 <= usize::MAX,
    ensures
        match r {
            Ok(out) => {
                &&& row_ok(row@)
                &&& out.0@ == row_piece_seq(row@, piece_position as int)
                &&& out.1@ == row_square_seq(row@, piece_index as int)
                &&& out.1@.len() == 8
                &&& out.0@.len() == row_piece_count(row@)
                &&& out.0@.len() <= 8
                &&& forall|t: int|
                    0 <= t < out.1@.len() ==> (#[trigger] out.1@[t] matches Square::Occupied(k)
                        ==> piece_index <= k < piece_index + out.0@.len())
                &&& forall|t: int|
                    0 <= t < out.0@.len() ==> is_single_bit(#[trigger] out.0@[t].position)
            },
            Err(e) => e == FenError::BadPlacement && !row_ok(row@),
        },
{
    let n = row.unicode_len();
    let mut pieces: Vec<Piece> = Vec::new();
    let mut squares: Vec<Square> = Vec::new();
    let mut pos = piece_position;
    let mut idx = piece_index;
    let mut i: usize = 0;
    proof {
        assert(row@.skip(0) =~= row@);
    }
    while i < n
        invariant
            0 <= i <= n,
            n == row@.len(),
            piece_position <= pos <= piece_position + 8,
            piece_position + 8 <= 64,
            piece_index + 8 <= usize::MAX,
            idx == piece_index + pieces@.len(),
            pieces@.len() <= pos - piece_position,
            squares@.len() == pos - piece_position,
            pieces@ + row_piece_seq(row@.skip(i as int), pos as int) == row_piece_seq(
                row@,
                piece_position as int,
            ),
            squares@ + row_square_seq(row@.skip(i as int), idx as int) == row_square_seq(
                row@,
                piece_index as int,
            ),
            row_wf(row@) == row_wf(row@.skip(i as int)),
            row_width(row@) == (pos - piece_position) + row_width(row@.skip(i as int)),
            row_piece_count(row@) == pieces@.len() + row_piece_count(row@.skip(i as int)),
            forall|t: int|
                0 <= t < squares@.len() ==> (#[trigger] squares@[t] matches Square::Occupied(k)
                    ==> piece_index <= k < idx),
            forall|t: int| 0 <= t < pieces@.len() ==> is_single_bit(#[trigger] pieces@[t].position),
        decreases n - i,
    {
        let c = row.get_char(i);
        let u = c as u32;
        proof {
            assert(row@.skip(i as int)[0] == row@[i as int]);
            assert(row@.skip(i as int).skip(1) =~= row@.skip(i as int + 1));
        }
        let is_piece = c == 'r' || c == 'n' || c == 'b' || c == 'q' || c == 'k' || c == 'p' || c
            == 'R' || c == 'N' || c == 'B' || c == 'Q' || c == 'K' || c == 'P';
        if is_piece {
            if pos >= piece_position + 8 {
                proof {
                    lemma_row_measures_nonneg(row@.skip(i as int + 1));
                }
                return Err(FenError::BadPlacement);
            }
            let color = if u >= 65 && u <= 90 {
                Color::White
            } else {
                Color::Black
            };
            let kind = if c == 'r' || c == 'R' {
                PieceType::Rook
            } else if c == 'n' || c == 'N' {
                PieceType::Knight
            } else if c == 'b' || c == 'B' {
                PieceType::Bishop
            } else if c == 'q' || c == 'Q' {
                PieceType::Queen
            } else if c == 'k' || c == 'K' {
                PieceType::King
            } else {
                PieceType::Pawn
            };
            let ghost old_pieces = pieces@;
            let ghost old_squares = squares@;
            pieces.push(Piece { position: 1u64 << (pos as u64), color, piece_type: kind });
            squares.push(Square::Occupied(idx));
            proof {
                assert(is_single_bit(1u64 << (pos as u64)));
                assert(pieces@ + row_piece_seq(row@.skip(i as int + 1), pos + 1) =~= old_pieces
                    + row_piece_seq(row@.skip(i as int), pos as int));
                assert(squares@ + row_square_seq(row@.skip(i as int + 1), idx + 1) =~= old_squares
                    + row_square_seq(row@.skip(i as int), idx as int));
            }
            pos += 1;
            idx += 1;
        } else if u >= 49 && u <= 56 {
            let d = (u - 48) as usize;
            if pos - piece_position + d > 8 {
                proof {
                    lemma_row_measures_nonneg(row@.skip(i as int + 1));
                }
                return Err(FenError::BadPlacement);
            }
            let ghost snap = squares@;
            let mut t: usize = 0;
            while t < d
                invariant
                    0 <= t <= d,
                    squares@ =~= snap + Seq::new(t as nat, |j: int| Square::Empty),
                decreases d - t,
            {
                squares.push(Square::Empty);
                proof {
                    assert(snap + Seq::new((t + 1) as nat, |j: int| Square::Empty) =~= (snap
                        + Seq::new(t as nat, |j: int| Square::Empty)) + seq![Square::Empty]);
                }
                t += 1;
            }
            proof {
                assert(squares@ + row_square_seq(row@.skip(i as int + 1), idx as int) =~= snap
                    + row_square_seq(row@.skip(i as int), idx as int));
            }
            pos += d;
        } else {
            proof {
                assert(!row_wf(row@.skip(i as int)));
            }
            return Err(FenError::BadPlacement);
        }
        i += 1;
    }
    proof {
        assert(row@.skip(n as int) =~= Seq::<char>::empty());
    }
    if pos - piece_position != 8 {
        return Err(FenError::BadPlacement);
    }
    Ok((pieces, squares))
}

/// `rows_ok` says each row is valid.
proof fn lemma_rows_ok_iff(rows: Seq<Seq<char>>)
    ensures
        rows_ok(rows) <==> (forall|j: int| 0 <= j < rows.len() ==> row_ok(#[trigger] rows[j])),
    decreases rows.len(),
{
    if rows.len() > 0 {
        lemma_rows_ok_iff(rows.skip(1));
        if rows_ok(rows) {
            assert forall|j: int| 0 <= j < rows.len() implies row_ok(#[trigger] rows[j]) by {
                if j >= 1 {
                    assert(rows.skip(1)[j - 1] == rows[j]);
                }
            }
        }
        if forall|j: int| 0 <= j < rows.len() ==> row_ok(#[trigger] rows[j]) {
            assert forall|j: int| 0 <= j < rows.skip(1).len() implies row_ok(
                #[trigger] rows.skip(1)[j],
            ) by {
                assert(rows.skip(1)[j] == rows[j + 1]);
            }
            assert(rows_ok(rows.skip(1)));
        }
    }
}

/// Parses the whole piece-placement field: eight slash-separated rows,
/// the first standing for rank 8.  Returns the piece list in the order
/// the rows are written and the 64 squares in storage order (`"a1"`
/// first).
pub fn parse_placement(field: &str) -> (r: Result<(Vec<Piece>, Vec<Square>), FenError>)
    ensures
        match r {
            Ok(out) => {
                let rows = split_on(field@, '/');
                &&& placement_ok(field@)
                &&& out.0@ == placement_pieces(rows)
                &&& out.1@ == placement_squares(rows, 0)
                &&& out.1@.len() == 64
                &&& forall|t: int|
                    0 <= t < out.1@.len() ==> (#[trigger] out.1@[t] matches Square::Occupied(k)
                        ==> k < out.0@.len())
                &&& forall|t: int|
                    0 <= t < out.0@.len() ==> is_single_bit(#[trigger] out.0@[t].position)
            },
            Err(e) => e == FenError::BadPlacement && !placement_ok(field@),
        },
{
    let rows_v = split_fields(field, '/');
    let ghost rows = split_on(field@, '/');
    proof {
        assert(forall|j: int|
            0 <= j < rows_v@.len() ==> (#[trigger] rows_v@[j])@ == rows_v@.map_values(
                |p: &str| p@,
            )[j]);
    }
    if rows_v.len() != 8 {
        proof {
            assert(rows.len() == rows_v@.map_values(|p: &str| p@).len());
            assert(!placement_ok(field@));
        }
        return Err(FenError::BadPlacement);
    }
    let mut pieces: Vec<Piece> = Vec::new();
    let mut row_sqs: Vec<Vec<Square>> = Vec::new();
    let mut k: usize = 0;
    proof {
        assert(rows.skip(0) =~= rows);
    }
    while k < 8
        invariant
            0 <= k <= 8,
            rows == split_on(field@, '/'),
            rows.len() == 8,
            rows_v@.len() == 8,
            forall|j: int| 0 <= j < 8 ==> (#[trigger] rows_v@[j])@ == rows[j],
            pieces@ + placement_pieces(rows.skip(k as int)) == placement_pieces(rows),
            pieces@.len() == pieces_before(rows, k as int),
            pieces@.len() <= 8 * k,
            row_sqs@.len() == k,
            forall|j: int|
                0 <= j < k ==> (#[trigger] row_sqs@[j])@ == row_square_seq(
                    rows[j],
                    pieces_before(rows, j),
                ),
            forall|j: int| 0 <= j < k ==> (#[trigger] row_sqs@[j])@.len() == 8,
            forall|j: int| 0 <= j < k ==> row_ok(#[trigger] rows[j]),
            forall|j: int, t: int|
                0 <= j < k && 0 <= t < 8 ==> (#[trigger] row_sqs@[j]@[t] matches Square::Occupied(
                    kk,
                ) ==> kk < pieces@.len()),
            forall|t: int| 0 <= t < pieces@.len() ==> is_single_bit(#[trigger] pieces@[t].position),
        decreases 8 - k,
    {
        let base_pos = 8 * (7 - k);
        match parse_row(rows_v[k], pieces.len(), base_pos) {
            Err(_) => {
                proof {
                    assert(!row_ok(rows[k as int]));
                    lemma_rows_ok_iff(rows);
                    assert(!rows_ok(rows));
                }
                return Err(FenError::BadPlacement);
            },
            Ok(pr) => {
                let (mut ps, sq) = pr;
                proof {
                    assert(rows.skip(k as int)[0] == rows[k as int]);
                    assert(rows.skip(k as int).skip(1) =~= rows.skip(k as int + 1));
                    assert((pieces@ + ps@) + placement_pieces(rows.skip(k as int + 1)) =~= pieces@
                        + placement_pieces(rows.skip(k as int)));
                }
                pieces.append(&mut ps);
                row_sqs.push(sq);
            },
        }
        k += 1;
    }
    proof {
        assert(rows.skip(8) =~= Seq::<Seq<char>>::empty());
        lemma_rows_ok_iff(rows);
    }
    let mut squares: Vec<Square> = Vec::new();
    let mut t: usize = 0;
    while t < 8
        invariant
            0 <= t <= 8,
            rows.len() == 8,
            row_sqs@.len() == 8,
            pieces@.len() == pieces_before(rows, 8),
            forall|j: int|
                0 <= j < 8 ==> (#[trigger] row_sqs@[j])@ == row_square_seq(
                    rows[j],
                    pieces_before(rows, j),
                ),
            forall|j: int| 0 <= j < 8 ==> (#[trigger] row_sqs@[j])@.len() == 8,
            forall|j: int, x: int|
                0 <= j < 8 && 0 <= x < 8 ==> (#[trigger] row_sqs@[j]@[x] matches Square::Occupied(
                    kk,
                ) ==> kk < pieces@.len()),
            squares@ == placement_squares(rows.skip(8 - t as int), pieces_before(rows, 8 - t as int)),
            squares@.len() == 8 * t,
            forall|x: int|
                0 <= x < squares@.len() ==> (#[trigger] squares@[x] matches Square::Occupied(kk)
                    ==> kk < pieces@.len()),
        decreases 8 - t,
    {
        let j = 7 - t;
        let row_sq = &row_sqs[j];
        let ghost snap = squares@;
        let mut u: usize = 0;
        while u < row_sq.len()
            invariant
                0 <= u <= row_sq@.len(),
                squares@ == snap + row_sq@.take(u as int),
            decreases row_sq@.len() - u,
        {
            squares.push(row_sq[u]);
            proof {
                assert(snap + row_sq@.take(u as int + 1) =~= (snap + row_sq@.take(u as int))
                    + seq![row_sq@[u as int]]);
            }
            u += 1;
        }
        proof {
            assert(row_sq@.take(row_sq@.len() as int) =~= row_sq@);
            assert(rows.skip(j as int)[0] == rows[j as int]);
            assert(rows.skip(j as int).skip(1) =~= rows.skip(j as int + 1));
            assert(squares@ =~= placement_squares(
                rows.skip(j as int),
                pieces_before(rows, j as int),
            ));
        }
        t += 1;
    }
    proof {
        assert(rows.skip(0) =~= rows);
    }
    Ok((pieces, squares))
}

/// Within one well-formed row, every occupied square refers to the piece
/// standing on that square.
proof fn lemma_row_refs(row: Seq<char>, pos: int, pidx: int)
    requires
        row_wf(row),
        0 <= pidx,
        pidx + row_piece_count(row) <= usize::MAX,
    ensures
        row_square_seq(row, pidx).len() == row_width(row),
        row_piece_seq(row, pos).len() == row_piece_count(row),
        forall|j: int|
            0 <= j < row_width(row) ==> (#[trigger] row_square_seq(row, pidx)[j] matches
                Square::Occupied(k) ==> pidx <= k < pidx + row_piece_count(row) && row_piece_seq(
                row,
                pos,
            )[k - pidx].position == 1u64 << ((pos + j) as u64)),
    decreases row.len(),
{
    if row.len() > 0 {
        let rest = row.skip(1);
        lemma_row_measures_nonneg(rest);
        if is_piece_char(row[0]) {
            lemma_row_refs(rest, pos + 1, pidx + 1);
            assert forall|j: int|
                0 <= j < row_width(row) implies (#[trigger] row_square_seq(row, pidx)[j] matches
                Square::Occupied(k) ==> pidx <= k < pidx + row_piece_count(row) && row_piece_seq(
                row,
                pos,
            )[k - pidx].position == 1u64 << ((pos + j) as u64)) by {
                if j == 0 {
                    assert(row_square_seq(row, pidx)[0] == Square::Occupied(pidx as usize));
                } else {
                    assert(row_square_seq(row, pidx)[j] == row_square_seq(rest, pidx + 1)[j - 1]);
                    match row_square_seq(rest, pidx + 1)[j - 1] {
                        Square::Occupied(k) => {
                            assert(row_piece_seq(row, pos)[k - pidx] == row_piece_seq(
                                rest,
                                pos + 1,
                            )[k - pidx - 1]);
                        },
                        Square::Empty => {},
                    }
                }
            }
        } else {
            let d = rank_val(row[0]);
            lemma_row_refs(rest, pos + d, pidx);
            assert forall|j: int|
                0 <= j < row_width(row) implies (#[trigger] row_square_seq(row, pidx)[j] matches
                Square::Occupied(k) ==> pidx <= k < pidx + row_piece_count(row) && row_piece_seq(
                row,
                pos,
            )[k - pidx].position == 1u64 << ((pos + j) as u64)) by {
                if j >= d {
                    assert(row_square_seq(row, pidx)[j] == row_square_seq(rest, pidx)[j - d]);
                }
            }
        }
    }
}

/// Within a whole valid placement, every occupied square refers to the
/// piece standing on that square: piece-list indices count through the
/// rows as written, from `pidx`, while squares sit in storage order.
proof fn lemma_placement_refs(rows: Seq<Seq<char>>, pidx: int)
    requires
        rows_ok(rows),
        0 <= pidx,
        pidx + 8 * rows.len() <= usize::MAX,
    ensures
        placement_squares(rows, pidx).len() == 8 * rows.len(),
        placement_pieces(rows).len() <= 8 * rows.len(),
        forall|i: int|
            0 <= i < 8 * rows.len() ==> (#[trigger] placement_squares(rows, pidx)[i] matches
                Square::Occupied(k) ==> pidx <= k < pidx + placement_pieces(rows).len()
                && placement_pieces(rows)[k - pidx].position == 1u64 << (i as u64)),
    decreases rows.len(),
{
    if rows.len() > 0 {
        let r0 = rows[0];
        let rest = rows.skip(1);
        let base = 8 * (rows.len() - 1);
        let c0 = row_piece_count(r0);
        lemma_row_measures_nonneg(r0);
        lemma_row_refs(r0, base, pidx);
        lemma_placement_refs(rest, pidx + c0);
        assert forall|i: int|
            0 <= i < 8 * rows.len() implies (#[trigger] placement_squares(rows, pidx)[i] matches
            Square::Occupied(k) ==> pidx <= k < pidx + placement_pieces(rows).len()
            && placement_pieces(rows)[k - pidx].position == 1u64 << (i as u64)) by {
            if i < base {
                assert(placement_squares(rows, pidx)[i] == placement_squares(rest, pidx + c0)[i]);
                match placement_squares(rest, pidx + c0)[i] {
                    Square::Occupied(k) => {
                        assert(placement_pieces(rows)[k - pidx] == placement_pieces(rest)[k - pidx
                            - c0]);
                    },
                    Square::Empty => {},
                }
            } else {
                assert(placement_squares(rows, pidx)[i] == row_square_seq(r0, pidx)[i - base]);
                match row_square_seq(r0, pidx)[i - base] {
                    Square::Occupied(k) => {
                        assert(placement_pieces(rows)[k - pidx] == row_piece_seq(r0, base)[k
                            - pidx]);
                    },
                    Square::Empty => {},
                }
            }
        }
    }
}

/// Back-references are faithful: in the 64 squares of a valid placement,
/// an occupied square's index names the piece whose position mask is the
/// single bit of that very square.
pub proof fn lemma_occupied_squares_match_pieces(rows: Seq<Seq<char>>)
    requires
        rows.len() == 8,
        rows_ok(rows),
    ensures
        placement_squares(rows, 0).len() == 64,
        forall|i: int|
            0 <= i < 64 ==> (#[trigger] placement_squares(rows, 0)[i] matches Square::Occupied(k)
                ==> 0 <= k < placement_pieces(rows).len() && placement_pieces(rows)[k as int].position
                == 1u64 << (i as u64)),
{
    lemma_placement_refs(rows, 0);
}

/// Parses the castling field by accumulating flags left to right.
fn parse_castling(f: &str) -> (r: Option<CastlingRights>)
    ensures
        r == castling_field(f@),
{
    let n = f.unicode_len();
    let mut acc = CastlingRights {
        white_kingside: false,
        white_queenside: false,
        black_kingside: false,
        black_queenside: false,
    };
    let mut i: usize = 0;
    proof {
        assert(f@.skip(0) =~= f@);
    }
    while i < n
        invariant
            0 <= i <= n,
            n == f@.len(),
            castling_field(f@) == castling_fold(f@.skip(i as int), acc),
        decreases n - i,
    {
        let c = f.get_char(i);
        proof {
            assert(f@.skip(i as int)[0] == f@[i as int]);
            assert(f@.skip(i as int).skip(1) =~= f@.skip(i as int + 1));
        }
        if c == 'K' {
            acc = CastlingRights { white_kingside: true, ..acc };
        } else if c == 'Q' {
            acc = CastlingRights { white_queenside: true, ..acc };
        } else if c == 'k' {
            acc = CastlingRights { black_kingside: true, ..acc };
        } else if c == 'q' {
            acc = CastlingRights { black_queenside: true, ..acc };
        } else if c == '-' {
        } else {
            return None;
        }
        i += 1;
    }
    proof {
        assert(f@.skip(n as int) =~= Seq::<char>::empty());
    }
    Some(acc)
}

impl Game {
    /// Reads a full FEN string: six space-separated fields giving the
    /// piece placement, the active color, the castling rights, the
    /// en-passant target, and the two move counters.  Returns the board
    /// state the string describes, or the error of the first malformed
    /// field.
    #[allow(non_snake_case)]
    pub fn read_FEN(fen: &str) -> (r: Result<Game, FenError>)
        ensures
            match r {
                Ok(g) => {
                    &&& fen_error(fen@) is None
                    &&& parses_to(fen@, g)
                    &&& g.wf()
                },
                Err(e) => fen_error(fen@) == Some(e),
            },
    {
        let fields = split_fields(fen, ' ');
        let ghost fseq = split_on(fen@, ' ');
        proof {
            assert(fseq.len() == fields@.map_values(|p: &str| p@).len());
            assert(forall|j: int|
                0 <= j < fields@.len() ==> (#[trigger] fields@[j])@ == fields@.map_values(
                    |p: &str| p@,
                )[j]);
        }
        if fields.len() != 6 {
            return Err(FenError::BadFieldCount);
        }
        let placement = match parse_placement(fields[0]) {
            Err(e) => {
                return Err(e);
            },
            Ok(out) => out,
        };
        let (pieces, squares) = placement;
        if fields[1].unicode_len() != 1 {
            return Err(FenError::BadColor);
        }
        let color_char = fields[1].get_char(0);
        let active_color = if color_char == 'w' {
            Color::White
        } else if color_char == 'b' {
            Color::Black
        } else {
            return Err(FenError::BadColor);
        };
        let castling_rights = match parse_castling(fields[2]) {
            None => {
                return Err(FenError::BadCastling);
            },
            Some(cr) => cr,
        };
        let en_passant: Option<u64>;
        if fields[3].unicode_len() == 1 && fields[3].get_char(0) == '-' {
            en_passant = None;
        } else {
            en_passant = match position_to_bit(fields[3]) {
                Err(_) => {
                    return Err(FenError::BadEnPassant);
                },
                Ok(bit) => {
                    proof {
                        let ghost b = name_square(fields@[3]@) as u64;
                        assert(b < 64 && bit == 1u64 << b);
                        assert(is_single_bit(bit));
                    }
                    Some(bit)
                },
            };
        }
        let halfmove_clock = match parse_counter(fields[4]) {
            None => {
                return Err(FenError::BadHalfmove);
            },
            Some(n) => n,
        };
        let fullmove_number = match parse_counter(fields[5]) {
            None => {
                return Err(FenError::BadFullmove);
            },
            Some(n) => n,
        };
        Ok(
            Game {
                pieces,
                squares,
                active_color,
                castling_rights,
                en_passant,
                halfmove_clock,
                fullmove_number,
            },
        )
    }

    /// Builds the standard chess starting position by reading its FEN
    /// string; there is no separate hand-built path, so the reader and
    /// the default position cannot drift apart.
    pub fn initialize() -> (g: Game)
        ensures
            fen_error(standard_fen()) is None,
            parses_to(standard_fen(), g),
            g.wf(),
    {
        let r = Game::read_FEN("rnbqkbnr/pppppppp/8/8/8/8/PPPPPPPP/RNBQKBNR w KQkq - 0 1");
        proof {
            lemma_standard_fen_parses();
        }
        match r {
            Ok(g) => g,
            Err(_) => unreached(),
        }
    }
}

/// The index of the first occurrence of `sep` in `s` at or after `i`,
/// written with an index so that unfolding it on a known string touches
/// one character per step.
pub open spec fn find_at(s: Seq<char>, sep: char, i: int) -> int
    decreases s.len() - i,
{
    if i < 0 || i >= s.len() {
        s.len() as int
    } else if s[i] == sep {
        i
    } else {
        find_at(s, sep, i + 1)
    }
}

/// `find_at` computes `find_sep` of the remaining suffix.
proof fn lemma_find_at(s: Seq<char>, sep: char, k: int)
    requires
        0 <= k <= s.len(),
    ensures
        find_at(s, sep, k) == k + find_sep(s.skip(k), sep),
    decreases s.len() - k,
{
    if k == s.len() {
        assert(s.skip(k) =~= Seq::<char>::empty());
    } else {
        assert(s.skip(k)[0] == s[k]);
        if s[k] != sep {
            lemma_find_at(s, sep, k + 1);
            assert(s.skip(k).skip(1) =~= s.skip(k + 1));
        }
    }
}

/// The standard starting FEN splits into its six fields.
#[verifier::rlimit(100)]
#[verifier::spinoff_prover]
proof fn lemma_standard_fen_fields()
    ensures
        split_on(standard_fen(), ' ') == seq![
            standard_fen().take(43),
            seq!['w'],
            seq!['K', 'Q', 'k', 'q'],
            seq!['-'],
            seq!['0'],
            seq!['1'],
        ],
{
    reveal_strlit("rnbqkbnr/pppppppp/8/8/8/8/PPPPPPPP/RNBQKBNR w KQkq - 0 1");
    reveal_with_fuel(find_at, 50);
    reveal_with_fuel(split_on, 8);
    let s = standard_fen();
    assert(s.skip(0) =~= s);
    lemma_find_at(s, ' ', 0);
    lemma_find_at(s, ' ', 44);
    lemma_find_at(s, ' ', 46);
    lemma_find_at(s, ' ', 51);
    lemma_find_at(s, ' ', 53);
    lemma_find_at(s, ' ', 55);
    assert(s.skip(44).skip(2) =~= s.skip(46));
    assert(s.skip(46).skip(5) =~= s.skip(51));
    assert(s.skip(51).skip(2) =~= s.skip(53));
    assert(s.skip(53).skip(2) =~= s.skip(55));
    assert(s.skip(44).take(1) =~= seq!['w']);
    assert(s.skip(46).take(4) =~= seq!['K', 'Q', 'k', 'q']);
    assert(s.skip(51).take(1) =~= seq!['-']);
    assert(s.skip(53).take(1) =~= seq!['0']);
    assert(s.skip(55) =~= seq!['1']);
    assert(split_on(s, ' ') =~~= seq![
        s.take(43),
        seq!['w'],
        seq!['K', 'Q', 'k', 'q'],
        seq!['-'],
        seq!['0'],
        seq!['1'],
    ]);
}

/// The placement field of the standard starting FEN splits into its
/// eight rows.
#[verifier::rlimit(100)]
#[verifier::spinoff_prover]
proof fn lemma_standard_fen_rows()
    ensures
        split_on(standard_fen().take(43), '/') == seq![
            standard_fen().take(43).take(8),
            standard_fen().take(43).skip(9).take(8),
            standard_fen().take(43).skip(18).take(1),
            standard_fen().take(43).skip(20).take(1),
            standard_fen().take(43).skip(22).take(1),
            standard_fen().take(43).skip(24).take(1),
            standard_fen().take(43).skip(26).take(8),
            standard_fen().take(43).skip(35),
        ],
{
    reveal_strlit("rnbqkbnr/pppppppp/8/8/8/8/PPPPPPPP/RNBQKBNR w KQkq - 0 1");
    reveal_with_fuel(find_at, 40);
    reveal_with_fuel(split_on, 9);
    let f = standard_fen().take(43);
    assert(f.skip(0) =~= f);
    lemma_find_at(f, '/', 0);
    lemma_find_at(f, '/', 9);
    lemma_find_at(f, '/', 18);
    lemma_find_at(f, '/', 20);
    lemma_find_at(f, '/', 22);
    lemma_find_at(f, '/', 24);
    lemma_find_at(f, '/', 26);
    lemma_find_at(f, '/', 35);
    assert(f.skip(9).skip(9) =~= f.skip(18));
    assert(f.skip(18).skip(2) =~= f.skip(20));
    assert(f.skip(20).skip(2) =~= f.skip(22));
    assert(f.skip(22).skip(2) =~= f.skip(24));
    assert(f.skip(24).skip(2) =~= f.skip(26));
    assert(f.skip(26).skip(9) =~= f.skip(35));
    assert(split_on(f, '/') =~~= seq![
        f.take(8),
        f.skip(9).take(8),
        f.skip(18).take(1),
        f.skip(20).take(1),
        f.skip(22).take(1),
        f.skip(24).take(1),
        f.skip(26).take(8),
        f.skip(35),
    ]);
}

/// Each row of the standard placement is valid, so the whole placement
/// field is.
#[verifier::rlimit(100)]
#[verifier::spinoff_prover]
proof fn lemma_standard_fen_placement()
    ensures
        placement_ok(standard_fen().take(43)),
{
    reveal_strlit("rnbqkbnr/pppppppp/8/8/8/8/PPPPPPPP/RNBQKBNR w KQkq - 0 1");
    lemma_standard_fen_rows();
    reveal_with_fuel(row_wf, 10);
    reveal_with_fuel(row_width, 10);
    reveal_with_fuel(rows_ok, 9);
    let f = standard_fen().take(43);
    assert(row_ok(f.take(8)));
    assert(row_ok(f.skip(9).take(8)));
    assert(row_ok(f.skip(18).take(1)));
    assert(row_ok(f.skip(20).take(1)));
    assert(row_ok(f.skip(22).take(1)));
    assert(row_ok(f.skip(24).take(1)));
    assert(row_ok(f.skip(26).take(8)));
    assert(row_ok(f.skip(35)));
    assert(rows_ok(split_on(f, '/')));
}

/// The standard starting FEN is accepted by every field's model.
#[verifier::rlimit(100)]
#[verifier::spinoff_prover]
proof fn lemma_standard_fen_parses()
    ensures
        fen_error(standard_fen()) is None,
{
    reveal_strlit("rnbqkbnr/pppppppp/8/8/8/8/PPPPPPPP/RNBQKBNR w KQkq - 0 1");
    lemma_standard_fen_fields();
    lemma_standard_fen_placement();
    reveal_with_fuel(castling_fold, 6);
    reveal_with_fuel(all_digits, 3);
    reveal_with_fuel(dec_val, 3);
    assert(color_field(seq!['w']) == Some(Color::White));
    assert(castling_field(seq!['K', 'Q', 'k', 'q']) is Some);
    assert(en_passant_field(seq!['-']) == Some(Option::<u64>::None));
    assert(counter_field(seq!['0']) == Some(0int));
    assert(counter_field(seq!['1']) == Some(1int));
    assert(fen_error(standard_fen()) is None);
}

} // verus!
