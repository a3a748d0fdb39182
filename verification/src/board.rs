//! The board-state data model: pieces, squares, castling rights, and the
//! `Game` type that owns a parsed position.

use vstd::prelude::*;

verus! {

/// The side a piece belongs to.
#[derive(Debug, Clone, Copy, PartialEq, Eq, Structural)]
pub enum Color {
    White,
    Black,
}

/// The six kinds of chess piece.
#[derive(Debug, Clone, Copy, PartialEq, Eq, Structural)]
pub enum PieceType {
    Pawn,
    Rook,
    Knight,
    Bishop,
    Queen,
    King,
}

/// One piece on the board.  `position` is a 64-bit mask with exactly one
/// set bit, the bit of the square the piece stands on.
#[derive(Debug, Clone, Copy, PartialEq, Eq, Structural)]
pub struct Piece {
    pub position: u64,
    pub color: Color,
    pub piece_type: PieceType,
}

/// One square of the board: empty, or a back-reference into the owning
/// board's piece list.
#[derive(Debug, Clone, Copy, PartialEq, Eq, Structural)]
pub enum Square {
    Empty,
    Occupied(usize),
}

/// The four independent castling flags.
#[derive(Debug, Clone, Copy, PartialEq, Eq, Structural)]
pub struct CastlingRights {
    pub white_kingside: bool,
    pub white_queenside: bool,
    pub black_kingside: bool,
    pub black_queenside: bool,
}

/// Castling rights with none of the four flags set.
pub open spec fn no_rights() -> CastlingRights {
    CastlingRights {
        white_kingside: false,
        white_queenside: false,
        black_kingside: false,
        black_queenside: false,
    }
}

/// Whether `m` is a valid square mask: exactly one set bit.
pub open spec fn is_single_bit(m: u64) -> bool {
    exists|b: u64| b < 64 && m == 1u64 << b
}

/// The FEN letter of a piece followed by a space: uppercase for White,
/// lowercase for Black.
pub open spec fn piece_letter(color: Color, piece_type: PieceType) -> char {
    match (color, piece_type) {
        (Color::White, PieceType::Pawn) => 'P',
        (Color::White, PieceType::Rook) => 'R',
        (Color::White, PieceType::Knight) => 'N',
        (Color::White, PieceType::Bishop) => 'B',
        (Color::White, PieceType::Queen) => 'Q',
        (Color::White, PieceType::King) => 'K',
        (Color::Black, PieceType::Pawn) => 'p',
        (Color::Black, PieceType::Rook) => 'r',
        (Color::Black, PieceType::Knight) => 'n',
        (Color::Black, PieceType::Bishop) => 'b',
        (Color::Black, PieceType::Queen) => 'q',
        (Color::Black, PieceType::King) => 'k',
    }
}

/// The two-character token a piece renders as: its FEN letter and a space.
pub open spec fn piece_chars(p: Piece) -> Seq<char> {
    seq![piece_letter(p.color, p.piece_type), ' ']
}

impl Piece {
    /// Renders the piece as its two-character token.
    pub fn to_string(&self) -> (r: String)
        ensures
            r@ == piece_chars(*self),
    {
        let lit: &str = match (self.color, self.piece_type) {
            (Color::White, PieceType::Pawn) => "P ",
            (Color::White, PieceType::Rook) => "R ",
            (Color::White, PieceType::Knight) => "N ",
            (Color::White, PieceType::Bishop) => "B ",
            (Color::White, PieceType::Queen) => "Q ",
            (Color::White, PieceType::King) => "K ",
            (Color::Black, PieceType::Pawn) => "p ",
            (Color::Black, PieceType::Rook) => "r ",
            (Color::Black, PieceType::Knight) => "n ",
            (Color::Black, PieceType::Bishop) => "b ",
            (Color::Black, PieceType::Queen) => "q ",
            (Color::Black, PieceType::King) => "k ",
        };
        let r = String::from_str(lit);
        proof {
            reveal_strlit("P ");
            reveal_strlit("R ");
            reveal_strlit("N ");
            reveal_strlit("B ");
            reveal_strlit("Q ");
            reveal_strlit("K ");
            reveal_strlit("p ");
            reveal_strlit("r ");
            reveal_strlit("n ");
            reveal_strlit("b ");
            reveal_strlit("q ");
            reveal_strlit("k ");
            assert(r@ =~= piece_chars(*self));
        }
        r
    }
}

/// A full board state, built wholesale by the FEN reader and read-only
/// afterwards.
#[derive(Debug)]
pub struct Game {
    pub pieces: Vec<Piece>,
    pub squares: Vec<Square>,
    pub active_color: Color,
    pub castling_rights: CastlingRights,
    pub en_passant: Option<u64>,
    pub halfmove_clock: usize,
    pub fullmove_number: usize,
}

impl Game {
    /// Well-formed board: exactly 64 squares, every occupied square
    /// refers to an existing entry of the piece list, and every position
    /// mask held anywhere has exactly one set bit.
    pub open spec fn wf(self) -> bool {
        &&& self.squares@.len() == 64
        &&& forall|i: int|
            0 <= i < 64 ==> (#[trigger] self.squares@[i] matches Square::Occupied(k) ==> k
                < self.pieces@.len())
        &&& forall|k: int| 0 <= k < self.pieces@.len() ==> is_single_bit(#[trigger] self.pieces@[k].position)
        &&& (self.en_passant matches Some(m) ==> is_single_bit(m))
    }

    /// Appends a piece standing on square `position` together with its
    /// occupied square, and advances the running piece index.
    pub fn push_piece_and_sqaure(
        &mut self,
        position: usize,
        color: Color,
        piece_type: PieceType,
        index: &mut usize,
    )
        requires
            position < 64,
            *old(index) < usize::MAX,
        ensures
            final(self).pieces@ == old(self).pieces@ + seq![
                (Piece {
                    position: 1u64 << (position as u64),
                    color: color,
                    piece_type: piece_type,
                }),
            ],
            final(self).squares@ == old(self).squares@ + seq![Square::Occupied(*old(index))],
            *final(index) == *old(index) + 1,
            final(self).active_color == old(self).active_color,
            final(self).castling_rights == old(self).castling_rights,
            final(self).en_passant == old(self).en_passant,
            final(self).halfmove_clock == old(self).halfmove_clock,
            final(self).fullmove_number == old(self).fullmove_number,
    {
        self.pieces.push(Piece { position: 1u64 << (position as u64), color, piece_type });
        self.squares.push(Square::Occupied(*index));
        *index += 1;
    }

    /// Appends one empty square.
    pub fn push_empty_square(&mut self)
        ensures
            final(self).squares@ == old(self).squares@ + seq![Square::Empty],
            final(self).pieces@ == old(self).pieces@,
            final(self).active_color == old(self).active_color,
            final(self).castling_rights == old(self).castling_rights,
            final(self).en_passant == old(self).en_passant,
            final(self).halfmove_clock == old(self).halfmove_clock,
            final(self).fullmove_number == old(self).fullmove_number,
    {
        self.squares.push(Square::Empty);
    }
}

} // verus!
