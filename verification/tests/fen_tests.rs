//! Tests of the FEN reader and the board renderer.

use chess_fen::board::Color;
use chess_fen::board::Game;
use chess_fen::board::Piece;
use chess_fen::board::PieceType;
use chess_fen::board::Square;
use chess_fen::fen::FenError;
use chess_fen::fen::parse_row;
use chess_fen::position::position_to_bit;

const START: &str = "rnbqkbnr/pppppppp/8/8/8/8/PPPPPPPP/RNBQKBNR w KQkq - 0 1";

#[test]
fn standard_position_fields() {
    let g = Game::read_FEN(START).unwrap();
    assert_eq!(g.pieces.len(), 32);
    assert_eq!(g.squares.len(), 64);
    assert_eq!(g.active_color, Color::White);
    assert!(g.castling_rights.white_kingside);
    assert!(g.castling_rights.white_queenside);
    assert!(g.castling_rights.black_kingside);
    assert!(g.castling_rights.black_queenside);
    assert_eq!(g.en_passant, None);
    assert_eq!(g.halfmove_clock, 0);
    assert_eq!(g.fullmove_number, 1);
}

#[test]
fn standard_position_corner_squares() {
    let g = Game::read_FEN(START).unwrap();
    match g.squares[0] {
        Square::Occupied(k) => {
            assert_eq!(
                g.pieces[k],
                Piece { position: 1u64, color: Color::White, piece_type: PieceType::Rook }
            );
        }
        Square::Empty => panic!("a1 should be occupied"),
    }
    match g.squares[63] {
        Square::Occupied(k) => {
            assert_eq!(
                g.pieces[k],
                Piece { position: 1u64 << 63, color: Color::Black, piece_type: PieceType::Rook }
            );
        }
        Square::Empty => panic!("h8 should be occupied"),
    }
    for i in 16..48 {
        assert_eq!(g.squares[i], Square::Empty);
    }
}

#[test]
fn standard_position_piece_order() {
    let g = Game::read_FEN(START).unwrap();
    // Pieces are listed scanning rank 8 down to rank 1, files a to h.
    assert_eq!(
        g.pieces[0],
        Piece { position: 1u64 << 56, color: Color::Black, piece_type: PieceType::Rook }
    );
    assert_eq!(
        g.pieces[4],
        Piece { position: 1u64 << 60, color: Color::Black, piece_type: PieceType::King }
    );
    assert_eq!(
        g.pieces[8],
        Piece { position: 1u64 << 48, color: Color::Black, piece_type: PieceType::Pawn }
    );
    assert_eq!(
        g.pieces[31],
        Piece { position: 1u64 << 7, color: Color::White, piece_type: PieceType::Rook }
    );
    assert_eq!(g.squares[0], Square::Occupied(24));
}

#[test]
fn initialize_matches_standard_fen() {
    let g = Game::initialize();
    let h = Game::read_FEN(START).unwrap();
    assert_eq!(g.pieces, h.pieces);
    assert_eq!(g.squares, h.squares);
    assert_eq!(g.active_color, h.active_color);
    assert_eq!(g.castling_rights, h.castling_rights);
    assert_eq!(g.en_passant, h.en_passant);
    assert_eq!(g.halfmove_clock, h.halfmove_clock);
    assert_eq!(g.fullmove_number, h.fullmove_number);
}

#[test]
fn default_position_renders_as_grid() {
    let g = Game::initialize();
    let s = g.to_string();
    let lines: Vec<&str> = s.split('\n').collect();
    assert_eq!(lines.len(), 9);
    assert_eq!(lines[8], "");
    assert_eq!(lines[0], "r n b q k b n r ");
    assert_eq!(lines[1], "p p p p p p p p ");
    assert_eq!(lines[2], "a6b6c6d6e6f6g6h6");
    assert_eq!(lines[3], "a5b5c5d5e5f5g5h5");
    assert_eq!(lines[4], "a4b4c4d4e4f4g4h4");
    assert_eq!(lines[5], "a3b3c3d3e3f3g3h3");
    assert_eq!(lines[6], "P P P P P P P P ");
    assert_eq!(lines[7], "R N B Q K B N R ");
}

#[test]
fn en_passant_square_is_resolved() {
    let g =
        Game::read_FEN("rnbqkbnr/pppppppp/8/8/4P3/8/PPPP1PPP/RNBQKBNR b KQkq e3 0 1").unwrap();
    assert_eq!(g.en_passant, Some(position_to_bit("e3").unwrap()));
    assert_eq!(g.active_color, Color::Black);
}

#[test]
fn bad_active_color_is_rejected() {
    let r = Game::read_FEN("rnbqkbnr/pppppppp/8/8/8/8/PPPPPPPP/RNBQKBNR x KQkq - 0 1");
    assert_eq!(r.unwrap_err(), FenError::BadColor);
}

#[test]
fn row_of_eight_empty_squares() {
    let (pieces, squares) = parse_row("8", 0, 0).unwrap();
    assert_eq!(pieces.len(), 0);
    assert_eq!(squares, vec![Square::Empty; 8]);
}

#[test]
fn row_with_pieces_and_gaps() {
    let (pieces, squares) = parse_row("r2K3n", 5, 16).unwrap();
    assert_eq!(pieces.len(), 3);
    assert_eq!(
        pieces[0],
        Piece { position: 1u64 << 16, color: Color::Black, piece_type: PieceType::Rook }
    );
    assert_eq!(
        pieces[1],
        Piece { position: 1u64 << 19, color: Color::White, piece_type: PieceType::King }
    );
    assert_eq!(
        pieces[2],
        Piece { position: 1u64 << 23, color: Color::Black, piece_type: PieceType::Knight }
    );
    assert_eq!(
        squares,
        vec![
            Square::Occupied(5),
            Square::Empty,
            Square::Empty,
            Square::Occupied(6),
            Square::Empty,
            Square::Empty,
            Square::Empty,
            Square::Occupied(7),
        ]
    );
}

#[test]
fn row_errors() {
    assert_eq!(parse_row("9", 0, 0).unwrap_err(), FenError::BadPlacement);
    assert_eq!(parse_row("rnbqkbnrr", 0, 0).unwrap_err(), FenError::BadPlacement);
    assert_eq!(parse_row("7", 0, 0).unwrap_err(), FenError::BadPlacement);
    assert_eq!(parse_row("4x3", 0, 0).unwrap_err(), FenError::BadPlacement);
}

#[test]
fn field_count_errors() {
    assert_eq!(Game::read_FEN("abc").unwrap_err(), FenError::BadFieldCount);
    assert_eq!(
        Game::read_FEN("rnbqkbnr/pppppppp/8/8/8/8/PPPPPPPP/RNBQKBNR w KQkq - 0").unwrap_err(),
        FenError::BadFieldCount
    );
}

#[test]
fn placement_errors() {
    assert_eq!(
        Game::read_FEN("rnbqkbnr/pppppppp/8/8/8/8/PPPPPPPP w KQkq - 0 1").unwrap_err(),
        FenError::BadPlacement
    );
    assert_eq!(
        Game::read_FEN("rnbqkbnr/pppppppp/8/8/8/8/PPPPPPPP/RNBQKBNQQ w KQkq - 0 1").unwrap_err(),
        FenError::BadPlacement
    );
}

#[test]
fn castling_field_variants() {
    let g = Game::read_FEN("rnbqkbnr/pppppppp/8/8/8/8/PPPPPPPP/RNBQKBNR w Kq - 0 1").unwrap();
    assert!(g.castling_rights.white_kingside);
    assert!(!g.castling_rights.white_queenside);
    assert!(!g.castling_rights.black_kingside);
    assert!(g.castling_rights.black_queenside);
    let none = Game::read_FEN("rnbqkbnr/pppppppp/8/8/8/8/PPPPPPPP/RNBQKBNR w - - 0 1").unwrap();
    assert!(!none.castling_rights.white_kingside);
    assert!(!none.castling_rights.white_queenside);
    assert!(!none.castling_rights.black_kingside);
    assert!(!none.castling_rights.black_queenside);
    assert_eq!(
        Game::read_FEN("rnbqkbnr/pppppppp/8/8/8/8/PPPPPPPP/RNBQKBNR w KX - 0 1").unwrap_err(),
        FenError::BadCastling
    );
}

#[test]
fn en_passant_errors() {
    assert_eq!(
        Game::read_FEN("rnbqkbnr/pppppppp/8/8/8/8/PPPPPPPP/RNBQKBNR w KQkq e9 0 1").unwrap_err(),
        FenError::BadEnPassant
    );
    assert_eq!(
        Game::read_FEN("rnbqkbnr/pppppppp/8/8/8/8/PPPPPPPP/RNBQKBNR w KQkq ee 0 1").unwrap_err(),
        FenError::BadEnPassant
    );
}

#[test]
fn counter_fields() {
    let g = Game::read_FEN("rnbqkbnr/pppppppp/8/8/8/8/PPPPPPPP/RNBQKBNR w KQkq - 42 137").unwrap();
    assert_eq!(g.halfmove_clock, 42);
    assert_eq!(g.fullmove_number, 137);
    assert_eq!(
        Game::read_FEN("rnbqkbnr/pppppppp/8/8/8/8/PPPPPPPP/RNBQKBNR w KQkq - x 1").unwrap_err(),
        FenError::BadHalfmove
    );
    assert_eq!(
        Game::read_FEN("rnbqkbnr/pppppppp/8/8/8/8/PPPPPPPP/RNBQKBNR w KQkq - 0 1x").unwrap_err(),
        FenError::BadFullmove
    );
    assert_eq!(
        Game::read_FEN("rnbqkbnr/pppppppp/8/8/8/8/PPPPPPPP/RNBQKBNR w KQkq - 99999999999999999999 1")
            .unwrap_err(),
        FenError::BadHalfmove
    );
}

#[test]
fn counters_accept_leading_zeros() {
    let g = Game::read_FEN("rnbqkbnr/pppppppp/8/8/8/8/PPPPPPPP/RNBQKBNR w KQkq - 0042 007").unwrap();
    assert_eq!(g.halfmove_clock, 42);
    assert_eq!(g.fullmove_number, 7);
}

#[test]
fn piece_tokens() {
    let p = Piece { position: 1, color: Color::White, piece_type: PieceType::Queen };
    assert_eq!(p.to_string(), "Q ");
    let q = Piece { position: 2, color: Color::Black, piece_type: PieceType::Knight };
    assert_eq!(q.to_string(), "n ");
}

#[test]
fn render_sparse_position() {
    let g = Game::read_FEN("8/8/8/3k4/8/8/8/4K3 b - - 10 30").unwrap();
    let s = g.to_string();
    let lines: Vec<&str> = s.split('\n').collect();
    assert_eq!(lines[3], "a5b5c5k e5f5g5h5");
    assert_eq!(lines[7], "a1b1c1d1K f1g1h1");
}
