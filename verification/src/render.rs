//! The board renderer: one line per rank, rank 8 first, each line eight
//! two-character tokens — a piece's FEN letter and a space, or the
//! algebraic name of an empty square — ending in a newline.

use vstd::prelude::*;

use crate::board::Game;
use crate::board::Square;
use crate::board::piece_chars;
use crate::position::index_to_position;
use crate::position::square_name;

verus! {

/// The token square `i` renders as: the piece's letter-pair for an
/// occupied square, the square's own name for an empty one.
pub open spec fn square_token(g: Game, i: int) -> Seq<char> {
    match g.squares@[i] {
        Square::Empty => square_name(i),
        Square::Occupied(k) => piece_chars(g.pieces@[k as int]),
    }
}

/// The first `c` tokens of rank `rank`, files left to right.
pub open spec fn rank_prefix(g: Game, rank: int, c: int) -> Seq<char>
    decreases c,
{
    if c <= 0 {
        seq![]
    } else {
        rank_prefix(g, rank, c - 1) + square_token(g, (rank - 1) * 8 + (c - 1))
    }
}

/// One rendered line: rank `rank`'s eight tokens and a newline.
pub open spec fn rank_line(g: Game, rank: int) -> Seq<char> {
    rank_prefix(g, rank, 8) + seq!['\n']
}

/// The first `k` rendered lines: ranks 8 down to `9 - k`.
pub open spec fn render_upper(g: Game, k: int) -> Seq<char>
    decreases k,
{
    if k <= 0 {
        seq![]
    } else {
        render_upper(g, k - 1) + rank_line(g, 9 - k)
    }
}

/// The full rendering of a board: ranks 8 down to 1.
pub open spec fn board_render(g: Game) -> Seq<char> {
    render_upper(g, 8)
}

impl Game {
    /// Renders the board as eight lines, rank 8 first.
    pub fn to_string(&self) -> (r: String)
        requires
            self.wf(),
        ensures
            r@ == board_render(*self),
    {
        let mut board = String::new();
        let mut t: usize = 0;
        while t < 8
            invariant
                0 <= t <= 8,
                self.wf(),
                board@ == render_upper(*self, t as int),
            decreases 8 - t,
        {
            let rank = 8 - t;
            let base = (rank - 1) * 8;
            let ghost snap = board@;
            let mut c: usize = 0;
            while c < 8
                invariant
                    0 <= c <= 8,
                    self.wf(),
                    1 <= rank <= 8,
                    base == (rank - 1) * 8,
                    board@ == snap + rank_prefix(*self, rank as int, c as int),
                decreases 8 - c,
            {
                let i = base + c;
                let sq = self.squares[i];
                let token = match sq {
                    Square::Empty => index_to_position(i),
                    Square::Occupied(idx) => self.pieces[idx].to_string(),
                };
                board.append(token.as_str());
                proof {
                    assert(board@ =~= snap + rank_prefix(*self, rank as int, c as int + 1));
                }
                c += 1;
            }
            board.append("\n");
            proof {
                reveal_strlit("\n");
                assert(board@ =~= render_upper(*self, t as int + 1));
            }
            t += 1;
        }
        board
    }
}

} // verus!
