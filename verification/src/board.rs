//! The board model: piece types, colors, pieces, and the 64-square board.
//!
//! Squares are indexed 0..64 in row-major order: index = rank * 8 + file,
//! with rank 0 nearest the side whose pawns advance toward increasing rank
//! (White). A cell holds at most one piece.

use vstd::prelude::*;
use vstd::string::StringExecFns;

verus! {

#[derive(Debug, Clone, Copy, PartialEq, Eq, Structural)]
pub enum PieceType {
    Pawn,
    Knight,
    Bishop,
    Rook,
    Queen,
    King,
}

#[derive(Debug, Clone, Copy, PartialEq, Eq, Structural)]
pub enum Color {
    White,
    Black,
}

#[derive(Debug, Clone, Copy, PartialEq, Eq, Structural)]
pub struct Piece {
    pub piece_type: PieceType,
    pub color: Color,
}

/// A board is 64 cells, each empty or holding one piece. Well-formed boards
/// have length exactly 64; see `board_ok`.
pub type Board = Vec<Option<Piece>>;

/// A board view is well formed when it has exactly 64 cells.
pub open spec fn board_ok(b: Seq<Option<Piece>>) -> bool {
    b.len() == 64
}

/// The piece type standing on `file` of each back rank in the standard
/// initial placement.
pub open spec fn back_rank_type(file: int) -> PieceType {
    if file == 0 || file == 7 {
        PieceType::Rook
    } else if file == 1 || file == 6 {
        PieceType::Knight
    } else if file == 2 || file == 5 {
        PieceType::Bishop
    } else if file == 3 {
        PieceType::Queen
    } else {
        PieceType::King
    }
}

/// The contents of square `sq` in the standard initial placement.
pub open spec fn start_square(sq: int) -> Option<Piece> {
    let rank = sq / 8;
    let file = sq % 8;
    if rank == 0 {
        Some(Piece { piece_type: back_rank_type(file), color: Color::White })
    } else if rank == 1 {
        Some(Piece { piece_type: PieceType::Pawn, color: Color::White })
    } else if rank == 6 {
        Some(Piece { piece_type: PieceType::Pawn, color: Color::Black })
    } else if rank == 7 {
        Some(Piece { piece_type: back_rank_type(file), color: Color::Black })
    } else {
        None
    }
}

/// Builds the standard initial placement: white pieces on ranks 0 and 1,
/// black pieces on ranks 6 and 7, everything else empty.
pub fn initialize_board() -> (board: Board)
    ensures
        board_ok(board@),
        forall|sq: int| 0 <= sq < 64 ==> board@[sq] == start_square(sq),
{
    let mut board: Board = Vec::new();
    let mut i: usize = 0;
    while i < 64
        invariant
            board@.len() == i,
            i <= 64,
            forall|sq: int| 0 <= sq < i ==> board@[sq] is None,
        decreases 64 - i,
    {
        board.push(None);
        i = i + 1;
    }

    // Place white pieces
    board.set(0, Some(Piece { piece_type: PieceType::Rook, color: Color::White }));
    board.set(1, Some(Piece { piece_type: PieceType::Knight, color: Color::White }));
    board.set(2, Some(Piece { piece_type: PieceType::Bishop, color: Color::White }));
    board.set(3, Some(Piece { piece_type: PieceType::Queen, color: Color::White }));
    board.set(4, Some(Piece { piece_type: PieceType::King, color: Color::White }));
    board.set(5, Some(Piece { piece_type: PieceType::Bishop, color: Color::White }));
    board.set(6, Some(Piece { piece_type: PieceType::Knight, color: Color::White }));
    board.set(7, Some(Piece { piece_type: PieceType::Rook, color: Color::White }));

    let mut w: usize = 8;
    while w < 16
        invariant
            board@.len() == 64,
            8 <= w <= 16,
            forall|sq: int| 0 <= sq < 8 ==> board@[sq] == start_square(sq),
            forall|sq: int| 8 <= sq < w ==> board@[sq]
                == Some(Piece { piece_type: PieceType::Pawn, color: Color::White }),
            forall|sq: int| w <= sq < 64 ==> board@[sq] is None,
        decreases 16 - w,
    {
        board.set(w, Some(Piece { piece_type: PieceType::Pawn, color: Color::White }));
        w = w + 1;
    }

    // Place black pieces
    board.set(56, Some(Piece { piece_type: PieceType::Rook, color: Color::Black }));
    board.set(57, Some(Piece { piece_type: PieceType::Knight, color: Color::Black }));
    board.set(58, Some(Piece { piece_type: PieceType::Bishop, color: Color::Black }));
    board.set(59, Some(Piece { piece_type: PieceType::Queen, color: Color::Black }));
    board.set(60, Some(Piece { piece_type: PieceType::King, color: Color::Black }));
    board.set(61, Some(Piece { piece_type: PieceType::Bishop, color: Color::Black }));
    board.set(62, Some(Piece { piece_type: PieceType::Knight, color: Color::Black }));
    board.set(63, Some(Piece { piece_type: PieceType::Rook, color: Color::Black }));

    let mut bp: usize = 48;
    while bp < 56
        invariant
            board@.len() == 64,
            48 <= bp <= 56,
            forall|sq: int| 0 <= sq < 16 ==> board@[sq] == start_square(sq),
            forall|sq: int| 16 <= sq < 48 ==> board@[sq] is None,
            forall|sq: int| 48 <= sq < bp ==> board@[sq]
                == Some(Piece { piece_type: PieceType::Pawn, color: Color::Black }),
            forall|sq: int| 56 <= sq < 64 ==> board@[sq] == start_square(sq),
        decreases 56 - bp,
    {
        board.set(bp, Some(Piece { piece_type: PieceType::Pawn, color: Color::Black }));
        bp = bp + 1;
    }

    board
}

/// The one-character rendering of a cell: uppercase for White, lowercase
/// for Black, a dot for an empty square.
pub open spec fn symbol_of(cell: Option<Piece>) -> char {
    match cell {
        Some(p) => match (p.piece_type, p.color) {
            (PieceType::Pawn, Color::White) => 'P',
            (PieceType::Knight, Color::White) => 'N',
            (PieceType::Bishop, Color::White) => 'B',
            (PieceType::Rook, Color::White) => 'R',
            (PieceType::Queen, Color::White) => 'Q',
            (PieceType::King, Color::White) => 'K',
            (PieceType::Pawn, Color::Black) => 'p',
            (PieceType::Knight, Color::Black) => 'n',
            (PieceType::Bishop, Color::Black) => 'b',
            (PieceType::Rook, Color::Black) => 'r',
            (PieceType::Queen, Color::Black) => 'q',
            (PieceType::King, Color::Black) => 'k',
        },
        None => '.',
    }
}

/// The full text rendering of a board: ranks from the far rank down to the
/// near rank, one symbol and one space per square, one line per rank.
pub open spec fn board_text(b: Seq<Option<Piece>>) -> Seq<char> {
    Seq::new(136, |i: int| {
        let row = i / 17;
        let j = i % 17;
        if j == 16 {
            '\n'
        } else if j % 2 == 1 {
            ' '
        } else {
            symbol_of(b[(7 - row) * 8 + j / 2])
        }
    })
}

/// The two-character rendering of one cell: its symbol and a space.
fn symbol_text(cell: Option<Piece>) -> (s: &'static str)
    ensures
        s@ == seq![symbol_of(cell), ' '],
{
    match cell {
        Some(p) => match (p.piece_type, p.color) {
            (PieceType::Pawn, Color::White) => {
                proof { reveal_strlit("P "); }
                "P "
            }
            (PieceType::Knight, Color::White) => {
                proof { reveal_strlit("N "); }
                "N "
            }
            (PieceType::Bishop, Color::White) => {
                proof { reveal_strlit("B "); }
                "B "
            }
            (PieceType::Rook, Color::White) => {
                proof { reveal_strlit("R "); }
                "R "
            }
            (PieceType::Queen, Color::White) => {
                proof { reveal_strlit("Q "); }
                "Q "
            }
            (PieceType::King, Color::White) => {
                proof { reveal_strlit("K "); }
                "K "
            }
            (PieceType::Pawn, Color::Black) => {
                proof { reveal_strlit("p "); }
                "p "
            }
            (PieceType::Knight, Color::Black) => {
                proof { reveal_strlit("n "); }
                "n "
            }
            (PieceType::Bishop, Color::Black) => {
                proof { reveal_strlit("b "); }
                "b "
            }
            (PieceType::Rook, Color::Black) => {
                proof { reveal_strlit("r "); }
                "r "
            }
            (PieceType::Queen, Color::Black) => {
                proof { reveal_strlit("q "); }
                "q "
            }
            (PieceType::King, Color::Black) => {
                proof { reveal_strlit("k "); }
                "k "
            }
        },
        None => {
            proof { reveal_strlit(". "); }
            ". "
        }
    }
}

/// Renders the board as text, ranks from the far rank down to the near
/// rank. Printing is left to the caller.
pub fn render_board(board: &Board) -> (text: String)
    requires
        board_ok(board@),
    ensures
        text@ == board_text(board@),
{
    let mut text = String::new();
    let mut row: usize = 0;
    while row < 8
        invariant
            board_ok(board@),
            row <= 8,
            text@.len() == row * 17,
            forall|i: int| 0 <= i < text@.len() ==> text@[i] == board_text(board@)[i],
        decreases 8 - row,
    {
        let mut file: usize = 0;
        while file < 8
            invariant
                board_ok(board@),
                row < 8,
                file <= 8,
                text@.len() == row * 17 + file * 2,
                forall|i: int| 0 <= i < text@.len() ==> text@[i] == board_text(board@)[i],
            decreases 8 - file,
        {
            let index = (7 - row) * 8 + file;
            text.append(symbol_text(board[index]));
            file = file + 1;
        }
        proof {
            reveal_strlit("\n");
        }
        text.append("\n");
        row = row + 1;
    }
    proof {
        assert(text@ =~= board_text(board@));
    }
    text
}

} // verus!
