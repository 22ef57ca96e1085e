//! Move generation, check detection, legality filtering, and move
//! application.
//!
//! The specification model describes each piece family's movement directly:
//! a move is characterized by the rank/file geometry of its source and
//! destination together with the occupancy of the board, and each generator
//! ensures that its output contains a move if and only if the model admits
//! it.

use vstd::prelude::*;
use crate::gamestate::GameState;
use crate::board::{Board, Piece, PieceType, Color, board_ok};

verus! {

broadcast use vstd::seq_lib::lemma_seq_contains_after_push, vstd::seq_lib::lemma_seq_concat_contains_all_elements;

#[derive(Debug, Clone, Copy, PartialEq, Eq, Structural)]
pub struct Move {
    /// Index of the source square
    pub from: usize,
    /// Index of the destination square
    pub to: usize,
    /// For pawn promotion
    pub promotion: Option<PieceType>,
}

// ---------------------------------------------------------------------------
// Square geometry
// ---------------------------------------------------------------------------

pub open spec fn valid_square(sq: int) -> bool {
    0 <= sq < 64
}

pub open spec fn rank_of(sq: int) -> int {
    sq / 8
}

pub open spec fn file_of(sq: int) -> int {
    sq % 8
}

pub open spec fn square_at(rank: int, file: int) -> int {
    rank * 8 + file
}

pub open spec fn valid_rf(rank: int, file: int) -> bool {
    0 <= rank < 8 && 0 <= file < 8
}

pub open spec fn iabs(x: int) -> int {
    if x < 0 {
        -x
    } else {
        x
    }
}

/// Rank/file coordinates and square indices are in bijection on the board.
pub proof fn lemma_square_coords(rank: int, file: int)
    requires
        valid_rf(rank, file),
    ensures
        valid_square(square_at(rank, file)),
        rank_of(square_at(rank, file)) == rank,
        file_of(square_at(rank, file)) == file,
{
}

/// Every valid square is the square of its own coordinates.
pub proof fn lemma_square_of_own_coords(sq: int)
    requires
        valid_square(sq),
    ensures
        valid_rf(rank_of(sq), file_of(sq)),
        square_at(rank_of(sq), file_of(sq)) == sq,
{
}

// Check if an index is within the bounds of the board
#[allow(dead_code)]
fn is_valid_index(index: isize) -> (valid: bool)
    ensures
        valid == valid_square(index as int),
{
    index >= 0 && index < 64
}

// Get rank and file from index
fn get_rank_file(index: usize) -> (rf: (isize, isize))
    requires
        index < 64,
    ensures
        rf.0 == rank_of(index as int),
        rf.1 == file_of(index as int),
{
    let rank = (index / 8) as isize;
    let file = (index % 8) as isize;
    (rank, file)
}

// Convert rank and file back to index
fn get_index(rank: isize, file: isize) -> (index: usize)
    requires
        valid_rf(rank as int, file as int),
    ensures
        index as int == square_at(rank as int, file as int),
        valid_square(index as int),
{
    (rank * 8 + file) as usize
}

// ---------------------------------------------------------------------------
// Occupancy
// ---------------------------------------------------------------------------

pub open spec fn opposite(c: Color) -> Color {
    match c {
        Color::White => Color::Black,
        Color::Black => Color::White,
    }
}

/// Square `sq` holds a piece of color `c`.
pub open spec fn has_color(b: Seq<Option<Piece>>, sq: int, c: Color) -> bool {
    b[sq] is Some && b[sq]->0.color == c
}

/// A piece of color `c` may land on `sq`: the square is empty or holds an
/// opponent piece. (No piece ever moves onto its own color.)
pub open spec fn landable(b: Seq<Option<Piece>>, sq: int, c: Color) -> bool {
    !has_color(b, sq, c)
}

// ---------------------------------------------------------------------------
// Pawn movement model
// ---------------------------------------------------------------------------

/// The rank direction a pawn of color `c` advances in.
pub open spec fn pawn_dir(c: Color) -> int {
    match c {
        Color::White => 1,
        Color::Black => -1,
    }
}

/// The home rank a pawn of color `c` may double-push from.
pub open spec fn pawn_start_rank(c: Color) -> int {
    match c {
        Color::White => 1,
        Color::Black => 6,
    }
}

/// The far rank: a pawn landing here promotes.
pub open spec fn promotion_rank(c: Color) -> int {
    match c {
        Color::White => 7,
        Color::Black => 0,
    }
}

pub open spec fn is_promo_type(t: PieceType) -> bool {
    t is Queen || t is Rook || t is Bishop || t is Knight
}

/// A pawn move landing on the promotion rank must carry one of the four
/// promotion piece types; any other pawn move carries none.
pub open spec fn promo_field_ok(c: Color, to: int, promotion: Option<PieceType>) -> bool {
    if rank_of(to) == promotion_rank(c) {
        promotion is Some && is_promo_type(promotion->0)
    } else {
        promotion is None
    }
}

/// Single push: one square forward onto an empty square.
pub open spec fn pawn_push_to(b: Seq<Option<Piece>>, pos: int, c: Color, to: int) -> bool {
    &&& valid_square(to)
    &&& rank_of(to) == rank_of(pos) + pawn_dir(c)
    &&& file_of(to) == file_of(pos)
    &&& b[to] is None
}

/// Double push: from the home rank, two squares forward, with both the
/// intermediate and the destination square empty.
pub open spec fn pawn_double_to(b: Seq<Option<Piece>>, pos: int, c: Color, to: int) -> bool {
    &&& rank_of(pos) == pawn_start_rank(c)
    &&& valid_square(to)
    &&& rank_of(to) == rank_of(pos) + 2 * pawn_dir(c)
    &&& file_of(to) == file_of(pos)
    &&& b[square_at(rank_of(pos) + pawn_dir(c), file_of(pos))] is None
    &&& b[to] is None
}

/// Diagonal capture: one square forward onto an adjacent file occupied by
/// the opposite color.
pub open spec fn pawn_capture_to(b: Seq<Option<Piece>>, pos: int, c: Color, to: int) -> bool {
    &&& valid_square(to)
    &&& rank_of(to) == rank_of(pos) + pawn_dir(c)
    &&& iabs(file_of(to) - file_of(pos)) == 1
    &&& has_color(b, to, opposite(c))
}

/// The full pawn movement model. En passant is not modeled.
pub open spec fn pawn_move_ok(b: Seq<Option<Piece>>, pos: int, c: Color, m: Move) -> bool {
    &&& m.from == pos
    &&& promo_field_ok(c, m.to as int, m.promotion)
    &&& {
        ||| pawn_push_to(b, pos, c, m.to as int)
        ||| pawn_double_to(b, pos, c, m.to as int)
        ||| pawn_capture_to(b, pos, c, m.to as int)
    }
}

/// The square one step ahead of a pawn of color `c` on `pos`.
pub open spec fn forward_square(pos: int, c: Color) -> int {
    square_at(rank_of(pos) + pawn_dir(c), file_of(pos))
}

/// The square two steps ahead of a pawn of color `c` on `pos`.
pub open spec fn double_square(pos: int, c: Color) -> int {
    square_at(rank_of(pos) + 2 * pawn_dir(c), file_of(pos))
}

/// The moves emitted for one pawn destination: the four promotion variants
/// in Queen, Rook, Bishop, Knight order on the promotion rank, one
/// promotion-free move otherwise.
pub open spec fn pawn_dest_moves(c: Color, from: int, to: int) -> Seq<Move> {
    if rank_of(to) == promotion_rank(c) {
        seq![
            Move { from: from as usize, to: to as usize, promotion: Some(PieceType::Queen) },
            Move { from: from as usize, to: to as usize, promotion: Some(PieceType::Rook) },
            Move { from: from as usize, to: to as usize, promotion: Some(PieceType::Bishop) },
            Move { from: from as usize, to: to as usize, promotion: Some(PieceType::Knight) },
        ]
    } else {
        seq![Move { from: from as usize, to: to as usize, promotion: None }]
    }
}

/// The pawn's pushes in emission order: the single push (with its promotion
/// variants), then the double push from the home rank.
pub open spec fn pawn_advance_moves(b: Seq<Option<Piece>>, pos: int, c: Color) -> Seq<Move> {
    if valid_rf(rank_of(pos) + pawn_dir(c), file_of(pos)) && b[forward_square(pos, c)] is None {
        pawn_dest_moves(c, pos, forward_square(pos, c)) + (
        if rank_of(pos) == pawn_start_rank(c) && b[double_square(pos, c)] is None {
            seq![Move { from: pos as usize, to: double_square(pos, c) as usize, promotion: None }]
        } else {
            Seq::empty()
        })
    } else {
        Seq::empty()
    }
}

/// The pawn's capture toward file offset `df`, when that square holds an
/// opponent piece.
pub open spec fn pawn_capture_moves(b: Seq<Option<Piece>>, pos: int, c: Color, df: int) -> Seq<Move> {
    if valid_rf(rank_of(pos) + pawn_dir(c), file_of(pos) + df) && has_color(
        b, square_at(rank_of(pos) + pawn_dir(c), file_of(pos) + df), opposite(c)) {
        pawn_dest_moves(c, pos, square_at(rank_of(pos) + pawn_dir(c), file_of(pos) + df))
    } else {
        Seq::empty()
    }
}

/// The pawn's full move sequence in emission order: pushes, then the capture
/// toward the lower file, then the capture toward the higher file.
pub open spec fn pawn_moves_seq(b: Seq<Option<Piece>>, pos: int, c: Color) -> Seq<Move> {
    pawn_advance_moves(b, pos, c) + pawn_capture_moves(b, pos, c, -1) + pawn_capture_moves(
        b, pos, c, 1)
}

/// A single or double pawn push admitted by the model, with the promotion
/// field as the destination rank demands.
pub open spec fn pawn_advance_ok(b: Seq<Option<Piece>>, pos: int, c: Color, m: Move) -> bool {
    &&& m.from == pos
    &&& promo_field_ok(c, m.to as int, m.promotion)
    &&& (pawn_push_to(b, pos, c, m.to as int) || pawn_double_to(b, pos, c, m.to as int))
}

/// A pawn capture toward file offset `df` admitted by the model, with the
/// promotion field as the destination rank demands.
pub open spec fn pawn_capture_dir_ok(
    b: Seq<Option<Piece>>,
    pos: int,
    c: Color,
    df: int,
    m: Move,
) -> bool {
    &&& m.from == pos
    &&& promo_field_ok(c, m.to as int, m.promotion)
    &&& valid_square(m.to as int)
    &&& rank_of(m.to as int) == rank_of(pos) + pawn_dir(c)
    &&& file_of(m.to as int) == file_of(pos) + df
    &&& has_color(b, m.to as int, opposite(c))
}

// ---------------------------------------------------------------------------
// Knight and king movement model
// ---------------------------------------------------------------------------

/// The source and destination are a knight's jump apart.
pub open spec fn knight_jump(from: int, to: int) -> bool {
    let dr = iabs(rank_of(to) - rank_of(from));
    let df = iabs(file_of(to) - file_of(from));
    (dr == 2 && df == 1) || (dr == 1 && df == 2)
}

pub open spec fn knight_move_ok(b: Seq<Option<Piece>>, pos: int, c: Color, m: Move) -> bool {
    &&& m.from == pos
    &&& m.promotion is None
    &&& valid_square(m.to as int)
    &&& knight_jump(pos, m.to as int)
    &&& landable(b, m.to as int, c)
}

/// The source and destination are one king step apart. Castling is not
/// modeled.
pub open spec fn king_step(from: int, to: int) -> bool {
    let dr = iabs(rank_of(to) - rank_of(from));
    let df = iabs(file_of(to) - file_of(from));
    dr <= 1 && df <= 1 && (dr != 0 || df != 0)
}

pub open spec fn king_move_ok(b: Seq<Option<Piece>>, pos: int, c: Color, m: Move) -> bool {
    &&& m.from == pos
    &&& m.promotion is None
    &&& valid_square(m.to as int)
    &&& king_step(pos, m.to as int)
    &&& landable(b, m.to as int, c)
}

// ---------------------------------------------------------------------------
// Sliding movement model (bishop, rook, queen)
// ---------------------------------------------------------------------------

/// The square `k` steps from `pos` along direction `(dr, df)`.
pub open spec fn ray_square(pos: int, dr: int, df: int, k: int) -> int {
    square_at(rank_of(pos) + k * dr, file_of(pos) + k * df)
}

/// The square `k` steps along the ray stays on the board.
pub open spec fn ray_on_board(pos: int, dr: int, df: int, k: int) -> bool {
    valid_rf(rank_of(pos) + k * dr, file_of(pos) + k * df)
}

/// Every square strictly between `pos` and step `k` along the ray is empty.
pub open spec fn ray_clear(b: Seq<Option<Piece>>, pos: int, dr: int, df: int, k: int) -> bool {
    forall|j: int| 1 <= j < k ==> b[#[trigger] ray_square(pos, dr, df, j)] is None
}

/// A slider of color `c` on `pos` reaches `to` in `k` steps along `(dr, df)`:
/// the destination is on the board, everything strictly before it is empty,
/// and the destination does not hold an own-color piece.
pub open spec fn slide_reaches(
    b: Seq<Option<Piece>>,
    pos: int,
    c: Color,
    dr: int,
    df: int,
    k: int,
    to: int,
) -> bool {
    &&& 1 <= k
    &&& ray_on_board(pos, dr, df, k)
    &&& to == ray_square(pos, dr, df, k)
    &&& ray_clear(b, pos, dr, df, k)
    &&& landable(b, to, c)
}

pub open spec fn slide_move_ok(
    b: Seq<Option<Piece>>,
    pos: int,
    c: Color,
    dr: int,
    df: int,
    m: Move,
) -> bool {
    &&& m.from == pos
    &&& m.promotion is None
    &&& exists|k: int| #[trigger] slide_reaches(b, pos, c, dr, df, k, m.to as int)
}

pub open spec fn bishop_move_ok(b: Seq<Option<Piece>>, pos: int, c: Color, m: Move) -> bool {
    ||| slide_move_ok(b, pos, c, -1, -1, m)
    ||| slide_move_ok(b, pos, c, -1, 1, m)
    ||| slide_move_ok(b, pos, c, 1, -1, m)
    ||| slide_move_ok(b, pos, c, 1, 1, m)
}

pub open spec fn rook_move_ok(b: Seq<Option<Piece>>, pos: int, c: Color, m: Move) -> bool {
    ||| slide_move_ok(b, pos, c, -1, 0, m)
    ||| slide_move_ok(b, pos, c, 1, 0, m)
    ||| slide_move_ok(b, pos, c, 0, -1, m)
    ||| slide_move_ok(b, pos, c, 0, 1, m)
}

pub open spec fn queen_move_ok(b: Seq<Option<Piece>>, pos: int, c: Color, m: Move) -> bool {
    bishop_move_ok(b, pos, c, m) || rook_move_ok(b, pos, c, m)
}

/// The slider's moves along `(dr, df)` from step `k` outward: every empty
/// square until the ray leaves the board or meets a piece, including an
/// opponent piece's square, excluding an own piece's square. Rays never
/// exceed seven steps on an eight-by-eight board.
pub open spec fn ray_moves_from(
    b: Seq<Option<Piece>>,
    pos: int,
    c: Color,
    dr: int,
    df: int,
    k: int,
) -> Seq<Move>
    decreases 8 - k,
{
    if k < 1 || k > 7 || !ray_on_board(pos, dr, df, k) {
        Seq::empty()
    } else if b[ray_square(pos, dr, df, k)] is None {
        seq![
            Move { from: pos as usize, to: ray_square(pos, dr, df, k) as usize, promotion: None },
        ] + ray_moves_from(b, pos, c, dr, df, k + 1)
    } else if has_color(b, ray_square(pos, dr, df, k), opposite(c)) {
        seq![
            Move { from: pos as usize, to: ray_square(pos, dr, df, k) as usize, promotion: None },
        ]
    } else {
        Seq::empty()
    }
}

/// The slider's full move sequence along one direction, nearest square
/// first.
pub open spec fn slide_dir_moves(
    b: Seq<Option<Piece>>,
    pos: int,
    c: Color,
    dr: int,
    df: int,
) -> Seq<Move> {
    ray_moves_from(b, pos, c, dr, df, 1)
}

/// The slider's moves for the directions of `dirs` from index `i` on, one
/// direction after another in table order.
pub open spec fn dir_list_moves(
    b: Seq<Option<Piece>>,
    pos: int,
    c: Color,
    dirs: Seq<(isize, isize)>,
    i: int,
) -> Seq<Move>
    decreases dirs.len() - i,
{
    if i < 0 || i >= dirs.len() {
        Seq::empty()
    } else {
        slide_dir_moves(b, pos, c, dirs[i].0 as int, dirs[i].1 as int) + dir_list_moves(
            b, pos, c, dirs, i + 1)
    }
}

/// The bishop's full move sequence: the four diagonal rays in table order.
pub open spec fn bishop_moves_seq(b: Seq<Option<Piece>>, pos: int, c: Color) -> Seq<Move> {
    slide_dir_moves(b, pos, c, -1, -1) + slide_dir_moves(b, pos, c, -1, 1) + slide_dir_moves(
        b, pos, c, 1, -1) + slide_dir_moves(b, pos, c, 1, 1)
}

/// The rook's full move sequence: the four straight rays in table order.
pub open spec fn rook_moves_seq(b: Seq<Option<Piece>>, pos: int, c: Color) -> Seq<Move> {
    slide_dir_moves(b, pos, c, -1, 0) + slide_dir_moves(b, pos, c, 1, 0) + slide_dir_moves(
        b, pos, c, 0, -1) + slide_dir_moves(b, pos, c, 0, 1)
}

/// The queen's full move sequence: the bishop's rays followed by the
/// rook's.
pub open spec fn queen_moves_seq(b: Seq<Option<Piece>>, pos: int, c: Color) -> Seq<Move> {
    bishop_moves_seq(b, pos, c) + rook_moves_seq(b, pos, c)
}

// ---------------------------------------------------------------------------
// Sliding generator
// ---------------------------------------------------------------------------

/// A sliding move along `(dr, df)` whose step count is at most `bound`.
spec fn slide_within(
    b: Seq<Option<Piece>>,
    pos: int,
    c: Color,
    dr: int,
    df: int,
    bound: int,
    m: Move,
) -> bool {
    &&& m.from == pos
    &&& m.promotion is None
    &&& exists|k: int| k <= bound && #[trigger] slide_reaches(b, pos, c, dr, df, k, m.to as int)
}

/// Multiplying by a factor in {-1, 0, 1} selects, negates, or cancels.
proof fn lemma_mul_unit(k: int, d: int)
    requires
        -1 <= d <= 1,
    ensures
        k * d == if d == 1 { k } else if d == -1 { -k } else { 0 },
{
    if d == 1 {
        assert(k * 1 == k) by (nonlinear_arith);
    } else if d == -1 {
        assert(k * -1 == -k) by (nonlinear_arith);
    } else {
        assert(k * 0 == 0) by (nonlinear_arith);
    }
}

/// A ray that has stepped off the board along a fixed direction never
/// returns to it.
proof fn lemma_ray_stays_off_board(pos: int, dr: int, df: int, k: int, k2: int)
    requires
        valid_square(pos),
        -1 <= dr <= 1,
        -1 <= df <= 1,
        !(dr == 0 && df == 0),
        1 <= k <= k2,
        !ray_on_board(pos, dr, df, k),
    ensures
        !ray_on_board(pos, dr, df, k2),
{
    lemma_mul_unit(k, dr);
    lemma_mul_unit(k2, dr);
    lemma_mul_unit(k, df);
    lemma_mul_unit(k2, df);
}

/// Distinct step counts along one ray land on distinct squares.
proof fn lemma_ray_distinct(pos: int, dr: int, df: int, k1: int, k2: int)
    requires
        valid_square(pos),
        -1 <= dr <= 1,
        -1 <= df <= 1,
        !(dr == 0 && df == 0),
        k1 != k2,
        ray_on_board(pos, dr, df, k1),
        ray_on_board(pos, dr, df, k2),
    ensures
        ray_square(pos, dr, df, k1) != ray_square(pos, dr, df, k2),
{
    lemma_mul_unit(k1, dr);
    lemma_mul_unit(k2, dr);
    lemma_mul_unit(k1, df);
    lemma_mul_unit(k2, df);
    lemma_square_coords(rank_of(pos) + k1 * dr, file_of(pos) + k1 * df);
    lemma_square_coords(rank_of(pos) + k2 * dr, file_of(pos) + k2 * df);
}

/// Two distinct unit directions from one square admit no common sliding
/// move.
proof fn lemma_slide_exclusive(
    b: Seq<Option<Piece>>,
    pos: int,
    c: Color,
    dr1: int,
    df1: int,
    dr2: int,
    df2: int,
    m: Move,
)
    requires
        valid_square(pos),
        -1 <= dr1 <= 1,
        -1 <= df1 <= 1,
        !(dr1 == 0 && df1 == 0),
        -1 <= dr2 <= 1,
        -1 <= df2 <= 1,
        !(dr2 == 0 && df2 == 0),
        slide_move_ok(b, pos, c, dr1, df1, m),
        slide_move_ok(b, pos, c, dr2, df2, m),
    ensures
        dr1 == dr2 && df1 == df2,
{
    let k1 = choose|k: int| slide_reaches(b, pos, c, dr1, df1, k, m.to as int);
    let k2 = choose|k: int| slide_reaches(b, pos, c, dr2, df2, k, m.to as int);
    lemma_mul_unit(k1, dr1);
    lemma_mul_unit(k1, df1);
    lemma_mul_unit(k2, dr2);
    lemma_mul_unit(k2, df2);
    lemma_square_coords(rank_of(pos) + k1 * dr1, file_of(pos) + k1 * df1);
    lemma_square_coords(rank_of(pos) + k2 * dr2, file_of(pos) + k2 * df2);
}

/// Walks outward from `position` along `(dr, df)`, appending empty squares
/// passed over and stopping on the first occupied square, which is appended
/// exactly when it holds an opponent piece.
#[verifier::rlimit(80)]
fn slide_in_direction(
    board: &Board,
    position: usize,
    color: Color,
    dr: isize,
    df: isize,
    moves: &mut Vec<Move>,
)
    requires
        board_ok(board@),
        position < 64,
        -1 <= dr <= 1,
        -1 <= df <= 1,
        !(dr == 0 && df == 0),
    ensures
        forall|m: Move| final(moves)@.contains(m) <==> old(moves)@.contains(m)
            || slide_move_ok(board@, position as int, color, dr as int, df as int, m),
        (old(moves)@.no_duplicates() && (forall|m: Move| old(moves)@.contains(m)
            ==> !slide_move_ok(board@, position as int, color, dr as int, df as int, m)))
            ==> final(moves)@.no_duplicates(),
        final(moves)@ == old(moves)@ + slide_dir_moves(
            board@, position as int, color, dr as int, df as int),
{
    let ghost b = board@;
    let ghost pos = position as int;
    let ghost dri = dr as int;
    let ghost dfi = df as int;
    let ghost snap = moves@;

    let (start_rank, start_file) = get_rank_file(position);
    let mut new_rank = start_rank;
    let mut new_file = start_file;
    let ghost mut k: int = 0;

    loop
        invariant_except_break
            board_ok(b),
            b == board@,
            valid_square(pos),
            pos == position as int,
            position < 64,
            -1 <= dri <= 1,
            -1 <= dfi <= 1,
            !(dri == 0 && dfi == 0),
            dri == dr as int,
            dfi == df as int,
            0 <= k <= 7,
            new_rank as int == rank_of(pos) + k * dri,
            new_file as int == file_of(pos) + k * dfi,
            ray_on_board(pos, dri, dfi, k),
            ray_clear(b, pos, dri, dfi, k + 1),
            forall|m: Move| #[trigger] moves@.contains(m) <==> snap.contains(m)
                || slide_within(b, pos, color, dri, dfi, k, m),
            (snap.no_duplicates() && (forall|m: Move| snap.contains(m)
                ==> !slide_move_ok(b, pos, color, dri, dfi, m)))
                ==> moves@.no_duplicates(),
            moves@ + ray_moves_from(b, pos, color, dri, dfi, k + 1) == snap + slide_dir_moves(
                b, pos, color, dri, dfi),
        ensures
            forall|m: Move| moves@.contains(m) <==> snap.contains(m)
                || slide_move_ok(b, pos, color, dri, dfi, m),
            (snap.no_duplicates() && (forall|m: Move| snap.contains(m)
                ==> !slide_move_ok(b, pos, color, dri, dfi, m)))
                ==> moves@.no_duplicates(),
            moves@ == snap + slide_dir_moves(b, pos, color, dri, dfi),
        decreases 8 - k,
    {
        let next_rank = new_rank + dr;
        let next_file = new_file + df;
        proof {
            lemma_mul_unit(k, dri);
            lemma_mul_unit(k, dfi);
            assert((k + 1) * dri == k * dri + dri) by (nonlinear_arith);
            assert((k + 1) * dfi == k * dfi + dfi) by (nonlinear_arith);
        }

        if next_rank < 0 || next_rank >= 8 || next_file < 0 || next_file >= 8 {
            // Off the board: no further step along this ray stays on it.
            proof {
                assert forall|m: Move|
                    moves@.contains(m) <==> snap.contains(m)
                        || slide_move_ok(b, pos, color, dri, dfi, m) by {
                    assert(moves@.contains(m) <==> snap.contains(m)
                        || slide_within(b, pos, color, dri, dfi, k, m));
                    assert forall|k2: int| k2 > k implies !slide_reaches(
                        b, pos, color, dri, dfi, k2, m.to as int) by {
                        lemma_ray_stays_off_board(pos, dri, dfi, k + 1, k2);
                    }
                }
                assert(ray_moves_from(b, pos, color, dri, dfi, k + 1) =~= Seq::<Move>::empty());
                assert(moves@ =~= snap + slide_dir_moves(b, pos, color, dri, dfi));
            }
            break;
        }

        let target_index = get_index(next_rank, next_file);
        proof {
            assert(target_index as int == ray_square(pos, dri, dfi, k + 1));
        }

        match board[target_index] {
            Some(target_piece) => {
                if target_piece.color != color {
                    let ghost prev = moves@;
                    let mv = Move { from: position, to: target_index, promotion: None };
                    proof {
                        assert(slide_reaches(b, pos, color, dri, dfi, k + 1, mv.to as int));
                        assert(slide_move_ok(b, pos, color, dri, dfi, mv));
                        if snap.no_duplicates() && (forall|m: Move| snap.contains(m)
                            ==> !slide_move_ok(b, pos, color, dri, dfi, m)) {
                            if slide_within(b, pos, color, dri, dfi, k, mv) {
                                let kw = choose|kk: int| kk <= k && slide_reaches(
                                    b, pos, color, dri, dfi, kk, mv.to as int);
                                lemma_ray_distinct(pos, dri, dfi, kw, k + 1);
                                assert(false);
                            }
                            lemma_push_keeps_no_duplicates(moves@, mv);
                        }
                    }
                    moves.push(mv);
                    proof {
                        assert(slide_reaches(b, pos, color, dri, dfi, k + 1, target_index as int));
                        assert forall|m: Move|
                            moves@.contains(m) <==> snap.contains(m)
                                || slide_move_ok(b, pos, color, dri, dfi, m) by {
                            assert(moves@.contains(m) <==> prev.contains(m) || m == mv);
                            assert(prev.contains(m) <==> snap.contains(m)
                                || slide_within(b, pos, color, dri, dfi, k, m));
                            if m == mv {
                                assert(slide_reaches(b, pos, color, dri, dfi, k + 1, m.to as int));
                            }
                            if slide_move_ok(b, pos, color, dri, dfi, m) && !slide_within(
                                b, pos, color, dri, dfi, k, m) {
                                let kw = choose|kk: int|
                                    slide_reaches(b, pos, color, dri, dfi, kk, m.to as int);
                                if kw > k + 1 {
                                    assert(b[ray_square(pos, dri, dfi, k + 1)] is Some);
                                    assert(!ray_clear(b, pos, dri, dfi, kw));
                                } else {
                                    assert(kw == k + 1);
                                    assert(m.to as int == target_index as int);
                                    assert(m == mv);
                                }
                            }
                        }
                    }
                    proof {
                        assert(k + 1 <= 7);
                        assert(ray_moves_from(b, pos, color, dri, dfi, k + 1) =~= seq![mv]);
                        assert(moves@ =~= snap + slide_dir_moves(b, pos, color, dri, dfi));
                    }
                } else {
                    // Own-color piece blocks the ray at step k + 1.
                    proof {
                        assert forall|m: Move|
                            moves@.contains(m) <==> snap.contains(m)
                                || slide_move_ok(b, pos, color, dri, dfi, m) by {
                            assert(moves@.contains(m) <==> snap.contains(m)
                                || slide_within(b, pos, color, dri, dfi, k, m));
                            if slide_move_ok(b, pos, color, dri, dfi, m) && !slide_within(
                                b, pos, color, dri, dfi, k, m) {
                                let kw = choose|kk: int|
                                    slide_reaches(b, pos, color, dri, dfi, kk, m.to as int);
                                if kw > k + 1 {
                                    assert(b[ray_square(pos, dri, dfi, k + 1)] is Some);
                                    assert(!ray_clear(b, pos, dri, dfi, kw));
                                } else {
                                    assert(kw == k + 1);
                                    assert(m.to as int == target_index as int);
                                    assert(!landable(b, m.to as int, color));
                                }
                            }
                        }
                        assert(ray_moves_from(b, pos, color, dri, dfi, k + 1)
                            =~= Seq::<Move>::empty());
                        assert(moves@ =~= snap + slide_dir_moves(b, pos, color, dri, dfi));
                    }
                }
                break;
            }
            None => {
                let ghost prev = moves@;
                let mv = Move { from: position, to: target_index, promotion: None };
                proof {
                    assert(slide_reaches(b, pos, color, dri, dfi, k + 1, mv.to as int));
                    assert(slide_move_ok(b, pos, color, dri, dfi, mv));
                    if snap.no_duplicates() && (forall|m: Move| snap.contains(m)
                        ==> !slide_move_ok(b, pos, color, dri, dfi, m)) {
                        if slide_within(b, pos, color, dri, dfi, k, mv) {
                            let kw = choose|kk: int| kk <= k && slide_reaches(
                                b, pos, color, dri, dfi, kk, mv.to as int);
                            lemma_ray_distinct(pos, dri, dfi, kw, k + 1);
                            assert(false);
                        }
                        lemma_push_keeps_no_duplicates(moves@, mv);
                    }
                }
                moves.push(mv);
                proof {
                    assert(slide_reaches(b, pos, color, dri, dfi, k + 1, target_index as int));
                    assert forall|m: Move|
                        moves@.contains(m) <==> snap.contains(m)
                            || slide_within(b, pos, color, dri, dfi, k + 1, m) by {
                        assert(moves@.contains(m) <==> prev.contains(m) || m == mv);
                        assert(prev.contains(m) <==> snap.contains(m)
                            || slide_within(b, pos, color, dri, dfi, k, m));
                        if m == mv {
                            assert(slide_reaches(b, pos, color, dri, dfi, k + 1, m.to as int));
                        }
                        if slide_within(b, pos, color, dri, dfi, k + 1, m) && !slide_within(
                            b, pos, color, dri, dfi, k, m) {
                            let kw = choose|kk: int|
                                kk <= k + 1 && slide_reaches(b, pos, color, dri, dfi, kk, m.to as int);
                            assert(kw == k + 1);
                            assert(m.to as int == target_index as int);
                            assert(m == mv);
                        }
                    }
                    assert(k + 1 <= 7);
                    assert(ray_moves_from(b, pos, color, dri, dfi, k + 1)
                        =~= seq![mv] + ray_moves_from(b, pos, color, dri, dfi, k + 2));
                    assert(moves@ + ray_moves_from(b, pos, color, dri, dfi, k + 2)
                        =~= prev + ray_moves_from(b, pos, color, dri, dfi, k + 1));
                    k = k + 1;
                }
                new_rank = next_rank;
                new_file = next_file;
            }
        }
    }
}

/// All pseudo-legal sliding moves from `position` along each direction in
/// `directions`, one direction after another, nearest squares first.
/// Directions are unit rank/file steps.
pub fn generate_sliding_moves(
    board: &Board,
    position: usize,
    color: Color,
    directions: &[(isize, isize)],
) -> (moves: Vec<Move>)
    requires
        board_ok(board@),
        position < 64,
        forall|i: int| 0 <= i < directions@.len() ==> {
            let d = #[trigger] directions@[i];
            -1 <= d.0 <= 1 && -1 <= d.1 <= 1 && !(d.0 == 0 && d.1 == 0)
        },
    ensures
        forall|m: Move| moves@.contains(m) <==> exists|i: int|
            0 <= i < directions@.len() && slide_move_ok(
                board@, position as int, color,
                (#[trigger] directions@[i]).0 as int, directions@[i].1 as int, m),
        directions@.no_duplicates() ==> moves@.no_duplicates(),
        moves@ == dir_list_moves(board@, position as int, color, directions@, 0),
{
    let mut moves: Vec<Move> = Vec::new();
    let n = directions.len();
    let mut i: usize = 0;
    while i < n
        invariant
            board_ok(board@),
            position < 64,
            n == directions@.len(),
            i <= n,
            forall|j: int| 0 <= j < directions@.len() ==> {
                let d = #[trigger] directions@[j];
                -1 <= d.0 <= 1 && -1 <= d.1 <= 1 && !(d.0 == 0 && d.1 == 0)
            },
            forall|m: Move| moves@.contains(m) <==> exists|j: int|
                0 <= j < i && slide_move_ok(
                    board@, position as int, color,
                    (#[trigger] directions@[j]).0 as int, directions@[j].1 as int, m),
            directions@.no_duplicates() ==> moves@.no_duplicates(),
            moves@ + dir_list_moves(board@, position as int, color, directions@, i as int)
                == dir_list_moves(board@, position as int, color, directions@, 0),
        decreases n - i,
    {
        let (dr, df) = directions[i];
        let ghost before = moves@;
        proof {
            if directions@.no_duplicates() {
                assert forall|m: Move| moves@.contains(m) implies !slide_move_ok(
                    board@, position as int, color, dr as int, df as int, m) by {
                    if slide_move_ok(board@, position as int, color, dr as int, df as int, m) {
                        let j = choose|j: int| 0 <= j < i && slide_move_ok(
                            board@, position as int, color,
                            (#[trigger] directions@[j]).0 as int, directions@[j].1 as int, m);
                        lemma_slide_exclusive(
                            board@, position as int, color,
                            directions@[j].0 as int, directions@[j].1 as int,
                            dr as int, df as int, m);
                        assert(directions@[j] == directions@[i as int]);
                        assert(false);
                    }
                }
            }
        }
        slide_in_direction(board, position, color, dr, df, &mut moves);
        proof {
            assert(moves@ + dir_list_moves(
                board@, position as int, color, directions@, i + 1) =~= before + dir_list_moves(
                board@, position as int, color, directions@, i as int));
        }
        i = i + 1;
    }
    moves
}

/// Relates the direction-list contract of `generate_sliding_moves` to a
/// four-direction movement predicate whose directions are listed in `dirs`.
proof fn lemma_four_directions(
    b: Seq<Option<Piece>>,
    pos: int,
    c: Color,
    dirs: Seq<(isize, isize)>,
    m: Move,
)
    requires
        dirs.len() == 4,
    ensures
        (exists|i: int| 0 <= i < dirs.len() && slide_move_ok(
            b, pos, c, (#[trigger] dirs[i]).0 as int, dirs[i].1 as int, m)) <==> {
            ||| slide_move_ok(b, pos, c, dirs[0].0 as int, dirs[0].1 as int, m)
            ||| slide_move_ok(b, pos, c, dirs[1].0 as int, dirs[1].1 as int, m)
            ||| slide_move_ok(b, pos, c, dirs[2].0 as int, dirs[2].1 as int, m)
            ||| slide_move_ok(b, pos, c, dirs[3].0 as int, dirs[3].1 as int, m)
        },
{
    if exists|i: int| 0 <= i < dirs.len() && slide_move_ok(
        b, pos, c, (#[trigger] dirs[i]).0 as int, dirs[i].1 as int, m) {
        let i = choose|i: int| 0 <= i < dirs.len() && slide_move_ok(
            b, pos, c, (#[trigger] dirs[i]).0 as int, dirs[i].1 as int, m);
        assert(i == 0 || i == 1 || i == 2 || i == 3);
    }
}

/// All pseudo-legal bishop moves from `position`: the four diagonal rays.
pub fn generate_bishop_moves(board: &Board, position: usize, color: Color) -> (moves: Vec<Move>)
    requires
        board_ok(board@),
        position < 64,
    ensures
        forall|m: Move| moves@.contains(m) <==> bishop_move_ok(board@, position as int, color, m),
        moves@.no_duplicates(),
        moves@ == bishop_moves_seq(board@, position as int, color),
{
    let mut directions: Vec<(isize, isize)> = Vec::new();
    directions.push((-1, -1));
    directions.push((-1, 1));
    directions.push((1, -1));
    directions.push((1, 1));
    let moves = generate_sliding_moves(board, position, color, directions.as_slice());
    proof {
        assert(directions@.no_duplicates());
        reveal_with_fuel(dir_list_moves, 6);
        assert(moves@ =~= bishop_moves_seq(board@, position as int, color));
        assert forall|m: Move|
            moves@.contains(m) <==> bishop_move_ok(board@, position as int, color, m) by {
            lemma_four_directions(board@, position as int, color, directions@, m);
        }
    }
    moves
}

/// All pseudo-legal rook moves from `position`: the four straight rays.
pub fn generate_rook_moves(board: &Board, position: usize, color: Color) -> (moves: Vec<Move>)
    requires
        board_ok(board@),
        position < 64,
    ensures
        forall|m: Move| moves@.contains(m) <==> rook_move_ok(board@, position as int, color, m),
        moves@.no_duplicates(),
        moves@ == rook_moves_seq(board@, position as int, color),
{
    let mut directions: Vec<(isize, isize)> = Vec::new();
    directions.push((-1, 0));
    directions.push((1, 0));
    directions.push((0, -1));
    directions.push((0, 1));
    let moves = generate_sliding_moves(board, position, color, directions.as_slice());
    proof {
        assert(directions@.no_duplicates());
        reveal_with_fuel(dir_list_moves, 6);
        assert(moves@ =~= rook_moves_seq(board@, position as int, color));
        assert forall|m: Move|
            moves@.contains(m) <==> rook_move_ok(board@, position as int, color, m) by {
            lemma_four_directions(board@, position as int, color, directions@, m);
        }
    }
    moves
}

/// Relates the direction-list contract of `generate_sliding_moves` to an
/// eight-direction movement predicate whose directions are listed in `dirs`.
proof fn lemma_eight_directions(
    b: Seq<Option<Piece>>,
    pos: int,
    c: Color,
    dirs: Seq<(isize, isize)>,
    m: Move,
)
    requires
        dirs.len() == 8,
    ensures
        (exists|i: int| 0 <= i < dirs.len() && slide_move_ok(
            b, pos, c, (#[trigger] dirs[i]).0 as int, dirs[i].1 as int, m)) <==> {
            ||| slide_move_ok(b, pos, c, dirs[0].0 as int, dirs[0].1 as int, m)
            ||| slide_move_ok(b, pos, c, dirs[1].0 as int, dirs[1].1 as int, m)
            ||| slide_move_ok(b, pos, c, dirs[2].0 as int, dirs[2].1 as int, m)
            ||| slide_move_ok(b, pos, c, dirs[3].0 as int, dirs[3].1 as int, m)
            ||| slide_move_ok(b, pos, c, dirs[4].0 as int, dirs[4].1 as int, m)
            ||| slide_move_ok(b, pos, c, dirs[5].0 as int, dirs[5].1 as int, m)
            ||| slide_move_ok(b, pos, c, dirs[6].0 as int, dirs[6].1 as int, m)
            ||| slide_move_ok(b, pos, c, dirs[7].0 as int, dirs[7].1 as int, m)
        },
{
    if exists|i: int| 0 <= i < dirs.len() && slide_move_ok(
        b, pos, c, (#[trigger] dirs[i]).0 as int, dirs[i].1 as int, m) {
        let i = choose|i: int| 0 <= i < dirs.len() && slide_move_ok(
            b, pos, c, (#[trigger] dirs[i]).0 as int, dirs[i].1 as int, m);
        assert(0 <= i < 8);
    }
}

/// Unfolds the queen's eight-direction table into the bishop's rays
/// followed by the rook's.
#[verifier::rlimit(100)]
#[verifier::spinoff_prover]
proof fn lemma_queen_seq(b: Seq<Option<Piece>>, pos: int, c: Color, dirs: Seq<(isize, isize)>)
    requires
        dirs.len() == 8,
        dirs[0] == ((-1isize, -1isize)),
        dirs[1] == ((-1isize, 1isize)),
        dirs[2] == ((1isize, -1isize)),
        dirs[3] == ((1isize, 1isize)),
        dirs[4] == ((-1isize, 0isize)),
        dirs[5] == ((1isize, 0isize)),
        dirs[6] == ((0isize, -1isize)),
        dirs[7] == ((0isize, 1isize)),
    ensures
        dir_list_moves(b, pos, c, dirs, 0) == queen_moves_seq(b, pos, c),
{
    assert(dir_list_moves(b, pos, c, dirs, 8) == Seq::<Move>::empty());
    assert(dir_list_moves(b, pos, c, dirs, 7) == slide_dir_moves(b, pos, c, 0, 1)
        + dir_list_moves(b, pos, c, dirs, 8));
    assert(dir_list_moves(b, pos, c, dirs, 6) == slide_dir_moves(b, pos, c, 0, -1)
        + dir_list_moves(b, pos, c, dirs, 7));
    assert(dir_list_moves(b, pos, c, dirs, 5) == slide_dir_moves(b, pos, c, 1, 0)
        + dir_list_moves(b, pos, c, dirs, 6));
    assert(dir_list_moves(b, pos, c, dirs, 4) == slide_dir_moves(b, pos, c, -1, 0)
        + dir_list_moves(b, pos, c, dirs, 5));
    assert(dir_list_moves(b, pos, c, dirs, 3) == slide_dir_moves(b, pos, c, 1, 1)
        + dir_list_moves(b, pos, c, dirs, 4));
    assert(dir_list_moves(b, pos, c, dirs, 2) == slide_dir_moves(b, pos, c, 1, -1)
        + dir_list_moves(b, pos, c, dirs, 3));
    assert(dir_list_moves(b, pos, c, dirs, 1) == slide_dir_moves(b, pos, c, -1, 1)
        + dir_list_moves(b, pos, c, dirs, 2));
    assert(dir_list_moves(b, pos, c, dirs, 0) == slide_dir_moves(b, pos, c, -1, -1)
        + dir_list_moves(b, pos, c, dirs, 1));
    assert(dir_list_moves(b, pos, c, dirs, 0) =~= queen_moves_seq(b, pos, c));
}

/// All pseudo-legal queen moves from `position`: all eight rays.
pub fn generate_queen_moves(board: &Board, position: usize, color: Color) -> (moves: Vec<Move>)
    requires
        board_ok(board@),
        position < 64,
    ensures
        forall|m: Move| moves@.contains(m) <==> queen_move_ok(board@, position as int, color, m),
        moves@.no_duplicates(),
        moves@ == queen_moves_seq(board@, position as int, color),
{
    let mut directions: Vec<(isize, isize)> = Vec::new();
    directions.push((-1, -1));
    directions.push((-1, 1));
    directions.push((1, -1));
    directions.push((1, 1));
    directions.push((-1, 0));
    directions.push((1, 0));
    directions.push((0, -1));
    directions.push((0, 1));
    let moves = generate_sliding_moves(board, position, color, directions.as_slice());
    proof {
        assert(directions@.no_duplicates());
        lemma_queen_seq(board@, position as int, color, directions@);
        assert forall|m: Move|
            moves@.contains(m) <==> queen_move_ok(board@, position as int, color, m) by {
            lemma_eight_directions(board@, position as int, color, directions@, m);
        }
    }
    moves
}

// ---------------------------------------------------------------------------
// Whole-board movement model
// ---------------------------------------------------------------------------

/// The movement model for piece `p` standing on `pos`.
pub open spec fn piece_move_ok(b: Seq<Option<Piece>>, pos: int, p: Piece, m: Move) -> bool {
    match p.piece_type {
        PieceType::Pawn => pawn_move_ok(b, pos, p.color, m),
        PieceType::Knight => knight_move_ok(b, pos, p.color, m),
        PieceType::Bishop => bishop_move_ok(b, pos, p.color, m),
        PieceType::Rook => rook_move_ok(b, pos, p.color, m),
        PieceType::Queen => queen_move_ok(b, pos, p.color, m),
        PieceType::King => king_move_ok(b, pos, p.color, m),
    }
}

/// `m` is a pseudo-legal move of color `c`: its source square holds a piece
/// of that color whose movement model admits it.
pub open spec fn pseudo_move_ok(b: Seq<Option<Piece>>, c: Color, m: Move) -> bool {
    &&& valid_square(m.from as int)
    &&& has_color(b, m.from as int, c)
    &&& piece_move_ok(b, m.from as int, b[m.from as int]->0, m)
}

// ---------------------------------------------------------------------------
// Pawn generator
// ---------------------------------------------------------------------------

/// Pushing an element a sequence does not yet contain keeps it free of
/// duplicates.
proof fn lemma_push_keeps_no_duplicates<A>(s: Seq<A>, x: A)
    requires
        s.no_duplicates(),
        !s.contains(x),
    ensures
        s.push(x).no_duplicates(),
{
    assert forall|i: int, j: int|
        0 <= i < s.push(x).len() && 0 <= j < s.push(x).len() && i != j implies s.push(x)[i]
        != s.push(x)[j] by {
        if i < s.len() && j == s.len() {
            assert(s.contains(s[i]) <== s[i] == x);
        }
        if j < s.len() && i == s.len() {
            assert(s.contains(s[j]) <== s[j] == x);
        }
    }
}

/// Appends `Move { from, to }` once per promotion piece type when `to` lies
/// on the promotion rank, and once with no promotion otherwise.
fn push_pawn_move(from: usize, to: usize, on_promotion_rank: bool, color: Color, moves: &mut Vec<Move>)
    requires
        valid_square(to as int),
        on_promotion_rank <==> rank_of(to as int) == promotion_rank(color),
    ensures
        forall|m: Move| final(moves)@.contains(m) <==> old(moves)@.contains(m)
            || (m.from == from && m.to == to && promo_field_ok(color, to as int, m.promotion)),
        forall|m: Move| final(moves)@.contains(m) && !old(moves)@.contains(m)
            ==> m.from == from && m.to == to,
        (old(moves)@.no_duplicates() && (forall|m: Move| old(moves)@.contains(m) ==> m.to != to))
            ==> final(moves)@.no_duplicates(),
        final(moves)@ == old(moves)@ + pawn_dest_moves(color, from as int, to as int),
{
    let ghost s0 = moves@;
    if on_promotion_rank {
        let mq = Move { from, to, promotion: Some(PieceType::Queen) };
        let mr = Move { from, to, promotion: Some(PieceType::Rook) };
        let mb = Move { from, to, promotion: Some(PieceType::Bishop) };
        let mn = Move { from, to, promotion: Some(PieceType::Knight) };
        moves.push(mq);
        let ghost s1 = moves@;
        moves.push(mr);
        let ghost s2 = moves@;
        moves.push(mb);
        let ghost s3 = moves@;
        moves.push(mn);
        proof {
            assert(moves@ =~= s0 + pawn_dest_moves(color, from as int, to as int));
            if s0.no_duplicates() && (forall|m: Move| s0.contains(m) ==> m.to != to) {
                lemma_push_keeps_no_duplicates(s0, mq);
                assert(!s1.contains(mr));
                lemma_push_keeps_no_duplicates(s1, mr);
                assert(!s2.contains(mb));
                lemma_push_keeps_no_duplicates(s2, mb);
                assert(!s3.contains(mn));
                lemma_push_keeps_no_duplicates(s3, mn);
            }
        }
    } else {
        let m1 = Move { from, to, promotion: None };
        moves.push(m1);
        proof {
            assert(moves@ =~= s0 + pawn_dest_moves(color, from as int, to as int));
            if s0.no_duplicates() && (forall|m: Move| s0.contains(m) ==> m.to != to) {
                lemma_push_keeps_no_duplicates(s0, m1);
            }
        }
    }
}

/// Appends the single push, the promotion variants, and the double push
/// from the home rank, as occupancy allows.
fn push_pawn_advances(board: &Board, position: usize, color: Color, moves: &mut Vec<Move>)
    requires
        board_ok(board@),
        position < 64,
        old(moves)@ == Seq::<Move>::empty(),
    ensures
        forall|m: Move| final(moves)@.contains(m) <==> pawn_advance_ok(
            board@, position as int, color, m),
        final(moves)@.no_duplicates(),
        forall|m: Move| final(moves)@.contains(m)
            ==> file_of(m.to as int) == file_of(position as int),
        final(moves)@ == pawn_advance_moves(board@, position as int, color),
{
    let (rank, file) = get_rank_file(position);

    let (forward_step, start_rank, promo_rank): (isize, isize, isize) = match color {
        Color::White => (1, 1, 7),
        Color::Black => (-1, 6, 0),
    };

    let forward_rank = rank + forward_step;
    if forward_rank >= 0 && forward_rank < 8 {
        let forward_index = get_index(forward_rank, file);
        if board[forward_index].is_none() {
            push_pawn_move(position, forward_index, forward_rank == promo_rank, color, moves);

            // Double forward move from starting rank
            if rank == start_rank {
                let double_forward_rank = rank + 2 * forward_step;
                let double_forward_index = get_index(double_forward_rank, file);
                if board[double_forward_index].is_none() {
                    let ghost s1 = moves@;
                    let dmv = Move { from: position, to: double_forward_index, promotion: None };
                    proof {
                        assert(forall|m: Move| s1.contains(m) ==> m.to == forward_index);
                        assert(!s1.contains(dmv));
                        lemma_push_keeps_no_duplicates(s1, dmv);
                    }
                    moves.push(dmv);
                    proof {
                        assert(moves@ =~= pawn_advance_moves(board@, position as int, color));
                    }
                }
            }
        }
    }
    proof {
        assert(moves@ =~= pawn_advance_moves(board@, position as int, color));
    }
}

/// Appends the diagonal capture toward file offset `capture_file_offset`
/// when that square holds an opponent piece, with promotion variants on the
/// far rank.
fn try_pawn_capture(
    board: &Board,
    position: usize,
    color: Color,
    capture_file_offset: isize,
    moves: &mut Vec<Move>,
)
    requires
        board_ok(board@),
        position < 64,
        capture_file_offset == -1 || capture_file_offset == 1,
    ensures
        forall|m: Move| final(moves)@.contains(m) <==> old(moves)@.contains(m)
            || pawn_capture_dir_ok(board@, position as int, color, capture_file_offset as int, m),
        forall|m: Move| final(moves)@.contains(m) && !old(moves)@.contains(m)
            ==> file_of(m.to as int) == file_of(position as int) + capture_file_offset,
        (old(moves)@.no_duplicates() && (forall|m: Move| old(moves)@.contains(m)
            ==> file_of(m.to as int) != file_of(position as int) + capture_file_offset))
            ==> final(moves)@.no_duplicates(),
        final(moves)@ == old(moves)@ + pawn_capture_moves(
            board@, position as int, color, capture_file_offset as int),
{
    let ghost snap = moves@;
    let (rank, file) = get_rank_file(position);

    let (forward_step, promo_rank): (isize, isize) = match color {
        Color::White => (1, 7),
        Color::Black => (-1, 0),
    };

    let capture_file = file + capture_file_offset;
    let capture_rank = rank + forward_step;
    if capture_file >= 0 && capture_file < 8 && capture_rank >= 0 && capture_rank < 8 {
        let capture_index = get_index(capture_rank, capture_file);
        if let Some(target_piece) = board[capture_index] {
            if target_piece.color != color {
                proof {
                    if forall|m: Move| snap.contains(m)
                        ==> file_of(m.to as int) != file_of(position as int)
                            + capture_file_offset {
                        assert(forall|m: Move| snap.contains(m) ==> m.to != capture_index);
                    }
                }
                push_pawn_move(position, capture_index, capture_rank == promo_rank, color, moves);
            }
        }
    }
    proof {
        assert(moves@ =~= snap + pawn_capture_moves(
            board@, position as int, color, capture_file_offset as int));
    }
}

/// All pseudo-legal moves of a pawn of color `color` on `position`: single
/// push, double push from the home rank, diagonal captures, each emitted
/// once per promotion piece type when it lands on the far rank. En passant
/// is not generated.
pub fn generate_pawn_moves(board: &Board, position: usize, color: Color) -> (moves: Vec<Move>)
    requires
        board_ok(board@),
        position < 64,
    ensures
        forall|m: Move| moves@.contains(m) <==> pawn_move_ok(board@, position as int, color, m),
        moves@.no_duplicates(),
        moves@ == pawn_moves_seq(board@, position as int, color),
{
    let mut moves: Vec<Move> = Vec::new();

    push_pawn_advances(board, position, color, &mut moves);
    let ghost after_advances = moves@;
    try_pawn_capture(board, position, color, -1, &mut moves);
    proof {
        assert(forall|m: Move| moves@.contains(m)
            ==> file_of(m.to as int) == file_of(position as int)
                || file_of(m.to as int) == file_of(position as int) - 1);
    }
    try_pawn_capture(board, position, color, 1, &mut moves);

    proof {
        assert(moves@ =~= pawn_moves_seq(board@, position as int, color));
    }
    moves
}

// ---------------------------------------------------------------------------
// Fixed-offset generators (knight, king)
// ---------------------------------------------------------------------------

/// A non-sliding move by a fixed rank/file offset: the target square is on
/// the board and does not hold an own-color piece.
pub open spec fn offset_move_ok(
    b: Seq<Option<Piece>>,
    pos: int,
    c: Color,
    dr: int,
    df: int,
    m: Move,
) -> bool {
    &&& m.from == pos
    &&& m.promotion is None
    &&& valid_rf(rank_of(pos) + dr, file_of(pos) + df)
    &&& m.to == square_at(rank_of(pos) + dr, file_of(pos) + df)
    &&& landable(b, m.to as int, c)
}

/// A knight move is exactly one of the eight fixed knight offsets.
proof fn lemma_knight_offsets(b: Seq<Option<Piece>>, pos: int, c: Color, m: Move)
    requires
        valid_square(pos),
    ensures
        knight_move_ok(b, pos, c, m) <==> {
            ||| offset_move_ok(b, pos, c, -2, -1, m)
            ||| offset_move_ok(b, pos, c, -2, 1, m)
            ||| offset_move_ok(b, pos, c, -1, -2, m)
            ||| offset_move_ok(b, pos, c, -1, 2, m)
            ||| offset_move_ok(b, pos, c, 1, -2, m)
            ||| offset_move_ok(b, pos, c, 1, 2, m)
            ||| offset_move_ok(b, pos, c, 2, -1, m)
            ||| offset_move_ok(b, pos, c, 2, 1, m)
        },
{
    lemma_square_of_own_coords(pos);
    if valid_square(m.to as int) {
        lemma_square_of_own_coords(m.to as int);
    }
}

/// A king move is exactly one of the eight fixed king offsets.
proof fn lemma_king_offsets(b: Seq<Option<Piece>>, pos: int, c: Color, m: Move)
    requires
        valid_square(pos),
    ensures
        king_move_ok(b, pos, c, m) <==> {
            ||| offset_move_ok(b, pos, c, -1, -1, m)
            ||| offset_move_ok(b, pos, c, -1, 0, m)
            ||| offset_move_ok(b, pos, c, -1, 1, m)
            ||| offset_move_ok(b, pos, c, 0, -1, m)
            ||| offset_move_ok(b, pos, c, 0, 1, m)
            ||| offset_move_ok(b, pos, c, 1, -1, m)
            ||| offset_move_ok(b, pos, c, 1, 0, m)
            ||| offset_move_ok(b, pos, c, 1, 1, m)
        },
{
    lemma_square_of_own_coords(pos);
    if valid_square(m.to as int) {
        lemma_square_of_own_coords(m.to as int);
    }
}

/// The (at most one) move by offset `(dr, df)` from `pos`: emitted when the
/// target square is on the board and not occupied by an own-color piece.
pub open spec fn offset_moves(b: Seq<Option<Piece>>, pos: int, c: Color, dr: int, df: int) -> Seq<Move> {
    if valid_rf(rank_of(pos) + dr, file_of(pos) + df) && landable(
        b, square_at(rank_of(pos) + dr, file_of(pos) + df), c) {
        seq![
            Move {
                from: pos as usize,
                to: square_at(rank_of(pos) + dr, file_of(pos) + df) as usize,
                promotion: None,
            },
        ]
    } else {
        Seq::empty()
    }
}

/// The moves for the offsets of `offs` from index `i` on, in table order.
pub open spec fn offset_list_moves(
    b: Seq<Option<Piece>>,
    pos: int,
    c: Color,
    offs: Seq<(isize, isize)>,
    i: int,
) -> Seq<Move>
    decreases offs.len() - i,
{
    if i < 0 || i >= offs.len() {
        Seq::empty()
    } else {
        offset_moves(b, pos, c, offs[i].0 as int, offs[i].1 as int) + offset_list_moves(
            b, pos, c, offs, i + 1)
    }
}

/// The knight's fixed offset table, in emission order.
pub open spec fn knight_offsets() -> Seq<(isize, isize)> {
    seq![
        (-2isize, -1isize), (-2isize, 1isize), (-1isize, -2isize), (-1isize, 2isize),
        (1isize, -2isize), (1isize, 2isize), (2isize, -1isize), (2isize, 1isize),
    ]
}

/// The king's fixed offset table, in emission order.
pub open spec fn king_offsets() -> Seq<(isize, isize)> {
    seq![
        (-1isize, -1isize), (-1isize, 0isize), (-1isize, 1isize), (0isize, -1isize),
        (0isize, 1isize), (1isize, -1isize), (1isize, 0isize), (1isize, 1isize),
    ]
}

/// The knight's full move sequence, in offset-table order.
pub open spec fn knight_moves_seq(b: Seq<Option<Piece>>, pos: int, c: Color) -> Seq<Move> {
    offset_list_moves(b, pos, c, knight_offsets(), 0)
}

/// The king's full move sequence, in offset-table order.
pub open spec fn king_moves_seq(b: Seq<Option<Piece>>, pos: int, c: Color) -> Seq<Move> {
    offset_list_moves(b, pos, c, king_offsets(), 0)
}

/// Two distinct offsets from one square admit no common move.
proof fn lemma_offset_exclusive(
    b: Seq<Option<Piece>>,
    pos: int,
    c: Color,
    dr1: int,
    df1: int,
    dr2: int,
    df2: int,
    m: Move,
)
    requires
        valid_square(pos),
        offset_move_ok(b, pos, c, dr1, df1, m),
        offset_move_ok(b, pos, c, dr2, df2, m),
    ensures
        dr1 == dr2 && df1 == df2,
{
    lemma_square_coords(rank_of(pos) + dr1, file_of(pos) + df1);
    lemma_square_coords(rank_of(pos) + dr2, file_of(pos) + df2);
}

/// Appends the move by offset `(dr, df)` from `position` when its target is
/// on the board and not occupied by an own-color piece.
fn try_offset_move(
    board: &Board,
    position: usize,
    color: Color,
    dr: isize,
    df: isize,
    moves: &mut Vec<Move>,
)
    requires
        board_ok(board@),
        position < 64,
        -2 <= dr <= 2,
        -2 <= df <= 2,
    ensures
        forall|m: Move| final(moves)@.contains(m) <==> old(moves)@.contains(m)
            || offset_move_ok(board@, position as int, color, dr as int, df as int, m),
        (old(moves)@.no_duplicates() && (forall|m: Move| old(moves)@.contains(m)
            ==> !offset_move_ok(board@, position as int, color, dr as int, df as int, m)))
            ==> final(moves)@.no_duplicates(),
        final(moves)@ == old(moves)@ + offset_moves(
            board@, position as int, color, dr as int, df as int),
{
    let ghost snap = moves@;
    let (rank, file) = get_rank_file(position);
    let new_rank = rank + dr;
    let new_file = file + df;

    if new_rank >= 0 && new_rank < 8 && new_file >= 0 && new_file < 8 {
        proof {
            lemma_square_coords(new_rank as int, new_file as int);
        }
        let target_index = get_index(new_rank, new_file);
        let can_land = match board[target_index] {
            Some(target_piece) => target_piece.color != color,
            None => true,
        };
        if can_land {
            let mv = Move { from: position, to: target_index, promotion: None };
            proof {
                assert(offset_move_ok(
                    board@, position as int, color, dr as int, df as int, mv));
                if snap.no_duplicates() && (forall|m: Move| snap.contains(m)
                    ==> !offset_move_ok(
                        board@, position as int, color, dr as int, df as int, m)) {
                    lemma_push_keeps_no_duplicates(snap, mv);
                }
            }
            moves.push(mv);
        }
    }
    proof {
        assert(moves@ =~= snap + offset_moves(
            board@, position as int, color, dr as int, df as int));
    }
}

/// Relates membership over an eight-entry offset table to the eight
/// disjuncts, one per entry.
proof fn lemma_eight_offsets(
    b: Seq<Option<Piece>>,
    pos: int,
    c: Color,
    offs: Seq<(isize, isize)>,
    m: Move,
)
    requires
        offs.len() == 8,
    ensures
        (exists|j: int| 0 <= j < offs.len() && offset_move_ok(
            b, pos, c, (#[trigger] offs[j]).0 as int, offs[j].1 as int, m)) <==> {
            ||| offset_move_ok(b, pos, c, offs[0].0 as int, offs[0].1 as int, m)
            ||| offset_move_ok(b, pos, c, offs[1].0 as int, offs[1].1 as int, m)
            ||| offset_move_ok(b, pos, c, offs[2].0 as int, offs[2].1 as int, m)
            ||| offset_move_ok(b, pos, c, offs[3].0 as int, offs[3].1 as int, m)
            ||| offset_move_ok(b, pos, c, offs[4].0 as int, offs[4].1 as int, m)
            ||| offset_move_ok(b, pos, c, offs[5].0 as int, offs[5].1 as int, m)
            ||| offset_move_ok(b, pos, c, offs[6].0 as int, offs[6].1 as int, m)
            ||| offset_move_ok(b, pos, c, offs[7].0 as int, offs[7].1 as int, m)
        },
{
    if exists|j: int| 0 <= j < offs.len() && offset_move_ok(
        b, pos, c, (#[trigger] offs[j]).0 as int, offs[j].1 as int, m) {
        let j = choose|j: int| 0 <= j < offs.len() && offset_move_ok(
            b, pos, c, (#[trigger] offs[j]).0 as int, offs[j].1 as int, m);
        assert(0 <= j < 8);
    }
}

/// Walks the offset table `offsets` in order, appending each offset's move
/// when its target is on the board and not occupied by an own-color piece.
fn generate_offset_moves(
    board: &Board,
    position: usize,
    color: Color,
    offsets: &Vec<(isize, isize)>,
) -> (moves: Vec<Move>)
    requires
        board_ok(board@),
        position < 64,
        forall|j: int| 0 <= j < offsets@.len() ==> -2 <= (#[trigger] offsets@[j]).0 <= 2
            && -2 <= offsets@[j].1 <= 2,
    ensures
        moves@ == offset_list_moves(board@, position as int, color, offsets@, 0),
        forall|m: Move| moves@.contains(m) <==> exists|j: int|
            0 <= j < offsets@.len() && offset_move_ok(
                board@, position as int, color,
                (#[trigger] offsets@[j]).0 as int, offsets@[j].1 as int, m),
        offsets@.no_duplicates() ==> moves@.no_duplicates(),
{
    let mut moves: Vec<Move> = Vec::new();
    let n = offsets.len();
    let mut i: usize = 0;
    while i < n
        invariant
            board_ok(board@),
            position < 64,
            n == offsets@.len(),
            i <= n,
            forall|j: int| 0 <= j < offsets@.len() ==> -2 <= (#[trigger] offsets@[j]).0 <= 2
                && -2 <= offsets@[j].1 <= 2,
            moves@ + offset_list_moves(board@, position as int, color, offsets@, i as int)
                == offset_list_moves(board@, position as int, color, offsets@, 0),
            forall|m: Move| moves@.contains(m) <==> exists|j: int|
                0 <= j < i && offset_move_ok(
                    board@, position as int, color,
                    (#[trigger] offsets@[j]).0 as int, offsets@[j].1 as int, m),
            offsets@.no_duplicates() ==> moves@.no_duplicates(),
        decreases n - i,
    {
        let (dr, df) = offsets[i];
        let ghost prev = moves@;
        proof {
            if offsets@.no_duplicates() {
                assert forall|m: Move| moves@.contains(m) implies !offset_move_ok(
                    board@, position as int, color, dr as int, df as int, m) by {
                    if offset_move_ok(board@, position as int, color, dr as int, df as int, m) {
                        let j = choose|j: int| 0 <= j < i && offset_move_ok(
                            board@, position as int, color,
                            (#[trigger] offsets@[j]).0 as int, offsets@[j].1 as int, m);
                        lemma_offset_exclusive(
                            board@, position as int, color,
                            offsets@[j].0 as int, offsets@[j].1 as int,
                            dr as int, df as int, m);
                        assert(offsets@[j] == offsets@[i as int]);
                        assert(false);
                    }
                }
            }
        }
        try_offset_move(board, position, color, dr, df, &mut moves);
        proof {
            assert(moves@ + offset_list_moves(
                board@, position as int, color, offsets@, i + 1) =~= prev + offset_list_moves(
                board@, position as int, color, offsets@, i as int));
        }
        i = i + 1;
    }
    moves
}

/// All pseudo-legal knight moves from `position`: the eight knight offsets,
/// filtered to on-board targets not occupied by an own-color piece.
pub fn generate_knight_moves(board: &Board, position: usize, color: Color) -> (moves: Vec<Move>)
    requires
        board_ok(board@),
        position < 64,
    ensures
        forall|m: Move| moves@.contains(m) <==> knight_move_ok(board@, position as int, color, m),
        moves@.no_duplicates(),
        moves@ == knight_moves_seq(board@, position as int, color),
{
    let mut offsets: Vec<(isize, isize)> = Vec::new();
    offsets.push((-2, -1));
    offsets.push((-2, 1));
    offsets.push((-1, -2));
    offsets.push((-1, 2));
    offsets.push((1, -2));
    offsets.push((1, 2));
    offsets.push((2, -1));
    offsets.push((2, 1));
    proof {
        assert(offsets@ =~= knight_offsets());
        assert(offsets@.no_duplicates());
    }
    let moves = generate_offset_moves(board, position, color, &offsets);
    proof {
        assert forall|m: Move|
            moves@.contains(m) <==> knight_move_ok(board@, position as int, color, m) by {
            lemma_knight_offsets(board@, position as int, color, m);
            lemma_eight_offsets(board@, position as int, color, offsets@, m);
        }
    }
    moves
}

/// All pseudo-legal king moves from `position`: the eight adjacent squares,
/// filtered to on-board targets not occupied by an own-color piece.
/// Castling is not generated.
pub fn generate_king_moves(board: &Board, position: usize, color: Color) -> (moves: Vec<Move>)
    requires
        board_ok(board@),
        position < 64,
    ensures
        forall|m: Move| moves@.contains(m) <==> king_move_ok(board@, position as int, color, m),
        moves@.no_duplicates(),
        moves@ == king_moves_seq(board@, position as int, color),
{
    let mut offsets: Vec<(isize, isize)> = Vec::new();
    offsets.push((-1, -1));
    offsets.push((-1, 0));
    offsets.push((-1, 1));
    offsets.push((0, -1));
    offsets.push((0, 1));
    offsets.push((1, -1));
    offsets.push((1, 0));
    offsets.push((1, 1));
    proof {
        assert(offsets@ =~= king_offsets());
        assert(offsets@.no_duplicates());
    }
    let moves = generate_offset_moves(board, position, color, &offsets);
    proof {
        assert forall|m: Move|
            moves@.contains(m) <==> king_move_ok(board@, position as int, color, m) by {
            lemma_king_offsets(board@, position as int, color, m);
            lemma_eight_offsets(board@, position as int, color, offsets@, m);
        }
    }
    moves
}

/// The move sequence for whatever occupies `pos`: its piece type's
/// generator's sequence, or empty for an empty square.
pub open spec fn piece_moves_seq(b: Seq<Option<Piece>>, pos: int) -> Seq<Move> {
    match b[pos] {
        Some(p) => match p.piece_type {
            PieceType::Pawn => pawn_moves_seq(b, pos, p.color),
            PieceType::Knight => knight_moves_seq(b, pos, p.color),
            PieceType::Bishop => bishop_moves_seq(b, pos, p.color),
            PieceType::Rook => rook_moves_seq(b, pos, p.color),
            PieceType::Queen => queen_moves_seq(b, pos, p.color),
            PieceType::King => king_moves_seq(b, pos, p.color),
        },
        None => Seq::empty(),
    }
}

/// The move sequences of color `c`'s pieces on squares `pos` and up,
/// concatenated in ascending square order.
pub open spec fn pseudo_moves_from(b: Seq<Option<Piece>>, c: Color, pos: int) -> Seq<Move>
    decreases 64 - pos,
{
    if pos < 0 || pos >= 64 {
        Seq::empty()
    } else {
        (if has_color(b, pos, c) {
            piece_moves_seq(b, pos)
        } else {
            Seq::empty()
        }) + pseudo_moves_from(b, c, pos + 1)
    }
}

/// The full pseudo-legal move sequence of color `c`: the union over its
/// occupied squares in ascending square-index order, each square's moves in
/// its generator's order.
pub open spec fn pseudo_moves_seq(b: Seq<Option<Piece>>, c: Color) -> Seq<Move> {
    pseudo_moves_from(b, c, 0)
}

/// All pseudo-legal moves for whatever occupies `position`; an empty square
/// yields an empty sequence.
pub fn generate_piece_moves(board: &Board, position: usize) -> (moves: Vec<Move>)
    requires
        board_ok(board@),
        position < 64,
    ensures
        forall|m: Move| moves@.contains(m) <==> (board@[position as int] is Some
            && piece_move_ok(board@, position as int, board@[position as int]->0, m)),
        board@[position as int] is None ==> moves@.len() == 0,
        moves@.no_duplicates(),
        moves@ == piece_moves_seq(board@, position as int),
{
    match board[position] {
        Some(piece) => match piece.piece_type {
            PieceType::Pawn => generate_pawn_moves(board, position, piece.color),
            PieceType::Knight => generate_knight_moves(board, position, piece.color),
            PieceType::Bishop => generate_bishop_moves(board, position, piece.color),
            PieceType::Rook => generate_rook_moves(board, position, piece.color),
            PieceType::Queen => generate_queen_moves(board, position, piece.color),
            PieceType::King => generate_king_moves(board, position, piece.color),
        },
        None => Vec::new(),
    }
}

/// All pseudo-legal moves of color `color`, gathered square by square in
/// ascending square-index order.
pub fn generate_all_pseudo_moves(board: &Board, color: Color) -> (moves: Vec<Move>)
    requires
        board_ok(board@),
    ensures
        forall|m: Move| moves@.contains(m) <==> pseudo_move_ok(board@, color, m),
        forall|i: int, j: int| 0 <= i <= j < moves@.len()
            ==> (#[trigger] moves@[i]).from <= (#[trigger] moves@[j]).from,
        moves@.no_duplicates(),
        moves@ == pseudo_moves_seq(board@, color),
{
    let mut moves: Vec<Move> = Vec::new();
    let mut position: usize = 0;
    while position < 64
        invariant
            board_ok(board@),
            position <= 64,
            forall|m: Move| #[trigger] moves@.contains(m) <==> pseudo_move_ok(board@, color, m)
                && (m.from as int) < position,
            forall|i: int| 0 <= i < moves@.len() ==> (#[trigger] moves@[i]).from < position,
            forall|i: int, j: int| 0 <= i <= j < moves@.len()
                ==> (#[trigger] moves@[i]).from <= (#[trigger] moves@[j]).from,
            moves@.no_duplicates(),
            moves@ + pseudo_moves_from(board@, color, position as int)
                == pseudo_moves_seq(board@, color),
        decreases 64 - position,
    {
        let ghost before = moves@;
        let keep = match board[position] {
            Some(piece) => piece.color == color,
            None => false,
        };
        if keep {
            let ghost prev = moves@;
            let mut piece_moves = generate_piece_moves(board, position);
            let ghost pm = piece_moves@;
            proof {
                assert forall|i: int| 0 <= i < pm.len() implies (#[trigger] pm[i]).from
                    == position by {
                    assert(pm.contains(pm[i]));
                }
            }
            moves.append(&mut piece_moves);
            proof {
                assert(has_color(board@, position as int, color));
                assert(moves@ + pseudo_moves_from(board@, color, position + 1)
                    =~= before + pseudo_moves_from(board@, color, position as int));
                assert forall|a: int, d: int|
                    0 <= a < moves@.len() && 0 <= d < moves@.len() && a != d implies moves@[a]
                    != moves@[d] by {
                    if a < prev.len() && d >= prev.len() {
                        assert(moves@[a] == prev[a] && moves@[d] == pm[d - prev.len()]);
                    }
                    if d < prev.len() && a >= prev.len() {
                        assert(moves@[d] == prev[d] && moves@[a] == pm[a - prev.len()]);
                    }
                }
                assert forall|m: Move|
                    #[trigger] moves@.contains(m) <==> pseudo_move_ok(board@, color, m)
                        && (m.from as int) < position + 1 by {
                    assert(moves@.contains(m) <==> prev.contains(m) || pm.contains(m));
                    if pm.contains(m) {
                        let i = choose|i: int| 0 <= i < pm.len() && pm[i] == m;
                        assert(m.from == position);
                    }
                    if pseudo_move_ok(board@, color, m) && m.from as int == position {
                        assert(pm.contains(m));
                    }
                }
            }
        } else {
            proof {
                assert(!has_color(board@, position as int, color));
                assert(moves@ + pseudo_moves_from(board@, color, position + 1)
                    =~= before + pseudo_moves_from(board@, color, position as int));
                assert forall|m: Move|
                    #[trigger] moves@.contains(m) <==> pseudo_move_ok(board@, color, m)
                        && (m.from as int) < position + 1 by {
                    if pseudo_move_ok(board@, color, m) && m.from as int == position {
                        assert(has_color(board@, position as int, color));
                    }
                }
            }
        }
        position = position + 1;
    }
    moves
}

// ---------------------------------------------------------------------------
// Check oracle
// ---------------------------------------------------------------------------

/// Square `sq` holds the king of color `c`.
pub open spec fn is_king_of(b: Seq<Option<Piece>>, c: Color, sq: int) -> bool {
    b[sq] is Some && b[sq]->0.piece_type is King && b[sq]->0.color == c
}

/// The first square at or after `i` holding the king of color `c`.
pub open spec fn king_square_from(b: Seq<Option<Piece>>, c: Color, i: int) -> Option<int>
    decreases 64 - i,
{
    if i >= 64 {
        None
    } else if is_king_of(b, c, i) {
        Some(i)
    } else {
        king_square_from(b, c, i + 1)
    }
}

/// The first square holding the king of color `c`, if any.
pub open spec fn king_square(b: Seq<Option<Piece>>, c: Color) -> Option<int> {
    king_square_from(b, c, 0)
}

/// Color `c` is in check: its king's square is the destination of some
/// opponent pseudo-legal move. A board with no king of color `c` is never
/// in check.
pub open spec fn in_check(b: Seq<Option<Piece>>, c: Color) -> bool {
    match king_square(b, c) {
        Some(k) => exists|m: Move| #[trigger] pseudo_move_ok(b, opposite(c), m) && m.to == k,
        None => false,
    }
}

/// Reports whether `color`'s king is currently attacked, by generating the
/// opponent's pseudo-moves and checking whether any targets the king's
/// square. A board with no king of the queried color reports false.
pub fn is_in_check(board: &Board, color: Color) -> (result: bool)
    requires
        board_ok(board@),
    ensures
        result == in_check(board@, color),
{
    // Find the king's position
    let mut king_pos: usize = 0;
    let mut found = false;
    let mut i: usize = 0;
    while i < 64
        invariant
            board_ok(board@),
            i <= 64,
            !found ==> king_square(board@, color) == king_square_from(board@, color, i as int),
            found ==> king_pos < 64 && king_square(board@, color) == Some(king_pos as int),
        decreases 64 - i,
    {
        if !found {
            let is_king = match board[i] {
                Some(piece) => matches!(piece.piece_type, PieceType::King) && piece.color == color,
                None => false,
            };
            if is_king {
                king_pos = i;
                found = true;
            }
        }
        i = i + 1;
    }

    if !found {
        // King is not on the board: never reported as check.
        return false;
    }

    // Generate all opponent's moves
    let opponent_color = match color {
        Color::White => Color::Black,
        Color::Black => Color::White,
    };
    let opponent_moves = generate_all_pseudo_moves(board, opponent_color);

    // Check if any move attacks the king
    let mut attacked = false;
    let mut j: usize = 0;
    while j < opponent_moves.len()
        invariant
            j <= opponent_moves@.len(),
            forall|m: Move| opponent_moves@.contains(m) <==> pseudo_move_ok(
                board@, opponent_color, m),
            opponent_color == opposite(color),
            king_square(board@, color) == Some(king_pos as int),
            attacked <==> exists|jj: int| 0 <= jj < j
                && (#[trigger] opponent_moves@[jj]).to == king_pos,
        decreases opponent_moves@.len() - j,
    {
        if opponent_moves[j].to == king_pos {
            attacked = true;
        }
        j = j + 1;
    }

    proof {
        if attacked {
            let jj = choose|jj: int| 0 <= jj < opponent_moves@.len()
                && (#[trigger] opponent_moves@[jj]).to == king_pos;
            assert(opponent_moves@.contains(opponent_moves@[jj]));
        }
        if in_check(board@, color) {
            let m = choose|m: Move| #[trigger] pseudo_move_ok(board@, opposite(color), m)
                && m.to == king_pos as int;
            assert(opponent_moves@.contains(m));
            let jj = choose|jj: int| 0 <= jj < opponent_moves@.len()
                && opponent_moves@[jj] == m;
            assert((opponent_moves@[jj]).to == king_pos);
        }
    }
    attacked
}

// ---------------------------------------------------------------------------
// Move application model
// ---------------------------------------------------------------------------

/// The piece that lands on the destination: the mover, with its type
/// replaced by the promotion type when one is carried.
pub open spec fn moved_piece(b: Seq<Option<Piece>>, m: Move) -> Piece {
    let p = b[m.from as int]->0;
    match m.promotion {
        Some(t) => Piece { piece_type: t, color: p.color },
        None => p,
    }
}

/// The board after applying `m`: the (possibly promoted) mover is placed on
/// the destination, then the source square is cleared.
pub open spec fn board_after(b: Seq<Option<Piece>>, m: Move) -> Seq<Option<Piece>> {
    b.update(m.to as int, Some(moved_piece(b, m))).update(m.from as int, None)
}

/// The half-move clock resets when a pawn moves, a capture occurs, or a
/// promotion occurs; otherwise it increments.
pub open spec fn move_resets_clock(b: Seq<Option<Piece>>, m: Move) -> bool {
    ||| b[m.from as int]->0.piece_type is Pawn
    ||| b[m.to as int] is Some
    ||| m.promotion is Some
}

/// Applies `mv` to `game_state` in place: moves (and possibly promotes) the
/// piece on the source square, records captures through the half-move clock,
/// and leaves turn and full-move bookkeeping to the driver.
///
/// A move whose source square is empty is a caller contract violation and is
/// excluded by precondition.
pub fn make_move(game_state: &mut GameState, mv: &Move)
    requires
        board_ok(old(game_state).board@),
        valid_square(mv.from as int),
        valid_square(mv.to as int),
        old(game_state).board@[mv.from as int] is Some,
        move_resets_clock(old(game_state).board@, *mv) || old(game_state).halfmove_clock
            < u32::MAX,
    ensures
        final(game_state).board@ == board_after(old(game_state).board@, *mv),
        final(game_state).halfmove_clock == if move_resets_clock(old(game_state).board@, *mv) {
            0u32
        } else {
            (old(game_state).halfmove_clock + 1) as u32
        },
        final(game_state).current_turn == old(game_state).current_turn,
        final(game_state).fullmove_number == old(game_state).fullmove_number,
{
    let board = &mut game_state.board;

    // Get the piece from the source square
    let mut piece = board[mv.from].unwrap();

    // Determine if the halfmove clock should be reset
    let mut reset_halfmove_clock = false;

    // Check if a pawn has moved
    if piece.piece_type == PieceType::Pawn {
        reset_halfmove_clock = true;
    }

    // Check if a capture has been made
    if board[mv.to].is_some() {
        reset_halfmove_clock = true;
    }

    // Handle pawn promotion
    if let Some(promotion_piece_type) = mv.promotion {
        piece.piece_type = promotion_piece_type;
        reset_halfmove_clock = true;
    }

    // Move the piece to the destination square, then clear the source square
    board.set(mv.to, Some(piece));
    board.set(mv.from, None);

    // Reset or increment the halfmove clock
    if reset_halfmove_clock {
        game_state.halfmove_clock = 0;
    } else {
        game_state.halfmove_clock = game_state.halfmove_clock + 1;
    }
}

// ---------------------------------------------------------------------------
// Legal-move filter
// ---------------------------------------------------------------------------

/// `m` is a legal move of color `c`: pseudo-legal, and applying it does not
/// leave `c`'s own king attacked.
pub open spec fn legal_move_ok(b: Seq<Option<Piece>>, c: Color, m: Move) -> bool {
    pseudo_move_ok(b, c, m) && !in_check(board_after(b, m), c)
}

/// Returns an independent deep copy of the board, so that mutating the copy
/// never affects the original.
fn copy_board(board: &Board) -> (copy: Board)
    ensures
        copy@ == board@,
{
    let mut copy: Board = Vec::new();
    let mut i: usize = 0;
    while i < board.len()
        invariant
            i <= board@.len(),
            copy@.len() == i,
            forall|j: int| 0 <= j < i ==> copy@[j] == board@[j],
        decreases board@.len() - i,
    {
        copy.push(board[i]);
        i = i + 1;
    }
    proof {
        assert(copy@ =~= board@);
    }
    copy
}

/// Every pseudo-legal move reaches a valid destination square.
proof fn lemma_pseudo_move_target_valid(b: Seq<Option<Piece>>, c: Color, m: Move)
    requires
        pseudo_move_ok(b, c, m),
    ensures
        valid_square(m.to as int),
{
}

/// All legal moves of the side to move: the pseudo-legal moves that, when
/// trial-applied to a duplicate of the position, do not leave the mover's
/// own king in check. Order follows the pseudo-move generator's order.
pub fn generate_legal_moves(game_state: &GameState) -> (moves: Vec<Move>)
    requires
        board_ok(game_state.board@),
        game_state.halfmove_clock < u32::MAX,
    ensures
        forall|m: Move| moves@.contains(m) <==> legal_move_ok(
            game_state.board@, game_state.current_turn, m),
        forall|i: int, j: int| 0 <= i <= j < moves@.len()
            ==> (#[trigger] moves@[i]).from <= (#[trigger] moves@[j]).from,
        moves@.no_duplicates(),
        moves@ == pseudo_moves_seq(game_state.board@, game_state.current_turn).filter(
            |m: Move| legal_move_ok(game_state.board@, game_state.current_turn, m)),
{
    let ghost b = game_state.board@;
    let color = game_state.current_turn;
    let ghost pred = |m: Move| legal_move_ok(game_state.board@, game_state.current_turn, m);
    let pseudo_moves = generate_all_pseudo_moves(&game_state.board, color);
    let mut legal_moves: Vec<Move> = Vec::new();
    proof {
        reveal(Seq::filter);
        assert(pseudo_moves@.take(0).filter(pred) =~= Seq::<Move>::empty());
    }

    let mut i: usize = 0;
    while i < pseudo_moves.len()
        invariant
            board_ok(b),
            b == game_state.board@,
            color == game_state.current_turn,
            game_state.halfmove_clock < u32::MAX,
            i <= pseudo_moves@.len(),
            forall|m: Move| pseudo_moves@.contains(m) <==> pseudo_move_ok(b, color, m),
            forall|p: int, q: int| 0 <= p <= q < pseudo_moves@.len()
                ==> (#[trigger] pseudo_moves@[p]).from <= (#[trigger] pseudo_moves@[q]).from,
            pseudo_moves@.no_duplicates(),
            legal_moves@.no_duplicates(),
            pred == (|m: Move| legal_move_ok(game_state.board@, game_state.current_turn, m)),
            pseudo_moves@ == pseudo_moves_seq(game_state.board@, game_state.current_turn),
            legal_moves@ == pseudo_moves@.take(i as int).filter(pred),
            forall|m: Move| #[trigger] legal_moves@.contains(m) <==> legal_move_ok(b, color, m)
                && exists|j: int| 0 <= j < i && pseudo_moves@[j] == m,
            forall|p: int, q: int| 0 <= p <= q < legal_moves@.len()
                ==> (#[trigger] legal_moves@[p]).from <= (#[trigger] legal_moves@[q]).from,
            legal_moves@.len() > 0 ==> i > 0 && forall|p: int| 0 <= p < legal_moves@.len()
                ==> (#[trigger] legal_moves@[p]).from <= pseudo_moves@[i - 1].from,
        decreases pseudo_moves@.len() - i,
    {
        let mv = pseudo_moves[i];
        proof {
            assert(pseudo_moves@.contains(mv));
            lemma_pseudo_move_target_valid(b, color, mv);
        }

        // Clone the position for simulation
        let mut trial = GameState {
            board: copy_board(&game_state.board),
            current_turn: game_state.current_turn,
            halfmove_clock: game_state.halfmove_clock,
            fullmove_number: game_state.fullmove_number,
        };
        make_move(&mut trial, &mv);

        // Keep the move only if it does not leave the player in check
        let ghost prev = legal_moves@;
        proof {
            reveal(Seq::filter);
            assert(pseudo_moves@.take(i + 1).drop_last() =~= pseudo_moves@.take(i as int));
            assert(pseudo_moves@.take(i + 1).last() == mv);
        }
        if !is_in_check(&trial.board, color) {
            proof {
                if legal_moves@.contains(mv) {
                    let j = choose|j: int| 0 <= j < i && pseudo_moves@[j] == mv;
                    assert(pseudo_moves@[j] == pseudo_moves@[i as int]);
                    assert(false);
                }
                lemma_push_keeps_no_duplicates(legal_moves@, mv);
            }
            legal_moves.push(mv);
        }
        proof {
            assert forall|m: Move|
                #[trigger] legal_moves@.contains(m) <==> legal_move_ok(b, color, m)
                    && exists|j: int| 0 <= j < i + 1 && pseudo_moves@[j] == m by {
                if legal_move_ok(b, color, m) {
                    if exists|j: int| 0 <= j < i + 1 && pseudo_moves@[j] == m {
                        let j = choose|j: int| 0 <= j < i + 1 && pseudo_moves@[j] == m;
                        if j == i {
                            assert(m == mv);
                            assert(legal_moves@.contains(m));
                        } else {
                            assert(prev.contains(m));
                        }
                    }
                }
                if legal_moves@.contains(m) && !prev.contains(m) {
                    assert(m == mv);
                    assert(pseudo_moves@[i as int] == m);
                }
            }
        }
        i = i + 1;
    }
    proof {
        assert(pseudo_moves@.take(pseudo_moves@.len() as int) =~= pseudo_moves@);
    }
    legal_moves
}

} // verus!
