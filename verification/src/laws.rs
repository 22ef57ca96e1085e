//! General laws of the rules core, stated and proved against the movement
//! model that the generators' contracts are written in.

use vstd::prelude::*;
use crate::board::{Piece, Color, board_ok};
use crate::move_generation::{
    Move, valid_square, rank_of, file_of, square_at, ray_square, ray_on_board, slide_reaches,
    slide_move_ok, pawn_dir, promotion_rank, pawn_move_ok, is_promo_type, has_color, opposite,
    is_king_of, king_square_from, in_check, board_after, pseudo_move_ok, legal_move_ok,
};

verus! {

proof fn lemma_no_king_from(b: Seq<Option<Piece>>, c: Color, i: int)
    requires
        forall|sq: int| 0 <= sq < 64 ==> !(#[trigger] is_king_of(b, c, sq)),
        0 <= i,
    ensures
        king_square_from(b, c, i) is None,
    decreases 64 - i,
{
    if i < 64 {
        lemma_no_king_from(b, c, i + 1);
    }
}

/// A board holding no king of the queried color is never in check.
pub proof fn lemma_no_king_no_check(b: Seq<Option<Piece>>, c: Color)
    requires
        forall|sq: int| 0 <= sq < 64 ==> !(#[trigger] is_king_of(b, c, sq)),
    ensures
        !in_check(b, c),
{
    lemma_no_king_from(b, c, 0);
}

/// A pawn whose forward square lies empty on the promotion rank is granted
/// exactly the four promotion variants of that push: a move with this source
/// and destination is admitted if and only if it carries one of the four
/// promotion piece types, so there is no unpromoted fifth variant.
pub proof fn lemma_pawn_promotion_variants(b: Seq<Option<Piece>>, pos: int, c: Color, m: Move)
    requires
        valid_square(pos),
        rank_of(pos) + pawn_dir(c) == promotion_rank(c),
        m.from == pos,
        m.to == square_at(rank_of(pos) + pawn_dir(c), file_of(pos)),
        b[m.to as int] is None,
    ensures
        pawn_move_ok(b, pos, c, m) <==> (m.promotion is Some && is_promo_type(m.promotion->0)),
{
}

/// Self-check exclusion: a pseudo-legal move that leaves the mover's own
/// king attacked is generated among the pseudo-legal moves but is not a
/// legal move.
pub proof fn lemma_self_check_excluded(b: Seq<Option<Piece>>, c: Color, m: Move)
    requires
        pseudo_move_ok(b, c, m),
        in_check(board_after(b, m), c),
    ensures
        pseudo_move_ok(b, c, m) && !legal_move_ok(b, c, m),
{
}

/// Sliding blocking: with the adjacent ray square empty and the square two
/// steps out occupied, a slider reaches at most those two squares; it lands
/// on the occupied one exactly when that piece is an opponent's, and never
/// goes beyond it.
pub proof fn lemma_sliding_blocked(b: Seq<Option<Piece>>, pos: int, c: Color, dr: int, df: int)
    requires
        board_ok(b),
        valid_square(pos),
        -1 <= dr <= 1,
        -1 <= df <= 1,
        !(dr == 0 && df == 0),
        ray_on_board(pos, dr, df, 2),
        b[ray_square(pos, dr, df, 1)] is None,
        b[ray_square(pos, dr, df, 2)] is Some,
    ensures
        forall|m: Move| #[trigger] slide_move_ok(b, pos, c, dr, df, m)
            ==> m.to == ray_square(pos, dr, df, 1) || m.to == ray_square(pos, dr, df, 2),
        forall|m: Move| #[trigger] slide_move_ok(b, pos, c, dr, df, m)
            && m.to == ray_square(pos, dr, df, 2)
            ==> has_color(b, ray_square(pos, dr, df, 2), opposite(c)),
        has_color(b, ray_square(pos, dr, df, 2), opposite(c)) ==> slide_move_ok(
            b, pos, c, dr, df,
            (Move {
                from: pos as usize,
                to: ray_square(pos, dr, df, 2) as usize,
                promotion: None,
            }),
        ),
{
    assert(ray_on_board(pos, dr, df, 1));
    assert forall|m: Move| #[trigger] slide_move_ok(b, pos, c, dr, df, m) implies (m.to
        == ray_square(pos, dr, df, 1) || m.to == ray_square(pos, dr, df, 2)) && (m.to
        == ray_square(pos, dr, df, 2) ==> has_color(
        b, ray_square(pos, dr, df, 2), opposite(c))) by {
        let k = choose|k: int| slide_reaches(b, pos, c, dr, df, k, m.to as int);
        if k >= 3 {
            assert(!(b[ray_square(pos, dr, df, 2)] is None));
            assert(false);
        }
        if m.to == ray_square(pos, dr, df, 2) {
            if k == 1 {
                assert(rank_of(pos) + 1 * dr == rank_of(pos) + 2 * dr
                    && file_of(pos) + 1 * df == file_of(pos) + 2 * df);
                assert(false);
            }
            assert(k == 2);
            assert(b[m.to as int] is Some && !has_color(b, m.to as int, c));
        }
    }
    if has_color(b, ray_square(pos, dr, df, 2), opposite(c)) {
        let mv = (Move {
            from: pos as usize,
            to: ray_square(pos, dr, df, 2) as usize,
            promotion: None,
        });
        assert(slide_reaches(b, pos, c, dr, df, 2, mv.to as int));
    }
}

} // verus!
