use chess_core::board::{initialize_board, render_board, Board, Color, Piece, PieceType};
use chess_core::gamestate::GameState;
use chess_core::move_generation::{
    generate_all_pseudo_moves, generate_king_moves, generate_knight_moves, generate_legal_moves,
    generate_pawn_moves, generate_piece_moves, generate_rook_moves, generate_sliding_moves,
    is_in_check, make_move, Move,
};

fn empty_board() -> Board {
    vec![None; 64]
}

fn put(board: &mut Board, square: usize, piece_type: PieceType, color: Color) {
    board[square] = Some(Piece { piece_type, color });
}

fn state_with(board: Board, turn: Color) -> GameState {
    GameState { board, current_turn: turn, halfmove_clock: 0, fullmove_number: 1 }
}

#[test]
fn initial_position_has_twenty_pseudo_moves() {
    let gs = GameState::new();
    let pseudo = generate_all_pseudo_moves(&gs.board, Color::White);
    assert_eq!(pseudo.len(), 20);
}

#[test]
fn initial_position_has_twenty_legal_moves() {
    let gs = GameState::new();
    let legal = generate_legal_moves(&gs);
    assert_eq!(legal.len(), 20);
}

#[test]
fn empty_board_yields_no_moves_anywhere() {
    let board = empty_board();
    for square in 0..64 {
        assert!(generate_piece_moves(&board, square).is_empty());
    }
}

#[test]
fn no_king_on_board_is_not_check() {
    let board = empty_board();
    assert!(!is_in_check(&board, Color::White));
    assert!(!is_in_check(&board, Color::Black));

    // Pieces present, but no white king
    let mut board = empty_board();
    put(&mut board, 0, PieceType::Rook, Color::Black);
    put(&mut board, 60, PieceType::King, Color::Black);
    assert!(!is_in_check(&board, Color::White));
}

#[test]
fn quiet_move_increments_halfmove_clock() {
    let mut gs = GameState::new();
    gs.halfmove_clock = 5;
    // Knight b1 to c3: not a pawn move, not a capture
    make_move(&mut gs, &Move { from: 1, to: 18, promotion: None });
    assert_eq!(gs.halfmove_clock, 6);
}

#[test]
fn pawn_move_resets_halfmove_clock() {
    let mut gs = GameState::new();
    gs.halfmove_clock = 5;
    // Pawn e2 to e4
    make_move(&mut gs, &Move { from: 12, to: 28, promotion: None });
    assert_eq!(gs.halfmove_clock, 0);
}

#[test]
fn capture_resets_halfmove_clock() {
    let mut board = empty_board();
    put(&mut board, 0, PieceType::Rook, Color::White);
    put(&mut board, 56, PieceType::Rook, Color::Black);
    let mut gs = state_with(board, Color::White);
    gs.halfmove_clock = 7;
    make_move(&mut gs, &Move { from: 0, to: 56, promotion: None });
    assert_eq!(gs.halfmove_clock, 0);
    assert_eq!(
        gs.board[56],
        Some(Piece { piece_type: PieceType::Rook, color: Color::White })
    );
    assert_eq!(gs.board[0], None);
}

#[test]
fn promotion_resets_halfmove_clock_and_replaces_piece() {
    let mut board = empty_board();
    put(&mut board, 48, PieceType::Pawn, Color::White);
    let mut gs = state_with(board, Color::White);
    gs.halfmove_clock = 3;
    make_move(&mut gs, &Move { from: 48, to: 56, promotion: Some(PieceType::Queen) });
    assert_eq!(gs.halfmove_clock, 0);
    assert_eq!(
        gs.board[56],
        Some(Piece { piece_type: PieceType::Queen, color: Color::White })
    );
    assert_eq!(gs.board[48], None);
}

#[test]
fn promotion_push_emits_exactly_four_variants() {
    let mut board = empty_board();
    // White pawn one step from the far rank
    put(&mut board, 48, PieceType::Pawn, Color::White);
    let moves = generate_pawn_moves(&board, 48, Color::White);
    // Exactly the four promotion variants, in Queen, Rook, Bishop, Knight
    // order, and no promotion-free fifth
    assert_eq!(
        moves,
        vec![
            Move { from: 48, to: 56, promotion: Some(PieceType::Queen) },
            Move { from: 48, to: 56, promotion: Some(PieceType::Rook) },
            Move { from: 48, to: 56, promotion: Some(PieceType::Bishop) },
            Move { from: 48, to: 56, promotion: Some(PieceType::Knight) },
        ]
    );
}

#[test]
fn black_promotion_on_rank_zero() {
    let mut board = empty_board();
    put(&mut board, 8, PieceType::Pawn, Color::Black);
    let moves = generate_pawn_moves(&board, 8, Color::Black);
    assert_eq!(moves.len(), 4);
    for mv in &moves {
        assert_eq!(mv.from, 8);
        assert_eq!(mv.to, 0);
        assert!(mv.promotion.is_some());
    }
}

#[test]
fn double_push_only_from_home_rank_with_clear_path() {
    let mut board = empty_board();
    put(&mut board, 12, PieceType::Pawn, Color::White);
    let moves = generate_pawn_moves(&board, 12, Color::White);
    assert!(moves.contains(&Move { from: 12, to: 20, promotion: None }));
    assert!(moves.contains(&Move { from: 12, to: 28, promotion: None }));
    assert_eq!(moves.len(), 2);

    // A blocker on the single-push square stops both pushes
    put(&mut board, 20, PieceType::Knight, Color::Black);
    let moves = generate_pawn_moves(&board, 12, Color::White);
    assert!(moves.is_empty());

    // A blocker on the double-push square stops only the double push
    let mut board = empty_board();
    put(&mut board, 12, PieceType::Pawn, Color::White);
    put(&mut board, 28, PieceType::Knight, Color::Black);
    let moves = generate_pawn_moves(&board, 12, Color::White);
    assert_eq!(moves, vec![Move { from: 12, to: 20, promotion: None }]);
}

#[test]
fn pawn_captures_diagonally_only_opponents() {
    let mut board = empty_board();
    put(&mut board, 28, PieceType::Pawn, Color::White);
    put(&mut board, 35, PieceType::Pawn, Color::Black);
    put(&mut board, 37, PieceType::Pawn, Color::White);
    let moves = generate_pawn_moves(&board, 28, Color::White);
    assert!(moves.contains(&Move { from: 28, to: 36, promotion: None }));
    assert!(moves.contains(&Move { from: 28, to: 35, promotion: None }));
    assert!(!moves.contains(&Move { from: 28, to: 37, promotion: None }));
    assert_eq!(moves.len(), 2);
}

#[test]
fn knight_in_corner_has_two_moves() {
    let mut board = empty_board();
    put(&mut board, 0, PieceType::Knight, Color::White);
    let moves = generate_knight_moves(&board, 0, Color::White);
    // Offset-table order: (1,2) before (2,1)
    assert_eq!(
        moves,
        vec![
            Move { from: 0, to: 10, promotion: None },
            Move { from: 0, to: 17, promotion: None },
        ]
    );
}

#[test]
fn king_never_steps_onto_own_piece() {
    let mut board = empty_board();
    put(&mut board, 4, PieceType::King, Color::White);
    put(&mut board, 5, PieceType::Rook, Color::White);
    let moves = generate_king_moves(&board, 4, Color::White);
    assert_eq!(moves.len(), 4);
    for mv in &moves {
        assert_ne!(mv.to, 5);
    }
}

#[test]
fn rook_blocked_by_own_piece_two_squares_out() {
    let mut board = empty_board();
    put(&mut board, 0, PieceType::Rook, Color::White);
    put(&mut board, 16, PieceType::Pawn, Color::White);
    let moves = generate_rook_moves(&board, 0, Color::White);
    let file_targets: Vec<usize> =
        moves.iter().map(|m| m.to).filter(|t| t % 8 == 0).collect();
    // Only the square before the blocker, nothing on or beyond it
    assert_eq!(file_targets, vec![8]);
}

#[test]
fn rook_captures_opponent_blocker_but_not_beyond() {
    let mut board = empty_board();
    put(&mut board, 0, PieceType::Rook, Color::White);
    put(&mut board, 16, PieceType::Pawn, Color::Black);
    let moves = generate_rook_moves(&board, 0, Color::White);
    let mut file_targets: Vec<usize> =
        moves.iter().map(|m| m.to).filter(|t| t % 8 == 0).collect();
    file_targets.sort();
    // Up to and including the opponent's square, nothing beyond
    assert_eq!(file_targets, vec![8, 16]);
}

#[test]
fn pinned_rook_moves_are_pseudo_legal_but_not_legal() {
    let mut board = empty_board();
    put(&mut board, 4, PieceType::King, Color::White);
    put(&mut board, 12, PieceType::Rook, Color::White);
    put(&mut board, 60, PieceType::Rook, Color::Black);
    let gs = state_with(board, Color::White);

    let sideways = Move { from: 12, to: 11, promotion: None };
    let pseudo = generate_all_pseudo_moves(&gs.board, Color::White);
    assert!(pseudo.contains(&sideways));

    let legal = generate_legal_moves(&gs);
    assert!(!legal.contains(&sideways));
    // Sliding along the pin file stays legal
    assert!(legal.contains(&Move { from: 12, to: 20, promotion: None }));
}

#[test]
fn king_on_rook_file_is_in_check_and_must_address_it() {
    let mut board = empty_board();
    put(&mut board, 4, PieceType::King, Color::White);
    put(&mut board, 60, PieceType::Rook, Color::Black);
    assert!(is_in_check(&board, Color::White));
    assert!(!is_in_check(&board, Color::Black));

    let gs = state_with(board, Color::White);
    let legal = generate_legal_moves(&gs);
    // The lone king cannot capture or interpose: every legal move leaves
    // the attacked file, in king-offset order
    assert_eq!(
        legal,
        vec![
            Move { from: 4, to: 3, promotion: None },
            Move { from: 4, to: 5, promotion: None },
            Move { from: 4, to: 11, promotion: None },
            Move { from: 4, to: 13, promotion: None },
        ]
    );
    for mv in &legal {
        assert_ne!(mv.to % 8, 4);
    }
}

#[test]
fn blocked_check_is_not_check() {
    let mut board = empty_board();
    put(&mut board, 4, PieceType::King, Color::White);
    put(&mut board, 60, PieceType::Rook, Color::Black);
    put(&mut board, 28, PieceType::Pawn, Color::Black);
    assert!(!is_in_check(&board, Color::White));
}

#[test]
fn legal_moves_equal_pseudo_moves_at_start() {
    // From the standard start no move exposes the king, so the filter keeps
    // every pseudo-legal move, in the same order
    let gs = GameState::new();
    let pseudo = generate_all_pseudo_moves(&gs.board, gs.current_turn);
    let legal = generate_legal_moves(&gs);
    assert_eq!(legal, pseudo);
}

#[test]
fn initial_board_matches_standard_placement() {
    let board = initialize_board();
    assert_eq!(
        board[0],
        Some(Piece { piece_type: PieceType::Rook, color: Color::White })
    );
    assert_eq!(
        board[4],
        Some(Piece { piece_type: PieceType::King, color: Color::White })
    );
    for file in 0..8 {
        assert_eq!(
            board[8 + file],
            Some(Piece { piece_type: PieceType::Pawn, color: Color::White })
        );
        assert_eq!(
            board[48 + file],
            Some(Piece { piece_type: PieceType::Pawn, color: Color::Black })
        );
    }
    assert_eq!(
        board[59],
        Some(Piece { piece_type: PieceType::Queen, color: Color::Black })
    );
    for square in 16..48 {
        assert_eq!(board[square], None);
    }
}

#[test]
fn new_game_state_starts_with_white() {
    let gs = GameState::new();
    assert_eq!(gs.current_turn, Color::White);
    assert_eq!(gs.halfmove_clock, 0);
    assert_eq!(gs.fullmove_number, 1);
}

#[test]
fn sliding_moves_with_rook_directions_match_rook_moves() {
    let mut board = empty_board();
    put(&mut board, 27, PieceType::Rook, Color::White);
    put(&mut board, 24, PieceType::Pawn, Color::Black);
    put(&mut board, 59, PieceType::Knight, Color::White);
    let straight: [(isize, isize); 4] = [(-1, 0), (1, 0), (0, -1), (0, 1)];
    let from_slider = generate_sliding_moves(&board, 27, Color::White, &straight);
    let from_rook = generate_rook_moves(&board, 27, Color::White);
    assert_eq!(from_slider, from_rook);
    // Down to rank 0, up to just below the own knight, left up to the
    // capture, right to the edge
    assert_eq!(from_slider.len(), 3 + 3 + 3 + 4);
}

#[test]
fn render_board_shows_initial_position() {
    let board = initialize_board();
    let text = render_board(&board);
    let expected = "r n b q k b n r \n\
                    p p p p p p p p \n\
                    . . . . . . . . \n\
                    . . . . . . . . \n\
                    . . . . . . . . \n\
                    . . . . . . . . \n\
                    P P P P P P P P \n\
                    R N B Q K B N R \n";
    assert_eq!(text, expected);
}

#[test]
fn queen_moves_are_bishop_then_rook_moves() {
    let mut board = empty_board();
    put(&mut board, 27, PieceType::Queen, Color::White);
    put(&mut board, 36, PieceType::Pawn, Color::Black);
    put(&mut board, 24, PieceType::Pawn, Color::White);
    let queen = chess_core::move_generation::generate_queen_moves(&board, 27, Color::White);
    let bishop = chess_core::move_generation::generate_bishop_moves(&board, 27, Color::White);
    let rook = generate_rook_moves(&board, 27, Color::White);
    let mut concatenated = bishop.clone();
    concatenated.extend(rook.iter().cloned());
    assert_eq!(queen, concatenated);
}

#[test]
fn all_pseudo_moves_concatenate_squares_in_ascending_order() {
    let mut board = empty_board();
    put(&mut board, 0, PieceType::Rook, Color::White);
    put(&mut board, 9, PieceType::Knight, Color::White);
    put(&mut board, 63, PieceType::King, Color::Black);
    let all = generate_all_pseudo_moves(&board, Color::White);
    let mut expected = generate_piece_moves(&board, 0);
    expected.extend(generate_piece_moves(&board, 9).iter().cloned());
    assert_eq!(all, expected);
}

#[test]
fn sliding_moves_walk_each_direction_nearest_first() {
    let mut board = empty_board();
    put(&mut board, 0, PieceType::Rook, Color::White);
    let moves = generate_rook_moves(&board, 0, Color::White);
    // Direction table (-1,0),(1,0),(0,-1),(0,1): from the corner only up
    // the file then right along the rank, nearest squares first
    let expected: Vec<Move> = [8, 16, 24, 32, 40, 48, 56, 1, 2, 3, 4, 5, 6, 7]
        .iter()
        .map(|&to| Move { from: 0, to, promotion: None })
        .collect();
    assert_eq!(moves, expected);
}
