use chess_engine::board::{Board, MoveError};
use chess_engine::network::{apply_move_event, encode_index, encode_piece, MoveEvent};
use chess_engine::game::{format_input, CastlingSide, Game};
use chess_engine::piece::{Color, Piece, PieceType};

fn empty_game(to_move: Color) -> Game {
    Game { board: Board::new(), curr_player: to_move, promotable: None }
}

fn put(board: &mut Board, x: usize, y: usize, kind: PieceType, color: Color) {
    board.set_piece(x, y, Some(Piece::new(kind, color)));
}

fn sorted(mut v: Vec<(usize, usize)>) -> Vec<(usize, usize)> {
    v.sort();
    v.dedup();
    v
}

fn snapshot(board: &Board) -> Vec<Option<Piece>> {
    let mut out = Vec::new();
    for i in 0..8 {
        for j in 0..8 {
            out.push(board.piece_at(i, j));
        }
    }
    out
}

#[test]
fn starting_position_is_set_up() {
    let game = Game::new();
    let b = &game.board;
    assert_eq!(b.piece_at(4, 0), Some(Piece::new(PieceType::King, Color::White)));
    assert_eq!(b.piece_at(3, 7), Some(Piece::new(PieceType::Queen, Color::Black)));
    assert_eq!(b.piece_at(0, 0), Some(Piece::new(PieceType::Rook, Color::White)));
    assert_eq!(b.piece_at(6, 7), Some(Piece::new(PieceType::Knight, Color::Black)));
    assert_eq!(b.piece_at(2, 0), Some(Piece::new(PieceType::Bishop, Color::White)));
    assert_eq!(b.piece_at(5, 1), Some(Piece::new(PieceType::Pawn, Color::White)));
    assert_eq!(b.piece_at(5, 6), Some(Piece::new(PieceType::Pawn, Color::Black)));
    assert_eq!(b.piece_at(4, 4), None);
    assert!(b.history.is_empty());
    assert_eq!(game.curr_player, Color::White);
    assert_eq!(game.promotable, None);
}

#[test]
fn white_has_twenty_opening_moves() {
    let game = Game::new();
    let mut total = 0;
    for i in 0..8 {
        for j in 0..2 {
            total += sorted(game.get_available_moves((i, j))).len();
        }
    }
    assert_eq!(total, 20);
    assert_eq!(sorted(game.get_available_moves((1, 0))), vec![(0, 2), (2, 2)]);
    assert_eq!(sorted(game.get_available_moves((4, 1))), vec![(4, 2), (4, 3)]);
    assert!(game.get_available_moves((4, 4)).is_empty());
}

#[test]
fn generated_destinations_stay_on_the_board() {
    let game = Game::new();
    let kinds = [
        PieceType::Bishop,
        PieceType::King,
        PieceType::Knight,
        PieceType::Pawn,
        PieceType::Queen,
        PieceType::Rook,
    ];
    for kind in kinds {
        for color in [Color::White, Color::Black] {
            let piece = Piece::new(kind, color);
            for i in 0..8 {
                for j in 0..8 {
                    for (x, y) in piece.available_moves((i, j), &game.board) {
                        assert!(x < 8 && y < 8);
                    }
                }
            }
        }
    }
}

#[test]
fn rook_ray_stops_at_first_piece() {
    let mut board = Board::new();
    put(&mut board, 0, 0, PieceType::Rook, Color::White);
    put(&mut board, 0, 3, PieceType::Pawn, Color::White);
    put(&mut board, 3, 0, PieceType::Knight, Color::Black);
    let rook = Piece::new(PieceType::Rook, Color::White);
    let moves = sorted(rook.move_rook((0, 0), &board));
    assert_eq!(moves, vec![(0, 1), (0, 2), (1, 0), (2, 0), (3, 0)]);
}

#[test]
fn bishop_and_queen_rays() {
    let mut board = Board::new();
    put(&mut board, 2, 2, PieceType::Bishop, Color::Black);
    put(&mut board, 4, 4, PieceType::Pawn, Color::White);
    put(&mut board, 0, 0, PieceType::Pawn, Color::Black);
    let bishop = Piece::new(PieceType::Bishop, Color::Black);
    let moves = sorted(bishop.move_bishop((2, 2), &board));
    assert_eq!(moves, vec![(0, 4), (1, 1), (1, 3), (3, 1), (3, 3), (4, 0), (4, 4)]);
    let queen = Piece::new(PieceType::Queen, Color::White);
    assert_eq!(queen.move_queen((7, 7), &Board::new()).len(), 21);
}

#[test]
fn knight_and_king_steps() {
    let board = Board::new();
    let knight = Piece::new(PieceType::Knight, Color::White);
    assert_eq!(sorted(knight.move_knight((0, 0), &board)), vec![(1, 2), (2, 1)]);
    let king = Piece::new(PieceType::King, Color::Black);
    assert_eq!(king.move_king((4, 4), &board).len(), 8);
    assert_eq!(sorted(king.move_king((0, 0), &board)), vec![(0, 1), (1, 0), (1, 1)]);
}

#[test]
fn pawn_captures_only_diagonally() {
    let mut board = Board::new();
    put(&mut board, 3, 3, PieceType::Pawn, Color::White);
    put(&mut board, 3, 4, PieceType::Pawn, Color::Black);
    put(&mut board, 4, 4, PieceType::Rook, Color::Black);
    put(&mut board, 2, 4, PieceType::Rook, Color::White);
    let pawn = Piece::new(PieceType::Pawn, Color::White);
    assert_eq!(sorted(pawn.move_pawn((3, 3), &board)), vec![(4, 4)]);
    let black = Piece::new(PieceType::Pawn, Color::Black);
    assert_eq!(sorted(black.move_pawn((3, 6), &Board::new())), vec![(3, 4), (3, 5)]);
}

#[test]
fn pinned_piece_cannot_move() {
    let mut game = empty_game(Color::White);
    put(&mut game.board, 4, 0, PieceType::King, Color::White);
    put(&mut game.board, 4, 1, PieceType::Bishop, Color::White);
    put(&mut game.board, 4, 7, PieceType::Rook, Color::Black);
    put(&mut game.board, 0, 7, PieceType::King, Color::Black);
    assert!(game.get_available_moves((4, 1)).is_empty());
    assert!(!game.move_piece((4, 1), (5, 2)));
    assert!(!game.board.is_king_attacked(Color::White));
}

#[test]
fn king_does_not_step_into_attack() {
    let mut game = empty_game(Color::White);
    put(&mut game.board, 4, 1, PieceType::King, Color::White);
    put(&mut game.board, 3, 7, PieceType::Rook, Color::Black);
    put(&mut game.board, 7, 7, PieceType::King, Color::Black);
    let moves = sorted(game.get_available_moves((4, 1)));
    assert_eq!(moves, vec![(4, 0), (4, 2), (5, 0), (5, 1), (5, 2)]);
    for to in moves {
        let mut g = Game { board: game.board.duplicate(), curr_player: Color::White, promotable: None };
        assert!(g.move_piece((4, 1), to));
        assert!(!g.board.is_king_attacked(Color::White));
    }
}

#[test]
fn king_cannot_retreat_along_checking_ray() {
    let mut game = empty_game(Color::White);
    put(&mut game.board, 4, 3, PieceType::King, Color::White);
    put(&mut game.board, 0, 3, PieceType::Rook, Color::Black);
    put(&mut game.board, 7, 7, PieceType::King, Color::Black);
    let moves = game.get_available_moves((4, 3));
    assert!(!moves.contains(&(5, 3)));
    assert!(moves.contains(&(4, 4)));
}

fn castling_board() -> Board {
    let mut board = Board::new();
    put(&mut board, 4, 0, PieceType::King, Color::White);
    put(&mut board, 0, 0, PieceType::Rook, Color::White);
    put(&mut board, 7, 0, PieceType::Rook, Color::White);
    put(&mut board, 4, 7, PieceType::King, Color::Black);
    board
}

#[test]
fn castling_open_with_clear_path() {
    let board = castling_board();
    assert_eq!(board.castling(Color::White), (true, true));
    let king = Piece::new(PieceType::King, Color::White);
    let moves = sorted(board.filter_available_moves((4, 0), king));
    assert!(moves.contains(&(6, 0)));
    assert!(moves.contains(&(2, 0)));
}

#[test]
fn castling_closed_when_path_occupied_or_attacked() {
    let mut board = castling_board();
    put(&mut board, 1, 0, PieceType::Knight, Color::White);
    assert_eq!(board.castling(Color::White), (true, false));
    let mut board = castling_board();
    put(&mut board, 5, 5, PieceType::Rook, Color::Black);
    assert_eq!(board.castling(Color::White), (false, true));
}

#[test]
fn castling_closed_when_in_check_or_king_moved() {
    let mut board = castling_board();
    put(&mut board, 4, 5, PieceType::Rook, Color::Black);
    assert!(board.is_king_attacked(Color::White));
    assert_eq!(board.castling(Color::White), (false, false));
    let mut board = castling_board();
    board.history.push((4, 0));
    assert_eq!(board.castling(Color::White), (false, false));
}

#[test]
fn castling_kingside_moves_both_pieces() {
    let mut game = empty_game(Color::White);
    game.board = castling_board();
    assert!(game.castle(CastlingSide::KingSide));
    assert_eq!(game.board.piece_at(6, 0), Some(Piece::new(PieceType::King, Color::White)));
    assert_eq!(game.board.piece_at(5, 0), Some(Piece::new(PieceType::Rook, Color::White)));
    assert_eq!(game.board.piece_at(4, 0), None);
    assert_eq!(game.board.piece_at(7, 0), None);
    assert_eq!(game.curr_player, Color::Black);
}

#[test]
fn castling_queenside_by_rook_move() {
    let mut board = castling_board();
    assert!(board.move_piece((0, 0), (3, 0), Color::White));
    assert_eq!(board.piece_at(2, 0), Some(Piece::new(PieceType::King, Color::White)));
    assert_eq!(board.piece_at(3, 0), Some(Piece::new(PieceType::Rook, Color::White)));
    assert_eq!(board.piece_at(4, 0), None);
    assert_eq!(board.piece_at(0, 0), None);
}

#[test]
fn en_passant_right_after_double_step() {
    let mut game = Game::new();
    assert!(game.move_piece((4, 1), (4, 3)));
    assert!(game.move_piece((0, 6), (0, 5)));
    assert!(game.move_piece((4, 3), (4, 4)));
    assert!(game.move_piece((3, 6), (3, 4)));
    assert!(game.get_available_moves((4, 4)).contains(&(3, 5)));
    assert!(game.move_piece((4, 4), (3, 5)));
    assert_eq!(game.board.piece_at(3, 4), None);
    assert_eq!(game.board.piece_at(3, 5), Some(Piece::new(PieceType::Pawn, Color::White)));
    assert_eq!(game.board.piece_at(4, 4), None);
}

#[test]
fn en_passant_expires_after_one_move() {
    let mut game = Game::new();
    assert!(game.move_piece((4, 1), (4, 3)));
    assert!(game.move_piece((0, 6), (0, 5)));
    assert!(game.move_piece((4, 3), (4, 4)));
    assert!(game.move_piece((3, 6), (3, 4)));
    assert!(game.move_piece((7, 1), (7, 2)));
    assert!(game.move_piece((0, 5), (0, 4)));
    assert!(!game.get_available_moves((4, 4)).contains(&(3, 5)));
    assert!(!game.move_piece((4, 4), (3, 5)));
}

#[test]
fn single_step_onto_fifth_rank_gives_no_en_passant() {
    let mut game = Game::new();
    assert!(game.move_piece((4, 1), (4, 3)));
    assert!(game.move_piece((3, 6), (3, 5)));
    assert!(game.move_piece((4, 3), (4, 4)));
    assert!(game.move_piece((3, 5), (3, 4)));
    assert!(!game.get_available_moves((4, 4)).contains(&(3, 5)));
}

#[test]
fn promotion_waits_for_choice() {
    let mut game = empty_game(Color::White);
    put(&mut game.board, 0, 6, PieceType::Pawn, Color::White);
    put(&mut game.board, 4, 0, PieceType::King, Color::White);
    put(&mut game.board, 7, 4, PieceType::King, Color::Black);
    assert!(game.move_piece((0, 6), (0, 7)));
    assert_eq!(game.promotable, Some((0, 7)));
    assert_eq!(game.curr_player, Color::White);
    assert!(!game.move_piece((7, 4), (7, 5)));
    assert!(!game.move_piece((4, 0), (4, 1)));
    assert!(game.promote(PieceType::Queen));
    assert_eq!(game.board.piece_at(0, 7), Some(Piece::new(PieceType::Queen, Color::White)));
    assert_eq!(game.promotable, None);
    assert_eq!(game.curr_player, Color::Black);
    assert!(game.move_piece((7, 4), (7, 5)));
}

#[test]
fn promote_without_pending_pawn_is_refused() {
    let mut game = Game::new();
    assert!(!game.promote(PieceType::Queen));
    assert_eq!(game.curr_player, Color::White);
    assert_eq!(game.board.piece_at(3, 0), Some(Piece::new(PieceType::Queen, Color::White)));
}

#[test]
fn back_rank_mate_is_checkmate() {
    let mut game = empty_game(Color::White);
    put(&mut game.board, 6, 0, PieceType::King, Color::White);
    put(&mut game.board, 5, 1, PieceType::Pawn, Color::White);
    put(&mut game.board, 6, 1, PieceType::Pawn, Color::White);
    put(&mut game.board, 7, 1, PieceType::Pawn, Color::White);
    put(&mut game.board, 0, 0, PieceType::Rook, Color::Black);
    put(&mut game.board, 0, 7, PieceType::King, Color::Black);
    assert!(game.board.is_king_attacked(Color::White));
    for (x, y) in [(6, 0), (5, 1), (6, 1), (7, 1)] {
        assert!(game.get_available_moves((x, y)).is_empty());
    }
    assert_eq!(game.check_for_win(), (true, false));
}

#[test]
fn check_that_can_be_blocked_is_not_mate() {
    let mut game = Game::new();
    assert!(game.move_piece((4, 1), (4, 3)));
    assert!(game.move_piece((4, 6), (4, 4)));
    assert!(game.move_piece((3, 1), (3, 2)));
    assert!(game.move_piece((5, 7), (1, 3)));
    assert!(game.board.is_king_attacked(Color::White));
    assert_eq!(game.check_for_win(), (false, false));
}

#[test]
fn cornered_king_is_stalemated() {
    let mut game = empty_game(Color::Black);
    put(&mut game.board, 7, 7, PieceType::King, Color::Black);
    put(&mut game.board, 6, 5, PieceType::Queen, Color::White);
    put(&mut game.board, 0, 0, PieceType::King, Color::White);
    assert!(!game.board.is_king_attacked(Color::Black));
    assert!(game.get_available_moves((7, 7)).is_empty());
    assert_eq!(game.check_for_win(), (false, true));
    assert_eq!(game.board.check_for_winner(Color::White), (false, false));
}

#[test]
fn starting_position_is_neither_mate_nor_stalemate() {
    let game = Game::new();
    assert_eq!(game.check_for_win(), (false, false));
}

#[test]
fn rejected_move_leaves_board_unchanged_twice() {
    let mut game = Game::new();
    let before = snapshot(&game.board);
    assert!(!game.move_piece((4, 1), (4, 4)));
    let once = snapshot(&game.board);
    assert!(!game.move_piece((4, 1), (4, 4)));
    let twice = snapshot(&game.board);
    assert_eq!(before, once);
    assert_eq!(once, twice);
    assert!(game.board.history.is_empty());
    assert_eq!(game.curr_player, Color::White);
}

#[test]
fn moving_the_other_sides_piece_is_refused() {
    let mut game = Game::new();
    assert!(!game.move_piece((4, 6), (4, 4)));
    assert_eq!(game.board.piece_at(4, 6), Some(Piece::new(PieceType::Pawn, Color::Black)));
    assert!(!game.board.move_piece((4, 1), (4, 3), Color::Black));
}

#[test]
fn moved_piece_keeps_kind_and_side() {
    let mut game = Game::new();
    assert!(game.move_piece((6, 0), (5, 2)));
    assert_eq!(game.board.piece_at(5, 2), Some(Piece::new(PieceType::Knight, Color::White)));
    assert_eq!(game.board.piece_at(6, 0), None);
    assert_eq!(game.board.history, vec![(5, 2)]);
    assert_eq!(game.curr_player, Color::Black);
}

#[test]
fn find_piece_locates_kings() {
    let game = Game::new();
    assert_eq!(game.board.find_piece(PieceType::King, Color::White), Some((4, 0)));
    assert_eq!(game.board.find_piece(PieceType::Rook, Color::Black), Some((7, 7)));
    assert_eq!(Board::new().find_piece(PieceType::King, Color::White), None);
}

#[test]
fn blocked_by_team_and_enemy() {
    let game = Game::new();
    assert!(game.board.blocked_by_team((0, 0), Color::White));
    assert!(!game.board.blocked_by_enemy((0, 0), Color::White));
    assert!(game.board.blocked_by_enemy((0, 7), Color::White));
    assert!(!game.board.blocked_by_team((3, 3), Color::White));
    assert!(!game.board.blocked_by_enemy((3, 3), Color::White));
}

#[test]
fn square_attack_queries() {
    let game = Game::new();
    assert!(game.board.is_square_attacked((5, 5), Color::White));
    assert!(game.board.is_square_attacked((4, 2), Color::Black));
    assert!(!game.board.is_square_attacked((4, 3), Color::White));
    assert!(game.board.is_square_attacked((4, 4), Color::White));
}

#[test]
fn promotion_helper_moves_piece() {
    let mut board = Board::new();
    let queen = Piece::new(PieceType::Queen, Color::Black);
    board.promotion((1, 1), (1, 0), queen);
    assert_eq!(board.piece_at(1, 0), Some(queen));
    assert_eq!(board.piece_at(1, 1), None);
}

#[test]
fn format_input_reads_squares() {
    assert_eq!(format_input(('n', 'g', Some(1))), Some((6, 0, PieceType::Knight)));
    assert_eq!(format_input((' ', 'e', Some(4))), Some((4, 3, PieceType::Pawn)));
    assert_eq!(format_input(('k', 'h', Some(8))), Some((7, 7, PieceType::King)));
    assert_eq!(format_input(('q', 'z', Some(4))), None);
    assert_eq!(format_input(('q', 'a', None)), None);
    assert_eq!(format_input(('q', 'a', Some(0))), None);
    assert_eq!(format_input(('q', 'a', Some(9))), None);
}

#[test]
fn other_color() {
    assert_eq!(Color::White.other(), Color::Black);
    assert_eq!(Color::Black.other(), Color::White);
}

#[test]
fn check_board_lists_moves_or_says_why_not() {
    let game = Game::new();
    let moves = game.board.check_board(('n', 'g', Some(1)), Color::White).unwrap();
    assert_eq!(sorted(moves), vec![(5, 2), (7, 2)]);
    assert_eq!(game.board.check_board(('q', 'g', Some(1)), Color::White), Err(MoveError::OriginMismatch));
    assert_eq!(game.board.check_board(('n', 'g', Some(1)), Color::Black), Err(MoveError::OriginMismatch));
    assert_eq!(game.board.check_board(('n', 'e', Some(4)), Color::White), Err(MoveError::OriginMismatch));
    assert_eq!(game.board.check_board(('n', 'x', Some(1)), Color::White), Err(MoveError::OriginMismatch));
    assert_eq!(game.board.check_board(('k', 'e', Some(1)), Color::White), Err(MoveError::InvalidMove));
}

#[test]
fn update_board_plays_or_refuses() {
    let mut board = Game::new().board;
    assert_eq!(board.update_board((' ', 'e', Some(2)), (' ', 'e', Some(4)), Color::White), Ok(()));
    assert_eq!(board.piece_at(4, 3), Some(Piece::new(PieceType::Pawn, Color::White)));
    let before = snapshot(&board);
    assert_eq!(
        board.update_board(('b', 'f', Some(1)), (' ', 'f', Some(3)), Color::White),
        Err(MoveError::InvalidMove)
    );
    assert_eq!(
        board.update_board(('r', 'f', Some(1)), (' ', 'c', Some(4)), Color::White),
        Err(MoveError::OriginMismatch)
    );
    assert_eq!(
        board.update_board(('b', 'f', Some(1)), (' ', 'c', Some(9)), Color::White),
        Err(MoveError::InvalidMove)
    );
    assert_eq!(before, snapshot(&board));
    assert_eq!(board.update_board(('b', 'f', Some(1)), (' ', 'c', Some(4)), Color::White), Ok(()));
    assert_eq!(board.piece_at(2, 3), Some(Piece::new(PieceType::Bishop, Color::White)));
}

#[test]
fn castle_refused_when_path_blocked() {
    let mut game = Game::new();
    assert!(!game.castle(CastlingSide::KingSide));
    assert!(!game.castle(CastlingSide::QueenSide));
    assert_eq!(game.curr_player, Color::White);
    assert!(game.board.history.is_empty());
}

#[test]
fn moves_from_peer_are_applied_or_refused() {
    let mut game = Game::new();
    assert!(apply_move_event(&mut game, MoveEvent::Standard(encode_index((4, 1)), encode_index((4, 3)))));
    assert_eq!(game.board.piece_at(4, 3), Some(Piece::new(PieceType::Pawn, Color::White)));
    assert_eq!(game.curr_player, Color::Black);
    assert!(!apply_move_event(&mut game, MoveEvent::Standard(encode_index((4, 1)), encode_index((4, 2)))));
    assert!(!apply_move_event(&mut game, MoveEvent::Standard(64, 0)));
    assert!(!apply_move_event(&mut game, MoveEvent::KingsideCastle));
    assert!(!apply_move_event(&mut game, MoveEvent::Other));
    assert_eq!(game.curr_player, Color::Black);
}

#[test]
fn promotion_from_peer() {
    let mut game = empty_game(Color::Black);
    put(&mut game.board, 2, 1, PieceType::Pawn, Color::Black);
    put(&mut game.board, 7, 7, PieceType::King, Color::Black);
    put(&mut game.board, 7, 3, PieceType::King, Color::White);
    let from = encode_index((2, 1));
    let to = encode_index((2, 0));
    assert!(!apply_move_event(&mut game, MoveEvent::Promotion(from, to, 9)));
    assert!(apply_move_event(&mut game, MoveEvent::Promotion(from, to, encode_piece(PieceType::Knight))));
    assert_eq!(game.board.piece_at(2, 0), Some(Piece::new(PieceType::Knight, Color::Black)));
    assert_eq!(game.promotable, None);
    assert_eq!(game.curr_player, Color::White);
}

#[test]
fn rook_move_does_not_castle_without_king_at_home() {
    let mut board = Board::new();
    put(&mut board, 3, 0, PieceType::King, Color::White);
    put(&mut board, 7, 0, PieceType::Rook, Color::White);
    put(&mut board, 0, 7, PieceType::King, Color::Black);
    assert!(board.move_piece((7, 0), (5, 0), Color::White));
    assert_eq!(board.piece_at(5, 0), Some(Piece::new(PieceType::Rook, Color::White)));
    assert_eq!(board.piece_at(6, 0), None);
    assert_eq!(board.piece_at(3, 0), Some(Piece::new(PieceType::King, Color::White)));
    assert_eq!(board.find_piece(PieceType::King, Color::White), Some((3, 0)));
}

#[test]
fn king_castling_needs_its_rook() {
    let mut board = Board::new();
    put(&mut board, 4, 0, PieceType::King, Color::White);
    put(&mut board, 0, 0, PieceType::Rook, Color::White);
    put(&mut board, 4, 7, PieceType::King, Color::Black);
    let king = Piece::new(PieceType::King, Color::White);
    let moves = board.filter_available_moves((4, 0), king);
    assert!(moves.contains(&(2, 0)));
    assert!(!moves.contains(&(6, 0)));
    let mut game = empty_game(Color::White);
    game.board = board;
    assert!(!game.castle(CastlingSide::KingSide));
    assert!(game.castle(CastlingSide::QueenSide));
    assert_eq!(game.board.piece_at(3, 0), Some(Piece::new(PieceType::Rook, Color::White)));
}

#[test]
fn pawn_double_step_cannot_take_own_king() {
    let mut game = empty_game(Color::White);
    put(&mut game.board, 3, 1, PieceType::Pawn, Color::White);
    put(&mut game.board, 3, 3, PieceType::King, Color::White);
    put(&mut game.board, 7, 7, PieceType::King, Color::Black);
    assert!(!game.get_available_moves((3, 1)).contains(&(3, 3)));
    assert!(!game.move_piece((3, 1), (3, 3)));
    assert!(game.move_piece((3, 1), (3, 2)));
}

#[test]
fn promotion_to_king_or_pawn_is_refused() {
    let mut game = empty_game(Color::White);
    put(&mut game.board, 0, 6, PieceType::Pawn, Color::White);
    put(&mut game.board, 4, 0, PieceType::King, Color::White);
    put(&mut game.board, 7, 4, PieceType::King, Color::Black);
    assert!(game.move_piece((0, 6), (0, 7)));
    assert!(!game.promote(PieceType::King));
    assert!(!game.promote(PieceType::Pawn));
    assert_eq!(game.promotable, Some((0, 7)));
    assert_eq!(game.board.piece_at(0, 7), Some(Piece::new(PieceType::Pawn, Color::White)));
    assert!(game.promote(PieceType::Rook));
    assert_eq!(game.curr_player, Color::Black);
}

#[test]
fn peer_promotion_to_king_is_refused() {
    let mut game = empty_game(Color::White);
    put(&mut game.board, 0, 6, PieceType::Pawn, Color::White);
    put(&mut game.board, 4, 0, PieceType::King, Color::White);
    put(&mut game.board, 7, 4, PieceType::King, Color::Black);
    let from = encode_index((0, 6));
    let to = encode_index((0, 7));
    assert!(!apply_move_event(&mut game, MoveEvent::Promotion(from, to, encode_piece(PieceType::King))));
    assert_eq!(game.board.piece_at(0, 6), Some(Piece::new(PieceType::Pawn, Color::White)));
    assert_eq!(game.curr_player, Color::White);
}
