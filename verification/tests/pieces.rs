use chess_engine::chess::board_default_setup;
use chess_engine::chess::Board;
use chess_engine::chess::Color;
use chess_engine::chess::Game;
use chess_engine::chess::Piece;
use chess_engine::chess::PieceType;
use chess_engine::squares::SquareSet;

fn opening_game() -> Game {
    Game::new(Board::new(board_default_setup()))
}

fn game_with(pieces: &[(usize, usize, PieceType, Color)]) -> Game {
    let mut rows = [[None; 8]; 8];
    for &(x, y, kind, side) in pieces {
        rows[y][x] = Some(Piece::new(kind, side));
    }
    Game::new(Board::new(rows))
}

fn sorted(mut squares: Vec<(usize, usize)>) -> Vec<(usize, usize)> {
    squares.sort();
    squares
}

#[test]
fn piece_reports_its_kind_and_side() {
    let piece = Piece::new(PieceType::Queen, Color::Black);
    assert_eq!(piece.piece_type(), PieceType::Queen);
    assert_eq!(piece.piece_color(), Color::Black);
    assert_eq!(piece, Piece::new(PieceType::Queen, Color::Black));
    assert_ne!(piece, Piece::new(PieceType::Queen, Color::White));
    assert_ne!(piece, Piece::new(PieceType::King, Color::Black));
}

#[test]
fn starting_arrangement() {
    let game = opening_game();
    let back = [
        PieceType::Rook,
        PieceType::Knight,
        PieceType::Bishop,
        PieceType::Queen,
        PieceType::King,
        PieceType::Bishop,
        PieceType::Knight,
        PieceType::Rook,
    ];
    for x in 0..8 {
        assert_eq!(game.get_piece(x, 0), Some(Piece::new(back[x], Color::White)));
        assert_eq!(game.get_piece(x, 1), Some(Piece::new(PieceType::Pawn, Color::White)));
        for y in 2..6 {
            assert_eq!(game.get_piece(x, y), None);
        }
        assert_eq!(game.get_piece(x, 6), Some(Piece::new(PieceType::Pawn, Color::Black)));
        assert_eq!(game.get_piece(x, 7), Some(Piece::new(back[x], Color::Black)));
    }
    assert_eq!(game.player_to_move(), Color::White);
}

#[test]
fn pawn_on_its_starting_rank_advances_one_or_two() {
    let game = opening_game();
    let mut moves = SquareSet::new();
    game.get_pseudo_moves_pawn(4, 1, &mut moves);
    assert_eq!(moves.to_vec(), vec![(4, 2), (4, 3)]);
    let mut captures = SquareSet::new();
    game.get_pseudo_captures_pawn(4, 1, &mut captures);
    assert!(captures.is_empty());
}

#[test]
fn pawn_off_its_starting_rank_advances_one() {
    let game = game_with(&[(3, 2, PieceType::Pawn, Color::White)]);
    let mut moves = SquareSet::new();
    game.get_pseudo_moves_pawn(3, 2, &mut moves);
    assert_eq!(moves.to_vec(), vec![(3, 3)]);
}

#[test]
fn pawn_is_blocked_by_a_piece_ahead() {
    let game = game_with(&[
        (3, 1, PieceType::Pawn, Color::White),
        (3, 2, PieceType::Knight, Color::Black),
    ]);
    let mut moves = SquareSet::new();
    game.get_pseudo_moves_pawn(3, 1, &mut moves);
    assert!(moves.is_empty());
    let mut captures = SquareSet::new();
    game.get_pseudo_captures_pawn(3, 1, &mut captures);
    assert!(captures.is_empty());
    assert!(!game.is_pseudo_legal(3, 1, 3, 2));
    assert!(!game.is_pseudo_legal(3, 1, 3, 3));
}

#[test]
fn pawn_double_step_needs_both_squares_empty() {
    let game = game_with(&[
        (3, 1, PieceType::Pawn, Color::White),
        (3, 3, PieceType::Knight, Color::Black),
    ]);
    let mut moves = SquareSet::new();
    game.get_pseudo_moves_pawn(3, 1, &mut moves);
    assert_eq!(moves.to_vec(), vec![(3, 2)]);
}

#[test]
fn pawn_on_the_last_rank_has_no_move() {
    let game = game_with(&[(3, 7, PieceType::Pawn, Color::White)]);
    let mut moves = SquareSet::new();
    game.get_pseudo_moves_pawn(3, 7, &mut moves);
    assert!(moves.is_empty());
    let mut captures = SquareSet::new();
    game.get_pseudo_captures_pawn(3, 7, &mut captures);
    assert!(captures.is_empty());
    assert!(game.get_pseudo_moves(3, 7).is_empty());
}

#[test]
fn pawn_captures_on_both_diagonals_whatever_stands_there() {
    let game = game_with(&[
        (3, 3, PieceType::Pawn, Color::White),
        (2, 4, PieceType::Rook, Color::White),
        (4, 4, PieceType::King, Color::Black),
        (3, 4, PieceType::Queen, Color::Black),
        (2, 2, PieceType::Pawn, Color::Black),
        (4, 2, PieceType::Pawn, Color::Black),
    ]);
    let mut captures = SquareSet::new();
    game.get_pseudo_captures_pawn(3, 3, &mut captures);
    assert_eq!(captures.to_vec(), vec![(2, 4), (4, 4)]);
    assert!(!captures.contains((3, 4)));
    let mut moves = SquareSet::new();
    game.get_pseudo_moves_pawn(3, 3, &mut moves);
    assert!(moves.is_empty());
    assert_eq!(game.get_pseudo_moves(3, 3).to_vec(), vec![(2, 4), (4, 4)]);
}

#[test]
fn pawn_at_the_edge_captures_on_the_board_only() {
    let game = game_with(&[
        (0, 3, PieceType::Pawn, Color::White),
        (1, 4, PieceType::Pawn, Color::Black),
        (7, 3, PieceType::Pawn, Color::White),
        (6, 4, PieceType::Pawn, Color::Black),
    ]);
    let mut captures = SquareSet::new();
    game.get_pseudo_captures_pawn(0, 3, &mut captures);
    assert_eq!(captures.to_vec(), vec![(1, 4)]);
    let mut captures = SquareSet::new();
    game.get_pseudo_captures_pawn(7, 3, &mut captures);
    assert_eq!(captures.to_vec(), vec![(6, 4)]);
}

#[test]
fn pawn_never_captures_ahead_nor_advances_aslant() {
    for ahead in [false, true] {
        for left in [false, true] {
            for right in [false, true] {
                for y in 0..8 {
                    for x in 0..8 {
                        let mut pieces = vec![(x, y, PieceType::Pawn, Color::White)];
                        if y < 7 {
                            if ahead {
                                pieces.push((x, y + 1, PieceType::Rook, Color::Black));
                            }
                            if left && x > 0 {
                                pieces.push((x - 1, y + 1, PieceType::Rook, Color::Black));
                            }
                            if right && x < 7 {
                                pieces.push((x + 1, y + 1, PieceType::Rook, Color::Black));
                            }
                        }
                        let game = game_with(&pieces);
                        let mut captures = SquareSet::new();
                        game.get_pseudo_captures_pawn(x, y, &mut captures);
                        assert!(!captures.contains((x, y + 1)));
                        for (cx, cy) in captures.to_vec() {
                            assert_ne!(cx, x);
                            assert_eq!(cy, y + 1);
                        }
                        let mut moves = SquareSet::new();
                        game.get_pseudo_moves_pawn(x, y, &mut moves);
                        for (mx, my) in moves.to_vec() {
                            assert_eq!(mx, x);
                            assert!(my > y);
                        }
                    }
                }
            }
        }
    }
}

#[test]
fn knight_in_the_centre_has_eight_jumps() {
    let game = game_with(&[(3, 3, PieceType::Knight, Color::White)]);
    let mut moves = SquareSet::new();
    game.get_pseudo_moves_knight(3, 3, &mut moves);
    assert_eq!(
        sorted(moves.to_vec()),
        vec![(1, 2), (1, 4), (2, 1), (2, 5), (4, 1), (4, 5), (5, 2), (5, 4)]
    );
    let mut captures = SquareSet::new();
    game.get_pseudo_captures_knight(3, 3, &mut captures);
    assert!(captures.is_empty());
}

#[test]
fn knight_in_the_corner_has_two_jumps() {
    let game = game_with(&[(0, 0, PieceType::Knight, Color::White)]);
    let mut moves = SquareSet::new();
    game.get_pseudo_moves_knight(0, 0, &mut moves);
    assert_eq!(sorted(moves.to_vec()), vec![(1, 2), (2, 1)]);
}

#[test]
fn knight_jumps_over_pieces_and_captures_where_it_lands() {
    let game = opening_game();
    let mut moves = SquareSet::new();
    game.get_pseudo_moves_knight(1, 0, &mut moves);
    assert_eq!(sorted(moves.to_vec()), vec![(0, 2), (2, 2)]);
    let mut captures = SquareSet::new();
    game.get_pseudo_captures_knight(1, 0, &mut captures);
    assert_eq!(captures.to_vec(), vec![(3, 1)]);
    assert_eq!(sorted(game.get_pseudo_moves(1, 0).to_vec()), vec![(0, 2), (2, 2), (3, 1)]);
    assert_eq!(game.get_pseudo_captures(1, 0).to_vec(), vec![(3, 1)]);
}

#[test]
fn bishop_slides_along_the_diagonals() {
    let game = game_with(&[
        (2, 2, PieceType::Bishop, Color::White),
        (4, 4, PieceType::Pawn, Color::Black),
        (1, 3, PieceType::Pawn, Color::White),
    ]);
    let mut moves = SquareSet::new();
    game.get_pseudo_moves_bishop(2, 2, &mut moves);
    assert_eq!(sorted(moves.to_vec()), vec![(0, 0), (1, 1), (3, 1), (3, 3), (4, 0)]);
    let mut captures = SquareSet::new();
    game.get_pseudo_captures_bishop(2, 2, &mut captures);
    assert_eq!(sorted(captures.to_vec()), vec![(1, 3), (4, 4)]);
}

#[test]
fn rook_slides_along_rank_and_file() {
    let game = game_with(&[
        (2, 2, PieceType::Rook, Color::White),
        (2, 5, PieceType::Pawn, Color::Black),
        (0, 2, PieceType::King, Color::White),
    ]);
    let mut moves = SquareSet::new();
    game.get_pseudo_moves_rook(2, 2, &mut moves);
    assert_eq!(
        sorted(moves.to_vec()),
        vec![(1, 2), (2, 0), (2, 1), (2, 3), (2, 4), (3, 2), (4, 2), (5, 2), (6, 2), (7, 2)]
    );
    let mut captures = SquareSet::new();
    game.get_pseudo_captures_rook(2, 2, &mut captures);
    assert_eq!(sorted(captures.to_vec()), vec![(0, 2), (2, 5)]);
}

#[test]
fn rook_on_an_empty_board_has_fourteen_moves() {
    for (x, y) in [(0, 0), (3, 4), (7, 7), (7, 0)] {
        let game = game_with(&[(x, y, PieceType::Rook, Color::White)]);
        let moves = game.get_pseudo_moves(x, y);
        assert_eq!(moves.len(), 14);
        for (mx, my) in moves.to_vec() {
            assert!((mx == x) != (my == y));
        }
    }
}

#[test]
fn queen_moves_as_bishop_and_rook() {
    let pieces = [
        (3, 3, PieceType::Queen, Color::White),
        (3, 6, PieceType::Pawn, Color::Black),
        (6, 6, PieceType::Pawn, Color::Black),
        (1, 3, PieceType::Pawn, Color::White),
        (5, 1, PieceType::Pawn, Color::White),
    ];
    let game = game_with(&pieces);
    let mut queen = SquareSet::new();
    game.get_pseudo_moves_queen(3, 3, &mut queen);
    let mut both = SquareSet::new();
    game.get_pseudo_moves_bishop(3, 3, &mut both);
    game.get_pseudo_moves_rook(3, 3, &mut both);
    assert_eq!(queen.to_vec(), both.to_vec());
    assert_eq!(queen.len(), 4 + 2 + 3 + 1 + 3 + 2 + 1 + 3);

    let mut captures = SquareSet::new();
    game.get_pseudo_captures_queen(3, 3, &mut captures);
    assert_eq!(sorted(captures.to_vec()), vec![(1, 3), (3, 6), (5, 1), (6, 6)]);
}

#[test]
fn queen_on_an_empty_board() {
    let game = game_with(&[(3, 3, PieceType::Queen, Color::White)]);
    assert_eq!(game.get_pseudo_moves(3, 3).len(), 27);
    assert!(game.get_pseudo_captures(3, 3).is_empty());
}

#[test]
fn king_steps_to_the_eight_neighbours() {
    let game = game_with(&[
        (3, 3, PieceType::King, Color::White),
        (4, 4, PieceType::Pawn, Color::Black),
        (2, 3, PieceType::Pawn, Color::White),
    ]);
    let mut moves = SquareSet::new();
    game.get_pseudo_moves_king(3, 3, &mut moves);
    assert_eq!(
        sorted(moves.to_vec()),
        vec![(2, 2), (2, 4), (3, 2), (3, 4), (4, 2), (4, 3)]
    );
    let mut captures = SquareSet::new();
    game.get_pseudo_captures_king(3, 3, &mut captures);
    assert_eq!(sorted(captures.to_vec()), vec![(2, 3), (4, 4)]);
    assert!(!captures.contains((3, 3)));
    assert!(!moves.contains((3, 3)));
}

#[test]
fn king_in_the_corner_has_three_steps() {
    let game = game_with(&[(7, 0, PieceType::King, Color::White)]);
    assert_eq!(sorted(game.get_pseudo_moves(7, 0).to_vec()), vec![(6, 0), (6, 1), (7, 1)]);
}

#[test]
fn rules_add_to_the_squares_already_found() {
    let game = opening_game();
    let mut found = SquareSet::new();
    found.insert((7, 7));
    game.get_pseudo_moves_pawn(0, 1, &mut found);
    game.get_pseudo_moves_knight(6, 0, &mut found);
    assert_eq!(sorted(found.to_vec()), vec![(0, 2), (0, 3), (5, 2), (7, 2), (7, 7)]);
}

#[test]
fn empty_square_has_no_moves() {
    let game = opening_game();
    assert!(game.get_pseudo_moves(4, 4).is_empty());
    assert!(game.get_pseudo_captures(4, 4).is_empty());
    assert!(!game.is_pseudo_legal(4, 4, 4, 5));
}

#[test]
fn pseudo_legal_asks_after_the_pattern_only() {
    let game = opening_game();
    assert!(game.is_pseudo_legal(4, 1, 4, 2));
    assert!(game.is_pseudo_legal(4, 1, 4, 3));
    assert!(!game.is_pseudo_legal(4, 1, 4, 4));
    assert!(!game.is_pseudo_legal(4, 1, 5, 2));
    assert!(game.is_pseudo_legal(1, 0, 3, 1));
    assert!(game.is_pseudo_legal(4, 6, 3, 7));
    assert!(!game.is_pseudo_legal(4, 6, 4, 7));
    assert!(!game.is_pseudo_legal(4, 1, 4, 8));
    assert!(!game.is_pseudo_legal(4, 1, 800, 2));
}

#[test]
fn side_to_move_may_land_on_empty_squares_and_on_enemies_but_kings() {
    let game = opening_game();
    assert!(game.can_be_here(4, 4));
    assert!(!game.can_be_here(0, 0));
    assert!(!game.can_be_here(4, 1));
    assert!(!game.can_be_here(4, 0));
    assert!(game.can_be_here(0, 7));
    assert!(game.can_be_here(3, 6));
    assert!(!game.can_be_here(4, 7));
}
