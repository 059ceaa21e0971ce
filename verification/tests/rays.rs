use chess_engine::chess::board_default_setup;
use chess_engine::chess::Board;
use chess_engine::chess::Color;
use chess_engine::chess::Game;
use chess_engine::chess::Piece;
use chess_engine::chess::PieceType;

fn opening() -> Game {
    Game::new(Board::new(board_default_setup()))
}

fn bare() -> Game {
    Game::new(Board::new([[None; 8]; 8]))
}

#[test]
fn ray_that_leaves_the_board_at_once_reaches_nothing() {
    let game = opening();
    let ray = game.cast_ray(0, 0, -1, 0, Some(1));
    assert!(!ray.is_hit);
    assert_eq!(ray.point, None);
    assert!(ray.path.is_empty());

    let ray = game.cast_ray(7, 7, 1, 1, None);
    assert!(!ray.is_hit);
    assert_eq!(ray.point, None);
    assert_eq!(ray.path.len(), 0);
}

#[test]
fn ray_of_no_steps_reaches_nothing() {
    let game = opening();
    let ray = game.cast_ray(3, 3, 1, 0, Some(0));
    assert!(!ray.is_hit);
    assert_eq!(ray.point, None);
    assert!(ray.path.is_empty());
}

#[test]
fn ray_stops_on_the_first_piece() {
    let game = opening();
    let ray = game.cast_ray(0, 0, 0, 1, None);
    assert!(ray.is_hit);
    assert_eq!(ray.point, Some((0, 1)));
    assert!(ray.path.is_empty());
}

#[test]
fn ray_crosses_empty_squares_up_to_a_piece() {
    let game = opening();
    let ray = game.cast_ray(0, 2, 0, 1, None);
    assert!(ray.is_hit);
    assert_eq!(ray.point, Some((0, 6)));
    assert_eq!(ray.path.to_vec(), vec![(0, 3), (0, 4), (0, 5)]);
    assert!(!ray.path.contains((0, 6)));
    assert!(!ray.path.contains((0, 2)));
}

#[test]
fn unbounded_ray_runs_to_the_edge() {
    let game = opening();
    let ray = game.cast_ray(0, 2, 1, 0, None);
    assert!(!ray.is_hit);
    assert_eq!(ray.point, Some((7, 2)));
    assert_eq!(
        ray.path.to_vec(),
        vec![(1, 2), (2, 2), (3, 2), (4, 2), (5, 2), (6, 2), (7, 2)]
    );

    let ray = bare().cast_ray(0, 0, 1, 1, None);
    assert!(!ray.is_hit);
    assert_eq!(ray.point, Some((7, 7)));
    assert_eq!(ray.path.len(), 7);
}

#[test]
fn bounded_ray_stops_at_its_bound() {
    let game = opening();
    let ray = game.cast_ray(0, 2, 0, 1, Some(2));
    assert!(!ray.is_hit);
    assert_eq!(ray.point, Some((0, 4)));
    assert_eq!(ray.path.to_vec(), vec![(0, 3), (0, 4)]);
}

#[test]
fn bounded_ray_stops_at_the_edge_before_its_bound() {
    let game = opening();
    let ray = game.cast_ray(6, 3, 1, 0, Some(5));
    assert!(!ray.is_hit);
    assert_eq!(ray.point, Some((7, 3)));
    assert_eq!(ray.path.to_vec(), vec![(7, 3)]);
}

#[test]
fn bound_beyond_the_board_is_no_bound() {
    let game = opening();
    for (dx, dy) in [(1, 0), (-1, 0), (0, 1), (0, -1), (1, 1), (-1, 1), (1, -1), (-1, -1)] {
        let free = game.cast_ray(3, 3, dx, dy, None);
        for bound in [7, 8, 9, 100] {
            let bounded = game.cast_ray(3, 3, dx, dy, Some(bound));
            assert_eq!(bounded.is_hit, free.is_hit);
            assert_eq!(bounded.point, free.point);
            assert_eq!(bounded.path.to_vec(), free.path.to_vec());
        }
    }
}

#[test]
fn knight_hop_is_a_ray_of_one_step() {
    let game = opening();
    let ray = game.cast_ray(1, 0, 1, 2, Some(1));
    assert!(!ray.is_hit);
    assert_eq!(ray.point, Some((2, 2)));
    assert_eq!(ray.path.to_vec(), vec![(2, 2)]);

    let ray = game.cast_ray(1, 0, 2, 1, Some(1));
    assert!(ray.is_hit);
    assert_eq!(ray.point, Some((3, 1)));
    assert!(ray.path.is_empty());

    let ray = game.cast_ray(1, 0, -2, 1, Some(1));
    assert!(!ray.is_hit);
    assert_eq!(ray.point, None);
}

#[test]
fn ray_sees_pieces_of_both_sides_alike() {
    let mut rows = [[None; 8]; 8];
    rows[3][5] = Some(Piece::new(PieceType::King, Color::Black));
    let game = Game::new(Board::new(rows));
    let ray = game.cast_ray(2, 3, 1, 0, None);
    assert!(ray.is_hit);
    assert_eq!(ray.point, Some((5, 3)));
    assert_eq!(ray.path.to_vec(), vec![(3, 3), (4, 3)]);

    rows[3][5] = Some(Piece::new(PieceType::Pawn, Color::White));
    let game = Game::new(Board::new(rows));
    let ray = game.cast_ray(2, 3, 1, 0, None);
    assert!(ray.is_hit);
    assert_eq!(ray.point, Some((5, 3)));
}

#[test]
fn bounds_and_emptiness_of_squares() {
    let game = opening();
    assert!(game.is_bounded(0, 0));
    assert!(game.is_bounded(7, 7));
    assert!(!game.is_bounded(8, 0));
    assert!(!game.is_bounded(0, 8));
    assert!(!game.is_bounded(-1, 3));
    assert!(!game.is_bounded(3, -1));
    assert!(!game.is_empty(0, 0));
    assert!(!game.is_empty(7, 6));
    assert!(game.is_empty(0, 2));
    assert!(game.is_empty(7, 5));
}
