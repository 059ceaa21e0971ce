use crate::chess::{Color, Piece, PieceType};
use crate::squares::on_board;
use vstd::prelude::*;

verus! {

/// A placement of pieces: the occupied squares, each with its piece. The key is `(file, rank)`.
///
/// The rules below read a position from the point of view of the side to move:
/// its pawns advance towards higher ranks.
pub type Position = Map<(int, int), Piece>;

/// Every occupied square of `pos` is a square of the board.
pub open spec fn within_board(pos: Position) -> bool {
    forall|sq: (int, int)| #[trigger] pos.dom().contains(sq) ==> on_board(sq.0, sq.1)
}

/// Whether a piece stands on `(x, y)`.
pub open spec fn occupied(pos: Position, x: int, y: int) -> bool {
    pos.dom().contains((x, y))
}

/// What stands on `(x, y)`.
pub open spec fn piece_at(pos: Position, x: int, y: int) -> Option<Piece> {
    if pos.dom().contains((x, y)) {
        Some(pos[(x, y)])
    } else {
        None
    }
}

/// The position seen from the other side of the board: rank `y` becomes rank `7 - y`.
pub open spec fn flip(pos: Position) -> Position {
    Map::new(
        |sq: (int, int)| on_board(sq.0, sq.1) && pos.dom().contains((sq.0, 7 - sq.1)),
        |sq: (int, int)| pos[(sq.0, 7 - sq.1)],
    )
}

/// What a ray reports: whether it ended on an occupied square, the last square
/// it reached (none if it could not take a step), and the empty squares it crossed.
pub struct Ray {
    pub hit: bool,
    pub point: Option<(int, int)>,
    pub path: Set<(int, int)>,
}

/// The ray from `(x, y)` that advances by `(dx, dy)` at most `steps` times.
///
/// It stops before a step that would leave the board, and it stops on the first
/// occupied square, which is a hit and no part of the path.
pub open spec fn cast(pos: Position, x: int, y: int, dx: int, dy: int, steps: nat) -> Ray
    decreases steps,
{
    if steps == 0 || !on_board(x + dx, y + dy) {
        Ray { hit: false, point: None, path: Set::empty() }
    } else if occupied(pos, x + dx, y + dy) {
        Ray { hit: true, point: Some((x + dx, y + dy)), path: Set::empty() }
    } else {
        let rest = cast(pos, x + dx, y + dy, dx, dy, (steps - 1) as nat);
        Ray {
            hit: rest.hit,
            point: if rest.point is Some {
                rest.point
            } else {
                Some((x + dx, y + dy))
            },
            path: rest.path.insert((x + dx, y + dy)),
        }
    }
}

/// The number of steps that a ray may take: the given bound, or, for a ray
/// without one, as many as the board has ranks, which no ray can use up.
pub open spec fn step_bound(steps: Option<usize>) -> nat {
    match steps {
        Some(n) => n as nat,
        None => 8,
    }
}

/// The square on which a ray ended by a hit, as a set of at most one square.
pub open spec fn hit_square(ray: Ray) -> Set<(int, int)> {
    if ray.hit && ray.point is Some {
        set![ray.point.unwrap()]
    } else {
        Set::empty()
    }
}

/// The ray that slides from `(x, y)` by `(dx, dy)` until the edge of the board or a piece stops it.
pub open spec fn slide(pos: Position, x: int, y: int, dx: int, dy: int) -> Ray {
    cast(pos, x, y, dx, dy, 8)
}

/// The eight jumps of a knight.
pub open spec fn knight_offset(dx: int, dy: int) -> bool {
    ((dx == 1 || dx == -1) && (dy == 2 || dy == -2)) || ((dx == 2 || dx == -2) && (dy == 1 || dy
        == -1))
}

/// The eight steps of a king.
pub open spec fn king_offset(dx: int, dy: int) -> bool {
    -1 <= dx <= 1 && -1 <= dy <= 1 && !(dx == 0 && dy == 0)
}

/// Where the pawn on `(x, y)` may go without capturing: one rank ahead if that
/// square is empty, and from rank 1 two ranks ahead if both squares are empty.
pub open spec fn pawn_moves(pos: Position, x: int, y: int) -> Set<(int, int)> {
    Set::new(
        |sq: (int, int)|
            sq.0 == x && on_board(sq.0, sq.1) && !occupied(pos, sq.0, sq.1) && (sq.1 == y + 1 || (y
                == 1 && sq.1 == y + 2 && !occupied(pos, x, y + 1))),
    )
}

/// The squares that the pawn on `(x, y)` attacks and that hold a piece: the
/// two squares diagonally ahead.
pub open spec fn pawn_captures(pos: Position, x: int, y: int) -> Set<(int, int)> {
    Set::new(
        |sq: (int, int)|
            on_board(sq.0, sq.1) && occupied(pos, sq.0, sq.1) && sq.1 == y + 1 && (sq.0 == x + 1
                || sq.0 == x - 1),
    )
}

/// The empty squares a knight's jump away from `(x, y)`.
pub open spec fn knight_moves(pos: Position, x: int, y: int) -> Set<(int, int)> {
    Set::new(
        |sq: (int, int)|
            on_board(sq.0, sq.1) && !occupied(pos, sq.0, sq.1) && knight_offset(
                sq.0 - x,
                sq.1 - y,
            ),
    )
}

/// The occupied squares a knight's jump away from `(x, y)`.
pub open spec fn knight_captures(pos: Position, x: int, y: int) -> Set<(int, int)> {
    Set::new(
        |sq: (int, int)|
            on_board(sq.0, sq.1) && occupied(pos, sq.0, sq.1) && knight_offset(sq.0 - x, sq.1 - y),
    )
}

/// The empty squares next to `(x, y)`.
pub open spec fn king_moves(pos: Position, x: int, y: int) -> Set<(int, int)> {
    Set::new(
        |sq: (int, int)|
            on_board(sq.0, sq.1) && !occupied(pos, sq.0, sq.1) && king_offset(sq.0 - x, sq.1 - y),
    )
}

/// The occupied squares next to `(x, y)`.
pub open spec fn king_captures(pos: Position, x: int, y: int) -> Set<(int, int)> {
    Set::new(
        |sq: (int, int)|
            on_board(sq.0, sq.1) && occupied(pos, sq.0, sq.1) && king_offset(sq.0 - x, sq.1 - y),
    )
}

/// The empty squares that the four diagonal rays from `(x, y)` cross.
pub open spec fn bishop_moves(pos: Position, x: int, y: int) -> Set<(int, int)> {
    slide(pos, x, y, -1, -1).path.union(slide(pos, x, y, -1, 1).path).union(
        slide(pos, x, y, 1, -1).path,
    ).union(slide(pos, x, y, 1, 1).path)
}

/// The occupied squares on which the four diagonal rays from `(x, y)` end.
pub open spec fn bishop_captures(pos: Position, x: int, y: int) -> Set<(int, int)> {
    hit_square(slide(pos, x, y, -1, -1)).union(hit_square(slide(pos, x, y, -1, 1))).union(
        hit_square(slide(pos, x, y, 1, -1)),
    ).union(hit_square(slide(pos, x, y, 1, 1)))
}

/// The empty squares that the four rays along the rank and the file of `(x, y)` cross.
pub open spec fn rook_moves(pos: Position, x: int, y: int) -> Set<(int, int)> {
    slide(pos, x, y, 0, -1).path.union(slide(pos, x, y, -1, 0).path).union(
        slide(pos, x, y, 0, 1).path,
    ).union(slide(pos, x, y, 1, 0).path)
}

/// The occupied squares on which the four rays along the rank and the file of `(x, y)` end.
pub open spec fn rook_captures(pos: Position, x: int, y: int) -> Set<(int, int)> {
    hit_square(slide(pos, x, y, 0, -1)).union(hit_square(slide(pos, x, y, -1, 0))).union(
        hit_square(slide(pos, x, y, 0, 1)),
    ).union(hit_square(slide(pos, x, y, 1, 0)))
}

/// The empty squares that a queen on `(x, y)` reaches: a bishop's and a rook's.
pub open spec fn queen_moves(pos: Position, x: int, y: int) -> Set<(int, int)> {
    bishop_moves(pos, x, y).union(rook_moves(pos, x, y))
}

/// The occupied squares that a queen on `(x, y)` attacks: a bishop's and a rook's.
pub open spec fn queen_captures(pos: Position, x: int, y: int) -> Set<(int, int)> {
    bishop_captures(pos, x, y).union(rook_captures(pos, x, y))
}

/// The empty squares to which a piece of kind `kind` on `(x, y)` may move.
pub open spec fn quiet_moves(pos: Position, kind: PieceType, x: int, y: int) -> Set<(int, int)> {
    match kind {
        PieceType::Pawn => pawn_moves(pos, x, y),
        PieceType::Bishop => bishop_moves(pos, x, y),
        PieceType::Knight => knight_moves(pos, x, y),
        PieceType::Rook => rook_moves(pos, x, y),
        PieceType::Queen => queen_moves(pos, x, y),
        PieceType::King => king_moves(pos, x, y),
    }
}

/// The occupied squares that a piece of kind `kind` on `(x, y)` attacks,
/// whatever stands on them: a piece of either side, a king too.
pub open spec fn capture_moves(pos: Position, kind: PieceType, x: int, y: int) -> Set<(int, int)> {
    match kind {
        PieceType::Pawn => pawn_captures(pos, x, y),
        PieceType::Bishop => bishop_captures(pos, x, y),
        PieceType::Knight => knight_captures(pos, x, y),
        PieceType::Rook => rook_captures(pos, x, y),
        PieceType::Queen => queen_captures(pos, x, y),
        PieceType::King => king_captures(pos, x, y),
    }
}

/// The occupied squares that the occupant of `(x, y)` attacks; none from an empty square.
pub open spec fn pseudo_captures(pos: Position, x: int, y: int) -> Set<(int, int)> {
    match piece_at(pos, x, y) {
        Some(piece) => capture_moves(pos, piece.piece_type, x, y),
        None => Set::empty(),
    }
}

/// Every square that the occupant of `(x, y)` reaches by the way its kind
/// moves, whether or not the move would leave its king in check.
pub open spec fn pseudo_moves(pos: Position, x: int, y: int) -> Set<(int, int)> {
    match piece_at(pos, x, y) {
        Some(piece) => quiet_moves(pos, piece.piece_type, x, y).union(
            capture_moves(pos, piece.piece_type, x, y),
        ),
        None => Set::empty(),
    }
}

/// Whether the king of `side` stands on `(x, y)`.
pub open spec fn king_at(pos: Position, side: Color, x: int, y: int) -> bool {
    piece_at(pos, x, y) == Some(Piece { piece_type: PieceType::King, piece_color: side })
}

/// The first square at or after position `k` of the scan that holds the king of `side`.
pub open spec fn king_from(pos: Position, side: Color, k: nat) -> Option<(int, int)>
    decreases 64 - k,
{
    if k >= 64 {
        None
    } else if king_at(pos, side, (k % 8) as int, (k / 8) as int) {
        Some(((k % 8) as int, (k / 8) as int))
    } else {
        king_from(pos, side, k + 1)
    }
}

/// The square of the king of `side`: the first one that the scan meets, rank
/// by rank and file by file within a rank, if the position holds several.
pub open spec fn king_square(pos: Position, side: Color) -> Option<(int, int)> {
    king_from(pos, side, 0)
}

/// Whether `(x, y)` holds a piece of the opponent of `side` that attacks `target`.
pub open spec fn attacks(pos: Position, side: Color, x: int, y: int, target: (int, int)) -> bool {
    &&& piece_at(pos, x, y) matches Some(piece)
    &&& piece.piece_color != side
    &&& pseudo_captures(pos, x, y).contains(target)
}

/// Whether some piece of the opponent of `side` attacks `target`.
pub open spec fn attacked(pos: Position, side: Color, target: (int, int)) -> bool {
    exists|x: int, y: int| on_board(x, y) && attacks(pos, side, x, y, target)
}

/// Whether `side` is in check in `pos`, a position seen from the side of `side`.
///
/// The opponent's pieces attack as they move, towards higher ranks of the
/// board as the opponent sees it: the test is made on the flipped position.
pub open spec fn in_check(pos: Position, side: Color) -> bool {
    match king_square(flip(pos), side) {
        Some(king) => attacked(flip(pos), side, king),
        None => false,
    }
}

/// The position after the piece on `from` has gone to `to`, taking what stood there.
pub open spec fn apply_move(pos: Position, from: (int, int), to: (int, int)) -> Position {
    pos.insert(to, pos[from]).remove(from)
}

/// The position after a move from `from` to `to` has been taken back, given the
/// piece that moved and what it captured.
pub open spec fn undo_move(
    pos: Position,
    from: (int, int),
    to: (int, int),
    moved: Piece,
    captured: Option<Piece>,
) -> Position {
    let cleared = match captured {
        Some(piece) => pos.insert(to, piece),
        None => pos.remove(to),
    };
    cleared.insert(from, moved)
}

/// Whether a piece of `side` may end its move on `(x, y)`: on an empty square,
/// or on a piece of the opponent that is no king.
pub open spec fn may_land(pos: Position, side: Color, x: int, y: int) -> bool {
    match piece_at(pos, x, y) {
        Some(piece) => piece.piece_type != PieceType::King && piece.piece_color != side,
        None => true,
    }
}

/// Whether `side`, to move in `pos`, may move from `from` to `to`: a piece of
/// its own stands on `from`, the piece reaches `to` by the way its kind
/// moves, it may land there, and the move does not leave `side` in check.
pub open spec fn legal(pos: Position, side: Color, from: (int, int), to: (int, int)) -> bool {
    &&& piece_at(pos, from.0, from.1) matches Some(piece)
    &&& piece.piece_color == side
    &&& pseudo_moves(pos, from.0, from.1).contains(to)
    &&& may_land(pos, side, to.0, to.1)
    &&& !in_check(apply_move(pos, from, to), side)
}

/// The squares to which `side` may move from `(x, y)`.
pub open spec fn legal_moves(pos: Position, side: Color, x: int, y: int) -> Set<(int, int)> {
    Set::new(|to: (int, int)| legal(pos, side, (x, y), to))
}

/// Whether `side` has a legal move from some square of the board.
pub open spec fn has_legal_move(pos: Position, side: Color) -> bool {
    exists|from: (int, int), to: (int, int)|
        on_board(from.0, from.1) && #[trigger] legal(pos, side, from, to)
}

/// No legal move, and in check.
pub open spec fn checkmate(pos: Position, side: Color) -> bool {
    !has_legal_move(pos, side) && in_check(pos, side)
}

/// No legal move, and not in check.
pub open spec fn stalemate(pos: Position, side: Color) -> bool {
    !has_legal_move(pos, side) && !in_check(pos, side)
}

/// What a game is to the rules: the placement, seen from the side to move, and that side.
pub struct GameState {
    pub position: Position,
    pub to_move: Color,
}

/// The state after the side to move has moved from `from` to `to`: the piece
/// has gone over, the turn has passed, and the board is seen from the other side.
pub open spec fn play(state: GameState, from: (int, int), to: (int, int)) -> GameState {
    GameState {
        position: flip(apply_move(state.position, from, to)),
        to_move: state.to_move.opponent(),
    }
}

} // verus!
