use crate::chess::{Color, PieceType};
use crate::rules::{
    GameState, Position, Ray, apply_move, attacked, attacks, bishop_captures, capture_moves,
    cast, checkmate, flip, has_legal_move, hit_square, in_check, king_at, king_from,
    king_square, legal, legal_moves, occupied, pawn_captures, pawn_moves, piece_at, play,
    pseudo_captures, pseudo_moves, quiet_moves, rook_captures, stalemate, undo_move,
    within_board,
};
use crate::squares::{on_board, scan_index};
use vstd::prelude::*;

verus! {

/// A ray of one step looks at one square.
pub proof fn lemma_cast_one_step(pos: Position, x: int, y: int, dx: int, dy: int)
    ensures
        cast(pos, x, y, dx, dy, 1) == if !on_board(x + dx, y + dy) {
            Ray { hit: false, point: None, path: Set::empty() }
        } else if occupied(pos, x + dx, y + dy) {
            Ray { hit: true, point: Some((x + dx, y + dy)), path: Set::empty() }
        } else {
            Ray { hit: false, point: Some((x + dx, y + dy)), path: set![(x + dx, y + dy)] }
        },
{
    reveal_with_fuel(cast, 2);
    if on_board(x + dx, y + dy) && !occupied(pos, x + dx, y + dy) {
        assert(Set::<(int, int)>::empty().insert((x + dx, y + dy)) =~= set![(x + dx, y + dy)]);
    }
}

/// A ray of two steps looks at the second square only if the first is empty.
pub proof fn lemma_cast_two_steps(pos: Position, x: int, y: int, dx: int, dy: int)
    ensures
        cast(pos, x, y, dx, dy, 2) == if !on_board(x + dx, y + dy) || occupied(
            pos,
            x + dx,
            y + dy,
        ) {
            cast(pos, x, y, dx, dy, 1)
        } else if !on_board(x + 2 * dx, y + 2 * dy) {
            Ray { hit: false, point: Some((x + dx, y + dy)), path: set![(x + dx, y + dy)] }
        } else if occupied(pos, x + 2 * dx, y + 2 * dy) {
            Ray { hit: true, point: Some((x + 2 * dx, y + 2 * dy)), path: set![(x + dx, y + dy)] }
        } else {
            Ray {
                hit: false,
                point: Some((x + 2 * dx, y + 2 * dy)),
                path: set![(x + dx, y + dy), (x + 2 * dx, y + 2 * dy)],
            }
        },
{
    reveal_with_fuel(cast, 3);
    lemma_cast_one_step(pos, x + dx, y + dy, dx, dy);
    let first = (x + dx, y + dy);
    let second = (x + 2 * dx, y + 2 * dy);
    assert(second == (x + dx + dx, y + dy + dy));
    assert(Set::<(int, int)>::empty().insert(first) =~= set![first]);
    assert(set![second].insert(first) =~= set![first, second]);
}

/// A ray stays on the board: the square it ends on is a square of the board,
/// occupied exactly if the ray is a hit, and every square of its path is an
/// empty square of the board.
pub proof fn lemma_cast_on_board(pos: Position, x: int, y: int, dx: int, dy: int, steps: nat)
    ensures
        ({
            let ray = cast(pos, x, y, dx, dy, steps);
            &&& ray.hit ==> ray.point is Some
            &&& ray.point matches Some(sq) ==> on_board(sq.0, sq.1) && (ray.hit == occupied(
                pos,
                sq.0,
                sq.1,
            ))
            &&& forall|sq: (int, int)| #[trigger]
                ray.path.contains(sq) ==> on_board(sq.0, sq.1) && !occupied(pos, sq.0, sq.1)
        }),
    decreases steps,
{
    if steps > 0 && on_board(x + dx, y + dy) && !occupied(pos, x + dx, y + dy) {
        lemma_cast_on_board(pos, x + dx, y + dy, dx, dy, (steps - 1) as nat);
    }
}

/// Seeing the board from the other side twice is seeing it as it was.
pub proof fn lemma_flip_twice(pos: Position)
    requires
        within_board(pos),
    ensures
        flip(flip(pos)) == pos,
        within_board(flip(pos)),
{
    assert forall|sq: (int, int)| flip(flip(pos)).dom().contains(sq) == pos.dom().contains(sq) by {
        if pos.dom().contains(sq) {
            assert(on_board(sq.0, sq.1));
            assert(flip(pos).dom().contains((sq.0, 7 - sq.1)));
        }
    }
    assert(flip(flip(pos)) =~= pos);
}

/// Taking a move back restores the position exactly, whatever the move was.
pub proof fn lemma_undo_restores(pos: Position, from: (int, int), to: (int, int))
    requires
        pos.dom().contains(from),
    ensures
        undo_move(apply_move(pos, from, to), from, to, pos[from], piece_at(pos, to.0, to.1)) == pos,
{
    assert(undo_move(apply_move(pos, from, to), from, to, pos[from], piece_at(pos, to.0, to.1))
        =~= pos);
}

/// A legal move never ends on a piece of the mover's own side, and never on a
/// king of either side.
pub proof fn lemma_legal_moves_spare_friends_and_kings(pos: Position, side: Color, x: int, y: int)
    ensures
        forall|to: (int, int)| #[trigger]
            legal_moves(pos, side, x, y).contains(to) ==> match piece_at(pos, to.0, to.1) {
                Some(piece) => piece.piece_color != side && piece.piece_type != PieceType::King,
                None => true,
            },
{
}

/// A legal move leads from a square of the board to another square of the board.
pub proof fn lemma_legal_move_on_board(pos: Position, side: Color, from: (int, int), to: (int, int))
    requires
        legal(pos, side, from, to),
    ensures
        on_board(to.0, to.1),
        from != to,
{
    lemma_pseudo_moves_on_board(pos, from.0, from.1);
}

/// A side that has a legal move is neither checkmated nor stalemated.
pub proof fn lemma_legal_move_excludes_mate(
    pos: Position,
    side: Color,
    from: (int, int),
    to: (int, int),
)
    requires
        on_board(from.0, from.1),
        legal(pos, side, from, to),
    ensures
        !checkmate(pos, side),
        !stalemate(pos, side),
{
    assert(has_legal_move(pos, side));
}

/// A side without a legal move is either checkmated or stalemated, never
/// both, and a side with one is neither.
pub proof fn lemma_mate_or_stalemate(pos: Position, side: Color)
    ensures
        !(checkmate(pos, side) && stalemate(pos, side)),
        (checkmate(pos, side) || stalemate(pos, side)) == !has_legal_move(pos, side),
{
}

/// After a legal move the turn has passed to the other side, the square that
/// the piece left is empty and the square that it went to holds it.
///
/// The board has been turned for the side that moves next, so the square that
/// the mover called `(x, y)` is now called `(x, 7 - y)`.
pub proof fn lemma_play_moves_the_piece(state: GameState, from: (int, int), to: (int, int))
    requires
        within_board(state.position),
        on_board(from.0, from.1),
        legal(state.position, state.to_move, from, to),
    ensures
        play(state, from, to).to_move == state.to_move.opponent(),
        play(state, from, to).to_move != state.to_move,
        piece_at(play(state, from, to).position, from.0, 7 - from.1) is None,
        piece_at(play(state, from, to).position, to.0, 7 - to.1) == piece_at(
            state.position,
            from.0,
            from.1,
        ),
        forall|x: int, y: int|
            on_board(x, y) && (x, y) != from && (x, y) != to ==> piece_at(
                play(state, from, to).position,
                x,
                7 - y,
            ) == piece_at(state.position, x, y),
{
    lemma_legal_move_on_board(state.position, state.to_move, from, to);
    let moved = apply_move(state.position, from, to);
    assert forall|x: int, y: int| on_board(x, y) implies piece_at(flip(moved), x, 7 - y)
        == piece_at(moved, x, y) by {
        assert(on_board(x, 7 - y));
        assert(flip(moved).dom().contains((x, 7 - y)) == moved.dom().contains((x, 7 - (7 - y))));
    }
}

/// The turn alternates: after two moves the side that moved first moves again.
pub proof fn lemma_turns_alternate(
    state: GameState,
    first_from: (int, int),
    first_to: (int, int),
    second_from: (int, int),
    second_to: (int, int),
)
    ensures
        play(play(state, first_from, first_to), second_from, second_to).to_move == state.to_move,
{
}

/// A pawn captures diagonally and advances straight: the square directly
/// ahead is no capture, and no quiet move leaves the pawn's file.
pub proof fn lemma_pawn_directions(pos: Position, x: int, y: int)
    ensures
        !pawn_captures(pos, x, y).contains((x, y + 1)),
        forall|sq: (int, int)| #[trigger] pawn_captures(pos, x, y).contains(sq) ==> sq.0 != x,
        forall|sq: (int, int)| #[trigger] pawn_moves(pos, x, y).contains(sq) ==> sq.0 == x,
        !pawn_moves(pos, x, y).contains((x + 1, y + 1)),
        !pawn_moves(pos, x, y).contains((x - 1, y + 1)),
{
}

/// A ray crosses empty squares of the board, and hits an occupied one.
proof fn lemma_ray_squares(pos: Position, x: int, y: int, dx: int, dy: int, steps: nat)
    ensures
        forall|sq: (int, int)| #[trigger]
            cast(pos, x, y, dx, dy, steps).path.contains(sq) ==> on_board(sq.0, sq.1) && !occupied(
                pos,
                sq.0,
                sq.1,
            ),
        forall|sq: (int, int)| #[trigger]
            hit_square(cast(pos, x, y, dx, dy, steps)).contains(sq) ==> on_board(sq.0, sq.1)
                && occupied(pos, sq.0, sq.1),
{
    lemma_cast_on_board(pos, x, y, dx, dy, steps);
}

/// A piece moves quietly to empty squares and captures on occupied ones, so
/// no square is both.
pub proof fn lemma_quiet_moves_and_captures_apart(pos: Position, kind: PieceType, x: int, y: int)
    ensures
        forall|sq: (int, int)| #[trigger]
            quiet_moves(pos, kind, x, y).contains(sq) ==> on_board(sq.0, sq.1) && !occupied(
                pos,
                sq.0,
                sq.1,
            ),
        forall|sq: (int, int)| #[trigger]
            capture_moves(pos, kind, x, y).contains(sq) ==> on_board(sq.0, sq.1) && occupied(
                pos,
                sq.0,
                sq.1,
            ),
        quiet_moves(pos, kind, x, y).disjoint(capture_moves(pos, kind, x, y)),
{
    if kind == PieceType::Bishop || kind == PieceType::Queen {
        lemma_ray_squares(pos, x, y, -1, -1, 8);
        lemma_ray_squares(pos, x, y, -1, 1, 8);
        lemma_ray_squares(pos, x, y, 1, -1, 8);
        lemma_ray_squares(pos, x, y, 1, 1, 8);
    }
    if kind == PieceType::Rook || kind == PieceType::Queen {
        lemma_ray_squares(pos, x, y, 0, -1, 8);
        lemma_ray_squares(pos, x, y, -1, 0, 8);
        lemma_ray_squares(pos, x, y, 0, 1, 8);
        lemma_ray_squares(pos, x, y, 1, 0, 8);
    }
    assert forall|sq: (int, int)| #[trigger]
        quiet_moves(pos, kind, x, y).contains(sq) implies on_board(sq.0, sq.1) && !occupied(
        pos,
        sq.0,
        sq.1,
    ) by {}
    assert forall|sq: (int, int)| #[trigger]
        capture_moves(pos, kind, x, y).contains(sq) implies on_board(sq.0, sq.1) && occupied(
        pos,
        sq.0,
        sq.1,
    ) by {}
}

/// A piece moves to squares of the board only, and attacks occupied ones.
pub proof fn lemma_pseudo_moves_on_board(pos: Position, x: int, y: int)
    ensures
        forall|sq: (int, int)| #[trigger]
            pseudo_moves(pos, x, y).contains(sq) ==> on_board(sq.0, sq.1),
        forall|sq: (int, int)| #[trigger]
            pseudo_captures(pos, x, y).contains(sq) ==> on_board(sq.0, sq.1) && occupied(
                pos,
                sq.0,
                sq.1,
            ),
{
    if piece_at(pos, x, y) is Some {
        lemma_quiet_moves_and_captures_apart(pos, pos[(x, y)].piece_type, x, y);
    }
}

/// How many steps the board leaves to a ray from `(x, y)` along `(dx, dy)`,
/// counted along the file if the ray changes file and along the rank if not.
pub open spec fn room(x: int, y: int, dx: int, dy: int) -> int {
    if dx > 0 {
        7 - x
    } else if dx < 0 {
        x
    } else if dy > 0 {
        7 - y
    } else {
        y
    }
}

/// A ray that moves cannot take more steps than the board leaves room for: a
/// larger bound changes nothing. In particular no ray takes more than seven
/// steps, and a ray without a bound may be cast with any bound from seven on.
pub proof fn lemma_cast_saturates(
    pos: Position,
    x: int,
    y: int,
    dx: int,
    dy: int,
    steps: nat,
    more: nat,
)
    requires
        on_board(x, y),
        dx != 0 || dy != 0,
        room(x, y, dx, dy) <= steps <= more,
    ensures
        cast(pos, x, y, dx, dy, steps) == cast(pos, x, y, dx, dy, more),
    decreases steps,
{
    if on_board(x + dx, y + dy) && !occupied(pos, x + dx, y + dy) {
        assert(steps > 0);
        lemma_cast_saturates(pos, x + dx, y + dy, dx, dy, (steps - 1) as nat, (more - 1) as nat);
    }
}

/// The king's square is the first king of that side in the scan: no square
/// before it holds one, and where there is no king's square the board holds none.
pub proof fn lemma_king_square_is_first(pos: Position, side: Color)
    ensures
        match king_square(pos, side) {
            Some(king) => {
                &&& on_board(king.0, king.1)
                &&& king_at(pos, side, king.0, king.1)
                &&& forall|x: int, y: int|
                    on_board(x, y) && scan_index(x, y) < scan_index(king.0, king.1) ==> !king_at(
                        pos,
                        side,
                        x,
                        y,
                    )
            },
            None => forall|x: int, y: int| on_board(x, y) ==> !king_at(pos, side, x, y),
        },
{
    lemma_king_from(pos, side, 0);
}

/// What `king_from` finds is the first king at or after `k` in the scan.
proof fn lemma_king_from(pos: Position, side: Color, k: nat)
    requires
        k <= 64,
    ensures
        match king_from(pos, side, k) {
            Some(king) => {
                &&& on_board(king.0, king.1)
                &&& k <= scan_index(king.0, king.1)
                &&& king_at(pos, side, king.0, king.1)
                &&& forall|x: int, y: int|
                    on_board(x, y) && k <= scan_index(x, y) < scan_index(king.0, king.1)
                        ==> !king_at(pos, side, x, y)
            },
            None => forall|x: int, y: int|
                on_board(x, y) && k <= scan_index(x, y) ==> !king_at(pos, side, x, y),
        },
    decreases 64 - k,
{
    if k < 64 && !king_at(pos, side, (k % 8) as int, (k / 8) as int) {
        lemma_king_from(pos, side, k + 1);
        assert forall|x: int, y: int| on_board(x, y) && scan_index(x, y) == k implies !king_at(
            pos,
            side,
            x,
            y,
        ) by {
            assert(x == k % 8 && y == k / 8);
        }
    }
}

/// The square that a ray from `(x, y)` along `(dx, dy)` reaches with its `k`-th step.
pub open spec fn ray_square(x: int, y: int, dx: int, dy: int, k: int) -> (int, int) {
    (x + k * dx, y + k * dy)
}

/// Whether the first `n` squares of the ray from `(x, y)` along `(dx, dy)` are
/// empty squares of the board.
pub open spec fn clear_run(pos: Position, x: int, y: int, dx: int, dy: int, n: int) -> bool {
    forall|k: int|
        1 <= k <= n ==> {
            let sq = #[trigger] ray_square(x, y, dx, dy, k);
            on_board(sq.0, sq.1) && !occupied(pos, sq.0, sq.1)
        }
}

/// Whether the ray crosses `sq`: some step within the bound reaches it, over
/// empty squares only and onto an empty square.
pub open spec fn crossed(
    pos: Position,
    x: int,
    y: int,
    dx: int,
    dy: int,
    steps: nat,
    sq: (int, int),
) -> bool {
    exists|k: int|
        1 <= k <= steps && sq == #[trigger] ray_square(x, y, dx, dy, k) && clear_run(
            pos,
            x,
            y,
            dx,
            dy,
            k,
        )
}

/// Whether the ray is stopped on `sq`: some step within the bound reaches it
/// over empty squares only, and it is an occupied square of the board.
pub open spec fn stopped_on(
    pos: Position,
    x: int,
    y: int,
    dx: int,
    dy: int,
    steps: nat,
    sq: (int, int),
) -> bool {
    exists|k: int|
        1 <= k <= steps && sq == #[trigger] ray_square(x, y, dx, dy, k) && clear_run(
            pos,
            x,
            y,
            dx,
            dy,
            k - 1,
        ) && on_board(sq.0, sq.1) && occupied(pos, sq.0, sq.1)
}

/// The `k`-th square of a ray is the `k - 1`-th square of the ray from its first square.
proof fn lemma_ray_square_shift(x: int, y: int, dx: int, dy: int, k: int)
    ensures
        ray_square(x + dx, y + dy, dx, dy, k - 1) == ray_square(x, y, dx, dy, k),
        ray_square(x, y, dx, dy, 1) == (x + dx, y + dy),
{
    assert((k - 1) * dx == k * dx - dx) by (nonlinear_arith);
    assert((k - 1) * dy == k * dy - dy) by (nonlinear_arith);
}

/// A run from `(x, y)` is clear if its first square is free and the run from there is clear.
proof fn lemma_clear_run_shift(pos: Position, x: int, y: int, dx: int, dy: int, n: int)
    requires
        n >= 1,
    ensures
        clear_run(pos, x, y, dx, dy, n) <==> on_board(x + dx, y + dy) && !occupied(
            pos,
            x + dx,
            y + dy,
        ) && clear_run(pos, x + dx, y + dy, dx, dy, n - 1),
{
    lemma_ray_square_shift(x, y, dx, dy, 1);
    if clear_run(pos, x, y, dx, dy, n) {
        assert(ray_square(x, y, dx, dy, 1) == (x + dx, y + dy));
        assert forall|k: int| 1 <= k <= n - 1 implies {
            let sq = #[trigger] ray_square(x + dx, y + dy, dx, dy, k);
            on_board(sq.0, sq.1) && !occupied(pos, sq.0, sq.1)
        } by {
            lemma_ray_square_shift(x, y, dx, dy, k + 1);
            assert(ray_square(x + dx, y + dy, dx, dy, k) == ray_square(x, y, dx, dy, k + 1));
        }
    }
    if on_board(x + dx, y + dy) && !occupied(pos, x + dx, y + dy) && clear_run(
        pos,
        x + dx,
        y + dy,
        dx,
        dy,
        n - 1,
    ) {
        assert forall|k: int| 1 <= k <= n implies {
            let sq = #[trigger] ray_square(x, y, dx, dy, k);
            on_board(sq.0, sq.1) && !occupied(pos, sq.0, sq.1)
        } by {
            lemma_ray_square_shift(x, y, dx, dy, k);
            if k > 1 {
                assert(ray_square(x + dx, y + dy, dx, dy, k - 1) == ray_square(x, y, dx, dy, k));
            }
        }
    }
}

/// What a ray reports, said without following it step by step: its path is
/// the squares that it reaches over empty squares, and it is a hit on the
/// occupied square, if there is one, that it reaches over empty squares.
pub proof fn lemma_cast_closed_form(pos: Position, x: int, y: int, dx: int, dy: int, steps: nat)
    ensures
        forall|sq: (int, int)|
            cast(pos, x, y, dx, dy, steps).path.contains(sq) <==> crossed(
                pos,
                x,
                y,
                dx,
                dy,
                steps,
                sq,
            ),
        forall|sq: (int, int)|
            (cast(pos, x, y, dx, dy, steps).hit && cast(pos, x, y, dx, dy, steps).point == Some(sq))
                <==> stopped_on(pos, x, y, dx, dy, steps, sq),
    decreases steps,
{
    let ray = cast(pos, x, y, dx, dy, steps);
    let free = on_board(x + dx, y + dy) && !occupied(pos, x + dx, y + dy);
    lemma_ray_square_shift(x, y, dx, dy, 1);
    if steps > 0 && free {
        lemma_cast_closed_form(pos, x + dx, y + dy, dx, dy, (steps - 1) as nat);
    }
    let rest = cast(pos, x + dx, y + dy, dx, dy, (steps - 1) as nat);
    assert forall|sq: (int, int)| ray.path.contains(sq) <==> crossed(
        pos,
        x,
        y,
        dx,
        dy,
        steps,
        sq,
    ) by {
        if ray.path.contains(sq) {
            if sq == (x + dx, y + dy) {
                lemma_clear_run_shift(pos, x, y, dx, dy, 1);
                assert(sq == ray_square(x, y, dx, dy, 1));
            } else {
                assert(crossed(pos, x + dx, y + dy, dx, dy, (steps - 1) as nat, sq));
                let k = choose|k: int|
                    1 <= k <= steps - 1 && sq == #[trigger] ray_square(x + dx, y + dy, dx, dy, k)
                        && clear_run(pos, x + dx, y + dy, dx, dy, k);
                lemma_ray_square_shift(x, y, dx, dy, k + 1);
                lemma_clear_run_shift(pos, x, y, dx, dy, k + 1);
                assert(sq == ray_square(x, y, dx, dy, k + 1));
            }
        }
        if crossed(pos, x, y, dx, dy, steps, sq) {
            let k = choose|k: int|
                1 <= k <= steps && sq == #[trigger] ray_square(x, y, dx, dy, k) && clear_run(
                    pos,
                    x,
                    y,
                    dx,
                    dy,
                    k,
                );
            lemma_clear_run_shift(pos, x, y, dx, dy, k);
            lemma_ray_square_shift(x, y, dx, dy, k);
            if k > 1 {
                assert(sq == ray_square(x + dx, y + dy, dx, dy, k - 1));
                assert(crossed(pos, x + dx, y + dy, dx, dy, (steps - 1) as nat, sq));
            }
        }
    }
    assert forall|sq: (int, int)| (ray.hit && ray.point == Some(sq)) <==> stopped_on(
        pos,
        x,
        y,
        dx,
        dy,
        steps,
        sq,
    ) by {
        if ray.hit && ray.point == Some(sq) {
            if free {
                assert(stopped_on(pos, x + dx, y + dy, dx, dy, (steps - 1) as nat, sq));
                let k = choose|k: int|
                    1 <= k <= steps - 1 && sq == #[trigger] ray_square(x + dx, y + dy, dx, dy, k)
                        && clear_run(pos, x + dx, y + dy, dx, dy, k - 1) && on_board(sq.0, sq.1)
                        && occupied(pos, sq.0, sq.1);
                lemma_ray_square_shift(x, y, dx, dy, k + 1);
                lemma_clear_run_shift(pos, x, y, dx, dy, k);
                assert(sq == ray_square(x, y, dx, dy, k + 1));
            } else {
                assert(sq == ray_square(x, y, dx, dy, 1));
                assert(clear_run(pos, x, y, dx, dy, 0));
            }
        }
        if stopped_on(pos, x, y, dx, dy, steps, sq) {
            let k = choose|k: int|
                1 <= k <= steps && sq == #[trigger] ray_square(x, y, dx, dy, k) && clear_run(
                    pos,
                    x,
                    y,
                    dx,
                    dy,
                    k - 1,
                ) && on_board(sq.0, sq.1) && occupied(pos, sq.0, sq.1);
            lemma_ray_square_shift(x, y, dx, dy, k);
            if k > 1 {
                lemma_clear_run_shift(pos, x, y, dx, dy, k - 1);
                assert(sq == ray_square(x + dx, y + dy, dx, dy, k - 1));
                assert(stopped_on(pos, x + dx, y + dy, dx, dy, (steps - 1) as nat, sq));
                lemma_cast_on_board(pos, x + dx, y + dy, dx, dy, (steps - 1) as nat);
            }
        }
    }
}

/// The square `sq` as the other side of the board counts its rank.
pub open spec fn mirror(sq: (int, int)) -> (int, int) {
    (sq.0, 7 - sq.1)
}

/// The squares of `squares`, each as the other side of the board counts its rank.
pub open spec fn mirrored(squares: Set<(int, int)>) -> Set<(int, int)> {
    Set::new(|sq: (int, int)| squares.contains(mirror(sq)))
}

/// The occupied squares that a piece of the side that is not to move attacks
/// from `(x, y)`, in the position as the side to move sees it: its pawn
/// captures towards lower ranks, and every other kind attacks as it does for
/// the side to move.
pub open spec fn enemy_captures(pos: Position, x: int, y: int) -> Set<(int, int)> {
    match piece_at(pos, x, y) {
        Some(piece) => if piece.piece_type == PieceType::Pawn {
            Set::new(
                |sq: (int, int)|
                    on_board(sq.0, sq.1) && occupied(pos, sq.0, sq.1) && sq.1 == y - 1 && (sq.0
                        == x + 1 || sq.0 == x - 1),
            )
        } else {
            capture_moves(pos, piece.piece_type, x, y)
        },
        None => Set::empty(),
    }
}

/// Whether some piece of the opponent of `side` attacks `target`, in the
/// position as `side` sees it.
pub open spec fn threatened(pos: Position, side: Color, target: (int, int)) -> bool {
    exists|x: int, y: int|
        {
            &&& on_board(x, y)
            &&& piece_at(pos, x, y) matches Some(piece)
            &&& piece.piece_color != side
            &&& #[trigger] enemy_captures(pos, x, y).contains(target)
        }
}

/// A square of the board holds in the flipped position what its mirror holds.
pub proof fn lemma_flip_piece(pos: Position, x: int, y: int)
    requires
        on_board(x, y),
    ensures
        piece_at(flip(pos), x, 7 - y) == piece_at(pos, x, y),
        occupied(flip(pos), x, 7 - y) == occupied(pos, x, y),
{
    assert(on_board(x, 7 - y));
    assert(flip(pos).dom().contains((x, 7 - y)) == pos.dom().contains((x, 7 - (7 - y))));
}

/// A ray over the flipped position is the mirror of the ray over the
/// position that starts on the mirrored square and turns the other way.
pub proof fn lemma_cast_flipped(pos: Position, x: int, y: int, dx: int, dy: int, steps: nat)
    ensures
        ({
            let ray = cast(pos, x, y, dx, dy, steps);
            let turned = cast(flip(pos), x, 7 - y, dx, -dy, steps);
            &&& turned.hit == ray.hit
            &&& turned.point == match ray.point {
                Some(sq) => Some(mirror(sq)),
                None => None,
            }
            &&& turned.path == mirrored(ray.path)
            &&& hit_square(turned) == mirrored(hit_square(ray))
        }),
    decreases steps,
{
    let ray = cast(pos, x, y, dx, dy, steps);
    let turned = cast(flip(pos), x, 7 - y, dx, -dy, steps);
    if steps > 0 && on_board(x + dx, y + dy) {
        lemma_flip_piece(pos, x + dx, y + dy);
        assert(7 - y + (-dy) == 7 - (y + dy));
        if !occupied(pos, x + dx, y + dy) {
            lemma_cast_flipped(pos, x + dx, y + dy, dx, dy, (steps - 1) as nat);
        }
    }
    assert(turned.path =~= mirrored(ray.path));
    assert(hit_square(turned) =~= mirrored(hit_square(ray)));
}

/// What a piece attacks in the flipped position is the mirror of what it
/// attacks as a piece of the side that is not to move.
pub proof fn lemma_captures_flipped(pos: Position, x: int, y: int)
    requires
        on_board(x, y),
    ensures
        pseudo_captures(flip(pos), x, 7 - y) == mirrored(enemy_captures(pos, x, y)),
{
    lemma_flip_piece(pos, x, y);
    let turned = pseudo_captures(flip(pos), x, 7 - y);
    let seen = mirrored(enemy_captures(pos, x, y));
    assert forall|sq: (int, int)| on_board(sq.0, sq.1) implies occupied(flip(pos), sq.0, sq.1)
        == occupied(pos, sq.0, 7 - sq.1) by {
        lemma_flip_piece(pos, sq.0, 7 - sq.1);
    }
    match piece_at(pos, x, y) {
        Some(piece) => {
            match piece.piece_type {
                PieceType::Pawn => {},
                PieceType::Knight => {},
                PieceType::King => {},
                PieceType::Bishop => {
                    lemma_diagonals_flipped(pos, x, y);
                },
                PieceType::Rook => {
                    lemma_straights_flipped(pos, x, y);
                },
                PieceType::Queen => {
                    lemma_diagonals_flipped(pos, x, y);
                    lemma_straights_flipped(pos, x, y);
                },
            }
        },
        None => {},
    }
    assert(turned =~= seen);
}

/// The bishop's captures in the flipped position mirror those in the position.
proof fn lemma_diagonals_flipped(pos: Position, x: int, y: int)
    ensures
        bishop_captures(flip(pos), x, 7 - y) == mirrored(bishop_captures(pos, x, y)),
{
    lemma_cast_flipped(pos, x, y, -1, -1, 8);
    lemma_cast_flipped(pos, x, y, -1, 1, 8);
    lemma_cast_flipped(pos, x, y, 1, -1, 8);
    lemma_cast_flipped(pos, x, y, 1, 1, 8);
    assert(bishop_captures(flip(pos), x, 7 - y) =~= mirrored(bishop_captures(pos, x, y)));
}

/// The rook's captures in the flipped position mirror those in the position.
proof fn lemma_straights_flipped(pos: Position, x: int, y: int)
    ensures
        rook_captures(flip(pos), x, 7 - y) == mirrored(rook_captures(pos, x, y)),
{
    lemma_cast_flipped(pos, x, y, 0, -1, 8);
    lemma_cast_flipped(pos, x, y, -1, 0, 8);
    lemma_cast_flipped(pos, x, y, 0, 1, 8);
    lemma_cast_flipped(pos, x, y, 1, 0, 8);
    assert(rook_captures(flip(pos), x, 7 - y) =~= mirrored(rook_captures(pos, x, y)));
}

/// With one king of `side` on the board, `side` is in check exactly if a
/// piece of the opponent attacks the king's square, where the opponent's
/// pawns capture towards lower ranks: testing the flipped position with the
/// rules of the side to move is testing the position with the opponent's.
pub proof fn lemma_check_is_a_threat_to_the_king(pos: Position, side: Color, kx: int, ky: int)
    requires
        on_board(kx, ky),
        king_at(pos, side, kx, ky),
        forall|x: int, y: int|
            on_board(x, y) && (x, y) != (kx, ky) ==> !#[trigger] king_at(pos, side, x, y),
    ensures
        in_check(pos, side) == threatened(pos, side, (kx, ky)),
{
    let turned = flip(pos);
    lemma_king_square_is_first(turned, side);
    lemma_flip_piece(pos, kx, ky);
    assert(king_at(turned, side, kx, 7 - ky));
    let king = king_square(turned, side).unwrap();
    assert(king_square(turned, side) is Some);
    assert(king == (kx, 7 - ky)) by {
        lemma_flip_piece(pos, king.0, 7 - king.1);
        assert(king_at(pos, side, king.0, 7 - king.1));
    }
    if attacked(turned, side, king) {
        let (a, b) = choose|a: int, b: int| on_board(a, b) && attacks(turned, side, a, b, king);
        lemma_flip_piece(pos, a, 7 - b);
        lemma_captures_flipped(pos, a, 7 - b);
        assert(enemy_captures(pos, a, 7 - b).contains(mirror(king)));
        assert(on_board(a, 7 - b));
    }
    if threatened(pos, side, (kx, ky)) {
        let (x, y) = choose|x: int, y: int|
            {
                &&& on_board(x, y)
                &&& piece_at(pos, x, y) matches Some(piece)
                &&& piece.piece_color != side
                &&& #[trigger] enemy_captures(pos, x, y).contains((kx, ky))
            };
        lemma_flip_piece(pos, x, y);
        lemma_captures_flipped(pos, x, y);
        assert(mirror(king) == (kx, ky));
        assert(attacks(turned, side, x, 7 - y, king));
        assert(on_board(x, 7 - y));
    }
}

} // verus!
