use crate::laws::{
    lemma_cast_on_board, lemma_cast_one_step, lemma_cast_two_steps, lemma_flip_twice,
    lemma_pseudo_moves_on_board, lemma_undo_restores,
};
use crate::rules::{
    GameState, Position, Ray, apply_move, attacked, attacks, bishop_captures, bishop_moves,
    cast, checkmate, flip, has_legal_move, hit_square, in_check, king_captures, king_from,
    king_moves, king_square, knight_captures, knight_moves, legal, legal_moves, may_land,
    occupied, pawn_captures, pawn_moves, piece_at, play, pseudo_captures, pseudo_moves,
    queen_captures, queen_moves, rook_captures, rook_moves, stalemate, step_bound, undo_move,
    within_board,
};
use crate::squares::{SquareSet, on_board, scan_index};
use vstd::prelude::*;

verus! {

/// The six kinds of chess piece.
#[derive(Clone, Copy, Debug, PartialEq, Eq, Structural)]
pub enum PieceType {
    Pawn,
    Bishop,
    Knight,
    Rook,
    Queen,
    King,
}

/// The two sides.
#[derive(Clone, Copy, Debug, PartialEq, Eq, Structural)]
pub enum Color {
    White,
    Black,
}

impl Color {
    /// The other side.
    pub open spec fn opponent(self) -> Color {
        match self {
            Color::White => Color::Black,
            Color::Black => Color::White,
        }
    }
}

/// A piece: a kind and the side that owns it. Two pieces of one kind and side are the same value.
#[derive(Clone, Copy, Debug, PartialEq, Eq, Structural)]
pub struct Piece {
    pub piece_type: PieceType,
    pub piece_color: Color,
}

impl Piece {
    /// The piece of kind `piece_type` that `piece_color` owns.
    pub fn new(piece_type: PieceType, piece_color: Color) -> (piece: Piece)
        ensures
            piece == (Piece { piece_type, piece_color }),
    {
        Piece { piece_type, piece_color }
    }

    /// The side that owns the piece.
    pub fn piece_color(&self) -> (color: Color)
        ensures
            color == self.piece_color,
    {
        self.piece_color
    }

    /// The kind of the piece.
    pub fn piece_type(&self) -> (kind: PieceType)
        ensures
            kind == self.piece_type,
    {
        self.piece_type
    }
}

/// The kind of piece that starts on file `x` of a side's first rank.
pub open spec fn back_rank_kind(x: int) -> PieceType {
    if x == 0 || x == 7 {
        PieceType::Rook
    } else if x == 1 || x == 6 {
        PieceType::Knight
    } else if x == 2 || x == 5 {
        PieceType::Bishop
    } else if x == 3 {
        PieceType::Queen
    } else {
        PieceType::King
    }
}

/// What stands on `(x, y)` when a game begins: White on ranks 0 and 1, Black
/// on ranks 6 and 7, the pawns on the inner rank of each side.
pub open spec fn starting_piece(x: int, y: int) -> Option<Piece> {
    if y == 0 {
        Some(Piece { piece_type: back_rank_kind(x), piece_color: Color::White })
    } else if y == 1 {
        Some(Piece { piece_type: PieceType::Pawn, piece_color: Color::White })
    } else if y == 6 {
        Some(Piece { piece_type: PieceType::Pawn, piece_color: Color::Black })
    } else if y == 7 {
        Some(Piece { piece_type: back_rank_kind(x), piece_color: Color::Black })
    } else {
        None
    }
}

/// The first rank of `side` when a game begins.
fn back_rank(side: Color) -> (rank: [Option<Piece>; 8])
    ensures
        forall|x: int|
            0 <= x < 8 ==> rank[x] == Some(
                Piece { piece_type: back_rank_kind(x), piece_color: side },
            ),
{
    [
        Some(Piece::new(PieceType::Rook, side)),
        Some(Piece::new(PieceType::Knight, side)),
        Some(Piece::new(PieceType::Bishop, side)),
        Some(Piece::new(PieceType::Queen, side)),
        Some(Piece::new(PieceType::King, side)),
        Some(Piece::new(PieceType::Bishop, side)),
        Some(Piece::new(PieceType::Knight, side)),
        Some(Piece::new(PieceType::Rook, side)),
    ]
}

/// The rows of the board when a game begins.
pub fn board_default_setup() -> (setup: [[Option<Piece>; 8]; 8])
    ensures
        forall|x: int, y: int| on_board(x, y) ==> #[trigger] setup[y][x] == starting_piece(x, y),
{
    let empty: [Option<Piece>; 8] = [None; 8];
    [
        back_rank(Color::White),
        [Some(Piece::new(PieceType::Pawn, Color::White)); 8],
        empty,
        empty,
        empty,
        empty,
        [Some(Piece::new(PieceType::Pawn, Color::Black)); 8],
        back_rank(Color::Black),
    ]
}

/// The 8 x 8 grid: `tiles[y][x]` is what stands on file `x` of rank `y`.
pub struct Board {
    tiles: [[Option<Piece>; 8]; 8],
}

impl View for Board {
    type V = Position;

    closed spec fn view(&self) -> Position {
        Map::new(
            |sq: (int, int)| on_board(sq.0, sq.1) && self.tile(sq.0, sq.1) is Some,
            |sq: (int, int)| self.tile(sq.0, sq.1).unwrap(),
        )
    }
}

impl Board {
    /// What the grid holds for `(x, y)`.
    spec fn tile(&self, x: int, y: int) -> Option<Piece> {
        self.tiles[y][x]
    }

    /// A board holds pieces on its 64 squares and nowhere else.
    pub proof fn lemma_within_board(&self)
        ensures
            within_board(self@),
    {
    }

    /// Two boards with the same placement are the same board.
    pub proof fn lemma_view_injective(&self, other: &Board)
        requires
            self@ == other@,
        ensures
            *self == *other,
    {
        assert forall|y: int| 0 <= y < 8 implies self.tiles[y] == other.tiles[y] by {
            assert forall|x: int| 0 <= x < 8 implies self.tiles[y][x] == other.tiles[y][x] by {
                assert(self@.dom().contains((x, y)) == (self.tile(x, y) is Some));
                assert(other@.dom().contains((x, y)) == (other.tile(x, y) is Some));
                if self.tile(x, y) is Some {
                    assert(self@[(x, y)] == self.tile(x, y).unwrap());
                    assert(other@[(x, y)] == other.tile(x, y).unwrap());
                }
                assert(self.tile(x, y) == other.tile(x, y));
            }
            assert(self.tiles[y] =~= other.tiles[y]);
        }
        assert(self.tiles =~= other.tiles);
    }

    /// What stands on `(x, y)`.
    fn get(&self, x: usize, y: usize) -> (piece: Option<Piece>)
        requires
            on_board(x as int, y as int),
        ensures
            piece == piece_at(self@, x as int, y as int),
    {
        assert(self.tile(x as int, y as int) == self.tiles[y as int][x as int]);
        self.tiles[y][x]
    }

    /// Puts `piece` on `(x, y)`, or clears the square.
    fn put(&mut self, x: usize, y: usize, piece: Option<Piece>)
        requires
            on_board(x as int, y as int),
        ensures
            final(self)@ == match piece {
                Some(p) => old(self)@.insert((x as int, y as int), p),
                None => old(self)@.remove((x as int, y as int)),
            },
    {
        self.tiles[y][x] = piece;
        assert forall|a: int, b: int| on_board(a, b) implies #[trigger] self.tile(a, b) == if a == x
            && b == y {
            piece
        } else {
            old(self).tile(a, b)
        } by {}
        assert(self@ =~= match piece {
            Some(p) => old(self)@.insert((x as int, y as int), p),
            None => old(self)@.remove((x as int, y as int)),
        });
    }

    /// Turns the board round: rank `y` becomes rank `7 - y`.
    fn reverse_ranks(&mut self)
        ensures
            final(self)@ == flip(old(self)@),
    {
        let mut i: usize = 0;
        while i < 4
            invariant
                i <= 4,
                forall|a: int, b: int|
                    0 <= a < 8 && (0 <= b < i || 8 - i <= b < 8) ==> #[trigger] self.tile(a, b)
                        == old(self).tile(a, 7 - b),
                forall|a: int, b: int|
                    0 <= a < 8 && i <= b < 8 - i ==> #[trigger] self.tile(a, b) == old(self).tile(
                        a,
                        b,
                    ),
            decreases 4 - i,
        {
            let ghost before = *self;
            let low = self.tiles[i];
            let high = self.tiles[7 - i];
            self.tiles[i] = high;
            self.tiles[7 - i] = low;
            assert forall|a: int, b: int| on_board(a, b) implies #[trigger] self.tile(a, b) == if b
                == i || b == 7 - i {
                before.tile(a, 7 - b)
            } else {
                before.tile(a, b)
            } by {}
            i += 1;
        }
        assert(self@ =~= flip(old(self)@));
    }

    /// The board with the given rows: `setup[y][x]` stands on file `x` of rank `y`.
    pub fn new(setup: [[Option<Piece>; 8]; 8]) -> (board: Board)
        ensures
            within_board(board@),
            forall|x: int, y: int|
                on_board(x, y) ==> #[trigger] piece_at(board@, x, y) == setup[y][x],
    {
        let board = Board { tiles: setup };
        assert forall|x: int, y: int| on_board(x, y) implies #[trigger] piece_at(board@, x, y)
            == setup[y][x] by {
            assert(board.tile(x, y) == setup[y][x]);
        }
        board
    }
}

/// A game in progress: the board, turned so that the side to move advances
/// towards higher ranks, and the side to move.
pub struct Game {
    board: Board,
    player_to_move: Color,
}

impl View for Game {
    type V = GameState;

    closed spec fn view(&self) -> GameState {
        GameState { position: self.board@, to_move: self.player_to_move }
    }
}

/// The outcome of casting a ray over the board of a game.
pub struct RaycastInfo {
    pub is_hit: bool,
    pub point: Option<(usize, usize)>,
    pub path: SquareSet,
}

impl View for RaycastInfo {
    type V = Ray;

    open spec fn view(&self) -> Ray {
        Ray {
            hit: self.is_hit,
            point: match self.point {
                Some(sq) => Some((sq.0 as int, sq.1 as int)),
                None => None,
            },
            path: self.path@,
        }
    }
}

/// What a move did, so that it can be taken back: the squares, the piece that
/// moved, and the piece that it displaced.
struct MoveInfo {
    moved: Piece,
    captured: Option<Piece>,
    from_x: usize,
    from_y: usize,
    to_x: usize,
    to_y: usize,
}

/// The ray `rest`, cast from the last of the squares `crossed`, seen from where those began.
spec fn continued(crossed: Set<(int, int)>, last: Option<(int, int)>, rest: Ray) -> Ray {
    Ray {
        hit: rest.hit,
        point: if rest.point is Some {
            rest.point
        } else {
            last
        },
        path: crossed.union(rest.path),
    }
}

/// The part of a ray that counts: the square it hit, or the empty squares it crossed.
spec fn ray_part(ray: Ray, hits: bool) -> Set<(int, int)> {
    if hits {
        hit_square(ray)
    } else {
        ray.path
    }
}

/// What the rays from `(x, y)` along the first `n` of the directions `dirs` contribute.
spec fn sweep(
    pos: Position,
    x: int,
    y: int,
    dirs: Seq<(isize, isize)>,
    steps: nat,
    hits: bool,
    n: nat,
) -> Set<(int, int)>
    decreases n,
{
    if n == 0 {
        Set::empty()
    } else {
        sweep(pos, x, y, dirs, steps, hits, (n - 1) as nat).union(
            ray_part(cast(pos, x, y, dirs[n - 1].0 as int, dirs[n - 1].1 as int, steps), hits),
        )
    }
}

/// The jumps of a knight, in the order in which they are tried.
spec fn knight_jumps() -> Seq<(isize, isize)> {
    seq![
        (1isize, 2isize),
        (2isize, 1isize),
        (2isize, -1isize),
        (1isize, -2isize),
        (-1isize, -2isize),
        (-2isize, -1isize),
        (-2isize, 1isize),
        (-1isize, 2isize),
    ]
}

/// The steps of a king, in the order in which they are tried.
spec fn king_steps() -> Seq<(isize, isize)> {
    seq![
        (-1isize, -1isize),
        (-1isize, 0isize),
        (-1isize, 1isize),
        (0isize, -1isize),
        (0isize, 1isize),
        (1isize, -1isize),
        (1isize, 0isize),
        (1isize, 1isize),
    ]
}

/// The four diagonal directions.
spec fn diagonals() -> Seq<(isize, isize)> {
    seq![(-1isize, -1isize), (-1isize, 1isize), (1isize, -1isize), (1isize, 1isize)]
}

/// The four directions along a rank or a file.
spec fn straights() -> Seq<(isize, isize)> {
    seq![(0isize, -1isize), (-1isize, 0isize), (0isize, 1isize), (1isize, 0isize)]
}

/// The square one step away by `(dx, dy)`, if it is on the board and is
/// occupied (for `hits`) or empty (otherwise); as a set of at most one square.
spec fn step_square(pos: Position, x: int, y: int, dx: int, dy: int, hits: bool) -> Set<
    (int, int),
> {
    if on_board(x + dx, y + dy) && occupied(pos, x + dx, y + dy) == hits {
        set![(x + dx, y + dy)]
    } else {
        Set::empty()
    }
}

/// The `n`-th ray of a sweep of one-step rays contributes the square one step away.
proof fn lemma_sweep_step(
    pos: Position,
    x: int,
    y: int,
    dirs: Seq<(isize, isize)>,
    hits: bool,
    n: nat,
    dx: int,
    dy: int,
)
    requires
        0 < n <= dirs.len(),
        dirs[n - 1].0 == dx,
        dirs[n - 1].1 == dy,
    ensures
        sweep(pos, x, y, dirs, 1, hits, n) == sweep(pos, x, y, dirs, 1, hits, (n - 1) as nat).union(
            step_square(pos, x, y, dx, dy, hits),
        ),
{
    lemma_cast_one_step(pos, x, y, dx, dy);
    assert(ray_part(cast(pos, x, y, dx, dy, 1), hits) =~= step_square(pos, x, y, dx, dy, hits));
}

/// One-step rays along the eight jumps of a knight give the knight's squares.
proof fn lemma_sweep_knight(pos: Position, x: int, y: int, hits: bool)
    ensures
        sweep(pos, x, y, knight_jumps(), 1, hits, 8) == if hits {
            knight_captures(pos, x, y)
        } else {
            knight_moves(pos, x, y)
        },
{
    let dirs = knight_jumps();
    assert(sweep(pos, x, y, dirs, 1, hits, 0) == Set::<(int, int)>::empty());
    lemma_sweep_step(pos, x, y, dirs, hits, 1, 1, 2);
    lemma_sweep_step(pos, x, y, dirs, hits, 2, 2, 1);
    lemma_sweep_step(pos, x, y, dirs, hits, 3, 2, -1);
    lemma_sweep_step(pos, x, y, dirs, hits, 4, 1, -2);
    lemma_sweep_step(pos, x, y, dirs, hits, 5, -1, -2);
    lemma_sweep_step(pos, x, y, dirs, hits, 6, -2, -1);
    lemma_sweep_step(pos, x, y, dirs, hits, 7, -2, 1);
    lemma_sweep_step(pos, x, y, dirs, hits, 8, -1, 2);
    if hits {
        assert(sweep(pos, x, y, dirs, 1, hits, 8) =~= knight_captures(pos, x, y));
    } else {
        assert(sweep(pos, x, y, dirs, 1, hits, 8) =~= knight_moves(pos, x, y));
    }
}

/// One-step rays along the eight steps of a king give the king's squares.
proof fn lemma_sweep_king(pos: Position, x: int, y: int, hits: bool)
    ensures
        sweep(pos, x, y, king_steps(), 1, hits, 8) == if hits {
            king_captures(pos, x, y)
        } else {
            king_moves(pos, x, y)
        },
{
    let dirs = king_steps();
    assert(sweep(pos, x, y, dirs, 1, hits, 0) == Set::<(int, int)>::empty());
    lemma_sweep_step(pos, x, y, dirs, hits, 1, -1, -1);
    lemma_sweep_step(pos, x, y, dirs, hits, 2, -1, 0);
    lemma_sweep_step(pos, x, y, dirs, hits, 3, -1, 1);
    lemma_sweep_step(pos, x, y, dirs, hits, 4, 0, -1);
    lemma_sweep_step(pos, x, y, dirs, hits, 5, 0, 1);
    lemma_sweep_step(pos, x, y, dirs, hits, 6, 1, -1);
    lemma_sweep_step(pos, x, y, dirs, hits, 7, 1, 0);
    lemma_sweep_step(pos, x, y, dirs, hits, 8, 1, 1);
    if hits {
        assert(sweep(pos, x, y, dirs, 1, hits, 8) =~= king_captures(pos, x, y));
    } else {
        assert(sweep(pos, x, y, dirs, 1, hits, 8) =~= king_moves(pos, x, y));
    }
}

/// Unbounded rays along the diagonals give the bishop's squares, and those
/// along the rank and the file give the rook's.
proof fn lemma_sweep_sliders(pos: Position, x: int, y: int, hits: bool)
    ensures
        sweep(pos, x, y, diagonals(), 8, hits, 4) == if hits {
            bishop_captures(pos, x, y)
        } else {
            bishop_moves(pos, x, y)
        },
        sweep(pos, x, y, straights(), 8, hits, 4) == if hits {
            rook_captures(pos, x, y)
        } else {
            rook_moves(pos, x, y)
        },
{
    reveal_with_fuel(sweep, 5);
    if hits {
        assert(sweep(pos, x, y, diagonals(), 8, hits, 4) =~= bishop_captures(pos, x, y));
        assert(sweep(pos, x, y, straights(), 8, hits, 4) =~= rook_captures(pos, x, y));
    } else {
        assert(sweep(pos, x, y, diagonals(), 8, hits, 4) =~= bishop_moves(pos, x, y));
        assert(sweep(pos, x, y, straights(), 8, hits, 4) =~= rook_moves(pos, x, y));
    }
}

impl Game {
    /// A game's placement keeps to the board.
    pub proof fn lemma_within_board(&self)
        ensures
            within_board(self@.position),
    {
        self.board.lemma_within_board();
    }

    /// Two games with the same placement and side to move are the same game.
    pub proof fn lemma_view_injective(self, other: Game)
        requires
            self@ == other@,
        ensures
            self == other,
    {
        self.board.lemma_view_injective(&other.board);
    }

    /// Whether no piece stands on `(x, y)`.
    pub fn is_empty(&self, x: usize, y: usize) -> (empty: bool)
        requires
            on_board(x as int, y as int),
        ensures
            empty == !self@.position.dom().contains((x as int, y as int)),
    {
        self.board.get(x, y).is_none()
    }

    /// Whether `(x, y)` is a square of the board.
    pub fn is_bounded(&self, x: isize, y: isize) -> (inside: bool)
        ensures
            inside == on_board(x as int, y as int),
    {
        x >= 0 && x < 8 && y >= 0 && y < 8
    }

    /// Casts the ray from `(x, y)` that advances by `(dx, dy)`, at most `steps`
    /// times where a bound is given and to the edge of the board where none is.
    pub fn cast_ray(
        &self,
        x: usize,
        y: usize,
        dx: isize,
        dy: isize,
        steps: Option<usize>,
    ) -> (ray: RaycastInfo)
        requires
            on_board(x as int, y as int),
            -2 <= dx <= 2,
            -2 <= dy <= 2,
        ensures
            ray@ == cast(
                self@.position,
                x as int,
                y as int,
                dx as int,
                dy as int,
                step_bound(steps),
            ),
    {
        let bound: usize = match steps {
            Some(n) => n,
            None => 8,
        };
        let mut path = SquareSet::new();
        let mut rx: isize = x as isize;
        let mut ry: isize = y as isize;
        let mut i: usize = 0;
        let ghost whole = cast(
            self@.position,
            x as int,
            y as int,
            dx as int,
            dy as int,
            bound as nat,
        );
        assert(continued(path@, None, whole) == whole) by {
            assert(path@.union(whole.path) =~= whole.path);
        }
        loop
            invariant
                i <= bound,
                on_board(rx as int, ry as int),
                -2 <= dx <= 2,
                -2 <= dy <= 2,
                whole == cast(
                    self@.position,
                    x as int,
                    y as int,
                    dx as int,
                    dy as int,
                    step_bound(steps),
                ),
                whole == continued(
                    path@,
                    if i == 0 {
                        None
                    } else {
                        Some((rx as int, ry as int))
                    },
                    cast(
                        self@.position,
                        rx as int,
                        ry as int,
                        dx as int,
                        dy as int,
                        (bound - i) as nat,
                    ),
                ),
            ensures
                on_board(rx as int, ry as int),
                whole == (Ray {
                    hit: false,
                    point: if i == 0 {
                        None
                    } else {
                        Some((rx as int, ry as int))
                    },
                    path: path@,
                }),
            decreases bound - i,
        {
            let ghost rest = cast(
                self@.position,
                rx as int,
                ry as int,
                dx as int,
                dy as int,
                (bound - i) as nat,
            );
            if i >= bound {
                assert(path@.union(rest.path) =~= path@);
                break ;
            }
            let nx: isize = rx + dx;
            let ny: isize = ry + dy;
            if !self.is_bounded(nx, ny) {
                assert(path@.union(rest.path) =~= path@);
                break ;
            }
            if self.is_empty(nx as usize, ny as usize) {
                let ghost before = path@;
                let ghost after = cast(
                    self@.position,
                    nx as int,
                    ny as int,
                    dx as int,
                    dy as int,
                    (bound - i - 1) as nat,
                );
                path.insert((nx as usize, ny as usize));
                assert(before.union(rest.path) =~= path@.union(after.path));
                i += 1;
                rx = nx;
                ry = ny;
            } else {
                assert(rest == (Ray {
                    hit: true,
                    point: Some((nx as int, ny as int)),
                    path: Set::empty(),
                }));
                assert(path@.union(rest.path) =~= path@);
                return RaycastInfo { is_hit: true, path, point: Some((nx as usize, ny as usize)) };
            }
        }
        if i == 0 {
            return RaycastInfo { is_hit: false, path, point: None };
        }
        RaycastInfo { is_hit: false, path, point: Some((rx as usize, ry as usize)) }
    }

    /// Whether the side to move may put a piece on `(x, y)`: not on a king, and
    /// not on a piece of its own.
    pub fn can_be_here(&self, x: usize, y: usize) -> (free: bool)
        requires
            on_board(x as int, y as int),
        ensures
            free == may_land(self@.position, self@.to_move, x as int, y as int),
    {
        if let Some(piece) = self.get_piece(x, y) {
            if piece.piece_type == PieceType::King {
                return false;
            }
            if piece.piece_color == self.player_to_move {
                return false;
            }
        }
        true
    }

    /// Casts one ray from `(x, y)` along each of the directions `dirs` and adds
    /// to `found` the squares hit, or the squares crossed.
    fn sweep_rays<const N: usize>(
        &self,
        x: usize,
        y: usize,
        dirs: &[(isize, isize); N],
        steps: Option<usize>,
        hits: bool,
        found: &mut SquareSet,
    )
        requires
            on_board(x as int, y as int),
            forall|j: int| 0 <= j < N ==> -2 <= (#[trigger] dirs[j]).0 <= 2 && -2 <= dirs[j].1 <= 2,
        ensures
            final(found)@ == old(found)@.union(
                sweep(self@.position, x as int, y as int, dirs@, step_bound(steps), hits, N as nat),
            ),
    {
        let mut i: usize = 0;
        assert(found@.union(Set::<(int, int)>::empty()) =~= found@);
        while i < N
            invariant
                i <= N,
                on_board(x as int, y as int),
                forall|j: int|
                    0 <= j < N ==> -2 <= (#[trigger] dirs[j]).0 <= 2 && -2 <= dirs[j].1 <= 2,
                found@ == old(found)@.union(
                    sweep(
                        self@.position,
                        x as int,
                        y as int,
                        dirs@,
                        step_bound(steps),
                        hits,
                        i as nat,
                    ),
                ),
            decreases N - i,
        {
            let ghost before = found@;
            let dir = dirs[i];
            let raycast = self.cast_ray(x, y, dir.0, dir.1, steps);
            proof {
                lemma_cast_on_board(
                    self@.position,
                    x as int,
                    y as int,
                    dir.0 as int,
                    dir.1 as int,
                    step_bound(steps),
                );
            }
            if hits {
                if raycast.is_hit {
                    if let Some(point) = raycast.point {
                        found.insert(point);
                    }
                }
            } else {
                found.extend(&raycast.path);
            }
            assert(found@ =~= before.union(ray_part(raycast@, hits)));
            assert(found@ =~= old(found)@.union(
                sweep(
                    self@.position,
                    x as int,
                    y as int,
                    dirs@,
                    step_bound(steps),
                    hits,
                    (i + 1) as nat,
                ),
            ));
            i += 1;
        }
    }

    /// Adds the occupied squares diagonally ahead of the pawn on `(x, y)`.
    pub fn get_pseudo_captures_pawn(&self, x: usize, y: usize, captures: &mut SquareSet)
        requires
            on_board(x as int, y as int),
        ensures
            final(captures)@ == old(captures)@.union(
                pawn_captures(self@.position, x as int, y as int),
            ),
    {
        proof {
            lemma_cast_one_step(self@.position, x as int, y as int, 1, 1);
            lemma_cast_one_step(self@.position, x as int, y as int, -1, 1);
        }
        let raycast = self.cast_ray(x, y, 1, 1, Some(1));
        if raycast.is_hit {
            if let Some(point) = raycast.point {
                captures.insert(point);
            }
        }
        let raycast = self.cast_ray(x, y, -1, 1, Some(1));
        if raycast.is_hit {
            if let Some(point) = raycast.point {
                captures.insert(point);
            }
        }
        assert(captures@ =~= old(captures)@.union(
            pawn_captures(self@.position, x as int, y as int),
        ));
    }

    /// Adds the empty squares to which the pawn on `(x, y)` may advance.
    pub fn get_pseudo_moves_pawn(&self, x: usize, y: usize, moves: &mut SquareSet)
        requires
            on_board(x as int, y as int),
        ensures
            final(moves)@ == old(moves)@.union(pawn_moves(self@.position, x as int, y as int)),
    {
        proof {
            lemma_cast_one_step(self@.position, x as int, y as int, 0, 1);
            lemma_cast_two_steps(self@.position, x as int, y as int, 0, 1);
        }
        let raycast = self.cast_ray(x, y, 0, 1, Some(1));
        if !raycast.is_hit {
            if let Some(point) = raycast.point {
                moves.insert(point);
            }
        }
        if y == 1 {
            let raycast = self.cast_ray(x, y, 0, 1, Some(2));
            if !raycast.is_hit {
                if let Some(point) = raycast.point {
                    moves.insert(point);
                }
            }
        }
        assert(moves@ =~= old(moves)@.union(pawn_moves(self@.position, x as int, y as int)));
    }

    /// Adds the empty squares that a bishop on `(x, y)` reaches.
    pub fn get_pseudo_moves_bishop(&self, x: usize, y: usize, moves: &mut SquareSet)
        requires
            on_board(x as int, y as int),
        ensures
            final(moves)@ == old(moves)@.union(bishop_moves(self@.position, x as int, y as int)),
    {
        let dirs: [(isize, isize); 4] = [(-1, -1), (-1, 1), (1, -1), (1, 1)];
        assert(dirs@ =~= diagonals());
        self.sweep_rays(x, y, &dirs, None, false, moves);
        proof {
            lemma_sweep_sliders(self@.position, x as int, y as int, false);
        }
    }

    /// Adds the occupied squares on which the diagonals from `(x, y)` end.
    pub fn get_pseudo_captures_bishop(&self, x: usize, y: usize, captures: &mut SquareSet)
        requires
            on_board(x as int, y as int),
        ensures
            final(captures)@ == old(captures)@.union(
                bishop_captures(self@.position, x as int, y as int),
            ),
    {
        let dirs: [(isize, isize); 4] = [(-1, -1), (-1, 1), (1, -1), (1, 1)];
        assert(dirs@ =~= diagonals());
        self.sweep_rays(x, y, &dirs, None, true, captures);
        proof {
            lemma_sweep_sliders(self@.position, x as int, y as int, true);
        }
    }

    /// Adds the empty squares a knight's jump away from `(x, y)`.
    pub fn get_pseudo_moves_knight(&self, x: usize, y: usize, moves: &mut SquareSet)
        requires
            on_board(x as int, y as int),
        ensures
            final(moves)@ == old(moves)@.union(knight_moves(self@.position, x as int, y as int)),
    {
        let jumps: [(isize, isize); 8] = [
            (1, 2),
            (2, 1),
            (2, -1),
            (1, -2),
            (-1, -2),
            (-2, -1),
            (-2, 1),
            (-1, 2),
        ];
        assert(jumps@ =~= knight_jumps());
        self.sweep_rays(x, y, &jumps, Some(1), false, moves);
        proof {
            lemma_sweep_knight(self@.position, x as int, y as int, false);
        }
    }

    /// Adds the occupied squares a knight's jump away from `(x, y)`.
    pub fn get_pseudo_captures_knight(&self, x: usize, y: usize, moves: &mut SquareSet)
        requires
            on_board(x as int, y as int),
        ensures
            final(moves)@ == old(moves)@.union(knight_captures(self@.position, x as int, y as int)),
    {
        let jumps: [(isize, isize); 8] = [
            (1, 2),
            (2, 1),
            (2, -1),
            (1, -2),
            (-1, -2),
            (-2, -1),
            (-2, 1),
            (-1, 2),
        ];
        assert(jumps@ =~= knight_jumps());
        self.sweep_rays(x, y, &jumps, Some(1), true, moves);
        proof {
            lemma_sweep_knight(self@.position, x as int, y as int, true);
        }
    }

    /// Adds the empty squares that a rook on `(x, y)` reaches.
    pub fn get_pseudo_moves_rook(&self, x: usize, y: usize, moves: &mut SquareSet)
        requires
            on_board(x as int, y as int),
        ensures
            final(moves)@ == old(moves)@.union(rook_moves(self@.position, x as int, y as int)),
    {
        let dirs: [(isize, isize); 4] = [(0, -1), (-1, 0), (0, 1), (1, 0)];
        assert(dirs@ =~= straights());
        self.sweep_rays(x, y, &dirs, None, false, moves);
        proof {
            lemma_sweep_sliders(self@.position, x as int, y as int, false);
        }
    }

    /// Adds the occupied squares on which the rank and the file of `(x, y)` end.
    pub fn get_pseudo_captures_rook(&self, x: usize, y: usize, captures: &mut SquareSet)
        requires
            on_board(x as int, y as int),
        ensures
            final(captures)@ == old(captures)@.union(
                rook_captures(self@.position, x as int, y as int),
            ),
    {
        let dirs: [(isize, isize); 4] = [(0, -1), (-1, 0), (0, 1), (1, 0)];
        assert(dirs@ =~= straights());
        self.sweep_rays(x, y, &dirs, None, true, captures);
        proof {
            lemma_sweep_sliders(self@.position, x as int, y as int, true);
        }
    }

    /// Adds the empty squares that a queen on `(x, y)` reaches: a bishop's and a rook's.
    pub fn get_pseudo_moves_queen(&self, x: usize, y: usize, moves: &mut SquareSet)
        requires
            on_board(x as int, y as int),
        ensures
            final(moves)@ == old(moves)@.union(queen_moves(self@.position, x as int, y as int)),
    {
        self.get_pseudo_moves_bishop(x, y, moves);
        self.get_pseudo_moves_rook(x, y, moves);
        assert(moves@ =~= old(moves)@.union(queen_moves(self@.position, x as int, y as int)));
    }

    /// Adds the occupied squares that a queen on `(x, y)` attacks: a bishop's and a rook's.
    pub fn get_pseudo_captures_queen(&self, x: usize, y: usize, captures: &mut SquareSet)
        requires
            on_board(x as int, y as int),
        ensures
            final(captures)@ == old(captures)@.union(
                queen_captures(self@.position, x as int, y as int),
            ),
    {
        self.get_pseudo_captures_bishop(x, y, captures);
        self.get_pseudo_captures_rook(x, y, captures);
        assert(captures@ =~= old(captures)@.union(
            queen_captures(self@.position, x as int, y as int),
        ));
    }

    /// Adds the empty squares next to `(x, y)`.
    pub fn get_pseudo_moves_king(&self, x: usize, y: usize, moves: &mut SquareSet)
        requires
            on_board(x as int, y as int),
        ensures
            final(moves)@ == old(moves)@.union(king_moves(self@.position, x as int, y as int)),
    {
        let steps: [(isize, isize); 8] = [
            (-1, -1),
            (-1, 0),
            (-1, 1),
            (0, -1),
            (0, 1),
            (1, -1),
            (1, 0),
            (1, 1),
        ];
        assert(steps@ =~= king_steps());
        self.sweep_rays(x, y, &steps, Some(1), false, moves);
        proof {
            lemma_sweep_king(self@.position, x as int, y as int, false);
        }
    }

    /// Adds the occupied squares next to `(x, y)`.
    pub fn get_pseudo_captures_king(&self, x: usize, y: usize, captures: &mut SquareSet)
        requires
            on_board(x as int, y as int),
        ensures
            final(captures)@ == old(captures)@.union(
                king_captures(self@.position, x as int, y as int),
            ),
    {
        let steps: [(isize, isize); 8] = [
            (-1, -1),
            (-1, 0),
            (-1, 1),
            (0, -1),
            (0, 1),
            (1, -1),
            (1, 0),
            (1, 1),
        ];
        assert(steps@ =~= king_steps());
        self.sweep_rays(x, y, &steps, Some(1), true, captures);
        proof {
            lemma_sweep_king(self@.position, x as int, y as int, true);
        }
    }

    /// Every square that the occupant of `(x, y)` reaches by the way its kind
    /// moves; no square from an empty one.
    pub fn get_pseudo_moves(&self, x: usize, y: usize) -> (moves: SquareSet)
        requires
            on_board(x as int, y as int),
        ensures
            moves@ == pseudo_moves(self@.position, x as int, y as int),
    {
        let mut moves = SquareSet::new();
        if let Some(piece) = self.get_piece(x, y) {
            match piece.piece_type {
                PieceType::Pawn => {
                    self.get_pseudo_moves_pawn(x, y, &mut moves);
                    self.get_pseudo_captures_pawn(x, y, &mut moves);
                },
                PieceType::Bishop => {
                    self.get_pseudo_moves_bishop(x, y, &mut moves);
                    self.get_pseudo_captures_bishop(x, y, &mut moves);
                },
                PieceType::Knight => {
                    self.get_pseudo_moves_knight(x, y, &mut moves);
                    self.get_pseudo_captures_knight(x, y, &mut moves);
                },
                PieceType::Rook => {
                    self.get_pseudo_moves_rook(x, y, &mut moves);
                    self.get_pseudo_captures_rook(x, y, &mut moves);
                },
                PieceType::Queen => {
                    self.get_pseudo_moves_queen(x, y, &mut moves);
                    self.get_pseudo_captures_queen(x, y, &mut moves);
                },
                PieceType::King => {
                    self.get_pseudo_moves_king(x, y, &mut moves);
                    self.get_pseudo_captures_king(x, y, &mut moves);
                },
            }
        }
        assert(moves@ =~= pseudo_moves(self@.position, x as int, y as int));
        moves
    }

    /// Whether the occupant of `from` reaches `to` by the way its kind moves.
    pub fn is_pseudo_legal(
        &self,
        from_x: usize,
        from_y: usize,
        to_x: usize,
        to_y: usize,
    ) -> (ok: bool)
        requires
            on_board(from_x as int, from_y as int),
        ensures
            ok == pseudo_moves(self@.position, from_x as int, from_y as int).contains(
                (to_x as int, to_y as int),
            ),
    {
        if let Some(_) = self.get_piece(from_x, from_y) {
            let pseudo_moves = self.get_pseudo_moves(from_x, from_y);
            if pseudo_moves.contains((to_x, to_y)) {
                return true;
            }
        }
        false
    }

    /// The occupied squares that the occupant of `(x, y)` attacks.
    pub fn get_pseudo_captures(&self, x: usize, y: usize) -> (captures: SquareSet)
        requires
            on_board(x as int, y as int),
        ensures
            captures@ == pseudo_captures(self@.position, x as int, y as int),
    {
        let mut captures = SquareSet::new();
        if let Some(piece) = self.get_piece(x, y) {
            match piece.piece_type {
                PieceType::Pawn => self.get_pseudo_captures_pawn(x, y, &mut captures),
                PieceType::Bishop => self.get_pseudo_captures_bishop(x, y, &mut captures),
                PieceType::Knight => self.get_pseudo_captures_knight(x, y, &mut captures),
                PieceType::Rook => self.get_pseudo_captures_rook(x, y, &mut captures),
                PieceType::Queen => self.get_pseudo_captures_queen(x, y, &mut captures),
                PieceType::King => self.get_pseudo_captures_king(x, y, &mut captures),
            }
        }
        assert(captures@ =~= pseudo_captures(self@.position, x as int, y as int));
        captures
    }

    /// The square of the king of the side to move: the first that a scan of the
    /// board meets, rank by rank.
    pub fn find_king(&self) -> (king: Option<(usize, usize)>)
        ensures
            match king_square(self@.position, self@.to_move) {
                Some(sq) => on_board(sq.0, sq.1) && king == Some((sq.0 as usize, sq.1 as usize)),
                None => king is None,
            },
    {
        let mut y: usize = 0;
        while y < 8
            invariant
                y <= 8,
                king_square(self@.position, self@.to_move) == king_from(
                    self@.position,
                    self@.to_move,
                    (8 * y) as nat,
                ),
            decreases 8 - y,
        {
            let mut x: usize = 0;
            while x < 8
                invariant
                    x <= 8,
                    y < 8,
                    king_square(self@.position, self@.to_move) == king_from(
                        self@.position,
                        self@.to_move,
                        (8 * y + x) as nat,
                    ),
                decreases 8 - x,
            {
                assert((8 * y + x) % 8 == x && (8 * y + x) / 8 == y);
                if let Some(piece) = self.get_piece(x, y) {
                    if piece.piece_type == PieceType::King {
                        if piece.piece_color == self.player_to_move {
                            return Some((x, y));
                        }
                    }
                }
                x += 1;
            }
            y += 1;
        }
        None
    }

    /// Turns the board round, so that the other side sees its own pawns advance to higher ranks.
    fn flip_board(&mut self)
        ensures
            final(self)@.position == flip(old(self)@.position),
            final(self)@.to_move == old(self)@.to_move,
    {
        self.board.reverse_ranks();
    }

    /// Whether the side to move is in check. The board is turned for the test
    /// and turned back: the game is left as it was.
    pub fn in_check(&mut self) -> (checked: bool)
        ensures
            *final(self) == *old(self),
            checked == in_check(old(self)@.position, old(self)@.to_move),
    {
        let ghost initial = *self;
        proof {
            initial.lemma_within_board();
            lemma_flip_twice(initial@.position);
        }
        self.flip_board();
        let ghost turned = self@.position;
        let ghost side = self@.to_move;
        let mut found = false;
        if let Some(king) = self.find_king() {
            let ghost target = (king.0 as int, king.1 as int);
            let mut y: usize = 0;
            while y < 8 && !found
                invariant
                    y <= 8,
                    self@.position == turned,
                    self@.to_move == side,
                    target == (king.0 as int, king.1 as int),
                    found ==> attacked(turned, side, target),
                    !found ==> forall|a: int, b: int|
                        on_board(a, b) && scan_index(a, b) < 8 * y ==> !attacks(
                            turned,
                            side,
                            a,
                            b,
                            target,
                        ),
                decreases 8 - y,
            {
                let mut x: usize = 0;
                while x < 8 && !found
                    invariant
                        x <= 8,
                        y < 8,
                        self@.position == turned,
                        self@.to_move == side,
                        target == (king.0 as int, king.1 as int),
                        found ==> attacked(turned, side, target),
                        !found ==> forall|a: int, b: int|
                            on_board(a, b) && scan_index(a, b) < 8 * y + x ==> !attacks(
                                turned,
                                side,
                                a,
                                b,
                                target,
                            ),
                    decreases 8 - x,
                {
                    if let Some(piece) = self.get_piece(x, y) {
                        if piece.piece_color != self.player_to_move {
                            let captures = self.get_pseudo_captures(x, y);
                            if captures.contains(king) {
                                assert(attacks(turned, side, x as int, y as int, target));
                                found = true;
                            }
                        }
                    }
                    x += 1;
                }
                y += 1;
            }
        }
        self.flip_board();
        proof {
            self.lemma_view_injective(initial);
        }
        found
    }

    /// Passes the turn to the other side.
    fn swap_turn(&mut self)
        ensures
            final(self)@.position == old(self)@.position,
            final(self)@.to_move == old(self)@.to_move.opponent(),
    {
        self.player_to_move = match self.player_to_move {
            Color::White => Color::Black,
            Color::Black => Color::White,
        };
    }

    /// Moves the piece on `from` to `to` and reports what it did. What stood on
    /// `to` is taken off the board.
    fn make_move(
        &mut self,
        from_x: usize,
        from_y: usize,
        to_x: usize,
        to_y: usize,
    ) -> (info: MoveInfo)
        requires
            on_board(from_x as int, from_y as int),
            on_board(to_x as int, to_y as int),
            occupied(old(self)@.position, from_x as int, from_y as int),
        ensures
            final(self)@.position == apply_move(
                old(self)@.position,
                (from_x as int, from_y as int),
                (to_x as int, to_y as int),
            ),
            final(self)@.to_move == old(self)@.to_move,
            info.moved == old(self)@.position[(from_x as int, from_y as int)],
            info.captured == piece_at(old(self)@.position, to_x as int, to_y as int),
            info.from_x == from_x && info.from_y == from_y,
            info.to_x == to_x && info.to_y == to_y,
    {
        let moved = self.board.get(from_x, from_y).expect("shouldn't be moving empty");
        let captured = self.board.get(to_x, to_y);
        let info = MoveInfo { moved, captured, from_x, from_y, to_x, to_y };
        self.board.put(to_x, to_y, Some(moved));
        self.board.put(from_x, from_y, None);
        info
    }

    /// Takes back the move that `move_info` records.
    fn unmake_move(&mut self, move_info: MoveInfo)
        requires
            on_board(move_info.from_x as int, move_info.from_y as int),
            on_board(move_info.to_x as int, move_info.to_y as int),
        ensures
            final(self)@.position == undo_move(
                old(self)@.position,
                (move_info.from_x as int, move_info.from_y as int),
                (move_info.to_x as int, move_info.to_y as int),
                move_info.moved,
                move_info.captured,
            ),
            final(self)@.to_move == old(self)@.to_move,
    {
        self.board.put(move_info.to_x, move_info.to_y, move_info.captured);
        self.board.put(move_info.from_x, move_info.from_y, Some(move_info.moved));
    }

    /// Whether the side to move may move from `from` to `to`. The move is tried
    /// on the board and taken back: the game is left as it was.
    pub fn is_legal_move(
        &mut self,
        from_x: usize,
        from_y: usize,
        to_x: usize,
        to_y: usize,
    ) -> (ok: bool)
        requires
            on_board(from_x as int, from_y as int),
        ensures
            *final(self) == *old(self),
            ok == legal(
                old(self)@.position,
                old(self)@.to_move,
                (from_x as int, from_y as int),
                (to_x as int, to_y as int),
            ),
    {
        let ghost initial = *self;
        if let Some(piece) = self.get_piece(from_x, from_y) {
            if piece.piece_color == self.player_to_move {
                if self.is_pseudo_legal(from_x, from_y, to_x, to_y) {
                    proof {
                        lemma_pseudo_moves_on_board(
                            initial@.position,
                            from_x as int,
                            from_y as int,
                        );
                    }
                    if let Some(_) = self.get_piece(to_x, to_y) {
                        if !self.can_be_here(to_x, to_y) {
                            return false;
                        }
                    }
                    let move_info = self.make_move(from_x, from_y, to_x, to_y);
                    let checked: bool = self.in_check();
                    self.unmake_move(move_info);
                    proof {
                        lemma_undo_restores(
                            initial@.position,
                            (from_x as int, from_y as int),
                            (to_x as int, to_y as int),
                        );
                        self.lemma_view_injective(initial);
                    }
                    if checked {
                        return false;
                    }
                    return true;
                }
            }
        }
        false
    }

    /// A new game on `board`, with White to move.
    pub fn new(board: Board) -> (game: Game)
        ensures
            game@.position == board@,
            game@.to_move == Color::White,
    {
        Game { board, player_to_move: Color::White }
    }

    /// The board, as the side to move sees it.
    pub fn board(&self) -> (board: &Board)
        ensures
            board@ == self@.position,
    {
        &self.board
    }

    /// The side to move.
    pub fn player_to_move(&self) -> (side: Color)
        ensures
            side == self@.to_move,
    {
        self.player_to_move
    }

    /// The squares to which the side to move may move from `(x, y)`.
    pub fn get_legal_moves(&mut self, x: usize, y: usize) -> (moves: SquareSet)
        requires
            on_board(x as int, y as int),
        ensures
            *final(self) == *old(self),
            moves@ == legal_moves(old(self)@.position, old(self)@.to_move, x as int, y as int),
            forall|to: (int, int)| #[trigger]
                moves@.contains(to) ==> on_board(to.0, to.1) && may_land(
                    old(self)@.position,
                    old(self)@.to_move,
                    to.0,
                    to.1,
                ),
    {
        let ghost pos = self@.position;
        let ghost side = self@.to_move;
        let pseudo = self.get_pseudo_moves(x, y);
        let mut moves = SquareSet::new();
        let mut k: usize = 0;
        while k < 64
            invariant
                k <= 64,
                on_board(x as int, y as int),
                *self == *old(self),
                self@.position == pos,
                self@.to_move == side,
                pseudo@ == pseudo_moves(pos, x as int, y as int),
                forall|to: (int, int)|
                    moves@.contains(to) <==> on_board(to.0, to.1) && scan_index(to.0, to.1) < k
                        && legal(pos, side, (x as int, y as int), to),
            decreases 64 - k,
        {
            let mx: usize = k % 8;
            let my: usize = k / 8;
            if pseudo.contains((mx, my)) && self.is_legal_move(x, y, mx, my) {
                moves.insert((mx, my));
            }
            k += 1;
        }
        proof {
            lemma_pseudo_moves_on_board(pos, x as int, y as int);
            assert(moves@ =~= legal_moves(pos, side, x as int, y as int));
        }
        moves
    }

    /// Whether the side to move has a legal move.
    pub fn can_make_any_move(&mut self) -> (any: bool)
        ensures
            *final(self) == *old(self),
            any == has_legal_move(old(self)@.position, old(self)@.to_move),
    {
        let ghost pos = self@.position;
        let ghost side = self@.to_move;
        let mut k: usize = 0;
        while k < 64
            invariant
                k <= 64,
                *self == *old(self),
                self@.position == pos,
                self@.to_move == side,
                forall|from: (int, int), to: (int, int)|
                    on_board(from.0, from.1) && scan_index(from.0, from.1) < k ==> 
                        !#[trigger] legal(pos, side, from, to),
            decreases 64 - k,
        {
            let x: usize = k % 8;
            let y: usize = k / 8;
            if let Some(_) = self.get_piece(x, y) {
                let moves = self.get_legal_moves(x, y);
                if !moves.is_empty() {
                    proof {
                        if forall|to: (int, int)| !moves@.contains(to) {
                            assert(moves@ =~= Set::<(int, int)>::empty());
                        }
                        let to = choose|to: (int, int)| moves@.contains(to);
                        assert(legal(pos, side, (x as int, y as int), to));
                    }
                    return true;
                }
                assert forall|to: (int, int)| !legal(pos, side, (x as int, y as int), to) by {
                    assert(!moves@.contains(to));
                }
            }
            k += 1;
        }
        false
    }

    /// Whether the side to move is checkmated: in check, and without a legal move.
    pub fn is_checkmate(&mut self) -> (mate: bool)
        ensures
            *final(self) == *old(self),
            mate == checkmate(old(self)@.position, old(self)@.to_move),
    {
        !self.can_make_any_move() && self.in_check()
    }

    /// Whether the side to move is stalemated: not in check, and without a legal move.
    pub fn is_stalemate(&mut self) -> (stale: bool)
        ensures
            *final(self) == *old(self),
            stale == stalemate(old(self)@.position, old(self)@.to_move),
    {
        !self.can_make_any_move() && !self.in_check()
    }

    /// Makes the move from `from` to `to` if it is legal, passes the turn and
    /// turns the board; says whether it did. An illegal move changes nothing.
    pub fn try_make_move(
        &mut self,
        from_x: usize,
        from_y: usize,
        to_x: usize,
        to_y: usize,
    ) -> (done: bool)
        requires
            on_board(from_x as int, from_y as int),
        ensures
            done == legal(
                old(self)@.position,
                old(self)@.to_move,
                (from_x as int, from_y as int),
                (to_x as int, to_y as int),
            ),
            done ==> final(self)@ == play(
                old(self)@,
                (from_x as int, from_y as int),
                (to_x as int, to_y as int),
            ),
            !done ==> *final(self) == *old(self),
    {
        if self.is_legal_move(from_x, from_y, to_x, to_y) {
            proof {
                lemma_pseudo_moves_on_board(self@.position, from_x as int, from_y as int);
            }
            self.make_move(from_x, from_y, to_x, to_y);
            self.swap_turn();
            self.flip_board();
            return true;
        }
        false
    }

    /// What stands on `(x, y)`, as the side to move counts files and ranks.
    pub fn get_piece(&self, x: usize, y: usize) -> (piece: Option<Piece>)
        requires
            on_board(x as int, y as int),
        ensures
            piece == piece_at(self@.position, x as int, y as int),
    {
        self.board.get(x, y)
    }
}

} // verus!
