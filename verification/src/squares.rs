use vstd::prelude::*;

verus! {

/// Whether `(x, y)` names one of the 64 squares: file `x` and rank `y`, each in `0..8`.
pub open spec fn on_board(x: int, y: int) -> bool {
    0 <= x < 8 && 0 <= y < 8
}

/// Position of a square in the scan that goes rank by rank, and file by file within a rank.
pub open spec fn scan_index(x: int, y: int) -> int {
    8 * y + x
}

/// A set of squares of the board, kept as one flag per square.
///
/// Its view is the mathematical set of the squares whose flag is raised, so a
/// square is in the set at most once and the order of insertion leaves no trace.
#[derive(Clone, Copy, Debug)]
pub struct SquareSet {
    cells: [[bool; 8]; 8],
}

impl View for SquareSet {
    type V = Set<(int, int)>;

    closed spec fn view(&self) -> Set<(int, int)> {
        Set::new(|sq: (int, int)| on_board(sq.0, sq.1) && self.flag(sq.0, sq.1))
    }
}

impl SquareSet {
    /// The flag kept for the square `(x, y)`.
    spec fn flag(&self, x: int, y: int) -> bool {
        self.cells[y][x]
    }

    /// Every member of a square set is a square of the board.
    pub proof fn lemma_members_on_board(&self)
        ensures
            forall|sq: (int, int)| #[trigger] self@.contains(sq) ==> on_board(sq.0, sq.1),
    {
    }

    /// The empty set.
    pub fn new() -> (s: SquareSet)
        ensures
            s@ == Set::<(int, int)>::empty(),
    {
        SquareSet { cells: [[false; 8]; 8] }
    }

    /// Adds a square of the board to the set.
    pub fn insert(&mut self, square: (usize, usize))
        requires
            on_board(square.0 as int, square.1 as int),
        ensures
            final(self)@ == old(self)@.insert((square.0 as int, square.1 as int)),
    {
        self.cells[square.1][square.0] = true;
    }

    /// Membership; a pair that names no square of the board is in no set.
    pub fn contains(&self, square: (usize, usize)) -> (found: bool)
        ensures
            found == self@.contains((square.0 as int, square.1 as int)),
    {
        square.0 < 8 && square.1 < 8 && self.cells[square.1][square.0]
    }

    /// Adds every square of `other`.
    pub fn extend(&mut self, other: &SquareSet)
        ensures
            final(self)@ == old(self)@.union(other@),
    {
        let mut k: usize = 0;
        while k < 64
            invariant
                k <= 64,
                forall|a: int, b: int|
                    on_board(a, b) ==> #[trigger] self.flag(a, b) == (old(self).flag(a, b) || (
                    scan_index(a, b) < k && other.flag(a, b))),
            decreases 64 - k,
        {
            let ghost before = *self;
            if other.cells[k / 8][k % 8] {
                self.cells[k / 8][k % 8] = true;
            }
            assert forall|a: int, b: int| on_board(a, b) implies #[trigger] self.flag(a, b) == (
            before.flag(a, b) || (scan_index(a, b) == k && other.flag(a, b))) by {}
            k += 1;
        }
        assert(self@ =~= old(self)@.union(other@));
    }

    /// Whether the set holds no square.
    pub fn is_empty(&self) -> (empty: bool)
        ensures
            empty == (self@ == Set::<(int, int)>::empty()),
    {
        let mut k: usize = 0;
        while k < 64
            invariant
                k <= 64,
                forall|a: int, b: int|
                    on_board(a, b) && scan_index(a, b) < k ==> !#[trigger] self.flag(a, b),
            decreases 64 - k,
        {
            if self.cells[k / 8][k % 8] {
                assert(self.flag((k % 8) as int, (k / 8) as int));
                assert(self@.contains(((k % 8) as int, (k / 8) as int)));
                return false;
            }
            k += 1;
        }
        assert forall|sq: (int, int)| !self@.contains(sq) by {
            if on_board(sq.0, sq.1) {
                assert(!self.flag(sq.0, sq.1));
            }
        }
        assert(self@ =~= Set::<(int, int)>::empty());
        true
    }

    /// The number of squares in the set.
    pub fn len(&self) -> (n: usize)
        ensures
            self@.finite(),
            n == self@.len(),
            n <= 64,
    {
        let mut n: usize = 0;
        let mut k: usize = 0;
        let ghost mut seen: Set<(int, int)> = Set::empty();
        while k < 64
            invariant
                k <= 64,
                n <= k,
                seen.finite(),
                seen.len() == n,
                forall|sq: (int, int)|
                    seen.contains(sq) <==> self@.contains(sq) && scan_index(sq.0, sq.1) < k,
            decreases 64 - k,
        {
            if self.cells[k / 8][k % 8] {
                proof {
                    seen = seen.insert(((k % 8) as int, (k / 8) as int));
                }
                n += 1;
            }
            k += 1;
        }
        assert(seen =~= self@);
        n
    }

    /// The squares of the set, each once, rank by rank and file by file within a rank.
    pub fn to_vec(&self) -> (list: Vec<(usize, usize)>)
        ensures
            forall|i: int|
                0 <= i < list.len() ==> self@.contains((list[i].0 as int, list[i].1 as int)),
            forall|sq: (int, int)| self@.contains(sq) ==> holds_square(list@, sq.0, sq.1),
            forall|i: int, j: int|
                0 <= i < j < list.len() ==> scan_index(list[i].0 as int, list[i].1 as int)
                    < scan_index(list[j].0 as int, list[j].1 as int),
    {
        let mut list: Vec<(usize, usize)> = Vec::new();
        let mut k: usize = 0;
        while k < 64
            invariant
                k <= 64,
                forall|i: int|
                    0 <= i < list.len() ==> self@.contains((list[i].0 as int, list[i].1 as int))
                        && scan_index(list[i].0 as int, list[i].1 as int) < k,
                forall|sq: (int, int)|
                    self@.contains(sq) && scan_index(sq.0, sq.1) < k ==> holds_square(
                        list@,
                        sq.0,
                        sq.1,
                    ),
                forall|i: int, j: int|
                    0 <= i < j < list.len() ==> scan_index(list[i].0 as int, list[i].1 as int)
                        < scan_index(list[j].0 as int, list[j].1 as int),
            decreases 64 - k,
        {
            let ghost before = list@;
            if self.cells[k / 8][k % 8] {
                list.push((k % 8, k / 8));
                assert(list@[before.len() as int] == ((k % 8) as usize, (k / 8) as usize));
            }
            assert forall|sq: (int, int)|
                self@.contains(sq) && scan_index(sq.0, sq.1) < k + 1 implies holds_square(
                list@,
                sq.0,
                sq.1,
            ) by {
                if scan_index(sq.0, sq.1) < k {
                    let i = choose|i: int|
                        0 <= i < before.len() && before[i].0 == sq.0 && before[i].1 == sq.1;
                    assert(list@[i] == before[i]);
                } else {
                    assert(sq.0 == k % 8 && sq.1 == k / 8);
                    assert(list@[before.len() as int].0 == sq.0);
                }
            }
            k += 1;
        }
        list
    }
}

/// Whether the list `list` names the square `(x, y)` at some index.
pub open spec fn holds_square(list: Seq<(usize, usize)>, x: int, y: int) -> bool {
    exists|i: int| 0 <= i < list.len() && list[i].0 == x && list[i].1 == y
}

} // verus!
