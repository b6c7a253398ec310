//! The playing board: a fixed 4x4 arrangement of lettered cells, with the
//! positional adjacency queries that the word search is built on.

use rand::seq::IndexedRandom;
use vstd::prelude::*;

verus! {

/// One die of the letter set: six faces, one letter each.
pub type Die = [char; 6];

/// The sixteen dice whose rolls populate a fresh board, one per slot in
/// row-major order.
pub const DICE: [Die; 16] = [
    ['A', 'A', 'E', 'E', 'G', 'N'],
    ['A', 'B', 'B', 'J', 'O', 'O'],
    ['A', 'C', 'H', 'O', 'P', 'S'],
    ['A', 'F', 'F', 'K', 'P', 'S'],
    ['A', 'O', 'O', 'T', 'T', 'W'],
    ['C', 'I', 'M', 'O', 'T', 'U'],
    ['D', 'E', 'I', 'L', 'R', 'X'],
    ['D', 'E', 'L', 'V', 'R', 'Y'],
    ['D', 'I', 'S', 'T', 'T', 'Y'],
    ['E', 'E', 'G', 'H', 'N', 'W'],
    ['E', 'E', 'I', 'N', 'S', 'U'],
    ['E', 'H', 'R', 'T', 'V', 'W'],
    ['E', 'I', 'O', 'S', 'S', 'T'],
    ['E', 'L', 'R', 'T', 'T', 'Y'],
    ['H', 'I', 'M', 'N', 'U', 'Q'],
    ['H', 'L', 'N', 'N', 'R', 'Z'],
];

/// Relies on rand::seq::IndexedRandom::choose: on a non-empty slice it
/// returns Some of one element of the slice. Which face comes up is chance;
/// only that the result is one of the six faces is stated.
#[verifier::external_body]
fn roll(die: &Die) -> (c: char)
    ensures
        die@.contains(c),
{
    *die.choose(&mut rand::rng()).unwrap()
}

/// The one way grid construction can fail: the letter supply did not hold
/// exactly one letter per slot.
#[derive(Clone, Copy, PartialEq, Eq, Structural, Debug)]
pub enum BoardError {
    WrongLetterCount,
}

/// One lettered slot of the board. Identity is positional: `x` is the column,
/// `y` the row, and `contents` the letter standing on that slot.
#[derive(Clone, Copy, PartialEq, Eq, Structural, Hash, Debug)]
pub struct Cell {
    pub x: usize,
    pub y: usize,
    pub contents: char,
}

impl Cell {
    pub fn new(x: usize, y: usize, c: char) -> (r: Cell)
        ensures
            r == (Cell { x, y, contents: c }),
    {
        Cell { x, y, contents: c }
    }
}

/// A fixed 4x4 arrangement of cells, immutable once built. `slots[y][x]` is
/// the cell in column `x` of row `y`.
#[derive(Clone, Copy, Debug)]
pub struct Board {
    pub slots: [[Cell; 4]; 4],
}

/// Eight-directional board adjacency: the two cells stand on distinct
/// positions that differ by at most one column and at most one row.
pub open spec fn adjacent(a: Cell, b: Cell) -> bool {
    let dx = b.x as int - a.x as int;
    let dy = b.y as int - a.y as int;
    -1 <= dx <= 1 && -1 <= dy <= 1 && !(dx == 0 && dy == 0)
}

impl Board {
    /// The cell stored in column `x` of row `y`.
    pub open spec fn cell_at(self, x: int, y: int) -> Cell {
        self.slots@[y]@[x]
    }

    /// Well-formed: each slot holds a cell carrying its own coordinates, so
    /// that exactly one cell occupies each position.
    pub open spec fn wf(self) -> bool {
        forall|x: int, y: int|
            0 <= x < 4 && 0 <= y < 4 ==> (#[trigger] self.cell_at(x, y)).x == x
                && self.cell_at(x, y).y == y
    }

    /// The cell lies within the board and is the one the board holds at its
    /// position.
    pub open spec fn on_board(self, c: Cell) -> bool {
        c.x < 4 && c.y < 4 && c == self.cell_at(c.x as int, c.y as int)
    }

    pub open spec fn spec_north(self, c: Cell) -> Option<Cell> {
        if c.y == 0 {
            None
        } else {
            Some(self.cell_at(c.x as int, c.y as int - 1))
        }
    }

    pub open spec fn spec_northeast(self, c: Cell) -> Option<Cell> {
        if c.y == 0 || c.x == 3 {
            None
        } else {
            Some(self.cell_at(c.x as int + 1, c.y as int - 1))
        }
    }

    pub open spec fn spec_east(self, c: Cell) -> Option<Cell> {
        if c.x == 3 {
            None
        } else {
            Some(self.cell_at(c.x as int + 1, c.y as int))
        }
    }

    pub open spec fn spec_southeast(self, c: Cell) -> Option<Cell> {
        if c.x == 3 || c.y == 3 {
            None
        } else {
            Some(self.cell_at(c.x as int + 1, c.y as int + 1))
        }
    }

    pub open spec fn spec_south(self, c: Cell) -> Option<Cell> {
        if c.y == 3 {
            None
        } else {
            Some(self.cell_at(c.x as int, c.y as int + 1))
        }
    }

    pub open spec fn spec_southwest(self, c: Cell) -> Option<Cell> {
        if c.x == 0 || c.y == 3 {
            None
        } else {
            Some(self.cell_at(c.x as int - 1, c.y as int + 1))
        }
    }

    pub open spec fn spec_west(self, c: Cell) -> Option<Cell> {
        if c.x == 0 {
            None
        } else {
            Some(self.cell_at(c.x as int - 1, c.y as int))
        }
    }

    pub open spec fn spec_northwest(self, c: Cell) -> Option<Cell> {
        if c.x == 0 || c.y == 0 {
            None
        } else {
            Some(self.cell_at(c.x as int - 1, c.y as int - 1))
        }
    }

    /// Builds a board whose sixteen letters come from rolling the sixteen
    /// dice, one per slot.
    pub fn new() -> (r: Board)
        ensures
            r.wf(),
            forall|x: int, y: int|
                0 <= x < 4 && 0 <= y < 4 ==> DICE[4 * y + x]@.contains(
                    (#[trigger] r.cell_at(x, y)).contents,
                ),
    {
        let mut rolled: Vec<char> = Vec::new();
        let mut k: usize = 0;
        while k < 16
            invariant
                rolled@.len() == k,
                k <= 16,
                forall|i: int| 0 <= i < k ==> DICE[i]@.contains(#[trigger] rolled@[i]),
            decreases 16 - k,
        {
            rolled.push(roll(&DICE[k]));
            k += 1;
        }
        Board::build16(&rolled)
    }

    /// Builds the board from a flat row-major sequence of letters; fails
    /// exactly when the supply does not hold one letter per slot.
    pub fn from_letters(letters: &Vec<char>) -> (r: Result<Board, BoardError>)
        ensures
            r is Ok <==> letters@.len() == 16,
            r is Err <==> r == Result::<Board, BoardError>::Err(BoardError::WrongLetterCount)
                && letters@.len() != 16,
            r matches Ok(b) ==> b.wf() && forall|x: int, y: int|
                0 <= x < 4 && 0 <= y < 4 ==> #[trigger] b.cell_at(x, y) == (Cell {
                    x: x as usize,
                    y: y as usize,
                    contents: letters@[4 * y + x],
                }),
    {
        if letters.len() != 16 {
            Err(BoardError::WrongLetterCount)
        } else {
            Ok(Board::build16(letters))
        }
    }

    /// Lays sixteen letters out on the grid in row-major order.
    fn build16(letters: &Vec<char>) -> (r: Board)
        requires
            letters@.len() == 16,
        ensures
            r.wf(),
            forall|x: int, y: int|
                0 <= x < 4 && 0 <= y < 4 ==> #[trigger] r.cell_at(x, y) == (Cell {
                    x: x as usize,
                    y: y as usize,
                    contents: letters@[4 * y + x],
                }),
    {
        let slots = [
            [
                Cell::new(0, 0, letters[0]),
                Cell::new(1, 0, letters[1]),
                Cell::new(2, 0, letters[2]),
                Cell::new(3, 0, letters[3]),
            ],
            [
                Cell::new(0, 1, letters[4]),
                Cell::new(1, 1, letters[5]),
                Cell::new(2, 1, letters[6]),
                Cell::new(3, 1, letters[7]),
            ],
            [
                Cell::new(0, 2, letters[8]),
                Cell::new(1, 2, letters[9]),
                Cell::new(2, 2, letters[10]),
                Cell::new(3, 2, letters[11]),
            ],
            [
                Cell::new(0, 3, letters[12]),
                Cell::new(1, 3, letters[13]),
                Cell::new(2, 3, letters[14]),
                Cell::new(3, 3, letters[15]),
            ],
        ];
        let r = Board { slots };
        proof {
            assert forall|x: int, y: int| 0 <= x < 4 && 0 <= y < 4 implies #[trigger] r.cell_at(
                x,
                y,
            ) == (Cell { x: x as usize, y: y as usize, contents: letters@[4 * y + x] }) by {
                assert(r.slots@.len() == 4);
            }
        }
        r
    }

    /// The one candidate `o` contributes to a neighbor list: nothing if the
    /// direction leaves the board or the cell was already visited.
    pub open spec fn kept(o: Option<Cell>, prev: Seq<Cell>) -> Seq<Cell> {
        match o {
            None => seq![],
            Some(n) => if prev.contains(n) {
                seq![]
            } else {
                seq![n]
            },
        }
    }

    /// What `neighbors` returns: the eight compass candidates in the fixed
    /// order E, SE, S, SW, W, NW, N, NE, keeping those on the board and not
    /// yet visited.
    pub open spec fn spec_neighbors(self, c: Cell, prev: Seq<Cell>) -> Seq<Cell> {
        Self::kept(self.spec_east(c), prev) + Self::kept(self.spec_southeast(c), prev)
            + Self::kept(self.spec_south(c), prev) + Self::kept(self.spec_southwest(c), prev)
            + Self::kept(self.spec_west(c), prev) + Self::kept(self.spec_northwest(c), prev)
            + Self::kept(self.spec_north(c), prev) + Self::kept(self.spec_northeast(c), prev)
    }

    /// All cells adjacent to `c` (the eight compass directions, no
    /// wraparound), excluding any cell listed in `previous`, in a fixed
    /// deterministic order.
    pub fn neighbors(&self, c: &Cell, previous: &Vec<Cell>) -> (r: Vec<Cell>)
        requires
            c.x < 4,
            c.y < 4,
        ensures
            r@ == self.spec_neighbors(*c, previous@),
    {
        let mut r: Vec<Cell> = Vec::new();
        push_kept(&mut r, self.east(c), previous);
        push_kept(&mut r, self.southeast(c), previous);
        push_kept(&mut r, self.south(c), previous);
        push_kept(&mut r, self.southwest(c), previous);
        push_kept(&mut r, self.west(c), previous);
        push_kept(&mut r, self.northwest(c), previous);
        push_kept(&mut r, self.north(c), previous);
        push_kept(&mut r, self.northeast(c), previous);
        proof {
            assert(r@ =~= self.spec_neighbors(*c, previous@));
        }
        r
    }

    fn north(&self, c: &Cell) -> (r: Option<Cell>)
        requires
            c.x < 4,
            c.y < 4,
        ensures
            r == self.spec_north(*c),
    {
        if c.y == 0 {
            None
        } else {
            Some(self.slots[c.y - 1][c.x])
        }
    }

    fn northeast(&self, c: &Cell) -> (r: Option<Cell>)
        requires
            c.x < 4,
            c.y < 4,
        ensures
            r == self.spec_northeast(*c),
    {
        if c.y == 0 || c.x == 3 {
            None
        } else {
            Some(self.slots[c.y - 1][c.x + 1])
        }
    }

    fn east(&self, c: &Cell) -> (r: Option<Cell>)
        requires
            c.x < 4,
            c.y < 4,
        ensures
            r == self.spec_east(*c),
    {
        if c.x == 3 {
            None
        } else {
            Some(self.slots[c.y][c.x + 1])
        }
    }

    fn southeast(&self, c: &Cell) -> (r: Option<Cell>)
        requires
            c.x < 4,
            c.y < 4,
        ensures
            r == self.spec_southeast(*c),
    {
        if c.x == 3 || c.y == 3 {
            None
        } else {
            Some(self.slots[c.y + 1][c.x + 1])
        }
    }

    fn south(&self, c: &Cell) -> (r: Option<Cell>)
        requires
            c.x < 4,
            c.y < 4,
        ensures
            r == self.spec_south(*c),
    {
        if c.y == 3 {
            None
        } else {
            Some(self.slots[c.y + 1][c.x])
        }
    }

    fn southwest(&self, c: &Cell) -> (r: Option<Cell>)
        requires
            c.x < 4,
            c.y < 4,
        ensures
            r == self.spec_southwest(*c),
    {
        if c.x == 0 || c.y == 3 {
            None
        } else {
            Some(self.slots[c.y + 1][c.x - 1])
        }
    }

    fn west(&self, c: &Cell) -> (r: Option<Cell>)
        requires
            c.x < 4,
            c.y < 4,
        ensures
            r == self.spec_west(*c),
    {
        if c.x == 0 {
            None
        } else {
            Some(self.slots[c.y][c.x - 1])
        }
    }

    fn northwest(&self, c: &Cell) -> (r: Option<Cell>)
        requires
            c.x < 4,
            c.y < 4,
        ensures
            r == self.spec_northwest(*c),
    {
        if c.x == 0 || c.y == 0 {
            None
        } else {
            Some(self.slots[c.y - 1][c.x - 1])
        }
    }
}

/// Membership in a concatenation comes from one of the two halves.
proof fn lemma_add_contains(a: Seq<Cell>, b: Seq<Cell>, x: Cell)
    ensures
        (a + b).contains(x) <==> a.contains(x) || b.contains(x),
{
    if a.contains(x) {
        let i = choose|i: int| 0 <= i < a.len() && a[i] == x;
        assert((a + b)[i] == x);
    }
    if b.contains(x) {
        let i = choose|i: int| 0 <= i < b.len() && b[i] == x;
        assert((a + b)[a.len() + i] == x);
    }
    if (a + b).contains(x) {
        let i = choose|i: int| 0 <= i < (a + b).len() && (a + b)[i] == x;
        if i < a.len() {
            assert(a[i] == x);
        } else {
            assert(b[i - a.len()] == x);
        }
    }
}

/// A cell is listed among the neighbors of `c` exactly when it is a board
/// cell on a position adjacent to `c` that the exclusion list does not hold.
pub proof fn lemma_neighbors_membership(b: Board, c: Cell, prev: Seq<Cell>, n: Cell)
    requires
        b.wf(),
        b.on_board(c),
    ensures
        b.spec_neighbors(c, prev).contains(n) <==> (b.on_board(n) && adjacent(c, n)
            && !prev.contains(n)),
{
    let e = Board::kept(b.spec_east(c), prev);
    let se = Board::kept(b.spec_southeast(c), prev);
    let so = Board::kept(b.spec_south(c), prev);
    let sw = Board::kept(b.spec_southwest(c), prev);
    let w = Board::kept(b.spec_west(c), prev);
    let nw = Board::kept(b.spec_northwest(c), prev);
    let no = Board::kept(b.spec_north(c), prev);
    let ne = Board::kept(b.spec_northeast(c), prev);
    lemma_add_contains(e, se, n);
    lemma_add_contains(e + se, so, n);
    lemma_add_contains(e + se + so, sw, n);
    lemma_add_contains(e + se + so + sw, w, n);
    lemma_add_contains(e + se + so + sw + w, nw, n);
    lemma_add_contains(e + se + so + sw + w + nw, no, n);
    lemma_add_contains(e + se + so + sw + w + nw + no, ne, n);
    if b.on_board(n) && adjacent(c, n) && !prev.contains(n) {
        assert(n == b.cell_at(n.x as int, n.y as int));
        if n.x == c.x + 1 && n.y == c.y {
            assert(e == seq![n]);
            assert(e[0] == n);
        } else if n.x == c.x + 1 && n.y == c.y + 1 {
            assert(se == seq![n]);
            assert(se[0] == n);
        } else if n.x == c.x && n.y == c.y + 1 {
            assert(so == seq![n]);
            assert(so[0] == n);
        } else if c.x > 0 && n.x == c.x - 1 && n.y == c.y + 1 {
            assert(sw == seq![n]);
            assert(sw[0] == n);
        } else if c.x > 0 && n.x == c.x - 1 && n.y == c.y {
            assert(w == seq![n]);
            assert(w[0] == n);
        } else if c.x > 0 && c.y > 0 && n.x == c.x - 1 && n.y == c.y - 1 {
            assert(nw == seq![n]);
            assert(nw[0] == n);
        } else if c.y > 0 && n.x == c.x && n.y == c.y - 1 {
            assert(no == seq![n]);
            assert(no[0] == n);
        } else {
            assert(c.y > 0 && n.x == c.x + 1 && n.y == c.y - 1);
            assert(ne == seq![n]);
            assert(ne[0] == n);
        }
    }
}

/// Adjacency counts: a cell away from every edge has exactly eight
/// neighbors, an edge cell five, a corner cell three; and no listed neighbor
/// equals the queried cell or a cell of the exclusion list.
pub proof fn lemma_neighbor_counts(b: Board, c: Cell, prev: Seq<Cell>)
    requires
        b.wf(),
        b.on_board(c),
    ensures
        1 <= c.x <= 2 && 1 <= c.y <= 2 ==> b.spec_neighbors(c, Seq::empty()).len() == 8,
        (c.x == 0 || c.x == 3) && (c.y == 0 || c.y == 3) ==> b.spec_neighbors(
            c,
            Seq::empty(),
        ).len() == 3,
        ((c.x == 0 || c.x == 3) && 1 <= c.y <= 2) || ((c.y == 0 || c.y == 3) && 1 <= c.x <= 2)
            ==> b.spec_neighbors(c, Seq::empty()).len() == 5,
        forall|n: Cell| #[trigger] b.spec_neighbors(c, prev).contains(n) ==> n != c && !prev.contains(n),
{
    assert(forall|m: Cell| !Seq::<Cell>::empty().contains(m));
    assert forall|n: Cell| #[trigger] b.spec_neighbors(c, prev).contains(n) implies n != c
        && !prev.contains(n) by {
        lemma_neighbors_membership(b, c, prev, n);
    }
}

/// Whether `prev` already holds the cell `n`.
fn contains_cell(prev: &Vec<Cell>, n: &Cell) -> (r: bool)
    ensures
        r == prev@.contains(*n),
{
    let mut i: usize = 0;
    while i < prev.len()
        invariant
            i <= prev@.len(),
            forall|j: int| 0 <= j < i ==> prev@[j] != *n,
        decreases prev@.len() - i,
    {
        if prev[i] == *n {
            return true;
        }
        i += 1;
    }
    false
}

/// Appends to `r` whatever the candidate `o` contributes.
fn push_kept(r: &mut Vec<Cell>, o: Option<Cell>, previous: &Vec<Cell>)
    ensures
        final(r)@ == old(r)@ + Board::kept(o, previous@),
{
    match o {
        None => {
            proof {
                assert(r@ =~= old(r)@ + Board::kept(o, previous@));
            }
        },
        Some(n) => {
            if !contains_cell(previous, &n) {
                r.push(n);
            }
            proof {
                assert(r@ =~= old(r)@ + Board::kept(o, previous@));
            }
        },
    }
}

} // verus!
