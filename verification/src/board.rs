//! Puzzle boards: a 3x3 grid holding the tiles 1 to 8 and one blank.
//!
//! A [`Board`] is a plain value. Its mathematical reading is the function
//! [`Board::cell`] from grid positions to cell contents; everything else in
//! this module is stated over it. The module has three parts: what boards
//! are and what is said of them, the operations on boards, and the lemmas
//! that the operations and the search rest on.

use vstd::prelude::*;

verus! {

/// One configuration of the puzzle. `b[r][c]` is the tile in row `r`, column `c`,
/// or `None` for the blank.
#[derive(Copy, Clone, Eq, PartialEq, Hash, Debug)]
pub struct Board {
    pub b: [[Option<i64>; 3]; 3],
}

/// The number of keys: 9 to the power of 9.
pub const KEY_LIMIT: u64 = 387420489;

/// Whether `(r, c)` names a cell of the grid.
pub open spec fn in_grid(r: int, c: int) -> bool {
    0 <= r < 3 && 0 <= c < 3
}

/// The absolute difference of `a` and `b`.
pub open spec fn gap(a: int, b: int) -> int {
    if a >= b {
        a - b
    } else {
        b - a
    }
}

/// Whether the positions `p` and `q` are one orthogonal step apart.
pub open spec fn adjacent(p: (int, int), q: (int, int)) -> bool {
    gap(p.0, q.0) + gap(p.1, q.1) == 1
}

/// Where the content of the cell `at` is after the cells `p` and `q` have been exchanged.
pub open spec fn exchange(p: (int, int), q: (int, int), at: (int, int)) -> (int, int) {
    if at == p {
        q
    } else if at == q {
        p
    } else {
        at
    }
}

/// A position found by an executable search, read as a pair of mathematical integers.
pub open spec fn as_position(found: Option<(usize, usize)>) -> Option<(int, int)> {
    match found {
        Some((r, c)) => Some((r as int, c as int)),
        None => None,
    }
}

/// The base-9 digit that stands for a cell's content.
pub open spec fn digit(v: Option<i64>) -> int {
    match v {
        Some(label) => label as int,
        None => 0,
    }
}

/// 9 to the power of `n`.
pub open spec fn power_of_nine(n: int) -> int
    decreases n,
{
    if n <= 0 {
        1
    } else {
        9 * power_of_nine(n - 1)
    }
}

impl Board {
    /// The content of the cell in row `r`, column `c`.
    pub open spec fn cell(self, r: int, c: int) -> Option<i64> {
        self.b[r][c]
    }

    /// The board whose cell `(r, c)` holds `f(r, c)`.
    pub open spec fn from_cells(f: spec_fn(int, int) -> Option<i64>) -> Board {
        Board {
            b: [
                [f(0, 0), f(0, 1), f(0, 2)],
                [f(1, 0), f(1, 1), f(1, 2)],
                [f(2, 0), f(2, 1), f(2, 2)],
            ],
        }
    }

    /// 1 if the cell `(r, c)` holds `v`, else 0.
    pub open spec fn hit(self, r: int, c: int, v: Option<i64>) -> nat {
        if self.cell(r, c) == v {
            1
        } else {
            0
        }
    }

    /// The number of cells that hold `v`.
    pub open spec fn count(self, v: Option<i64>) -> nat {
        self.hit(0, 0, v) + self.hit(0, 1, v) + self.hit(0, 2, v) + self.hit(1, 0, v) + self.hit(
            1,
            1,
            v,
        ) + self.hit(1, 2, v) + self.hit(2, 0, v) + self.hit(2, 1, v) + self.hit(2, 2, v)
    }

    /// The number of cells before `(r, c)`, in row-major order, that hold `v`.
    spec fn count_before(self, v: Option<i64>, r: int, c: int) -> nat {
        let part = |i: int, j: int| -> nat {
            if i < r || (i == r && j < c) {
                self.hit(i, j, v)
            } else {
                0
            }
        };
        part(0, 0) + part(0, 1) + part(0, 2) + part(1, 0) + part(1, 1) + part(1, 2) + part(2, 0)
            + part(2, 1) + part(2, 2)
    }

    /// A board is well-formed when it holds exactly one blank and each of the
    /// tiles 1 to 8 exactly once.
    pub open spec fn is_wellformed(self) -> bool {
        &&& self.count(None) == 1
        &&& forall|label: i64| 1 <= label <= 8 ==> #[trigger] self.count(Some(label)) == 1
    }

    /// The first cell, in row-major order, that holds `v`.
    pub open spec fn position_of(self, v: Option<i64>) -> Option<(int, int)> {
        if self.cell(0, 0) == v {
            Some((0, 0))
        } else if self.cell(0, 1) == v {
            Some((0, 1))
        } else if self.cell(0, 2) == v {
            Some((0, 2))
        } else if self.cell(1, 0) == v {
            Some((1, 0))
        } else if self.cell(1, 1) == v {
            Some((1, 1))
        } else if self.cell(1, 2) == v {
            Some((1, 2))
        } else if self.cell(2, 0) == v {
            Some((2, 0))
        } else if self.cell(2, 1) == v {
            Some((2, 1))
        } else if self.cell(2, 2) == v {
            Some((2, 2))
        } else {
            None
        }
    }

    /// The Manhattan distance between the places of tile `label` on the two
    /// boards; 0 where either board lacks the tile.
    pub open spec fn tile_distance(self, other: Board, label: i64) -> int {
        match (self.position_of(Some(label)), other.position_of(Some(label))) {
            (Some(p), Some(q)) => gap(p.0, q.0) + gap(p.1, q.1),
            _ => 0,
        }
    }

    /// The sum of [`Board::tile_distance`] over the tiles 1 to `n`.
    pub open spec fn distance_upto(self, other: Board, n: int) -> int
        decreases n,
    {
        if n <= 0 {
            0
        } else {
            self.distance_upto(other, n - 1) + self.tile_distance(other, n as i64)
        }
    }

    /// The sum over the tiles 1 to 8 of the Manhattan distance between a tile's
    /// place on `self` and its place on `other`.
    pub open spec fn manhattan(self, other: Board) -> int {
        self.distance_upto(other, 8)
    }

    /// The board equal to `self` except that the cell `p` holds `x`.
    pub open spec fn replaced(self, p: (int, int), x: Option<i64>) -> Board {
        Board::from_cells(
            |r: int, c: int|
                if (r, c) == p {
                    x
                } else {
                    self.cell(r, c)
                },
        )
    }

    /// The board equal to `self` except that the contents of the cells `p` and
    /// `q` are exchanged.
    pub open spec fn swapped(self, p: (int, int), q: (int, int)) -> Board {
        Board::from_cells(
            |r: int, c: int|
                if (r, c) == p {
                    self.cell(q.0, q.1)
                } else if (r, c) == q {
                    self.cell(p.0, p.1)
                } else {
                    self.cell(r, c)
                },
        )
    }

    /// Whether `next` arises from `self` as the blank, at `p`, changes places
    /// with the tile next to it at `q`.
    pub open spec fn slides(self, next: Board, p: (int, int), q: (int, int)) -> bool {
        &&& in_grid(p.0, p.1)
        &&& in_grid(q.0, q.1)
        &&& adjacent(p, q)
        &&& self.cell(p.0, p.1) is None
        &&& next == self.swapped(p, q)
    }

    /// Whether `next` arises from `self` by one move: one tile slides into
    /// the blank next to it.
    pub open spec fn is_move(self, next: Board) -> bool {
        exists|p: (int, int), q: (int, int)| #[trigger] self.slides(next, p, q)
    }

    /// The move of the blank from `blank` to `to`, if `to` lies in the grid.
    pub open spec fn slide(self, blank: (int, int), to: (int, int)) -> Seq<Board> {
        if in_grid(to.0, to.1) {
            seq![self.swapped(blank, to)]
        } else {
            Seq::empty()
        }
    }

    /// The boards one move away, in the order in which the blank goes up, left,
    /// right, down.
    pub open spec fn successors(self) -> Seq<Board> {
        match self.position_of(None) {
            Some((r, c)) => self.slide((r, c), (r - 1, c)) + self.slide((r, c), (r, c - 1))
                + self.slide((r, c), (r, c + 1)) + self.slide((r, c), (r + 1, c)),
            None => Seq::empty(),
        }
    }

    /// The first `n` cells, in row-major order, read as digits of a number in
    /// base 9: the blank is the digit 0, the tile `t` the digit `t`.
    pub open spec fn digits(self, n: int) -> int
        decreases n,
    {
        if n <= 0 {
            0
        } else {
            9 * self.digits(n - 1) + digit(self.cell((n - 1) / 3, (n - 1) % 3))
        }
    }

    /// The nine cells read as a number in base 9. On well-formed boards this
    /// number tells the boards apart (see [`Board::lemma_key_injective`]).
    pub open spec fn spec_key(self) -> int {
        self.digits(9)
    }
}

// The operations.

impl Board {
    /// Finds the cell that holds the tile `number`.
    pub fn find_number(&self, number: i64) -> (found: Option<(usize, usize)>)
        ensures
            as_position(found) == self.position_of(Some(number)),
    {
        self.find(Some(number))
    }

    /// Finds the blank cell.
    pub fn find_empty_cell(&self) -> (found: Option<(usize, usize)>)
        ensures
            as_position(found) == self.position_of(None),
    {
        self.find(None)
    }

    /// Finds the first cell, row by row, that holds `v`.
    fn find(&self, v: Option<i64>) -> (found: Option<(usize, usize)>)
        ensures
            as_position(found) == self.position_of(v),
    {
        let mut r: usize = 0;
        while r < 3
            invariant
                r <= 3,
                forall|i: int, j: int| 0 <= i < r && 0 <= j < 3 ==> #[trigger] self.cell(i, j) != v,
            decreases 3 - r,
        {
            let mut c: usize = 0;
            while c < 3
                invariant
                    r < 3,
                    c <= 3,
                    forall|i: int, j: int|
                        0 <= i < r && 0 <= j < 3 ==> #[trigger] self.cell(i, j) != v,
                    forall|j: int| 0 <= j < c ==> #[trigger] self.cell(r as int, j) != v,
                decreases 3 - c,
            {
                if same_content(self.b[r][c], v) {
                    return Some((r, c));
                }
                c += 1;
            }
            r += 1;
        }
        None
    }

    /// The sum, over the tiles 1 to 8, of the Manhattan distance between the
    /// tile's place on this board and its place on the other.
    pub fn distance(&self, other_board: &Board) -> (total_distance: i64)
        requires
            self.is_wellformed(),
            other_board.is_wellformed(),
        ensures
            total_distance == self.manhattan(*other_board),
            0 <= total_distance <= 32,
    {
        let mut total_distance: i64 = 0;
        for number in 1i64..9
            invariant
                self.is_wellformed(),
                other_board.is_wellformed(),
                total_distance == self.distance_upto(*other_board, number - 1),
                0 <= total_distance <= 4 * (number - 1),
        {
            let self_location = self.find_number(number);
            let other_board_location = other_board.find_number(number);
            proof {
                self.lemma_holder(Some(number));
                other_board.lemma_holder(Some(number));
            }
            let (r1, c1) = self_location.unwrap();
            let (r2, c2) = other_board_location.unwrap();

            let rows: usize = if r1 >= r2 {
                r1 - r2
            } else {
                r2 - r1
            };
            let cols: usize = if c1 >= c2 {
                c1 - c2
            } else {
                c2 - c1
            };
            let distance: i64 = rows as i64 + cols as i64;
            total_distance += distance;
        }
        total_distance
    }

    /// Returns a copy of the board in which the contents of the two cells are exchanged.
    pub fn copy_and_swap(&self, src_pos: (usize, usize), dest_pos: (usize, usize)) -> (swapped:
        Board)
        requires
            in_grid(src_pos.0 as int, src_pos.1 as int),
            in_grid(dest_pos.0 as int, dest_pos.1 as int),
        ensures
            swapped == self.swapped(
                (src_pos.0 as int, src_pos.1 as int),
                (dest_pos.0 as int, dest_pos.1 as int),
            ),
    {
        let mut copied_b = self.b;

        let temp: Option<i64> = copied_b[src_pos.0][src_pos.1];
        copied_b[src_pos.0][src_pos.1] = copied_b[dest_pos.0][dest_pos.1];
        copied_b[dest_pos.0][dest_pos.1] = temp;

        let swapped = Board { b: copied_b };
        proof {
            lemma_boards_equal(
                swapped,
                self.swapped(
                    (src_pos.0 as int, src_pos.1 as int),
                    (dest_pos.0 as int, dest_pos.1 as int),
                ),
            );
        }
        swapped
    }

    /// Returns a copy of the board in which the cell at `pos` holds `content`.
    pub fn with_cell(&self, pos: (usize, usize), content: Option<i64>) -> (board: Board)
        requires
            in_grid(pos.0 as int, pos.1 as int),
        ensures
            board == self.replaced((pos.0 as int, pos.1 as int), content),
    {
        let mut copied_b = self.b;
        copied_b[pos.0][pos.1] = content;
        let board = Board { b: copied_b };
        proof {
            lemma_boards_equal(board, self.replaced((pos.0 as int, pos.1 as int), content));
        }
        board
    }

    /// The boards that one move of the blank leads to. The blank is moved up,
    /// left, right and down, in this order; a move that would leave the grid
    /// is skipped.
    pub fn get_possible_next_states(&self) -> (list: Vec<Board>)
        requires
            self.is_wellformed(),
        ensures
            list@ == self.successors(),
            2 <= list.len() <= 4,
            forall|i: int|
                0 <= i < list.len() ==> (#[trigger] list[i]).is_wellformed() && self.is_move(
                    list[i],
                ),
    {
        let mut list: Vec<Board> = Vec::new();

        proof {
            self.lemma_holder(None);
            self.lemma_successors();
        }
        let empty_cell_location = self.find_empty_cell().unwrap();
        self.push_neighbor(&mut list, empty_cell_location, -1, 0);
        self.push_neighbor(&mut list, empty_cell_location, 0, -1);
        self.push_neighbor(&mut list, empty_cell_location, 0, 1);
        self.push_neighbor(&mut list, empty_cell_location, 1, 0);

        list
    }

    /// Appends the board in which the cell at `from` has changed places with
    /// the cell `(dr, dc)` away from it, unless that cell is outside the grid.
    fn push_neighbor(&self, list: &mut Vec<Board>, from: (usize, usize), dr: i8, dc: i8)
        requires
            in_grid(from.0 as int, from.1 as int),
            -1 <= dr <= 1,
            -1 <= dc <= 1,
        ensures
            final(list)@ == old(list)@ + self.slide(
                (from.0 as int, from.1 as int),
                (from.0 + dr, from.1 + dc),
            ),
    {
        let new_r: i8 = from.0 as i8 + dr;
        let new_c: i8 = from.1 as i8 + dc;

        if new_r < 0 || new_r >= 3 || new_c < 0 || new_c >= 3 {
            assert(list@ =~= old(list)@ + Seq::<Board>::empty());
            return ;
        }
        let new_location = (new_r as usize, new_c as usize);
        list.push(self.copy_and_swap(from, new_location));
        assert(list@ =~= old(list)@ + seq![
            self.swapped((from.0 as int, from.1 as int), (from.0 + dr, from.1 + dc)),
        ]);
    }

    /// Whether the board holds exactly one blank and each of the tiles 1 to 8
    /// exactly once.
    pub fn is_valid(&self) -> (valid: bool)
        ensures
            valid == self.is_wellformed(),
    {
        if self.count_of(None) != 1 {
            return false;
        }
        for number in 1i64..9
            invariant
                self.count(None) == 1,
                forall|label: i64| 1 <= label < number ==> #[trigger] self.count(Some(label)) == 1,
        {
            if self.count_of(Some(number)) != 1 {
                return false;
            }
        }
        true
    }

    /// The number of cells that hold `v`.
    fn count_of(&self, v: Option<i64>) -> (n: usize)
        ensures
            n == self.count(v),
    {
        let mut n: usize = 0;
        for r in 0usize..3
            invariant
                n == self.count_before(v, r as int, 0),
        {
            for c in 0usize..3
                invariant
                    r < 3,
                    n == self.count_before(v, r as int, c as int),
            {
                if same_content(self.b[r][c], v) {
                    n += 1;
                }
            }
        }
        n
    }

    /// A number below [`KEY_LIMIT`] that identifies the board among the
    /// well-formed boards: its cells, row by row, as the digits of a number
    /// in base 9.
    pub fn key(&self) -> (k: u64)
        requires
            self.is_wellformed(),
        ensures
            k == self.spec_key(),
            k < KEY_LIMIT,
    {
        let mut k: u64 = 0;
        for r in 0usize..3
            invariant
                self.is_wellformed(),
                k == self.digits(3 * r),
        {
            for c in 0usize..3
                invariant
                    r < 3,
                    self.is_wellformed(),
                    k == self.digits(3 * r + c),
            {
                let d: u64 = match self.b[r][c] {
                    Some(label) => label as u64,
                    None => 0,
                };
                proof {
                    let n = 3 * r + c + 1;
                    assert((n - 1) / 3 == r && (n - 1) % 3 == c);
                    self.lemma_cells_valid();
                    assert(d == digit(self.cell(r as int, c as int)));
                    self.lemma_digits_bound(n);
                    lemma_power_of_nine(n, 9);
                }
                k = k * 9 + d;
            }
        }
        proof {
            self.lemma_key_bound();
        }
        k
    }
}

impl Default for Board {
    /// The board whose cells are all blank.
    fn default() -> (board: Board)
        ensures
            board == Board::from_cells(|r: int, c: int| None),
    {
        let board = Board { b: [[None, None, None], [None, None, None], [None, None, None]] };
        proof {
            lemma_boards_equal(board, Board::from_cells(|r: int, c: int| None));
        }
        board
    }
}

/// Compares two cell contents.
fn same_content(a: Option<i64>, b: Option<i64>) -> (same: bool)
    ensures
        same == (a == b),
{
    match (a, b) {
        (Some(x), Some(y)) => x == y,
        (None, None) => true,
        _ => false,
    }
}

// The lemmas: on cells, on exchanging cells, on moves, on the distance, on keys.

/// Two boards that agree on every cell are the same board.
pub proof fn lemma_boards_equal(a: Board, b: Board)
    requires
        forall|r: int, c: int| in_grid(r, c) ==> #[trigger] a.cell(r, c) == b.cell(r, c),
    ensures
        a == b,
{
    assert forall|r: int| 0 <= r < 3 implies a.b[r] == b.b[r] by {
        assert forall|c: int| 0 <= c < 3 implies a.b[r][c] == b.b[r][c] by {
            assert(a.cell(r, c) == b.cell(r, c));
        }
        assert(a.b[r] =~= b.b[r]);
    }
    assert(a.b =~= b.b);
}

/// The cell content with the number `v`: the blank for 0, else the tile `v`.
spec fn content(v: int) -> Option<i64> {
    if v == 0 {
        None
    } else {
        Some(v as i64)
    }
}

/// The sum of the entries `h(k, 0)` to `h(k, 8)`.
spec fn row_sum(h: spec_fn(int, int) -> nat, k: int) -> nat {
    h(k, 0) + h(k, 1) + h(k, 2) + h(k, 3) + h(k, 4) + h(k, 5) + h(k, 6) + h(k, 7) + h(k, 8)
}

/// The sum of the entries `h(0, v)` to `h(8, v)`.
spec fn column_sum(h: spec_fn(int, int) -> nat, v: int) -> nat {
    h(0, v) + h(1, v) + h(2, v) + h(3, v) + h(4, v) + h(5, v) + h(6, v) + h(7, v) + h(8, v)
}

/// In a 9 by 9 table of naturals whose columns each sum to 1 and whose rows
/// each sum to at most 1, every row sums to 1.
proof fn lemma_full_table(h: spec_fn(int, int) -> nat)
    requires
        forall|v: int| 0 <= v < 9 ==> #[trigger] column_sum(h, v) == 1,
        forall|k: int| 0 <= k < 9 ==> #[trigger] row_sum(h, k) <= 1,
    ensures
        forall|k: int| 0 <= k < 9 ==> #[trigger] row_sum(h, k) == 1,
{
    assert(column_sum(h, 0) + column_sum(h, 1) + column_sum(h, 2) + column_sum(h, 3) + column_sum(
        h,
        4,
    ) + column_sum(h, 5) + column_sum(h, 6) + column_sum(h, 7) + column_sum(h, 8) == 9);
    assert(row_sum(h, 0) + row_sum(h, 1) + row_sum(h, 2) + row_sum(h, 3) + row_sum(h, 4) + row_sum(
        h,
        5,
    ) + row_sum(h, 6) + row_sum(h, 7) + row_sum(h, 8) == 9);
}

/// The powers of 9 grow, and the ninth is [`KEY_LIMIT`].
proof fn lemma_power_of_nine(n: int, m: int)
    requires
        0 <= n <= m,
    ensures
        1 <= power_of_nine(n) <= power_of_nine(m),
        power_of_nine(9) == KEY_LIMIT,
    decreases m,
{
    if n < m {
        lemma_power_of_nine(n, m - 1);
    } else if n > 0 {
        lemma_power_of_nine(n - 1, m - 1);
    }
    assert(power_of_nine(9) == KEY_LIMIT) by {
        reveal_with_fuel(power_of_nine, 10);
    }
}

impl Board {
    /// Where a value occurs exactly once, its position is the one cell that holds it.
    pub proof fn lemma_holder(self, v: Option<i64>)
        requires
            self.count(v) == 1,
        ensures
            self.position_of(v) is Some,
            in_grid(self.position_of(v).unwrap().0, self.position_of(v).unwrap().1),
            forall|r: int, c: int|
                in_grid(r, c) ==> (#[trigger] self.cell(r, c) == v <==> self.position_of(v)
                    == Some((r, c))),
    {
    }

    /// Every cell of a well-formed board holds the blank or one of the tiles 1 to 8.
    pub proof fn lemma_cells_valid(self)
        requires
            self.is_wellformed(),
        ensures
            forall|r: int, c: int|
                in_grid(r, c) ==> match #[trigger] self.cell(r, c) {
                    Some(label) => 1 <= label <= 8,
                    None => true,
                },
    {
        // The table of the cells against the nine contents: each content
        // occurs once, and no cell holds two.
        let h = |k: int, v: int| self.hit(k / 3, k % 3, content(v));
        assert forall|v: int| 0 <= v < 9 implies #[trigger] column_sum(h, v) == 1 by {
            if v == 0 {
                assert(self.count(None) == 1);
            } else {
                assert(self.count(Some(v as i64)) == 1);
            }
        }
        assert forall|k: int| 0 <= k < 9 implies #[trigger] row_sum(h, k) <= 1 by {}
        lemma_full_table(h);
        assert forall|r: int, c: int| in_grid(r, c) implies match #[trigger] self.cell(r, c) {
            Some(label) => 1 <= label <= 8,
            None => true,
        } by {
            let k = 3 * r + c;
            assert(k / 3 == r && k % 3 == c);
            assert(row_sum(h, k) == 1);
        }
    }

    /// What overwriting one cell does to the cells and to the number of
    /// occurrences of a value.
    proof fn lemma_replaced(self, p: (int, int), x: Option<i64>, v: Option<i64>)
        requires
            in_grid(p.0, p.1),
        ensures
            forall|r: int, c: int|
                in_grid(r, c) ==> #[trigger] self.replaced(p, x).cell(r, c) == (if (r, c) == p {
                    x
                } else {
                    self.cell(r, c)
                }),
            self.replaced(p, x).count(v) + self.hit(p.0, p.1, v) == self.count(v) + (if x == v {
                1nat
            } else {
                0nat
            }),
    {
    }

    /// What each cell holds after two cells have been exchanged.
    pub proof fn lemma_swapped_cells(self, p: (int, int), q: (int, int))
        ensures
            forall|r: int, c: int|
                in_grid(r, c) ==> #[trigger] self.swapped(p, q).cell(r, c) == (if (r, c) == p {
                    self.cell(q.0, q.1)
                } else if (r, c) == q {
                    self.cell(p.0, p.1)
                } else {
                    self.cell(r, c)
                }),
    {
    }

    /// Exchanging two cells does not change how often a value occurs.
    pub proof fn lemma_swapped_count(self, p: (int, int), q: (int, int), v: Option<i64>)
        requires
            in_grid(p.0, p.1),
            in_grid(q.0, q.1),
        ensures
            self.swapped(p, q).count(v) == self.count(v),
    {
        // An exchange is two cells overwritten, one after the other.
        let x = self.cell(p.0, p.1);
        let y = self.cell(q.0, q.1);
        if p == q {
            self.lemma_swapped_cells(p, q);
            lemma_boards_equal(self.swapped(p, q), self);
        } else {
            let mid = self.replaced(p, y);
            self.lemma_replaced(p, y, v);
            mid.lemma_replaced(q, x, v);
            self.lemma_swapped_cells(p, q);
            lemma_boards_equal(self.swapped(p, q), mid.replaced(q, x));
        }
    }

    /// Exchanging two cells of a well-formed board gives a well-formed board.
    pub proof fn lemma_swapped_wellformed(self, p: (int, int), q: (int, int))
        requires
            self.is_wellformed(),
            in_grid(p.0, p.1),
            in_grid(q.0, q.1),
        ensures
            self.swapped(p, q).is_wellformed(),
    {
        self.lemma_swapped_count(p, q, None);
        assert forall|label: i64| 1 <= label <= 8 implies #[trigger] self.swapped(p, q).count(
            Some(label),
        ) == 1 by {
            self.lemma_swapped_count(p, q, Some(label));
        }
    }

    /// Where a value that occurs once is found after two cells have been exchanged.
    pub proof fn lemma_swapped_position(self, p: (int, int), q: (int, int), v: Option<i64>)
        requires
            in_grid(p.0, p.1),
            in_grid(q.0, q.1),
            self.count(v) == 1,
        ensures
            self.swapped(p, q).position_of(v) == Some(
                exchange(p, q, self.position_of(v).unwrap()),
            ),
    {
        self.lemma_holder(v);
        self.lemma_swapped_count(p, q, v);
        self.lemma_swapped_cells(p, q);
        let at = exchange(p, q, self.position_of(v).unwrap());
        assert(self.swapped(p, q).cell(at.0, at.1) == v);
        self.swapped(p, q).lemma_holder(v);
    }

    /// A move leads to a well-formed board, and can be taken back.
    pub proof fn lemma_move_symmetric(self, next: Board)
        requires
            self.is_wellformed(),
            self.is_move(next),
        ensures
            next.is_wellformed(),
            next.is_move(self),
    {
        let (p, q) = choose|p: (int, int), q: (int, int)| #[trigger] self.slides(next, p, q);
        self.lemma_swapped_wellformed(p, q);
        self.lemma_swapped_cells(p, q);
        next.lemma_swapped_cells(q, p);
        lemma_boards_equal(next.swapped(q, p), self);
        assert(next.slides(self, q, p));
    }

    /// A well-formed board has between two and four successors; each is
    /// well-formed and one move away.
    pub proof fn lemma_successors(self)
        requires
            self.is_wellformed(),
        ensures
            2 <= self.successors().len() <= 4,
            forall|i: int|
                0 <= i < self.successors().len() ==> {
                    &&& (#[trigger] self.successors()[i]).is_wellformed()
                    &&& self.is_move(self.successors()[i])
                },
    {
        self.lemma_holder(None);
        let blank = self.position_of(None).unwrap();
        let up = (blank.0 - 1, blank.1);
        let left = (blank.0, blank.1 - 1);
        let right = (blank.0, blank.1 + 1);
        let down = (blank.0 + 1, blank.1);
        assert forall|to: (int, int)| adjacent(blank, to) implies forall|i: int|
            0 <= i < self.slide(blank, to).len() ==> (#[trigger] self.slide(
                blank,
                to,
            )[i]).is_wellformed() && self.is_move(self.slide(blank, to)[i]) by {
            if in_grid(to.0, to.1) {
                self.lemma_swapped_wellformed(blank, to);
                assert(self.slides(self.swapped(blank, to), blank, to));
            }
        }
        assert(adjacent(blank, up) && adjacent(blank, left) && adjacent(blank, right) && adjacent(
            blank,
            down,
        ));
        assert forall|i: int| 0 <= i < self.successors().len() implies (
        #[trigger] self.successors()[i]).is_wellformed() && self.is_move(self.successors()[i]) by {
            let a = self.slide(blank, up);
            let b = self.slide(blank, left);
            let c = self.slide(blank, right);
            let d = self.slide(blank, down);
            if i < a.len() {
                assert(self.successors()[i] == a[i]);
            } else if i < a.len() + b.len() {
                assert(self.successors()[i] == b[i - a.len()]);
            } else if i < a.len() + b.len() + c.len() {
                assert(self.successors()[i] == c[i - a.len() - b.len()]);
            } else {
                assert(self.successors()[i] == d[i - a.len() - b.len() - c.len()]);
            }
        }
    }

    /// Every board that is one move away is among the successors.
    pub proof fn lemma_move_is_successor(self, next: Board) -> (i: int)
        requires
            self.is_wellformed(),
            self.is_move(next),
        ensures
            0 <= i < self.successors().len(),
            self.successors()[i] == next,
    {
        let (p, q) = choose|p: (int, int), q: (int, int)| #[trigger] self.slides(next, p, q);
        self.lemma_holder(None);
        assert(self.position_of(None) == Some(p));
        let up = self.slide(p, (p.0 - 1, p.1));
        let left = self.slide(p, (p.0, p.1 - 1));
        let right = self.slide(p, (p.0, p.1 + 1));
        let down = self.slide(p, (p.0 + 1, p.1));
        assert(self.successors() == up + left + right + down);
        if q == (p.0 - 1, p.1) {
            assert(up[0] == next);
            0
        } else if q == (p.0, p.1 - 1) {
            assert(left[0] == next);
            up.len() as int
        } else if q == (p.0, p.1 + 1) {
            assert(right[0] == next);
            (up.len() + left.len()) as int
        } else {
            assert(q == (p.0 + 1, p.1));
            assert(down[0] == next);
            (up.len() + left.len() + right.len()) as int
        }
    }

    /// One move changes the distance to any well-formed board by exactly 1:
    /// a single tile goes one step, towards its place there or away from it.
    pub proof fn lemma_move_distance(self, next: Board, target: Board)
        requires
            self.is_wellformed(),
            target.is_wellformed(),
            self.is_move(next),
        ensures
            gap(self.manhattan(target), next.manhattan(target)) == 1,
    {
        let (p, q) = choose|p: (int, int), q: (int, int)| #[trigger] self.slides(next, p, q);
        self.lemma_cells_valid();
        self.lemma_holder(None);
        let moved = self.cell(q.0, q.1).unwrap();
        assert forall|label: i64| 1 <= label <= 8 implies #[trigger] next.tile_distance(
            target,
            label,
        ) - self.tile_distance(target, label) == (if label == moved {
            next.tile_distance(target, moved) - self.tile_distance(target, moved)
        } else {
            0
        }) by {
            self.lemma_holder(Some(label));
            self.lemma_swapped_position(p, q, Some(label));
        }
        self.lemma_holder(Some(moved));
        self.lemma_swapped_position(p, q, Some(moved));
        target.lemma_holder(Some(moved));
        assert(gap(next.tile_distance(target, moved), self.tile_distance(target, moved)) == 1);
        reveal_with_fuel(Board::distance_upto, 9);
        assert(next.tile_distance(target, 1) - self.tile_distance(target, 1) == (if 1 == moved {
            next.tile_distance(target, moved) - self.tile_distance(target, moved)
        } else {
            0
        }));
    }

    /// The distance of a board from itself is 0.
    pub proof fn lemma_manhattan_self(self)
        ensures
            self.manhattan(self) == 0,
    {
        reveal_with_fuel(Board::distance_upto, 9);
    }

    /// The distance is symmetric.
    pub proof fn lemma_manhattan_symmetric(self, other: Board)
        ensures
            self.manhattan(other) == other.manhattan(self),
    {
        reveal_with_fuel(Board::distance_upto, 9);
    }

    /// The distance lies between 0 and 32: no tile is more than four steps
    /// from any cell.
    pub proof fn lemma_manhattan_bounds(self, other: Board)
        ensures
            0 <= self.manhattan(other) <= 32,
    {
        self.lemma_distance_upto_bounds(other, 8);
    }

    /// The partial sums of the distance are bounded by four steps for each tile.
    proof fn lemma_distance_upto_bounds(self, other: Board, n: int)
        requires
            0 <= n,
        ensures
            0 <= self.distance_upto(other, n) <= 4 * n,
        decreases n,
    {
        if n > 0 {
            self.lemma_distance_upto_bounds(other, n - 1);
            assert(0 <= self.tile_distance(other, n as i64) <= 4);
        }
    }

    /// Where a partial sum of the distance is 0, each of its terms is 0.
    proof fn lemma_distance_upto_zero(self, other: Board, n: int, label: i64)
        requires
            1 <= label <= n,
            self.distance_upto(other, n) == 0,
        ensures
            self.tile_distance(other, label) == 0,
        decreases n,
    {
        self.lemma_distance_upto_bounds(other, n - 1);
        assert(0 <= self.tile_distance(other, n as i64));
        if label < n {
            self.lemma_distance_upto_zero(other, n - 1, label);
        }
    }

    /// Two well-formed boards at distance 0 are the same board.
    pub proof fn lemma_manhattan_zero(self, other: Board)
        requires
            self.is_wellformed(),
            other.is_wellformed(),
            self.manhattan(other) == 0,
        ensures
            self == other,
    {
        self.lemma_cells_valid();
        other.lemma_cells_valid();
        assert forall|label: i64| 1 <= label <= 8 implies self.position_of(Some(label))
            == other.position_of(Some(label)) by {
            self.lemma_holder(Some(label));
            other.lemma_holder(Some(label));
            self.lemma_distance_upto_zero(other, 8, label);
        }
        assert forall|r: int, c: int| in_grid(r, c) implies #[trigger] self.cell(r, c)
            == other.cell(r, c) by {
            match self.cell(r, c) {
                Some(label) => {
                    self.lemma_holder(Some(label));
                    other.lemma_holder(Some(label));
                },
                None => {
                    match other.cell(r, c) {
                        Some(label) => {
                            self.lemma_holder(Some(label));
                            other.lemma_holder(Some(label));
                        },
                        None => {},
                    }
                },
            }
        }
        lemma_boards_equal(self, other);
    }

    /// The first `n` cells of a board with valid cells give a number below
    /// 9 to the power of `n`.
    proof fn lemma_digits_bound(self, n: int)
        requires
            0 <= n <= 9,
            forall|r: int, c: int|
                in_grid(r, c) ==> match #[trigger] self.cell(r, c) {
                    Some(label) => 1 <= label <= 8,
                    None => true,
                },
        ensures
            0 <= self.digits(n) < power_of_nine(n),
        decreases n,
    {
        if n > 0 {
            assert(in_grid((n - 1) / 3, (n - 1) % 3));
            self.lemma_digits_bound(n - 1);
        }
    }

    /// The key of a well-formed board is below [`KEY_LIMIT`].
    pub proof fn lemma_key_bound(self)
        requires
            self.is_wellformed(),
        ensures
            0 <= self.spec_key() < KEY_LIMIT,
    {
        self.lemma_cells_valid();
        self.lemma_digits_bound(9);
        lemma_power_of_nine(9, 9);
    }

    /// Boards whose cells are valid and whose first `n` cells give the same
    /// number agree on those cells.
    proof fn lemma_digits_injective(self, other: Board, n: int)
        requires
            0 <= n <= 9,
            forall|r: int, c: int|
                in_grid(r, c) ==> match #[trigger] self.cell(r, c) {
                    Some(label) => 1 <= label <= 8,
                    None => true,
                },
            forall|r: int, c: int|
                in_grid(r, c) ==> match #[trigger] other.cell(r, c) {
                    Some(label) => 1 <= label <= 8,
                    None => true,
                },
            self.digits(n) == other.digits(n),
        ensures
            forall|r: int, c: int|
                in_grid(r, c) && 3 * r + c < n ==> #[trigger] self.cell(r, c) == other.cell(r, c),
        decreases n,
    {
        if n > 0 {
            let r = (n - 1) / 3;
            let c = (n - 1) % 3;
            assert(in_grid(r, c));
            let x = digit(self.cell(r, c));
            let y = digit(other.cell(r, c));
            assert(0 <= x <= 8 && 0 <= y <= 8);
            assert(x == y && self.digits(n - 1) == other.digits(n - 1));
            self.lemma_digits_injective(other, n - 1);
        }
    }

    /// Well-formed boards with the same key are the same board.
    pub proof fn lemma_key_injective(self, other: Board)
        requires
            self.is_wellformed(),
            other.is_wellformed(),
            self.spec_key() == other.spec_key(),
        ensures
            self == other,
    {
        self.lemma_cells_valid();
        other.lemma_cells_valid();
        self.lemma_digits_injective(other, 9);
        lemma_boards_equal(self, other);
    }
}

} // verus!
