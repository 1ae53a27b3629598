use vstd::prelude::*;
use vstd::string::StringExecFns;

verus! {

/// The one-character symbol of a cell state: twelve distinct symbols for
/// the twelve player-visible states.
pub open spec fn cell_char(c: Cell) -> char {
    match c {
        Cell::Closed => '#',
        Cell::Flag => 'F',
        Cell::Bomb => '*',
        Cell::Empty(n) => if n == 0 {
            '.'
        } else if n == 1 {
            '1'
        } else if n == 2 {
            '2'
        } else if n == 3 {
            '3'
        } else if n == 4 {
            '4'
        } else if n == 5 {
            '5'
        } else if n == 6 {
            '6'
        } else if n == 7 {
            '7'
        } else if n == 8 {
            '8'
        } else {
            '?'
        },
    }
}

/// The symbol of one cell, as a one-character string slice.
fn cell_symbol(c: Cell) -> (r: &'static str)
    ensures
        r@ == seq![cell_char(c)],
{
    match c {
        Cell::Closed => {
            proof {
                reveal_strlit("#");
                assert("#"@ =~= seq![cell_char(c)]);
            }
            "#"
        },
        Cell::Flag => {
            proof {
                reveal_strlit("F");
                assert("F"@ =~= seq![cell_char(c)]);
            }
            "F"
        },
        Cell::Bomb => {
            proof {
                reveal_strlit("*");
                assert("*"@ =~= seq![cell_char(c)]);
            }
            "*"
        },
        Cell::Empty(0) => {
            proof {
                reveal_strlit(".");
                assert("."@ =~= seq![cell_char(c)]);
            }
            "."
        },
        Cell::Empty(1) => {
            proof {
                reveal_strlit("1");
                assert("1"@ =~= seq![cell_char(c)]);
            }
            "1"
        },
        Cell::Empty(2) => {
            proof {
                reveal_strlit("2");
                assert("2"@ =~= seq![cell_char(c)]);
            }
            "2"
        },
        Cell::Empty(3) => {
            proof {
                reveal_strlit("3");
                assert("3"@ =~= seq![cell_char(c)]);
            }
            "3"
        },
        Cell::Empty(4) => {
            proof {
                reveal_strlit("4");
                assert("4"@ =~= seq![cell_char(c)]);
            }
            "4"
        },
        Cell::Empty(5) => {
            proof {
                reveal_strlit("5");
                assert("5"@ =~= seq![cell_char(c)]);
            }
            "5"
        },
        Cell::Empty(6) => {
            proof {
                reveal_strlit("6");
                assert("6"@ =~= seq![cell_char(c)]);
            }
            "6"
        },
        Cell::Empty(7) => {
            proof {
                reveal_strlit("7");
                assert("7"@ =~= seq![cell_char(c)]);
            }
            "7"
        },
        Cell::Empty(8) => {
            proof {
                reveal_strlit("8");
                assert("8"@ =~= seq![cell_char(c)]);
            }
            "8"
        },
        Cell::Empty(_) => {
            proof {
                reveal_strlit("?");
                assert("?"@ =~= seq![cell_char(c)]);
            }
            "?"
        },
    }
}

/// The state of one grid cell.
///
/// `Empty(n)` is a revealed safe cell whose `n` is the number of mined
/// neighbors; a mined cell is never `Empty`. `Bomb` is a detonated mine and
/// is terminal for the whole board.
#[derive(Clone, Copy, PartialEq, Eq, Structural, Debug)]
pub enum Cell {
    Closed,
    Flag,
    Bomb,
    Empty(u8),
}

/// A grid coordinate: `Position(row, column)`, both zero-based.
#[derive(Debug, PartialEq, Eq, Structural, Hash, Clone, Copy)]
pub struct Position(pub usize, pub usize);

/// The one way an operation can be rejected: a board configuration whose
/// dimensions are zero, whose mine count does not leave a safe cell, or
/// whose explicit mine list is out of bounds or repeats a position.
#[derive(Clone, Copy, PartialEq, Eq, Structural, Debug)]
pub enum GameError {
    InvalidConfiguration,
}

/// A cell that has not been revealed yet: it still counts toward the goal
/// and may be revealed or toggled.
pub open spec fn is_unopened(c: Cell) -> bool {
    c == Cell::Closed || c == Cell::Flag
}

/// What one flag toggle does to a single cell: `Closed` and `Flag` swap,
/// revealed cells are left alone.
pub open spec fn toggled(c: Cell) -> Cell {
    match c {
        Cell::Closed => Cell::Flag,
        Cell::Flag => Cell::Closed,
        _ => c,
    }
}

/// Moore adjacency: distinct cells whose rows and columns each differ by at
/// most one (no wraparound).
pub open spec fn adjacent(p: Position, q: Position) -> bool {
    &&& p != q
    &&& p.0 as int - 1 <= q.0 as int <= p.0 as int + 1
    &&& p.1 as int - 1 <= q.1 as int <= p.1 as int + 1
}

/// How many of the first `k` entries are mines.
pub open spec fn mine_total(mines: Seq<bool>, k: int) -> int
    decreases k,
{
    if k <= 0 {
        0
    } else {
        mine_total(mines, k - 1) + if mines[k - 1] {
            1int
        } else {
            0int
        }
    }
}

/// How many of the first `k` cells still count toward the goal: unopened
/// cells that are not mines.
pub open spec fn goal_total(mines: Seq<bool>, cells: Seq<Cell>, k: int) -> int
    decreases k,
{
    if k <= 0 {
        0
    } else {
        goal_total(mines, cells, k - 1) + if !mines[k - 1] && is_unopened(cells[k - 1]) {
            1int
        } else {
            0int
        }
    }
}

/// A row-major index stays below the grid size.
proof fn lemma_idx_bound(r: int, c: int, w: int, h: int)
    by (nonlinear_arith)
    requires
        0 <= r < h,
        0 <= c < w,
    ensures
        0 <= r * w + c < w * h,
{
}

/// Row-major indexing is injective over one grid.
proof fn lemma_idx_injective(w: int, r1: int, c1: int, r2: int, c2: int)
    by (nonlinear_arith)
    requires
        0 <= c1 < w,
        0 <= c2 < w,
        0 <= r1,
        0 <= r2,
        r1 * w + c1 == r2 * w + c2,
    ensures
        r1 == r2 && c1 == c2,
{
}

/// Distinct in-bounds positions have distinct row-major indices.
proof fn lemma_idx_distinct(w: int, h: int, p: Position, q: Position)
    requires
        p.0 < h,
        p.1 < w,
        q.0 < h,
        q.1 < w,
        p != q,
    ensures
        p.0 as int * w + p.1 as int != q.0 as int * w + q.1 as int,
{
    if p.0 as int * w + p.1 as int == q.0 as int * w + q.1 as int {
        lemma_idx_injective(w, p.0 as int, p.1 as int, q.0 as int, q.1 as int);
    }
}

/// Rewriting one cell moves `goal_total` by exactly the difference of that
/// cell's contribution.
proof fn lemma_goal_total_update(mines: Seq<bool>, cells: Seq<Cell>, i: int, v: Cell, k: int)
    requires
        0 <= i < cells.len(),
        k <= cells.len(),
    ensures
        goal_total(mines, cells.update(i, v), k) == goal_total(mines, cells, k) + (if i < k {
            (if !mines[i] && is_unopened(v) {
                1int
            } else {
                0int
            }) - (if !mines[i] && is_unopened(cells[i]) {
                1int
            } else {
                0int
            })
        } else {
            0int
        }),
    decreases k,
{
    if k > 0 {
        lemma_goal_total_update(mines, cells, i, v, k - 1);
    }
}

/// `goal_total` is never negative.
proof fn lemma_goal_total_nonneg(mines: Seq<bool>, cells: Seq<Cell>, k: int)
    ensures
        goal_total(mines, cells, k) >= 0,
    decreases k,
{
    if k > 0 {
        lemma_goal_total_nonneg(mines, cells, k - 1);
    }
}

/// An unopened safe cell below `k` forces `goal_total` to be positive.
proof fn lemma_goal_total_lower(mines: Seq<bool>, cells: Seq<Cell>, i: int, k: int)
    requires
        0 <= i < k,
        !mines[i],
        is_unopened(cells[i]),
    ensures
        goal_total(mines, cells, k) >= 1,
    decreases k,
{
    if i == k - 1 {
        lemma_goal_total_nonneg(mines, cells, k - 1);
    } else {
        lemma_goal_total_lower(mines, cells, i, k - 1);
    }
}

/// On a fully unopened grid the goal is the cell count minus the mine count.
proof fn lemma_goal_total_all_unopened(mines: Seq<bool>, cells: Seq<Cell>, k: int)
    requires
        0 <= k,
        forall|i: int| 0 <= i < k ==> is_unopened(#[trigger] cells[i]),
    ensures
        goal_total(mines, cells, k) == k - mine_total(mines, k),
    decreases k,
{
    if k > 0 {
        lemma_goal_total_all_unopened(mines, cells, k - 1);
    }
}

/// Arming a previously unarmed index raises `mine_total` by one exactly when
/// the index is below `k`.
proof fn lemma_mine_total_arm(mines: Seq<bool>, i: int, k: int)
    requires
        0 <= i < mines.len(),
        !mines[i],
        k <= mines.len(),
    ensures
        mine_total(mines.update(i, true), k) == mine_total(mines, k) + if i < k {
            1int
        } else {
            0int
        },
    decreases k,
{
    if k > 0 {
        lemma_mine_total_arm(mines, i, k - 1);
    }
}

/// A bitmap with no bit set counts no mines.
proof fn lemma_mine_total_all_false(mines: Seq<bool>, k: int)
    requires
        forall|i: int| 0 <= i < k ==> !(#[trigger] mines[i]),
    ensures
        mine_total(mines, k) == 0,
    decreases k,
{
    if k > 0 {
        lemma_mine_total_all_false(mines, k - 1);
    }
}

/// A mine list a board can be built from: positive dimensions, at least one
/// safe cell left over, every position on the grid, and no repeats.
pub open spec fn valid_mine_list(height: int, width: int, ps: Seq<Position>) -> bool {
    &&& 0 < height
    &&& 0 < width
    &&& ps.len() < width * height
    &&& forall|i: int|
        0 <= i < ps.len() ==> (#[trigger] ps[i]).0 < height && ps[i].1 < width
    &&& ps.no_duplicates()
}

/// Pushing a fresh element keeps a sequence free of duplicates.
proof fn lemma_no_dup_push<A>(s: Seq<A>, v: A)
    requires
        s.no_duplicates(),
        !s.contains(v),
    ensures
        s.push(v).no_duplicates(),
{
    let t = s.push(v);
    assert forall|i: int, j: int|
        0 <= i < t.len() && 0 <= j < t.len() && i != j implies t[i] != t[j] by {
        if t[i] == t[j] {
            if i == s.len() as int {
                assert(s[j] == v);
                assert(s.contains(v));
            } else if j == s.len() as int {
                assert(s[i] == v);
                assert(s.contains(v));
            }
        }
    }
}

/// Two boards that cannot be told apart: same shape, same mines, same
/// cells, same goal counter, same end flag.
pub open spec fn same_board(a: Minesweeper, b: Minesweeper) -> bool {
    &&& b.spec_width() == a.spec_width()
    &&& b.spec_height() == a.spec_height()
    &&& b.spec_end() == a.spec_end()
    &&& b.spec_to_goal() == a.spec_to_goal()
    &&& forall|p: Position|
        a.spec_in_bounds(p) ==> #[trigger] b.spec_is_mine(p) == a.spec_is_mine(p)
    &&& forall|p: Position|
        a.spec_in_bounds(p) ==> #[trigger] b.spec_cell(p) == a.spec_cell(p)
}

/// What one `reveal` call on a safe, live board leaves behind: every cell
/// is kept, newly revealed, or — on a win — has its flag cleared; the seed
/// ends up revealed; the game ends exactly when no safe cell is left; a won
/// board carries no flag.
pub open spec fn reveal_transition(a: Minesweeper, b: Minesweeper, start: Position) -> bool {
    &&& forall|p: Position|
        a.spec_in_bounds(p) ==> (#[trigger] b.spec_cell(p) == a.spec_cell(p) || (is_unopened(
            a.spec_cell(p),
        ) && !a.spec_is_mine(p) && b.spec_cell(p) is Empty) || (a.spec_cell(p) == Cell::Flag
            && b.spec_cell(p) == Cell::Closed && b.spec_end()))
    &&& (is_unopened(a.spec_cell(start)) ==> b.spec_cell(start) is Empty)
    &&& (b.spec_end() <==> b.spec_to_goal() == 0)
    &&& (b.spec_end() ==> forall|p: Position|
        a.spec_in_bounds(p) ==> #[trigger] b.spec_cell(p) != Cell::Flag)
    &&& b.spec_to_goal() <= a.spec_to_goal()
}

/// What one `flag` call leaves behind: dimensions, mines, goal counter and
/// end flag are untouched, every cell but `pos` is untouched, and the cell
/// at `pos` is toggled unless the game is over.
pub open spec fn flag_transition(a: Minesweeper, b: Minesweeper, pos: Position) -> bool {
    &&& b.spec_width() == a.spec_width()
    &&& b.spec_height() == a.spec_height()
    &&& b.spec_end() == a.spec_end()
    &&& b.spec_to_goal() == a.spec_to_goal()
    &&& forall|p: Position|
        a.spec_in_bounds(p) ==> #[trigger] b.spec_is_mine(p) == a.spec_is_mine(p)
    &&& forall|p: Position|
        a.spec_in_bounds(p) && p != pos ==> #[trigger] b.spec_cell(p) == a.spec_cell(p)
    &&& b.spec_cell(pos) == (if a.spec_end() {
        a.spec_cell(pos)
    } else {
        toggled(a.spec_cell(pos))
    })
}

/// The board engine: a `height` x `width` grid stored row-major, the mine
/// set as a bitmap over the same indexing, the count of unopened safe cells
/// still to reveal, and the end-of-game flag.
#[derive(Debug)]
pub struct Minesweeper {
    width: usize,
    height: usize,
    mines: Vec<bool>,
    cells: Vec<Cell>,
    to_goal: usize,
    pub end: bool,
}

impl Minesweeper {
    /// The board width, as an abstract integer.
    pub closed spec fn spec_width(self) -> int {
        self.width as int
    }

    /// The board height, as an abstract integer.
    pub closed spec fn spec_height(self) -> int {
        self.height as int
    }

    /// The count of unopened safe cells still to reveal.
    pub closed spec fn spec_to_goal(self) -> int {
        self.to_goal as int
    }

    /// Whether the game has ended.
    pub closed spec fn spec_end(self) -> bool {
        self.end
    }

    /// Row-major index of a position.
    pub open spec fn idx(self, p: Position) -> int {
        p.0 as int * self.spec_width() + p.1 as int
    }

    /// Whether a position lies on the grid.
    pub open spec fn spec_in_bounds(self, p: Position) -> bool {
        p.0 < self.spec_height() && p.1 < self.spec_width()
    }

    /// Whether the cell at `p` is mined.
    pub closed spec fn spec_is_mine(self, p: Position) -> bool {
        self.mines@[self.idx(p)]
    }

    /// The state of the cell at `p`.
    pub closed spec fn spec_cell(self, p: Position) -> Cell {
        self.cells@[self.idx(p)]
    }

    /// 1 if `(r, c)` is on the grid and mined, else 0.
    pub closed spec fn mine_at(self, r: int, c: int) -> int {
        if 0 <= r < self.spec_height() && 0 <= c < self.spec_width() && self.mines@[r
            * self.spec_width() + c] {
            1
        } else {
            0
        }
    }

    /// The number of mined neighbors of `p`: the sum over the eight
    /// adjacent coordinates, each clipped at the grid edge.
    pub open spec fn spec_neighbor_mines(self, p: Position) -> int {
        let r = p.0 as int;
        let c = p.1 as int;
        self.mine_at(r - 1, c - 1) + self.mine_at(r - 1, c) + self.mine_at(r - 1, c + 1)
            + self.mine_at(r, c - 1) + self.mine_at(r, c + 1) + self.mine_at(r + 1, c - 1)
            + self.mine_at(r + 1, c) + self.mine_at(r + 1, c + 1)
    }

    /// The total number of mines on the board.
    pub closed spec fn spec_mine_total(self) -> int {
        mine_total(self.mines@, self.mines@.len() as int)
    }

    /// Well-formedness of the grid shape alone: positive dimensions, both
    /// backing vectors of length `width * height`, and that product within
    /// the machine word.
    pub closed spec fn dims_ok(self) -> bool {
        &&& self.width > 0
        &&& self.height > 0
        &&& self.width * self.height <= usize::MAX
        &&& self.mines@.len() == self.spec_width() * self.spec_height()
        &&& self.cells@.len() == self.spec_width() * self.spec_height()
    }

    /// The full board invariant. Every constructor establishes it and every
    /// operation preserves it:
    /// - the grid shape is well formed;
    /// - `to_goal` equals the number of unopened safe cells, so it can never
    ///   be driven below zero and each reveal accounts for exactly the cells
    ///   it opened;
    /// - a mined cell is never shown as `Empty`;
    /// - every `Empty(n)` carries the true count of mined neighbors;
    /// - a detonated mine implies the mine and the end of the game;
    /// - the game ends no later than the last safe cell is revealed.
    pub closed spec fn wf(self) -> bool {
        &&& self.dims_ok()
        &&& self.spec_to_goal() == goal_total(self.mines@, self.cells@, self.cells@.len() as int)
        &&& forall|p: Position|
            self.spec_in_bounds(p) && self.spec_is_mine(p) ==> !(#[trigger] self.spec_cell(p)
                is Empty)
        &&& forall|p: Position|
            self.spec_in_bounds(p) ==> (#[trigger] self.spec_cell(p) matches Cell::Empty(n)
                ==> n as int == self.spec_neighbor_mines(p))
        &&& forall|p: Position|
            self.spec_in_bounds(p) && #[trigger] self.spec_cell(p) == Cell::Bomb ==> self.end
                && self.spec_is_mine(p)
        &&& (self.spec_to_goal() == 0 ==> self.end)
    }

    /// Whether the game has ended, by detonation or by a win.
    pub fn has_ended(&self) -> (r: bool)
        ensures
            r == self.spec_end(),
    {
        self.end
    }

    /// The board width.
    pub fn width(&self) -> (r: usize)
        ensures
            r as int == self.spec_width(),
    {
        self.width
    }

    /// The board height.
    pub fn height(&self) -> (r: usize)
        ensures
            r as int == self.spec_height(),
    {
        self.height
    }

    /// The number of safe cells not yet revealed.
    pub fn remaining_safe(&self) -> (r: usize)
        ensures
            r as int == self.spec_to_goal(),
    {
        self.to_goal
    }

    /// The symbols of the first `k` cells of row `r`.
    pub open spec fn spec_row(self, r: int, k: int) -> Seq<char>
        decreases k,
    {
        if k <= 0 {
            Seq::<char>::empty()
        } else {
            self.spec_row(r, k - 1).push(
                cell_char(self.spec_cell(Position(r as usize, (k - 1) as usize))),
            )
        }
    }

    /// The rendering of the first `k` rows, each ended by a newline.
    pub open spec fn spec_render_rows(self, k: int) -> Seq<char>
        decreases k,
    {
        if k <= 0 {
            Seq::<char>::empty()
        } else {
            self.spec_render_rows(k - 1) + self.spec_row(k - 1, self.spec_width()).push('\n')
        }
    }

    /// The full rendering: row-major, one symbol per cell, each row ended
    /// by a newline.
    pub open spec fn spec_render(self) -> Seq<char> {
        self.spec_render_rows(self.spec_height())
    }

    /// Render the board as text, one symbol per cell: `#` closed, `F`
    /// flagged, `*` a detonated mine, `.` a revealed cell with no mined
    /// neighbor, `1` to `8` the other revealed counts; rows in order, each
    /// ended by a newline. Pure: safe to call at any time.
    pub fn render(&self) -> (r: String)
        requires
            self.wf(),
        ensures
            r@ == self.spec_render(),
    {
        let mut out = String::new();
        let mut row: usize = 0;
        while row < self.height
            invariant
                self.wf(),
                row <= self.height,
                out@ == self.spec_render_rows(row as int),
            decreases self.spec_height() - row,
        {
            let mut col: usize = 0;
            proof {
                assert(out@ =~= self.spec_render_rows(row as int) + self.spec_row(row as int, 0));
            }
            while col < self.width
                invariant
                    self.wf(),
                    row < self.height,
                    col <= self.width,
                    out@ == self.spec_render_rows(row as int) + self.spec_row(
                        row as int,
                        col as int,
                    ),
                decreases self.spec_width() - col,
            {
                proof {
                    lemma_idx_bound(
                        row as int,
                        col as int,
                        self.spec_width(),
                        self.spec_height(),
                    );
                }
                let i = row * self.width + col;
                let sym = cell_symbol(self.cells[i]);
                out.append(sym);
                proof {
                    assert(self.cells@[i as int] == self.spec_cell(Position(row, col)));
                    assert(out@ =~= self.spec_render_rows(row as int) + self.spec_row(
                        row as int,
                        col as int + 1,
                    ));
                }
                col = col + 1;
            }
            out.append("\n");
            proof {
                reveal_strlit("\n");
                assert("\n"@ =~= seq!['\n']);
                assert(out@ =~= self.spec_render_rows(row as int + 1));
            }
            row = row + 1;
        }
        out
    }

    /// The row-major index of an in-bounds position.
    fn index_of(&self, pos: Position) -> (i: usize)
        requires
            self.dims_ok(),
            self.spec_in_bounds(pos),
        ensures
            i as int == self.idx(pos),
            i < self.cells@.len(),
            i < self.mines@.len(),
    {
        proof {
            lemma_idx_bound(pos.0 as int, pos.1 as int, self.spec_width(), self.spec_height());
        }
        pos.0 * self.width + pos.1
    }

    /// Overwrite the cell at `pos`; every other part of the board is kept.
    fn set(&mut self, pos: Position, val: Cell)
        requires
            old(self).dims_ok(),
            old(self).spec_in_bounds(pos),
        ensures
            final(self).cells@ == old(self).cells@.update(old(self).idx(pos), val),
            final(self).width == old(self).width,
            final(self).height == old(self).height,
            final(self).mines == old(self).mines,
            final(self).to_goal == old(self).to_goal,
            final(self).end == old(self).end,
    {
        let i = self.index_of(pos);
        self.cells[i] = val;
    }

    /// Whether the cell at `pos` is still unopened, from the grid shape
    /// alone.
    fn unopened_at(&self, pos: Position) -> (r: bool)
        requires
            self.dims_ok(),
            self.spec_in_bounds(pos),
        ensures
            r == is_unopened(self.spec_cell(pos)),
    {
        let i = self.index_of(pos);
        let c = self.cells[i];
        c == Cell::Closed || c == Cell::Flag
    }

    /// Whether the cell at `pos` is still unopened (`Closed` or `Flag`).
    pub fn closed(&self, pos: Position) -> (r: bool)
        requires
            self.wf(),
            self.spec_in_bounds(pos),
        ensures
            r == is_unopened(self.spec_cell(pos)),
    {
        self.unopened_at(pos)
    }

    /// 1 if `(r, c)` is mined, else 0; the two coordinates are in bounds.
    fn mine_flag(&self, r: usize, c: usize) -> (b: u8)
        requires
            self.dims_ok(),
            r < self.spec_height(),
            c < self.spec_width(),
        ensures
            b as int == self.mine_at(r as int, c as int),
    {
        proof {
            lemma_idx_bound(r as int, c as int, self.spec_width(), self.spec_height());
        }
        if self.mines[r * self.width + c] {
            1
        } else {
            0
        }
    }

    /// The number of mined cells among the up-to-eight grid neighbors of
    /// `pos`, clipped at the edges.
    pub fn count_neighbor_mines(&self, pos: Position) -> (n: u8)
        requires
            self.wf(),
            self.spec_in_bounds(pos),
        ensures
            n as int == self.spec_neighbor_mines(pos),
            0 <= n <= 8,
    {
        self.neighbor_mines_at(pos)
    }

    /// The same count, from the grid shape alone.
    fn neighbor_mines_at(&self, pos: Position) -> (n: u8)
        requires
            self.dims_ok(),
            self.spec_in_bounds(pos),
        ensures
            n as int == self.spec_neighbor_mines(pos),
            0 <= n <= 8,
    {
        let Position(x, y) = pos;
        let mut n: u8 = 0;
        if x > 0 {
            if y > 0 {
                n = n + self.mine_flag(x - 1, y - 1);
            }
            n = n + self.mine_flag(x - 1, y);
            if y + 1 < self.width {
                n = n + self.mine_flag(x - 1, y + 1);
            }
        }
        if y > 0 {
            n = n + self.mine_flag(x, y - 1);
        }
        if y + 1 < self.width {
            n = n + self.mine_flag(x, y + 1);
        }
        if x + 1 < self.height {
            if y > 0 {
                n = n + self.mine_flag(x + 1, y - 1);
            }
            n = n + self.mine_flag(x + 1, y);
            if y + 1 < self.width {
                n = n + self.mine_flag(x + 1, y + 1);
            }
        }
        n
    }

    /// Around a cell with no mined neighbor, every adjacent in-bounds cell
    /// is safe: this is what lets the flood fill spread blindly from a
    /// zero-count cell.
    proof fn lemma_zero_neighbors_safe(self, pos: Position, q: Position)
        requires
            self.dims_ok(),
            self.spec_in_bounds(pos),
            self.spec_in_bounds(q),
            adjacent(pos, q),
            self.spec_neighbor_mines(pos) == 0,
        ensures
            !self.spec_is_mine(q),
    {
        let r = pos.0 as int;
        let c = pos.1 as int;
        let qr = q.0 as int;
        let qc = q.1 as int;
        assert(self.mine_at(r - 1, c - 1) >= 0);
        assert(self.mine_at(r - 1, c) >= 0);
        assert(self.mine_at(r - 1, c + 1) >= 0);
        assert(self.mine_at(r, c - 1) >= 0);
        assert(self.mine_at(r, c + 1) >= 0);
        assert(self.mine_at(r + 1, c - 1) >= 0);
        assert(self.mine_at(r + 1, c) >= 0);
        assert(self.mine_at(r + 1, c + 1) >= 0);
        assert(qr == r - 1 || qr == r || qr == r + 1);
        assert(qc == c - 1 || qc == c || qc == c + 1);
        assert(self.mine_at(qr, qc) == 0);
    }

    /// The grid-adjacent positions of `pos`, from the grid shape alone.
    fn neighbors_list(&self, pos: Position) -> (r: Vec<Position>)
        requires
            self.dims_ok(),
            self.spec_in_bounds(pos),
        ensures
            forall|q: Position|
                #[trigger] r@.contains(q) <==> (self.spec_in_bounds(q) && adjacent(pos, q)),
            r@.no_duplicates(),
    {
        broadcast use vstd::seq_lib::lemma_seq_contains_after_push;

        let Position(x, y) = pos;
        let mut v: Vec<Position> = Vec::new();
        if x > 0 {
            if y > 0 {
                proof {
                    lemma_no_dup_push(v@, Position((x - 1) as usize, (y - 1) as usize));
                }
                v.push(Position(x - 1, y - 1));
            }
            proof {
                lemma_no_dup_push(v@, Position((x - 1) as usize, y));
            }
            v.push(Position(x - 1, y));
            if y + 1 < self.width {
                proof {
                    lemma_no_dup_push(v@, Position((x - 1) as usize, (y + 1) as usize));
                }
                v.push(Position(x - 1, y + 1));
            }
        }
        if y > 0 {
            proof {
                lemma_no_dup_push(v@, Position(x, (y - 1) as usize));
            }
            v.push(Position(x, y - 1));
        }
        if y + 1 < self.width {
            proof {
                lemma_no_dup_push(v@, Position(x, (y + 1) as usize));
            }
            v.push(Position(x, y + 1));
        }
        if x + 1 < self.height {
            if y > 0 {
                proof {
                    lemma_no_dup_push(v@, Position((x + 1) as usize, (y - 1) as usize));
                }
                v.push(Position(x + 1, y - 1));
            }
            proof {
                lemma_no_dup_push(v@, Position((x + 1) as usize, y));
            }
            v.push(Position(x + 1, y));
            if y + 1 < self.width {
                proof {
                    lemma_no_dup_push(v@, Position((x + 1) as usize, (y + 1) as usize));
                }
                v.push(Position(x + 1, y + 1));
            }
        }
        v
    }

    /// The grid-adjacent positions of `pos`: the Moore neighborhood clipped
    /// at the edges, never `pos` itself, each position listed once.
    pub fn neighbors(&self, pos: Position) -> (r: Vec<Position>)
        requires
            self.wf(),
            self.spec_in_bounds(pos),
        ensures
            forall|q: Position|
                #[trigger] r@.contains(q) <==> (self.spec_in_bounds(q) && adjacent(pos, q)),
            r@.no_duplicates(),
    {
        self.neighbors_list(pos)
    }

    /// An unarmed mine bitmap and an all-`Closed` grid, both of length
    /// `total`.
    fn blank_grid(total: usize) -> (r: (Vec<bool>, Vec<Cell>))
        ensures
            r.0@.len() == total,
            r.1@.len() == total,
            forall|j: int| 0 <= j < total ==> !(#[trigger] r.0@[j]),
            forall|j: int| 0 <= j < total ==> #[trigger] r.1@[j] == Cell::Closed,
    {
        let mut mines: Vec<bool> = Vec::new();
        let mut i: usize = 0;
        while i < total
            invariant
                i <= total,
                mines@.len() == i,
                forall|j: int| 0 <= j < i ==> !(#[trigger] mines@[j]),
            decreases total - i,
        {
            mines.push(false);
            i = i + 1;
        }
        let mut cells: Vec<Cell> = Vec::new();
        let mut k: usize = 0;
        while k < total
            invariant
                k <= total,
                cells@.len() == k,
                forall|j: int| 0 <= j < k ==> #[trigger] cells@[j] == Cell::Closed,
            decreases total - k,
        {
            cells.push(Cell::Closed);
            k = k + 1;
        }
        (mines, cells)
    }

    /// Prove the invariant of a freshly assembled, fully `Closed` board.
    proof fn lemma_blank_board_wf(self)
        requires
            self.width > 0,
            self.height > 0,
            self.width * self.height <= usize::MAX,
            self.mines@.len() == self.spec_width() * self.spec_height(),
            self.cells@.len() == self.spec_width() * self.spec_height(),
            forall|j: int| 0 <= j < self.cells@.len() ==> #[trigger] self.cells@[j] == Cell::Closed,
            self.spec_to_goal() == self.cells@.len() - self.spec_mine_total(),
            self.spec_to_goal() > 0,
            !self.end,
        ensures
            self.wf(),
            forall|p: Position|
                self.spec_in_bounds(p) ==> #[trigger] self.spec_cell(p) == Cell::Closed,
    {
        assert forall|j: int| 0 <= j < self.cells@.len() implies is_unopened(
            #[trigger] self.cells@[j],
        ) by {}
        lemma_goal_total_all_unopened(self.mines@, self.cells@, self.cells@.len() as int);
        assert forall|p: Position| self.spec_in_bounds(p) implies #[trigger] self.spec_cell(p)
            == Cell::Closed by {
            lemma_idx_bound(p.0 as int, p.1 as int, self.spec_width(), self.spec_height());
        }
    }

    /// Build a fresh board of `height` rows by `width` columns:
    /// `mines_count` mines are drawn uniformly at random, without
    /// replacement; every cell starts `Closed` and the game is live.
    ///
    /// Succeeds exactly on configurations that leave at least one safe
    /// cell: positive dimensions and `mines_count < height * width`.
    pub fn new(height: usize, width: usize, mines_count: usize) -> (r: Result<
        Minesweeper,
        GameError,
    >)
        requires
            width * height <= usize::MAX,
        ensures
            r is Ok <==> (height > 0 && width > 0 && (mines_count as int) < width * height),
            r matches Ok(b) ==> b.wf() && b.spec_width() == width && b.spec_height() == height
                && !b.spec_end() && b.spec_to_goal() == width * height - mines_count
                && b.spec_mine_total() == mines_count,
            r matches Ok(b) ==> forall|p: Position|
                b.spec_in_bounds(p) ==> #[trigger] b.spec_cell(p) == Cell::Closed,
            r matches Err(e) ==> e == GameError::InvalidConfiguration,
    {
        if height == 0 || width == 0 {
            return Err(GameError::InvalidConfiguration);
        }
        let total = width * height;
        if mines_count >= total {
            return Err(GameError::InvalidConfiguration);
        }
        let (mut mines, cells) = Self::blank_grid(total);
        proof {
            lemma_mine_total_all_false(mines@, total as int);
        }
        let mut placed: usize = 0;
        while placed < mines_count
            invariant
                total == width * height,
                mines_count < total,
                mines@.len() == total,
                placed <= mines_count,
                placed as int == mine_total(mines@, total as int),
            decreases mines_count - placed,
        {
            // Draw a rank among the `total - placed` still unarmed cells:
            // each unarmed cell is equally likely to be the next mine, so
            // the final set is uniform without replacement.
            let r = crate::rng::gen_range_below(total - placed);
            let mut i: usize = 0;
            let mut seen: usize = 0;
            while i < total && (mines[i] || seen < r)
                invariant
                    mines@.len() == total,
                    i <= total,
                    seen <= r,
                    r < total - placed,
                    placed as int == mine_total(mines@, total as int),
                    seen as int == i as int - mine_total(mines@, i as int),
                decreases total - i,
            {
                if !mines[i] {
                    seen = seen + 1;
                }
                i = i + 1;
            }
            proof {
                if i == total {
                    assert(seen as int == total - placed);
                }
            }
            let ghost m0 = mines@;
            mines[i] = true;
            proof {
                lemma_mine_total_arm(m0, i as int, total as int);
            }
            placed = placed + 1;
        }
        let board = Minesweeper {
            width,
            height,
            mines,
            cells,
            to_goal: total - mines_count,
            end: false,
        };
        proof {
            board.lemma_blank_board_wf();
        }
        Ok(board)
    }

    /// Build a board with an explicit mine list: the deterministic
    /// counterpart of `new`, for callers that fix the layout in advance.
    ///
    /// Succeeds exactly on a valid list: positive dimensions, fewer mines
    /// than cells, every position on the grid, no position repeated.
    pub fn with_mines(height: usize, width: usize, mine_positions: &Vec<Position>) -> (r: Result<
        Minesweeper,
        GameError,
    >)
        requires
            width * height <= usize::MAX,
        ensures
            r is Ok <==> valid_mine_list(height as int, width as int, mine_positions@),
            r matches Ok(b) ==> b.wf() && b.spec_width() == width && b.spec_height() == height
                && !b.spec_end() && b.spec_to_goal() == width * height - mine_positions@.len()
                && b.spec_mine_total() == mine_positions@.len(),
            r matches Ok(b) ==> forall|p: Position|
                b.spec_in_bounds(p) ==> #[trigger] b.spec_cell(p) == Cell::Closed,
            r matches Ok(b) ==> forall|p: Position|
                b.spec_in_bounds(p) ==> (#[trigger] b.spec_is_mine(p) <==> mine_positions@.contains(
                    p,
                )),
            r matches Err(e) ==> e == GameError::InvalidConfiguration,
    {
        if height == 0 || width == 0 {
            return Err(GameError::InvalidConfiguration);
        }
        let total = width * height;
        let n = mine_positions.len();
        if n >= total {
            return Err(GameError::InvalidConfiguration);
        }
        let (mut mines, cells) = Self::blank_grid(total);
        proof {
            lemma_mine_total_all_false(mines@, total as int);
            assert(mine_positions@.take(0) =~= Seq::<Position>::empty());
            assert forall|p: Position| p.0 < height && p.1 < width implies !(mines@[p.0 as int
                * width + p.1 as int]) by {
                lemma_idx_bound(p.0 as int, p.1 as int, width as int, height as int);
            }
        }
        let mut j: usize = 0;
        while j < n
            invariant
                height > 0,
                width > 0,
                total == width * height,
                total <= usize::MAX,
                n == mine_positions@.len(),
                n < total,
                mines@.len() == total,
                j <= n,
                j as int == mine_total(mines@, total as int),
                forall|i: int|
                    0 <= i < j ==> (#[trigger] mine_positions@[i]).0 < height
                        && mine_positions@[i].1 < width,
                forall|p: Position|
                    p.0 < height && p.1 < width ==> (mines@[p.0 as int * width + p.1 as int]
                        <==> mine_positions@.take(j as int).contains(p)),
                mine_positions@.take(j as int).no_duplicates(),
            decreases n - j,
        {
            let p = mine_positions[j];
            if p.0 >= height || p.1 >= width {
                return Err(GameError::InvalidConfiguration);
            }
            proof {
                lemma_idx_bound(p.0 as int, p.1 as int, width as int, height as int);
            }
            let k = p.0 * width + p.1;
            if mines[k] {
                proof {
                    let ghost tj = mine_positions@.take(j as int);
                    assert(tj.contains(p));
                    let i = choose|i: int| 0 <= i < tj.len() && tj[i] == p;
                    assert(mine_positions@[i] == mine_positions@[j as int]);
                    assert(!mine_positions@.no_duplicates());
                }
                return Err(GameError::InvalidConfiguration);
            }
            let ghost m0 = mines@;
            mines[k] = true;
            proof {
                lemma_mine_total_arm(m0, k as int, total as int);
                let ghost tj = mine_positions@.take(j as int);
                let ghost tj1 = mine_positions@.take(j as int + 1);
                assert(tj1 =~= tj.push(p));
                assert(tj1[j as int] == p);
                assert(!tj.contains(p));
                assert forall|q: Position| q.0 < height && q.1 < width implies (mines@[q.0 as int
                    * width + q.1 as int] <==> tj1.contains(q)) by {
                    lemma_idx_bound(q.0 as int, q.1 as int, width as int, height as int);
                    if q != p {
                        lemma_idx_distinct(width as int, height as int, q, p);
                    }
                    if tj1.contains(q) {
                        let i = choose|i: int| 0 <= i < tj1.len() && tj1[i] == q;
                        if i < j {
                            assert(tj[i] == q);
                            assert(tj.contains(q));
                        }
                    }
                    if tj.contains(q) {
                        let i = choose|i: int| 0 <= i < tj.len() && tj[i] == q;
                        assert(tj1[i] == q);
                    }
                }
                assert forall|a: int, b: int|
                    0 <= a < tj1.len() && 0 <= b < tj1.len() && a != b implies tj1[a] != tj1[b] by {
                    if tj1[a] == tj1[b] {
                        if a < j && b < j {
                            assert(tj[a] != tj[b]);
                        } else if a == j as int {
                            assert(tj[b] == p);
                            assert(tj.contains(p));
                        } else {
                            assert(tj[a] == p);
                            assert(tj.contains(p));
                        }
                    }
                }
            }
            j = j + 1;
        }
        let board = Minesweeper {
            width,
            height,
            mines,
            cells,
            to_goal: total - n,
            end: false,
        };
        proof {
            board.lemma_blank_board_wf();
            assert(mine_positions@.take(n as int) =~= mine_positions@);
            assert forall|p: Position| board.spec_in_bounds(p) implies (
            #[trigger] board.spec_is_mine(p) <==> mine_positions@.contains(p)) by {
                lemma_idx_bound(p.0 as int, p.1 as int, width as int, height as int);
            }
        }
        Ok(board)
    }

    /// Reveal the cell at `start`.
    ///
    /// On a live board, revealing a mine detonates it — the cell becomes
    /// `Bomb` and the game is lost — whether or not the cell was flagged.
    /// Revealing a safe unopened cell runs an iterative flood fill: the
    /// cell is revealed with its neighbor-mine count, and every revealed
    /// cell with a count of zero spreads the reveal to its whole unopened
    /// neighborhood. Each newly revealed safe cell lowers the goal counter
    /// by one; when it reaches zero the game is won, remaining flags are
    /// cleared, and the board ends. Revealing an already revealed cell, or
    /// any cell of an ended board, changes nothing.
    #[verifier::rlimit(60)]
    pub fn open(&mut self, start: Position)
        requires
            old(self).wf(),
            old(self).spec_in_bounds(start),
        ensures
            final(self).wf(),
            final(self).spec_width() == old(self).spec_width(),
            final(self).spec_height() == old(self).spec_height(),
            forall|p: Position|
                old(self).spec_in_bounds(p) ==> #[trigger] final(self).spec_is_mine(p) == old(
                    self,
                ).spec_is_mine(p),
            final(self).spec_mine_total() == old(self).spec_mine_total(),
            old(self).spec_end() ==> same_board(*old(self), *final(self)),
            !old(self).spec_end() && !is_unopened(old(self).spec_cell(start)) ==> same_board(
                *old(self),
                *final(self),
            ),
            !old(self).spec_end() && old(self).spec_is_mine(start) ==> final(self).spec_end()
                && final(self).spec_cell(start) == Cell::Bomb && final(self).spec_to_goal() == old(
                self,
            ).spec_to_goal() && (forall|p: Position|
                old(self).spec_in_bounds(p) && p != start ==> #[trigger] final(self).spec_cell(p)
                    == old(self).spec_cell(p)),
            !old(self).spec_end() && !old(self).spec_is_mine(start) ==> reveal_transition(
                *old(self),
                *final(self),
                start,
            ),
    {
        if self.end {
            return;
        }
        let i = self.index_of(start);
        if self.mines[i] {
            let ghost c0 = self.cells@;
            self.cells[i] = Cell::Bomb;
            self.end = true;
            proof {
                lemma_goal_total_update(self.mines@, c0, i as int, Cell::Bomb, c0.len() as int);
                assert forall|p: Position|
                    old(self).spec_in_bounds(p) && p != start implies #[trigger] self.spec_cell(p)
                    == old(self).spec_cell(p) by {
                    lemma_idx_bound(
                        p.0 as int,
                        p.1 as int,
                        old(self).spec_width(),
                        old(self).spec_height(),
                    );
                    lemma_idx_distinct(old(self).spec_width(), old(self).spec_height(), p, start);
                }
            }
            return;
        }
        let mut stk: Vec<Position> = Vec::new();
        stk.push(start);
        proof {
            assert(stk@[0] == start);
            assert(stk@.contains(start));
        }
        while stk.len() > 0
            invariant
                self.dims_ok(),
                self.width == old(self).width,
                self.height == old(self).height,
                self.mines@ == old(self).mines@,
                !self.end,
                !old(self).spec_end(),
                !old(self).spec_is_mine(start),
                old(self).spec_in_bounds(start),
                old(self).wf(),
                self.to_goal as int == goal_total(
                    self.mines@,
                    self.cells@,
                    self.cells@.len() as int,
                ),
                self.to_goal <= old(self).to_goal,
                forall|p: Position|
                    self.spec_in_bounds(p) && self.spec_is_mine(p) ==> !(#[trigger] self.spec_cell(
                        p,
                    ) is Empty),
                forall|p: Position|
                    self.spec_in_bounds(p) ==> (#[trigger] self.spec_cell(p) matches Cell::Empty(n)
                        ==> n as int == self.spec_neighbor_mines(p)),
                forall|p: Position|
                    self.spec_in_bounds(p) ==> #[trigger] self.spec_cell(p) != Cell::Bomb,
                forall|k: int|
                    0 <= k < stk@.len() ==> self.spec_in_bounds(#[trigger] stk@[k])
                        && !self.spec_is_mine(stk@[k]),
                forall|p: Position|
                    self.spec_in_bounds(p) ==> (#[trigger] self.spec_cell(p) == old(
                        self,
                    ).spec_cell(p) || (is_unopened(old(self).spec_cell(p)) && !self.spec_is_mine(p)
                        && self.spec_cell(p) is Empty)),
                is_unopened(old(self).spec_cell(start)) ==> (self.spec_cell(start) is Empty
                    || stk@.contains(start)),
                !is_unopened(old(self).spec_cell(start)) ==> (self.cells@ == old(self).cells@
                    && self.to_goal == old(self).to_goal && forall|k: int|
                    0 <= k < stk@.len() ==> stk@[k] == start),
            decreases self.to_goal, stk@.len(),
        {
            let ghost pre = stk@;
            let pos = stk.pop().unwrap();
            proof {
                if pre.contains(start) && pos != start {
                    let w = choose|w: int| 0 <= w < pre.len() && pre[w] == start;
                    assert(stk@[w] == start);
                    assert(stk@.contains(start));
                }
            }
            if self.unopened_at(pos) {
                let n = self.neighbor_mines_at(pos);
                let ghost c0 = self.cells@;
                let ghost sm = *self;
                proof {
                    assert(pre[pre.len() - 1] == pos);
                    assert(sm.spec_in_bounds(pos));
                    assert(!sm.spec_is_mine(pos));
                    lemma_idx_bound(pos.0 as int, pos.1 as int, sm.spec_width(), sm.spec_height());
                    assert(c0[sm.idx(pos)] == sm.spec_cell(pos));
                    lemma_goal_total_lower(sm.mines@, c0, sm.idx(pos), c0.len() as int);
                }
                if n > 0 {
                    self.set(pos, Cell::Empty(n));
                } else {
                    self.set(pos, Cell::Empty(0));
                }
                self.to_goal = self.to_goal - 1;
                proof {
                    lemma_goal_total_update(
                        self.mines@,
                        c0,
                        sm.idx(pos),
                        Cell::Empty(n),
                        c0.len() as int,
                    );
                    assert forall|p: Position|
                        self.spec_in_bounds(p) && p != pos implies #[trigger] self.spec_cell(p)
                        == sm.spec_cell(p) by {
                        lemma_idx_bound(
                            p.0 as int,
                            p.1 as int,
                            self.spec_width(),
                            self.spec_height(),
                        );
                        lemma_idx_distinct(self.spec_width(), self.spec_height(), p, pos);
                    }
                    assert forall|p: Position|
                        self.spec_in_bounds(p) implies #[trigger] self.spec_neighbor_mines(p)
                        == sm.spec_neighbor_mines(p) && self.spec_is_mine(p) == sm.spec_is_mine(
                        p,
                    ) by {}
                    assert(self.spec_cell(pos) == Cell::Empty(n));
                    assert(n as int == self.spec_neighbor_mines(pos));
                    assert(!self.spec_is_mine(pos));
                }
                if n == 0 {
                    let nb = self.neighbors_list(pos);
                    let ghost s1 = *self;
                    let mut t: usize = 0;
                    while t < nb.len()
                        invariant
                            *self == s1,
                            s1.dims_ok(),
                            s1.spec_in_bounds(pos),
                            s1.spec_neighbor_mines(pos) == 0,
                            t <= nb.len(),
                            forall|q: Position|
                                #[trigger] nb@.contains(q) <==> (s1.spec_in_bounds(q) && adjacent(
                                    pos,
                                    q,
                                )),
                            forall|k: int|
                                0 <= k < stk@.len() ==> s1.spec_in_bounds(#[trigger] stk@[k])
                                    && !s1.spec_is_mine(stk@[k]),
                            is_unopened(old(self).spec_cell(start)) ==> (s1.spec_cell(start)
                                is Empty || stk@.contains(start)),
                        decreases nb@.len() - t,
                    {
                        broadcast use vstd::seq_lib::lemma_seq_contains_after_push;

                        let q = nb[t];
                        proof {
                            assert(nb@[t as int] == q);
                            assert(nb@.contains(q));
                            s1.lemma_zero_neighbors_safe(pos, q);
                        }
                        if self.unopened_at(q) {
                            stk.push(q);
                        }
                        t = t + 1;
                    }
                }
            }
        }
        let ghost s2 = *self;
        if self.to_goal == 0 {
            let total = self.cells.len();
            let ghost c1 = self.cells@;
            let mut k: usize = 0;
            while k < total
                invariant
                    self.dims_ok(),
                    self.width == s2.width,
                    self.height == s2.height,
                    self.mines@ == s2.mines@,
                    self.end == s2.end,
                    self.to_goal == s2.to_goal,
                    s2.cells@ == c1,
                    total == self.cells@.len(),
                    c1.len() == total,
                    k <= total,
                    self.to_goal as int == goal_total(
                        self.mines@,
                        self.cells@,
                        self.cells@.len() as int,
                    ),
                    forall|j: int| 0 <= j < k ==> #[trigger] self.cells@[j] != Cell::Flag,
                    forall|j: int|
                        0 <= j < total ==> (#[trigger] self.cells@[j] == c1[j] || (c1[j]
                            == Cell::Flag && self.cells@[j] == Cell::Closed)),
                decreases total - k,
            {
                if self.cells[k] == Cell::Flag {
                    let ghost c2 = self.cells@;
                    self.cells[k] = Cell::Closed;
                    proof {
                        lemma_goal_total_update(
                            self.mines@,
                            c2,
                            k as int,
                            Cell::Closed,
                            c2.len() as int,
                        );
                    }
                }
                k = k + 1;
            }
            self.end = true;
            proof {
                assert forall|p: Position| s2.spec_in_bounds(p) implies (#[trigger] self.spec_cell(
                    p,
                ) == s2.spec_cell(p) || (s2.spec_cell(p) == Cell::Flag && self.spec_cell(p)
                    == Cell::Closed)) && self.spec_cell(p) != Cell::Flag by {
                    lemma_idx_bound(p.0 as int, p.1 as int, s2.spec_width(), s2.spec_height());
                }
                assert forall|p: Position| self.spec_in_bounds(p) implies self.spec_neighbor_mines(
                    p,
                ) == s2.spec_neighbor_mines(p) by {}
            }
        }
    }

    /// Toggle the flag at `pos`: a `Closed` cell becomes `Flag`, a `Flag`
    /// becomes `Closed`, a revealed cell is left alone, and nothing happens
    /// once the game has ended. The goal counter and the end flag never
    /// change.
    pub fn flag(&mut self, pos: Position)
        requires
            old(self).wf(),
            old(self).spec_in_bounds(pos),
        ensures
            final(self).wf(),
            flag_transition(*old(self), *final(self), pos),
    {
        if self.end {
            return;
        }
        let i = self.index_of(pos);
        let ghost c0 = self.cells@;
        let c = self.cells[i];
        match c {
            Cell::Closed => {
                self.cells[i] = Cell::Flag;
            },
            Cell::Flag => {
                self.cells[i] = Cell::Closed;
            },
            _ => {},
        }
        proof {
            lemma_goal_total_update(old(self).mines@, c0, i as int, toggled(c), c0.len() as int);
            assert forall|p: Position|
                old(self).spec_in_bounds(p) && p != pos implies #[trigger] self.spec_cell(p) == old(
                self,
            ).spec_cell(p) by {
                lemma_idx_bound(
                    p.0 as int,
                    p.1 as int,
                    old(self).spec_width(),
                    old(self).spec_height(),
                );
                lemma_idx_distinct(old(self).spec_width(), old(self).spec_height(), p, pos);
            }
        }
    }
}

/// One row's symbols depend only on the shape and the cells.
proof fn lemma_row_same(a: Minesweeper, b: Minesweeper, r: int, k: int)
    requires
        a.spec_width() == b.spec_width(),
        a.spec_height() == b.spec_height(),
        0 <= r < a.spec_height(),
        k <= a.spec_width(),
        forall|p: Position| a.spec_in_bounds(p) ==> #[trigger] a.spec_cell(p) == b.spec_cell(p),
    ensures
        a.spec_row(r, k) == b.spec_row(r, k),
    decreases k,
{
    if k > 0 {
        lemma_row_same(a, b, r, k - 1);
        assert(a.spec_cell(Position(r as usize, (k - 1) as usize)) == b.spec_cell(
            Position(r as usize, (k - 1) as usize),
        ));
    }
}

/// The first `k` rendered rows depend only on the shape and the cells.
proof fn lemma_rows_same(a: Minesweeper, b: Minesweeper, k: int)
    requires
        a.spec_width() == b.spec_width(),
        a.spec_height() == b.spec_height(),
        k <= a.spec_height(),
        forall|p: Position| a.spec_in_bounds(p) ==> #[trigger] a.spec_cell(p) == b.spec_cell(p),
    ensures
        a.spec_render_rows(k) == b.spec_render_rows(k),
    decreases k,
{
    if k > 0 {
        lemma_rows_same(a, b, k - 1);
        lemma_row_same(a, b, k - 1, a.spec_width());
    }
}

/// Law: boards that agree on their shape and on every cell render the same
/// text.
pub proof fn lemma_render_same(a: Minesweeper, b: Minesweeper)
    requires
        a.spec_width() == b.spec_width(),
        a.spec_height() == b.spec_height(),
        forall|p: Position| a.spec_in_bounds(p) ==> #[trigger] a.spec_cell(p) == b.spec_cell(p),
    ensures
        a.spec_render() == b.spec_render(),
{
    lemma_rows_same(a, b, a.spec_height());
}

/// Law: toggling the flag at one position twice restores the board as the
/// player sees it — every cell, the goal counter, the end flag, and the
/// rendered text.
pub proof fn lemma_flag_twice(b0: Minesweeper, b1: Minesweeper, b2: Minesweeper, pos: Position)
    requires
        b0.wf(),
        b0.spec_in_bounds(pos),
        flag_transition(b0, b1, pos),
        flag_transition(b1, b2, pos),
    ensures
        same_board(b0, b2),
        b2.spec_render() == b0.spec_render(),
{
    assert forall|p: Position|
        b0.spec_in_bounds(p) implies #[trigger] b2.spec_cell(p) == b0.spec_cell(p) by {}
    lemma_render_same(b0, b2);
}

/// Law: once the goal counter is zero, every safe cell of a well-formed
/// board stands revealed — a win shows the whole safe region.
pub proof fn lemma_goal_zero_all_revealed(b: Minesweeper, p: Position)
    requires
        b.wf(),
        b.spec_to_goal() == 0,
        b.spec_in_bounds(p),
        !b.spec_is_mine(p),
    ensures
        b.spec_cell(p) is Empty,
{
    if is_unopened(b.spec_cell(p)) {
        lemma_idx_bound(p.0 as int, p.1 as int, b.spec_width(), b.spec_height());
        lemma_goal_total_lower(b.mines@, b.cells@, b.idx(p), b.cells@.len() as int);
    }
}

/// The number of unopened safe cells among the first `k` of row `r`.
pub open spec fn safe_unopened_in_row(b: Minesweeper, r: int, k: int) -> int
    decreases k,
{
    if k <= 0 {
        0
    } else {
        safe_unopened_in_row(b, r, k - 1) + if !b.spec_is_mine(
            Position(r as usize, (k - 1) as usize),
        ) && is_unopened(b.spec_cell(Position(r as usize, (k - 1) as usize))) {
            1int
        } else {
            0int
        }
    }
}

/// The number of unopened safe cells in the first `k` rows.
pub open spec fn safe_unopened_rows(b: Minesweeper, k: int) -> int
    decreases k,
{
    if k <= 0 {
        0
    } else {
        safe_unopened_rows(b, k - 1) + safe_unopened_in_row(b, k - 1, b.spec_width())
    }
}

/// The number of unopened safe cells on the whole board.
pub open spec fn spec_safe_unopened(b: Minesweeper) -> int {
    safe_unopened_rows(b, b.spec_height())
}

/// `goal_total` restricted to one row matches the per-row position count.
proof fn lemma_goal_row(b: Minesweeper, r: int, k: int)
    requires
        b.dims_ok(),
        0 <= r < b.spec_height(),
        0 <= k <= b.spec_width(),
    ensures
        goal_total(b.mines@, b.cells@, r * b.spec_width() + k) == goal_total(
            b.mines@,
            b.cells@,
            r * b.spec_width(),
        ) + safe_unopened_in_row(b, r, k),
    decreases k,
{
    if k > 0 {
        lemma_goal_row(b, r, k - 1);
        lemma_idx_bound(r, k - 1, b.spec_width(), b.spec_height());
        let p = Position(r as usize, (k - 1) as usize);
        assert(b.mines@[r * b.spec_width() + (k - 1)] == b.spec_is_mine(p));
        assert(b.cells@[r * b.spec_width() + (k - 1)] == b.spec_cell(p));
    }
}

/// `goal_total` over the first `k` rows matches the position count.
proof fn lemma_goal_rows(b: Minesweeper, k: int)
    requires
        b.dims_ok(),
        0 <= k <= b.spec_height(),
    ensures
        goal_total(b.mines@, b.cells@, k * b.spec_width()) == safe_unopened_rows(b, k),
    decreases k,
{
    if k > 0 {
        lemma_goal_rows(b, k - 1);
        lemma_goal_row(b, k - 1, b.spec_width());
        assert(goal_total(b.mines@, b.cells@, (k - 1) * b.spec_width() + b.spec_width())
            == safe_unopened_rows(b, k - 1) + safe_unopened_in_row(b, k - 1, b.spec_width()));
        assert(safe_unopened_rows(b, k) == safe_unopened_rows(b, k - 1) + safe_unopened_in_row(
            b,
            k - 1,
            b.spec_width(),
        ));
        assert(k * b.spec_width() == (k - 1) * b.spec_width() + b.spec_width())
            by (nonlinear_arith);
        assert(goal_total(b.mines@, b.cells@, k * b.spec_width()) == goal_total(
            b.mines@,
            b.cells@,
            (k - 1) * b.spec_width() + b.spec_width(),
        ));
    } else {
        assert(k * b.spec_width() == 0) by (nonlinear_arith)
            requires k == 0,
        ;
    }
}

/// Law: on a well-formed board the goal counter equals the number of
/// unopened safe cells. It therefore never falls below zero, and one
/// reveal call lowers it by exactly the number of cells that call newly
/// revealed.
pub proof fn lemma_goal_counts_unopened_safe(b: Minesweeper)
    requires
        b.wf(),
    ensures
        b.spec_to_goal() == spec_safe_unopened(b),
        b.spec_to_goal() >= 0,
{
    lemma_goal_rows(b, b.spec_height());
    assert(b.spec_height() * b.spec_width() == b.spec_width() * b.spec_height())
        by (nonlinear_arith);
}

/// The number of positions among the first `k` of row `r` that `a` still
/// held unopened and `b` shows revealed.
pub open spec fn newly_revealed_in_row(a: Minesweeper, b: Minesweeper, r: int, k: int) -> int
    decreases k,
{
    if k <= 0 {
        0
    } else {
        newly_revealed_in_row(a, b, r, k - 1) + if is_unopened(
            a.spec_cell(Position(r as usize, (k - 1) as usize)),
        ) && b.spec_cell(Position(r as usize, (k - 1) as usize)) is Empty {
            1int
        } else {
            0int
        }
    }
}

/// The same count over the first `k` rows.
pub open spec fn newly_revealed_rows(a: Minesweeper, b: Minesweeper, k: int) -> int
    decreases k,
{
    if k <= 0 {
        0
    } else {
        newly_revealed_rows(a, b, k - 1) + newly_revealed_in_row(a, b, k - 1, a.spec_width())
    }
}

/// The number of cells that were unopened in `a` and stand revealed in `b`.
pub open spec fn spec_newly_revealed(a: Minesweeper, b: Minesweeper) -> int {
    newly_revealed_rows(a, b, a.spec_height())
}

/// Per row, the drop in unopened safe cells equals the newly revealed
/// count, given the cell-transition discipline of a reveal.
proof fn lemma_delta_row(a: Minesweeper, b: Minesweeper, r: int, k: int)
    requires
        a.spec_width() == b.spec_width(),
        a.spec_height() == b.spec_height(),
        forall|p: Position|
            a.spec_in_bounds(p) ==> #[trigger] b.spec_is_mine(p) == a.spec_is_mine(p),
        forall|p: Position|
            a.spec_in_bounds(p) ==> (#[trigger] b.spec_cell(p) == a.spec_cell(p) || (is_unopened(
                a.spec_cell(p),
            ) && !a.spec_is_mine(p) && b.spec_cell(p) is Empty) || (a.spec_cell(p) == Cell::Flag
                && b.spec_cell(p) == Cell::Closed)),
        0 <= r < a.spec_height(),
        0 <= k <= a.spec_width(),
    ensures
        safe_unopened_in_row(a, r, k) - safe_unopened_in_row(b, r, k) == newly_revealed_in_row(
            a,
            b,
            r,
            k,
        ),
    decreases k,
{
    if k > 0 {
        lemma_delta_row(a, b, r, k - 1);
        let p = Position(r as usize, (k - 1) as usize);
        assert(a.spec_in_bounds(p));
        assert(b.spec_cell(p) == a.spec_cell(p) || (is_unopened(a.spec_cell(p))
            && !a.spec_is_mine(p) && b.spec_cell(p) is Empty) || (a.spec_cell(p) == Cell::Flag
            && b.spec_cell(p) == Cell::Closed));
    }
}

/// The same, summed over the first `k` rows.
proof fn lemma_delta_rows(a: Minesweeper, b: Minesweeper, k: int)
    requires
        a.spec_width() == b.spec_width(),
        a.spec_height() == b.spec_height(),
        forall|p: Position|
            a.spec_in_bounds(p) ==> #[trigger] b.spec_is_mine(p) == a.spec_is_mine(p),
        forall|p: Position|
            a.spec_in_bounds(p) ==> (#[trigger] b.spec_cell(p) == a.spec_cell(p) || (is_unopened(
                a.spec_cell(p),
            ) && !a.spec_is_mine(p) && b.spec_cell(p) is Empty) || (a.spec_cell(p) == Cell::Flag
                && b.spec_cell(p) == Cell::Closed)),
        0 <= k <= a.spec_height(),
    ensures
        safe_unopened_rows(a, k) - safe_unopened_rows(b, k) == newly_revealed_rows(a, b, k),
    decreases k,
{
    if k > 0 {
        lemma_delta_rows(a, b, k - 1);
        lemma_delta_row(a, b, k - 1, a.spec_width());
    }
}

/// Law: one reveal call on a safe cell lowers the goal counter by exactly
/// the number of cells it newly revealed, and never below zero.
pub proof fn lemma_reveal_decrements_exactly(a: Minesweeper, b: Minesweeper, start: Position)
    requires
        a.wf(),
        b.wf(),
        a.spec_width() == b.spec_width(),
        a.spec_height() == b.spec_height(),
        forall|p: Position|
            a.spec_in_bounds(p) ==> #[trigger] b.spec_is_mine(p) == a.spec_is_mine(p),
        reveal_transition(a, b, start),
    ensures
        a.spec_to_goal() - b.spec_to_goal() == spec_newly_revealed(a, b),
        b.spec_to_goal() >= 0,
{
    lemma_goal_counts_unopened_safe(a);
    lemma_goal_counts_unopened_safe(b);
    lemma_delta_rows(a, b, a.spec_height());
}

} // verus!
