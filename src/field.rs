use vstd::prelude::*;
use vstd::string::StringExecFns;
use crate::cell::{fresh_cell, Cell, CellStatus};
use crate::grid::{
    closed_safe_cell, count_grid, lemma_count_grid_nonneg, lemma_count_grid_update, count_row, in_bounds, lemma_count_grid_push, lemma_count_row_push,
    lemma_mines_among_bounds, lemma_mines_among_same_layout, mine_cell, mines_among, mines_around,
    is_neighbor, lemma_shift_index, same_layout, shift_index, shift_col, shift_row,
};
use crate::mark::{glyph, Mark};

verus! {

/// What an action on the field means for the game.
#[derive(Debug, Clone, Copy, PartialEq, Eq, Structural)]
pub enum GameResult {
    Win,
    Play,
    Lose,
    Stop,
    Info,
    Error,
}

impl GameResult {
    /// Winning, losing and stopping end the game; the others go on.
    pub fn ends_game(self) -> (r: bool)
        ensures
            r == (self == GameResult::Win || self == GameResult::Lose || self == GameResult::Stop),
    {
        match self {
            GameResult::Win | GameResult::Lose | GameResult::Stop => true,
            _ => false,
        }
    }
}

/// Side length of a field when none is chosen.
pub const FIELD_DEFAULT_SIZE: usize = 10;

/// Most cells a field may have: its counters are `i16`.
pub const MAX_CELLS: usize = 32767;

/// A field as values: side length, rows of cells, and the two counters.
pub struct FieldView {
    pub size: nat,
    pub cells: Seq<Seq<Cell>>,
    pub mines_count: int,
    pub closed_safe_cells_count: int,
}

impl FieldView {
    pub open spec fn in_bounds(self, r: int, c: int) -> bool {
        in_bounds(self.size as int, r, c)
    }

    /// The grid is square, each cell knows its neighbouring mines, and the
    /// counters count the mines and the safe cells still closed.
    pub open spec fn wf(self) -> bool {
        &&& self.size * self.size <= MAX_CELLS
        &&& self.cells.len() == self.size
        &&& forall|r: int| 0 <= r < self.size ==> #[trigger] self.cells[r].len() == self.size
        &&& forall|r: int, c: int|
            self.in_bounds(r, c) ==> #[trigger] self.cells[r][c].mines_neighbors_count
                == mines_around(self.cells, self.size as int, r, c)
        &&& 0 <= self.mines_count <= MAX_CELLS
        &&& 0 <= self.closed_safe_cells_count <= MAX_CELLS
        &&& self.mines_count == count_grid(self.cells, mine_cell())
        &&& self.closed_safe_cells_count == count_grid(self.cells, closed_safe_cell())
    }

    /// A safe cell that touches no mine.
    pub open spec fn is_blank(self, r: int, c: int) -> bool {
        &&& self.in_bounds(r, c)
        &&& !self.cells[r][c].is_mine
        &&& self.cells[r][c].mines_neighbors_count == 0
    }
}

/// Rows of cells as values.
pub open spec fn grid_view(rows: Seq<Vec<Cell>>) -> Seq<Seq<Cell>> {
    rows.map_values(|row: Vec<Cell>| row@)
}

/// The square grid of cells and the game's progress.
#[derive(Debug, PartialEq)]
pub struct Field {
    size: usize,
    cells: Vec<Vec<Cell>>,
    mines_count: i16,
    closed_safe_cells_count: i16,
}

impl View for Field {
    type V = FieldView;

    closed spec fn view(&self) -> FieldView {
        FieldView {
            size: self.size as nat,
            cells: grid_view(self.cells@),
            mines_count: self.mines_count as int,
            closed_safe_cells_count: self.closed_safe_cells_count as int,
        }
    }
}

/// Offsets of the `k`-th neighbour.
fn shift(k: usize) -> (r: (i8, i8))
    requires
        k < 8,
    ensures
        r.0 == shift_row(k as int),
        r.1 == shift_col(k as int),
{
    match k {
        0 => (-1, -1),
        1 => (-1, 0),
        2 => (-1, 1),
        3 => (0, -1),
        4 => (0, 1),
        5 => (1, -1),
        6 => (1, 0),
        _ => (1, 1),
    }
}

/// `x + d` when it lies in `[0, size)`.
fn step(x: usize, d: i8, size: usize) -> (r: Option<usize>)
    requires
        x < size,
        -1 <= d <= 1,
    ensures
        r == (if 0 <= x + d < size {
            Some((x + d) as usize)
        } else {
            None
        }),
{
    if d < 0 {
        if x == 0 {
            None
        } else {
            Some(x - 1)
        }
    } else if d > 0 {
        if x + 1 >= size {
            None
        } else {
            Some(x + 1)
        }
    } else {
        Some(x)
    }
}

/// The `k`-th neighbour of `(r, c)`, when it lies on the grid.
fn neighbor(size: usize, r: usize, c: usize, k: usize) -> (res: Option<(usize, usize)>)
    requires
        r < size,
        c < size,
        k < 8,
    ensures
        res == (if in_bounds(size as int, r + shift_row(k as int), c + shift_col(k as int)) {
            Some(((r + shift_row(k as int)) as usize, (c + shift_col(k as int)) as usize))
        } else {
            None
        }),
{
    let (dr, dc) = shift(k);
    match step(r, dr, size) {
        Some(nr) => match step(c, dc, size) {
            Some(nc) => Some((nr, nc)),
            None => None,
        },
        None => None,
    }
}

/// A square grid of side `size`.
pub open spec fn is_square(cells: Seq<Seq<Cell>>, size: int) -> bool {
    &&& cells.len() == size
    &&& forall|r: int| 0 <= r < size ==> #[trigger] cells[r].len() == size
}

/// Counts the mines around `(r, c)`.
pub(crate) fn count_neighbor_mines(cells: &Vec<Vec<Cell>>, size: usize, r: usize, c: usize) -> (n: i8)
    requires
        is_square(grid_view(cells@), size as int),
        r < size,
        c < size,
    ensures
        n as int == mines_around(grid_view(cells@), size as int, r as int, c as int),
{
    let ghost g = grid_view(cells@);
    let mut n: i8 = 0;
    let mut k: usize = 0;
    while k < 8
        invariant
            k <= 8,
            is_square(g, size as int),
            g == grid_view(cells@),
            r < size,
            c < size,
            n as int == mines_among(g, size as int, r as int, c as int, k as int),
            0 <= n <= k,
        decreases 8 - k,
    {
        proof {
            lemma_mines_among_bounds(g, size as int, r as int, c as int, k as int);
        }
        match neighbor(size, r, c, k) {
            Some((nr, nc)) => {
                assert(g[nr as int] == cells@[nr as int]@);
                if cells[nr][nc].is_mine {
                    n = n + 1;
                }
            },
            None => {},
        }
        k = k + 1;
    }
    n
}

impl Field {
    /// A field of closed, unmarked cells with a mine exactly where `mines`
    /// says.
    pub fn from_layout(mines: &Vec<Vec<bool>>) -> (r: Field)
        requires
            mines@.len() * mines@.len() <= MAX_CELLS,
            forall|i: int| 0 <= i < mines@.len() ==> #[trigger] mines@[i]@.len() == mines@.len(),
        ensures
            r@.wf(),
            r@.size == mines@.len(),
            forall|i: int, j: int|
                #![trigger r@.cells[i][j]]
                r@.in_bounds(i, j) ==> r@.cells[i][j].is_mine == mines@[i]@[j]
                    && !r@.cells[i][j].opened && r@.cells[i][j].marked_as == Mark::Empty,
            r@.mines_count + r@.closed_safe_cells_count == r@.size * r@.size,
    {
        let size = mines.len();
        // First pass: the mine layout.
        let mut cells: Vec<Vec<Cell>> = Vec::new();
        let mut i: usize = 0;
        while i < size
            invariant
                size == mines@.len(),
                forall|a: int| 0 <= a < size ==> #[trigger] mines@[a]@.len() == size,
                i <= size,
                cells@.len() == i,
                forall|a: int| 0 <= a < i ==> #[trigger] cells@[a]@.len() == size,
                forall|a: int, b: int|
                    0 <= a < i && 0 <= b < size ==> #[trigger] cells@[a]@[b] == fresh_cell(
                        mines@[a]@[b],
                    ),
            decreases size - i,
        {
            let mut row: Vec<Cell> = Vec::new();
            let mut j: usize = 0;
            while j < size
                invariant
                    size == mines@.len(),
                    i < size,
                    mines@[i as int]@.len() == size,
                    j <= size,
                    row@.len() == j,
                    forall|b: int| 0 <= b < j ==> #[trigger] row@[b] == fresh_cell(
                        mines@[i as int]@[b],
                    ),
                decreases size - j,
            {
                row.push(Cell::new(mines[i][j]));
                j = j + 1;
            }
            cells.push(row);
            i = i + 1;
        }
        let ghost layout = grid_view(cells@);
        assert(is_square(layout, size as int));
        // Second pass: the neighbour counts, and the two counters.
        let mut out: Vec<Vec<Cell>> = Vec::new();
        let mut mines_count: i16 = 0;
        let mut closed_safe_cells_count: i16 = 0;
        let mut i: usize = 0;
        while i < size
            invariant
                size == mines@.len(),
                size * size <= MAX_CELLS,
                layout == grid_view(cells@),
                is_square(layout, size as int),
                forall|a: int, b: int|
                    0 <= a < size && 0 <= b < size ==> #[trigger] layout[a][b] == fresh_cell(
                        mines@[a]@[b],
                    ),
                i <= size,
                out@.len() == i,
                forall|a: int| 0 <= a < i ==> #[trigger] out@[a]@.len() == size,
                forall|a: int, b: int|
                    0 <= a < i && 0 <= b < size ==> #[trigger] out@[a]@[b] == (Cell {
                        mines_neighbors_count: mines_around(layout, size as int, a, b) as i8,
                        ..layout[a][b]
                    }),
                forall|a: int, b: int|
                    0 <= a < i && 0 <= b < size ==> 0 <= #[trigger] mines_around(
                        layout,
                        size as int,
                        a,
                        b,
                    ) <= 8,
                mines_count == count_grid(grid_view(out@), mine_cell()),
                closed_safe_cells_count == count_grid(grid_view(out@), closed_safe_cell()),
                mines_count + closed_safe_cells_count == i * size,
                0 <= mines_count,
                0 <= closed_safe_cells_count,
            decreases size - i,
        {
            let mut row: Vec<Cell> = Vec::new();
            let mut row_mines: i16 = 0;
            let mut row_safe: i16 = 0;
            let mut j: usize = 0;
            proof {
                assert((i + 1) * size <= size * size) by (nonlinear_arith)
                    requires
                        i < size,
                ;
                assert(size <= size * size) by (nonlinear_arith)
                    requires
                        i < size,
                ;
            }
            while j < size
                invariant
                    size == mines@.len(),
                    size * size <= MAX_CELLS,
                    (i + 1) * size <= size * size,
                    forall|b: int| 0 <= b < size ==> !(#[trigger] layout[i as int][b]).opened,
                    size <= size * size,
                    layout == grid_view(cells@),
                    is_square(layout, size as int),
                    i < size,
                    j <= size,
                    row@.len() == j,
                    forall|b: int| 0 <= b < j ==> #[trigger] row@[b] == (Cell {
                        mines_neighbors_count: mines_around(layout, size as int, i as int, b) as i8,
                        ..layout[i as int][b]
                    }),
                    forall|b: int|
                        0 <= b < j ==> 0 <= #[trigger] mines_around(
                            layout,
                            size as int,
                            i as int,
                            b,
                        ) <= 8,
                    row_mines == count_row(row@, mine_cell()),
                    row_safe == count_row(row@, closed_safe_cell()),
                    row_mines + row_safe == j,
                    0 <= row_mines,
                    0 <= row_safe,
                    0 <= mines_count,
                    0 <= closed_safe_cells_count,
                    mines_count + closed_safe_cells_count == i * size,
                decreases size - j,
            {
                let n = count_neighbor_mines(&cells, size, i, j);
                proof {
                    assert(cells@[i as int]@[j as int] == layout[i as int][j as int]);

                    lemma_mines_among_bounds(layout, size as int, i as int, j as int, 8);
                    lemma_count_row_push(row@, Cell { mines_neighbors_count: n, ..cells@[i as int]@[j as int] }, mine_cell());
                    lemma_count_row_push(row@, Cell { mines_neighbors_count: n, ..cells@[i as int]@[j as int] }, closed_safe_cell());
                }
                let cell = cells[i][j];
                if cell.is_mine {
                    row_mines = row_mines + 1;
                } else {
                    row_safe = row_safe + 1;
                }
                row.push(Cell { mines_neighbors_count: n, ..cell });
                j = j + 1;
            }
            proof {
                lemma_count_grid_push(grid_view(out@), row@, mine_cell());
                lemma_count_grid_push(grid_view(out@), row@, closed_safe_cell());
                assert(grid_view(out@.push(row)) =~= grid_view(out@).push(row@));
                assert((i + 1) * size == i * size + size) by (nonlinear_arith);
            }
            mines_count = mines_count + row_mines;
            closed_safe_cells_count = closed_safe_cells_count + row_safe;
            out.push(row);
            i = i + 1;
        }
        let r = Field { size, cells: out, mines_count, closed_safe_cells_count };
        proof {
            let g = grid_view(out@);
            assert(same_layout(g, layout, size as int));
            assert forall|a: int, b: int| in_bounds(size as int, a, b) implies #[trigger] g[a][b].mines_neighbors_count
                == mines_around(g, size as int, a, b) by {
                lemma_mines_among_same_layout(g, layout, size as int, a, b, 8);
            }
            assert(r@.cells == g);
        }
        r
    }

    pub(crate) fn from_parts(
        size: usize,
        cells: Vec<Vec<Cell>>,
        mines_count: i16,
        closed_safe_cells_count: i16,
    ) -> (r: Field)
        ensures
            r@ == (FieldView {
                size: size as nat,
                cells: grid_view(cells@),
                mines_count: mines_count as int,
                closed_safe_cells_count: closed_safe_cells_count as int,
            }),
    {
        Field { size, cells, mines_count, closed_safe_cells_count }
    }

    pub(crate) fn rows(&self) -> (r: &Vec<Vec<Cell>>)
        ensures
            grid_view(r@) == self@.cells,
    {
        &self.cells
    }

    pub fn size(&self) -> (r: usize)
        ensures
            r == self@.size,
    {
        self.size
    }

    pub fn mines_count(&self) -> (r: i16)
        ensures
            r == self@.mines_count,
    {
        self.mines_count
    }

    pub fn closed_safe_cells_count(&self) -> (r: i16)
        ensures
            r == self@.closed_safe_cells_count,
    {
        self.closed_safe_cells_count
    }

    pub fn cell(&self, row: usize, col: usize) -> (r: Cell)
        requires
            self@.wf(),
            self@.in_bounds(row as int, col as int),
        ensures
            r == self@.cells[row as int][col as int],
    {
        self.cells[row][col]
    }
}

impl FieldView {
    /// One step of the flood: from a blank cell to a closed safe neighbour.
    pub open spec fn flood_step(self, u: (int, int), v: (int, int)) -> bool {
        &&& self.is_blank(u.0, u.1)
        &&& is_neighbor(u.0, u.1, v.0, v.1)
        &&& self.in_bounds(v.0, v.1)
        &&& !self.cells[v.0][v.1].is_mine
        &&& !self.cells[v.0][v.1].opened
    }

    /// A walk of flood steps that starts at `(x, y)`.
    pub open spec fn is_flood_path(self, path: Seq<(int, int)>, x: int, y: int) -> bool {
        &&& path.len() > 0
        &&& path[0] == (x, y)
        &&& forall|i: int|
            #![trigger path[i]]
            0 <= i < path.len() - 1 ==> self.flood_step(path[i], path[i + 1])
    }

    /// The cells that opening `(x, y)` reveals: the start and the closed safe
    /// cells that a walk of flood steps reaches from it.
    pub open spec fn in_region(self, x: int, y: int, r: int, c: int) -> bool {
        exists|path: Seq<(int, int)>| #[trigger]
            self.is_flood_path(path, x, y) && path.last() == (r, c)
    }

    /// The field after opening `(x, y)`: every cell of its region is open.
    pub open spec fn after_open(self, x: int, y: int) -> FieldView {
        let cells = Seq::new(
            self.size,
            |r: int|
                Seq::new(
                    self.size,
                    |c: int|
                        if self.in_region(x, y, r, c) {
                            Cell { opened: true, ..self.cells[r][c] }
                        } else {
                            self.cells[r][c]
                        },
                ),
        );
        FieldView {
            size: self.size,
            cells,
            mines_count: self.mines_count,
            closed_safe_cells_count: count_grid(cells, closed_safe_cell()),
        }
    }

    /// The result of opening `(x, y)`: a mine loses, opening the last closed
    /// safe cell wins.
    pub open spec fn open_result(self, x: int, y: int) -> GameResult {
        if self.cells[x][y].is_mine {
            GameResult::Lose
        } else if self.after_open(x, y).closed_safe_cells_count == 0 {
            GameResult::Win
        } else {
            GameResult::Play
        }
    }

    /// Every safe neighbour of `(r, c)` is open.
    pub open spec fn safe_neighbors_open(self, r: int, c: int) -> bool {
        forall|nr: int, nc: int|
            #![trigger self.cells[nr][nc]]
            is_neighbor(r, c, nr, nc) && self.in_bounds(nr, nc) && !self.cells[nr][nc].is_mine
                ==> self.cells[nr][nc].opened
    }

    /// `cur` is this field with some more cells opened and the same counters'
    /// meaning.
    pub open spec fn only_opened(self, cur: FieldView) -> bool {
        &&& cur.wf()
        &&& cur.size == self.size
        &&& cur.mines_count == self.mines_count
        &&& forall|r: int, c: int|
            #![trigger cur.cells[r][c]]
            self.in_bounds(r, c) ==> cur.cells[r][c] == (Cell {
                opened: cur.cells[r][c].opened,
                ..self.cells[r][c]
            }) && (self.cells[r][c].opened ==> cur.cells[r][c].opened)
    }
}

/// A cell of the region other than the start is closed and safe.
proof fn lemma_region_closed_safe(v: FieldView, x: int, y: int, path: Seq<(int, int)>)
    requires
        v.is_flood_path(path, x, y),
        path.len() > 1,
    ensures
        v.in_bounds(path.last().0, path.last().1),
        !v.cells[path.last().0][path.last().1].is_mine,
        !v.cells[path.last().0][path.last().1].opened,
{
    assert(v.flood_step(path[path.len() - 2], path[path.len() - 1]));
}

/// A start that is not blank reveals itself alone.
pub proof fn lemma_region_of_non_blank(v: FieldView, x: int, y: int, r: int, c: int)
    requires
        !v.is_blank(x, y),
        v.in_region(x, y, r, c),
    ensures
        r == x && c == y,
{
    let path = choose|path: Seq<(int, int)>| #[trigger]
        v.is_flood_path(path, x, y) && path.last() == (r, c);
    if path.len() > 1 {
        assert(v.flood_step(path[0], path[1]));
    }
}

/// A flood path extended by one flood step.
proof fn lemma_path_push(v: FieldView, x: int, y: int, path: Seq<(int, int)>, w: (int, int))
    requires
        v.is_flood_path(path, x, y),
        v.flood_step(path.last(), w),
    ensures
        v.is_flood_path(path.push(w), x, y),
        v.in_region(x, y, w.0, w.1),
{
    let p = path.push(w);
    assert forall|i: int| #![trigger p[i]] 0 <= i < p.len() - 1 implies v.flood_step(p[i], p[i + 1]) by {
        if i < path.len() - 1 {
            assert(path[i] == p[i] && path[i + 1] == p[i + 1]);
        }
    }
    assert(v.is_flood_path(p, x, y) && p.last() == (w.0, w.1));
}

/// Where every opened blank cell of the region has its safe neighbours open,
/// the whole region is open.
proof fn lemma_region_open(o: FieldView, cur: FieldView, x: int, y: int, path: Seq<(int, int)>)
    requires
        o.only_opened(cur),
        o.in_bounds(x, y),
        cur.cells[x][y].opened,
        forall|a: int, b: int|
            #![trigger o.in_region(x, y, a, b), o.is_blank(a, b)]
            o.in_region(x, y, a, b) && o.is_blank(a, b) && cur.cells[a][b].opened
                ==> cur.safe_neighbors_open(a, b),
        o.is_flood_path(path, x, y),
    ensures
        cur.cells[path.last().0][path.last().1].opened,
    decreases path.len(),
{
    if path.len() > 1 {
        let prefix = path.drop_last();
        assert forall|i: int| #![trigger prefix[i]] 0 <= i < prefix.len() - 1 implies o.flood_step(
            prefix[i],
            prefix[i + 1],
        ) by {
            assert(path[i] == prefix[i] && path[i + 1] == prefix[i + 1]);
        }
        lemma_region_open(o, cur, x, y, prefix);
        let u = prefix.last();
        let w = path.last();
        assert(o.flood_step(path[path.len() - 2], path[path.len() - 1]));
        assert(o.in_region(x, y, u.0, u.1));
        assert(cur.safe_neighbors_open(u.0, u.1));
        assert(cur.cells[w.0][w.1] == (Cell { opened: cur.cells[w.0][w.1].opened, ..o.cells[w.0][w.1] }));
    }
}

impl Field {
    /// Maps what a cell operation reported to a game result; the only place
    /// that counts down the closed safe cells.
    fn game_status(&mut self, cell_status: CellStatus) -> (r: GameResult)
        requires
            cell_status == CellStatus::Safe ==> old(self).closed_safe_cells_count > 0,
        ensures
            final(self).size == old(self).size,
            final(self).cells == old(self).cells,
            final(self).mines_count == old(self).mines_count,
            final(self).closed_safe_cells_count == if cell_status == CellStatus::Safe {
                old(self).closed_safe_cells_count - 1
            } else {
                old(self).closed_safe_cells_count as int
            },
            r == match cell_status {
                CellStatus::Safe => if final(self).closed_safe_cells_count == 0 {
                    GameResult::Win
                } else {
                    GameResult::Play
                },
                CellStatus::Marked => GameResult::Play,
                CellStatus::Mine => GameResult::Lose,
            },
    {
        match cell_status {
            CellStatus::Safe => {
                self.closed_safe_cells_count = self.closed_safe_cells_count - 1;
                if self.closed_safe_cells_count == 0 {
                    GameResult::Win
                } else {
                    GameResult::Play
                }
            },
            CellStatus::Marked => GameResult::Play,
            CellStatus::Mine => GameResult::Lose,
        }
    }

    /// Win once no safe cell is closed, else play on.
    fn progress(&self) -> (r: GameResult)
        ensures
            r == if self@.closed_safe_cells_count == 0 {
                GameResult::Win
            } else {
                GameResult::Play
            },
    {
        if self.closed_safe_cells_count == 0 {
            GameResult::Win
        } else {
            GameResult::Play
        }
    }

    /// Opens one closed cell, with no flood.
    fn open_closed(&mut self, r: usize, c: usize) -> (res: GameResult)
        requires
            old(self)@.wf(),
            old(self)@.in_bounds(r as int, c as int),
            !old(self)@.cells[r as int][c as int].opened,
        ensures
            final(self)@.wf(),
            final(self)@.size == old(self)@.size,
            final(self)@.mines_count == old(self)@.mines_count,
            final(self)@.cells == old(self)@.cells.update(
                r as int,
                old(self)@.cells[r as int].update(
                    c as int,
                    Cell { opened: true, ..old(self)@.cells[r as int][c as int] },
                ),
            ),
            final(self)@.closed_safe_cells_count == old(self)@.closed_safe_cells_count - if old(
                self,
            )@.cells[r as int][c as int].is_mine {
                0int
            } else {
                1
            },
            res == if old(self)@.cells[r as int][c as int].is_mine {
                GameResult::Lose
            } else if final(self)@.closed_safe_cells_count == 0 {
                GameResult::Win
            } else {
                GameResult::Play
            },
    {
        let ghost o = self@;
        let ghost x = Cell { opened: true, ..o.cells[r as int][c as int] };
        let ghost g = o.cells.update(r as int, o.cells[r as int].update(c as int, x));
        proof {
            lemma_count_grid_update(o.cells, r as int, c as int, x, closed_safe_cell());
            lemma_count_grid_update(o.cells, r as int, c as int, x, mine_cell());
            lemma_count_grid_nonneg(g, closed_safe_cell());
            assert(self.cells@[r as int]@ == o.cells[r as int]);
        }
        let status = self.cells[r][c].open();
        proof {
            assert(grid_view(self.cells@) =~= g);
            assert(same_layout(g, o.cells, o.size as int));
            assert forall|a: int, b: int| o.in_bounds(a, b) implies #[trigger] g[a][b].mines_neighbors_count
                == mines_around(g, o.size as int, a, b) by {
                lemma_mines_among_same_layout(g, o.cells, o.size as int, a, b, 8);
            }
        }
        self.game_status(status)
    }
}

impl Field {
    /// Opens `(x, y)`; where it is a blank cell, also opens every closed safe
    /// cell that a walk through blank cells reaches from it.
    pub fn open_cell(&mut self, x: usize, y: usize) -> (r: GameResult)
        requires
            old(self)@.wf(),
            old(self)@.in_bounds(x as int, y as int),
        ensures
            final(self)@ == old(self)@.after_open(x as int, y as int),
            final(self)@.wf(),
            r == old(self)@.open_result(x as int, y as int),
    {
        let ghost o = self@;
        let ghost (xi, yi) = (x as int, y as int);
        proof {
            let start = seq![(xi, yi)];
            assert(o.is_flood_path(start, xi, yi) && start.last() == (xi, yi));
        }
        let mut result = if self.cells[x][y].opened {
            self.progress()
        } else {
            self.open_closed(x, y)
        };
        proof {
            assert(self.cells@[x as int]@ == self@.cells[xi]);
            assert forall|a: int, b: int| #![trigger self@.cells[a][b]]
                o.in_bounds(a, b) && self@.cells[a][b].opened && !o.cells[a][b].opened
                implies a == xi && b == yi by {
                if a != xi || b != yi {
                    assert(self@.cells[a] == o.cells[a] || self@.cells[a][b] == o.cells[a][b]);
                }
            }
        }
        if self.cells[x][y].is_mine {
            proof {
                assert forall|a: int, b: int| o.in_bounds(a, b) implies
                    (#[trigger] o.in_region(xi, yi, a, b)) == (a == xi && b == yi) by {
                    if o.in_region(xi, yi, a, b) {
                        lemma_region_of_non_blank(o, xi, yi, a, b);
                    }
                }
                self.lemma_matches_after_open(o, xi, yi);
            }
            return GameResult::Lose;
        }
        let mut pending: Vec<(usize, usize)> = Vec::new();
        if self.cells[x][y].mines_neighbors_count == 0 {
            pending.push((x, y));
        }
        proof {
            assert forall|a: int, b: int|
                #![trigger o.in_region(xi, yi, a, b), o.is_blank(a, b)]
                o.in_region(xi, yi, a, b) && o.is_blank(a, b) && self@.cells[a][b].opened
                    && !pending@.contains((a as usize, b as usize))
                implies self@.safe_neighbors_open(a, b) by {
                if a != xi || b != yi {
                    let path = choose|path: Seq<(int, int)>| #[trigger]
                        o.is_flood_path(path, xi, yi) && path.last() == (a, b);
                    if path.len() > 1 {
                        lemma_region_closed_safe(o, xi, yi, path);
                    }
                } else {
                    assert(pending@[0] == (x, y));
                }
            }
        }
        while pending.len() > 0
            invariant
                o.wf(),
                o.in_bounds(xi, yi),
                xi == x && yi == y,
                !o.cells[xi][yi].is_mine,
                o.only_opened(self@),
                self@.cells[xi][yi].opened,
                o.in_region(xi, yi, xi, yi),
                forall|a: int, b: int|
                    #![trigger self@.cells[a][b]]
                    o.in_bounds(a, b) && self@.cells[a][b].opened && !o.cells[a][b].opened
                        ==> o.in_region(xi, yi, a, b),
                forall|i: int|
                    #![trigger pending@[i]]
                    0 <= i < pending@.len() ==> o.in_region(
                        xi,
                        yi,
                        pending@[i].0 as int,
                        pending@[i].1 as int,
                    ) && o.is_blank(pending@[i].0 as int, pending@[i].1 as int)
                        && self@.cells[pending@[i].0 as int][pending@[i].1 as int].opened,
                forall|a: int, b: int|
                    #![trigger o.in_region(xi, yi, a, b), o.is_blank(a, b)]
                    o.in_region(xi, yi, a, b) && o.is_blank(a, b) && self@.cells[a][b].opened
                        && !pending@.contains((a as usize, b as usize))
                        ==> self@.safe_neighbors_open(a, b),
                result == if self@.closed_safe_cells_count == 0 {
                    GameResult::Win
                } else {
                    GameResult::Play
                },
            decreases 2 * self@.closed_safe_cells_count + pending@.len(),
        {
            let ghost before = 2 * self@.closed_safe_cells_count + pending@.len();
            let ghost queued = pending@;
            let (r, c) = pending.pop().unwrap();
            let ghost (ri, ci) = (r as int, c as int);
            proof {
                assert(queued[queued.len() - 1] == (r, c));
                assert(o.in_region(xi, yi, ri, ci));
                assert forall|a: int, b: int|
                    #![trigger o.in_region(xi, yi, a, b), o.is_blank(a, b)]
                    o.in_region(xi, yi, a, b) && o.is_blank(a, b) && self@.cells[a][b].opened
                        && !pending@.contains((a as usize, b as usize)) && (a != ri || b != ci)
                    implies self@.safe_neighbors_open(a, b) by {
                    if queued.contains((a as usize, b as usize)) {
                        let i = choose|i: int| 0 <= i < queued.len() && queued[i] == (a as usize, b as usize);
                        if i < queued.len() - 1 {
                            assert(pending@[i] == queued[i]);
                        }
                    }
                }
                lemma_count_grid_nonneg(self@.cells, closed_safe_cell());
            }
            let mut k: usize = 0;
            while k < 8
                invariant
                    o.wf(),
                    o.in_bounds(xi, yi),
                    xi == x && yi == y,
                    !o.cells[xi][yi].is_mine,
                    o.only_opened(self@),
                    self@.cells[xi][yi].opened,
                    o.in_region(xi, yi, xi, yi),
                    ri == r && ci == c,
                    o.in_region(xi, yi, ri, ci),
                    o.is_blank(ri, ci),
                    self@.cells[ri][ci].opened,
                    k <= 8,
                    forall|j: int|
                        #![trigger shift_row(j)]
                        0 <= j < k ==> !o.in_bounds(ri + shift_row(j), ci + shift_col(j))
                            || o.cells[ri + shift_row(j)][ci + shift_col(j)].is_mine
                            || self@.cells[ri + shift_row(j)][ci + shift_col(j)].opened,
                    forall|a: int, b: int|
                        #![trigger self@.cells[a][b]]
                        o.in_bounds(a, b) && self@.cells[a][b].opened && !o.cells[a][b].opened
                            ==> o.in_region(xi, yi, a, b),
                    forall|i: int|
                        #![trigger pending@[i]]
                        0 <= i < pending@.len() ==> o.in_region(
                            xi,
                            yi,
                            pending@[i].0 as int,
                            pending@[i].1 as int,
                        ) && o.is_blank(pending@[i].0 as int, pending@[i].1 as int)
                            && self@.cells[pending@[i].0 as int][pending@[i].1 as int].opened,
                    forall|a: int, b: int|
                        #![trigger o.in_region(xi, yi, a, b), o.is_blank(a, b)]
                        o.in_region(xi, yi, a, b) && o.is_blank(a, b) && self@.cells[a][b].opened
                            && !pending@.contains((a as usize, b as usize)) && (a != ri || b != ci)
                            ==> self@.safe_neighbors_open(a, b),
                    result == if self@.closed_safe_cells_count == 0 {
                        GameResult::Win
                    } else {
                        GameResult::Play
                    },
                    0 <= self@.closed_safe_cells_count,
                    2 * self@.closed_safe_cells_count + pending@.len() < before,
                decreases 8 - k,
            {
                match neighbor(self.size, r, c, k) {
                    Some((nr, nc)) => {
                        proof {
                            assert(self.cells@[nr as int]@ == self@.cells[nr as int]);
                        }
                        if !self.cells[nr][nc].opened && !self.cells[nr][nc].is_mine {
                            proof {
                                let (ni, nj) = (nr as int, nc as int);
                                let path = choose|path: Seq<(int, int)>| #[trigger]
                                    o.is_flood_path(path, xi, yi) && path.last() == (ri, ci);
                                assert(self@.cells[ni][nj] == (Cell {
                                    opened: self@.cells[ni][nj].opened,
                                    ..o.cells[ni][nj]
                                }));
                                assert(o.flood_step(path.last(), (ni, nj)));
                                lemma_path_push(o, xi, yi, path, (ni, nj));
                            }
                            let ghost prev = self@;
                            result = self.open_closed(nr, nc);
                            proof {
                                lemma_count_grid_nonneg(self@.cells, closed_safe_cell());
                                assert forall|a: int, b: int| #![trigger self@.cells[a][b]]
                                    o.in_bounds(a, b) implies self@.cells[a][b] == (if a == nr
                                    && b == nc {
                                    Cell { opened: true, ..prev.cells[a][b] }
                                } else {
                                    prev.cells[a][b]
                                }) by {
                                    if a != nr {
                                        assert(self@.cells[a] == prev.cells[a]);
                                    }
                                }
                                assert(self.cells@[nr as int]@ == self@.cells[nr as int]);
                            }
                            let ghost queued = pending@;
                            if self.cells[nr][nc].mines_neighbors_count == 0 {
                                pending.push((nr, nc));
                            }
                            proof {
                                assert(pending@.len() > 0 ==> pending@[pending@.len() - 1] == (nr, nc) || pending@ == queued);
                                assert forall|a: int, b: int|
                                    #![trigger o.in_region(xi, yi, a, b), o.is_blank(a, b)]
                                    o.in_region(xi, yi, a, b) && o.is_blank(a, b)
                                        && self@.cells[a][b].opened && !pending@.contains(
                                        (a as usize, b as usize),
                                    ) && (a != ri || b != ci) implies self@.safe_neighbors_open(
                                    a,
                                    b,
                                ) by {
                                    if a == nr && b == nc {
                                        assert(pending@[pending@.len() - 1] == (nr, nc));
                                    } else {
                                        if queued.contains((a as usize, b as usize)) {
                                            let i = choose|i: int| 0 <= i < queued.len() && queued[i] == (a as usize, b as usize);
                                            assert(pending@[i] == queued[i]);
                                        }
                                        assert(prev.safe_neighbors_open(a, b));
                                        assert forall|na: int, nb: int|
                                            #![trigger self@.cells[na][nb]]
                                            is_neighbor(a, b, na, nb) && self@.in_bounds(na, nb)
                                                && !self@.cells[na][nb].is_mine
                                            implies self@.cells[na][nb].opened by {
                                            assert(prev.cells[na][nb].opened || (na == nr && nb == nc));
                                        }
                                    }
                                }
                            }
                        }
                    },
                    None => {},
                }
                k = k + 1;
            }
            proof {
                assert forall|nr: int, nc: int|
                    #![trigger self@.cells[nr][nc]]
                    is_neighbor(ri, ci, nr, nc) && self@.in_bounds(nr, nc)
                        && !self@.cells[nr][nc].is_mine implies self@.cells[nr][nc].opened by {
                    lemma_shift_index(ri, ci, nr, nc);
                    let j = shift_index(nr - ri, nc - ci);
                    assert(0 <= j < 8 && shift_row(j) == nr - ri);
                }
                assert(self@.safe_neighbors_open(ri, ci));
            }
        }
        proof {
            assert forall|a: int, b: int|
                #![trigger o.in_region(xi, yi, a, b), o.is_blank(a, b)]
                o.in_region(xi, yi, a, b) && o.is_blank(a, b) && self@.cells[a][b].opened
                implies self@.safe_neighbors_open(a, b) by {
                assert(!pending@.contains((a as usize, b as usize)));
            }
            assert forall|a: int, b: int| #![trigger o.in_region(xi, yi, a, b)]
                o.in_region(xi, yi, a, b) implies self@.cells[a][b].opened by {
                let path = choose|path: Seq<(int, int)>| #[trigger]
                    o.is_flood_path(path, xi, yi) && path.last() == (a, b);
                lemma_region_open(o, self@, xi, yi, path);
            }
            self.lemma_matches_after_open(o, xi, yi);
        }
        result
    }

    /// A field that differs from `o` by opening exactly the region of
    /// `(x, y)` is `o.after_open(x, y)`.
    proof fn lemma_matches_after_open(&self, o: FieldView, x: int, y: int)
        requires
            o.only_opened(self@),
            forall|a: int, b: int|
                #![trigger self@.cells[a][b]]
                o.in_bounds(a, b) ==> (self@.cells[a][b].opened == (o.cells[a][b].opened
                    || o.in_region(x, y, a, b))),
        ensures
            self@ == o.after_open(x, y),
    {
        let n = o.after_open(x, y);
        assert forall|a: int| 0 <= a < o.size implies #[trigger] self@.cells[a] =~= n.cells[a] by {
            assert forall|b: int| 0 <= b < o.size implies self@.cells[a][b] == n.cells[a][b] by {
                assert(o.in_bounds(a, b));
            }
        }
        assert(self@.cells =~= n.cells);
    }
}

impl FieldView {
    /// The field after marking `(x, y)`: an open cell keeps its mark.
    pub open spec fn after_mark(self, x: int, y: int, m: Mark) -> FieldView {
        let old_cell = self.cells[x][y];
        let cell = if old_cell.opened {
            old_cell
        } else {
            Cell { marked_as: m, ..old_cell }
        };
        FieldView { cells: self.cells.update(x, self.cells[x].update(y, cell)), ..self }
    }
}

/// Relies on `rand::thread_rng` and `rand::Rng::gen_range`: a sample in
/// `[0, bound)`; `gen_range` panics on an empty range.
#[verifier::external_body]
fn random_below(bound: u32) -> (r: u32)
    requires
        bound > 0,
    ensures
        r < bound,
{
    rand::Rng::gen_range(&mut rand::thread_rng(), 0..bound)
}

/// Chance, in percent, that a cell holds a mine.
pub const MINE_PERCENT: u32 = 20;

/// Whether a sample drawn from `[0, 100)` places a mine: it does when it
/// falls in the top `MINE_PERCENT` values.
pub open spec fn places_mine(sample: u32) -> bool {
    sample >= 100 - MINE_PERCENT
}

/// The mine layout that some samples give, one sample per cell.
pub fn layout_from_samples(samples: &Vec<Vec<u32>>) -> (r: Vec<Vec<bool>>)
    ensures
        r@.len() == samples@.len(),
        forall|i: int| 0 <= i < samples@.len() ==> #[trigger] r@[i]@.len() == samples@[i]@.len(),
        forall|i: int, j: int|
            0 <= i < samples@.len() && 0 <= j < samples@[i]@.len() ==> #[trigger] r@[i]@[j]
                == places_mine(samples@[i]@[j]),
{
    let mut rows: Vec<Vec<bool>> = Vec::new();
    let mut i: usize = 0;
    while i < samples.len()
        invariant
            i <= samples@.len(),
            rows@.len() == i,
            forall|a: int| 0 <= a < i ==> #[trigger] rows@[a]@.len() == samples@[a]@.len(),
            forall|a: int, b: int|
                0 <= a < i && 0 <= b < samples@[a]@.len() ==> #[trigger] rows@[a]@[b]
                    == places_mine(samples@[a]@[b]),
        decreases samples@.len() - i,
    {
        let source = &samples[i];
        let mut row: Vec<bool> = Vec::new();
        let mut j: usize = 0;
        while j < source.len()
            invariant
                source == &samples@[i as int],
                j <= source@.len(),
                row@.len() == j,
                forall|b: int| 0 <= b < j ==> #[trigger] row@[b] == places_mine(source@[b]),
            decreases source@.len() - j,
        {
            row.push(source[j] >= 100 - MINE_PERCENT);
            j = j + 1;
        }
        rows.push(row);
        i = i + 1;
    }
    rows
}

/// One sample from `[0, 100)` for each cell of a square of side `size`.
fn random_samples(size: usize) -> (r: Vec<Vec<u32>>)
    ensures
        r@.len() == size,
        forall|i: int| 0 <= i < size ==> #[trigger] r@[i]@.len() == size,
        forall|i: int, j: int| 0 <= i < size && 0 <= j < size ==> #[trigger] r@[i]@[j] < 100,
{
    let mut rows: Vec<Vec<u32>> = Vec::new();
    let mut i: usize = 0;
    while i < size
        invariant
            i <= size,
            rows@.len() == i,
            forall|a: int| 0 <= a < i ==> #[trigger] rows@[a]@.len() == size,
            forall|a: int, b: int| 0 <= a < i && 0 <= b < size ==> #[trigger] rows@[a]@[b] < 100,
        decreases size - i,
    {
        let mut row: Vec<u32> = Vec::new();
        let mut j: usize = 0;
        while j < size
            invariant
                j <= size,
                row@.len() == j,
                forall|b: int| 0 <= b < j ==> #[trigger] row@[b] < 100,
            decreases size - j,
        {
            row.push(random_below(100));
            j = j + 1;
        }
        rows.push(row);
        i = i + 1;
    }
    rows
}

impl Field {
    /// A fresh field whose cell `(i, j)` holds a mine exactly where the
    /// sample `samples[i][j]` places one.
    pub fn from_samples(samples: &Vec<Vec<u32>>) -> (r: Field)
        requires
            samples@.len() * samples@.len() <= MAX_CELLS,
            forall|i: int|
                0 <= i < samples@.len() ==> #[trigger] samples@[i]@.len() == samples@.len(),
        ensures
            r@.wf(),
            r@.size == samples@.len(),
            forall|i: int, j: int|
                #![trigger r@.cells[i][j]]
                r@.in_bounds(i, j) ==> r@.cells[i][j].is_mine == places_mine(samples@[i]@[j])
                    && !r@.cells[i][j].opened && r@.cells[i][j].marked_as == Mark::Empty,
            r@.mines_count + r@.closed_safe_cells_count == r@.size * r@.size,
    {
        let layout = layout_from_samples(samples);
        Field::from_layout(&layout)
    }

    /// A fresh field of side `size` with randomly placed mines.
    pub fn new(size: usize) -> (r: Field)
        requires
            size * size <= MAX_CELLS,
        ensures
            r@.wf(),
            r@.size == size,
            forall|i: int, j: int|
                #![trigger r@.cells[i][j]]
                r@.in_bounds(i, j) ==> !r@.cells[i][j].opened && r@.cells[i][j].marked_as
                    == Mark::Empty,
            r@.mines_count + r@.closed_safe_cells_count == size * size,
    {
        let samples = random_samples(size);
        Field::from_samples(&samples)
    }

    /// Marks `(x, y)`; marking never ends the game.
    pub fn mark_cell(&mut self, x: usize, y: usize, mark_as: Mark) -> (r: GameResult)
        requires
            old(self)@.wf(),
            old(self)@.in_bounds(x as int, y as int),
        ensures
            final(self)@ == old(self)@.after_mark(x as int, y as int, mark_as),
            final(self)@.wf(),
            r == GameResult::Play,
    {
        let ghost o = self@;
        proof {
            assert(self.cells@[x as int]@ == o.cells[x as int]);
        }
        let cell_status = self.cells[x][y].mark(mark_as);
        proof {
            let n = o.after_mark(x as int, y as int, mark_as);
            let cell = n.cells[x as int][y as int];
            assert(grid_view(self.cells@) =~= n.cells);
            lemma_count_grid_update(o.cells, x as int, y as int, cell, closed_safe_cell());
            lemma_count_grid_update(o.cells, x as int, y as int, cell, mine_cell());
            assert(same_layout(n.cells, o.cells, o.size as int));
            assert forall|a: int, b: int| o.in_bounds(a, b) implies #[trigger] n.cells[a][b].mines_neighbors_count
                == mines_around(n.cells, o.size as int, a, b) by {
                lemma_mines_among_same_layout(n.cells, o.cells, o.size as int, a, b, 8);
            }
        }
        self.game_status(cell_status)
    }
}

/// Opening a cell leaves it open. Opening a closed cell that starts no flood
/// changes that cell alone: a mine loses and keeps the count of closed safe
/// cells; a safe cell lowers that count by exactly one, and wins exactly when
/// it reaches zero.
pub proof fn lemma_open_single_cell(v: FieldView, x: int, y: int)
    requires
        v.wf(),
        v.in_bounds(x, y),
    ensures
        v.after_open(x, y).cells[x][y].opened,
        !v.cells[x][y].opened && !v.is_blank(x, y) && v.cells[x][y].is_mine ==> v.open_result(x, y)
            == GameResult::Lose && v.after_open(x, y).closed_safe_cells_count
            == v.closed_safe_cells_count,
        !v.cells[x][y].opened && !v.is_blank(x, y) && !v.cells[x][y].is_mine ==> {
            let n = v.after_open(x, y);
            &&& n.closed_safe_cells_count == v.closed_safe_cells_count - 1
            &&& v.open_result(x, y) == if n.closed_safe_cells_count == 0 {
                GameResult::Win
            } else {
                GameResult::Play
            }
        },
{
    let start = seq![(x, y)];
    assert(v.is_flood_path(start, x, y) && start.last() == (x, y));
    if !v.is_blank(x, y) {
        let n = v.after_open(x, y);
        let cell = Cell { opened: true, ..v.cells[x][y] };
        let g = v.cells.update(x, v.cells[x].update(y, cell));
        assert forall|a: int| 0 <= a < v.size implies #[trigger] n.cells[a] =~= g[a] by {
            assert forall|b: int| 0 <= b < v.size implies n.cells[a][b] == g[a][b] by {
                if v.in_region(x, y, a, b) {
                    lemma_region_of_non_blank(v, x, y, a, b);
                }
            }
        }
        assert(n.cells =~= g);
        lemma_count_grid_update(v.cells, x, y, cell, closed_safe_cell());
    }
}

/// Opening a safe cell opens no mine, and leaves every blank cell that it
/// opened with all its safe neighbours open: the flood stops only at cells
/// that touch a mine.
pub proof fn lemma_flood_closed(v: FieldView, x: int, y: int)
    requires
        v.wf(),
        v.in_bounds(x, y),
        !v.cells[x][y].is_mine,
    ensures
        forall|r: int, c: int|
            #![trigger v.after_open(x, y).cells[r][c]]
            v.in_bounds(r, c) && v.cells[r][c].is_mine ==> v.after_open(x, y).cells[r][c]
                == v.cells[r][c],
        forall|r: int, c: int|
            #![trigger v.after_open(x, y).cells[r][c]]
            v.in_bounds(r, c) && v.is_blank(r, c) && v.in_region(x, y, r, c) ==> v.after_open(
                x,
                y,
            ).cells[r][c].opened && v.after_open(x, y).safe_neighbors_open(r, c),
{
    let n = v.after_open(x, y);
    assert forall|r: int, c: int|
        #![trigger n.cells[r][c]]
        v.in_bounds(r, c) && v.cells[r][c].is_mine implies n.cells[r][c] == v.cells[r][c] by {
        if v.in_region(x, y, r, c) {
            let path = choose|path: Seq<(int, int)>| #[trigger]
                v.is_flood_path(path, x, y) && path.last() == (r, c);
            if path.len() > 1 {
                lemma_region_closed_safe(v, x, y, path);
            }
        }
    }
    assert forall|r: int, c: int|
        #![trigger n.cells[r][c]]
        v.in_bounds(r, c) && v.is_blank(r, c) && v.in_region(x, y, r, c) implies n.cells[r][c].opened
        && n.safe_neighbors_open(r, c) by {
        let path = choose|path: Seq<(int, int)>| #[trigger]
            v.is_flood_path(path, x, y) && path.last() == (r, c);
        assert forall|nr: int, nc: int|
            #![trigger n.cells[nr][nc]]
            is_neighbor(r, c, nr, nc) && n.in_bounds(nr, nc) && !n.cells[nr][nc].is_mine
            implies n.cells[nr][nc].opened by {
            if !v.cells[nr][nc].opened {
                assert(v.flood_step(path.last(), (nr, nc)));
                lemma_path_push(v, x, y, path, (nr, nc));
            }
        }
    }
}

/// The glyphs of the neighbour counts 0 to 8.
pub open spec fn count_glyphs() -> Seq<char> {
    seq!['0', '1', '2', '3', '4', '5', '6', '7', '8']
}

/// How a cell shows: an open cell, or any cell once the field is revealed,
/// shows a mine or its neighbour count; a closed one shows its mark.
pub open spec fn cell_glyph(c: Cell, reveal: bool) -> char {
    if c.opened || reveal {
        if c.is_mine {
            glyph(Mark::Mine)
        } else {
            count_glyphs()[c.mines_neighbors_count as int]
        }
    } else {
        glyph(c.marked_as)
    }
}

/// The glyphs of a row, then a line break.
pub open spec fn render_row(row: Seq<Cell>, reveal: bool) -> Seq<char> {
    row.map_values(|c: Cell| cell_glyph(c, reveal)).push('\n')
}

/// The grid as text: one line per row.
pub open spec fn render(cells: Seq<Seq<Cell>>, reveal: bool) -> Seq<char>
    decreases cells.len(),
{
    if cells.len() == 0 {
        Seq::empty()
    } else {
        render(cells.drop_last(), reveal) + render_row(cells.last(), reveal)
    }
}

fn count_glyph(n: i8) -> (r: &'static str)
    requires
        0 <= n <= 8,
    ensures
        r@ == seq![count_glyphs()[n as int]],
{
    proof {
        reveal_strlit("0");
        reveal_strlit("1");
        reveal_strlit("2");
        reveal_strlit("3");
        reveal_strlit("4");
        reveal_strlit("5");
        reveal_strlit("6");
        reveal_strlit("7");
        reveal_strlit("8");
    }
    let r = match n {
        0 => "0",
        1 => "1",
        2 => "2",
        3 => "3",
        4 => "4",
        5 => "5",
        6 => "6",
        7 => "7",
        _ => "8",
    };
    assert(r@ =~= seq![count_glyphs()[n as int]]);
    r
}

impl Field {
    /// The grid as text; with `opened`, every cell is shown revealed.
    pub fn draw(&self, opened: bool) -> (r: String)
        requires
            self@.wf(),
        ensures
            r@ == render(self@.cells, opened),
    {
        let ghost g = self@.cells;
        let mut result = String::new();
        let mut i: usize = 0;
        while i < self.size
            invariant
                self@.wf(),
                g == self@.cells,
                i <= self@.size,
                result@ == render(g.take(i as int), opened),
            decreases self@.size - i,
        {
            let ghost row = g[i as int];
            proof {
                assert(self.cells@[i as int]@ == row);
            }
            let mut j: usize = 0;
            while j < self.size
                invariant
                    self@.wf(),
                    g == self@.cells,
                    i < self@.size,
                    row == g[i as int],
                    self.cells@[i as int]@ == row,
                    j <= self@.size,
                    result@ == render(g.take(i as int), opened) + row.take(j as int).map_values(
                        |c: Cell| cell_glyph(c, opened),
                    ),
                decreases self@.size - j,
            {
                let cell = self.cells[i][j];
                let shown = if cell.opened || opened {
                    if cell.is_mine {
                        Mark::Mine.to_string()
                    } else {
                        proof {
                            lemma_mines_among_bounds(g, self@.size as int, i as int, j as int, 8);
                        }
                        String::from_str(count_glyph(cell.mines_neighbors_count))
                    }
                } else {
                    cell.marked_as.to_string()
                };
                let ghost before = result@;
                result.append(shown.as_str());
                proof {
                    assert(row.take(j as int + 1).map_values(|c: Cell| cell_glyph(c, opened))
                        =~= row.take(j as int).map_values(|c: Cell| cell_glyph(c, opened)).push(
                        cell_glyph(cell, opened),
                    ));
                    assert(result@ =~= render(g.take(i as int), opened) + row.take(j as int
                        + 1).map_values(|c: Cell| cell_glyph(c, opened)));
                }
                j = j + 1;
            }
            proof {
                reveal_strlit("\n");
            }
            result.append("\n");
            proof {
                assert(row.take(self@.size as int) =~= row);
                assert(g.take(i as int + 1).drop_last() =~= g.take(i as int));
                assert(result@ =~= render(g.take(i as int + 1), opened));
            }
            i = i + 1;
        }
        proof {
            assert(g.take(self@.size as int) =~= g);
        }
        result
    }
}

} // verus!
