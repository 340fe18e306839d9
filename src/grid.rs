use vstd::prelude::*;
use crate::cell::Cell;

verus! {

/// Row offset of the `k`-th of the eight neighbours: the three cells above,
/// the two beside, the three below.
pub open spec fn shift_row(k: int) -> int {
    if k < 3 {
        -1
    } else if k < 5 {
        0
    } else {
        1
    }
}

/// Column offset of the `k`-th of the eight neighbours.
pub open spec fn shift_col(k: int) -> int {
    if k == 0 || k == 3 || k == 5 {
        -1
    } else if k == 1 || k == 6 {
        0
    } else {
        1
    }
}

pub open spec fn in_bounds(size: int, r: int, c: int) -> bool {
    0 <= r < size && 0 <= c < size
}

/// Two distinct positions that touch by a side or a corner.
pub open spec fn is_neighbor(r1: int, c1: int, r2: int, c2: int) -> bool {
    &&& (r1 != r2 || c1 != c2)
    &&& -1 <= r2 - r1 <= 1
    &&& -1 <= c2 - c1 <= 1
}

/// The index `k` whose offsets are `(dr, dc)`.
pub open spec fn shift_index(dr: int, dc: int) -> int {
    if dr == -1 {
        dc + 1
    } else if dr == 0 {
        if dc == -1 {
            3
        } else {
            4
        }
    } else {
        dc + 6
    }
}

pub proof fn lemma_shift_index(r1: int, c1: int, r2: int, c2: int)
    requires
        is_neighbor(r1, c1, r2, c2),
    ensures
        0 <= shift_index(r2 - r1, c2 - c1) < 8,
        r2 == r1 + shift_row(shift_index(r2 - r1, c2 - c1)),
        c2 == c1 + shift_col(shift_index(r2 - r1, c2 - c1)),
{
}

/// 1 where the grid holds a mine at `(r, c)`, 0 elsewhere and off the grid.
pub open spec fn mine_at(cells: Seq<Seq<Cell>>, size: int, r: int, c: int) -> int {
    if in_bounds(size, r, c) && cells[r][c].is_mine {
        1
    } else {
        0
    }
}

/// Mines among the first `k` neighbours of `(r, c)`.
pub open spec fn mines_among(cells: Seq<Seq<Cell>>, size: int, r: int, c: int, k: int) -> int
    decreases k,
{
    if k <= 0 {
        0
    } else {
        mines_among(cells, size, r, c, k - 1) + mine_at(
            cells,
            size,
            r + shift_row(k - 1),
            c + shift_col(k - 1),
        )
    }
}

/// Mines among all in-bounds neighbours of `(r, c)`.
pub open spec fn mines_around(cells: Seq<Seq<Cell>>, size: int, r: int, c: int) -> int {
    mines_among(cells, size, r, c, 8)
}

/// Two grids of one size with a mine at the same places.
pub open spec fn same_layout(a: Seq<Seq<Cell>>, b: Seq<Seq<Cell>>, size: int) -> bool {
    forall|r: int, c: int| #[trigger]
        in_bounds(size, r, c) ==> a[r][c].is_mine == b[r][c].is_mine
}

pub proof fn lemma_mines_among_same_layout(
    a: Seq<Seq<Cell>>,
    b: Seq<Seq<Cell>>,
    size: int,
    r: int,
    c: int,
    k: int,
)
    requires
        same_layout(a, b, size),
    ensures
        mines_among(a, size, r, c, k) == mines_among(b, size, r, c, k),
    decreases k,
{
    if k > 0 {
        lemma_mines_among_same_layout(a, b, size, r, c, k - 1);
        assert(in_bounds(size, r + shift_row(k - 1), c + shift_col(k - 1)) ==> a[r + shift_row(
            k - 1,
        )][c + shift_col(k - 1)].is_mine == b[r + shift_row(k - 1)][c + shift_col(
            k - 1,
        )].is_mine);
    }
}

pub proof fn lemma_mines_among_bounds(cells: Seq<Seq<Cell>>, size: int, r: int, c: int, k: int)
    ensures
        0 <= mines_among(cells, size, r, c, k) <= if k < 0 { 0 } else { k },
    decreases k,
{
    if k > 0 {
        lemma_mines_among_bounds(cells, size, r, c, k - 1);
    }
}

pub open spec fn mine_cell() -> spec_fn(Cell) -> bool {
    |c: Cell| c.is_mine
}

pub open spec fn closed_safe_cell() -> spec_fn(Cell) -> bool {
    |c: Cell| !c.is_mine && !c.opened
}

/// Number of cells of a row that satisfy `p`.
pub open spec fn count_row(row: Seq<Cell>, p: spec_fn(Cell) -> bool) -> int
    decreases row.len(),
{
    if row.len() == 0 {
        0
    } else {
        count_row(row.drop_last(), p) + if p(row.last()) {
            1int
        } else {
            0
        }
    }
}

/// Number of cells of a grid that satisfy `p`.
pub open spec fn count_grid(cells: Seq<Seq<Cell>>, p: spec_fn(Cell) -> bool) -> int
    decreases cells.len(),
{
    if cells.len() == 0 {
        0
    } else {
        count_grid(cells.drop_last(), p) + count_row(cells.last(), p)
    }
}

pub proof fn lemma_count_row_push(row: Seq<Cell>, x: Cell, p: spec_fn(Cell) -> bool)
    ensures
        count_row(row.push(x), p) == count_row(row, p) + if p(x) {
            1int
        } else {
            0
        },
{
    assert(row.push(x).drop_last() =~= row);
}

pub proof fn lemma_count_grid_push(cells: Seq<Seq<Cell>>, row: Seq<Cell>, p: spec_fn(Cell) -> bool)
    ensures
        count_grid(cells.push(row), p) == count_grid(cells, p) + count_row(row, p),
{
    assert(cells.push(row).drop_last() =~= cells);
}

pub proof fn lemma_count_row_update(row: Seq<Cell>, i: int, x: Cell, p: spec_fn(Cell) -> bool)
    requires
        0 <= i < row.len(),
    ensures
        count_row(row.update(i, x), p) == count_row(row, p) - (if p(row[i]) {
            1int
        } else {
            0
        }) + (if p(x) {
            1int
        } else {
            0
        }),
    decreases row.len(),
{
    let u = row.update(i, x);
    if i == row.len() - 1 {
        assert(u.drop_last() =~= row.drop_last());
    } else {
        lemma_count_row_update(row.drop_last(), i, x, p);
        assert(u.drop_last() =~= row.drop_last().update(i, x));
    }
}

pub proof fn lemma_count_grid_update(
    cells: Seq<Seq<Cell>>,
    r: int,
    c: int,
    x: Cell,
    p: spec_fn(Cell) -> bool,
)
    requires
        0 <= r < cells.len(),
        0 <= c < cells[r].len(),
    ensures
        count_grid(cells.update(r, cells[r].update(c, x)), p) == count_grid(cells, p) - (if p(
            cells[r][c],
        ) {
            1int
        } else {
            0
        }) + (if p(x) {
            1int
        } else {
            0
        }),
    decreases cells.len(),
{
    let u = cells.update(r, cells[r].update(c, x));
    if r == cells.len() - 1 {
        assert(u.drop_last() =~= cells.drop_last());
        lemma_count_row_update(cells[r], c, x, p);
    } else {
        lemma_count_grid_update(cells.drop_last(), r, c, x, p);
        assert(u.drop_last() =~= cells.drop_last().update(r, cells[r].update(c, x)));
    }
}

pub proof fn lemma_count_row_nonneg(row: Seq<Cell>, p: spec_fn(Cell) -> bool)
    ensures
        0 <= count_row(row, p) <= row.len(),
    decreases row.len(),
{
    if row.len() > 0 {
        lemma_count_row_nonneg(row.drop_last(), p);
    }
}

pub proof fn lemma_count_grid_nonneg(cells: Seq<Seq<Cell>>, p: spec_fn(Cell) -> bool)
    ensures
        0 <= count_grid(cells, p),
    decreases cells.len(),
{
    if cells.len() > 0 {
        lemma_count_grid_nonneg(cells.drop_last(), p);
        lemma_count_row_nonneg(cells.last(), p);
    }
}

} // verus!
