use vstd::prelude::*;
use vstd::string::StringExecFns;
use crate::cell::Cell;
use crate::field::{
    count_neighbor_mines, grid_view, is_square, Field, FieldView, GameResult, MAX_CELLS,
};
use crate::grid::{
    closed_safe_cell, count_grid, count_row, lemma_count_grid_push, lemma_count_row_push,
    mine_cell, mines_around,
};
use crate::mark::Mark;

verus! {

#[verifier::external_type_specification]
#[verifier::external_body]
pub struct ExBincodeErrorKind(bincode::ErrorKind);

/// A cell as plain values: mine, opened, neighbour count, and the mark's
/// variant index.
pub type CellRecord = (bool, bool, i8, u32);

/// A field as plain values, field by field: side length, rows of cells,
/// mine count, closed safe cell count.
pub type Snapshot = (u64, Vec<Vec<CellRecord>>, i16, i16);

pub type SnapshotView = (u64, Seq<Seq<CellRecord>>, i16, i16);

/// The snapshot that bincode reads from some bytes, if they hold one.
pub uninterp spec fn bincode_value(bytes: Seq<u8>) -> Option<SnapshotView>;

/// The bytes that bincode writes for a snapshot.
pub uninterp spec fn bincode_bytes(snapshot: SnapshotView) -> Seq<u8>;

/// Relies on `bincode::serialize`: with no size limit and only sequences of
/// known length (`Vec`s) it does not fail; its bytes depend on the value
/// alone, and `bincode::deserialize` reads them back as the same value.
#[verifier::external_body]
fn encode_snapshot(s: &Snapshot) -> (r: Result<Vec<u8>, Box<bincode::ErrorKind>>)
    ensures
        r is Ok,
        r matches Ok(b) ==> b@ == bincode_bytes(s.deep_view()),
        r matches Ok(b) ==> bincode_value(b@) == Some(s.deep_view()),
{
    bincode::serialize(s)
}

/// Relies on `bincode::deserialize`: it reads a snapshot exactly when the
/// bytes hold one, and that snapshot.
#[verifier::external_body]
fn decode_snapshot(b: &Vec<u8>) -> (r: Result<Snapshot, Box<bincode::ErrorKind>>)
    ensures
        r is Ok <==> bincode_value(b@) is Some,
        r matches Ok(t) ==> bincode_value(b@) == Some(t.deep_view()),
{
    bincode::deserialize(b.as_slice())
}

/// Why a field could not be written or read back.
#[derive(Debug, Clone, Copy, PartialEq, Eq, Structural)]
pub enum PersistError {
    /// The bytes do not decode as a field.
    Decode,
    /// The bytes decode, but not to a consistent field.
    Corrupt,
}

pub open spec fn mark_code(m: Mark) -> u32 {
    match m {
        Mark::Empty => 0,
        Mark::Mine => 1,
        Mark::Unknown => 2,
    }
}

pub open spec fn mark_of_code(code: u32) -> Mark {
    if code == 1 {
        Mark::Mine
    } else if code == 2 {
        Mark::Unknown
    } else {
        Mark::Empty
    }
}

pub open spec fn record_of(c: Cell) -> CellRecord {
    (c.is_mine, c.opened, c.mines_neighbors_count, mark_code(c.marked_as))
}

pub open spec fn cell_of(r: CellRecord) -> Cell {
    Cell { is_mine: r.0, opened: r.1, mines_neighbors_count: r.2, marked_as: mark_of_code(r.3) }
}

/// A field as a snapshot.
pub open spec fn snapshot_of(v: FieldView) -> SnapshotView {
    (
        v.size as u64,
        v.cells.map_values(|row: Seq<Cell>| row.map_values(|c: Cell| record_of(c))),
        v.mines_count as i16,
        v.closed_safe_cells_count as i16,
    )
}

/// The field that a snapshot describes.
pub open spec fn field_of(s: SnapshotView) -> FieldView {
    FieldView {
        size: s.0 as nat,
        cells: s.1.map_values(|row: Seq<CellRecord>| row.map_values(|r: CellRecord| cell_of(r))),
        mines_count: s.2 as int,
        closed_safe_cells_count: s.3 as int,
    }
}

/// A snapshot of a consistent field: square, with known marks, and
/// well-formed as a field.
pub open spec fn valid_snapshot(s: SnapshotView) -> bool {
    &&& s.0 <= MAX_CELLS
    &&& s.1.len() == s.0
    &&& forall|r: int| 0 <= r < s.1.len() ==> #[trigger] s.1[r].len() == s.0
    &&& forall|r: int, c: int|
        0 <= r < s.1.len() && 0 <= c < s.1[r].len() ==> (#[trigger] s.1[r][c]).3 < 3
    &&& field_of(s).wf()
}

fn mark_to_code(m: Mark) -> (r: u32)
    ensures
        r == mark_code(m),
{
    match m {
        Mark::Empty => 0,
        Mark::Mine => 1,
        Mark::Unknown => 2,
    }
}

fn mark_from_code(code: u32) -> (r: Mark)
    ensures
        r == mark_of_code(code),
{
    if code == 1 {
        Mark::Mine
    } else if code == 2 {
        Mark::Unknown
    } else {
        Mark::Empty
    }
}

/// A well-formed field survives a snapshot.
pub proof fn lemma_snapshot_round_trip(v: FieldView)
    requires
        v.wf(),
    ensures
        valid_snapshot(snapshot_of(v)),
        field_of(snapshot_of(v)) == v,
{
    let s = snapshot_of(v);
    let f = field_of(s);
    assert(v.size <= v.size * v.size || v.size == 0) by (nonlinear_arith);
    assert forall|r: int| 0 <= r < v.size implies #[trigger] f.cells[r] =~= v.cells[r] by {
        assert forall|c: int| 0 <= c < v.size implies f.cells[r][c] == v.cells[r][c] by {
            assert(s.1[r][c] == record_of(v.cells[r][c]));
        }
    }
    assert(f.cells =~= v.cells);
    assert forall|r: int, c: int|
        0 <= r < s.1.len() && 0 <= c < s.1[r].len() implies (#[trigger] s.1[r][c]).3 < 3 by {
        assert(s.1[r][c] == record_of(v.cells[r][c]));
    }
}

impl Field {
    /// The field as bytes: bincode's encoding of its snapshot, which reads
    /// back as that snapshot.
    pub fn dump_to_binary(&self) -> (r: Vec<u8>)
        requires
            self@.wf(),
        ensures
            r@ == bincode_bytes(snapshot_of(self@)),
            bincode_value(r@) == Some(snapshot_of(self@)),
    {
        let cells = self.rows();
        let size = self.size();
        let mut rows: Vec<Vec<CellRecord>> = Vec::new();
        let mut i: usize = 0;
        let ghost want = snapshot_of(self@).1;
        while i < size
            invariant
                self@.wf(),
                size == self@.size,
                grid_view(cells@) == self@.cells,
                want == snapshot_of(self@).1,
                i <= size,
                rows@.len() == i,
                forall|a: int| 0 <= a < i ==> #[trigger] rows@[a]@ == want[a],
            decreases size - i,
        {
            let mut row: Vec<CellRecord> = Vec::new();
            let mut j: usize = 0;
            proof {
                assert(cells@[i as int]@ == self@.cells[i as int]);
            }
            while j < size
                invariant
                    self@.wf(),
                    size == self@.size,
                    grid_view(cells@) == self@.cells,
                    want == snapshot_of(self@).1,
                    cells@[i as int]@ == self@.cells[i as int],
                    i < size,
                    j <= size,
                    row@.len() == j,
                    forall|b: int| 0 <= b < j ==> #[trigger] row@[b] == want[i as int][b],
                decreases size - j,
            {
                let c = cells[i][j];
                row.push((c.is_mine, c.opened, c.mines_neighbors_count, mark_to_code(c.marked_as)));
                j = j + 1;
            }
            assert(row@ =~= want[i as int]);
            rows.push(row);
            i = i + 1;
        }
        let snapshot: Snapshot = (
            size as u64,
            rows,
            self.mines_count(),
            self.closed_safe_cells_count(),
        );
        proof {
            assert(snapshot.1.deep_view() =~= want) by {
                assert forall|a: int| 0 <= a < want.len() implies #[trigger] snapshot.1.deep_view()[a] =~= want[a] by {
                    assert(snapshot.1@[a]@ == want[a]);
                }
            }
            assert(snapshot.deep_view() == snapshot_of(self@));
        }
        match encode_snapshot(&snapshot) {
            Ok(b) => b,
            Err(_) => Vec::new(),
        }
    }
}

/// Counts the mines and the closed safe cells of a square grid.
fn count_cells(cells: &Vec<Vec<Cell>>, size: usize) -> (r: (usize, usize))
    requires
        is_square(grid_view(cells@), size as int),
        size * size <= MAX_CELLS,
    ensures
        r.0 == count_grid(grid_view(cells@), mine_cell()),
        r.1 == count_grid(grid_view(cells@), closed_safe_cell()),
{
    let ghost g = grid_view(cells@);
    let mut mines: usize = 0;
    let mut closed: usize = 0;
    let mut i: usize = 0;
    while i < size
        invariant
            g == grid_view(cells@),
            is_square(g, size as int),
            size * size <= MAX_CELLS,
            i <= size,
            mines == count_grid(g.take(i as int), mine_cell()),
            closed == count_grid(g.take(i as int), closed_safe_cell()),
            mines + closed <= i * size,
        decreases size - i,
    {
        let ghost row = g[i as int];
        let mut j: usize = 0;
        let mut row_mines: usize = 0;
        let mut row_closed: usize = 0;
        proof {
            assert(cells@[i as int]@ == row);
            assert((i + 1) * size <= size * size) by (nonlinear_arith)
                requires
                    i < size,
            ;
        }
        while j < size
            invariant
                g == grid_view(cells@),
                is_square(g, size as int),
                i < size,
                row == g[i as int],
                cells@[i as int]@ == row,
                j <= size,
                row_mines == count_row(row.take(j as int), mine_cell()),
                row_closed == count_row(row.take(j as int), closed_safe_cell()),
                row_mines + row_closed <= j,
            decreases size - j,
        {
            let c = cells[i][j];
            proof {
                assert(row.take(j as int).push(c) =~= row.take(j as int + 1));
                lemma_count_row_push(row.take(j as int), c, mine_cell());
                lemma_count_row_push(row.take(j as int), c, closed_safe_cell());
            }
            if c.is_mine {
                row_mines = row_mines + 1;
            } else if !c.opened {
                row_closed = row_closed + 1;
            }
            j = j + 1;
        }
        proof {
            assert(row.take(size as int) =~= row);
            assert(g.take(i as int).push(row) =~= g.take(i as int + 1));
            lemma_count_grid_push(g.take(i as int), row, mine_cell());
            lemma_count_grid_push(g.take(i as int), row, closed_safe_cell());
            assert((i + 1) * size == i * size + size) by (nonlinear_arith);
        }
        mines = mines + row_mines;
        closed = closed + row_closed;
        i = i + 1;
    }
    proof {
        assert(g.take(size as int) =~= g);
    }
    (mines, closed)
}

/// The field that a snapshot describes, where the snapshot is consistent.
fn field_from_snapshot(s: Snapshot) -> (r: Option<Field>)
    ensures
        r is Some <==> valid_snapshot(s.deep_view()),
        r matches Some(f) ==> f@ == field_of(s.deep_view()),
{
    let ghost sv = s.deep_view();
    let ghost want = field_of(sv);
    let (size64, records, mines_count, closed_safe_cells_count) = s;
    if size64 > MAX_CELLS as u64 {
        return None;
    }
    let size = size64 as usize;
    if size > 0 && size > MAX_CELLS / size {
        proof {
            assert(size * size > MAX_CELLS) by (nonlinear_arith)
                requires
                    size > 0,
                    size > MAX_CELLS / size,
            ;
        }
        return None;
    }
    proof {
        assert(size * size <= MAX_CELLS) by (nonlinear_arith)
            requires
                size == 0 || size <= MAX_CELLS / size,
        ;
    }
    if records.len() != size {
        return None;
    }
    let mut cells: Vec<Vec<Cell>> = Vec::new();
    let mut i: usize = 0;
    while i < size
        invariant
            sv == (size64, records.deep_view(), mines_count, closed_safe_cells_count),
            sv == s.deep_view(),
            want == field_of(sv),
            size == size64,
            records@.len() == size,
            i <= size,
            cells@.len() == i,
            forall|a: int| 0 <= a < i ==> #[trigger] records@[a]@.len() == size,
            forall|a: int, b: int| 0 <= a < i && 0 <= b < size ==> (#[trigger] records@[a]@[b]).3 < 3,
            forall|a: int| 0 <= a < i ==> #[trigger] cells@[a]@ == want.cells[a],
        decreases size - i,
    {
        let rec_row = &records[i];
        if rec_row.len() != size {
            proof {
                assert(sv.1[i as int] =~= rec_row@);
                assert(sv.1[i as int].len() != sv.0);
            }
            return None;
        }
        let mut row: Vec<Cell> = Vec::new();
        let mut j: usize = 0;
        while j < size
            invariant
                sv == (size64, records.deep_view(), mines_count, closed_safe_cells_count),
                sv == s.deep_view(),
                want == field_of(sv),
                size == size64,
                records@.len() == size,
                i < size,
                rec_row == &records@[i as int],
                rec_row@.len() == size,
                j <= size,
                row@.len() == j,
                forall|b: int| 0 <= b < j ==> (#[trigger] rec_row@[b]).3 < 3,
                forall|b: int| 0 <= b < j ==> #[trigger] row@[b] == want.cells[i as int][b],
            decreases size - j,
        {
            let rec = rec_row[j];
            proof {
                assert(sv.1[i as int] == rec_row@);
            }
            if rec.3 >= 3 {
                proof {
                    assert(sv.1[i as int][j as int] == rec);
                }
                return None;
            }
            row.push(Cell { is_mine: rec.0, opened: rec.1, mines_neighbors_count: rec.2, marked_as: mark_from_code(rec.3) });
            j = j + 1;
        }
        proof {
            assert(row@ =~= want.cells[i as int]);
            assert(sv.1[i as int] == rec_row@);
        }
        cells.push(row);
        i = i + 1;
    }
    proof {
        assert(grid_view(cells@) =~= want.cells);
        assert(is_square(want.cells, size as int));
    }
    let mut i: usize = 0;
    while i < size
        invariant
            grid_view(cells@) == want.cells,
            is_square(want.cells, size as int),
            want.size == size,
            want == field_of(sv),
            sv == s.deep_view(),
            i <= size,
            forall|a: int, b: int|
                0 <= a < i && 0 <= b < size ==> #[trigger] want.cells[a][b].mines_neighbors_count
                    == mines_around(want.cells, size as int, a, b),
        decreases size - i,
    {
        let mut j: usize = 0;
        while j < size
            invariant
                grid_view(cells@) == want.cells,
                is_square(want.cells, size as int),
                want.size == size,
                want == field_of(sv),
                sv == s.deep_view(),
                i < size,
                j <= size,
                forall|a: int, b: int|
                    0 <= a < i && 0 <= b < size ==> #[trigger] want.cells[a][b].mines_neighbors_count
                        == mines_around(want.cells, size as int, a, b),
                forall|b: int|
                    0 <= b < j ==> #[trigger] want.cells[i as int][b].mines_neighbors_count
                        == mines_around(want.cells, size as int, i as int, b),
            decreases size - j,
        {
            let n = count_neighbor_mines(&cells, size, i, j);
            proof {
                assert(cells@[i as int]@ == want.cells[i as int]);
            }
            if cells[i][j].mines_neighbors_count != n {
                proof {
                    assert(want.in_bounds(i as int, j as int));
                    assert(want.cells[i as int][j as int].mines_neighbors_count
                        != mines_around(want.cells, size as int, i as int, j as int));
                }
                return None;
            }
            j = j + 1;
        }
        i = i + 1;
    }
    let (mines, closed) = count_cells(&cells, size);
    if mines_count < 0 || mines_count as usize != mines || closed_safe_cells_count < 0
        || closed_safe_cells_count as usize != closed {
        return None;
    }
    proof {
        assert(want.wf());
        assert forall|r: int, c: int|
            0 <= r < sv.1.len() && 0 <= c < sv.1[r].len() implies (#[trigger] sv.1[r][c]).3 < 3 by {
            assert(sv.1[r] == records@[r]@);
        }
    }
    Some(Field::from_parts(size, cells, mines_count, closed_safe_cells_count))
}

impl Field {
    /// Reads back a field from bytes; nothing is half-read: either the
    /// bytes hold a consistent field, or an error says why not.
    pub fn restore_from_binary(bytes: &Vec<u8>) -> (r: Result<Field, PersistError>)
        ensures
            r is Ok <==> (bincode_value(bytes@) matches Some(s) && valid_snapshot(s)),
            r matches Ok(f) ==> Some(snapshot_of(f@)) == bincode_value(bytes@) && f@.wf(),
            r matches Err(e) ==> (e == PersistError::Decode <==> bincode_value(bytes@) is None),
    {
        match decode_snapshot(bytes) {
            Err(_) => Err(PersistError::Decode),
            Ok(s) => {
                let ghost sv = s.deep_view();
                match field_from_snapshot(s) {
                    Some(f) => {
                        proof {
                            lemma_field_snapshot(sv);
                        }
                        Ok(f)
                    },
                    None => Err(PersistError::Corrupt),
                }
            },
        }
    }
}

/// A consistent snapshot is the snapshot of the field it describes.
proof fn lemma_field_snapshot(s: SnapshotView)
    requires
        valid_snapshot(s),
    ensures
        snapshot_of(field_of(s)) == s,
{
    let f = field_of(s);
    let t = snapshot_of(f);
    assert forall|r: int| 0 <= r < s.1.len() implies #[trigger] t.1[r] =~= s.1[r] by {
        assert forall|c: int| 0 <= c < s.1[r].len() implies t.1[r][c] == s.1[r][c] by {
            assert(s.1[r][c].3 < 3);
        }
    }
    assert(t.1 =~= s.1);
}

/// Bytes that `dump_to_binary` wrote for a well-formed field are read back by
/// `restore_from_binary`, and as that same field.
pub proof fn lemma_persist_round_trip(v: FieldView, bytes: Seq<u8>, w: FieldView)
    requires
        v.wf(),
        bincode_value(bytes) == Some(snapshot_of(v)),
    ensures
        bincode_value(bytes) matches Some(s) && valid_snapshot(s),
        w.wf() && Some(snapshot_of(w)) == bincode_value(bytes) ==> w == v,
{
    lemma_snapshot_round_trip(v);
    if w.wf() && Some(snapshot_of(w)) == bincode_value(bytes) {
        lemma_snapshot_round_trip(w);
    }
}

impl Field {
    /// What the player hears once the bytes of a save were written, or not.
    pub fn saved(written: bool) -> (r: (GameResult, String))
        ensures
            written ==> r.0 == GameResult::Info && r.1@ == "Game saved"@,
            !written ==> r.0 == GameResult::Error && r.1@ == "Unable to save"@,
    {
        if written {
            (GameResult::Info, String::from_str("Game saved"))
        } else {
            (GameResult::Error, String::from_str("Unable to save"))
        }
    }

    /// Replaces the field by the one that a file's bytes hold. Where the file
    /// could not be read, or its bytes hold no consistent field, the field
    /// stays as it was.
    pub fn load_bytes(&mut self, bytes: Option<Vec<u8>>) -> (r: (GameResult, String))
        requires
            old(self)@.wf(),
        ensures
            final(self)@.wf(),
            (match bytes {
                Some(b) => bincode_value(b@) matches Some(s) && valid_snapshot(s),
                None => false,
            }) ==> Some(snapshot_of(final(self)@)) == bincode_value(bytes->0@) && r.0
                == GameResult::Info && r.1@ == "Game loaded"@,
            !(match bytes {
                Some(b) => bincode_value(b@) matches Some(s) && valid_snapshot(s),
                None => false,
            }) ==> final(self)@ == old(self)@ && r.0 == GameResult::Error && r.1@
                == "Unable to load"@,
    {
        let restored = match bytes {
            Some(b) => Field::restore_from_binary(&b),
            None => Err(PersistError::Decode),
        };
        match restored {
            Ok(f) => {
                *self = f;
                (GameResult::Info, String::from_str("Game loaded"))
            },
            Err(_) => (GameResult::Error, String::from_str("Unable to load")),
        }
    }
}

} // verus!
