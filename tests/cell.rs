use minesweeper::cell::{Cell, CellStatus};
use minesweeper::mark::Mark;

#[test]
fn cell_creation() {
    let cell = Cell::new(true);
    assert_eq!(cell.is_mine, true);
    assert_eq!(cell.opened, false);
    assert_eq!(cell.mines_neighbors_count, -1);
    assert_eq!(cell.marked_as, Mark::Empty);
}

#[test]
fn cell_opening_mine() {
    let mut cell = Cell::new(true);
    assert_eq!(cell.is_mine, true);
    assert_eq!(cell.opened, false);
    assert_eq!(cell.open(), CellStatus::Mine);
    assert_eq!(cell.opened, true);
}

#[test]
fn cell_opening_safe() {
    let mut cell = Cell::new(false);
    assert_eq!(cell.is_mine, false);
    assert_eq!(cell.opened, false);
    assert_eq!(cell.open(), CellStatus::Safe);
    assert_eq!(cell.opened, true);
}

#[test]
fn cell_mark() {
    let mut cell = Cell::new(false);
    assert_eq!(cell.marked_as, Mark::Empty);
    assert_eq!(cell.mark(Mark::Mine), CellStatus::Marked);
    assert_eq!(cell.marked_as, Mark::Mine);
}

#[test]
fn cell_reopening_reports_again() {
    let mut cell = Cell::new(false);
    assert_eq!(cell.open(), CellStatus::Safe);
    let before = cell;
    assert_eq!(cell.open(), CellStatus::Safe);
    assert_eq!(cell, before);
}

#[test]
fn marking_open_cell_keeps_mark() {
    let mut cell = Cell::new(false);
    assert_eq!(cell.mark(Mark::Unknown), CellStatus::Marked);
    cell.open();
    assert_eq!(cell.mark(Mark::Mine), CellStatus::Marked);
    assert_eq!(cell.marked_as, Mark::Unknown);
    assert!(cell.opened);
}
