use minesweeper::field::{layout_from_samples, Field, GameResult};
use minesweeper::mark::Mark;

fn layout(size: usize, mines: &[(usize, usize)]) -> Vec<Vec<bool>> {
    let mut rows = vec![vec![false; size]; size];
    for &(r, c) in mines {
        rows[r][c] = true;
    }
    rows
}

#[test]
fn mark_cell() {
    let mut field = Field::new(3);
    field.mark_cell(0, 0, Mark::Mine);
    assert_eq!(field.cell(0, 0).marked_as, Mark::Mine);
}

#[test]
fn generated_counters_cover_every_cell() {
    for size in [0usize, 1, 2, 5, 10, 30] {
        let field = Field::new(size);
        assert_eq!(field.size(), size);
        assert_eq!(
            field.mines_count() as usize + field.closed_safe_cells_count() as usize,
            size * size
        );
    }
}

#[test]
fn generated_field_is_not_all_mines() {
    let field = Field::new(30);
    assert!((field.mines_count() as usize) < 900);
    assert!(field.mines_count() > 0);
}

#[test]
fn generated_neighbor_counts_match_layout() {
    let field = Field::new(12);
    let n = field.size() as i64;
    for r in 0..n {
        for c in 0..n {
            let mut expected = 0;
            for dr in -1..=1i64 {
                for dc in -1..=1i64 {
                    let (a, b) = (r + dr, c + dc);
                    if (dr, dc) != (0, 0) && a >= 0 && a < n && b >= 0 && b < n
                        && field.cell(a as usize, b as usize).is_mine
                    {
                        expected += 1;
                    }
                }
            }
            let cell = field.cell(r as usize, c as usize);
            assert_eq!(cell.mines_neighbors_count, expected);
            assert!(!cell.opened);
            assert_eq!(cell.marked_as, Mark::Empty);
        }
    }
}

#[test]
fn neighbor_count_fixture() {
    let field = Field::from_layout(&layout(3, &[(0, 0), (2, 2)]));
    assert_eq!(field.cell(1, 1).mines_neighbors_count, 2);
    assert_eq!(field.cell(0, 1).mines_neighbors_count, 1);
    assert_eq!(field.cell(0, 2).mines_neighbors_count, 0);
    assert_eq!(field.cell(2, 0).mines_neighbors_count, 0);
    assert_eq!(field.mines_count(), 2);
    assert_eq!(field.closed_safe_cells_count(), 7);
}

#[test]
fn opening_mine_loses_and_keeps_counter() {
    let mut field = Field::from_layout(&layout(3, &[(0, 0), (2, 2)]));
    assert_eq!(field.open_cell(0, 0), GameResult::Lose);
    assert!(field.cell(0, 0).opened);
    assert_eq!(field.closed_safe_cells_count(), 7);
}

#[test]
fn opening_counted_cell_decrements_once() {
    let mut field = Field::from_layout(&layout(2, &[(0, 0)]));
    assert_eq!(field.closed_safe_cells_count(), 3);
    assert_eq!(field.open_cell(0, 1), GameResult::Play);
    assert!(field.cell(0, 1).opened);
    assert_eq!(field.closed_safe_cells_count(), 2);
    assert_eq!(field.open_cell(1, 0), GameResult::Play);
    assert_eq!(field.closed_safe_cells_count(), 1);
    assert_eq!(field.open_cell(1, 1), GameResult::Win);
    assert_eq!(field.closed_safe_cells_count(), 0);
}

#[test]
fn reopening_open_cell_keeps_counter() {
    let mut field = Field::from_layout(&layout(2, &[(0, 0)]));
    assert_eq!(field.open_cell(0, 1), GameResult::Play);
    assert_eq!(field.open_cell(0, 1), GameResult::Play);
    assert_eq!(field.closed_safe_cells_count(), 2);
}

#[test]
fn flood_fill_opens_blank_region_and_stops_at_numbers() {
    // A wall of mines down column 2 splits the field.
    let mut field = Field::from_layout(&layout(5, &[(0, 2), (1, 2), (2, 2), (3, 2), (4, 2)]));
    assert_eq!(field.closed_safe_cells_count(), 20);
    assert_eq!(field.open_cell(0, 0), GameResult::Play);
    for r in 0..5 {
        assert!(field.cell(r, 0).opened);
        assert!(field.cell(r, 1).opened);
        assert!(!field.cell(r, 2).opened);
        assert!(!field.cell(r, 3).opened);
        assert!(!field.cell(r, 4).opened);
    }
    assert_eq!(field.closed_safe_cells_count(), 10);
}

#[test]
fn flood_fill_never_opens_mines() {
    let mut field = Field::from_layout(&layout(3, &[(2, 2)]));
    assert_eq!(field.open_cell(0, 0), GameResult::Win);
    for r in 0..3 {
        for c in 0..3 {
            assert_eq!(field.cell(r, c).opened, (r, c) != (2, 2));
        }
    }
    assert_eq!(field.closed_safe_cells_count(), 0);
}

#[test]
fn flood_fill_from_numbered_cell_opens_only_it() {
    let mut field = Field::from_layout(&layout(3, &[(2, 2)]));
    assert_eq!(field.open_cell(1, 1), GameResult::Play);
    assert_eq!(field.closed_safe_cells_count(), 7);
    assert!(!field.cell(0, 0).opened);
}

#[test]
fn marking_opened_cell_is_noop() {
    let mut field = Field::from_layout(&layout(2, &[(0, 0)]));
    assert_eq!(field.mark_cell(1, 1, Mark::Unknown), GameResult::Play);
    field.open_cell(1, 1);
    assert_eq!(field.mark_cell(1, 1, Mark::Mine), GameResult::Play);
    assert_eq!(field.cell(1, 1).marked_as, Mark::Unknown);
}

#[test]
fn draw_hidden_and_revealed() {
    let mut field = Field::from_layout(&layout(2, &[(0, 0)]));
    assert_eq!(field.draw(false), "**\n**\n");
    assert_eq!(field.draw(true), "M1\n11\n");
    field.mark_cell(0, 0, Mark::Mine);
    field.mark_cell(1, 0, Mark::Unknown);
    field.open_cell(1, 1);
    assert_eq!(field.draw(false), "M*\n?1\n");
}

#[test]
fn draw_empty_field() {
    let field = Field::from_layout(&layout(0, &[]));
    assert_eq!(field.draw(true), "");
}

#[test]
fn samples_in_top_fifth_place_mines() {
    let samples = vec![vec![0, 79, 80], vec![99, 50, 81], vec![20, 100, 3]];
    let layout = layout_from_samples(&samples);
    assert_eq!(
        layout,
        vec![vec![false, false, true], vec![true, false, true], vec![false, true, false]]
    );
    let field = Field::from_samples(&samples);
    assert!(field.cell(0, 2).is_mine && field.cell(1, 0).is_mine);
    assert!(!field.cell(0, 1).is_mine);
    assert_eq!(field.mines_count(), 4);
    assert_eq!(field.cell(1, 1).mines_neighbors_count, 4);
}

#[test]
fn results_that_end_the_game() {
    assert!(GameResult::Win.ends_game());
    assert!(GameResult::Lose.ends_game());
    assert!(GameResult::Stop.ends_game());
    assert!(!GameResult::Play.ends_game());
    assert!(!GameResult::Info.ends_game());
    assert!(!GameResult::Error.ends_game());
}
