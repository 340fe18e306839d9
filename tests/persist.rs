use minesweeper::field::{Field, GameResult};
use minesweeper::mark::Mark;
use minesweeper::persist::PersistError;

#[test]
fn save_and_restore_field() {
    let field = Field::new(10);
    let serialized_field = field.dump_to_binary();
    let deserialized_field = Field::restore_from_binary(&serialized_field).unwrap();
    assert_eq!(field, deserialized_field);
}

fn round_trip(field: &Field) {
    let bytes = field.dump_to_binary();
    let back = Field::restore_from_binary(&bytes).unwrap();
    assert_eq!(&back, field);
}

#[test]
fn round_trip_mid_game() {
    let mut field = Field::from_layout(&vec![
        vec![false, false, false, true],
        vec![false, true, false, false],
        vec![false, false, false, false],
        vec![true, false, false, false],
    ]);
    field.open_cell(0, 0);
    field.mark_cell(1, 1, Mark::Mine);
    field.mark_cell(3, 0, Mark::Unknown);
    round_trip(&field);
}

#[test]
fn round_trip_won_and_lost() {
    let mut won = Field::from_layout(&vec![vec![false; 3]; 3]);
    assert_eq!(won.open_cell(1, 1), GameResult::Win);
    round_trip(&won);
    let mut lost = Field::from_layout(&vec![vec![true, false], vec![false, false]]);
    assert_eq!(lost.open_cell(0, 0), GameResult::Lose);
    round_trip(&lost);
}

#[test]
fn restore_rejects_garbage() {
    assert_eq!(Field::restore_from_binary(&vec![]), Err(PersistError::Decode));
    assert_eq!(Field::restore_from_binary(&vec![1, 2, 3]), Err(PersistError::Decode));
}

#[test]
fn restore_rejects_inconsistent_field() {
    let cell = (false, false, 0i8, 0u32);
    // Counters that do not match the cells.
    let bytes = bincode::serialize(&(1u64, vec![vec![cell]], 0i16, 5i16)).unwrap();
    assert_eq!(Field::restore_from_binary(&bytes), Err(PersistError::Corrupt));
    // A wrong neighbour count.
    let bad = (false, false, 3i8, 0u32);
    let bytes = bincode::serialize(&(1u64, vec![vec![bad]], 0i16, 1i16)).unwrap();
    assert_eq!(Field::restore_from_binary(&bytes), Err(PersistError::Corrupt));
    // An unknown mark.
    let bad = (false, false, 0i8, 7u32);
    let bytes = bincode::serialize(&(1u64, vec![vec![bad]], 0i16, 1i16)).unwrap();
    assert_eq!(Field::restore_from_binary(&bytes), Err(PersistError::Corrupt));
    // A row too short.
    let bytes = bincode::serialize(&(2u64, vec![vec![cell, cell], vec![cell]], 0i16, 3i16)).unwrap();
    assert_eq!(Field::restore_from_binary(&bytes), Err(PersistError::Corrupt));
    // The same layout, consistent.
    let bytes = bincode::serialize(&(1u64, vec![vec![cell]], 0i16, 1i16)).unwrap();
    assert!(Field::restore_from_binary(&bytes).is_ok());
}

#[test]
fn load_keeps_field_on_failure() {
    let mut field = Field::from_layout(&vec![vec![false, true], vec![false, false]]);
    field.open_cell(1, 1);
    let before = field.dump_to_binary();
    let (result, message) = field.load_bytes(None);
    assert_eq!((result, message.as_str()), (GameResult::Error, "Unable to load"));
    let (result, _) = field.load_bytes(Some(vec![9, 9]));
    assert_eq!(result, GameResult::Error);
    assert_eq!(field.dump_to_binary(), before);
}

#[test]
fn load_replaces_field() {
    let mut saved = Field::from_layout(&vec![vec![false; 3]; 3]);
    saved.mark_cell(2, 2, Mark::Mine);
    let bytes = saved.dump_to_binary();
    let mut field = Field::from_layout(&vec![vec![true; 2]; 2]);
    let (result, message) = field.load_bytes(Some(bytes));
    assert_eq!((result, message.as_str()), (GameResult::Info, "Game loaded"));
    assert_eq!(field, saved);
    assert_eq!(Field::saved(true).0, GameResult::Info);
    assert_eq!(Field::saved(false), (GameResult::Error, "Unable to save".to_string()));
}

#[test]
fn dump_is_deterministic() {
    let mut a = Field::from_layout(&vec![vec![false, true], vec![false, false]]);
    let mut b = Field::from_layout(&vec![vec![false, true], vec![false, false]]);
    a.open_cell(1, 0);
    b.open_cell(1, 0);
    assert_eq!(a.dump_to_binary(), b.dump_to_binary());
    assert_eq!(a.dump_to_binary(), a.dump_to_binary());
    assert!(!a.dump_to_binary().is_empty());
}
