use minesweeper::command::{parse_coord, Outcome};
use minesweeper::field::{Field, GameResult};
use minesweeper::mark::Mark;

fn run(field: &mut Field, line: &str) -> Outcome {
    let args: Vec<&str> = line.split(' ').collect();
    field.process_command_args(&args)
}

fn done(result: GameResult, message: &str) -> Outcome {
    Outcome::Done(result, message.to_string())
}

#[test]
fn command_open_bad_y_names_y() {
    let mut field = Field::from_layout(&vec![vec![false; 3]; 3]);
    assert_eq!(run(&mut field, "open 2 x"), done(GameResult::Error, "Integer for coord y expected"));
    assert_eq!(field.closed_safe_cells_count(), 9);
}

#[test]
fn command_open_bad_x_names_x() {
    let mut field = Field::from_layout(&vec![vec![false; 3]; 3]);
    assert_eq!(run(&mut field, "open x 2"), done(GameResult::Error, "Integer for coord x expected"));
    assert_eq!(run(&mut field, "open"), done(GameResult::Error, "Integer for coord x expected"));
}

#[test]
fn command_open_wins_blank_field_in_one_move() {
    let mut field = Field::from_layout(&vec![vec![false; 2]; 2]);
    assert_eq!(run(&mut field, "open 1 1"), done(GameResult::Win, ""));
    assert_eq!(field.closed_safe_cells_count(), 0);
}

#[test]
fn command_mark_unknown_token_marks_empty() {
    let mut field = Field::from_layout(&vec![vec![false; 2]; 2]);
    assert_eq!(run(&mut field, "mark 0 0 M"), done(GameResult::Play, ""));
    assert_eq!(field.cell(0, 0).marked_as, Mark::Mine);
    assert_eq!(run(&mut field, "mark 0 0 Z"), done(GameResult::Play, ""));
    assert_eq!(field.cell(0, 0).marked_as, Mark::Empty);
}

#[test]
fn command_mark_without_token() {
    let mut field = Field::from_layout(&vec![vec![false; 2]; 2]);
    assert_eq!(run(&mut field, "mark 0 0"), done(GameResult::Error, "Mark expected"));
}

#[test]
fn command_out_of_range() {
    let mut field = Field::from_layout(&vec![vec![false; 2]; 2]);
    assert_eq!(run(&mut field, "open 2 0"), done(GameResult::Error, "Coordinates outside the field"));
    assert_eq!(run(&mut field, "mark 0 5 M"), done(GameResult::Error, "Coordinates outside the field"));
    assert_eq!(field.closed_safe_cells_count(), 4);
}

#[test]
fn command_stop_help_unknown() {
    let mut field = Field::from_layout(&vec![vec![false; 2]; 2]);
    assert_eq!(run(&mut field, "stop"), done(GameResult::Stop, ""));
    match run(&mut field, "help") {
        Outcome::Done(GameResult::Info, text) => assert!(text.contains("open X Y")),
        other => panic!("unexpected {:?}", other),
    }
    assert_eq!(run(&mut field, "jump 1 1"), done(GameResult::Error, "Unknown command"));
    assert_eq!(run(&mut field, ""), done(GameResult::Error, "Unknown command"));
    assert_eq!(field.process_command_args(&vec![]), done(GameResult::Error, "Unknown command"));
}

#[test]
fn command_save_and_load_name_files() {
    let mut field = Field::from_layout(&vec![vec![false; 2]; 2]);
    assert_eq!(run(&mut field, "save game"), Outcome::Save("game.ms".to_string()));
    assert_eq!(run(&mut field, "load other"), Outcome::Load("other.ms".to_string()));
    assert_eq!(run(&mut field, "save"), done(GameResult::Error, "File name expected"));
}

#[test]
fn parse_coord_reads_decimal() {
    assert_eq!(parse_coord("0"), Some(0));
    assert_eq!(parse_coord("12"), Some(12));
    assert_eq!(parse_coord("+7"), Some(7));
    assert_eq!(parse_coord("007"), Some(7));
    assert_eq!(parse_coord(""), None);
    assert_eq!(parse_coord("+"), None);
    assert_eq!(parse_coord("-1"), None);
    assert_eq!(parse_coord("1x"), None);
    assert_eq!(parse_coord(" 1"), None);
    assert_eq!(parse_coord("99999999999999999999999"), None);
    assert_eq!(parse_coord(&usize::MAX.to_string()), Some(usize::MAX));
}
