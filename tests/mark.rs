use minesweeper::mark::Mark;

#[test]
fn mark_from_string() {
    assert_eq!(Mark::Empty.to_string(), "*");
    assert_eq!(Mark::Mine.to_string(), "M");
    assert_eq!(Mark::Unknown.to_string(), "?");
}

#[test]
fn mark_to_string() {
    assert_eq!(Mark::from_string("*"), Mark::Empty);
    assert_eq!(Mark::from_string("M"), Mark::Mine);
    assert_eq!(Mark::from_string("?"), Mark::Unknown);
    assert_eq!(Mark::from_string("wrong value"), Mark::Empty);
}

#[test]
fn mark_round_trip_each_variant() {
    for m in [Mark::Empty, Mark::Mine, Mark::Unknown] {
        assert_eq!(Mark::from_string(&m.to_string()), m);
    }
}

#[test]
fn mark_garbage_falls_back_to_empty() {
    assert_eq!(Mark::from_string("garbage"), Mark::Empty);
    assert_eq!(Mark::from_string(""), Mark::Empty);
    assert_eq!(Mark::from_string("MM"), Mark::Empty);
    assert_eq!(Mark::from_string("m"), Mark::Empty);
}

#[test]
fn known_mark_tokens() {
    assert!(Mark::is_known_token("*"));
    assert!(Mark::is_known_token("M"));
    assert!(Mark::is_known_token("?"));
    assert!(!Mark::is_known_token("Z"));
    assert!(!Mark::is_known_token(""));
    assert!(!Mark::is_known_token("**"));
}
