use catdoc::parser::PrintableLine;
use catdoc::search::{get_next_search_state, get_search_state};

fn doc() -> Vec<PrintableLine> {
    vec![
        PrintableLine::Text(String::from("the quick brown fox")),
        PrintableLine::Button(1, String::from("xyz inside a button")),
        PrintableLine::Text(String::from("jumps over xyz fence")),
        PrintableLine::Text(String::from("and xyz again")),
        PrintableLine::Text(String::from("the end")),
    ]
}

#[test]
fn search_finds_first_text_match() {
    let s = get_search_state(&doc(), "xyz");
    assert_eq!(s.match_index, Some(2));
    assert_eq!(s.needle, "xyz");
}

#[test]
fn search_ignores_button_lines() {
    let lines = vec![
        PrintableLine::Text(String::from("nothing here")),
        PrintableLine::Button(42, String::from("only xyz in a button")),
    ];
    let s = get_search_state(&lines, "xyz");
    assert_eq!(s.match_index, None);
    assert_eq!(s.needle, "xyz");
}

#[test]
fn search_is_case_sensitive() {
    let lines = vec![PrintableLine::Text(String::from("Xyz"))];
    let s = get_search_state(&lines, "xyz");
    assert_eq!(s.match_index, None);
}

#[test]
fn search_no_match_keeps_needle() {
    let s = get_search_state(&doc(), "absent");
    assert_eq!(s.match_index, None);
    assert_eq!(s.needle, "absent");
}

#[test]
fn search_empty_needle_matches_first_text_line() {
    let s = get_search_state(&doc(), "");
    assert_eq!(s.match_index, Some(0));
}

#[test]
fn search_next_advances_strictly_forward() {
    let lines = doc();
    let first = get_search_state(&lines, "xyz");
    assert_eq!(first.match_index, Some(2));
    let second = get_next_search_state(&lines, first);
    assert_eq!(second.match_index, Some(3));
    assert_eq!(second.needle, "xyz");
}

#[test]
fn search_next_from_last_match_finds_nothing() {
    let lines = doc();
    let first = get_search_state(&lines, "xyz");
    let second = get_next_search_state(&lines, first);
    assert_eq!(second.match_index, Some(3));
    let third = get_next_search_state(&lines, second);
    assert_eq!(third.match_index, None);
    assert_eq!(third.needle, "xyz");
}
