use catdoc::state::State;

#[test]
fn new_starts_at_the_top_and_dirty() {
    let s = State::new((80, 25), 100);
    assert_eq!(s.current_line, 0);
    assert!(s.running);
    assert_eq!(s.width, 80);
    assert_eq!(s.height, 25);
    assert_eq!(s.document_length, 100);
    assert!(s.is_dirty);
}

#[test]
fn drawing_height_reserves_two_rows() {
    let s = State::new((80, 25), 100);
    assert_eq!(s.drawing_height(), 23);
}

#[test]
fn scroll_down_advances_and_clamps() {
    let mut s = State::new((80, 25), 100);
    s.scroll_down(10);
    assert_eq!(s.current_line, 10);
    s.scroll_down(1000);
    // Clamped to document_length - drawing_height = 100 - 23.
    assert_eq!(s.current_line, 77);
}

#[test]
fn scroll_down_short_document_floors_at_zero() {
    let mut s = State::new((80, 25), 5);
    s.scroll_down(3);
    assert_eq!(s.current_line, 0);
}

#[test]
fn scroll_up_floors_at_zero() {
    let mut s = State::new((80, 25), 100);
    s.scroll_down(10);
    s.scroll_up(4);
    assert_eq!(s.current_line, 6);
    s.scroll_up(1000);
    assert_eq!(s.current_line, 0);
}

#[test]
fn scroll_round_trip_without_clamp() {
    let mut s = State::new((80, 25), 100);
    s.scroll_to(30);
    s.scroll_down(20);
    s.scroll_up(20);
    assert_eq!(s.current_line, 30);
}

#[test]
fn scroll_to_jumps_and_clamps() {
    let mut s = State::new((80, 25), 100);
    s.scroll_to(50);
    assert_eq!(s.current_line, 50);
    s.scroll_to(99);
    assert_eq!(s.current_line, 77);
}

#[test]
fn resize_updates_dimensions_only() {
    let mut s = State::new((80, 25), 100);
    s.scroll_to(50);
    s.resize(120, 40);
    assert_eq!(s.width, 120);
    assert_eq!(s.height, 40);
    assert_eq!(s.current_line, 50);
    // A resize deliberately does not re-clamp the scroll position.
    let mut t = State::new((80, 25), 100);
    t.scroll_to(77);
    t.resize(80, 90);
    assert_eq!(t.current_line, 77);
}

#[test]
fn scrollbar_position_exact_values() {
    let mut s = State::new((80, 25), 100);
    assert_eq!(s.scrollbar_position(), 1);
    s.scroll_to(10);
    // floor(10 * (25 - 5) / (100 - 25)) + 1 = floor(200 / 75) + 1.
    assert_eq!(s.scrollbar_position(), 3);
    s.scroll_to(75);
    assert_eq!(s.scrollbar_position(), 21);
}

#[test]
fn scrollbar_position_is_monotonic() {
    let mut s = State::new((80, 25), 200);
    let mut last = 0u16;
    while s.current_line < 175 {
        let row = s.scrollbar_position();
        assert!(row >= last);
        last = row;
        let at = s.current_line;
        s.scroll_down(1);
        assert_eq!(s.current_line, at + 1);
    }
}
