use catdoc::CatError;
use catdoc::parser::{compile_lines, generate_line, line_to_ansi, PrintableLine};

/// The characters of `s` with every escape sequence removed, from its
/// introducer to its terminating 'm'.
fn strip_escapes(s: &str) -> String {
    let mut out = String::new();
    let mut in_escape = false;
    for c in s.chars() {
        if in_escape {
            if c == 'm' {
                in_escape = false;
            }
        } else if c == '\x1B' {
            in_escape = true;
        } else {
            out.push(c);
        }
    }
    out
}

const ESC_00: &str = "\x1B[25m\x1B[1;30;40m";
const ESC_07: &str = "\x1B[25m\x1B[1;37;40m";
const ESC_08: &str = "\x1B[25m\x1B[1;90;40m";
const ESC_0F: &str = "\x1B[25m\x1B[1;97;40m";

#[test]
fn line_without_delimiter_is_empty() {
    assert_eq!(line_to_ansi("").unwrap(), "");
    assert_eq!(line_to_ansi("plain text, no markup").unwrap(), "");
    assert_eq!(line_to_ansi("0Flooks like a code but has no delimiter").unwrap(), "");
}

#[test]
fn line_single_segment() {
    assert_eq!(line_to_ansi("~0FHi").unwrap(), format!("{}Hi", ESC_0F));
}

#[test]
fn line_discards_text_before_first_delimiter() {
    assert_eq!(line_to_ansi("discarded~0FHi").unwrap(), format!("{}Hi", ESC_0F));
}

#[test]
fn line_concatenates_segments_without_separator() {
    assert_eq!(
        line_to_ansi("~0FHi~07 there").unwrap(),
        format!("{}Hi{} there", ESC_0F, ESC_07)
    );
}

#[test]
fn line_drops_empty_segments() {
    assert_eq!(line_to_ansi("~~0FHi~~").unwrap(), format!("{}Hi", ESC_0F));
}

#[test]
fn line_short_segment_is_malformed() {
    assert_eq!(line_to_ansi("~0").unwrap_err(), CatError::MalformedSegment);
    assert_eq!(line_to_ansi("~0FHi~x").unwrap_err(), CatError::MalformedSegment);
}

#[test]
fn line_bad_code_is_invalid_color() {
    assert_eq!(line_to_ansi("~ggHi").unwrap_err(), CatError::InvalidColorCode);
}

#[test]
fn generate_exact_small_rule() {
    // The narrowest rule with one column of padding: caps only, no fill.
    let expected = format!(
        "{} {}\u{2500}\u{2500}{}\u{2500}\u{2500}{}{}\u{2500}\u{2500}{}\u{2500}\u{2500}",
        ESC_00, ESC_08, ESC_07, ESC_0F, ESC_07, ESC_08
    );
    assert_eq!(generate_line(10, 1).unwrap(), expected);
}

#[test]
fn generate_printable_width() {
    // Stripped of escapes, a rule spans width minus padding columns.
    for (width, padding) in [(80u16, 1u16), (10, 1), (40, 5), (8, 0), (120, 0)] {
        let line = generate_line(width, padding).unwrap();
        let stripped = strip_escapes(&line);
        assert_eq!(stripped.chars().count(), (width - padding) as usize);
    }
}

#[test]
fn generate_too_narrow_fails() {
    assert_eq!(generate_line(9, 1).unwrap_err(), CatError::InvalidWidth);
    assert_eq!(generate_line(7, 0).unwrap_err(), CatError::InvalidWidth);
    assert_eq!(generate_line(0, 0).unwrap_err(), CatError::InvalidWidth);
}

#[test]
fn compile_text_lines() {
    let doc = "~0FHello\n~07World";
    let lines = compile_lines(doc, 80).unwrap();
    assert_eq!(
        lines,
        vec![
            PrintableLine::Text(format!("{}Hello", ESC_0F)),
            PrintableLine::Text(format!("{}World", ESC_07)),
        ]
    );
}

#[test]
fn compile_empty_document() {
    assert_eq!(compile_lines("", 80).unwrap(), vec![]);
}

#[test]
fn compile_handles_crlf_and_trailing_newline() {
    let lines = compile_lines("~0FA\r\n~0FB\n", 80).unwrap();
    assert_eq!(
        lines,
        vec![
            PrintableLine::Text(format!("{}A", ESC_0F)),
            PrintableLine::Text(format!("{}B", ESC_0F)),
        ]
    );
}

#[test]
fn compile_button_line() {
    let lines = compile_lines("03   \u{fe}BUTTON0250", 80).unwrap();
    let label = format!(
        "{}>{}>{}> Click Here <{}<{}<",
        ESC_08, ESC_07, ESC_0F, ESC_07, ESC_08
    );
    assert_eq!(lines, vec![PrintableLine::Button(250, label)]);
}

#[test]
fn compile_button_id_strips_leading_zeros() {
    let lines = compile_lines("\u{fe}BUTTON0007", 80).unwrap();
    assert!(matches!(lines[0], PrintableLine::Button(7, _)));
}

#[test]
fn compile_button_token_without_four_digits_is_text() {
    // Three digits do not make a button; the line compiles as markup, and
    // the marker byte itself is ordinary text after a colour code.
    let lines = compile_lines("~0F\u{fe}BUTTON025", 80).unwrap();
    assert_eq!(
        lines,
        vec![PrintableLine::Text(format!("{}\u{fe}BUTTON025", ESC_0F))]
    );
}

#[test]
fn compile_separator_line() {
    let lines = compile_lines("03\u{fe}LINE1", 42).unwrap();
    let rule = generate_line(42, 1).unwrap();
    assert_eq!(lines, vec![PrintableLine::Text(rule)]);
}

#[test]
fn compile_separator_needs_its_digit() {
    // A separator token without a digit is not a separator.
    let lines = compile_lines("~0F\u{fe}LINE", 80).unwrap();
    assert_eq!(
        lines,
        vec![PrintableLine::Text(format!("{}\u{fe}LINE", ESC_0F))]
    );
}

#[test]
fn compile_button_takes_precedence_over_separator() {
    let lines = compile_lines("\u{fe}LINE1 \u{fe}BUTTON1234", 80).unwrap();
    assert!(matches!(lines[0], PrintableLine::Button(1234, _)));
}

#[test]
fn compile_reports_first_failing_line() {
    let doc = "~0Ffine\n~0\n~ggalso broken";
    assert_eq!(compile_lines(doc, 80).unwrap_err(), CatError::MalformedSegment);
}

#[test]
fn compile_narrow_width_fails_on_separator() {
    assert_eq!(
        compile_lines("\u{fe}LINE1", 9).unwrap_err(),
        CatError::InvalidWidth
    );
}

#[test]
fn compile_twice_is_byte_identical() {
    let doc = "~0FHello\n03 \u{fe}BUTTON0001\n\u{fe}LINE1\nplain";
    let a = compile_lines(doc, 64).unwrap();
    let b = compile_lines(doc, 64).unwrap();
    assert_eq!(a, b);
}
