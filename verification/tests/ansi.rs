use catdoc::CatError;
use catdoc::ansi::color_to_ansi;

#[test]
fn test_color_to_ansi() {
    assert_eq!(color_to_ansi("00").unwrap(), "\x1B[25m\x1B[1;30;40m");
    assert_eq!(color_to_ansi("0f").unwrap(), "\x1B[25m\x1B[1;97;40m");
    assert_eq!(color_to_ansi("1f").unwrap(), "\x1B[5m\x1B[1;97;40m");
    assert_eq!(color_to_ansi("ff").unwrap(), "\x1B[5m\x1B[1;97;47m");

    assert!(color_to_ansi("0").is_err());
    assert!(color_to_ansi("000").is_err());
    assert!(color_to_ansi("gg").is_err());
}

#[test]
fn decode_uppercase_digits() {
    assert_eq!(color_to_ansi("0F").unwrap(), "\x1B[25m\x1B[1;97;40m");
    assert_eq!(color_to_ansi("0A").unwrap(), "\x1B[25m\x1B[1;92;40m");
}

#[test]
fn decode_palette_permutation() {
    // The foreground nibble runs through the BGR-to-RGB reorder table.
    assert_eq!(color_to_ansi("01").unwrap(), "\x1B[25m\x1B[1;34;40m");
    assert_eq!(color_to_ansi("02").unwrap(), "\x1B[25m\x1B[1;32;40m");
    assert_eq!(color_to_ansi("04").unwrap(), "\x1B[25m\x1B[1;31;40m");
    assert_eq!(color_to_ansi("07").unwrap(), "\x1B[25m\x1B[1;37;40m");
    // The background nibble's upper bits pick the background colour.
    assert_eq!(color_to_ansi("20").unwrap(), "\x1B[25m\x1B[1;30;44m");
    assert_eq!(color_to_ansi("80").unwrap(), "\x1B[25m\x1B[1;30;41m");
}

#[test]
fn decode_blink_parity() {
    // An odd background nibble turns blink on, an even one turns it off.
    assert_eq!(color_to_ansi("30").unwrap(), "\x1B[5m\x1B[1;30;44m");
    assert_eq!(color_to_ansi("40").unwrap(), "\x1B[25m\x1B[1;30;42m");
}

#[test]
fn decode_invalid_gives_invalid_color_code() {
    assert_eq!(color_to_ansi("").unwrap_err(), CatError::InvalidColorCode);
    assert_eq!(color_to_ansi("zz").unwrap_err(), CatError::InvalidColorCode);
    assert_eq!(color_to_ansi("0g").unwrap_err(), CatError::InvalidColorCode);
    assert_eq!(color_to_ansi("g0").unwrap_err(), CatError::InvalidColorCode);
}

#[test]
fn decode_is_deterministic() {
    // The same code always decodes to the same escape sequence.
    assert_eq!(color_to_ansi("3e").unwrap(), color_to_ansi("3e").unwrap());
    assert_eq!(color_to_ansi("c5").unwrap(), color_to_ansi("c5").unwrap());
}
