//! The colour codec: a two-hex-digit legacy colour code is translated into
//! a terminal escape sequence selecting blink, foreground and background.
//!
//! The first digit is the background nibble, the second the foreground
//! nibble.  The background's low bit selects steady or blinking text; its
//! upper three bits pick one of eight background colours.  A fixed
//! permutation reorders the legacy BGR palette into the terminal's RGB one.

use vstd::prelude::*;
use vstd::string::StrSliceExecFns;
use vstd::string::StringExecFns;
use crate::CatError;

verus! {

/// Whether `c` is a hexadecimal digit, in either case.
pub open spec fn is_hex_digit(c: char) -> bool {
    ||| ('0' <= c && c <= '9')
    ||| ('a' <= c && c <= 'f')
    ||| ('A' <= c && c <= 'F')
}

/// The value of a hexadecimal digit.
pub open spec fn hex_val(c: char) -> int
    recommends
        is_hex_digit(c),
{
    if '0' <= c && c <= '9' {
        c as int - '0' as int
    } else if 'a' <= c && c <= 'f' {
        c as int - 'a' as int + 10
    } else {
        c as int - 'A' as int + 10
    }
}

/// The palette permutation from the legacy BGR nibble order to the
/// terminal's RGB order.
pub open spec fn dos_color(i: int) -> int
    recommends
        0 <= i < 8,
{
    if i == 0 {
        0
    } else if i == 1 {
        4
    } else if i == 2 {
        2
    } else if i == 3 {
        6
    } else if i == 4 {
        1
    } else if i == 5 {
        5
    } else if i == 6 {
        3
    } else {
        7
    }
}

/// The blink selector folded out of the background nibble's parity:
/// 25 switches blinking off, 5 switches it on.
pub open spec fn blink_code(bg: int) -> int {
    if bg % 2 == 0 {
        25
    } else {
        5
    }
}

/// The terminal foreground colour for a foreground nibble: the normal
/// range above 30, or the bright range above 90.
pub open spec fn fg_code(fg: int) -> int
    recommends
        0 <= fg < 16,
{
    if fg < 8 {
        30 + dos_color(fg)
    } else {
        90 + dos_color(fg % 8)
    }
}

/// The terminal background colour for a background nibble: the parity bit
/// is already spent on blink, the upper three bits pick the colour.
pub open spec fn bg_code(bg: int) -> int
    recommends
        0 <= bg < 16,
{
    40 + dos_color(bg / 2)
}

/// The decimal digit `d` as a character.
pub open spec fn digit_char(d: int) -> char
    recommends
        0 <= d <= 9,
{
    if d == 0 {
        '0'
    } else if d == 1 {
        '1'
    } else if d == 2 {
        '2'
    } else if d == 3 {
        '3'
    } else if d == 4 {
        '4'
    } else if d == 5 {
        '5'
    } else if d == 6 {
        '6'
    } else if d == 7 {
        '7'
    } else if d == 8 {
        '8'
    } else {
        '9'
    }
}

/// The decimal notation of `n`, for the one- and two-digit numbers the
/// escape sequences carry.
pub open spec fn dec_digits(n: int) -> Seq<char>
    recommends
        0 < n < 100,
{
    if n < 10 {
        seq![digit_char(n)]
    } else {
        seq![digit_char(n / 10), digit_char(n % 10)]
    }
}

/// Whether a colour code is valid: exactly two hex digits.
pub open spec fn decode_ok(code: Seq<char>) -> bool {
    code.len() == 2 && is_hex_digit(code[0]) && is_hex_digit(code[1])
}

/// The full escape sequence for a background and foreground nibble: a
/// blink selector, then bold plus foreground plus background, in that
/// fixed order.
pub open spec fn ansi_escape(bg: int, fg: int) -> Seq<char>
    recommends
        0 <= bg < 16,
        0 <= fg < 16,
{
    seq!['\u{1b}', '['] + dec_digits(blink_code(bg)) + seq!['m', '\u{1b}', '[', '1', ';']
        + dec_digits(fg_code(fg)) + seq![';'] + dec_digits(bg_code(bg)) + seq!['m']
}

/// What decoding a colour code yields: the escape sequence for its two
/// nibbles, or the error for anything but two hex digits.
pub open spec fn decode_spec(code: Seq<char>) -> Result<Seq<char>, CatError> {
    if decode_ok(code) {
        Ok(ansi_escape(hex_val(code[0]), hex_val(code[1])))
    } else {
        Err(CatError::InvalidColorCode)
    }
}

/// Decoding is pure: its outcome depends on the characters of the code
/// alone, so equal codes always decode to equal results.
pub proof fn lemma_decode_deterministic(code1: Seq<char>, code2: Seq<char>)
    requires
        code1 == code2,
    ensures
        decode_spec(code1) == decode_spec(code2),
{
}

/// The value of one hexadecimal digit, or `None` for any other character.
fn hex_digit_value(c: char) -> (r: Option<u32>)
    ensures
        r is Some <==> is_hex_digit(c),
        r matches Some(v) ==> v == hex_val(c) && v < 16,
{
    if '0' <= c && c <= '9' {
        Some(c as u32 - '0' as u32)
    } else if 'a' <= c && c <= 'f' {
        Some(c as u32 - 'a' as u32 + 10)
    } else if 'A' <= c && c <= 'F' {
        Some(c as u32 - 'A' as u32 + 10)
    } else {
        None
    }
}

/// The blink selector for a decoded background nibble; a nibble that did
/// not parse is reported as an invalid code.
fn color_to_blink(color: Option<u32>) -> (r: Result<u32, CatError>)
    ensures
        r is Ok <==> color is Some,
        r matches Ok(b) ==> color matches Some(c) && b == blink_code(c as int),
        r is Err ==> r == Err::<u32, CatError>(CatError::InvalidColorCode),
{
    match color {
        Some(c) => {
            if c % 2 == 0 {
                Ok(25)
            } else {
                Ok(5)
            }
        },
        None => Err(CatError::InvalidColorCode),
    }
}

/// The terminal colour for a decoded nibble, as foreground or background;
/// a missing or out-of-range nibble is an invalid code.
fn color_to_ansi_color(color: Option<u32>, is_bg: bool) -> (r: Result<u32, CatError>)
    ensures
        r is Ok <==> (color matches Some(c) && c < 16),
        r matches Ok(code) ==> color matches Some(c) && code == (if is_bg {
            bg_code(c as int)
        } else {
            fg_code(c as int)
        }),
        r is Err ==> r == Err::<u32, CatError>(CatError::InvalidColorCode),
{
    let c = match color {
        Some(c) => c,
        None => {
            return Err(CatError::InvalidColorCode);
        },
    };
    if c >= 16 {
        return Err(CatError::InvalidColorCode);
    }
    let index = if is_bg {
        c / 2
    } else {
        c % 8
    };
    let permuted = if index == 0 {
        0
    } else if index == 1 {
        4
    } else if index == 2 {
        2
    } else if index == 3 {
        6
    } else if index == 4 {
        1
    } else if index == 5 {
        5
    } else if index == 6 {
        3
    } else {
        7
    };
    if is_bg {
        Ok(40 + permuted)
    } else if c < 8 {
        Ok(30 + permuted)
    } else {
        Ok(90 + permuted)
    }
}

/// One decimal digit as a string slice.
fn digit_str(d: u32) -> (s: &'static str)
    requires
        d < 10,
    ensures
        s@ =~= seq![digit_char(d as int)],
{
    if d == 0 {
        proof {
            reveal_strlit("0");
        }
        "0"
    } else if d == 1 {
        proof {
            reveal_strlit("1");
        }
        "1"
    } else if d == 2 {
        proof {
            reveal_strlit("2");
        }
        "2"
    } else if d == 3 {
        proof {
            reveal_strlit("3");
        }
        "3"
    } else if d == 4 {
        proof {
            reveal_strlit("4");
        }
        "4"
    } else if d == 5 {
        proof {
            reveal_strlit("5");
        }
        "5"
    } else if d == 6 {
        proof {
            reveal_strlit("6");
        }
        "6"
    } else if d == 7 {
        proof {
            reveal_strlit("7");
        }
        "7"
    } else if d == 8 {
        proof {
            reveal_strlit("8");
        }
        "8"
    } else {
        proof {
            reveal_strlit("9");
        }
        "9"
    }
}

/// The decimal notation of a control-code number as a string.
fn code_string(n: u32) -> (s: String)
    requires
        0 < n < 100,
    ensures
        s@ =~= dec_digits(n as int),
{
    let mut s = String::new();
    if n >= 10 {
        s.append(digit_str(n / 10));
    }
    s.append(digit_str(n % 10));
    s
}

/// Decode a two-hex-digit colour code into its escape sequence.  The
/// result is `Ok` exactly for two hex digits, and then carries precisely
/// the escape sequence of the code's two nibbles.
pub fn color_to_ansi(color: &str) -> (r: Result<String, CatError>)
    ensures
        r matches Ok(s) ==> decode_spec(color@) == Ok::<Seq<char>, CatError>(s@),
        r matches Err(e) ==> decode_spec(color@) == Err::<Seq<char>, CatError>(e),
        r is Ok <==> decode_ok(color@),
{
    let n = color.unicode_len();
    if n != 2 {
        return Err(CatError::InvalidColorCode);
    }
    let bg = hex_digit_value(color.get_char(0));
    let fg = hex_digit_value(color.get_char(1));

    let blink = match color_to_blink(bg) {
        Ok(b) => b,
        Err(e) => {
            return Err(e);
        },
    };
    let fg_c = match color_to_ansi_color(fg, false) {
        Ok(v) => v,
        Err(e) => {
            return Err(e);
        },
    };
    let bg_c = match color_to_ansi_color(bg, true) {
        Ok(v) => v,
        Err(e) => {
            return Err(e);
        },
    };

    proof {
        reveal_strlit("\u{1b}[");
        reveal_strlit("m\u{1b}[1;");
        reveal_strlit(";");
        reveal_strlit("m");
        assert("\u{1b}["@ =~= seq!['\u{1b}', '[']);
        assert("m\u{1b}[1;"@ =~= seq!['m', '\u{1b}', '[', '1', ';']);
        assert(";"@ =~= seq![';']);
        assert("m"@ =~= seq!['m']);
    }
    let mut s = String::new();
    s.append("\u{1b}[");
    s.append(code_string(blink).as_str());
    s.append("m\u{1b}[1;");
    s.append(code_string(fg_c).as_str());
    s.append(";");
    s.append(code_string(bg_c).as_str());
    s.append("m");
    proof {
        assert(s@ =~= ansi_escape(hex_val(color@[0]), hex_val(color@[1])));
    }
    Ok(s)
}

} // verus!
