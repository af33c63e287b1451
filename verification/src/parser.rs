//! The line and document compiler for the markup: a line is split on the
//! `'~'` delimiter into colour-prefixed segments; whatever stands before
//! the first delimiter is discarded.  Each segment opens with a two-digit
//! colour code and carries literal text after it.

use vstd::prelude::*;
use vstd::string::StrSliceExecFns;
use vstd::string::StringExecFns;
use crate::CatError;
use crate::ansi::ansi_escape;
use crate::ansi::bg_code;
use crate::ansi::blink_code;
use crate::ansi::color_to_ansi;
use crate::ansi::dec_digits;
use crate::ansi::digit_char;
use crate::ansi::fg_code;
use crate::ansi::hex_val;
use crate::ansi::is_hex_digit;

verus! {

/// One compiled output line: literal text, or a button carrying the
/// four-digit identifier it was authored with.
#[derive(Debug, Clone, PartialEq, Eq)]
pub enum PrintableLine {
    Button(usize, String),
    Text(String),
}

/// The index of the first occurrence of `c` in `s`, or `s.len()` when
/// there is none.
pub open spec fn find_char(s: Seq<char>, c: char) -> nat
    decreases s.len(),
{
    if s.len() == 0 {
        0
    } else if s[0] == c {
        0
    } else {
        1 + find_char(s.skip(1), c)
    }
}

/// Any index with no occurrence before it and an occurrence (or the end)
/// at it is the one `find_char` computes.
pub proof fn lemma_find_char_is(s: Seq<char>, c: char, k: int)
    requires
        0 <= k <= s.len(),
        forall|j: int| 0 <= j < k ==> s[j] != c,
        k < s.len() ==> s[k] == c,
    ensures
        find_char(s, c) == k,
    decreases s.len(),
{
    if s.len() == 0 {
    } else if s[0] == c {
        assert(k == 0);
    } else {
        assert(s[0] != c);
        assert(k != 0);
        assert forall|j: int| 0 <= j < k - 1 implies s.skip(1)[j] != c by {
            assert(s.skip(1)[j] == s[j + 1]);
        }
        if k - 1 < s.skip(1).len() {
            assert(s.skip(1)[k - 1] == s[k]);
        }
        lemma_find_char_is(s.skip(1), c, k - 1);
    }
}

/// What compiling the segment text `s` yields, where `s` starts directly
/// after a delimiter.  Each segment runs to the next delimiter or the end;
/// an empty one is dropped, a one-character one is malformed, and a valid
/// one contributes its colour code's escape sequence followed by its
/// literal remainder.  The first offence, read left to right, names the
/// error.
pub open spec fn segs_spec(s: Seq<char>) -> Result<Seq<char>, CatError>
    decreases s.len(),
{
    let k = find_char(s, '~');
    let part = s.take(k as int);
    let tail = if k < s.len() {
        segs_spec(s.skip(k as int + 1))
    } else {
        Ok::<Seq<char>, CatError>(Seq::empty())
    };
    if part.len() == 0 {
        tail
    } else if part.len() < 2 {
        Err(CatError::MalformedSegment)
    } else if !(is_hex_digit(part[0]) && is_hex_digit(part[1])) {
        Err(CatError::InvalidColorCode)
    } else {
        match tail {
            Ok(rest) => Ok(ansi_escape(hex_val(part[0]), hex_val(part[1])) + part.skip(2) + rest),
            Err(e) => Err(e),
        }
    }
}

/// What compiling a whole markup line yields: everything before the first
/// delimiter is discarded, the rest is compiled segment by segment.
pub open spec fn line_ansi_spec(line: Seq<char>) -> Result<Seq<char>, CatError> {
    let k = find_char(line, '~');
    if k < line.len() {
        segs_spec(line.skip(k as int + 1))
    } else {
        Ok(Seq::empty())
    }
}

/// A line without a single delimiter compiles to the empty string.
pub proof fn lemma_no_delimiter_empty(line: Seq<char>)
    requires
        forall|j: int| 0 <= j < line.len() ==> line[j] != '~',
    ensures
        line_ansi_spec(line) == Ok::<Seq<char>, CatError>(Seq::empty()),
{
    lemma_find_char_is(line, '~', line.len() as int);
}

/// A lone, delimiter-free, well-coded segment compiles to its code's
/// escape sequence followed by its text.
proof fn lemma_segs_last(seg: Seq<char>)
    requires
        seg.len() >= 2,
        is_hex_digit(seg[0]),
        is_hex_digit(seg[1]),
        forall|j: int| 0 <= j < seg.len() ==> seg[j] != '~',
    ensures
        segs_spec(seg) == Ok::<Seq<char>, CatError>(
            ansi_escape(hex_val(seg[0]), hex_val(seg[1])) + seg.skip(2),
        ),
{
    lemma_find_char_is(seg, '~', seg.len() as int);
    assert(seg.take(seg.len() as int) =~= seg);
    assert(ansi_escape(hex_val(seg[0]), hex_val(seg[1])) + seg.skip(2) + Seq::<char>::empty()
        =~= ansi_escape(hex_val(seg[0]), hex_val(seg[1])) + seg.skip(2));
}

/// A well-coded, delimiter-free segment in front of a delimiter and more
/// text contributes its escape sequence and text in front of whatever the
/// rest compiles to.
proof fn lemma_segs_cons(seg: Seq<char>, rest: Seq<char>)
    requires
        seg.len() >= 2,
        is_hex_digit(seg[0]),
        is_hex_digit(seg[1]),
        forall|j: int| 0 <= j < seg.len() ==> seg[j] != '~',
    ensures
        segs_spec(seg + seq!['~'] + rest) == match segs_spec(rest) {
            Ok(r) => Ok::<Seq<char>, CatError>(
                ansi_escape(hex_val(seg[0]), hex_val(seg[1])) + seg.skip(2) + r,
            ),
            Err(e) => Err(e),
        },
{
    let s = seg + seq!['~'] + rest;
    assert(s[seg.len() as int] == '~');
    assert forall|j: int| 0 <= j < seg.len() implies s[j] != '~' by {
        assert(s[j] == seg[j]);
    }
    lemma_find_char_is(s, '~', seg.len() as int);
    assert(s.take(seg.len() as int) =~= seg);
    assert(s.skip(seg.len() as int + 1) =~= rest);
    assert(s.take(seg.len() as int).skip(2) =~= seg.skip(2));
}

/// `n` copies of the character `c`.
pub open spec fn repeat_char(c: char, n: int) -> Seq<char>
    recommends
        n >= 0,
{
    Seq::new(n as nat, |i: int| c)
}

/// The markup of a decorative horizontal rule: an optional padding span of
/// spaces, a four-glyph cap of two colour-tagged dash pairs, a fill span
/// of dashes across the remaining width, and the mirrored closing cap.
pub open spec fn gen_markup(width: int, padding: int) -> Seq<char>
    recommends
        width >= 8 + 2 * padding,
        padding >= 0,
{
    let head = if padding > 0 {
        seq!['~', '0', '0'] + repeat_char(' ', padding)
    } else {
        Seq::empty()
    };
    head + seq!['~', '0', '8', '\u{2500}', '\u{2500}', '~', '0', '7', '\u{2500}', '\u{2500}', '~', '0', 'F']
        + repeat_char('\u{2500}', width - 8 - 2 * padding)
        + seq!['~', '0', '7', '\u{2500}', '\u{2500}', '~', '0', '8', '\u{2500}', '\u{2500}']
}

/// The compiled form of the horizontal rule markup.
pub open spec fn gen_output(width: int, padding: int) -> Seq<char>
    recommends
        width >= 8 + 2 * padding,
        padding >= 0,
{
    let dashes = seq!['\u{2500}', '\u{2500}'];
    let head = if padding > 0 {
        ansi_escape(0, 0) + repeat_char(' ', padding)
    } else {
        Seq::empty()
    };
    head + ansi_escape(0, 8) + dashes + ansi_escape(0, 7) + dashes + ansi_escape(0, 15)
        + repeat_char('\u{2500}', width - 8 - 2 * padding) + ansi_escape(0, 7) + dashes
        + ansi_escape(0, 8) + dashes
}

/// What generating a separator yields: the compiled rule markup, or the
/// width error when the width cannot hold the caps and the padding.
pub open spec fn generate_spec(width: int, padding: int) -> Result<Seq<char>, CatError> {
    if width < 8 + 2 * padding {
        Err(CatError::InvalidWidth)
    } else {
        line_ansi_spec(gen_markup(width, padding))
    }
}

/// The rule markup always compiles, to exactly `gen_output`: its colour
/// codes are fixed hex digits and its text spans hold only spaces and
/// dashes.
#[verifier::rlimit(100)]
pub proof fn lemma_gen_markup_ansi(width: int, padding: int)
    requires
        width >= 8 + 2 * padding,
        padding >= 0,
    ensures
        line_ansi_spec(gen_markup(width, padding)) == Ok::<Seq<char>, CatError>(
            gen_output(width, padding),
        ),
{
    let m = gen_markup(width, padding);
    let dashes = seq!['\u{2500}', '\u{2500}'];
    let fill = repeat_char('\u{2500}', width - 8 - 2 * padding);
    let seg0 = seq!['0', '0'] + repeat_char(' ', padding);
    let seg1 = seq!['0', '8', '\u{2500}', '\u{2500}'];
    let seg2 = seq!['0', '7', '\u{2500}', '\u{2500}'];
    let seg3 = seq!['0', 'F'] + fill;
    let seg4 = seq!['0', '7', '\u{2500}', '\u{2500}'];
    let seg5 = seq!['0', '8', '\u{2500}', '\u{2500}'];
    let tail5 = seg5;
    let tail4 = seg4 + seq!['~'] + tail5;
    let tail3 = seg3 + seq!['~'] + tail4;
    let tail2 = seg2 + seq!['~'] + tail3;
    let tail1 = seg1 + seq!['~'] + tail2;

    lemma_segs_last(seg5);
    lemma_segs_cons(seg4, tail5);
    assert(seg4 + seq!['~'] + tail5 =~= tail4);
    lemma_segs_cons(seg3, tail4);
    assert(seg3 + seq!['~'] + tail4 =~= tail3);
    lemma_segs_cons(seg2, tail3);
    assert(seg2 + seq!['~'] + tail3 =~= tail2);
    lemma_segs_cons(seg1, tail2);
    assert(seg1 + seq!['~'] + tail2 =~= tail1);

    assert(seg5.skip(2) =~= dashes);
    assert(seg4.skip(2) =~= dashes);
    assert(seg3.skip(2) =~= fill);
    assert(seg2.skip(2) =~= dashes);
    assert(seg1.skip(2) =~= dashes);
    assert(hex_val('0') == 0);
    assert(hex_val('8') == 8);
    assert(hex_val('7') == 7);
    assert(hex_val('F') == 15);

    let out_tail = ansi_escape(0, 8) + dashes + (ansi_escape(0, 7) + dashes + (ansi_escape(0, 15)
        + fill + (ansi_escape(0, 7) + dashes + (ansi_escape(0, 8) + dashes))));
    assert(segs_spec(tail1) == Ok::<Seq<char>, CatError>(out_tail));

    if padding > 0 {
        lemma_segs_cons(seg0, tail1);
        assert(seg0.skip(2) =~= repeat_char(' ', padding));
        assert(m[0] == '~');
        lemma_find_char_is(m, '~', 0);
        assert(m.skip(1) =~= seg0 + seq!['~'] + tail1);
        assert(segs_spec(m.skip(1)) == Ok::<Seq<char>, CatError>(
            ansi_escape(0, 0) + repeat_char(' ', padding) + out_tail,
        ));
        assert(ansi_escape(0, 0) + repeat_char(' ', padding) + out_tail =~= gen_output(
            width,
            padding,
        ));
    } else {
        assert(m[0] == '~');
        lemma_find_char_is(m, '~', 0);
        assert(m.skip(1) =~= tail1);
        assert(out_tail =~= gen_output(width, padding));
    }
}

/// The printable characters of a compiled line: every escape sequence,
/// from its introducer to its terminating `'m'`, is stripped out.
pub open spec fn stripped(s: Seq<char>) -> Seq<char>
    decreases s.len(),
{
    if s.len() == 0 {
        Seq::empty()
    } else if s[0] == '\u{1b}' {
        let k = find_char(s, 'm');
        if k < s.len() {
            stripped(s.skip(k as int + 1))
        } else {
            Seq::empty()
        }
    } else {
        seq![s[0]] + stripped(s.skip(1))
    }
}

/// The digits of a control-code number are ordinary characters: one or
/// two of them, none a delimiter, an escape introducer or a terminator.
proof fn lemma_dec_digits_chars(n: int)
    ensures
        1 <= dec_digits(n).len() <= 2,
        forall|j: int|
            0 <= j < dec_digits(n).len() ==> dec_digits(n)[j] != 'm' && dec_digits(n)[j]
                != '\u{1b}' && dec_digits(n)[j] != '~',
{
    assert forall|j: int| 0 <= j < dec_digits(n).len() implies dec_digits(n)[j] != 'm'
        && dec_digits(n)[j] != '\u{1b}' && dec_digits(n)[j] != '~' by {
        if n < 10 {
            assert(dec_digits(n)[j] == digit_char(n));
        } else if j == 0 {
            assert(dec_digits(n)[j] == digit_char(n / 10));
        } else {
            assert(dec_digits(n)[j] == digit_char(n % 10));
        }
    }
}

/// A complete escape sequence in front of anything strips to nothing: the
/// introducer opens it and the first terminator ends it.
proof fn lemma_stripped_esc(esc: Seq<char>, rest: Seq<char>)
    requires
        esc.len() >= 1,
        esc[0] == '\u{1b}',
        esc[esc.len() - 1] == 'm',
        forall|j: int| 0 <= j < esc.len() - 1 ==> esc[j] != 'm',
    ensures
        stripped(esc + rest) == stripped(rest),
{
    let s = esc + rest;
    assert(s[0] == '\u{1b}');
    assert forall|j: int| 0 <= j < esc.len() - 1 implies s[j] != 'm' by {
        assert(s[j] == esc[j]);
    }
    assert(s[esc.len() - 1] == 'm');
    lemma_find_char_is(s, 'm', esc.len() - 1);
    assert(s.skip(esc.len() as int) =~= rest);
}

/// Escape-free text in front of anything strips to itself in front of the
/// stripped rest.
proof fn lemma_stripped_text(t: Seq<char>, rest: Seq<char>)
    requires
        forall|j: int| 0 <= j < t.len() ==> t[j] != '\u{1b}',
    ensures
        stripped(t + rest) == t + stripped(rest),
    decreases t.len(),
{
    if t.len() == 0 {
        assert(t + rest =~= rest);
        assert(t + stripped(rest) =~= stripped(rest));
    } else {
        let s = t + rest;
        assert(s[0] == t[0]);
        assert(s.skip(1) =~= t.skip(1) + rest);
        lemma_stripped_text(t.skip(1), rest);
        assert(seq![t[0]] + (t.skip(1) + stripped(rest)) =~= t + stripped(rest));
    }
}

/// A colour escape sequence in front of anything strips to nothing.
proof fn lemma_stripped_ansi(bg: int, fg: int, rest: Seq<char>)
    ensures
        stripped(ansi_escape(bg, fg) + rest) == stripped(rest),
{
    let blink = dec_digits(blink_code(bg));
    let fg_d = dec_digits(fg_code(fg));
    let bg_d = dec_digits(bg_code(bg));
    let e1 = seq!['\u{1b}', '['] + blink + seq!['m'];
    let e2 = seq!['\u{1b}', '[', '1', ';'] + fg_d + seq![';'] + bg_d + seq!['m'];
    lemma_dec_digits_chars(blink_code(bg));
    lemma_dec_digits_chars(fg_code(fg));
    lemma_dec_digits_chars(bg_code(bg));
    assert(ansi_escape(bg, fg) + rest =~= e1 + (e2 + rest));
    assert(e1[e1.len() - 1] == 'm');
    assert forall|j: int| 0 <= j < e1.len() - 1 implies e1[j] != 'm' by {
        if 2 <= j {
            assert(e1[j] == blink[j - 2]);
        }
    }
    assert(e2[e2.len() - 1] == 'm');
    assert forall|j: int| 0 <= j < e2.len() - 1 implies e2[j] != 'm' by {
        if 4 <= j < 4 + fg_d.len() {
            assert(e2[j] == fg_d[j - 4]);
        } else if 4 + fg_d.len() < j {
            assert(e2[j] == bg_d[j - 5 - fg_d.len()]);
        }
    }
    lemma_stripped_esc(e1, e2 + rest);
    lemma_stripped_esc(e2, rest);
}

/// The compiled horizontal rule strips to its spaces and dashes alone:
/// `padding` spaces, two two-dash caps each side, and the fill, together
/// exactly `width - padding` printable columns.
#[verifier::rlimit(100)]
pub proof fn lemma_generate_printable_width(width: int, padding: int)
    requires
        width >= 8 + 2 * padding,
        padding >= 0,
    ensures
        generate_spec(width, padding) matches Ok(s) && stripped(s).len() == width - padding,
{
    lemma_gen_markup_ansi(width, padding);
    let dd = seq!['\u{2500}', '\u{2500}'];
    let fill = repeat_char('\u{2500}', width - 8 - 2 * padding);
    let spaces = repeat_char(' ', padding);
    let t9 = dd;
    let t8 = ansi_escape(0, 8) + t9;
    let t7 = dd + t8;
    let t6 = ansi_escape(0, 7) + t7;
    let t5 = fill + t6;
    let t4 = ansi_escape(0, 15) + t5;
    let t3 = dd + t4;
    let t2 = ansi_escape(0, 7) + t3;
    let t1 = dd + t2;
    let t0 = ansi_escape(0, 8) + t1;
    assert(stripped(t9) == dd + stripped(Seq::<char>::empty())) by {
        assert(dd + Seq::<char>::empty() =~= dd);
        lemma_stripped_text(dd, Seq::<char>::empty());
    }
    lemma_stripped_ansi(0, 8, t9);
    lemma_stripped_text(dd, t8);
    lemma_stripped_ansi(0, 7, t7);
    assert forall|j: int| 0 <= j < fill.len() implies fill[j] != '\u{1b}' by {
        assert(fill[j] == '\u{2500}');
    }
    lemma_stripped_text(fill, t6);
    lemma_stripped_ansi(0, 15, t5);
    lemma_stripped_text(dd, t4);
    lemma_stripped_ansi(0, 7, t3);
    lemma_stripped_text(dd, t2);
    lemma_stripped_ansi(0, 8, t1);
    assert(stripped(t0) == dd + (dd + (fill + (dd + (dd + Seq::<char>::empty())))));
    if padding > 0 {
        assert(gen_output(width, padding) =~= ansi_escape(0, 0) + (spaces + t0));
        lemma_stripped_ansi(0, 0, spaces + t0);
        assert forall|j: int| 0 <= j < spaces.len() implies spaces[j] != '\u{1b}' by {
            assert(spaces[j] == ' ');
        }
        lemma_stripped_text(spaces, t0);
        assert(stripped(gen_output(width, padding)) == spaces + stripped(t0));
    } else {
        assert(gen_output(width, padding) =~= t0);
        assert(stripped(gen_output(width, padding)) == stripped(t0));
    }
}

/// Without padding, the compiled rule spans the full width: its printable
/// characters count exactly `width` columns.
pub proof fn lemma_generate_full_width(width: int)
    requires
        width >= 8,
    ensures
        generate_spec(width, 0) matches Ok(s) && stripped(s).len() == width,
{
    lemma_generate_printable_width(width, 0);
}

/// Build and compile the horizontal-rule markup for a terminal `width`
/// with `padding` leading spaces.  Success is owed exactly when the width
/// holds the two caps and the padding; the output is then precisely the
/// compiled rule.
pub fn generate_line(width: u16, padding: u16) -> (r: Result<String, CatError>)
    ensures
        r matches Ok(s) ==> generate_spec(width as int, padding as int) == Ok::<
            Seq<char>,
            CatError,
        >(s@),
        r matches Err(e) ==> generate_spec(width as int, padding as int) == Err::<
            Seq<char>,
            CatError,
        >(e),
        r is Ok <==> width as int >= 8 + 2 * padding as int,
{
    if (width as u32) < 8 + 2 * (padding as u32) {
        return Err(CatError::InvalidWidth);
    }
    proof {
        reveal_strlit("~00");
        reveal_strlit(" ");
        reveal_strlit("~08\u{2500}\u{2500}~07\u{2500}\u{2500}~0F");
        reveal_strlit("\u{2500}");
        reveal_strlit("~07\u{2500}\u{2500}~08\u{2500}\u{2500}");
        assert("~00"@ =~= seq!['~', '0', '0']);
        assert(" "@ =~= seq![' ']);
        assert("~08\u{2500}\u{2500}~07\u{2500}\u{2500}~0F"@ =~= seq![
            '~', '0', '8', '\u{2500}', '\u{2500}', '~', '0', '7', '\u{2500}', '\u{2500}', '~', '0', 'F',
        ]);
        assert("\u{2500}"@ =~= seq!['\u{2500}']);
        assert("~07\u{2500}\u{2500}~08\u{2500}\u{2500}"@ =~= seq![
            '~', '0', '7', '\u{2500}', '\u{2500}', '~', '0', '8', '\u{2500}', '\u{2500}',
        ]);
    }
    let ghost head = if padding > 0 {
        seq!['~', '0', '0'] + repeat_char(' ', padding as int)
    } else {
        Seq::<char>::empty()
    };
    let mut m = String::new();
    if padding > 0 {
        m.append("~00");
        let mut i: u16 = 0;
        while i < padding
            invariant
                i <= padding,
                m@ =~= seq!['~', '0', '0'] + repeat_char(' ', i as int),
            decreases padding - i,
        {
            m.append(" ");
            proof {
                reveal_strlit(" ");
                assert(m@ =~= seq!['~', '0', '0'] + repeat_char(' ', i as int + 1));
            }
            i = i + 1;
        }
    }
    proof {
        assert(m@ =~= head);
    }
    m.append("~08\u{2500}\u{2500}~07\u{2500}\u{2500}~0F");
    let fill: u32 = width as u32 - 8 - 2 * (padding as u32);
    let ghost mid = head + seq![
        '~', '0', '8', '\u{2500}', '\u{2500}', '~', '0', '7', '\u{2500}', '\u{2500}', '~', '0', 'F',
    ];
    let mut i: u32 = 0;
    while i < fill
        invariant
            i <= fill,
            m@ =~= mid + repeat_char('\u{2500}', i as int),
        decreases fill - i,
    {
        m.append("\u{2500}");
        proof {
            reveal_strlit("\u{2500}");
            assert(m@ =~= mid + repeat_char('\u{2500}', i as int + 1));
        }
        i = i + 1;
    }
    m.append("~07\u{2500}\u{2500}~08\u{2500}\u{2500}");
    proof {
        assert(m@ =~= gen_markup(width as int, padding as int));
        lemma_gen_markup_ansi(width as int, padding as int);
    }
    line_to_ansi(m.as_str())
}

/// The position of the first delimiter in `s`, or its length.
fn find_tilde_pos(s: &str) -> (k: usize)
    ensures
        k == find_char(s@, '~'),
        k <= s@.len(),
        k < s@.len() ==> s@[k as int] == '~',
        forall|j: int| 0 <= j < k ==> s@[j] != '~',
{
    let n = s.unicode_len();
    let mut i: usize = 0;
    while i < n
        invariant
            i <= n,
            n == s@.len(),
            forall|j: int| 0 <= j < i ==> s@[j] != '~',
        decreases n - i,
    {
        if s.get_char(i) == '~' {
            proof {
                lemma_find_char_is(s@, '~', i as int);
            }
            return i;
        }
        i = i + 1;
    }
    proof {
        lemma_find_char_is(s@, '~', n as int);
    }
    n
}

/// Compile the segment text `s` (the part of a line after its first
/// delimiter), per `segs_spec`.
fn compile_segments(s: &str) -> (r: Result<String, CatError>)
    ensures
        r matches Ok(out) ==> segs_spec(s@) == Ok::<Seq<char>, CatError>(out@),
        r matches Err(e) ==> segs_spec(s@) == Err::<Seq<char>, CatError>(e),
    decreases s@.len(),
{
    let n = s.unicode_len();
    let k = find_tilde_pos(s);
    if k == 0 {
        if n == 0 {
            Ok(String::new())
        } else {
            let tail = s.substring_char(1, n);
            proof {
                assert(tail@ =~= s@.skip(1));
            }
            compile_segments(tail)
        }
    } else if k == 1 {
        Err(CatError::MalformedSegment)
    } else {
        let code = s.substring_char(0, 2);
        proof {
            assert(code@.len() == 2);
            assert(code@[0] == s@[0]);
            assert(code@[1] == s@[1]);
            assert(s@.take(k as int)[0] == s@[0]);
            assert(s@.take(k as int)[1] == s@[1]);
        }
        match color_to_ansi(code) {
            Err(e) => Err(e),
            Ok(esc) => {
                let text = s.substring_char(2, k);
                let tail = if k == n {
                    Ok(String::new())
                } else {
                    let rest_text = s.substring_char(k + 1, n);
                    proof {
                        assert(rest_text@ =~= s@.skip(k + 1));
                    }
                    compile_segments(rest_text)
                };
                match tail {
                    Err(e) => Err(e),
                    Ok(rest) => {
                        let mut out = esc;
                        out.append(text);
                        out.append(rest.as_str());
                        proof {
                            assert(s@.take(k as int).skip(2) =~= s@.subrange(2, k as int));
                            assert(out@ =~= ansi_escape(
                                hex_val(s@[0]),
                                hex_val(s@[1]),
                            ) + s@.take(k as int).skip(2) + rest@);
                        }
                        Ok(out)
                    },
                }
            },
        }
    }
}

/// Whether `c` is a decimal digit.
pub open spec fn is_digit(c: char) -> bool {
    '0' <= c && c <= '9'
}

/// A marker stands at the front of `s`: the token itself, immediately
/// followed by the demanded number of decimal digits.
pub open spec fn marker_at(s: Seq<char>, token: Seq<char>, digits: int) -> bool {
    &&& s.len() >= token.len() + digits
    &&& s.subrange(0, token.len() as int) == token
    &&& forall|j: int| token.len() <= j < token.len() + digits ==> is_digit(#[trigger] s[j])
}

/// The marker stands somewhere in `s`.
pub open spec fn has_marker(s: Seq<char>, token: Seq<char>, digits: int) -> bool
    decreases s.len(),
{
    if s.len() == 0 {
        false
    } else {
        marker_at(s, token, digits) || has_marker(s.skip(1), token, digits)
    }
}

/// The index of the first marker occurrence in `s`.
pub open spec fn first_marker(s: Seq<char>, token: Seq<char>, digits: int) -> nat
    decreases s.len(),
{
    if s.len() == 0 {
        0
    } else if marker_at(s, token, digits) {
        0
    } else {
        1 + first_marker(s.skip(1), token, digits)
    }
}

/// A marker stands somewhere in `s` exactly when some suffix of `s`
/// starts with it.
pub proof fn lemma_marker_exists(s: Seq<char>, token: Seq<char>, digits: int)
    ensures
        has_marker(s, token, digits) <==> exists|i: int|
            0 <= i < s.len() && marker_at(s.skip(i), token, digits),
    decreases s.len(),
{
    if s.len() == 0 {
    } else {
        lemma_marker_exists(s.skip(1), token, digits);
        assert(s.skip(0) =~= s);
        if marker_at(s, token, digits) {
            assert(marker_at(s.skip(0), token, digits));
        }
        if has_marker(s.skip(1), token, digits) {
            let i = choose|i: int|
                0 <= i < s.skip(1).len() && marker_at(s.skip(1).skip(i), token, digits);
            assert(s.skip(1).skip(i) =~= s.skip(i + 1));
            assert(marker_at(s.skip(i + 1), token, digits));
        }
        if exists|i: int| 0 <= i < s.len() && marker_at(s.skip(i), token, digits) {
            let i = choose|i: int| 0 <= i < s.len() && marker_at(s.skip(i), token, digits);
            if i > 0 {
                assert(s.skip(i) =~= s.skip(1).skip(i - 1));
                assert(marker_at(s.skip(1).skip(i - 1), token, digits));
            }
        }
    }
}

/// An index whose suffix starts with the marker, with no earlier suffix
/// doing so, is the index of the first occurrence.
pub proof fn lemma_first_marker_is(s: Seq<char>, token: Seq<char>, digits: int, k: int)
    requires
        0 <= k < s.len(),
        marker_at(s.skip(k), token, digits),
        forall|j: int| 0 <= j < k ==> !marker_at(s.skip(j), token, digits),
    ensures
        first_marker(s, token, digits) == k,
        has_marker(s, token, digits),
    decreases s.len(),
{
    lemma_marker_exists(s, token, digits);
    if k == 0 {
        assert(s.skip(0) =~= s);
    } else {
        assert(s.skip(0) =~= s);
        assert(!marker_at(s, token, digits));
        assert forall|j: int| 0 <= j < k - 1 implies !marker_at(
            s.skip(1).skip(j),
            token,
            digits,
        ) by {
            assert(s.skip(1).skip(j) =~= s.skip(j + 1));
        }
        assert(s.skip(1).skip(k - 1) =~= s.skip(k));
        lemma_first_marker_is(s.skip(1), token, digits, k - 1);
    }
}

/// The button token: the marker byte followed by the word BUTTON.
pub open spec fn button_token() -> Seq<char> {
    seq!['\u{fe}', 'B', 'U', 'T', 'T', 'O', 'N']
}

/// The separator token: the marker byte followed by the word LINE.
pub open spec fn sep_token() -> Seq<char> {
    seq!['\u{fe}', 'L', 'I', 'N', 'E']
}

/// The line holds a button token followed by exactly four digits.
pub open spec fn has_button(l: Seq<char>) -> bool {
    has_marker(l, button_token(), 4)
}

/// The line holds a separator token followed by one digit.
pub open spec fn has_sep(l: Seq<char>) -> bool {
    has_marker(l, sep_token(), 1)
}

/// The four digits after an index read as a number.
pub open spec fn digits4(s: Seq<char>, i: int) -> int {
    1000 * (s[i] as int - '0' as int) + 100 * (s[i + 1] as int - '0' as int) + 10 * (s[i + 2] as int
        - '0' as int) + (s[i + 3] as int - '0' as int)
}

/// The identifier of the first button token in `l`: the four digits after
/// the token, read as a number.
pub open spec fn button_id_spec(l: Seq<char>) -> int
    recommends
        has_button(l),
{
    digits4(l, first_marker(l, button_token(), 4) + button_token().len() as int)
}

/// The pre-coloured markup that replaces every button token: bracket
/// glyphs around a fixed invitation.
pub open spec fn button_label() -> Seq<char> {
    seq!['~', '0', '8', '>', '~', '0', '7', '>', '~', '0', 'F', '>', ' ', 'C', 'l', 'i', 'c', 'k',
        ' ', 'H', 'e', 'r', 'e', ' ', '<', '~', '0', '7', '<', '~', '0', '8', '<']
}

/// The line with every button token and its four digits replaced by the
/// button label markup, left to right.
pub open spec fn button_replace(s: Seq<char>) -> Seq<char>
    decreases s.len(),
{
    if s.len() == 0 {
        s
    } else if marker_at(s, button_token(), 4) {
        button_label() + button_replace(s.skip(11))
    } else {
        seq![s[0]] + button_replace(s.skip(1))
    }
}

/// What one raw line becomes: a button line is replaced and compiled with
/// its identifier kept, a separator line becomes a full-width rule, and
/// any other line is compiled as markup.  Button recognition is checked
/// first.
pub open spec fn line_ok(l: Seq<char>, width: int, pl: PrintableLine) -> bool {
    if has_button(l) {
        &&& pl matches PrintableLine::Button(id, t)
        &&& id as int == button_id_spec(l)
        &&& line_ansi_spec(button_replace(l)) == Ok::<Seq<char>, CatError>(t@)
    } else if has_sep(l) {
        &&& pl matches PrintableLine::Text(t)
        &&& generate_spec(width, 1) == Ok::<Seq<char>, CatError>(t@)
    } else {
        &&& pl matches PrintableLine::Text(t)
        &&& line_ansi_spec(l) == Ok::<Seq<char>, CatError>(t@)
    }
}

/// The error one raw line causes, if any.
pub open spec fn line_fails(l: Seq<char>, width: int) -> Option<CatError> {
    if has_button(l) {
        match line_ansi_spec(button_replace(l)) {
            Ok(_) => None,
            Err(e) => Some(e),
        }
    } else if has_sep(l) {
        match generate_spec(width, 1) {
            Ok(_) => None,
            Err(e) => Some(e),
        }
    } else {
        match line_ansi_spec(l) {
            Ok(_) => None,
            Err(e) => Some(e),
        }
    }
}

/// A terminated piece of the raw text with a trailing carriage return
/// dropped.
pub open spec fn strip_cr(p: Seq<char>) -> Seq<char> {
    if p.len() > 0 && p[p.len() - 1] == '\r' {
        p.take(p.len() - 1)
    } else {
        p
    }
}

/// The raw document cut into lines: pieces end at a line feed, a carriage
/// return before the line feed is dropped, and a final unterminated piece
/// is kept as it stands.
pub open spec fn split_lines(s: Seq<char>) -> Seq<Seq<char>>
    decreases s.len(),
{
    if s.len() == 0 {
        Seq::empty()
    } else {
        let k = find_char(s, '\n');
        if k < s.len() {
            seq![strip_cr(s.take(k as int))] + split_lines(s.skip(k as int + 1))
        } else {
            seq![s]
        }
    }
}

/// Two printable lines agree in kind, identifier and text.
pub open spec fn pl_eq(a: PrintableLine, b: PrintableLine) -> bool {
    match (a, b) {
        (PrintableLine::Button(i1, t1), PrintableLine::Button(i2, t2)) => i1 == i2 && t1@ == t2@,
        (PrintableLine::Text(t1), PrintableLine::Text(t2)) => t1@ == t2@,
        _ => false,
    }
}

/// Document compilation is deterministic: any two line sequences that
/// satisfy its contract for the same raw text and width agree line by
/// line, so compiling twice yields byte-identical output.
pub proof fn lemma_compile_deterministic(
    contents: Seq<char>,
    width: int,
    a: Seq<PrintableLine>,
    b: Seq<PrintableLine>,
)
    requires
        a.len() == split_lines(contents).len(),
        b.len() == split_lines(contents).len(),
        forall|i: int| 0 <= i < a.len() ==> line_ok(#[trigger] split_lines(contents)[i], width, a[i]),
        forall|i: int| 0 <= i < b.len() ==> line_ok(#[trigger] split_lines(contents)[i], width, b[i]),
    ensures
        forall|i: int| 0 <= i < a.len() ==> pl_eq(a[i], b[i]),
{
    assert forall|i: int| 0 <= i < a.len() implies pl_eq(a[i], b[i]) by {
        assert(line_ok(split_lines(contents)[i], width, a[i]));
        assert(line_ok(split_lines(contents)[i], width, b[i]));
    }
}

/// Whether `c` is a decimal digit.
fn is_digit_char(c: char) -> (r: bool)
    ensures
        r == is_digit(c),
{
    '0' <= c && c <= '9'
}

/// Whether the characters of `pat` stand in `s` at position `i`.
pub(crate) fn match_at(s: &str, i: usize, pat: &str) -> (r: bool)
    requires
        i <= s@.len(),
    ensures
        r == (i + pat@.len() <= s@.len() && s@.subrange(i as int, i as int + pat@.len()) == pat@),
{
    let n = s.unicode_len();
    let m = pat.unicode_len();
    if m > n - i {
        return false;
    }
    let mut j: usize = 0;
    while j < m
        invariant
            0 <= j <= m,
            i + m <= n,
            n == s@.len(),
            m == pat@.len(),
            forall|x: int| 0 <= x < j ==> s@[i + x] == pat@[x],
        decreases m - j,
    {
        if s.get_char(i + j) != pat.get_char(j) {
            proof {
                assert(s@.subrange(i as int, i as int + pat@.len())[j as int] == s@[i + j]);
            }
            return false;
        }
        j = j + 1;
    }
    proof {
        assert(s@.subrange(i as int, i as int + pat@.len()) =~= pat@);
    }
    true
}

/// Whether a button token with its four digits stands at position `i`.
fn button_match_at(s: &str, i: usize) -> (r: bool)
    requires
        i <= s@.len(),
    ensures
        r == marker_at(s@.skip(i as int), button_token(), 4),
{
    proof {
        reveal_strlit("\u{fe}BUTTON");
        assert("\u{fe}BUTTON"@ =~= button_token());
    }
    let n = s.unicode_len();
    if !match_at(s, i, "\u{fe}BUTTON") {
        proof {
            if marker_at(s@.skip(i as int), button_token(), 4) {
                assert(s@.skip(i as int).subrange(0, 7) =~= s@.subrange(i as int, i as int + 7));
            }
        }
        return false;
    }
    proof {
        assert(s@.skip(i as int).subrange(0, 7) =~= s@.subrange(i as int, i as int + 7));
    }
    if n - i < 11 {
        return false;
    }
    let d0 = is_digit_char(s.get_char(i + 7));
    let d1 = is_digit_char(s.get_char(i + 8));
    let d2 = is_digit_char(s.get_char(i + 9));
    let d3 = is_digit_char(s.get_char(i + 10));
    proof {
        assert(s@.skip(i as int).len() == n - i);
        assert(s@.skip(i as int)[7] == s@[i + 7]);
        assert(s@.skip(i as int)[8] == s@[i + 8]);
        assert(s@.skip(i as int)[9] == s@[i + 9]);
        assert(s@.skip(i as int)[10] == s@[i + 10]);
        if d0 && d1 && d2 && d3 {
            assert forall|j: int| 7 <= j < 11 implies is_digit(#[trigger] s@.skip(i as int)[j]) by {
                assert(s@.skip(i as int)[j] == s@[i + j]);
                if j == 7 {
                    assert(s@[i + j] == s@[i + 7]);
                } else if j == 8 {
                    assert(s@[i + j] == s@[i + 8]);
                } else if j == 9 {
                    assert(s@[i + j] == s@[i + 9]);
                } else {
                    assert(s@[i + j] == s@[i + 10]);
                }
            }
            assert(marker_at(s@.skip(i as int), button_token(), 4));
        } else {
            if marker_at(s@.skip(i as int), button_token(), 4) {
                assert(is_digit(s@.skip(i as int)[7]));
                assert(is_digit(s@.skip(i as int)[8]));
                assert(is_digit(s@.skip(i as int)[9]));
                assert(is_digit(s@.skip(i as int)[10]));
                assert(false);
            }
        }
    }
    d0 && d1 && d2 && d3
}

/// Whether a separator token with its digit stands at position `i`.
fn sep_match_at(s: &str, i: usize) -> (r: bool)
    requires
        i <= s@.len(),
    ensures
        r == marker_at(s@.skip(i as int), sep_token(), 1),
{
    proof {
        reveal_strlit("\u{fe}LINE");
        assert("\u{fe}LINE"@ =~= sep_token());
    }
    let n = s.unicode_len();
    if !match_at(s, i, "\u{fe}LINE") {
        proof {
            if marker_at(s@.skip(i as int), sep_token(), 1) {
                assert(s@.skip(i as int).subrange(0, 5) =~= s@.subrange(i as int, i as int + 5));
            }
        }
        return false;
    }
    proof {
        assert(s@.skip(i as int).subrange(0, 5) =~= s@.subrange(i as int, i as int + 5));
    }
    if n - i < 6 {
        return false;
    }
    let d = is_digit_char(s.get_char(i + 5));
    proof {
        assert(s@.skip(i as int).len() == n - i);
        assert(s@.skip(i as int)[5] == s@[i + 5]);
        if d {
            assert forall|j: int| 5 <= j < 6 implies is_digit(#[trigger] s@.skip(i as int)[j]) by {
                assert(s@.skip(i as int)[j] == s@.skip(i as int)[5]);
            }
            assert(marker_at(s@.skip(i as int), sep_token(), 1));
        } else {
            if marker_at(s@.skip(i as int), sep_token(), 1) {
                assert(is_digit(s@.skip(i as int)[5]));
                assert(false);
            }
        }
    }
    d
}

/// The position of the first button token, when the line holds one.
fn find_button_pos(s: &str) -> (r: Option<usize>)
    ensures
        r matches Some(i) ==> i < s@.len() && marker_at(s@.skip(i as int), button_token(), 4)
            && first_marker(s@, button_token(), 4) == i && has_button(s@),
        r is None ==> !has_button(s@),
{
    let n = s.unicode_len();
    let mut i: usize = 0;
    while i < n
        invariant
            0 <= i <= n,
            n == s@.len(),
            forall|j: int| 0 <= j < i ==> !marker_at(s@.skip(j), button_token(), 4),
        decreases n - i,
    {
        if button_match_at(s, i) {
            proof {
                lemma_first_marker_is(s@, button_token(), 4, i as int);
            }
            return Some(i);
        }
        i = i + 1;
    }
    proof {
        lemma_marker_exists(s@, button_token(), 4);
    }
    None
}

/// Whether the line holds a separator token.
fn has_sep_str(s: &str) -> (r: bool)
    ensures
        r == has_sep(s@),
{
    let n = s.unicode_len();
    let mut i: usize = 0;
    while i < n
        invariant
            0 <= i <= n,
            n == s@.len(),
            forall|j: int| 0 <= j < i ==> !marker_at(s@.skip(j), sep_token(), 1),
        decreases n - i,
    {
        if sep_match_at(s, i) {
            proof {
                lemma_marker_exists(s@, sep_token(), 1);
            }
            return true;
        }
        i = i + 1;
    }
    proof {
        lemma_marker_exists(s@, sep_token(), 1);
    }
    false
}

/// The line with every button token replaced by the button label markup.
fn button_replace_str(s: &str) -> (out: String)
    ensures
        out@ == button_replace(s@),
{
    let n = s.unicode_len();
    let mut out = String::new();
    let mut i: usize = 0;
    proof {
        assert(s@.skip(0) =~= s@);
        assert(out@ + button_replace(s@) =~= button_replace(s@));
    }
    while i < n
        invariant
            0 <= i <= n,
            n == s@.len(),
            button_replace(s@) == out@ + button_replace(s@.skip(i as int)),
        decreases n - i,
    {
        let ghost prev = out@;
        if button_match_at(s, i) {
            out.append("~08>~07>~0F> Click Here <~07<~08<");
            proof {
                reveal_strlit("~08>~07>~0F> Click Here <~07<~08<");
                assert("~08>~07>~0F> Click Here <~07<~08<"@ =~= button_label());
                assert(s@.skip(i as int).skip(11) =~= s@.skip(i as int + 11));
                assert(button_replace(s@.skip(i as int)) == button_label() + button_replace(
                    s@.skip(i as int + 11),
                ));
                assert(prev + (button_label() + button_replace(s@.skip(i as int + 11))) =~= (prev
                    + button_label()) + button_replace(s@.skip(i as int + 11)));
            }
            i = i + 11;
        } else {
            let c = s.substring_char(i, i + 1);
            out.append(c);
            proof {
                assert(s@.skip(i as int)[0] == s@[i as int]);
                assert(c@ =~= seq![s@.skip(i as int)[0]]);
                assert(s@.skip(i as int).skip(1) =~= s@.skip(i as int + 1));
                assert(button_replace(s@.skip(i as int)) == seq![s@.skip(i as int)[0]]
                    + button_replace(s@.skip(i as int + 1)));
                assert(prev + (c@ + button_replace(s@.skip(i as int + 1))) =~= (prev + c@)
                    + button_replace(s@.skip(i as int + 1)));
            }
            i = i + 1;
        }
    }
    proof {
        assert(s@.skip(n as int) =~= Seq::<char>::empty());
        assert(out@ + Seq::<char>::empty() =~= out@);
    }
    out
}

/// Compile one raw line into its printable form, per `line_ok`.
fn line_to_printable_line(line: &str, width: u16) -> (r: Result<PrintableLine, CatError>)
    ensures
        r matches Ok(pl) ==> line_ok(line@, width as int, pl) && line_fails(line@, width as int)
            is None,
        r matches Err(e) ==> line_fails(line@, width as int) == Some(e),
{
    match find_button_pos(line) {
        Some(i) => {
            let n = line.unicode_len();
            proof {
                assert(line@.skip(i as int).len() == n - i);
                assert(line@.skip(i as int)[7] == line@[i + 7]);
                assert(line@.skip(i as int)[8] == line@[i + 8]);
                assert(line@.skip(i as int)[9] == line@[i + 9]);
                assert(line@.skip(i as int)[10] == line@[i + 10]);
            }
            let d0 = digit_value(line.get_char(i + 7));
            let d1 = digit_value(line.get_char(i + 8));
            let d2 = digit_value(line.get_char(i + 9));
            let d3 = digit_value(line.get_char(i + 10));
            let id: u32 = 1000 * d0 + 100 * d1 + 10 * d2 + d3;
            proof {
                assert(id as int == button_id_spec(line@));
            }
            let replaced = button_replace_str(line);
            match line_to_ansi(replaced.as_str()) {
                Ok(t) => Ok(PrintableLine::Button(id as usize, t)),
                Err(e) => Err(e),
            }
        },
        None => {
            if has_sep_str(line) {
                match generate_line(width, 1) {
                    Ok(t) => Ok(PrintableLine::Text(t)),
                    Err(e) => Err(e),
                }
            } else {
                match line_to_ansi(line) {
                    Ok(t) => Ok(PrintableLine::Text(t)),
                    Err(e) => Err(e),
                }
            }
        },
    }
}

/// The value of one decimal digit.
fn digit_value(c: char) -> (r: u32)
    requires
        is_digit(c),
    ensures
        r == c as int - '0' as int,
        r <= 9,
{
    c as u32 - '0' as u32
}

/// The position of the first line feed at or after `from`, or the end.
fn find_nl_from(s: &str, from: usize) -> (k: usize)
    requires
        from <= s@.len(),
    ensures
        from <= k <= s@.len(),
        forall|j: int| from <= j < k ==> s@[j] != '\n',
        k < s@.len() ==> s@[k as int] == '\n',
        k - from == find_char(s@.skip(from as int), '\n'),
{
    let n = s.unicode_len();
    let mut i: usize = from;
    while i < n
        invariant
            from <= i <= n,
            n == s@.len(),
            forall|j: int| from <= j < i ==> s@[j] != '\n',
        decreases n - i,
    {
        if s.get_char(i) == '\n' {
            proof {
                assert forall|j: int| 0 <= j < i - from implies s@.skip(from as int)[j]
                    != '\n' by {
                    assert(s@.skip(from as int)[j] == s@[from + j]);
                }
                assert(s@.skip(from as int)[i - from] == s@[i as int]);
                lemma_find_char_is(s@.skip(from as int), '\n', i - from);
            }
            return i;
        }
        i = i + 1;
    }
    proof {
        assert forall|j: int| 0 <= j < n - from implies s@.skip(from as int)[j] != '\n' by {
            assert(s@.skip(from as int)[j] == s@[from + j]);
        }
        lemma_find_char_is(s@.skip(from as int), '\n', n - from);
    }
    n
}

/// Compile a whole raw document at a terminal width into its printable
/// lines.  Success is owed exactly when every line compiles; the first
/// failing line, in order, names the error.
pub fn compile_lines(contents: &str, width: u16) -> (r: Result<Vec<PrintableLine>, CatError>)
    ensures
        r matches Ok(v) ==> {
            &&& v@.len() == split_lines(contents@).len()
            &&& forall|i: int|
                0 <= i < v@.len() ==> line_ok(
                    #[trigger] split_lines(contents@)[i],
                    width as int,
                    v@[i],
                )
        },
        r matches Err(e) ==> exists|i: int|
            {
                &&& 0 <= i < split_lines(contents@).len()
                &&& line_fails(#[trigger] split_lines(contents@)[i], width as int) == Some(e)
                &&& forall|j: int|
                    0 <= j < i ==> line_fails(split_lines(contents@)[j], width as int) is None
            },
{
    let n = contents.unicode_len();
    let mut out: Vec<PrintableLine> = Vec::new();
    let ghost mut done: Seq<Seq<char>> = Seq::empty();
    let mut start: usize = 0;
    proof {
        assert(contents@.skip(0) =~= contents@);
        assert(Seq::<Seq<char>>::empty() + split_lines(contents@) =~= split_lines(contents@));
    }
    while start < n
        invariant
            0 <= start <= n,
            n == contents@.len(),
            split_lines(contents@) == done + split_lines(contents@.skip(start as int)),
            out@.len() == done.len(),
            forall|i: int|
                0 <= i < done.len() ==> line_ok(#[trigger] done[i], width as int, out@[i]),
            forall|i: int|
                0 <= i < done.len() ==> line_fails(#[trigger] done[i], width as int) is None,
        decreases n - start,
    {
        let k = find_nl_from(contents, start);
        let end = if k < n && k > start && contents.get_char(k - 1) == '\r' {
            k - 1
        } else {
            k
        };
        let piece = contents.substring_char(start, end);
        let ghost rest = contents@.skip(start as int);
        proof {
            assert(rest.len() > 0);
            assert(find_char(rest, '\n') == k - start);
            if k < n {
                assert(rest.take(k - start) =~= contents@.subrange(start as int, k as int));
                assert(piece@ =~= strip_cr(rest.take(k - start))) by {
                    if k > start && contents@[k - 1] == '\r' {
                        assert(rest.take(k - start)[k - 1 - start] == contents@[k - 1]);
                        assert(rest.take(k - start).take(k - start - 1) =~= contents@.subrange(
                            start as int,
                            k - 1,
                        ));
                    } else {
                        if k > start {
                            assert(rest.take(k - start)[k - 1 - start] == contents@[k - 1]);
                        }
                    }
                }
                assert(rest.skip(k - start + 1) =~= contents@.skip(k as int + 1));
                assert(split_lines(rest) == seq![piece@] + split_lines(
                    contents@.skip(k as int + 1),
                ));
            } else {
                assert(piece@ =~= rest);
                assert(split_lines(rest) == seq![piece@]);
            }
        }
        let pl = match line_to_printable_line(piece, width) {
            Ok(pl) => pl,
            Err(e) => {
                proof {
                    let i = done.len() as int;
                    assert(split_lines(contents@)[i] == split_lines(rest)[0]);
                    assert(split_lines(contents@)[i] == piece@);
                    assert(line_fails(split_lines(contents@)[i], width as int) == Some(e));
                }
                return Err(e);
            },
        };
        out.push(pl);
        proof {
            done = done.push(piece@);
        }
        if k < n {
            start = k + 1;
            proof {
                assert(split_lines(contents@) == done + split_lines(
                    contents@.skip(start as int),
                ));
            }
        } else {
            start = n;
            proof {
                assert(contents@.skip(n as int) =~= Seq::<char>::empty());
                assert(split_lines(contents@.skip(start as int)) =~= Seq::<Seq<char>>::empty());
                assert(split_lines(contents@) == done + split_lines(
                    contents@.skip(start as int),
                ));
            }
        }
    }
    proof {
        assert(contents@.skip(n as int) =~= Seq::<char>::empty());
        assert(split_lines(contents@) =~= done);
    }
    Ok(out)
}

/// Compile one markup line into its escape-coded output, per
/// `line_ansi_spec`: text before the first delimiter is discarded, and a
/// line without one compiles to the empty string.
pub fn line_to_ansi(line: &str) -> (r: Result<String, CatError>)
    ensures
        r matches Ok(s) ==> line_ansi_spec(line@) == Ok::<Seq<char>, CatError>(s@),
        r matches Err(e) ==> line_ansi_spec(line@) == Err::<Seq<char>, CatError>(e),
        r is Ok <==> line_ansi_spec(line@) is Ok,
{
    let n = line.unicode_len();
    let k = find_tilde_pos(line);
    if k == n {
        Ok(String::new())
    } else {
        let rest = line.substring_char(k + 1, n);
        proof {
            assert(rest@ =~= line@.skip(k + 1));
        }
        compile_segments(rest)
    }
}

} // verus!
