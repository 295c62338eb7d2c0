//! ANSI color codes and string coloring helpers.
//!
//! A from-scratch implementation: constants for the escape bracket,
//! enums for colors and control codes, and builders that wrap text in
//! escape sequences. [`visible_len`] and [`remove_ansi_formatting`]
//! understand the escape grammar `ESC [ [0-9;]* m` and measure or strip
//! accordingly.

use crate::chars::chars_of;
use vstd::prelude::*;
use vstd::string::StringExecFns;

verus! {

/// Common ANSI control codes.
#[derive(Clone, Copy, Debug, PartialEq, Eq, Structural)]
pub enum AnsiCC {
    Clear,
    Bold,
    Faint,
    Italic,
    Underline,
    Blink,
    BlinkFast,
    Inverse,
    Conceal,
    Crossout,
    NoBold,
    Normal,
    NoItalic,
    NoUnderline,
    NoBlink,
    NoInverse,
    NoConceal,
    NoCrossout,
}

/// The numeric value of a control code.
pub open spec fn spec_cc(c: AnsiCC) -> u8 {
    match c {
        AnsiCC::Clear => 0,
        AnsiCC::Bold => 1,
        AnsiCC::Faint => 2,
        AnsiCC::Italic => 3,
        AnsiCC::Underline => 4,
        AnsiCC::Blink => 5,
        AnsiCC::BlinkFast => 6,
        AnsiCC::Inverse => 7,
        AnsiCC::Conceal => 8,
        AnsiCC::Crossout => 9,
        AnsiCC::NoBold => 21,
        AnsiCC::Normal => 22,
        AnsiCC::NoItalic => 23,
        AnsiCC::NoUnderline => 24,
        AnsiCC::NoBlink => 25,
        AnsiCC::NoInverse => 27,
        AnsiCC::NoConceal => 28,
        AnsiCC::NoCrossout => 29,
    }
}

impl AnsiCC {
    /// The numeric value sent in the escape sequence.
    pub fn code(self) -> (r: u8)
        ensures
            r == spec_cc(self),
    {
        match self {
            AnsiCC::Clear => 0,
            AnsiCC::Bold => 1,
            AnsiCC::Faint => 2,
            AnsiCC::Italic => 3,
            AnsiCC::Underline => 4,
            AnsiCC::Blink => 5,
            AnsiCC::BlinkFast => 6,
            AnsiCC::Inverse => 7,
            AnsiCC::Conceal => 8,
            AnsiCC::Crossout => 9,
            AnsiCC::NoBold => 21,
            AnsiCC::Normal => 22,
            AnsiCC::NoItalic => 23,
            AnsiCC::NoUnderline => 24,
            AnsiCC::NoBlink => 25,
            AnsiCC::NoInverse => 27,
            AnsiCC::NoConceal => 28,
            AnsiCC::NoCrossout => 29,
        }
    }
}

/// ANSI foreground color codes (the background code is this plus 10).
#[derive(Clone, Copy, Debug, PartialEq, Eq, Structural)]
pub enum AnsiColor {
    Black,
    Red,
    Green,
    Yellow,
    Blue,
    Magenta,
    Cyan,
    White,
    RedBright,
    GreenBright,
    YellowBright,
    BlueBright,
    MagentaBright,
    CyanBright,
    WhiteBright,
}

/// The numeric foreground value of a color.
pub open spec fn spec_fg(c: AnsiColor) -> u8 {
    match c {
        AnsiColor::Black => 30,
        AnsiColor::Red => 31,
        AnsiColor::Green => 32,
        AnsiColor::Yellow => 33,
        AnsiColor::Blue => 34,
        AnsiColor::Magenta => 35,
        AnsiColor::Cyan => 36,
        AnsiColor::White => 37,
        AnsiColor::RedBright => 91,
        AnsiColor::GreenBright => 92,
        AnsiColor::YellowBright => 93,
        AnsiColor::BlueBright => 94,
        AnsiColor::MagentaBright => 95,
        AnsiColor::CyanBright => 96,
        AnsiColor::WhiteBright => 97,
    }
}

impl AnsiColor {
    /// The foreground code of this color.
    pub fn code(self) -> (r: u8)
        ensures
            r == spec_fg(self),
    {
        match self {
            AnsiColor::Black => 30,
            AnsiColor::Red => 31,
            AnsiColor::Green => 32,
            AnsiColor::Yellow => 33,
            AnsiColor::Blue => 34,
            AnsiColor::Magenta => 35,
            AnsiColor::Cyan => 36,
            AnsiColor::White => 37,
            AnsiColor::RedBright => 91,
            AnsiColor::GreenBright => 92,
            AnsiColor::YellowBright => 93,
            AnsiColor::BlueBright => 94,
            AnsiColor::MagentaBright => 95,
            AnsiColor::CyanBright => 96,
            AnsiColor::WhiteBright => 97,
        }
    }

    /// The background code of this color: the foreground code plus 10.
    pub fn bg(self) -> (r: u8)
        ensures
            r == spec_fg(self) + 10,
    {
        self.code() + 10
    }
}

/// The decimal digit `d` as a character.
pub open spec fn dec_digit(d: int) -> char {
    if d == 0 {
        '0'
    } else if d == 1 {
        '1'
    } else if d == 2 {
        '2'
    } else if d == 3 {
        '3'
    } else if d == 4 {
        '4'
    } else if d == 5 {
        '5'
    } else if d == 6 {
        '6'
    } else if d == 7 {
        '7'
    } else if d == 8 {
        '8'
    } else {
        '9'
    }
}

/// The decimal text of a byte value, without leading zeros.
pub open spec fn dec_str(v: int) -> Seq<char> {
    if v < 10 {
        seq![dec_digit(v)]
    } else if v < 100 {
        seq![dec_digit(v / 10), dec_digit(v % 10)]
    } else {
        seq![dec_digit(v / 100), dec_digit((v / 10) % 10), dec_digit(v % 10)]
    }
}

/// The escape bracket that starts every sequence.
pub open spec fn ansi_beg() -> Seq<char> {
    seq!['\u{1b}', '[']
}

/// The full clear sequence.
pub open spec fn clr_seq() -> Seq<char> {
    seq!['\u{1b}', '[', '0', 'm']
}

/// Codes joined with ';' separators, in decimal.
pub open spec fn codes_join(codes: Seq<u8>) -> Seq<char>
    decreases codes.len(),
{
    if codes.len() == 0 {
        Seq::<char>::empty()
    } else if codes.len() == 1 {
        dec_str(codes[0] as int)
    } else {
        codes_join(codes.drop_last()) + seq![';'] + dec_str(codes.last() as int)
    }
}

/// Text wrapped in the escape sequence for `codes` (unchanged when there
/// are none), ending with the clear sequence.
pub open spec fn ansi_wrap(text: Seq<char>, codes: Seq<u8>) -> Seq<char> {
    if codes.len() == 0 {
        text
    } else {
        ansi_beg() + codes_join(codes) + seq!['m'] + text + clr_seq()
    }
}

/// The digit `d` as a one-character string.
fn digit_str(d: u8) -> (r: &'static str)
    requires
        d < 10,
    ensures
        r@ == seq![dec_digit(d as int)],
{
    proof {
        reveal_strlit("0");
        reveal_strlit("1");
        reveal_strlit("2");
        reveal_strlit("3");
        reveal_strlit("4");
        reveal_strlit("5");
        reveal_strlit("6");
        reveal_strlit("7");
        reveal_strlit("8");
        reveal_strlit("9");
    }
    match d {
        0 => "0",
        1 => "1",
        2 => "2",
        3 => "3",
        4 => "4",
        5 => "5",
        6 => "6",
        7 => "7",
        8 => "8",
        _ => "9",
    }
}

/// Append the decimal text of `v` to `out`.
fn push_decimal(out: &mut String, v: u8)
    ensures
        final(out)@ == old(out)@ + dec_str(v as int),
{
    if v < 10 {
        out.append(digit_str(v));
    } else if v < 100 {
        out.append(digit_str(v / 10));
        out.append(digit_str(v % 10));
    } else {
        out.append(digit_str(v / 100));
        out.append(digit_str((v / 10) % 100 % 10));
        out.append(digit_str(v % 10));
    }
    proof {
        assert(final(out)@ =~= old(out)@ + dec_str(v as int));
    }
}

/// Append the escape bracket to `out`.
fn push_ansi_beg(out: &mut String)
    ensures
        final(out)@ == old(out)@ + ansi_beg(),
{
    proof {
        reveal_strlit("\u{1b}[");
    }
    out.append("\u{1b}[");
    proof {
        assert(final(out)@ =~= old(out)@ + ansi_beg());
    }
}

/// The full ANSI clear string.
pub fn ansi_clear() -> (r: String)
    ensures
        r@ == clr_seq(),
{
    proof {
        reveal_strlit("\u{1b}[0m");
    }
    let s: String = String::from_str("\u{1b}[0m");
    proof {
        assert(s@ =~= clr_seq());
    }
    s
}

/// A single-code escape sequence.
pub fn ansi_code(code: u8) -> (r: String)
    ensures
        r@ == ansi_beg() + dec_str(code as int) + seq!['m'],
{
    let mut s: String = String::new();
    push_ansi_beg(&mut s);
    push_decimal(&mut s, code);
    proof {
        reveal_strlit("m");
    }
    s.append("m");
    proof {
        assert(s@ =~= ansi_beg() + dec_str(code as int) + seq!['m']);
    }
    s
}

/// An 8-bit foreground color escape sequence (`38;5;code`).
pub fn ansi_8bit(code: u8) -> (r: String)
    ensures
        r@ == ansi_beg() + dec_str(38) + seq![';'] + dec_str(5) + seq![';'] + dec_str(
            code as int,
        ) + seq!['m'],
{
    let mut s: String = String::new();
    push_ansi_beg(&mut s);
    push_decimal(&mut s, 38);
    proof {
        reveal_strlit(";");
        reveal_strlit("m");
    }
    s.append(";");
    push_decimal(&mut s, 5);
    s.append(";");
    push_decimal(&mut s, code);
    s.append("m");
    proof {
        assert(s@ =~= ansi_beg() + dec_str(38) + seq![';'] + dec_str(5) + seq![';'] + dec_str(
            code as int,
        ) + seq!['m']);
    }
    s
}

/// An RGB foreground color escape sequence (`38;2;r;g;b`).
pub fn ansi_rgb(r: u8, g: u8, b: u8) -> (out: String)
    ensures
        out@ == ansi_beg() + dec_str(38) + seq![';'] + dec_str(2) + seq![';'] + dec_str(r as int)
            + seq![';'] + dec_str(g as int) + seq![';'] + dec_str(b as int) + seq!['m'],
{
    let mut s: String = String::new();
    push_ansi_beg(&mut s);
    push_decimal(&mut s, 38);
    proof {
        reveal_strlit(";");
        reveal_strlit("m");
    }
    s.append(";");
    push_decimal(&mut s, 2);
    s.append(";");
    push_decimal(&mut s, r);
    s.append(";");
    push_decimal(&mut s, g);
    s.append(";");
    push_decimal(&mut s, b);
    s.append("m");
    proof {
        assert(s@ =~= ansi_beg() + dec_str(38) + seq![';'] + dec_str(2) + seq![';'] + dec_str(
            r as int,
        ) + seq![';'] + dec_str(g as int) + seq![';'] + dec_str(b as int) + seq!['m']);
    }
    s
}

/// Text colored orange, using 8-bit color 208.
pub fn orange(s: &str) -> (r: String)
    ensures
        r@ == ansi_beg() + dec_str(38) + seq![';'] + dec_str(5) + seq![';'] + dec_str(208) + seq![
            'm',
        ] + s@ + clr_seq(),
{
    let mut out: String = ansi_8bit(208);
    out.append(s);
    let clear: String = ansi_clear();
    out.append(clear.as_str());
    proof {
        assert(out@ =~= ansi_beg() + dec_str(38) + seq![';'] + dec_str(5) + seq![';'] + dec_str(
            208,
        ) + seq!['m'] + s@ + clr_seq());
    }
    out
}

/// Combine a foreground color, an optional background color and optional
/// further control codes into one escape sequence.
pub fn combine_codes(fg: AnsiColor, bg: Option<AnsiColor>, cc: Option<Vec<u8>>) -> (r: String)
    ensures
        ({
            let codes = seq![spec_fg(fg)] + (match bg {
                Some(b) => seq![(spec_fg(b) + 10) as u8],
                None => Seq::<u8>::empty(),
            }) + (match cc {
                Some(c) => c@,
                None => Seq::<u8>::empty(),
            });
            r@ == ansi_beg() + codes_join(codes) + seq!['m']
        }),
{
    let mut codes: Vec<u8> = Vec::new();
    codes.push(fg.code());
    match bg {
        Some(b) => {
            codes.push(b.bg());
        },
        None => {},
    }
    match &cc {
        Some(c) => {
            let ghost base = codes@;
            let mut i: usize = 0;
            while i < c.len()
                invariant
                    i <= c@.len(),
                    codes@ == base + c@.take(i as int),
                decreases c@.len() - i,
            {
                codes.push(c[i]);
                i = i + 1;
                proof {
                    assert(codes@ =~= base + c@.take(i as int));
                }
            }
            proof {
                assert(c@.take(c@.len() as int) =~= c@);
            }
        },
        None => {},
    }
    let r: String = codes_to_escape(&codes);
    proof {
        assert(codes@ =~= seq![spec_fg(fg)] + (match bg {
            Some(b) => seq![(spec_fg(b) + 10) as u8],
            None => Seq::<u8>::empty(),
        }) + (match cc {
            Some(c2) => c2@,
            None => Seq::<u8>::empty(),
        }));
    }
    r
}

/// The escape sequence for a list of codes.
fn codes_to_escape(codes: &Vec<u8>) -> (r: String)
    requires
        codes@.len() >= 1,
    ensures
        r@ == ansi_beg() + codes_join(codes@) + seq!['m'],
{
    let mut s: String = String::new();
    push_ansi_beg(&mut s);
    let mut i: usize = 0;
    proof {
        reveal_strlit(";");
        reveal_strlit("m");
    }
    while i < codes.len()
        invariant
            i <= codes@.len(),
            s@ == ansi_beg() + codes_join(codes@.take(i as int)),
        decreases codes@.len() - i,
    {
        if i > 0 {
            s.append(";");
        }
        push_decimal(&mut s, codes[i]);
        i = i + 1;
        proof {
            reveal_strlit(";");
            let cur = codes@.take(i as int);
            assert(cur.len() == i);
            assert(cur.drop_last() =~= codes@.take(i - 1));
            assert(cur.last() == codes@[i - 1]);
            assert(s@ =~= ansi_beg() + codes_join(cur));
        }
    }
    proof {
        reveal_strlit("m");
    }
    s.append("m");
    proof {
        assert(codes@.take(codes@.len() as int) =~= codes@);
        assert(s@ =~= ansi_beg() + codes_join(codes@) + seq!['m']);
    }
    s
}

/// Builder for ANSI-formatted strings, so that codes can be stacked
/// before the escape text is produced.
#[derive(Clone, Debug)]
pub struct AnsiString {
    /// The text to be wrapped.
    pub text: String,
    /// The codes to wrap it in, in order.
    pub codes: Vec<u8>,
}

impl AnsiString {
    /// A builder for `text` with no codes yet.
    pub fn new(text: &str) -> (r: Self)
        ensures
            r.text@ == text@,
            r.codes@ == Seq::<u8>::empty(),
    {
        let r = Self { text: text.to_owned(), codes: Vec::new() };
        proof {
            assert(r.codes@ =~= Seq::<u8>::empty());
        }
        r
    }

    /// The builder with a control code added.
    pub fn with_code(self, code: AnsiCC) -> (r: Self)
        ensures
            r.text@ == self.text@,
            r.codes@ == self.codes@.push(spec_cc(code)),
    {
        let mut codes = self.codes;
        codes.push(code.code());
        Self { text: self.text, codes }
    }

    /// The builder with a foreground color added.
    pub fn with_fg(self, color: AnsiColor) -> (r: Self)
        ensures
            r.text@ == self.text@,
            r.codes@ == self.codes@.push(spec_fg(color)),
    {
        let mut codes = self.codes;
        codes.push(color.code());
        Self { text: self.text, codes }
    }

    /// The builder with a background color added.
    pub fn with_bg(self, color: AnsiColor) -> (r: Self)
        ensures
            r.text@ == self.text@,
            r.codes@ == self.codes@.push((spec_fg(color) + 10) as u8),
    {
        let mut codes = self.codes;
        codes.push(color.bg());
        Self { text: self.text, codes }
    }

    /// The finished string: the text wrapped in the collected codes, or
    /// the bare text when no code was added.
    pub fn build(&self) -> (r: String)
        ensures
            r@ == ansi_wrap(self.text@, self.codes@),
    {
        if self.codes.len() == 0 {
            return self.text.clone();
        }
        let mut s: String = codes_to_escape(&self.codes);
        s.append(self.text.as_str());
        let clear: String = ansi_clear();
        s.append(clear.as_str());
        proof {
            assert(s@ =~= ansi_wrap(self.text@, self.codes@));
        }
        s
    }
}

/// A character that may appear between the bracket and the final 'm' of
/// a color escape sequence: a decimal digit or ';'.
pub open spec fn is_code_char(c: char) -> bool {
    ('0' <= c && c <= '9') || c == ';'
}

/// Length of the leading run of code characters in `s`.
pub open spec fn code_run(s: Seq<char>) -> int
    decreases s.len(),
{
    if s.len() == 0 {
        0
    } else if is_code_char(s[0]) {
        1 + code_run(s.drop_first())
    } else {
        0
    }
}

proof fn lemma_code_run_unique(s: Seq<char>, k: int)
    requires
        0 <= k <= s.len(),
        forall|j: int| 0 <= j < k ==> is_code_char(#[trigger] s[j]),
        k < s.len() ==> !is_code_char(s[k]),
    ensures
        k == code_run(s),
    decreases s.len(),
{
    if s.len() > 0 && is_code_char(s[0]) {
        lemma_code_run_unique(s.drop_first(), k - 1);
    }
}

/// Length of the escape sequence starting at the head of `s`, if the
/// head is one: `ESC [ [0-9;]* m`.
pub open spec fn ansi_seq_len(s: Seq<char>) -> Option<int> {
    if s.len() >= 2 && s[0] == '\u{1b}' && s[1] == '[' {
        let j = 2 + code_run(s.subrange(2, s.len() as int));
        if j < s.len() && s[j] == 'm' {
            Some(j + 1)
        } else {
            None
        }
    } else {
        None
    }
}

/// Number of characters of `s` visible on the terminal: everything but
/// the color escape sequences.
pub open spec fn spec_visible_len(s: Seq<char>) -> int
    decreases s.len(),
{
    if s.len() == 0 {
        0
    } else {
        match ansi_seq_len(s) {
            Some(k) => if 0 < k <= s.len() {
                spec_visible_len(s.subrange(k, s.len() as int))
            } else {
                0
            },
            None => 1 + spec_visible_len(s.drop_first()),
        }
    }
}

/// The visible length of a string: its character count with all color
/// escape sequences removed.
pub fn visible_len(s: &str) -> (r: usize)
    ensures
        r == spec_visible_len(s@),
{
    let v: Vec<char> = chars_of(s);
    let n: usize = v.len();
    proof {
        assert(v@.subrange(0, n as int) =~= v@);
    }
    let mut count: usize = 0;
    let mut i: usize = 0;
    while i < n
        invariant
            count <= i <= n == v@.len(),
            v@ == s@,
            spec_visible_len(v@) == count + spec_visible_len(v@.subrange(i as int, n as int)),
        decreases n - i,
    {
        let ghost tail = v@.subrange(i as int, n as int);
        if v[i] == '\u{1b}' && i + 1 < n && v[i + 1] == '[' {
            let mut j: usize = i + 2;
            while j < n && (v[j] == ';' || (v[j] >= '0' && v[j] <= '9'))
                invariant
                    i + 2 <= j <= n == v@.len(),
                    forall|t: int| i + 2 <= t < j ==> is_code_char(#[trigger] v@[t]),
                decreases n - j,
            {
                j = j + 1;
            }
            proof {
                let run = tail.subrange(2, tail.len() as int);
                assert forall|t: int| 0 <= t < j - i - 2 implies is_code_char(
                    #[trigger] run[t],
                ) by {
                    assert(run[t] == v@[i + 2 + t]);
                }
                if j < n {
                    assert(run[j - i - 2] == v@[j as int]);
                }
                lemma_code_run_unique(run, j - (i + 2));
            }
            if j < n && v[j] == 'm' {
                proof {
                    assert(tail[j - i] == v@[j as int]);
                    assert(ansi_seq_len(tail) == Some(j + 1 - i));
                    assert(tail.subrange(j + 1 - i, tail.len() as int) =~= v@.subrange(
                        j + 1,
                        n as int,
                    ));
                }
                i = j + 1;
            } else {
                proof {
                    assert(ansi_seq_len(tail) is None);
                    assert(tail.drop_first() =~= v@.subrange(i + 1, n as int));
                }
                count = count + 1;
                i = i + 1;
            }
        } else {
            proof {
                if tail.len() >= 2 {
                    assert(tail[0] == v@[i as int]);
                    assert(tail[1] == v@[i + 1]);
                }
                assert(ansi_seq_len(tail) is None);
                assert(tail.drop_first() =~= v@.subrange(i + 1, n as int));
            }
            count = count + 1;
            i = i + 1;
        }
    }
    proof {
        assert(v@.subrange(n as int, n as int) =~= Seq::<char>::empty());
    }
    count
}

/// Whether `s` starts with a color escape sequence that carries at least
/// one code character (the form the leading-strip looks for).
pub open spec fn has_leading_escape(s: Seq<char>) -> bool {
    ansi_seq_len(s) matches Some(k) && k >= 4
}

/// Whether `s` ends with the clear sequence.
pub open spec fn has_trailing_clear(s: Seq<char>) -> bool {
    s.len() >= 4 && s.subrange(s.len() - 4, s.len() as int) == clr_seq()
}

/// `s` with a leading escape sequence (if any) and a trailing clear
/// sequence (if any) removed.
pub open spec fn spec_without_ansi(s: Seq<char>) -> Seq<char> {
    let mid = if has_leading_escape(s) {
        s.subrange(ansi_seq_len(s)->0, s.len() as int)
    } else {
        s
    };
    if has_trailing_clear(mid) {
        mid.subrange(0, mid.len() - 4)
    } else {
        mid
    }
}

/// Strip a leading color escape sequence and a trailing clear sequence
/// from `text`; the second component carries the code characters of the
/// stripped leading sequence, if there was one.
pub fn remove_ansi_formatting(text: &str) -> (r: (String, Option<String>))
    ensures
        r.0@ == spec_without_ansi(text@),
        has_leading_escape(text@) ==> (r.1 matches Some(d) && d@ == text@.subrange(
            2,
            ansi_seq_len(text@)->0 - 1,
        )),
        !has_leading_escape(text@) ==> r.1 is None,
{
    let v: Vec<char> = chars_of(text);
    let n: usize = v.len();
    let mut start: usize = 0;
    let mut digits: Option<String> = None;
    if n >= 2 && v[0] == '\u{1b}' && v[1] == '[' {
        let mut j: usize = 2;
        while j < n && (v[j] == ';' || (v[j] >= '0' && v[j] <= '9'))
            invariant
                2 <= j <= n == v@.len(),
                forall|t: int| 2 <= t < j ==> is_code_char(#[trigger] v@[t]),
            decreases n - j,
        {
            j = j + 1;
        }
        proof {
            let run = v@.subrange(2, n as int);
            assert forall|t: int| 0 <= t < j - 2 implies is_code_char(#[trigger] run[t]) by {
                assert(run[t] == v@[2 + t]);
            }
            if j < n {
                assert(run[j - 2] == v@[j as int]);
            }
            lemma_code_run_unique(run, j - 2);
        }
        if j < n && v[j] == 'm' && j >= 3 {
            proof {
                assert(ansi_seq_len(v@) == Some(j + 1 as int));
            }
            start = j + 1;
            digits = Some(text.substring_char(2, j).to_owned());
        } else {
            proof {
                assert(!has_leading_escape(v@));
            }
        }
    } else {
        proof {
            if v@.len() >= 2 {
                assert(v@[0] == '\u{1b}' && v@[1] == '[' ==> false);
            }
            assert(!has_leading_escape(v@));
        }
    }
    let mut end: usize = n;
    if n - start >= 4 && v[n - 4] == '\u{1b}' && v[n - 3] == '[' && v[n - 2] == '0' && v[n - 1]
        == 'm' {
        proof {
            let mid = v@.subrange(start as int, n as int);
            assert(mid.subrange(mid.len() - 4, mid.len() as int) =~= clr_seq());
        }
        end = n - 4;
    } else {
        proof {
            let mid = v@.subrange(start as int, n as int);
            if mid.len() >= 4 {
                assert(mid.subrange(mid.len() - 4, mid.len() as int) == clr_seq() ==> {
                    &&& mid[mid.len() - 4] == '\u{1b}'
                    &&& mid[mid.len() - 3] == '['
                    &&& mid[mid.len() - 2] == '0'
                    &&& mid[mid.len() - 1] == 'm'
                }) by {
                    if mid.subrange(mid.len() - 4, mid.len() as int) == clr_seq() {
                        assert(mid.subrange(mid.len() - 4, mid.len() as int)[0] == '\u{1b}');
                        assert(mid.subrange(mid.len() - 4, mid.len() as int)[1] == '[');
                        assert(mid.subrange(mid.len() - 4, mid.len() as int)[2] == '0');
                        assert(mid.subrange(mid.len() - 4, mid.len() as int)[3] == 'm');
                    }
                }
                assert(!has_trailing_clear(mid));
            }
        }
    }
    let cleaned: String = text.substring_char(start, end).to_owned();
    proof {
        let mid = v@.subrange(start as int, n as int);
        assert(v@.subrange(start as int, end as int) =~= (if has_trailing_clear(mid) {
            mid.subrange(0, mid.len() - 4)
        } else {
            mid
        }));
        if !has_leading_escape(v@) {
            assert(v@.subrange(0, n as int) =~= v@);
        }
    }
    (cleaned, digits)
}

/// A color given as a basic ANSI color, an 8-bit palette index, or an
/// RGB triple.
#[derive(Debug, Clone, Copy)]
enum Color {
    Basic(AnsiColor),
    EightBit(u8),
    Rgb(u8, u8, u8),
}

/// A piece of text: owned, borrowed, styled, or a style reset.
#[derive(Debug, Clone)]
enum TextElement<'a> {
    Plain(String),
    Loan(&'a str),
    Styled(StyledElement),
    StyleClear,
}

/// A styled piece of text: the text with optional foreground and
/// background colors and a bit set of style flags.
#[derive(Debug, Clone)]
pub struct StyledElement {
    s: String,
    fg: Option<Color>,
    bg: Option<Color>,
    styles: u32,
}

/// A row of text elements with an optional column separator.
#[derive(Debug, Clone)]
pub struct StyledTableRow<'a> {
    items: Vec<TextElement<'a>>,
    colsep: Option<String>,
}

/// A table of styled rows with an optional header and cached widths.
#[derive(Debug, Clone)]
pub struct StyledTable<'a> {
    hdr: Option<StyledTableRow<'a>>,
    rows: Vec<StyledTableRow<'a>>,
    widths: Vec<usize>,
}

/// What the output is rendered for.
#[derive(Debug, Clone, Copy)]
enum Canvas {
    Console,
    Curses,
    Textarea,
    Plain,
    Unformatted,
    FileLike,
}

/// A line of text elements with an optional separator between them.
#[derive(Debug, Clone)]
pub struct StyledString<'a> {
    elems: Vec<TextElement<'a>>,
    sep: Option<String>,
}

/// Lines of styled text destined for one kind of output.
#[derive(Debug, Clone)]
pub struct StyledCanvas<'a> {
    kind: Canvas,
    lines: Vec<StyledString<'a>>,
}

} // verus!
