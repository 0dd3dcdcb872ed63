//! Turning the ANSI sequences of an output line into styled segments.
//!
//! A project's hooks are scripts: they colour their messages, and so do `docker`,
//! `cargo` and `npm`. Without interpretation the panel would literally show
//! `[36m…[0m`. Non-graphic sequences (cursor movement, erasing) are dropped: they make
//! no sense in a list of lines.
//!
//! Styles are those of the terminal interface (a foreground, a background, an underline
//! colour, modifiers added and removed), held here as plain values.

use vstd::prelude::*;

use crate::text::{
    all_digits, chars_of, control, digits_value, is_control, lemma_digits_grow, lemma_next_char,
    lemma_not_a_number, next_char, number, slice, string_of, trim, trim_end, trim_start, trimmed, unsigned, white_space,
};

verus! {

/// A colour of the terminal interface.
#[derive(Debug, Clone, Copy, PartialEq, Eq, Structural)]
pub enum Color {
    Reset,
    Black,
    Red,
    Green,
    Yellow,
    Blue,
    Magenta,
    Cyan,
    Gray,
    DarkGray,
    LightRed,
    LightGreen,
    LightYellow,
    LightBlue,
    LightMagenta,
    LightCyan,
    White,
    Rgb(u8, u8, u8),
    Indexed(u8),
}

pub const BOLD: u16 = 1;
pub const DIM: u16 = 2;
pub const ITALIC: u16 = 4;
pub const UNDERLINED: u16 = 8;
pub const REVERSED: u16 = 64;

/// A text style: colours, and the modifiers it adds and removes (bits: bold 1, dim 2,
/// italic 4, underlined 8, slow blink 16, rapid blink 32, reversed 64, hidden 128,
/// crossed out 256).
#[derive(Debug, Clone, Copy, PartialEq, Eq, Structural)]
pub struct Style {
    pub fg: Option<Color>,
    pub bg: Option<Color>,
    pub underline_color: Option<Color>,
    pub add_modifier: u16,
    pub sub_modifier: u16,
}

/// A piece of a line in one style.
#[derive(Debug)]
pub struct Span {
    pub content: String,
    pub style: Style,
}

/// The style with foreground `c`.
pub open spec fn with_fg(st: Style, c: Color) -> Style {
    Style { fg: Some(c), ..st }
}

/// The style with background `c`.
pub open spec fn with_bg(st: Style, c: Color) -> Style {
    Style { bg: Some(c), ..st }
}

/// The style with modifiers `m` added.
pub open spec fn adding(st: Style, m: u16) -> Style {
    Style { add_modifier: st.add_modifier | m, sub_modifier: st.sub_modifier & !m, ..st }
}

/// The style with modifiers `m` removed.
pub open spec fn removing(st: Style, m: u16) -> Style {
    Style { add_modifier: st.add_modifier & !m, sub_modifier: st.sub_modifier | m, ..st }
}

/// Colours 30–37 and 40–47.
pub open spec fn basic(n: u8) -> Color {
    if n == 0 {
        Color::Black
    } else if n == 1 {
        Color::Red
    } else if n == 2 {
        Color::Green
    } else if n == 3 {
        Color::Yellow
    } else if n == 4 {
        Color::Blue
    } else if n == 5 {
        Color::Magenta
    } else if n == 6 {
        Color::Cyan
    } else {
        Color::Gray
    }
}

/// Colours 90–97 and 100–107.
pub open spec fn bright(n: u8) -> Color {
    if n == 0 {
        Color::DarkGray
    } else if n == 1 {
        Color::LightRed
    } else if n == 2 {
        Color::LightGreen
    } else if n == 3 {
        Color::LightYellow
    } else if n == 4 {
        Color::LightBlue
    } else if n == 5 {
        Color::LightMagenta
    } else if n == 6 {
        Color::LightCyan
    } else {
        Color::White
    }
}

/// One SGR code other than an extended colour, applied to `st`.
pub open spec fn sgr_code(st: Style, base: Style, c: u8) -> Style {
    if c == 0 {
        base
    } else if c == 1 {
        adding(st, BOLD)
    } else if c == 2 {
        adding(st, DIM)
    } else if c == 3 {
        adding(st, ITALIC)
    } else if c == 4 {
        adding(st, UNDERLINED)
    } else if c == 7 {
        adding(st, REVERSED)
    } else if c == 22 {
        removing(st, BOLD | DIM)
    } else if c == 23 {
        removing(st, ITALIC)
    } else if c == 24 {
        removing(st, UNDERLINED)
    } else if c == 27 {
        removing(st, REVERSED)
    } else if 30 <= c <= 37 {
        with_fg(st, basic((c - 30) as u8))
    } else if 90 <= c <= 97 {
        with_fg(st, bright((c - 90) as u8))
    } else if 40 <= c <= 47 {
        with_bg(st, basic((c - 40) as u8))
    } else if 100 <= c <= 107 {
        with_bg(st, bright((c - 100) as u8))
    } else if c == 39 {
        Style { fg: base.fg, ..st }
    } else if c == 49 {
        Style { bg: base.bg, ..st }
    } else {
        st
    }
}

/// An extended colour from the codes following `38` or `48`: `5;n` (256 palette) or
/// `2;r;g;b`, and how many codes it takes.
pub open spec fn extended(rest: Seq<u8>) -> (Option<Color>, int) {
    if rest.len() == 0 {
        (None, 0)
    } else if rest[0] == 5 {
        (if rest.len() > 1 { Some(Color::Indexed(rest[1])) } else { None }, 2)
    } else if rest[0] == 2 {
        if rest.len() > 3 {
            (Some(Color::Rgb(rest[1], rest[2], rest[3])), 4)
        } else {
            (None, rest.len() as int)
        }
    } else {
        (None, 0)
    }
}

/// The codes from `i` on applied to `st`.
pub open spec fn sgr_codes(codes: Seq<u8>, i: int, st: Style, base: Style) -> Style
    decreases codes.len() + 1 - i,
{
    if i < 0 || i >= codes.len() {
        st
    } else if codes[i] == 38 || codes[i] == 48 {
        let (color, used) = extended(codes.skip(i + 1));
        let next = match color {
            Some(c) => if codes[i] == 38 {
                with_fg(st, c)
            } else {
                with_bg(st, c)
            },
            None => st,
        };
        sgr_codes(codes, i + used + 1, next, base)
    } else {
        sgr_codes(codes, i + 1, sgr_code(st, base, codes[i]), base)
    }
}

/// The pieces of `s` between the `sep`s (`str::split`): one more than there are
/// separators.
pub open spec fn pieces(s: Seq<char>, sep: char) -> Seq<Seq<char>>
    decreases s.len(),
{
    let i = next_char(s, sep, 0);
    if i >= s.len() {
        seq![s]
    } else {
        proof {
            lemma_next_char(s, sep, 0);
        }
        seq![s.take(i)] + pieces(s.skip(i + 1), sep)
    }
}

/// A parameter's code: its number when it is one from 0 to 255 (spaces around
/// allowed), 0 otherwise.
pub open spec fn code_of(p: Seq<char>) -> u8 {
    match number(trim(p)) {
        Some(n) => if n <= 255 {
            n as u8
        } else {
            0
        },
        None => 0,
    }
}

/// The style an SGR sequence `ESC[<params>m` leaves: `ESC[m` is `ESC[0m`, a return to
/// the base style; otherwise each `;`-separated code in turn.
pub open spec fn sgr(st: Style, base: Style, params: Seq<char>) -> Style {
    if params.len() == 0 {
        base
    } else {
        sgr_codes(pieces(params, ';').map_values(|p: Seq<char>| code_of(p)), 0, st, base)
    }
}

/// The index of the character that ends a CSI sequence (a letter or `~`), from `i` on.
pub open spec fn csi_end(s: Seq<char>, i: int) -> int
    decreases s.len() - i,
{
    if i < 0 || i >= s.len() {
        s.len() as int
    } else if ('a' <= s[i] <= 'z') || ('A' <= s[i] <= 'Z') || s[i] == '~' {
        i
    } else {
        csi_end(s, i + 1)
    }
}

/// Where an OSC sequence begun before `i` ends: after a BEL, or after `ESC \`.
pub open spec fn osc_end(s: Seq<char>, i: int) -> int
    decreases s.len() - i,
{
    if i < 0 || i >= s.len() {
        s.len() as int
    } else if s[i] == '\x07' {
        i + 1
    } else if s[i] == '\x1b' && i + 1 < s.len() && s[i + 1] == '\\' {
        i + 2
    } else {
        osc_end(s, i + 1)
    }
}

/// What a character outside a sequence shows: a tab four spaces (a literal tab breaks
/// the alignment), a control character nothing.
pub open spec fn shown(c: char) -> Seq<char> {
    if c == '\t' {
        seq![' ', ' ', ' ', ' ']
    } else if control(c) {
        Seq::empty()
    } else {
        seq![c]
    }
}

/// The pending text, as a segment when there is any.
pub open spec fn flushed(acc: Seq<(Seq<char>, Style)>, text: Seq<char>, st: Style) -> Seq<(Seq<char>, Style)> {
    if text.len() > 0 {
        acc.push((text, st))
    } else {
        acc
    }
}

/// The segments of `s` from `i` on, after `acc`, the current style being `st` and the
/// text not yet in a segment `text`.
pub open spec fn segments_from(s: Seq<char>, i: int, base: Style, st: Style, text: Seq<char>, acc: Seq<(Seq<char>, Style)>) -> Seq<(Seq<char>, Style)>
    decreases s.len() + 1 - i,
{
    if i < 0 || i >= s.len() {
        flushed(acc, text, st)
    } else if s[i] != '\x1b' {
        segments_from(s, i + 1, base, st, text + shown(s[i]), acc)
    } else if i + 1 >= s.len() {
        flushed(acc, text, st)
    } else if s[i + 1] == '[' {
        let j = csi_end(s, i + 2);
        proof {
            lemma_csi_end(s, i + 2);
        }
        if j < s.len() && s[j] == 'm' {
            segments_from(s, j + 1, base, sgr(st, base, s.subrange(i + 2, j)), Seq::empty(), flushed(acc, text, st))
        } else {
            segments_from(s, j + 1, base, st, text, acc)
        }
    } else if s[i + 1] == ']' {
        proof {
            lemma_osc_end(s, i + 2);
        }
        segments_from(s, osc_end(s, i + 2), base, st, text, acc)
    } else {
        segments_from(s, i + 2, base, st, text, acc)
    }
}

/// What follows the last carriage return: progress bars rewrite the line, and only the
/// last state matters, just like on a real terminal.
pub open spec fn after_cr(s: Seq<char>) -> Seq<char>
    decreases s.len(),
{
    if s.len() == 0 {
        s
    } else if s.last() == '\r' {
        Seq::empty()
    } else {
        after_cr(s.drop_last()).push(s.last())
    }
}

/// The segments of a line, in base style `base`.
pub open spec fn segments(line: Seq<char>, base: Style) -> Seq<(Seq<char>, Style)> {
    segments_from(after_cr(line), 0, base, base, Seq::empty(), Seq::empty())
}

/// A segment as its text and style.
pub open spec fn span_view(s: Span) -> (Seq<char>, Style) {
    (s.content@, s.style)
}

/// A CSI sequence ends within the line, at or after where it is looked for.
pub proof fn lemma_csi_end(s: Seq<char>, i: int)
    requires
        0 <= i <= s.len(),
    ensures
        i <= csi_end(s, i) <= s.len(),
    decreases s.len() - i,
{
    if i < s.len() && !(('a' <= s[i] <= 'z') || ('A' <= s[i] <= 'Z') || s[i] == '~') {
        lemma_csi_end(s, i + 1);
    }
}

/// An OSC sequence ends within the line, at or after where it is looked for.
pub proof fn lemma_osc_end(s: Seq<char>, i: int)
    requires
        0 <= i <= s.len(),
    ensures
        i <= osc_end(s, i) <= s.len(),
    decreases s.len() - i,
{
    if i < s.len() && s[i] != '\x07' && !(s[i] == '\x1b' && i + 1 < s.len() && s[i + 1] == '\\') {
        lemma_osc_end(s, i + 1);
    }
}

/// Where a line's last carriage return is, plus one; 0 without one.
fn after_last_cr(s: &Vec<char>) -> (r: usize)
    ensures
        r <= s@.len(),
        s@.skip(r as int) == after_cr(s@),
{
    let mut i: usize = s.len();
    while i > 0
        invariant
            i <= s@.len(),
            forall|j: int| i <= j < s@.len() ==> s@[j] != '\r',
        decreases i,
    {
        if s[i - 1] == '\r' {
            proof {
                lemma_after_cr(s@, i as int);
            }
            return i;
        }
        i -= 1;
    }
    proof {
        lemma_after_cr(s@, 0);
    }
    0
}

/// Past the last carriage return at `k - 1` (or from the start, `k == 0`, when there is
/// none), the line is what follows it.
proof fn lemma_after_cr(s: Seq<char>, k: int)
    requires
        0 <= k <= s.len(),
        k > 0 ==> s[k - 1] == '\r',
        forall|j: int| k <= j < s.len() ==> s[j] != '\r',
    ensures
        s.skip(k) == after_cr(s),
    decreases s.len(),
{
    if s.len() == k {
        assert(s.skip(k) =~= Seq::<char>::empty());
        if k > 0 {
            assert(s.last() == '\r');
        }
    } else {
        lemma_after_cr(s.drop_last(), k);
        assert(s.skip(k) =~= s.drop_last().skip(k).push(s.last()));
    }
}

/// A parameter's code.
fn code_value(p: &[char]) -> (r: u8)
    ensures
        r == code_of(p@),
{
    let t = trimmed(p);
    if t.len() == 0 {
        return 0;
    }
    let start: usize = if t[0] == '+' { 1 } else { 0 };
    let ghost u = unsigned(t@);
    assert(u =~= t@.subrange(start as int, t@.len() as int));
    if start >= t.len() {
        return 0;
    }
    let mut v: u16 = 0;
    let mut i: usize = start;
    while i < t.len()
        invariant
            start <= i <= t@.len(),
            u == t@.subrange(start as int, t@.len() as int),
            u == unsigned(t@),
            t@ == trim(p@),
            t@.len() > 0,
            v == digits_value(u.take(i - start)),
            v <= 255,
            forall|j: int| 0 <= j < i - start ==> crate::text::ascii_digit(#[trigger] u[j]),
        decreases t@.len() - i,
    {
        let c = t[i];
        assert(u[i - start] == c);
        if !('0' <= c && c <= '9') {
            proof {
                lemma_not_a_number(t@, (i - start) as int);
            }
            return 0;
        }
        let ghost k = i - start + 1;
        assert(u.take(k).drop_last() =~= u.take(i - start));
        assert(u.take(k).last() == c);
        let d = (c as u32 - '0' as u32) as u16;
        assert(digits_value(u.take(k)) == 10 * v + d);
        let x = v * 10 + d;
        if x > 255 {
            proof {
                lemma_digits_grow(u, k);
                if all_digits(u) {
                    assert(number(t@) == Some(digits_value(u)));
                }
            }
            return 0;
        }
        v = x;
        i += 1;
    }
    assert(u.take(i - start) =~= u);
    v as u8
}

/// The codes of an SGR sequence's parameters.
fn codes_of(params: &[char]) -> (r: Vec<u8>)
    ensures
        r@ == pieces(params@, ';').map_values(|p: Seq<char>| code_of(p)),
    decreases params@.len(),
{
    let n = params.len();
    let i = crate::text::index_of(params, ';', 0);
    proof {
        lemma_next_char(params@, ';', 0);
    }
    if i >= n {
        let r = vec![code_value(params)];
        assert(r@ =~= pieces(params@, ';').map_values(|p: Seq<char>| code_of(p)));
        return r;
    }
    let head = slice(params, 0, i);
    let rest = slice(params, i + 1, n);
    assert(head@ =~= params@.take(i as int));
    assert(rest@ =~= params@.skip(i + 1));
    let mut r = vec![code_value(&head)];
    let mut more = codes_of(&rest);
    r.append(&mut more);
    assert(r@ =~= pieces(params@, ';').map_values(|p: Seq<char>| code_of(p)));
    r
}

/// An extended colour and the codes it takes, from `codes[from..]`.
fn extended_at(codes: &Vec<u8>, from: usize) -> (r: (Option<Color>, usize))
    requires
        from <= codes@.len(),
    ensures
        r.0 == extended(codes@.skip(from as int)).0,
        r.1 == extended(codes@.skip(from as int)).1,
{
    let ghost rest = codes@.skip(from as int);
    let n = codes.len() - from;
    if n == 0 {
        (None, 0)
    } else if codes[from] == 5 {
        (if n > 1 { Some(Color::Indexed(codes[from + 1])) } else { None }, 2)
    } else if codes[from] == 2 {
        if n > 3 {
            (Some(Color::Rgb(codes[from + 1], codes[from + 2], codes[from + 3])), 4)
        } else {
            (None, n)
        }
    } else {
        (None, 0)
    }
}

/// One SGR code applied to `st`.
fn apply_code(st: Style, base: Style, c: u8) -> (r: Style)
    ensures
        r == sgr_code(st, base, c),
{
    if c == 0 {
        base
    } else if c == 1 {
        add_modifier(st, BOLD)
    } else if c == 2 {
        add_modifier(st, DIM)
    } else if c == 3 {
        add_modifier(st, ITALIC)
    } else if c == 4 {
        add_modifier(st, UNDERLINED)
    } else if c == 7 {
        add_modifier(st, REVERSED)
    } else if c == 22 {
        remove_modifier(st, BOLD | DIM)
    } else if c == 23 {
        remove_modifier(st, ITALIC)
    } else if c == 24 {
        remove_modifier(st, UNDERLINED)
    } else if c == 27 {
        remove_modifier(st, REVERSED)
    } else if 30 <= c && c <= 37 {
        Style { fg: Some(basic_color(c - 30)), ..st }
    } else if 90 <= c && c <= 97 {
        Style { fg: Some(bright_color(c - 90)), ..st }
    } else if 40 <= c && c <= 47 {
        Style { bg: Some(basic_color(c - 40)), ..st }
    } else if 100 <= c && c <= 107 {
        Style { bg: Some(bright_color(c - 100)), ..st }
    } else if c == 39 {
        Style { fg: base.fg, ..st }
    } else if c == 49 {
        Style { bg: base.bg, ..st }
    } else {
        st
    }
}

/// Adds modifiers `m` (`Style::add_modifier`).
pub fn add_modifier(st: Style, m: u16) -> (r: Style)
    ensures
        r == adding(st, m),
{
    Style { add_modifier: st.add_modifier | m, sub_modifier: st.sub_modifier & !m, ..st }
}

/// Removes modifiers `m` (`Style::remove_modifier`).
pub fn remove_modifier(st: Style, m: u16) -> (r: Style)
    ensures
        r == removing(st, m),
{
    Style { add_modifier: st.add_modifier & !m, sub_modifier: st.sub_modifier | m, ..st }
}

/// SGR colour codes follow the standard ANSI order. For `n` from 0 to 7, `30 + n` sets
/// the foreground and `40 + n` the background to black, red, green, yellow, blue,
/// magenta, cyan, gray in that order; `90 + n` and `100 + n` to their bright forms
/// (dark gray, light red, light green, light yellow, light blue, light magenta,
/// light cyan, white). Nothing else of the style changes.
pub proof fn law_sgr_colours_follow_the_ansi_order(st: Style, base: Style, n: u8)
    requires
        n < 8,
    ensures
        ({
            let normal = seq![Color::Black, Color::Red, Color::Green, Color::Yellow, Color::Blue, Color::Magenta, Color::Cyan, Color::Gray];
            let light = seq![
                Color::DarkGray,
                Color::LightRed,
                Color::LightGreen,
                Color::LightYellow,
                Color::LightBlue,
                Color::LightMagenta,
                Color::LightCyan,
                Color::White,
            ];
            &&& sgr_codes(seq![(30 + n) as u8], 0, st, base) == Style { fg: Some(normal[n as int]), ..st }
            &&& sgr_codes(seq![(40 + n) as u8], 0, st, base) == Style { bg: Some(normal[n as int]), ..st }
            &&& sgr_codes(seq![(90 + n) as u8], 0, st, base) == Style { fg: Some(light[n as int]), ..st }
            &&& sgr_codes(seq![(100 + n) as u8], 0, st, base) == Style { bg: Some(light[n as int]), ..st }
        }),
{
    let c: Seq<u8> = seq![(30 + n) as u8];
    assert(sgr_codes(c, 1, sgr_code(st, base, c[0]), base) == sgr_code(st, base, c[0]));
    let c: Seq<u8> = seq![(40 + n) as u8];
    assert(sgr_codes(c, 1, sgr_code(st, base, c[0]), base) == sgr_code(st, base, c[0]));
    let c: Seq<u8> = seq![(90 + n) as u8];
    assert(sgr_codes(c, 1, sgr_code(st, base, c[0]), base) == sgr_code(st, base, c[0]));
    let c: Seq<u8> = seq![(100 + n) as u8];
    assert(sgr_codes(c, 1, sgr_code(st, base, c[0]), base) == sgr_code(st, base, c[0]));
}

/// `ESC[m` and `ESC[0m` return to the base style, whatever came before; `39` and `49`
/// return the foreground and the background alone to the base ones; `1` makes text bold
/// and `22` takes bold and dim away again, the colours untouched.
pub proof fn law_sgr_resets_return_to_the_base_style(st: Style, base: Style)
    ensures
        sgr(st, base, Seq::empty()) == base,
        sgr_codes(seq![0u8], 0, st, base) == base,
        sgr_codes(seq![39u8], 0, st, base) == (Style { fg: base.fg, ..st }),
        sgr_codes(seq![49u8], 0, st, base) == (Style { bg: base.bg, ..st }),
        sgr_codes(seq![1u8], 0, st, base).add_modifier & 1 == 1,
        sgr_codes(seq![1u8], 0, st, base).fg == st.fg && sgr_codes(seq![1u8], 0, st, base).bg == st.bg,
        sgr_codes(seq![22u8], 0, st, base).add_modifier & 3 == 0,
        sgr_codes(seq![22u8], 0, st, base).fg == st.fg && sgr_codes(seq![22u8], 0, st, base).bg == st.bg,
{
    let a = st.add_modifier;
    assert((a | 1u16) & 1u16 == 1u16) by (bit_vector);
    assert((a & !(1u16 | 2u16)) & 3u16 == 0u16) by (bit_vector);
    let c: Seq<u8> = seq![1u8];
    assert(sgr_codes(c, 1, sgr_code(st, base, c[0]), base) == sgr_code(st, base, c[0]));
    assert(sgr_codes(c, 0, st, base) == adding(st, BOLD));
    let c: Seq<u8> = seq![22u8];
    assert(sgr_codes(c, 1, sgr_code(st, base, c[0]), base) == sgr_code(st, base, c[0]));
    assert(BOLD | DIM == 3u16) by (bit_vector);
    assert(sgr_codes(c, 0, st, base) == removing(st, BOLD | DIM));
    let c: Seq<u8> = seq![0u8];
    assert(sgr_codes(c, 1, sgr_code(st, base, c[0]), base) == sgr_code(st, base, c[0]));
    let c: Seq<u8> = seq![39u8];
    assert(sgr_codes(c, 1, sgr_code(st, base, c[0]), base) == sgr_code(st, base, c[0]));
    let c: Seq<u8> = seq![49u8];
    assert(sgr_codes(c, 1, sgr_code(st, base, c[0]), base) == sgr_code(st, base, c[0]));
}

/// Colours 30–37 and 40–47.
pub fn basic_color(n: u8) -> (r: Color)
    ensures
        r == basic(n),
{
    match n {
        0 => Color::Black,
        1 => Color::Red,
        2 => Color::Green,
        3 => Color::Yellow,
        4 => Color::Blue,
        5 => Color::Magenta,
        6 => Color::Cyan,
        _ => Color::Gray,
    }
}

/// Colours 90–97 and 100–107.
pub fn bright_color(n: u8) -> (r: Color)
    ensures
        r == bright(n),
{
    match n {
        0 => Color::DarkGray,
        1 => Color::LightRed,
        2 => Color::LightGreen,
        3 => Color::LightYellow,
        4 => Color::LightBlue,
        5 => Color::LightMagenta,
        6 => Color::LightCyan,
        _ => Color::White,
    }
}

/// Applies an SGR sequence (`ESC[…m`) to the current style.
pub fn apply_sgr(st: Style, base: Style, params: &[char]) -> (r: Style)
    ensures
        r == sgr(st, base, params@),
{
    if params.len() == 0 {
        return base;
    }
    let codes = codes_of(params);
    let mut style = st;
    let mut i: usize = 0;
    while i < codes.len()
        invariant
            codes@ == pieces(params@, ';').map_values(|p: Seq<char>| code_of(p)),
            params@.len() > 0,
            i <= codes@.len(),
            sgr_codes(codes@, i as int, style, base) == sgr(st, base, params@),
        decreases codes@.len() - i,
    {
        let c = codes[i];
        let ghost st0 = style;
        let ghost i0 = i as int;
        if c == 38 || c == 48 {
            let (color, used) = extended_at(&codes, i + 1);
            match color {
                Some(col) => {
                    style = if c == 38 { Style { fg: Some(col), ..style } } else { Style { bg: Some(col), ..style } };
                },
                None => {},
            }
            assert(sgr_codes(codes@, i0, st0, base) == sgr_codes(codes@, i0 + used + 1, style, base));
            if used >= codes.len() - i {
                i = codes.len();
            } else {
                i = i + used + 1;
            }
        } else {
            style = apply_code(style, base, c);
            assert(sgr_codes(codes@, i0, st0, base) == sgr_codes(codes@, i0 + 1, style, base));
            i += 1;
        }
    }
    style
}

/// The index of the character ending the CSI sequence started before `i`.
fn find_csi_end(s: &Vec<char>, i: usize) -> (r: usize)
    requires
        i <= s@.len(),
    ensures
        r == csi_end(s@, i as int),
        i <= r <= s@.len(),
{
    let mut j = i;
    proof {
        lemma_csi_end(s@, i as int);
    }
    while j < s.len()
        invariant
            i <= j <= s@.len(),
            csi_end(s@, j as int) == csi_end(s@, i as int),
        decreases s@.len() - j,
    {
        let c = s[j];
        if ('a' <= c && c <= 'z') || ('A' <= c && c <= 'Z') || c == '~' {
            return j;
        }
        j += 1;
    }
    j
}

/// Where the OSC sequence started before `i` ends.
fn find_osc_end(s: &Vec<char>, i: usize) -> (r: usize)
    requires
        i <= s@.len(),
    ensures
        r == osc_end(s@, i as int),
        i <= r <= s@.len(),
{
    let mut j = i;
    proof {
        lemma_osc_end(s@, i as int);
    }
    while j < s.len()
        invariant
            i <= j <= s@.len(),
            osc_end(s@, j as int) == osc_end(s@, i as int),
            osc_end(s@, i as int) <= s@.len(),
        decreases s@.len() - j,
    {
        let c = s[j];
        if c == '\x07' {
            return j + 1;
        }
        if c == '\x1b' && j + 1 < s.len() && s[j + 1] == '\\' {
            return j + 2;
        }
        j += 1;
    }
    j
}

/// Splits a line into styled segments, starting from style `base`.
pub fn to_spans(line: &str, base: Style) -> (r: Vec<Span>)
    ensures
        r@.map_values(|s: Span| span_view(s)) == segments(line@, base),
{
    let all = chars_of(line);
    let from = after_last_cr(&all);
    let s = slice(&all, from, all.len());
    assert(s@ =~= after_cr(line@));
    let ghost goal = segments(line@, base);
    let mut spans: Vec<Span> = Vec::new();
    let mut style = base;
    let mut text: Vec<char> = Vec::new();
    let mut i: usize = 0;
    assert(spans@.map_values(|x: Span| span_view(x)) =~= Seq::<(Seq<char>, Style)>::empty());
    assert(text@ =~= Seq::<char>::empty());
    while i < s.len()
        invariant
            i <= s@.len(),
            segments_from(s@, i as int, base, style, text@, spans@.map_values(|x: Span| span_view(x))) == goal,
            goal == segments_from(s@, 0, base, base, Seq::empty(), Seq::empty()),
        decreases s@.len() - i,
    {
        let c = s[i];
        let ghost t0 = text@;
        let ghost st0 = style;
        let ghost acc = spans@.map_values(|x: Span| span_view(x));
        let ghost i0 = i as int;
        if c != '\x1b' {
            if c == '\t' {
                text.push(' ');
                text.push(' ');
                text.push(' ');
                text.push(' ');
            } else if !is_control(c) {
                text.push(c);
            }
            assert(text@ =~= t0 + shown(c));
            assert(segments_from(s@, i0, base, st0, t0, acc) == segments_from(s@, i0 + 1, base, st0, t0 + shown(c), acc));
            i += 1;
        } else if i + 1 >= s.len() {
            assert(segments_from(s@, i0, base, st0, t0, acc) == flushed(acc, t0, st0));
            i += 1;
        } else if s[i + 1] == '[' {
            let j = find_csi_end(&s, i + 2);
            if j < s.len() && s[j] == 'm' {
                let params = slice(&s, i + 2, j);
                if text.len() > 0 {
                    let t = string_of(&text);
                    spans.push(Span { content: t, style });
                    assert(spans@.map_values(|x: Span| span_view(x)) =~= acc.push((t0, st0)));
                } else {
                    assert(spans@.map_values(|x: Span| span_view(x)) =~= acc);
                }
                style = apply_sgr(style, base, &params);
                text = Vec::new();
                assert(text@ =~= Seq::<char>::empty());
                assert(segments_from(s@, i0, base, st0, t0, acc) == segments_from(s@, j + 1, base, style, Seq::empty(), flushed(acc, t0, st0)));
            } else {
                assert(segments_from(s@, i0, base, st0, t0, acc) == segments_from(s@, j + 1, base, st0, t0, acc));
            }
            if j >= s.len() {
                i = s.len();
            } else {
                i = j + 1;
            }
        } else if s[i + 1] == ']' {
            i = find_osc_end(&s, i + 2);
            assert(segments_from(s@, i0, base, st0, t0, acc) == segments_from(s@, i as int, base, st0, t0, acc));
        } else {
            assert(segments_from(s@, i0, base, st0, t0, acc) == segments_from(s@, i0 + 2, base, st0, t0, acc));
            i += 2;
        }
    }
    let ghost before = spans@.map_values(|x: Span| span_view(x));
    if text.len() > 0 {
        let t = string_of(&text);
        spans.push(Span { content: t, style });
        assert(spans@.map_values(|x: Span| span_view(x)) =~= before.push((text@, style)));
    }
    spans
}

/// No control character in any text.
pub open spec fn printable(texts: Seq<(Seq<char>, Style)>) -> bool {
    forall|i: int, j: int| 0 <= i < texts.len() && 0 <= j < texts[i].0.len() ==> !control(#[trigger] texts[i].0[j])
}

proof fn lemma_segments_printable(s: Seq<char>, i: int, base: Style, st: Style, text: Seq<char>, acc: Seq<(Seq<char>, Style)>)
    requires
        printable(acc),
        forall|j: int| 0 <= j < text.len() ==> !control(#[trigger] text[j]),
    ensures
        printable(segments_from(s, i, base, st, text, acc)),
    decreases s.len() + 1 - i,
{
    assert(printable(flushed(acc, text, st))) by {
        if text.len() > 0 {
            let f = acc.push((text, st));
            assert forall|a: int, b: int| 0 <= a < f.len() && 0 <= b < f[a].0.len() implies !control(#[trigger] f[a].0[b]) by {
                if a < acc.len() {
                    assert(f[a] == acc[a]);
                }
            }
        }
    }
    if i < 0 || i >= s.len() {
    } else if s[i] != '\x1b' {
        let t2 = text + shown(s[i]);
        assert forall|j: int| 0 <= j < t2.len() implies !control(#[trigger] t2[j]) by {
            if j >= text.len() {
                assert(control('\t'));
                assert(!control(' '));
            }
        }
        lemma_segments_printable(s, i + 1, base, st, t2, acc);
    } else if i + 1 >= s.len() {
    } else if s[i + 1] == '[' {
        let j = csi_end(s, i + 2);
        lemma_csi_end(s, i + 2);
        if j < s.len() && s[j] == 'm' {
            lemma_segments_printable(s, j + 1, base, sgr(st, base, s.subrange(i + 2, j)), Seq::empty(), flushed(acc, text, st));
        } else {
            lemma_segments_printable(s, j + 1, base, st, text, acc);
        }
    } else if s[i + 1] == ']' {
        lemma_osc_end(s, i + 2);
        lemma_segments_printable(s, osc_end(s, i + 2), base, st, text, acc);
    } else {
        lemma_segments_printable(s, i + 2, base, st, text, acc);
    }
}

/// No escape sequence, nor any other control character, reaches the panel: whatever a
/// hook prints, the segments hold only printable text.
pub proof fn law_no_control_character_is_shown(line: Seq<char>, base: Style)
    ensures
        printable(segments(line, base)),
{
    lemma_segments_printable(after_cr(line), 0, base, base, Seq::empty(), Seq::empty());
}

} // verus!

verus! {

proof fn lemma_plain_segments(s: Seq<char>, i: int, base: Style, st: Style, text: Seq<char>, acc: Seq<(Seq<char>, Style)>)
    requires
        0 <= i <= s.len(),
        forall|j: int| i <= j < s.len() ==> !control(#[trigger] s[j]),
    ensures
        segments_from(s, i, base, st, text, acc) == flushed(acc, text + s.skip(i), st),
    decreases s.len() - i,
{
    if i < s.len() {
        assert(!control(s[i]));
        assert(control('\x1b'));
        assert(control('\t'));
        assert(shown(s[i]) == seq![s[i]]);
        lemma_plain_segments(s, i + 1, base, st, text + seq![s[i]], acc);
        assert(text + seq![s[i]] + s.skip(i + 1) =~= text + s.skip(i));
    } else {
        assert(text + s.skip(i) =~= text);
    }
}

proof fn lemma_no_cr(s: Seq<char>)
    requires
        forall|j: int| 0 <= j < s.len() ==> #[trigger] s[j] != '\r',
    ensures
        after_cr(s) == s,
    decreases s.len(),
{
    if s.len() > 0 {
        lemma_no_cr(s.drop_last());
        assert(s.drop_last().push(s.last()) =~= s);
    }
}

/// A line without any control character (no escape sequence, tab or carriage return)
/// is shown as it is, in one segment of the base style.
pub proof fn law_plain_text_is_one_segment(line: Seq<char>, base: Style)
    requires
        forall|j: int| 0 <= j < line.len() ==> !control(#[trigger] line[j]),
    ensures
        segments(line, base) == if line.len() > 0 { seq![(line, base)] } else { Seq::empty() },
{
    assert(control('\r'));
    assert forall|j: int| 0 <= j < line.len() implies #[trigger] line[j] != '\r' by {
        assert(!control(line[j]));
    }
    lemma_no_cr(line);
    lemma_plain_segments(line, 0, base, base, Seq::empty(), Seq::empty());
    assert(Seq::<char>::empty() + line.skip(0) =~= line);
}

/// `ESC[3<n>m` and `ESC[4<n>m`, for a digit `n` from 0 to 7, set the foreground and the
/// background to black, red, green, yellow, blue, magenta, cyan, gray in that order;
/// nothing else of the style changes. Text that follows shows in that style: a green
/// `ok` from `ESC[32mok` is one segment `ok`, green on the base style.
pub proof fn law_sgr_sequences_follow_the_ansi_order(st: Style, base: Style, lead: char, d: char, t: Seq<char>)
    requires
        lead == '3' || lead == '4',
        '0' <= d <= '7',
        t.len() > 0,
        forall|j: int| 0 <= j < t.len() ==> !control(#[trigger] t[j]),
    ensures
        ({
            let normal = seq![Color::Black, Color::Red, Color::Green, Color::Yellow, Color::Blue, Color::Magenta, Color::Cyan, Color::Gray];
            let c = normal[d as int - '0' as int];
            let want = if lead == '3' { Style { fg: Some(c), ..st } } else { Style { bg: Some(c), ..st } };
            let shown_with = if lead == '3' { Style { fg: Some(c), ..base } } else { Style { bg: Some(c), ..base } };
            &&& sgr(st, base, seq![lead, d]) == want
            &&& segments(seq!['\x1b', '[', lead, d, 'm'] + t, base) == seq![(t, shown_with)]
        }),
{
    let p = seq![lead, d];
    assert(next_char(p, ';', 2) == 2);
    assert(next_char(p, ';', 1) == 2);
    assert(next_char(p, ';', 0) == 2);
    assert(pieces(p, ';') == seq![p]);
    assert(!white_space(lead) && !white_space(d));
    assert(p.drop_first() =~= seq![d]);
    assert(p.drop_last() =~= seq![lead]);
    assert(trim_start(p) == p);
    assert(trim_end(p) == p);
    assert(unsigned(p) == p);
    assert(seq![lead].drop_last() =~= Seq::<char>::empty());
    assert(digits_value(Seq::<char>::empty()) == 0);
    assert(seq![lead].last() == lead);
    assert(digits_value(seq![lead]) == 10 * digits_value(seq![lead].drop_last()) + (lead as int - '0' as int));
    assert(digits_value(seq![lead]) == lead as int - '0' as int);
    assert(digits_value(p) == 10 * (lead as int - '0' as int) + (d as int - '0' as int));
    assert(all_digits(p));
    let code = code_of(p);
    assert(code as int == 10 * (lead as int - '0' as int) + (d as int - '0' as int));
    let codes = pieces(p, ';').map_values(|x: Seq<char>| code_of(x));
    assert(codes =~= seq![code]);
    assert(sgr_codes(codes, 1, sgr_code(st, base, codes[0]), base) == sgr_code(st, base, codes[0]));
    law_sgr_colours_follow_the_ansi_order(st, base, (d as int - '0' as int) as u8);
    // The whole line.
    let s = seq!['\x1b', '[', lead, d, 'm'] + t;
    assert(control('\r'));
    assert forall|j: int| 0 <= j < s.len() implies #[trigger] s[j] != '\r' by {
        if j >= 5 {
            assert(s[j] == t[j - 5]);
            assert(!control(t[j - 5]));
        }
    }
    lemma_no_cr(s);
    assert(csi_end(s, 4) == 4);
    assert(csi_end(s, 3) == 4);
    assert(csi_end(s, 2) == 4);
    assert(s.subrange(2, 4) =~= p);
    let st2 = sgr(base, base, p);
    law_sgr_colours_follow_the_ansi_order(base, base, (d as int - '0' as int) as u8);
    assert(sgr_codes(codes, 1, sgr_code(base, base, codes[0]), base) == sgr_code(base, base, codes[0]));
    assert forall|j: int| 5 <= j < s.len() implies !control(#[trigger] s[j]) by {
        assert(s[j] == t[j - 5]);
    }
    lemma_plain_segments(s, 5, base, st2, Seq::empty(), Seq::empty());
    assert(Seq::<char>::empty() + s.skip(5) =~= t);
    assert(flushed(Seq::<(Seq<char>, Style)>::empty(), Seq::<char>::empty(), base) == Seq::<(Seq<char>, Style)>::empty());
}

} // verus!

verus! {

/// Extended colours: `38;5;<n>` sets the foreground to entry `n` of the 256-colour
/// palette and `38;2;<r>;<g>;<b>` to that RGB colour; `48` does the same for the
/// background. Nothing else of the style changes.
pub proof fn law_extended_colours(st: Style, base: Style, n: u8, r: u8, g: u8, b: u8)
    ensures
        sgr_codes(seq![38u8, 5u8, n], 0, st, base) == (Style { fg: Some(Color::Indexed(n)), ..st }),
        sgr_codes(seq![48u8, 5u8, n], 0, st, base) == (Style { bg: Some(Color::Indexed(n)), ..st }),
        sgr_codes(seq![38u8, 2u8, r, g, b], 0, st, base) == (Style { fg: Some(Color::Rgb(r, g, b)), ..st }),
        sgr_codes(seq![48u8, 2u8, r, g, b], 0, st, base) == (Style { bg: Some(Color::Rgb(r, g, b)), ..st }),
{
    let a: Seq<u8> = seq![38u8, 5u8, n];
    assert(a.skip(1) =~= seq![5u8, n]);
    assert(sgr_codes(a, 3, with_fg(st, Color::Indexed(n)), base) == with_fg(st, Color::Indexed(n)));
    let a: Seq<u8> = seq![48u8, 5u8, n];
    assert(a.skip(1) =~= seq![5u8, n]);
    assert(sgr_codes(a, 3, with_bg(st, Color::Indexed(n)), base) == with_bg(st, Color::Indexed(n)));
    let a: Seq<u8> = seq![38u8, 2u8, r, g, b];
    assert(a.skip(1) =~= seq![2u8, r, g, b]);
    assert(sgr_codes(a, 5, with_fg(st, Color::Rgb(r, g, b)), base) == with_fg(st, Color::Rgb(r, g, b)));
    let a: Seq<u8> = seq![48u8, 2u8, r, g, b];
    assert(a.skip(1) =~= seq![2u8, r, g, b]);
    assert(sgr_codes(a, 5, with_bg(st, Color::Rgb(r, g, b)), base) == with_bg(st, Color::Rgb(r, g, b)));
}

} // verus!
