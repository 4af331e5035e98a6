//! ANSI styling: Starship-style style strings, escape stripping and display width.
use crate::text::{
    chars_of, columns_of, str_columns, is_white_space, lowercase, lowercase_of, push_chars, range_is, range_starts_with,
    white_space,
};
use nu_ansi_term::{Color, Style};
use vstd::prelude::*;

verus! {

// ---------------------------------------------------------------------------
// Stripping escape sequences
// ---------------------------------------------------------------------------

/// The escape character that starts every ANSI sequence.
pub open spec fn esc() -> char {
    '\x1b'
}

/// ASCII letters `A..=Z` and `a..=z` (what std `char::is_ascii_alphabetic` accepts).
pub open spec fn ascii_alpha(c: char) -> bool {
    ('A' <= c && c <= 'Z') || ('a' <= c && c <= 'z')
}

/// Index just past the final byte of a CSI sequence whose parameters start at `j`:
/// one past the first ASCII letter at or after `j`, or the end of `s`.
pub open spec fn csi_end(s: Seq<char>, j: int) -> int
    decreases s.len() - j,
{
    if j >= s.len() {
        s.len() as int
    } else if ascii_alpha(s[j]) {
        j + 1
    } else {
        csi_end(s, j + 1)
    }
}

/// `s[i..]` with ANSI escapes removed: an `ESC [` sequence up to and including
/// its terminating letter is dropped, and a lone `ESC` is dropped by itself.
pub open spec fn strip_from(s: Seq<char>, i: int) -> Seq<char>
    decreases s.len() - i,
{
    if i >= s.len() {
        Seq::empty()
    } else if s[i] == esc() {
        if i + 1 < s.len() && s[i + 1] == '[' {
            proof {
                lemma_csi_end_bounds(s, i + 2);
            }
            strip_from(s, csi_end(s, i + 2))
        } else {
            strip_from(s, i + 1)
        }
    } else {
        seq![s[i]] + strip_from(s, i + 1)
    }
}

/// The plain text of `s`: `s` with its ANSI escape sequences removed.
pub open spec fn stripped(s: Seq<char>) -> Seq<char> {
    strip_from(s, 0)
}

pub proof fn lemma_csi_end_bounds(s: Seq<char>, j: int)
    ensures
        j < s.len() ==> j < csi_end(s, j) <= s.len(),
    decreases s.len() - j,
{
    if j < s.len() && !ascii_alpha(s[j]) {
        lemma_csi_end_bounds(s, j + 1);
        if j + 1 >= s.len() {
            assert(csi_end(s, j + 1) == s.len());
        }
    }
}

fn is_ascii_alpha(c: char) -> (b: bool)
    ensures
        b == ascii_alpha(c),
{
    ('A' <= c && c <= 'Z') || ('a' <= c && c <= 'z')
}

/// Strip ANSI escape sequences from a string, returning plain text.
/// Used by `cship explain` to display module values in a readable table.
pub fn strip_ansi(s: &str) -> (out: String)
    ensures
        out@ == stripped(s@),
{
    let cs = chars_of(s);
    let n = cs.len();
    let mut out = String::new();
    let mut keep: Vec<char> = Vec::new();
    let mut i: usize = 0;
    while i < n
        invariant
            n == cs.len(),
            cs@ == s@,
            i <= n,
            keep@ + strip_from(cs@, i as int) == stripped(cs@),
        decreases n - i,
    {
        if cs[i] == '\x1b' {
            if i + 1 < n && cs[i + 1] == '[' {
                let mut j = i + 2;
                while j < n && !is_ascii_alpha(cs[j])
                    invariant
                        i + 2 <= j <= n,
                        n == cs.len(),
                        csi_end(cs@, j as int) == csi_end(cs@, i + 2),
                    decreases n - j,
                {
                    j = j + 1;
                }
                let end = if j < n { j + 1 } else { n };
                proof {
                    lemma_csi_end_bounds(cs@, i + 2);
                }
                i = end;
            } else {
                i = i + 1;
            }
        } else {
            keep.push(cs[i]);
            assert(keep@ + strip_from(cs@, i + 1) == (keep@.drop_last() + seq![cs@[i as int]])
                + strip_from(cs@, i + 1));
            i = i + 1;
        }
    }
    push_chars(&mut out, &keep);
    out
}

/// `s` holds no escape character.
pub open spec fn escape_free(s: Seq<char>) -> bool {
    forall|k: int| 0 <= k < s.len() ==> #[trigger] s[k] != esc()
}

proof fn lemma_strip_from_escape_free(s: Seq<char>, i: int)
    ensures
        escape_free(strip_from(s, i)),
    decreases s.len() - i,
{
    if i >= s.len() {
    } else if s[i] == esc() {
        if i + 1 < s.len() && s[i + 1] == '[' {
            lemma_csi_end_bounds(s, i + 2);
            lemma_strip_from_escape_free(s, csi_end(s, i + 2));
        } else {
            lemma_strip_from_escape_free(s, i + 1);
        }
    } else {
        lemma_strip_from_escape_free(s, i + 1);
        let rest = strip_from(s, i + 1);
        assert forall|k: int| 0 <= k < strip_from(s, i).len() implies #[trigger] strip_from(
            s,
            i,
        )[k] != esc() by {
            if k > 0 {
                assert(strip_from(s, i)[k] == rest[k - 1]);
            }
        }
    }
}

proof fn lemma_strip_from_plain(s: Seq<char>, i: int)
    requires
        escape_free(s),
        0 <= i <= s.len(),
    ensures
        strip_from(s, i) == s.skip(i),
    decreases s.len() - i,
{
    if i < s.len() {
        assert(s[i] != esc());
        lemma_strip_from_plain(s, i + 1);
        assert(s.skip(i) =~= seq![s[i]] + s.skip(i + 1));
    } else {
        assert(s.skip(i) =~= Seq::<char>::empty());
    }
}

/// Stripping leaves no escape character behind.
pub proof fn law_stripped_is_escape_free(s: Seq<char>)
    ensures
        escape_free(stripped(s)),
{
    lemma_strip_from_escape_free(s, 0);
}

/// Text without escape characters is left as it is by stripping.
pub proof fn law_strip_keeps_plain_text(s: Seq<char>)
    requires
        escape_free(s),
    ensures
        stripped(s) == s,
{
    lemma_strip_from_plain(s, 0);
    assert(s.skip(0) == s);
}

/// Stripping twice is stripping once.
pub proof fn law_strip_idempotent(s: Seq<char>)
    ensures
        stripped(stripped(s)) == stripped(s),
{
    law_stripped_is_escape_free(s);
    law_strip_keeps_plain_text(stripped(s));
}

/// Measuring stripped text gives the same width as measuring the text.
pub proof fn law_display_width_of_stripped(s: Seq<char>)
    ensures
        display_columns(stripped(s)) == display_columns(s),
{
    law_strip_idempotent(s);
}

/// `t` is `s` with some characters deleted (matched greedily from the front).
pub open spec fn is_subsequence(t: Seq<char>, s: Seq<char>) -> bool
    decreases s.len(),
{
    if t.len() == 0 {
        true
    } else if s.len() == 0 {
        false
    } else if t[0] == s[0] {
        is_subsequence(t.drop_first(), s.drop_first())
    } else {
        is_subsequence(t, s.drop_first())
    }
}

proof fn lemma_subsequence_prepend(t: Seq<char>, s: Seq<char>, c: char)
    requires
        is_subsequence(t, s),
    ensures
        is_subsequence(t, seq![c] + s),
    decreases s.len(), 1int,
{
    let cs = seq![c] + s;
    assert(cs.drop_first() == s);
    if t.len() > 0 && t[0] == c {
        lemma_subsequence_drop_first(t, s);
    }
}

proof fn lemma_subsequence_drop_first(t: Seq<char>, s: Seq<char>)
    requires
        is_subsequence(t, s),
        t.len() > 0,
    ensures
        is_subsequence(t.drop_first(), s),
    decreases s.len(), 0int,
{
    assert(s.len() > 0);
    if t[0] == s[0] {
        lemma_subsequence_prepend(t.drop_first(), s.drop_first(), s[0]);
    } else {
        lemma_subsequence_drop_first(t, s.drop_first());
        lemma_subsequence_prepend(t.drop_first(), s.drop_first(), s[0]);
    }
    assert(seq![s[0]] + s.drop_first() == s);
}

proof fn lemma_subsequence_skip(t: Seq<char>, s: Seq<char>, i: int, j: int)
    requires
        0 <= i <= j <= s.len(),
        is_subsequence(t, s.skip(j)),
    ensures
        is_subsequence(t, s.skip(i)),
    decreases j - i,
{
    if i < j {
        lemma_subsequence_skip(t, s, i + 1, j);
        lemma_subsequence_prepend(t, s.skip(i + 1), s[i]);
        assert(seq![s[i]] + s.skip(i + 1) == s.skip(i));
    }
}

proof fn lemma_strip_from_subsequence(s: Seq<char>, i: int)
    requires
        0 <= i <= s.len(),
    ensures
        is_subsequence(strip_from(s, i), s.skip(i)),
    decreases s.len() - i,
{
    if i == s.len() {
    } else if s[i] == esc() {
        if i + 1 < s.len() && s[i + 1] == '[' {
            lemma_csi_end_bounds(s, i + 2);
            let e = csi_end(s, i + 2);
            lemma_strip_from_subsequence(s, e);
            lemma_subsequence_skip(strip_from(s, i), s, i, e);
        } else {
            lemma_strip_from_subsequence(s, i + 1);
            lemma_subsequence_skip(strip_from(s, i), s, i, i + 1);
        }
    } else {
        lemma_strip_from_subsequence(s, i + 1);
        let t = strip_from(s, i);
        assert(t[0] == s.skip(i)[0]);
        assert(t.drop_first() == strip_from(s, i + 1));
        assert(s.skip(i).drop_first() == s.skip(i + 1));
    }
}

/// Stripping only deletes characters: the plain text is a subsequence of `s`.
pub proof fn law_stripped_is_subsequence(s: Seq<char>)
    ensures
        is_subsequence(stripped(s), s),
{
    lemma_strip_from_subsequence(s, 0);
    assert(s.skip(0) == s);
}

proof fn lemma_csi_end_shift(p: Seq<char>, t: Seq<char>, j: int)
    requires
        0 <= j,
    ensures
        csi_end(p + t, p.len() + j) == p.len() + csi_end(t, j),
    decreases t.len() - j,
{
    if j < t.len() {
        assert((p + t)[p.len() + j] == t[j]);
        lemma_csi_end_shift(p, t, j + 1);
    }
}

proof fn lemma_strip_from_shift(p: Seq<char>, t: Seq<char>, i: int)
    requires
        0 <= i,
    ensures
        strip_from(p + t, p.len() + i) == strip_from(t, i),
    decreases t.len() - i,
{
    let x = p + t;
    if i < t.len() {
        assert(x[p.len() + i] == t[i]);
        if i + 1 < t.len() {
            assert(x[p.len() + i + 1] == t[i + 1]);
        }
        if t[i] == esc() && i + 1 < t.len() && t[i + 1] == '[' {
            lemma_csi_end_shift(p, t, i + 2);
            lemma_csi_end_bounds(t, i + 2);
            lemma_strip_from_shift(p, t, csi_end(t, i + 2));
        } else {
            lemma_strip_from_shift(p, t, i + 1);
        }
    }
}

/// Some ASCII letter stands in `c[j..]`.
pub open spec fn letter_from(c: Seq<char>, j: int) -> bool {
    exists|k: int| j <= k < c.len() && ascii_alpha(#[trigger] c[k])
}

proof fn lemma_csi_end_reset(c: Seq<char>, j: int)
    requires
        0 <= j <= c.len(),
    ensures
        letter_from(c, j) ==> csi_end(c + reset_code(), j) == csi_end(c, j),
        !letter_from(c, j) ==> csi_end(c, j) == c.len() && csi_end(c + reset_code(), j) == c.len()
            + 4,
    decreases c.len() - j,
{
    let x = c + reset_code();
    let n = c.len() as int;
    if j == n {
        assert(x[n] == esc() && x[n + 1] == '[' && x[n + 2] == '0' && x[n + 3] == 'm');
        assert(csi_end(x, n + 3) == n + 4);
        assert(csi_end(x, n + 2) == n + 4);
        assert(csi_end(x, n + 1) == n + 4);
    } else {
        assert(x[j] == c[j]);
        if !ascii_alpha(c[j]) {
            lemma_csi_end_reset(c, j + 1);
            if letter_from(c, j) {
                let k = choose|k: int| j <= k < c.len() && ascii_alpha(#[trigger] c[k]);
                assert(k != j);
                assert(letter_from(c, j + 1));
            }
            if letter_from(c, j + 1) {
                let k = choose|k: int| j + 1 <= k < c.len() && ascii_alpha(#[trigger] c[k]);
                assert(letter_from(c, j));
            }
        } else {
            assert(letter_from(c, j));
        }
    }
}

proof fn lemma_strip_from_reset(c: Seq<char>, i: int)
    requires
        0 <= i <= c.len(),
    ensures
        strip_from(c + reset_code(), i) == strip_from(c, i),
    decreases c.len() - i,
{
    let x = c + reset_code();
    let n = c.len() as int;
    if i == n {
        assert(x[n] == esc() && x[n + 1] == '[' && x[n + 2] == '0' && x[n + 3] == 'm');
        assert(csi_end(x, n + 3) == n + 4);
        assert(csi_end(x, n + 2) == n + 4);
        assert(strip_from(x, n + 4) == Seq::<char>::empty());
    } else {
        assert(x[i] == c[i]);
        assert(x[i + 1] == if i + 1 < n {
            c[i + 1]
        } else {
            esc()
        });
        if c[i] == esc() {
            if i + 1 < n && c[i + 1] == '[' {
                lemma_csi_end_reset(c, i + 2);
                lemma_csi_end_bounds(c, i + 2);
                if letter_from(c, i + 2) {
                    lemma_strip_from_reset(c, csi_end(c, i + 2));
                } else {
                    assert(strip_from(x, n + 4) == Seq::<char>::empty());
                    assert(strip_from(c, n) == Seq::<char>::empty());
                }
            } else {
                lemma_strip_from_reset(c, i + 1);
            }
        } else {
            lemma_strip_from_reset(c, i + 1);
        }
    }
}

proof fn lemma_csi_end_prefix(x: Seq<char>, p: Seq<char>, j: int)
    requires
        3 <= p.len() <= x.len(),
        x.subrange(0, p.len() as int) == p,
        p.last() == 'm',
        forall|k: int| 2 <= k < p.len() - 1 ==> #[trigger] code_char(p[k]),
        2 <= j <= p.len() - 1,
    ensures
        csi_end(x, j) == p.len(),
    decreases p.len() - j,
{
    assert(x[j] == x.subrange(0, p.len() as int)[j]);
    if j < p.len() - 1 {
        assert(code_char(p[j]));
        lemma_csi_end_prefix(x, p, j + 1);
    }
}

/// Painted text strips to the stripped content.
proof fn lemma_strip_wrapped(out: Seq<char>, p: Seq<char>, c: Seq<char>)
    requires
        ansi_wrapped(out, p, c),
    ensures
        stripped(out) == stripped(c),
{
    let t = c + reset_code();
    assert(out =~= p + t);
    assert(out.subrange(0, p.len() as int) =~= p);
    lemma_csi_end_prefix(out, p, 2);
    assert(out[0] == esc() && out[1] == '[');
    assert(strip_from(out, 0) == strip_from(out, p.len() as int));
    lemma_strip_from_shift(p, t, 0);
    lemma_strip_from_reset(c, 0);
}

// ---------------------------------------------------------------------------
// Styles
// ---------------------------------------------------------------------------

/// A colour that a style string can name.
#[derive(Clone, Copy, Debug, PartialEq, Eq)]
pub enum ColorSpec {
    Black,
    Red,
    Green,
    Yellow,
    Blue,
    Purple,
    Cyan,
    White,
    /// An index into the 256-colour palette.
    Fixed(u8),
    /// A 24-bit colour.
    Rgb(u8, u8, u8),
}

/// The text attributes and colours a style string selects.
#[derive(Clone, Copy, Debug, PartialEq, Eq)]
pub struct StyleSpec {
    pub foreground: Option<ColorSpec>,
    pub background: Option<ColorSpec>,
    pub is_bold: bool,
    pub is_dimmed: bool,
    pub is_italic: bool,
    pub is_underline: bool,
    pub is_blink: bool,
    pub is_reverse: bool,
    pub is_hidden: bool,
    pub is_strikethrough: bool,
}

/// The style with no attribute and no colour.
pub open spec fn plain_style() -> StyleSpec {
    StyleSpec {
        foreground: None,
        background: None,
        is_bold: false,
        is_dimmed: false,
        is_italic: false,
        is_underline: false,
        is_blink: false,
        is_reverse: false,
        is_hidden: false,
        is_strikethrough: false,
    }
}

impl StyleSpec {
    /// The style with no attribute and no colour.
    pub fn plain() -> (s: StyleSpec)
        ensures
            s == plain_style(),
    {
        StyleSpec {
            foreground: None,
            background: None,
            is_bold: false,
            is_dimmed: false,
            is_italic: false,
            is_underline: false,
            is_blink: false,
            is_reverse: false,
            is_hidden: false,
            is_strikethrough: false,
        }
    }
}

/// The reset sequence `ESC [ 0 m` written after styled text.
pub open spec fn reset_code() -> Seq<char> {
    seq![esc(), '[', '0', 'm']
}

/// A character of an SGR parameter list: a decimal digit or `;`.
pub open spec fn code_char(c: char) -> bool {
    ('0' <= c && c <= '9') || c == ';'
}

/// `out` is `content` between the escape prefix `p` (`ESC [`, parameters, `m`)
/// and the reset sequence.
pub open spec fn ansi_wrapped(out: Seq<char>, p: Seq<char>, content: Seq<char>) -> bool {
    &&& 3 <= p.len()
    &&& p[0] == esc()
    &&& p[1] == '['
    &&& p.last() == 'm'
    &&& forall|k: int| 2 <= k < p.len() - 1 ==> #[trigger] code_char(p[k])
    &&& out == p + content + reset_code()
}

/// What nu_ansi_term writes for `content` painted in `style`.
pub uninterp spec fn painted(content: Seq<char>, style: StyleSpec) -> Seq<char>;

/// Calls nu_ansi_term `Style::paint` on `content` and formats the result with
/// `to_string`. The crate's `Display` writes nothing around text in a plain
/// style; otherwise it writes a prefix `ESC [ <codes> m` before the text and
/// `ESC [ 0 m` after it, the codes being numbers separated by `;`. Which
/// codes the prefix holds is not stated here.
#[verifier::external_body]
fn paint(content: &str, style: &StyleSpec) -> (out: String)
    ensures
        out@ == painted(content@, *style),
        *style == plain_style() ==> out@ == content@,
        *style != plain_style() ==> exists|p: Seq<char>| #[trigger] ansi_wrapped(out@, p, content@),
{
    let color = |c: ColorSpec| match c {
        ColorSpec::Black => Color::Black, ColorSpec::Red => Color::Red,
        ColorSpec::Green => Color::Green, ColorSpec::Yellow => Color::Yellow,
        ColorSpec::Blue => Color::Blue, ColorSpec::Purple => Color::Purple,
        ColorSpec::Cyan => Color::Cyan, ColorSpec::White => Color::White,
        ColorSpec::Fixed(n) => Color::Fixed(n), ColorSpec::Rgb(r, g, b) => Color::Rgb(r, g, b),
    };
    let StyleSpec { foreground, background, is_bold, is_dimmed, is_italic, is_underline, is_blink,
        is_reverse, is_hidden, is_strikethrough } = *style;
    let ansi = Style { foreground: foreground.map(color), background: background.map(color), is_bold,
        is_dimmed, is_italic, is_underline, is_blink, is_reverse, is_hidden, is_strikethrough,
        prefix_with_reset: false };
    ansi.paint(content).to_string()
}

// --- colour names ---

/// The value of a hexadecimal digit (std `char::to_digit(16)`).
pub open spec fn hex_digit(c: char) -> Option<u8> {
    if '0' <= c && c <= '9' {
        Some((c as u32 - 48) as u8)
    } else if 'a' <= c && c <= 'f' {
        Some((c as u32 - 87) as u8)
    } else if 'A' <= c && c <= 'F' {
        Some((c as u32 - 55) as u8)
    } else {
        None
    }
}

/// The byte that two hexadecimal digits spell.
pub open spec fn hex_pair(a: char, b: char) -> Option<u8> {
    match (hex_digit(a), hex_digit(b)) {
        (Some(x), Some(y)) => Some((x * 16 + y) as u8),
        _ => None,
    }
}

/// `#RRGGBB`: `#` and exactly six hexadecimal digits.
pub open spec fn hex6(n: Seq<char>) -> Option<ColorSpec> {
    if n.len() == 7 {
        match (hex_pair(n[1], n[2]), hex_pair(n[3], n[4]), hex_pair(n[5], n[6])) {
            (Some(r), Some(g), Some(b)) => Some(ColorSpec::Rgb(r, g, b)),
            _ => None,
        }
    } else {
        None
    }
}

/// `#RGB`: `#` and exactly three hexadecimal digits, each doubled (`x * 17`).
pub open spec fn hex3(n: Seq<char>) -> Option<ColorSpec> {
    if n.len() == 4 {
        match (hex_digit(n[1]), hex_digit(n[2]), hex_digit(n[3])) {
            (Some(r), Some(g), Some(b)) => Some(
                ColorSpec::Rgb((r * 17) as u8, (g * 17) as u8, (b * 17) as u8),
            ),
            _ => None,
        }
    } else {
        None
    }
}

pub open spec fn decimal_digit(c: char) -> bool {
    '0' <= c && c <= '9'
}

pub open spec fn all_decimal(d: Seq<char>) -> bool {
    forall|i: int| 0 <= i < d.len() ==> decimal_digit(#[trigger] d[i])
}

/// The number that the decimal digits `d` spell.
pub open spec fn decimal_value(d: Seq<char>) -> nat
    decreases d.len(),
{
    if d.len() == 0 {
        0
    } else {
        decimal_value(d.drop_last()) * 10 + (d.last() as u32 - 48) as nat
    }
}

/// A palette index: decimal digits only, with a value of at most 255.
pub open spec fn decimal_u8(n: Seq<char>) -> Option<u8> {
    if n.len() > 0 && all_decimal(n) && decimal_value(n) <= 255 {
        Some(decimal_value(n) as u8)
    } else {
        None
    }
}

/// The colour that a colour word names, if any.
pub open spec fn named_color(n: Seq<char>) -> Option<ColorSpec> {
    if n == "black"@ {
        Some(ColorSpec::Black)
    } else if n == "red"@ {
        Some(ColorSpec::Red)
    } else if n == "green"@ {
        Some(ColorSpec::Green)
    } else if n == "yellow"@ {
        Some(ColorSpec::Yellow)
    } else if n == "blue"@ {
        Some(ColorSpec::Blue)
    } else if n == "purple"@ || n == "magenta"@ {
        Some(ColorSpec::Purple)
    } else if n == "cyan"@ {
        Some(ColorSpec::Cyan)
    } else if n == "white"@ {
        Some(ColorSpec::White)
    } else {
        None
    }
}

/// A colour: a colour word, `#RRGGBB`, `#RGB`, or a palette index `0..=255`.
/// Anything else names no colour.
pub open spec fn color_of(n: Seq<char>) -> Option<ColorSpec> {
    if named_color(n) is Some {
        named_color(n)
    } else if n.len() > 0 && n[0] == '#' {
        if n.len() == 7 {
            hex6(n)
        } else {
            hex3(n)
        }
    } else {
        match decimal_u8(n) {
            Some(v) => Some(ColorSpec::Fixed(v)),
            None => None,
        }
    }
}

// --- words of a style string ---

/// End of the word that starts at `i`: the next whitespace, or the end.
pub open spec fn word_end(s: Seq<char>, i: int) -> int
    decreases s.len() - i,
{
    if i >= s.len() || white_space(s[i]) {
        i
    } else {
        word_end(s, i + 1)
    }
}

pub proof fn lemma_word_end_bounds(s: Seq<char>, i: int)
    ensures
        i <= word_end(s, i),
        i <= s.len() ==> word_end(s, i) <= s.len(),
        i < s.len() && !white_space(s[i]) ==> i < word_end(s, i),
    decreases s.len() - i,
{
    if !(i >= s.len() || white_space(s[i])) {
        lemma_word_end_bounds(s, i + 1);
    }
}

/// The whitespace-separated words of `s[i..]` (std `str::split_whitespace`).
pub open spec fn words_from(s: Seq<char>, i: int) -> Seq<Seq<char>>
    decreases s.len() - i,
{
    if i >= s.len() {
        Seq::empty()
    } else if white_space(s[i]) {
        words_from(s, i + 1)
    } else {
        proof {
            lemma_word_end_bounds(s, i);
        }
        seq![s.subrange(i, word_end(s, i))] + words_from(s, word_end(s, i))
    }
}

/// The whitespace-separated words of `s`.
pub open spec fn words(s: Seq<char>) -> Seq<Seq<char>> {
    words_from(s, 0)
}

/// A lowercased word without its `bg:` or `fg:` prefix, and whether it names
/// a background.
pub open spec fn color_target(t: Seq<char>) -> (bool, Seq<char>) {
    if "bg:"@.len() <= t.len() && t.take("bg:"@.len() as int) == "bg:"@ {
        (true, t.skip("bg:"@.len() as int))
    } else if "fg:"@.len() <= t.len() && t.take("fg:"@.len() as int) == "fg:"@ {
        (false, t.skip("fg:"@.len() as int))
    } else {
        (false, t)
    }
}

/// Whether a lowercased word is one of the attribute keywords.
pub open spec fn is_attribute(t: Seq<char>) -> bool {
    t == "bold"@ || t == "italic"@ || t == "underline"@ || t == "dimmed"@ || t == "blink"@ || t
        == "reverse"@ || t == "hidden"@ || t == "strikethrough"@
}

/// Whether a lowercased word means something: an attribute, or a colour
/// (with or without `bg:` / `fg:`).
pub open spec fn recognised(t: Seq<char>) -> bool {
    is_attribute(t) || color_of(color_target(t).1) is Some
}

/// `st` updated by one lowercased word of a style string; a word that is
/// neither an attribute nor a colour leaves the style as it is.
pub open spec fn lowered_word_style(st: StyleSpec, t: Seq<char>) -> StyleSpec {
    if t == "bold"@ {
        StyleSpec { is_bold: true, ..st }
    } else if t == "italic"@ {
        StyleSpec { is_italic: true, ..st }
    } else if t == "underline"@ {
        StyleSpec { is_underline: true, ..st }
    } else if t == "dimmed"@ {
        StyleSpec { is_dimmed: true, ..st }
    } else if t == "blink"@ {
        StyleSpec { is_blink: true, ..st }
    } else if t == "reverse"@ {
        StyleSpec { is_reverse: true, ..st }
    } else if t == "hidden"@ {
        StyleSpec { is_hidden: true, ..st }
    } else if t == "strikethrough"@ {
        StyleSpec { is_strikethrough: true, ..st }
    } else {
        let (is_bg, name) = color_target(t);
        match color_of(name) {
            Some(c) => if is_bg {
                StyleSpec { background: Some(c), ..st }
            } else {
                StyleSpec { foreground: Some(c), ..st }
            },
            None => st,
        }
    }
}

/// `st` updated by one word of a style string, matched in lowercase.
pub open spec fn word_style(st: StyleSpec, w: Seq<char>) -> StyleSpec {
    lowered_word_style(st, lowercase(w))
}

/// The style that a sequence of words selects, applied left to right from plain.
pub open spec fn style_of_words(ws: Seq<Seq<char>>) -> StyleSpec
    decreases ws.len(),
{
    if ws.len() == 0 {
        plain_style()
    } else {
        word_style(style_of_words(ws.drop_last()), ws.last())
    }
}

/// The style that an optional style string selects (plain without one).
pub open spec fn selected_style(style: Option<Seq<char>>) -> StyleSpec {
    match style {
        Some(s) => style_of_words(words(s)),
        None => plain_style(),
    }
}

/// Every character of `s` is whitespace (so `s.trim()` is empty).
pub open spec fn all_white(s: Seq<char>) -> bool {
    forall|i: int| 0 <= i < s.len() ==> white_space(#[trigger] s[i])
}

/// `content` painted as the style string says. It is left unchanged when
/// the string selects neither attribute nor colour: no string, a blank one,
/// or one whose words are all unrecognised.
pub open spec fn styled(content: Seq<char>, style: Option<Seq<char>>) -> Seq<char> {
    if selected_style(style) == plain_style() {
        content
    } else {
        painted(content, selected_style(style))
    }
}

proof fn lemma_blank_has_no_words(s: Seq<char>, i: int)
    requires
        all_white(s),
        0 <= i,
    ensures
        words_from(s, i) == Seq::<Seq<char>>::empty(),
    decreases s.len() - i,
{
    if i < s.len() {
        assert(white_space(s[i]));
        lemma_blank_has_no_words(s, i + 1);
    }
}

// --- reading colours and words ---

/// The value of a hexadecimal digit, if `c` is one.
fn hex_nibble(c: char) -> (r: Option<u8>)
    ensures
        r == hex_digit(c),
{
    if '0' <= c && c <= '9' {
        Some((c as u32 - 48) as u8)
    } else if 'a' <= c && c <= 'f' {
        Some((c as u32 - 87) as u8)
    } else if 'A' <= c && c <= 'F' {
        Some((c as u32 - 55) as u8)
    } else {
        None
    }
}

proof fn lemma_decimal_value_push(d: Seq<char>, c: char)
    ensures
        decimal_value(d.push(c)) == decimal_value(d) * 10 + (c as u32 - 48) as nat,
{
    assert(d.push(c).drop_last() == d);
}

/// A palette index written in `t[lo..hi]`.
fn parse_decimal_u8(t: &Vec<char>, lo: usize, hi: usize) -> (r: Option<u8>)
    requires
        lo <= hi <= t.len(),
    ensures
        r == decimal_u8(t@.subrange(lo as int, hi as int)),
{
    let ghost d = t@.subrange(lo as int, hi as int);
    if lo == hi {
        return None;
    }
    let mut v: u32 = 0;
    let mut i = lo;
    while i < hi
        invariant
            lo <= i <= hi <= t.len(),
            lo < hi,
            d == t@.subrange(lo as int, hi as int),
            all_decimal(t@.subrange(lo as int, i as int)),
            v == (if decimal_value(t@.subrange(lo as int, i as int)) < 256 {
                decimal_value(t@.subrange(lo as int, i as int))
            } else {
                256
            }),
        decreases hi - i,
    {
        let c = t[i];
        if !('0' <= c && c <= '9') {
            assert(!decimal_digit(d[i - lo]));
            assert(!all_decimal(d));
            return None;
        }
        proof {
            assert(t@.subrange(lo as int, i + 1) == t@.subrange(lo as int, i as int).push(c));
            lemma_decimal_value_push(t@.subrange(lo as int, i as int), c);
        }
        let digit = c as u32 - 48;
        v = if v * 10 + digit < 256 {
            v * 10 + digit
        } else {
            256
        };
        i = i + 1;
    }
    if v <= 255 {
        Some(v as u8)
    } else {
        None
    }
}

/// The byte that two hexadecimal digits spell.
fn parse_hex_pair(a: char, b: char) -> (r: Option<u8>)
    ensures
        r == hex_pair(a, b),
{
    match (hex_nibble(a), hex_nibble(b)) {
        (Some(x), Some(y)) => Some(x * 16 + y),
        _ => None,
    }
}

/// The colour that `t[lo..hi]` names, if any: one of the eight names
/// (`magenta` for `purple`), `#rrggbb`, the short `#rgb` with each digit
/// doubled, or a palette index from 0 to 255.
pub fn parse_color(t: &Vec<char>, lo: usize, hi: usize) -> (r: Option<ColorSpec>)
    requires
        lo <= hi <= t.len(),
    ensures
        r == color_of(t@.subrange(lo as int, hi as int)),
{
    let ghost n = t@.subrange(lo as int, hi as int);
    if range_is(t, lo, hi, "black") {
        return Some(ColorSpec::Black);
    } else if range_is(t, lo, hi, "red") {
        return Some(ColorSpec::Red);
    } else if range_is(t, lo, hi, "green") {
        return Some(ColorSpec::Green);
    } else if range_is(t, lo, hi, "yellow") {
        return Some(ColorSpec::Yellow);
    } else if range_is(t, lo, hi, "blue") {
        return Some(ColorSpec::Blue);
    } else if range_is(t, lo, hi, "purple") || range_is(t, lo, hi, "magenta") {
        return Some(ColorSpec::Purple);
    } else if range_is(t, lo, hi, "cyan") {
        return Some(ColorSpec::Cyan);
    } else if range_is(t, lo, hi, "white") {
        return Some(ColorSpec::White);
    }
    assert(named_color(n) is None);
    if hi > lo && t[lo] == '#' {
        if hi - lo == 7 {
            let r = parse_hex_pair(t[lo + 1], t[lo + 2]);
            let g = parse_hex_pair(t[lo + 3], t[lo + 4]);
            let b = parse_hex_pair(t[lo + 5], t[lo + 6]);
            return match (r, g, b) {
                (Some(r), Some(g), Some(b)) => Some(ColorSpec::Rgb(r, g, b)),
                _ => None,
            };
        }
        if hi - lo == 4 {
            let r = hex_nibble(t[lo + 1]);
            let g = hex_nibble(t[lo + 2]);
            let b = hex_nibble(t[lo + 3]);
            return match (r, g, b) {
                (Some(r), Some(g), Some(b)) => Some(ColorSpec::Rgb(r * 17, g * 17, b * 17)),
                _ => None,
            };
        }
        return None;
    }
    match parse_decimal_u8(t, lo, hi) {
        Some(v) => Some(ColorSpec::Fixed(v)),
        None => None,
    }
}

/// `st` updated by the lowercased word `t`: an attribute keyword sets that
/// attribute, a colour (after an optional `bg:` or `fg:`) sets the background
/// or foreground, and anything else leaves `st` as it is.
pub fn style_with_word(st: StyleSpec, t: &Vec<char>) -> (r: StyleSpec)
    ensures
        r == lowered_word_style(st, t@),
{
    let n = t.len();
    assert(t@.subrange(0, n as int) == t@);
    if range_is(t, 0, n, "bold") {
        return StyleSpec { is_bold: true, ..st };
    } else if range_is(t, 0, n, "italic") {
        return StyleSpec { is_italic: true, ..st };
    } else if range_is(t, 0, n, "underline") {
        return StyleSpec { is_underline: true, ..st };
    } else if range_is(t, 0, n, "dimmed") {
        return StyleSpec { is_dimmed: true, ..st };
    } else if range_is(t, 0, n, "blink") {
        return StyleSpec { is_blink: true, ..st };
    } else if range_is(t, 0, n, "reverse") {
        return StyleSpec { is_reverse: true, ..st };
    } else if range_is(t, 0, n, "hidden") {
        return StyleSpec { is_hidden: true, ..st };
    } else if range_is(t, 0, n, "strikethrough") {
        return StyleSpec { is_strikethrough: true, ..st };
    }
    proof {
        reveal_strlit("bg:");
        reveal_strlit("fg:");
    }
    let (is_bg, start) = if range_starts_with(t, 0, n, "bg:") {
        (true, 3)
    } else if range_starts_with(t, 0, n, "fg:") {
        (false, 3)
    } else {
        (false, 0)
    };
    assert(t@.subrange(start as int, n as int) == color_target(t@).1);
    assert(is_bg == color_target(t@).0);
    match parse_color(t, start, n) {
        Some(c) => if is_bg {
            StyleSpec { background: Some(c), ..st }
        } else {
            StyleSpec { foreground: Some(c), ..st }
        },
        None => st,
    }
}

/// `st` updated by the word `cs[lo..hi]`.
fn apply_word(st: StyleSpec, cs: &Vec<char>, lo: usize, hi: usize) -> (r: StyleSpec)
    requires
        lo <= hi <= cs.len(),
    ensures
        r == word_style(st, cs@.subrange(lo as int, hi as int)),
{
    let t = lowercase_of(cs, lo, hi);
    style_with_word(st, &t)
}

/// `out` is `content` with `before` in front and `after` behind.
pub open spec fn encloses(out: Seq<char>, before: Seq<char>, content: Seq<char>, after: Seq<char>) -> bool {
    out == before + content + after
}

/// The style string as a character sequence, if any.
pub open spec fn style_view(style_str: Option<&str>) -> Option<Seq<char>> {
    match style_str {
        Some(s) => Some(s@),
        None => None,
    }
}

/// Apply a Starship-compatible style string to content.
/// Style string format: space-separated tokens like "bold green" or "fg:red bg:blue".
/// Returns plain content string if style_str is None or empty, or when no
/// word of it is recognised.
pub fn apply_style(content: &str, style_str: Option<&str>) -> (out: String)
    ensures
        out@ == styled(content@, style_view(style_str)),
        selected_style(style_view(style_str)) == plain_style() ==> out@ == content@,
        selected_style(style_view(style_str)) != plain_style() ==> exists|p: Seq<char>|
            #[trigger] ansi_wrapped(out@, p, content@),
        stripped(out@) == stripped(content@),
        display_columns(out@) == display_columns(content@),
        exists|before: Seq<char>, after: Seq<char>| #[trigger] encloses(out@, before, content@, after),
{
    let style_str = match style_str {
        None => {
            let out = content.to_owned();
            assert(encloses(out@, Seq::<char>::empty(), content@, Seq::<char>::empty()));
            return out;
        },
        Some(s) => s,
    };
    let cs = chars_of(style_str);
    let n = cs.len();
    let mut blank = true;
    let mut k: usize = 0;
    while k < n
        invariant
            k <= n == cs.len(),
            blank == (forall|j: int| 0 <= j < k ==> white_space(#[trigger] cs@[j])),
        decreases n - k,
    {
        if !is_white_space(cs[k]) {
            blank = false;
        }
        k = k + 1;
    }
    if blank {
        proof {
            assert(all_white(cs@));
            lemma_blank_has_no_words(cs@, 0);
        }
        let out = content.to_owned();
        assert(encloses(out@, Seq::<char>::empty(), content@, Seq::<char>::empty()));
        return out;
    }
    let mut st = StyleSpec::plain();
    let ghost mut done: Seq<Seq<char>> = Seq::empty();
    let mut i: usize = 0;
    while i < n
        invariant
            i <= n == cs.len(),
            cs@ == style_str@,
            done + words_from(cs@, i as int) == words(cs@),
            st == style_of_words(done),
        decreases n - i,
    {
        if is_white_space(cs[i]) {
            i = i + 1;
        } else {
            let mut e = i;
            while e < n && !is_white_space(cs[e])
                invariant
                    i <= e <= n == cs.len(),
                    word_end(cs@, e as int) == word_end(cs@, i as int),
                decreases n - e,
            {
                e = e + 1;
            }
            let ghost w = cs@.subrange(i as int, e as int);
            proof {
                lemma_word_end_bounds(cs@, i as int);
                assert(words_from(cs@, i as int) == seq![w] + words_from(cs@, e as int));
            }
            st = apply_word(st, &cs, i, e);
            proof {
                assert(done.push(w).drop_last() == done);
                assert(done.push(w) + words_from(cs@, e as int) == done + words_from(cs@, i as int));
                done = done.push(w);
            }
            i = e;
        }
    }
    assert(done == words(cs@));
    let out = paint(content, &st);
    proof {
        if st != plain_style() {
            let p = choose|p: Seq<char>| #[trigger] ansi_wrapped(out@, p, content@);
            lemma_strip_wrapped(out@, p, content@);
            assert(encloses(out@, p, content@, reset_code()));
        } else {
            assert(encloses(out@, Seq::<char>::empty(), content@, Seq::<char>::empty()));
        }
    }
    out
}

// --- laws of styling ---

/// A word that is neither an attribute nor a colour leaves the style as it is.
pub proof fn law_unknown_word_is_ignored(st: StyleSpec, w: Seq<char>)
    requires
        !recognised(lowercase(w)),
    ensures
        word_style(st, w) == st,
{
}

/// A recognised word always leaves some attribute or colour set, and no word
/// clears what is set.
pub proof fn law_words_only_add(st: StyleSpec, w: Seq<char>)
    ensures
        recognised(lowercase(w)) ==> word_style(st, w) != plain_style(),
        st != plain_style() ==> word_style(st, w) != plain_style(),
{
}

/// A sequence of words selects the plain style exactly when none of its words
/// is recognised.
pub proof fn law_plain_iff_nothing_recognised(ws: Seq<Seq<char>>)
    ensures
        style_of_words(ws) == plain_style() <==> forall|k: int|
            0 <= k < ws.len() ==> !recognised(lowercase(#[trigger] ws[k])),
    decreases ws.len(),
{
    if ws.len() > 0 {
        law_plain_iff_nothing_recognised(ws.drop_last());
        law_words_only_add(style_of_words(ws.drop_last()), ws.last());
        if forall|k: int| 0 <= k < ws.len() ==> !recognised(lowercase(#[trigger] ws[k])) {
            assert forall|k: int| 0 <= k < ws.drop_last().len() implies !recognised(
                lowercase(#[trigger] ws.drop_last()[k]),
            ) by {
                assert(ws.drop_last()[k] == ws[k]);
            }
            assert(!recognised(lowercase(ws[ws.len() - 1])));
        }
        if style_of_words(ws) == plain_style() {
            assert forall|k: int| 0 <= k < ws.len() implies !recognised(lowercase(#[trigger] ws[k])) by {
                if k < ws.len() - 1 {
                    assert(ws.drop_last()[k] == ws[k]);
                }
            }
        }
    }
}

/// A style string none of whose words is recognised gives the content back
/// unchanged: unknown words are silently skipped.
pub proof fn law_unrecognised_style_gives_content(content: Seq<char>, s: Seq<char>)
    requires
        forall|k: int| 0 <= k < words(s).len() ==> !recognised(lowercase(#[trigger] words(s)[k])),
    ensures
        styled(content, Some(s)) == content,
{
    law_plain_iff_nothing_recognised(words(s));
}

/// Without a style, or with a blank one, the content comes back unchanged.
pub proof fn law_no_style_is_plain(content: Seq<char>, style: Option<Seq<char>>)
    requires
        style matches Some(s) ==> all_white(s),
    ensures
        styled(content, style) == content,
{
    if let Some(s) = style {
        lemma_blank_has_no_words(s, 0);
    }
}

/// `#RGB` is `#RRGGBB` with each digit doubled.
pub proof fn law_short_hex_doubles_digits(a: char, b: char, c: char)
    requires
        hex_digit(a) is Some,
        hex_digit(b) is Some,
        hex_digit(c) is Some,
    ensures
        color_of(seq!['#', a, b, c]) == color_of(seq!['#', a, a, b, b, c, c]),
        color_of(seq!['#', a, b, c]) == Some(
            ColorSpec::Rgb(
                (hex_digit(a)->0 * 17) as u8,
                (hex_digit(b)->0 * 17) as u8,
                (hex_digit(c)->0 * 17) as u8,
            ),
        ),
{
    reveal_strlit("black");
    reveal_strlit("red");
    reveal_strlit("green");
    reveal_strlit("yellow");
    reveal_strlit("blue");
    reveal_strlit("purple");
    reveal_strlit("magenta");
    reveal_strlit("cyan");
    reveal_strlit("white");
    let short = seq!['#', a, b, c];
    let long = seq!['#', a, a, b, b, c, c];
    assert(short[0] == '#' && long[0] == '#');
    assert(short != "black"@ && short != "red"@ && short != "green"@ && short != "yellow"@);
    assert(short != "blue"@ && short != "purple"@ && short != "magenta"@ && short != "cyan"@);
    assert(short != "white"@);
    assert(long != "black"@ && long != "red"@ && long != "green"@ && long != "yellow"@);
    assert(long != "blue"@ && long != "purple"@ && long != "magenta"@ && long != "cyan"@);
    assert(long != "white"@);
    assert(short.len() == 4 && long.len() == 7);
    assert(short[1] == a && short[2] == b && short[3] == c);
    assert(long[1] == a && long[2] == a && long[3] == b && long[4] == b && long[5] == c && long[6]
        == c);
}

// ---------------------------------------------------------------------------
// Width
// ---------------------------------------------------------------------------

/// The display width of `s`: the columns of its plain text.
pub open spec fn display_columns(s: Seq<char>) -> usize {
    str_columns(stripped(s))
}

/// Display width of `s` in terminal columns, ignoring ANSI escape sequences.
///
/// Strips ANSI first, then measures Unicode width (CJK and emoji count as 2,
/// combining marks as 0). Used to size `$fill` gaps.
pub fn display_width(s: &str) -> (w: usize)
    ensures
        w == display_columns(s@),
        stripped(s@).len() == 0 ==> w == 0,
{
    let plain = strip_ansi(s);
    columns_of(plain.as_str())
}

// ---------------------------------------------------------------------------
// Threshold escalation
// ---------------------------------------------------------------------------

/// The style in force once thresholds are weighed: `critical_style` when the
/// critical threshold is reached and that style is set, else `warn_style` when
/// the warn threshold is reached and that style is set, else `style`.
pub open spec fn escalated<'a>(
    style: Option<&'a str>,
    warn_reached: bool,
    warn_style: Option<&'a str>,
    critical_reached: bool,
    critical_style: Option<&'a str>,
) -> Option<&'a str> {
    if critical_reached && critical_style is Some {
        critical_style
    } else if warn_reached && warn_style is Some {
        warn_style
    } else {
        style
    }
}

/// Choose among the base, warn and critical styles, given whether the value
/// reached each threshold (a threshold that is not set is never reached).
pub fn escalate_style<'a>(
    style: Option<&'a str>,
    warn_reached: bool,
    warn_style: Option<&'a str>,
    critical_reached: bool,
    critical_style: Option<&'a str>,
) -> (r: Option<&'a str>)
    ensures
        r == escalated(style, warn_reached, warn_style, critical_reached, critical_style),
{
    if critical_reached {
        if let Some(crit) = critical_style {
            return Some(crit);
        }
    }
    if warn_reached {
        if let Some(warn) = warn_style {
            return Some(warn);
        }
    }
    style
}

/// How far a choice escalates: 2 for the critical style, 1 for the warn
/// style, 0 for the base style.
pub open spec fn escalation_level(
    warn_reached: bool,
    warn_style: Option<&str>,
    critical_reached: bool,
    critical_style: Option<&str>,
) -> nat {
    if critical_reached && critical_style is Some {
        2
    } else if warn_reached && warn_style is Some {
        1
    } else {
        0
    }
}

/// Escalation is monotone: reaching more thresholds never chooses a lower
/// style, and the style chosen is the one of its level.
pub proof fn law_escalation_is_monotone<'a>(
    style: Option<&'a str>,
    warn_style: Option<&'a str>,
    critical_style: Option<&'a str>,
    warn1: bool,
    crit1: bool,
    warn2: bool,
    crit2: bool,
)
    requires
        warn1 ==> warn2,
        crit1 ==> crit2,
    ensures
        escalation_level(warn1, warn_style, crit1, critical_style) <= escalation_level(
            warn2,
            warn_style,
            crit2,
            critical_style,
        ),
        escalated(style, warn2, warn_style, crit2, critical_style) == (if escalation_level(
            warn2,
            warn_style,
            crit2,
            critical_style,
        ) == 2 {
            critical_style
        } else if escalation_level(warn2, warn_style, crit2, critical_style) == 1 {
            warn_style
        } else {
            style
        }),
{
}


// ---------------------------------------------------------------------------
// What each keyword means
// ---------------------------------------------------------------------------

/// The keywords of a style string, told apart by length and by their first
/// and third characters.
proof fn lemma_keywords_differ()
    ensures
        "bold"@.len() == 4 && "bold"@[0] == 'b' && "bold"@[2] == 'l',
        "italic"@.len() == 6 && "italic"@[0] == 'i' && "italic"@[2] == 'a',
        "underline"@.len() == 9 && "underline"@[0] == 'u' && "underline"@[2] == 'd',
        "dimmed"@.len() == 6 && "dimmed"@[0] == 'd' && "dimmed"@[2] == 'm',
        "blink"@.len() == 5 && "blink"@[0] == 'b' && "blink"@[2] == 'i',
        "reverse"@.len() == 7 && "reverse"@[0] == 'r' && "reverse"@[2] == 'v',
        "hidden"@.len() == 6 && "hidden"@[0] == 'h' && "hidden"@[2] == 'd',
        "strikethrough"@.len() == 13 && "strikethrough"@[0] == 's' && "strikethrough"@[2] == 'r',
        "black"@.len() == 5 && "black"@[0] == 'b' && "black"@[2] == 'a',
        "red"@.len() == 3 && "red"@[0] == 'r' && "red"@[2] == 'd',
        "green"@.len() == 5 && "green"@[0] == 'g' && "green"@[2] == 'e',
        "yellow"@.len() == 6 && "yellow"@[0] == 'y' && "yellow"@[2] == 'l',
        "blue"@.len() == 4 && "blue"@[0] == 'b' && "blue"@[2] == 'u',
        "purple"@.len() == 6 && "purple"@[0] == 'p' && "purple"@[2] == 'r',
        "magenta"@.len() == 7 && "magenta"@[0] == 'm' && "magenta"@[2] == 'g',
        "cyan"@.len() == 4 && "cyan"@[0] == 'c' && "cyan"@[2] == 'a',
        "white"@.len() == 5 && "white"@[0] == 'w' && "white"@[2] == 'i',
        "bg:"@.len() == 3 && "bg:"@[0] == 'b' && "bg:"@[2] == ':',
        "fg:"@.len() == 3 && "fg:"@[0] == 'f' && "fg:"@[2] == ':',
{
    reveal_strlit("bold");
    reveal_strlit("italic");
    reveal_strlit("underline");
    reveal_strlit("dimmed");
    reveal_strlit("blink");
    reveal_strlit("reverse");
    reveal_strlit("hidden");
    reveal_strlit("strikethrough");
    reveal_strlit("black");
    reveal_strlit("red");
    reveal_strlit("green");
    reveal_strlit("yellow");
    reveal_strlit("blue");
    reveal_strlit("purple");
    reveal_strlit("magenta");
    reveal_strlit("cyan");
    reveal_strlit("white");
    reveal_strlit("bg:");
    reveal_strlit("fg:");
}

/// Each attribute keyword turns on its namesake attribute and changes nothing
/// else of the style it is applied to.
pub proof fn law_attribute_sets_its_own_flag(st: StyleSpec)
    ensures
        lowered_word_style(st, "bold"@) == (StyleSpec { is_bold: true, ..st }),
        lowered_word_style(st, "italic"@) == (StyleSpec { is_italic: true, ..st }),
        lowered_word_style(st, "underline"@) == (StyleSpec { is_underline: true, ..st }),
        lowered_word_style(st, "dimmed"@) == (StyleSpec { is_dimmed: true, ..st }),
        lowered_word_style(st, "blink"@) == (StyleSpec { is_blink: true, ..st }),
        lowered_word_style(st, "reverse"@) == (StyleSpec { is_reverse: true, ..st }),
        lowered_word_style(st, "hidden"@) == (StyleSpec { is_hidden: true, ..st }),
        lowered_word_style(st, "strikethrough"@) == (StyleSpec { is_strikethrough: true, ..st }),
{
    lemma_keywords_differ();
}

/// Each colour word names its namesake colour (`magenta` is another name for
/// purple), and the eight names stand for eight different colours.
pub proof fn law_colour_words_name_their_colour()
    ensures
        color_of("black"@) == Some(ColorSpec::Black),
        color_of("red"@) == Some(ColorSpec::Red),
        color_of("green"@) == Some(ColorSpec::Green),
        color_of("yellow"@) == Some(ColorSpec::Yellow),
        color_of("blue"@) == Some(ColorSpec::Blue),
        color_of("purple"@) == Some(ColorSpec::Purple),
        color_of("magenta"@) == Some(ColorSpec::Purple),
        color_of("cyan"@) == Some(ColorSpec::Cyan),
        color_of("white"@) == Some(ColorSpec::White),
        forall|a: Seq<char>, b: Seq<char>|
            #![trigger color_of(a), color_of(b)]
            is_colour_word(a) && is_colour_word(b) && color_of(a) == color_of(b) ==> (a == b || (
            a == "purple"@ && b == "magenta"@) || (a == "magenta"@ && b == "purple"@)),
{
    lemma_keywords_differ();
}

/// The colour words a style string may use.
pub open spec fn is_colour_word(n: Seq<char>) -> bool {
    n == "black"@ || n == "red"@ || n == "green"@ || n == "yellow"@ || n == "blue"@ || n
        == "purple"@ || n == "magenta"@ || n == "cyan"@ || n == "white"@
}

/// A colour word after `fg:` (or on its own) sets the foreground to that
/// colour, and after `bg:` the background; nothing else of the style changes.
pub proof fn law_colour_word_sets_one_colour(st: StyleSpec, n: Seq<char>)
    requires
        is_colour_word(n),
    ensures
        lowered_word_style(st, "fg:"@ + n) == (StyleSpec { foreground: color_of(n), ..st }),
        lowered_word_style(st, "bg:"@ + n) == (StyleSpec { background: color_of(n), ..st }),
        lowered_word_style(st, n) == (StyleSpec { foreground: color_of(n), ..st }),
{
    lemma_keywords_differ();
    let f = "fg:"@ + n;
    let b = "bg:"@ + n;
    assert(f.take(3) =~= "fg:"@);
    assert(f.skip(3) =~= n);
    assert(b.take(3) =~= "bg:"@);
    assert(b.skip(3) =~= n);
    assert(f[0] == 'f' && b[0] == 'b');
    assert(!is_attribute(f) && !is_attribute(b) && !is_attribute(n)) by {
        if n.len() > 0 {
            assert(f.len() > 3);
        }
    }
}

// ---------------------------------------------------------------------------
// Which threshold style wins
// ---------------------------------------------------------------------------

/// Reaching the critical threshold with a critical style set always selects
/// the critical style, whether or not the warn threshold was reached.
pub proof fn law_critical_style_wins<'a>(
    style: Option<&'a str>,
    warn_reached: bool,
    warn_style: Option<&'a str>,
    critical_style: &'a str,
)
    ensures
        escalated(style, warn_reached, warn_style, true, Some(critical_style)) == Some(
            critical_style,
        ),
{
}

/// Short of the critical style, reaching the warn threshold with a warn style
/// set selects the warn style; with neither, the base style stays.
pub proof fn law_warn_style_then_base<'a>(
    style: Option<&'a str>,
    warn_reached: bool,
    warn_style: Option<&'a str>,
    critical_reached: bool,
    critical_style: Option<&'a str>,
)
    requires
        !(critical_reached && critical_style is Some),
    ensures
        warn_reached && warn_style is Some ==> escalated(
            style,
            warn_reached,
            warn_style,
            critical_reached,
            critical_style,
        ) == warn_style,
        !(warn_reached && warn_style is Some) ==> escalated(
            style,
            warn_reached,
            warn_style,
            critical_reached,
            critical_style,
        ) == style,
{
}

// ---------------------------------------------------------------------------
// Hexadecimal colours
// ---------------------------------------------------------------------------

/// The hexadecimal digits in order of value, lowercase and uppercase.
pub open spec fn hex_lower() -> Seq<char> {
    seq!['0', '1', '2', '3', '4', '5', '6', '7', '8', '9', 'a', 'b', 'c', 'd', 'e', 'f']
}

pub open spec fn hex_upper() -> Seq<char> {
    seq!['0', '1', '2', '3', '4', '5', '6', '7', '8', '9', 'A', 'B', 'C', 'D', 'E', 'F']
}

/// A hexadecimal digit is worth its place in `0123456789abcdef` (either case);
/// no other character is a digit.
pub proof fn law_hex_digit_values(c: char, v: int)
    requires
        0 <= v < 16,
    ensures
        hex_digit(hex_lower()[v]) == Some(v as u8),
        hex_digit(hex_upper()[v]) == Some(v as u8),
        hex_digit(c) is Some <==> hex_lower().contains(c) || hex_upper().contains(c),
{
    if hex_digit(c) is Some {
        let n = c as u32;
        if '0' <= c && c <= '9' {
            assert(hex_lower()[n - 48] == c);
        } else if 'a' <= c && c <= 'f' {
            assert(hex_lower()[n - 87] == c);
        } else {
            assert(hex_upper()[n - 55] == c);
        }
    }
}

/// `#` and six hexadecimal digits is the 24-bit colour whose channels are the
/// three two-digit numbers, high digit first.
pub proof fn law_full_hex_colour(r1: int, r2: int, g1: int, g2: int, b1: int, b2: int)
    requires
        0 <= r1 < 16,
        0 <= r2 < 16,
        0 <= g1 < 16,
        0 <= g2 < 16,
        0 <= b1 < 16,
        0 <= b2 < 16,
    ensures
        color_of(
            seq![
                '#',
                hex_lower()[r1],
                hex_lower()[r2],
                hex_lower()[g1],
                hex_lower()[g2],
                hex_lower()[b1],
                hex_lower()[b2],
            ],
        ) == Some(
            ColorSpec::Rgb((16 * r1 + r2) as u8, (16 * g1 + g2) as u8, (16 * b1 + b2) as u8),
        ),
{
    let n = seq![
        '#',
        hex_lower()[r1],
        hex_lower()[r2],
        hex_lower()[g1],
        hex_lower()[g2],
        hex_lower()[b1],
        hex_lower()[b2],
    ];
    law_hex_digit_values('0', r1);
    law_hex_digit_values('0', r2);
    law_hex_digit_values('0', g1);
    law_hex_digit_values('0', g2);
    law_hex_digit_values('0', b1);
    law_hex_digit_values('0', b2);
    lemma_keywords_differ();
    assert(n[0] == '#');
    assert(named_color(n) is None) by {
        assert(n.len() == 7);
    }
}

} // verus!
