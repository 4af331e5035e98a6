//! Format strings: tokenizing a line and laying out its rendered pieces.
use crate::ansi::{
    apply_style, display_columns, display_width, plain_style, selected_style, stripped, style_view,
    styled,
};
use crate::config::CshipConfig;
use crate::text::{
    chars_of, is_white_space, push_char, range_is, range_starts_with, string_of, white_space,
};
use vstd::prelude::*;
use vstd::string::StringExecFns;

verus! {

// ---------------------------------------------------------------------------
// Tokens
// ---------------------------------------------------------------------------

/// One element of a format line.
#[derive(Debug, PartialEq, Eq)]
pub enum Token {
    /// `$cship.<name>`: a native module.
    Native(String),
    /// `$<name>`: a module rendered by Starship.
    Passthrough(String),
    /// `$starship_prompt`: the whole Starship prompt.
    StarshipPrompt,
    /// Bare text, kept verbatim.
    Literal(String),
    /// `[content](style)`.
    StyledSpan { content: String, style: String },
    /// `$fill`: grows to fill the remaining width.
    Fill,
}

/// A token with its text as character sequences.
pub enum TokenView {
    Native(Seq<char>),
    Passthrough(Seq<char>),
    StarshipPrompt,
    Literal(Seq<char>),
    StyledSpan { content: Seq<char>, style: Seq<char> },
    Fill,
}

impl View for Token {
    type V = TokenView;

    open spec fn view(&self) -> TokenView {
        match self {
            Token::Native(n) => TokenView::Native(n@),
            Token::Passthrough(n) => TokenView::Passthrough(n@),
            Token::StarshipPrompt => TokenView::StarshipPrompt,
            Token::Literal(t) => TokenView::Literal(t@),
            Token::StyledSpan { content, style } => TokenView::StyledSpan {
                content: content@,
                style: style@,
            },
            Token::Fill => TokenView::Fill,
        }
    }
}

pub open spec fn tokens_view(ts: Seq<Token>) -> Seq<TokenView> {
    ts.map_values(|t: Token| t@)
}

/// `$` and `[` start tokens; other text is literal.
pub open spec fn is_special(c: char) -> bool {
    c == '$' || c == '['
}

/// A `$name` ends at whitespace, `[` or `$`.
pub open spec fn ends_name(c: char) -> bool {
    white_space(c) || c == '[' || c == '$'
}

/// The first index at or after `i` that holds `$` or `[`, or the end of `s`.
pub open spec fn next_special(s: Seq<char>, i: int) -> int
    decreases s.len() - i,
{
    if i >= s.len() || is_special(s[i]) {
        i
    } else {
        next_special(s, i + 1)
    }
}

/// The first index at or after `i` that ends a `$name`, or the end of `s`.
pub open spec fn name_end(s: Seq<char>, i: int) -> int
    decreases s.len() - i,
{
    if i >= s.len() || ends_name(s[i]) {
        i
    } else {
        name_end(s, i + 1)
    }
}

/// The first index `k >= i` where `s` holds `](`.
pub open spec fn span_close(s: Seq<char>, i: int) -> Option<int>
    decreases s.len() - i,
{
    if i + 1 >= s.len() {
        None
    } else if s[i] == ']' && s[i + 1] == '(' {
        Some(i)
    } else {
        span_close(s, i + 1)
    }
}

/// The first index `k >= i` where `s` holds `)`.
pub open spec fn paren_close(s: Seq<char>, i: int) -> Option<int>
    decreases s.len() - i,
{
    if i >= s.len() {
        None
    } else if s[i] == ')' {
        Some(i)
    } else {
        paren_close(s, i + 1)
    }
}

pub proof fn lemma_scan_bounds(s: Seq<char>, i: int)
    ensures
        i <= next_special(s, i),
        i <= name_end(s, i),
        span_close(s, i) matches Some(k) ==> i <= k && k + 1 < s.len(),
        paren_close(s, i) matches Some(k) ==> i <= k < s.len(),
        0 <= i <= s.len() ==> next_special(s, i) <= s.len() && name_end(s, i) <= s.len(),
    decreases s.len() - i,
{
    if i < s.len() {
        lemma_scan_bounds(s, i + 1);
    }
}

/// What a `$name` stands for.
pub open spec fn classify(name: Seq<char>) -> TokenView {
    if name == "fill"@ {
        TokenView::Fill
    } else if name == "starship_prompt"@ {
        TokenView::StarshipPrompt
    } else if "cship."@.len() <= name.len() && name.take("cship."@.len() as int) == "cship."@ {
        TokenView::Native(name)
    } else {
        TokenView::Passthrough(name)
    }
}

/// The tokens of `s[i..]`, scanning left to right:
/// - at `[`: a styled span `[content](style)` when a `](` follows and a `)`
///   follows that, else a literal `[`;
/// - at `$`: the name up to whitespace, `[`, `$` or the end (a `$` with an
///   empty name yields nothing);
/// - otherwise: literal text up to the next `$` or `[`.
pub open spec fn parse_from(s: Seq<char>, i: int) -> Seq<TokenView>
    decreases s.len() - i,
{
    if i < 0 || i >= s.len() {
        Seq::empty()
    } else {
        proof {
            lemma_scan_bounds(s, i);
            lemma_scan_bounds(s, i + 1);
        }
        if s[i] == '[' {
            match span_close(s, i + 1) {
                Some(k) => {
                    proof {
                        lemma_scan_bounds(s, k + 2);
                    }
                    match paren_close(s, k + 2) {
                        Some(p) => seq![
                            TokenView::StyledSpan {
                                content: s.subrange(i + 1, k),
                                style: s.subrange(k + 2, p),
                            },
                        ] + parse_from(s, p + 1),
                        None => seq![TokenView::Literal(seq!['['])] + parse_from(s, i + 1),
                    }
                },
                None => seq![TokenView::Literal(seq!['['])] + parse_from(s, i + 1),
            }
        } else if next_special(s, i) > i {
            seq![TokenView::Literal(s.subrange(i, next_special(s, i)))] + parse_from(
                s,
                next_special(s, i),
            )
        } else {
            let name = s.subrange(i + 1, name_end(s, i + 1));
            if name.len() > 0 {
                seq![classify(name)] + parse_from(s, name_end(s, i + 1))
            } else {
                parse_from(s, name_end(s, i + 1))
            }
        }
    }
}

/// The tokens of a format line.
pub open spec fn parsed(line: Seq<char>) -> Seq<TokenView> {
    parse_from(line, 0)
}

fn find_next_special(cs: &Vec<char>, i: usize) -> (r: usize)
    requires
        i <= cs.len(),
    ensures
        r == next_special(cs@, i as int),
{
    let mut j = i;
    while j < cs.len() && cs[j] != '$' && cs[j] != '['
        invariant
            i <= j <= cs.len(),
            next_special(cs@, j as int) == next_special(cs@, i as int),
        decreases cs.len() - j,
    {
        j = j + 1;
    }
    j
}

fn find_name_end(cs: &Vec<char>, i: usize) -> (r: usize)
    requires
        i <= cs.len(),
    ensures
        r == name_end(cs@, i as int),
{
    let mut j = i;
    while j < cs.len() && !is_white_space(cs[j]) && cs[j] != '[' && cs[j] != '$'
        invariant
            i <= j <= cs.len(),
            name_end(cs@, j as int) == name_end(cs@, i as int),
        decreases cs.len() - j,
    {
        j = j + 1;
    }
    j
}

fn find_span_close(cs: &Vec<char>, i: usize) -> (r: Option<usize>)
    requires
        i <= cs.len(),
    ensures
        match r {
            Some(k) => span_close(cs@, i as int) == Some(k as int),
            None => span_close(cs@, i as int) is None,
        },
{
    let mut j = i;
    while cs.len() > 0 && j < cs.len() - 1
        invariant
            i <= j <= cs.len(),
            span_close(cs@, j as int) == span_close(cs@, i as int),
        decreases cs.len() - j,
    {
        if cs[j] == ']' && cs[j + 1] == '(' {
            return Some(j);
        }
        j = j + 1;
    }
    None
}

fn find_paren_close(cs: &Vec<char>, i: usize) -> (r: Option<usize>)
    requires
        i <= cs.len(),
    ensures
        match r {
            Some(k) => paren_close(cs@, i as int) == Some(k as int),
            None => paren_close(cs@, i as int) is None,
        },
{
    let mut j = i;
    while j < cs.len()
        invariant
            i <= j <= cs.len(),
            paren_close(cs@, j as int) == paren_close(cs@, i as int),
        decreases cs.len() - j,
    {
        if cs[j] == ')' {
            return Some(j);
        }
        j = j + 1;
    }
    None
}

/// The token for the `$name` held in `cs[lo..hi]`.
fn classify_name(cs: &Vec<char>, lo: usize, hi: usize) -> (t: Token)
    requires
        lo <= hi <= cs.len(),
    ensures
        t@ == classify(cs@.subrange(lo as int, hi as int)),
{
    let ghost name = cs@.subrange(lo as int, hi as int);
    if range_is(cs, lo, hi, "fill") {
        Token::Fill
    } else if range_is(cs, lo, hi, "starship_prompt") {
        Token::StarshipPrompt
    } else if range_starts_with(cs, lo, hi, "cship.") {
        proof {
            assert(name.take("cship."@.len() as int) == cs@.subrange(
                lo as int,
                lo + "cship."@.len(),
            ));
        }
        Token::Native(string_of(cs, lo, hi))
    } else {
        proof {
            if "cship."@.len() <= name.len() {
                assert(name.take("cship."@.len() as int) == cs@.subrange(
                    lo as int,
                    lo + "cship."@.len(),
                ));
            }
        }
        Token::Passthrough(string_of(cs, lo, hi))
    }
}

/// Split a format line into tokens (see `parse_from`).
pub fn parse_line(line: &str) -> (tokens: Vec<Token>)
    ensures
        tokens_view(tokens@) == parsed(line@),
{
    let cs = chars_of(line);
    let n = cs.len();
    let mut tokens: Vec<Token> = Vec::new();
    let mut pos: usize = 0;
    while pos < n
        invariant
            n == cs.len(),
            cs@ == line@,
            pos <= n,
            tokens_view(tokens@) + parse_from(cs@, pos as int) == parsed(cs@),
        decreases n - pos,
    {
        let ghost before = tokens@;
        proof {
            lemma_scan_bounds(cs@, pos as int);
            lemma_scan_bounds(cs@, pos + 1);
        }
        if cs[pos] == '[' {
            let mut spanned = false;
            if let Some(k) = find_span_close(&cs, pos + 1) {
                proof {
                    lemma_scan_bounds(cs@, k + 2);
                }
                if let Some(p) = find_paren_close(&cs, k + 2) {
                    let content = string_of(&cs, pos + 1, k);
                    let style = string_of(&cs, k + 2, p);
                    tokens.push(Token::StyledSpan { content, style });
                    proof {
                        assert(tokens_view(tokens@) == tokens_view(before).push(tokens@.last()@));
                        assert(parse_from(cs@, pos as int) == seq![tokens@.last()@] + parse_from(
                            cs@,
                            p + 1,
                        ));
                    }
                    pos = p + 1;
                    spanned = true;
                }
            }
            if !spanned {
                tokens.push(Token::Literal(string_of(&cs, pos, pos + 1)));
                proof {
                    assert(tokens_view(tokens@) == tokens_view(before).push(tokens@.last()@));
                    assert(cs@.subrange(pos as int, pos + 1) =~= seq!['[']);
                    assert(parse_from(cs@, pos as int) == seq![tokens@.last()@] + parse_from(
                        cs@,
                        pos + 1,
                    ));
                }
                pos = pos + 1;
            }
        } else {
            let next = find_next_special(&cs, pos);
            if next > pos {
                tokens.push(Token::Literal(string_of(&cs, pos, next)));
                proof {
                    assert(tokens_view(tokens@) == tokens_view(before).push(tokens@.last()@));
                    assert(parse_from(cs@, pos as int) == seq![tokens@.last()@] + parse_from(
                        cs@,
                        next as int,
                    ));
                }
                pos = next;
            } else {
                let end = find_name_end(&cs, pos + 1);
                if end > pos + 1 {
                    tokens.push(classify_name(&cs, pos + 1, end));
                    proof {
                        assert(tokens_view(tokens@) == tokens_view(before).push(tokens@.last()@));
                        assert(parse_from(cs@, pos as int) == seq![tokens@.last()@] + parse_from(
                            cs@,
                            end as int,
                        ));
                    }
                } else {
                    assert(parse_from(cs@, pos as int) == parse_from(cs@, end as int));
                }
                pos = end;
            }
        }
    }
    tokens
}

// ---------------------------------------------------------------------------
// Layout
// ---------------------------------------------------------------------------

/// A rendered line segment: either literal text or a `$fill` placeholder whose
/// width is computed once all text segments are known.
#[derive(Debug, PartialEq, Eq)]
pub enum Piece {
    Text(String),
    Fill,
}

pub enum PieceView {
    Text(Seq<char>),
    Fill,
}

impl View for Piece {
    type V = PieceView;

    open spec fn view(&self) -> PieceView {
        match self {
            Piece::Text(s) => PieceView::Text(s@),
            Piece::Fill => PieceView::Fill,
        }
    }
}

pub open spec fn pieces_view(ps: Seq<Piece>) -> Seq<PieceView> {
    ps.map_values(|p: Piece| p@)
}

/// How many fills `ps` holds.
pub open spec fn fills_in(ps: Seq<PieceView>) -> nat
    decreases ps.len(),
{
    if ps.len() == 0 {
        0
    } else {
        fills_in(ps.drop_last()) + if ps.last() is Fill {
            1nat
        } else {
            0nat
        }
    }
}

/// The display columns of the text pieces of `ps`, added up.
pub open spec fn content_columns(ps: Seq<PieceView>) -> nat
    decreases ps.len(),
{
    if ps.len() == 0 {
        0
    } else {
        content_columns(ps.drop_last()) + match ps.last() {
            PieceView::Text(s) => display_columns(s) as nat,
            PieceView::Fill => 0nat,
        }
    }
}

/// The gap given to fill number `k` of `n` sharing `remaining` columns: an
/// even share, with one more column for each of the first `remaining % n` fills.
pub open spec fn gap_for(remaining: int, n: int, k: int) -> int {
    remaining / n + if k < remaining % n {
        1int
    } else {
        0int
    }
}

/// `s` repeated `k` times.
pub open spec fn repeated(s: Seq<char>, k: nat) -> Seq<char>
    decreases k,
{
    if k == 0 {
        Seq::empty()
    } else {
        repeated(s, (k - 1) as nat) + s
    }
}

/// A fill of `gap` columns: the fill symbol repeated `gap` times in the fill
/// style, or nothing for an empty gap.
pub open spec fn fill_run(fill_char: Seq<char>, fill_style: Option<Seq<char>>, gap: int) -> Seq<
    char,
> {
    if gap > 0 {
        styled(repeated(fill_char, gap as nat), fill_style)
    } else {
        Seq::empty()
    }
}

/// `ps` written out, the `k`-th fill taking `gap_for(remaining, n, k)` columns.
pub open spec fn laid_out(
    ps: Seq<PieceView>,
    remaining: int,
    n: int,
    fill_char: Seq<char>,
    fill_style: Option<Seq<char>>,
) -> Seq<char>
    decreases ps.len(),
{
    if ps.len() == 0 {
        Seq::empty()
    } else {
        laid_out(ps.drop_last(), remaining, n, fill_char, fill_style) + match ps.last() {
            PieceView::Text(s) => s,
            PieceView::Fill => fill_run(
                fill_char,
                fill_style,
                gap_for(remaining, n, fills_in(ps.drop_last()) as int),
            ),
        }
    }
}

/// Columns left for the fills of `ps` in a line `total` columns wide.
pub open spec fn leftover(ps: Seq<PieceView>, total: int) -> int {
    if total > content_columns(ps) {
        total - content_columns(ps)
    } else {
        0
    }
}

/// `ps` laid out in `total` columns: the fills share the leftover columns.
pub open spec fn filled_line(
    ps: Seq<PieceView>,
    total: int,
    fill_char: Seq<char>,
    fill_style: Option<Seq<char>>,
) -> Seq<char> {
    laid_out(ps, leftover(ps, total), fills_in(ps) as int, fill_char, fill_style)
}

/// The text pieces of `ps`, concatenated.
pub open spec fn joined_texts(ps: Seq<PieceView>) -> Seq<char>
    decreases ps.len(),
{
    if ps.len() == 0 {
        Seq::empty()
    } else {
        joined_texts(ps.drop_last()) + match ps.last() {
            PieceView::Text(s) => s,
            PieceView::Fill => Seq::empty(),
        }
    }
}

proof fn lemma_gap_zero(n: int, k: int)
    requires
        n > 0,
        k >= 0,
    ensures
        gap_for(0, n, k) == 0,
{
    assert(0int / n == 0 && 0int % n == 0) by (nonlinear_arith)
        requires
            n > 0,
    ;
}

/// Split `remaining` columns across `n` fills as evenly as possible (earlier
/// fills absorb the remainder). The gaps always sum to `remaining`, so the line
/// ends exactly at `total_width` and any content after the last fill is flush-right.
pub fn distribute(remaining: usize, n: usize) -> (gaps: Vec<usize>)
    ensures
        gaps.len() == n,
        forall|k: int| 0 <= k < n ==> gaps@[k] == gap_for(remaining as int, n as int, k),
{
    let mut gaps: Vec<usize> = Vec::new();
    if n == 0 {
        return gaps;
    }
    let base = remaining / n;
    let extra = remaining % n;
    proof {
        if extra > 0 {
            assert(n >= 2);
            assert(base * 2 <= base * n) by (nonlinear_arith)
                requires
                    n >= 2,
            ;
            assert(base * n <= remaining) by (nonlinear_arith)
                requires
                    base == remaining / n,
                    n > 0,
            ;
        }
    }
    let mut i: usize = 0;
    while i < n
        invariant
            i <= n,
            n > 0,
            base == remaining / n,
            extra == remaining % n,
            extra > 0 ==> base * 2 <= remaining,
            gaps.len() == i,
            forall|k: int| 0 <= k < i ==> gaps@[k] == gap_for(remaining as int, n as int, k),
        decreases n - i,
    {
        let g = if i < extra {
            base + 1
        } else {
            base
        };
        gaps.push(g);
        i = i + 1;
    }
    gaps
}

/// `s` repeated `k` times.
fn repeat_str(s: &str, k: usize) -> (out: String)
    ensures
        out@ == repeated(s@, k as nat),
{
    let mut out = String::new();
    let mut i: usize = 0;
    while i < k
        invariant
            i <= k,
            out@ == repeated(s@, i as nat),
        decreases k - i,
    {
        out.append(s);
        i = i + 1;
    }
    out
}

proof fn lemma_fills_prefix(ps: Seq<PieceView>, i: int, j: int)
    requires
        0 <= i <= j <= ps.len(),
    ensures
        fills_in(ps.take(i)) <= fills_in(ps.take(j)),
    decreases j - i,
{
    if i < j {
        lemma_fills_prefix(ps, i, j - 1);
        assert(ps.take(j).drop_last() == ps.take(j - 1));
    }
}

/// Lay out `pieces` into a line `total_width` columns wide, growing each `Fill`
/// to share the leftover space evenly.
pub fn build_filled_line(
    pieces: &[Piece],
    total_width: usize,
    fill_char: &str,
    fill_style: Option<&str>,
) -> (out: String)
    ensures
        out@ == filled_line(pieces_view(pieces@), total_width as int, fill_char@, style_view(fill_style)),
{
    let ghost ps = pieces_view(pieces@);
    let ghost fstyle = style_view(fill_style);
    let len = pieces.len();
    let mut n_fills: usize = 0;
    let mut content: usize = 0;
    let mut i: usize = 0;
    while i < len
        invariant
            i <= len == pieces@.len() == ps.len(),
            ps == pieces_view(pieces@),
            n_fills == fills_in(ps.take(i as int)),
            n_fills <= i,
            content == (if content_columns(ps.take(i as int)) < usize::MAX {
                content_columns(ps.take(i as int))
            } else {
                usize::MAX as nat
            }),
        decreases len - i,
    {
        assert(ps.take(i + 1).drop_last() == ps.take(i as int));
        assert(ps[i as int] == pieces@[i as int]@);
        match &pieces[i] {
            Piece::Text(s) => {
                let w = display_width(s.as_str());
                content = content.saturating_add(w);
            },
            Piece::Fill => {
                n_fills = n_fills + 1;
            },
        }
        i = i + 1;
    }
    assert(ps.take(len as int) == ps);
    let remaining = total_width.saturating_sub(content);
    assert(remaining == leftover(ps, total_width as int));
    let gaps = distribute(remaining, n_fills);
    let mut out = String::new();
    let mut gi: usize = 0;
    let mut j: usize = 0;
    while j < len
        invariant
            j <= len == pieces@.len() == ps.len(),
            ps == pieces_view(pieces@),
            n_fills == fills_in(ps),
            gaps.len() == n_fills,
            remaining == leftover(ps, total_width as int),
            forall|k: int|
                0 <= k < n_fills ==> gaps@[k] == gap_for(remaining as int, n_fills as int, k),
            fstyle == style_view(fill_style),
            gi == fills_in(ps.take(j as int)),
            gi <= n_fills,
            out@ == laid_out(ps.take(j as int), remaining as int, n_fills as int, fill_char@, fstyle),
        decreases len - j,
    {
        assert(ps.take(j + 1).drop_last() == ps.take(j as int));
        assert(ps[j as int] == pieces@[j as int]@);
        proof {
            lemma_fills_prefix(ps, j + 1, len as int);
            assert(ps.take(len as int) == ps);
        }
        match &pieces[j] {
            Piece::Text(s) => {
                out.append(s.as_str());
            },
            Piece::Fill => {
                let gap = gaps[gi];
                gi = gi + 1;
                if gap > 0 {
                    let run = repeat_str(fill_char, gap);
                    let painted = apply_style(run.as_str(), fill_style);
                    out.append(painted.as_str());
                }
            },
        }
        j = j + 1;
    }
    assert(ps.take(len as int) == ps);
    out
}

// ---------------------------------------------------------------------------
// Lines
// ---------------------------------------------------------------------------

pub open spec fn opt_view(o: Option<String>) -> Option<Seq<char>> {
    match o {
        Some(s) => Some(s@),
        None => None,
    }
}

/// What the outside renderers answered for each token of a line (only the
/// answers at `Native`, `Passthrough` and `StarshipPrompt` tokens are read).
pub open spec fn answers_view(a: Seq<Option<String>>) -> Seq<Option<Seq<char>>> {
    a.map_values(|o: Option<String>| opt_view(o))
}

pub open spec fn strings_view(v: Seq<String>) -> Seq<Seq<char>> {
    v.map_values(|s: String| s@)
}

/// `[cship.fill] disabled`, false when unset.
pub open spec fn fill_disabled(cfg: CshipConfig) -> bool {
    match cfg.fill {
        Some(f) => f.disabled == Some(true),
        None => false,
    }
}

/// The fill symbol, `"."` when unset.
pub open spec fn fill_symbol(cfg: CshipConfig) -> Seq<char> {
    match cfg.fill {
        Some(f) => match f.symbol {
            Some(s) => s@,
            None => "."@,
        },
        None => "."@,
    }
}

/// The fill style, `"bold black"` when unset.
pub open spec fn fill_style_of(cfg: CshipConfig) -> Option<Seq<char>> {
    match cfg.fill {
        Some(f) => match f.style {
            Some(s) => Some(s@),
            None => Some("bold black"@),
        },
        None => Some("bold black"@),
    }
}

/// The pieces one token renders to: a module's answer (nothing when it
/// rendered nothing), literal text, a painted span, or a fill unless fills
/// are disabled.
pub open spec fn token_pieces(t: TokenView, answer: Option<Seq<char>>, fill_off: bool) -> Seq<
    PieceView,
> {
    match t {
        TokenView::Literal(x) => seq![PieceView::Text(x)],
        TokenView::StyledSpan { content, style } => seq![
            PieceView::Text(styled(content, Some(style))),
        ],
        TokenView::Fill => if fill_off {
            Seq::empty()
        } else {
            seq![PieceView::Fill]
        },
        _ => match answer {
            Some(r) => seq![PieceView::Text(r)],
            None => Seq::empty(),
        },
    }
}

/// The pieces of a tokenized line, token `k` answered by `answers[k]`.
pub open spec fn line_pieces(
    ts: Seq<TokenView>,
    answers: Seq<Option<Seq<char>>>,
    fill_off: bool,
) -> Seq<PieceView>
    decreases ts.len(),
{
    if ts.len() == 0 {
        Seq::empty()
    } else {
        line_pieces(ts.drop_last(), answers, fill_off) + token_pieces(
            ts.last(),
            answers[ts.len() - 1],
            fill_off,
        )
    }
}

/// The line holds an enabled `$fill`, so laying it out needs the terminal width.
pub open spec fn needs_width(line: Seq<char>, cfg: CshipConfig) -> bool {
    !fill_disabled(cfg) && exists|k: int| 0 <= k < parsed(line).len() && #[trigger] parsed(line)[k] is Fill
}

pub open spec fn width_or_zero(width: Option<u16>) -> int {
    match width {
        Some(w) => w as int,
        None => 0,
    }
}

/// A rendered line: without an enabled fill its pieces are concatenated;
/// with one, the pieces are laid out across `width` columns.
pub open spec fn rendered_line(
    line: Seq<char>,
    answers: Seq<Option<Seq<char>>>,
    cfg: CshipConfig,
    width: Option<u16>,
) -> Seq<char> {
    let ps = line_pieces(parsed(line), answers, fill_disabled(cfg));
    if fills_in(ps) == 0 {
        joined_texts(ps)
    } else {
        filled_line(ps, width_or_zero(width), fill_symbol(cfg), fill_style_of(cfg))
    }
}

/// Resolve the fill character and style, defaulting to Starship's `"."` / `"bold black"`.
pub fn fill_appearance(cfg: &CshipConfig) -> (r: (String, Option<String>))
    ensures
        r.0@ == fill_symbol(*cfg),
        opt_view(r.1) == fill_style_of(*cfg),
{
    let symbol = match &cfg.fill {
        Some(f) => match &f.symbol {
            Some(s) => s.clone(),
            None => ".".to_owned(),
        },
        None => ".".to_owned(),
    };
    let style = match &cfg.fill {
        Some(f) => match &f.style {
            Some(s) => Some(s.clone()),
            None => Some("bold black".to_owned()),
        },
        None => Some("bold black".to_owned()),
    };
    (symbol, style)
}

/// The text pieces concatenated.
fn concat_texts(pieces: &Vec<Piece>) -> (out: String)
    ensures
        out@ == joined_texts(pieces_view(pieces@)),
{
    let ghost ps = pieces_view(pieces@);
    let mut out = String::new();
    let mut i: usize = 0;
    while i < pieces.len()
        invariant
            i <= pieces.len() == ps.len(),
            ps == pieces_view(pieces@),
            out@ == joined_texts(ps.take(i as int)),
        decreases pieces.len() - i,
    {
        assert(ps.take(i + 1).drop_last() == ps.take(i as int));
        assert(ps[i as int] == pieces@[i as int]@);
        match &pieces[i] {
            Piece::Text(s) => out.append(s.as_str()),
            Piece::Fill => {},
        }
        i = i + 1;
    }
    assert(ps.take(pieces.len() as int) == ps);
    out
}

/// Render one format line. `resolved[k]` is what the outside renderer made
/// of token `k` (a native module, a Starship passthrough module, or the
/// Starship prompt); `width` is the statusline width, read only when the
/// line holds an enabled `$fill`.
pub fn render_line(
    line: &str,
    resolved: &Vec<Option<String>>,
    cfg: &CshipConfig,
    width: Option<u16>,
) -> (out: String)
    requires
        resolved@.len() == parsed(line@).len(),
        needs_width(line@, *cfg) ==> width is Some,
    ensures
        out@ == rendered_line(line@, answers_view(resolved@), *cfg, width),
{
    let fill_off = match &cfg.fill {
        Some(f) => match f.disabled {
            Some(d) => d,
            None => false,
        },
        None => false,
    };
    assert(fill_off == fill_disabled(*cfg));
    let tokens = parse_line(line);
    let ghost ts = parsed(line@);
    let ghost ans = answers_view(resolved@);
    assert(ts.len() == tokens@.len());
    let mut pieces: Vec<Piece> = Vec::new();
    let mut has_fill = false;
    let mut i: usize = 0;
    while i < tokens.len()
        invariant
            i <= tokens.len() == ts.len() == resolved@.len() == ans.len(),
            ts == tokens_view(tokens@),
            ts == parsed(line@),
            ans == answers_view(resolved@),
            fill_off == fill_disabled(*cfg),
            pieces_view(pieces@) == line_pieces(ts.take(i as int), ans, fill_off),
            has_fill == (fills_in(pieces_view(pieces@)) > 0),
            has_fill ==> !fill_off && exists|k: int| 0 <= k < i && #[trigger] ts[k] is Fill,
        decreases tokens.len() - i,
    {
        let ghost before = pieces@;
        proof {
            assert(ts.take(i + 1).drop_last() == ts.take(i as int));
            assert(ts[i as int] == tokens@[i as int]@);
            assert(ans[i as int] == opt_view(resolved@[i as int]));
        }
        match &tokens[i] {
            Token::Literal(t) => {
                pieces.push(Piece::Text(t.clone()));
            },
            Token::StyledSpan { content, style } => {
                let painted = apply_style(content.as_str(), Some(style.as_str()));
                pieces.push(Piece::Text(painted));
            },
            Token::Fill => {
                if !fill_off {
                    pieces.push(Piece::Fill);
                    has_fill = true;
                }
            },
            _ => {
                match &resolved[i] {
                    Some(r) => {
                        pieces.push(Piece::Text(r.clone()));
                    },
                    None => {},
                }
            },
        }
        proof {
            if pieces@.len() > before.len() {
                assert(pieces_view(pieces@) == pieces_view(before).push(pieces@.last()@));
                assert(pieces_view(pieces@).drop_last() == pieces_view(before));
            } else {
                assert(pieces@ == before);
            }
        }
        i = i + 1;
    }
    assert(ts.take(tokens.len() as int) == ts);
    if !has_fill {
        return concat_texts(&pieces);
    }
    let total = match width {
        Some(w) => w as usize,
        None => 0,
    };
    let (symbol, style) = fill_appearance(cfg);
    let style_ref: Option<&str> = match &style {
        Some(s) => Some(s.as_str()),
        None => None,
    };
    build_filled_line(pieces.as_slice(), total, symbol.as_str(), style_ref)
}

/// `render_line`, or `None` when `resolved` does not hold one answer per
/// token of the line, or when the line holds an enabled `$fill` and no width
/// is given.
pub fn try_render_line(
    line: &str,
    resolved: &Vec<Option<String>>,
    cfg: &CshipConfig,
    width: Option<u16>,
) -> (out: Option<String>)
    ensures
        out is None <==> (resolved@.len() != parsed(line@).len() || (needs_width(line@, *cfg)
            && width is None)),
        out matches Some(o) ==> o@ == rendered_line(line@, answers_view(resolved@), *cfg, width),
{
    let tokens = parse_line(line);
    if tokens.len() != resolved.len() {
        return None;
    }
    if width.is_none() && line_needs_width(line, cfg) {
        return None;
    }
    Some(render_line(line, resolved, cfg, width))
}

// ---------------------------------------------------------------------------
// Whole statusline
// ---------------------------------------------------------------------------

/// The row separator of a `format` string: `$line_break`.
pub open spec fn line_break() -> Seq<char> {
    seq!['$', 'l', 'i', 'n', 'e', '_', 'b', 'r', 'e', 'a', 'k']
}

/// `s` holds `$line_break` at index `i`.
pub open spec fn break_at(s: Seq<char>, i: int) -> bool {
    0 <= i && i + 11 <= s.len() && s.subrange(i, i + 11) == line_break()
}

/// The first index at or after `i` where `s` holds `$line_break`.
pub open spec fn next_break(s: Seq<char>, i: int) -> Option<int>
    decreases s.len() - i,
{
    if i < 0 || i + 11 > s.len() {
        None
    } else if break_at(s, i) {
        Some(i)
    } else {
        next_break(s, i + 1)
    }
}

pub proof fn lemma_next_break_bounds(s: Seq<char>, i: int)
    ensures
        next_break(s, i) matches Some(m) ==> i <= m && m + 11 <= s.len() && break_at(s, m),
    decreases s.len() - i,
{
    if !(i < 0 || i + 11 > s.len()) && !break_at(s, i) {
        lemma_next_break_bounds(s, i + 1);
    }
}

/// `s[i..]` split at each `$line_break` (std `str::split`): the text before
/// each separator, then the text after the last one.
pub open spec fn split_breaks_from(s: Seq<char>, i: int) -> Seq<Seq<char>>
    decreases s.len() - i,
{
    match next_break(s, i) {
        Some(m) => {
            proof {
                lemma_next_break_bounds(s, i);
            }
            seq![s.subrange(i, m)] + split_breaks_from(s, m + 11)
        },
        None => seq![s.subrange(i, s.len() as int)],
    }
}

/// The rows to render: the `format` string split at `$line_break` when it is
/// set (it takes priority over `lines`), else `lines`.
pub open spec fn effective(lines: Seq<Seq<char>>, cfg: CshipConfig) -> Seq<Seq<char>> {
    match cfg.format {
        Some(f) => split_breaks_from(f@, 0),
        None => lines,
    }
}

/// The non-empty rows of `rows`, each after a newline but the first.
pub open spec fn join_nonempty(rows: Seq<Seq<char>>) -> Seq<char>
    decreases rows.len(),
{
    if rows.len() == 0 {
        Seq::empty()
    } else {
        let head = join_nonempty(rows.drop_last());
        let row = rows.last();
        if row.len() == 0 {
            head
        } else if head.len() == 0 {
            row
        } else {
            head + seq!['\n'] + row
        }
    }
}

/// The answers for each row.
pub open spec fn all_answers(resolved: Seq<Vec<Option<String>>>) -> Seq<Seq<Option<Seq<char>>>> {
    resolved.map_values(|r: Vec<Option<String>>| answers_view(r@))
}

/// Each row rendered.
pub open spec fn rendered_rows(
    rows: Seq<Seq<char>>,
    answers: Seq<Seq<Option<Seq<char>>>>,
    cfg: CshipConfig,
    width: Option<u16>,
) -> Seq<Seq<char>> {
    Seq::new(rows.len(), |i: int| rendered_line(rows[i], answers[i], cfg, width))
}

/// The statusline: the rows rendered, the empty ones dropped, joined by newlines.
pub open spec fn rendered(
    lines: Seq<Seq<char>>,
    cfg: CshipConfig,
    answers: Seq<Seq<Option<Seq<char>>>>,
    width: Option<u16>,
) -> Seq<char> {
    join_nonempty(rendered_rows(effective(lines, cfg), answers, cfg, width))
}

/// `answers` gives one answer per token of each row.
pub open spec fn answers_fit(rows: Seq<Seq<char>>, answers: Seq<Seq<Option<Seq<char>>>>) -> bool {
    &&& answers.len() == rows.len()
    &&& forall|i: int| 0 <= i < rows.len() ==> #[trigger] answers[i].len() == parsed(rows[i]).len()
}

/// Some row holds an enabled `$fill`.
pub open spec fn rows_need_width(rows: Seq<Seq<char>>, cfg: CshipConfig) -> bool {
    exists|i: int| 0 <= i < rows.len() && needs_width(#[trigger] rows[i], cfg)
}

fn is_break_at(cs: &Vec<char>, i: usize) -> (b: bool)
    requires
        i <= cs.len(),
    ensures
        b == break_at(cs@, i as int),
{
    if cs.len() - i < 11 {
        return false;
    }
    let b = cs[i] == '$' && cs[i + 1] == 'l' && cs[i + 2] == 'i' && cs[i + 3] == 'n' && cs[i + 4]
        == 'e' && cs[i + 5] == '_' && cs[i + 6] == 'b' && cs[i + 7] == 'r' && cs[i + 8] == 'e'
        && cs[i + 9] == 'a' && cs[i + 10] == 'k';
    if b {
        assert(cs@.subrange(i as int, i + 11) =~= line_break());
    } else {
        assert(!(cs@.subrange(i as int, i + 11) =~= line_break()));
    }
    b
}

/// `format` split at each `$line_break`.
fn split_line_breaks(format: &str) -> (rows: Vec<String>)
    ensures
        strings_view(rows@) == split_breaks_from(format@, 0),
{
    let cs = chars_of(format);
    let n = cs.len();
    let mut rows: Vec<String> = Vec::new();
    let mut start: usize = 0;
    let mut i: usize = 0;
    while i < n
        invariant
            n == cs.len(),
            cs@ == format@,
            start <= i <= n,
            next_break(cs@, start as int) == next_break(cs@, i as int),
            strings_view(rows@) + split_breaks_from(cs@, start as int) == split_breaks_from(
                cs@,
                0,
            ),
        decreases n - i,
    {
        if is_break_at(&cs, i) {
            let row = string_of(&cs, start, i);
            let ghost before = rows@;
            rows.push(row);
            proof {
                assert(strings_view(rows@) == strings_view(before).push(row@));
                lemma_next_break_bounds(cs@, start as int);
            }
            start = i + 11;
            i = start;
        } else {
            i = i + 1;
        }
    }
    let ghost before = rows@;
    let last = string_of(&cs, start, n);
    rows.push(last);
    assert(strings_view(rows@) == strings_view(before).push(last@));
    rows
}

/// The rows to render (see `effective`).
pub fn effective_lines(lines: &[String], cfg: &CshipConfig) -> (rows: Vec<String>)
    ensures
        strings_view(rows@) == effective(strings_view(lines@), *cfg),
{
    match &cfg.format {
        Some(f) => split_line_breaks(f.as_str()),
        None => {
            let mut rows: Vec<String> = Vec::new();
            let mut i: usize = 0;
            while i < lines.len()
                invariant
                    i <= lines.len(),
                    strings_view(rows@) == strings_view(lines@).take(i as int),
                decreases lines.len() - i,
            {
                let ghost before = rows@;
                rows.push(lines[i].clone());
                assert(strings_view(rows@) == strings_view(before).push(lines@[i as int]@));
                assert(strings_view(lines@).take(i + 1) == strings_view(lines@).take(i as int).push(
                    lines@[i as int]@,
                ));
                i = i + 1;
            }
            assert(strings_view(lines@).take(lines.len() as int) == strings_view(lines@));
            rows
        },
    }
}

/// Whether the line holds an enabled `$fill`.
pub fn line_needs_width(line: &str, cfg: &CshipConfig) -> (b: bool)
    ensures
        b == needs_width(line@, *cfg),
{
    let fill_off = match &cfg.fill {
        Some(f) => match f.disabled {
            Some(d) => d,
            None => false,
        },
        None => false,
    };
    assert(fill_off == fill_disabled(*cfg));
    if fill_off {
        return false;
    }
    let tokens = parse_line(line);
    let ghost ts = parsed(line@);
    let mut i: usize = 0;
    while i < tokens.len()
        invariant
            i <= tokens.len() == ts.len(),
            ts == tokens_view(tokens@),
            ts == parsed(line@),
            !fill_disabled(*cfg),
            forall|k: int| 0 <= k < i ==> !(#[trigger] ts[k] is Fill),
        decreases tokens.len() - i,
    {
        assert(ts[i as int] == tokens@[i as int]@);
        if let Token::Fill = &tokens[i] {
            assert(parsed(line@)[i as int] is Fill);
            return true;
        }
        i = i + 1;
    }
    false
}

/// Whether some row to render holds an enabled `$fill`, so that rendering
/// needs the terminal width. Without one no width lookup is needed.
pub fn needs_terminal_width(lines: &[String], cfg: &CshipConfig) -> (b: bool)
    ensures
        b == rows_need_width(effective(strings_view(lines@), *cfg), *cfg),
{
    let rows = effective_lines(lines, cfg);
    let ghost rv = strings_view(rows@);
    let mut i: usize = 0;
    while i < rows.len()
        invariant
            i <= rows.len() == rv.len(),
            rv == strings_view(rows@),
            rv == effective(strings_view(lines@), *cfg),
            forall|k: int| 0 <= k < i ==> !needs_width(#[trigger] rv[k], *cfg),
        decreases rows.len() - i,
    {
        assert(rv[i as int] == rows@[i as int]@);
        if line_needs_width(rows[i].as_str(), cfg) {
            assert(needs_width(rv[i as int], *cfg));
            return true;
        }
        i = i + 1;
    }
    false
}

/// Render the statusline. `cfg.format`, when set, takes priority over `lines`
/// and is split at `$line_break` into rows. `resolved[i][k]` is what the
/// outside renderer made of token `k` of row `i`; `width` is the statusline
/// width, read only for rows that hold an enabled `$fill`. Rows that render
/// empty are dropped; the rest are joined with newlines.
pub fn render(
    lines: &[String],
    cfg: &CshipConfig,
    resolved: &Vec<Vec<Option<String>>>,
    width: Option<u16>,
) -> (out: String)
    requires
        answers_fit(effective(strings_view(lines@), *cfg), all_answers(resolved@)),
        rows_need_width(effective(strings_view(lines@), *cfg), *cfg) ==> width is Some,
    ensures
        out@ == rendered(strings_view(lines@), *cfg, all_answers(resolved@), width),
{
    let rows = effective_lines(lines, cfg);
    let ghost rv = strings_view(rows@);
    let ghost ans = all_answers(resolved@);
    let mut out = String::new();
    let mut i: usize = 0;
    while i < rows.len()
        invariant
            i <= rows.len() == rv.len() == ans.len() == resolved@.len(),
            rv == strings_view(rows@),
            rv == effective(strings_view(lines@), *cfg),
            ans == all_answers(resolved@),
            answers_fit(rv, ans),
            rows_need_width(rv, *cfg) ==> width is Some,
            out@ == join_nonempty(rendered_rows(rv, ans, *cfg, width).take(i as int)),
        decreases rows.len() - i,
    {
        proof {
            assert(rv[i as int] == rows@[i as int]@);
            assert(ans[i as int] == answers_view(resolved@[i as int]@));
            assert(answers_fit(rv, ans));
            assert(ans[i as int].len() == parsed(rv[i as int]).len());
            if needs_width(rv[i as int], *cfg) {
                assert(rows_need_width(rv, *cfg));
            }
        }
        let row = render_line(rows[i].as_str(), &resolved[i], cfg, width);
        let ghost all = rendered_rows(rv, ans, *cfg, width);
        assert(all.take(i + 1).drop_last() == all.take(i as int));
        assert(all.take(i + 1).last() == row@);
        if !row.as_str().is_empty() {
            if !out.as_str().is_empty() {
                push_char(&mut out, '\n');
            }
            out.append(row.as_str());
        }
        i = i + 1;
    }
    assert(rendered_rows(rv, ans, *cfg, width).take(rows.len() as int) == rendered_rows(
        rv,
        ans,
        *cfg,
        width,
    ));
    out
}

/// Whether `resolved` holds one answer per token of each of `rows`.
fn answers_fit_rows(rows: &Vec<String>, resolved: &Vec<Vec<Option<String>>>) -> (b: bool)
    ensures
        b == answers_fit(strings_view(rows@), all_answers(resolved@)),
{
    let ghost rv = strings_view(rows@);
    let ghost ans = all_answers(resolved@);
    if rows.len() != resolved.len() {
        return false;
    }
    let mut i: usize = 0;
    while i < rows.len()
        invariant
            i <= rows.len() == resolved@.len() == rv.len() == ans.len(),
            rv == strings_view(rows@),
            ans == all_answers(resolved@),
            forall|k: int| 0 <= k < i ==> #[trigger] ans[k].len() == parsed(rv[k]).len(),
        decreases rows.len() - i,
    {
        assert(rv[i as int] == rows@[i as int]@);
        assert(ans[i as int] == answers_view(resolved@[i as int]@));
        let tokens = parse_line(rows[i].as_str());
        if tokens.len() != resolved[i].len() {
            assert(ans[i as int].len() != parsed(rv[i as int]).len());
            return false;
        }
        i = i + 1;
    }
    true
}

/// `render`, or `None` when `resolved` does not hold one answer per token of
/// each row to render, or when some row holds an enabled `$fill` and no width
/// is given.
pub fn try_render(
    lines: &[String],
    cfg: &CshipConfig,
    resolved: &Vec<Vec<Option<String>>>,
    width: Option<u16>,
) -> (out: Option<String>)
    ensures
        out is None <==> (!answers_fit(effective(strings_view(lines@), *cfg), all_answers(resolved@))
            || (rows_need_width(effective(strings_view(lines@), *cfg), *cfg) && width is None)),
        out matches Some(o) ==> o@ == rendered(strings_view(lines@), *cfg, all_answers(resolved@), width),
{
    let rows = effective_lines(lines, cfg);
    if !answers_fit_rows(&rows, resolved) {
        return None;
    }
    if width.is_none() && needs_terminal_width(lines, cfg) {
        return None;
    }
    Some(render(lines, cfg, resolved, width))
}

// ---------------------------------------------------------------------------
// Laws
// ---------------------------------------------------------------------------

/// The text a token was read from.
pub open spec fn token_source(t: TokenView) -> Seq<char> {
    match t {
        TokenView::Native(n) => seq!['$'] + n,
        TokenView::Passthrough(n) => seq!['$'] + n,
        TokenView::StarshipPrompt => seq!['$'] + "starship_prompt"@,
        TokenView::Fill => seq!['$'] + "fill"@,
        TokenView::Literal(x) => x,
        TokenView::StyledSpan { content, style } => seq!['['] + content + seq![']', '('] + style
            + seq![')'],
    }
}

/// The texts of `ts`, concatenated.
pub open spec fn sources(ts: Seq<TokenView>) -> Seq<char>
    decreases ts.len(),
{
    if ts.len() == 0 {
        Seq::empty()
    } else {
        token_source(ts[0]) + sources(ts.drop_first())
    }
}

/// Every `$` of `s` starts a non-empty name.
pub open spec fn no_bare_dollar(s: Seq<char>) -> bool {
    forall|i: int| 0 <= i < s.len() && #[trigger] s[i] == '$' ==> i + 1 < s.len() && !ends_name(
        s[i + 1],
    )
}

/// `s` holds neither `$` nor `[`.
pub open spec fn no_special(s: Seq<char>) -> bool {
    forall|i: int| 0 <= i < s.len() ==> !is_special(#[trigger] s[i])
}

proof fn lemma_sources_cons(t: TokenView, rest: Seq<TokenView>)
    ensures
        sources(seq![t] + rest) == token_source(t) + sources(rest),
{
    assert((seq![t] + rest).drop_first() == rest);
}

proof fn lemma_span_close_found(s: Seq<char>, i: int)
    requires
        0 <= i,
    ensures
        span_close(s, i) matches Some(k) ==> 0 <= k && s[k] == ']' && s[k + 1] == '(',
    decreases s.len() - i,
{
    if i + 1 < s.len() && !(s[i] == ']' && s[i + 1] == '(') {
        lemma_span_close_found(s, i + 1);
    }
}

proof fn lemma_paren_close_found(s: Seq<char>, i: int)
    ensures
        paren_close(s, i) matches Some(k) ==> s[k] == ')',
    decreases s.len() - i,
{
    if i < s.len() && s[i] != ')' {
        lemma_paren_close_found(s, i + 1);
    }
}

proof fn lemma_next_special_found(s: Seq<char>, i: int)
    requires
        0 <= i < s.len(),
        next_special(s, i) == i,
    ensures
        is_special(s[i]),
{
    lemma_scan_bounds(s, i + 1);
}

proof fn lemma_no_special_scan(s: Seq<char>, i: int)
    requires
        no_special(s),
        0 <= i <= s.len(),
    ensures
        next_special(s, i) == s.len(),
    decreases s.len() - i,
{
    if i < s.len() {
        assert(!is_special(s[i]));
        lemma_no_special_scan(s, i + 1);
    }
}

proof fn lemma_parse_from_sources(s: Seq<char>, i: int)
    requires
        no_bare_dollar(s),
        0 <= i <= s.len(),
    ensures
        sources(parse_from(s, i)) == s.skip(i),
    decreases s.len() - i,
{
    if i == s.len() {
        assert(s.skip(i) =~= Seq::<char>::empty());
    } else {
        lemma_scan_bounds(s, i);
        lemma_scan_bounds(s, i + 1);
        if s[i] == '[' {
            match span_close(s, i + 1) {
                Some(k) => {
                    lemma_scan_bounds(s, k + 2);
                    lemma_span_close_found(s, i + 1);
                    match paren_close(s, k + 2) {
                        Some(p) => {
                            lemma_paren_close_found(s, k + 2);
                            lemma_parse_from_sources(s, p + 1);
                            let t = TokenView::StyledSpan {
                                content: s.subrange(i + 1, k),
                                style: s.subrange(k + 2, p),
                            };
                            lemma_sources_cons(t, parse_from(s, p + 1));
                            assert(token_source(t) + s.skip(p + 1) =~= s.skip(i));
                        },
                        None => {
                            lemma_parse_from_sources(s, i + 1);
                            lemma_sources_cons(TokenView::Literal(seq!['[']), parse_from(s, i + 1));
                            assert(seq!['['] + s.skip(i + 1) =~= s.skip(i));
                        },
                    }
                },
                None => {
                    lemma_parse_from_sources(s, i + 1);
                    lemma_sources_cons(TokenView::Literal(seq!['[']), parse_from(s, i + 1));
                    assert(seq!['['] + s.skip(i + 1) =~= s.skip(i));
                },
            }
        } else if next_special(s, i) > i {
            let ns = next_special(s, i);
            lemma_parse_from_sources(s, ns);
            lemma_sources_cons(TokenView::Literal(s.subrange(i, ns)), parse_from(s, ns));
            assert(s.subrange(i, ns) + s.skip(ns) =~= s.skip(i));
        } else {
            lemma_next_special_found(s, i);
            assert(s[i] == '$');
            let ne = name_end(s, i + 1);
            let name = s.subrange(i + 1, ne);
            lemma_scan_bounds(s, i + 2);
            assert(ne > i + 1);
            lemma_parse_from_sources(s, ne);
            lemma_sources_cons(classify(name), parse_from(s, ne));
            assert(token_source(classify(name)) == seq!['$'] + name);
            assert(seq!['$'] + name + s.skip(ne) =~= s.skip(i));
        }
    }
}

/// Tokenizing loses nothing: when every `$` starts a name, the tokens' texts
/// put back together give the line.
pub proof fn law_parse_is_lossless(line: Seq<char>)
    requires
        no_bare_dollar(line),
    ensures
        sources(parsed(line)) == line,
{
    lemma_parse_from_sources(line, 0);
    assert(line.skip(0) == line);
}

/// A line with neither `$` nor `[` is one literal token (none when empty).
pub proof fn law_plain_line_is_one_literal(line: Seq<char>)
    requires
        no_special(line),
    ensures
        parsed(line) == (if line.len() == 0 {
            Seq::<TokenView>::empty()
        } else {
            seq![TokenView::Literal(line)]
        }),
{
    if line.len() > 0 {
        lemma_no_special_scan(line, 0);
        lemma_scan_bounds(line, 0);
        lemma_scan_bounds(line, 1);
        assert(!is_special(line[0]));
        assert(line.subrange(0, line.len() as int) == line);
        assert(parse_from(line, line.len() as int) == Seq::<TokenView>::empty());
        assert(parse_from(line, 0) =~= seq![TokenView::Literal(line)]);
    }
}

proof fn lemma_line_pieces_fills(ts: Seq<TokenView>, answers: Seq<Option<Seq<char>>>, fill_off: bool)
    ensures
        fills_in(line_pieces(ts, answers, fill_off)) > 0 ==> !fill_off && exists|k: int|
            0 <= k < ts.len() && #[trigger] ts[k] is Fill,
    decreases ts.len(),
{
    if ts.len() > 0 {
        lemma_line_pieces_fills(ts.drop_last(), answers, fill_off);
        let head = line_pieces(ts.drop_last(), answers, fill_off);
        let tail = token_pieces(ts.last(), answers[ts.len() - 1], fill_off);
        if tail.len() == 0 {
            assert(head + tail == head);
        } else {
            assert((head + tail).drop_last() == head);
        }
        if fills_in(line_pieces(ts, answers, fill_off)) > 0 {
            if fills_in(head) > 0 {
                let k = choose|k: int| 0 <= k < ts.drop_last().len() && #[trigger] ts.drop_last()[k] is Fill;
                assert(ts[k] is Fill);
            } else {
                assert(ts[ts.len() - 1] is Fill);
            }
        }
    }
}

/// A line without an enabled `$fill` renders the same whatever the width:
/// the width is read only to lay out fills.
pub proof fn law_width_only_read_for_fills(
    line: Seq<char>,
    answers: Seq<Option<Seq<char>>>,
    cfg: CshipConfig,
    w1: Option<u16>,
    w2: Option<u16>,
)
    requires
        !needs_width(line, cfg),
    ensures
        rendered_line(line, answers, cfg, w1) == rendered_line(line, answers, cfg, w2),
        fills_in(line_pieces(parsed(line), answers, fill_disabled(cfg))) == 0,
{
    lemma_line_pieces_fills(parsed(line), answers, fill_disabled(cfg));
}

/// Literal text renders as itself.
pub proof fn law_plain_line_renders_verbatim(
    line: Seq<char>,
    answers: Seq<Option<Seq<char>>>,
    cfg: CshipConfig,
    width: Option<u16>,
)
    requires
        no_special(line),
    ensures
        rendered_line(line, answers, cfg, width) == line,
{
    law_plain_line_is_one_literal(line);
    let ts = parsed(line);
    if line.len() > 0 {
        assert(ts.drop_last() =~= Seq::<TokenView>::empty());
        assert(ts.last() == TokenView::Literal(line));
        let ps = line_pieces(ts, answers, fill_disabled(cfg));
        assert(line_pieces(ts.drop_last(), answers, fill_disabled(cfg)) =~= Seq::<PieceView>::empty());
        assert(token_pieces(ts.last(), answers[0], fill_disabled(cfg)) =~= seq![PieceView::Text(line)]);
        assert(ps =~= seq![PieceView::Text(line)]);
        assert(ps.drop_last() =~= Seq::<PieceView>::empty());
        assert(ps.last() == PieceView::Text(line));
        assert(fills_in(ps.drop_last()) == 0);
        assert(joined_texts(ps.drop_last()) =~= Seq::<char>::empty());
        assert(fills_in(ps) == 0);
        assert(joined_texts(ps) =~= line);
    } else {
        assert(parsed(line) =~= Seq::<TokenView>::empty());
        assert(line =~= Seq::<char>::empty());
    }
}

/// `format`, when set, decides the rows: `lines` is then ignored.
pub proof fn law_format_overrides_lines(
    lines1: Seq<Seq<char>>,
    lines2: Seq<Seq<char>>,
    cfg: CshipConfig,
    answers: Seq<Seq<Option<Seq<char>>>>,
    width: Option<u16>,
)
    requires
        cfg.format is Some,
    ensures
        rendered(lines1, cfg, answers, width) == rendered(lines2, cfg, answers, width),
{
}

/// The columns handed to the first `m` of `n` fills.
pub open spec fn gaps_total(remaining: int, n: int, m: int) -> int
    decreases m,
{
    if m <= 0 {
        0
    } else {
        gaps_total(remaining, n, m - 1) + gap_for(remaining, n, m - 1)
    }
}

proof fn lemma_gaps_total(remaining: int, n: int, m: int)
    requires
        remaining >= 0,
        n > 0,
        0 <= m <= n,
    ensures
        gaps_total(remaining, n, m) == m * (remaining / n) + if m < remaining % n {
            m
        } else {
            remaining % n
        },
    decreases m,
{
    if m > 0 {
        lemma_gaps_total(remaining, n, m - 1);
        let q = remaining / n;
        let r = remaining % n;
        assert(m * q == (m - 1) * q + q) by (nonlinear_arith);
        let prev = gaps_total(remaining, n, m - 1);
        assert(gaps_total(remaining, n, m) == prev + gap_for(remaining, n, m - 1));
        if m - 1 < r {
            assert(prev == (m - 1) * q + (m - 1));
            assert(gaps_total(remaining, n, m) == m * q + m);
        } else {
            assert(prev == (m - 1) * q + r);
            assert(gaps_total(remaining, n, m) == m * q + r);
        }
    } else {
        assert(0 * (remaining / n) == 0) by (nonlinear_arith);
        assert(remaining % n >= 0) by (nonlinear_arith)
            requires
                n > 0,
        ;
    }
}

/// The fills share the leftover columns exactly: their gaps add up to it.
pub proof fn law_gaps_sum_to_remaining(remaining: int, n: int)
    requires
        remaining >= 0,
        n > 0,
    ensures
        gaps_total(remaining, n, n) == remaining,
{
    lemma_gaps_total(remaining, n, n);
    vstd::arithmetic::div_mod::lemma_fundamental_div_mod(remaining, n);
    assert(n * (remaining / n) == (remaining / n) * n) by (nonlinear_arith);
}

/// The layout accounts for the whole width: when the text fits, the text
/// columns and the fill gaps add up to exactly `total`; when it does not, every
/// gap is empty.
pub proof fn law_layout_spans_total_width(ps: Seq<PieceView>, total: int)
    requires
        fills_in(ps) > 0,
        total >= 0,
    ensures
        content_columns(ps) <= total ==> content_columns(ps) + gaps_total(
            leftover(ps, total),
            fills_in(ps) as int,
            fills_in(ps) as int,
        ) == total,
        content_columns(ps) >= total ==> forall|k: int|
            0 <= k < fills_in(ps) ==> #[trigger] gap_for(leftover(ps, total), fills_in(ps) as int, k)
                == 0,
{
    law_gaps_sum_to_remaining(leftover(ps, total), fills_in(ps) as int);
    if content_columns(ps) >= total {
        assert forall|k: int| 0 <= k < fills_in(ps) implies #[trigger] gap_for(
            leftover(ps, total),
            fills_in(ps) as int,
            k,
        ) == 0 by {
            lemma_gap_zero(fills_in(ps) as int, k);
        }
    }
}

/// The gaps are as even as can be: earlier fills get at least as much as
/// later ones, and at most one column more.
pub proof fn law_gaps_are_even(remaining: int, n: int, j: int, k: int)
    requires
        remaining >= 0,
        n > 0,
        0 <= j <= k < n,
    ensures
        gap_for(remaining, n, k) <= gap_for(remaining, n, j) <= gap_for(remaining, n, k) + 1,
{
}


// ---------------------------------------------------------------------------
// Escape codes do not count
// ---------------------------------------------------------------------------

/// `qs` is `ps` with each text piece possibly recoloured: the same fills in the
/// same places, and text pieces with the same plain (escape-free) text.
pub open spec fn same_plain_pieces(ps: Seq<PieceView>, qs: Seq<PieceView>) -> bool {
    &&& ps.len() == qs.len()
    &&& forall|i: int|
        0 <= i < ps.len() ==> match (#[trigger] ps[i], qs[i]) {
            (PieceView::Fill, PieceView::Fill) => true,
            (PieceView::Text(a), PieceView::Text(b)) => stripped(a) == stripped(b),
            _ => false,
        }
}

/// A text piece takes exactly the columns of its plain text: the Unicode width
/// of what is left once ANSI escapes are stripped.
pub proof fn law_text_piece_columns(s: Seq<char>)
    ensures
        content_columns(seq![PieceView::Text(s)]) == crate::text::str_columns(stripped(s)),
{
    let one = seq![PieceView::Text(s)];
    assert(one.drop_last() =~= Seq::<PieceView>::empty());
    assert(content_columns(one.drop_last()) == 0);
    assert(one.last() == PieceView::Text(s));
    assert(display_columns(s) == crate::text::str_columns(stripped(s)));
}

/// Wrapping text pieces in escape codes (or changing the codes) leaves every
/// fill gap as it was: the number of fills, the leftover columns, and so the
/// gap of each fill are those of the plain pieces.
pub proof fn law_escapes_leave_gaps_unchanged(ps: Seq<PieceView>, qs: Seq<PieceView>, total: int)
    requires
        same_plain_pieces(ps, qs),
    ensures
        fills_in(ps) == fills_in(qs),
        content_columns(ps) == content_columns(qs),
        leftover(ps, total) == leftover(qs, total),
        forall|k: int|
            #![trigger gap_for(leftover(ps, total), fills_in(ps) as int, k)]
            gap_for(leftover(ps, total), fills_in(ps) as int, k) == gap_for(
                leftover(qs, total),
                fills_in(qs) as int,
                k,
            ),
    decreases ps.len(),
{
    if ps.len() > 0 {
        let (a, b) = (ps.drop_last(), qs.drop_last());
        assert(same_plain_pieces(a, b)) by {
            assert forall|i: int| 0 <= i < a.len() implies match (#[trigger] a[i], b[i]) {
                (PieceView::Fill, PieceView::Fill) => true,
                (PieceView::Text(x), PieceView::Text(y)) => stripped(x) == stripped(y),
                _ => false,
            } by {
                assert(a[i] == ps[i] && b[i] == qs[i]);
            }
        }
        law_escapes_leave_gaps_unchanged(a, b, total);
        let last = ps.len() - 1;
        assert(ps.last() == ps[last] && qs.last() == qs[last]);
        match (ps[last], qs[last]) {
            (PieceView::Fill, PieceView::Fill) => {},
            (PieceView::Text(x), PieceView::Text(y)) => {
                assert(display_columns(x) == display_columns(y));
            },
            _ => {},
        }
    }
}

// ---------------------------------------------------------------------------
// Parsing looks only forward
// ---------------------------------------------------------------------------

proof fn lemma_scans_shift(p: Seq<char>, q: Seq<char>, i: int)
    requires
        0 <= i,
    ensures
        next_special(p + q, p.len() + i) == p.len() + next_special(q, i),
        name_end(p + q, p.len() + i) == p.len() + name_end(q, i),
        span_close(p + q, p.len() + i) == (match span_close(q, i) {
            Some(k) => Some(p.len() + k),
            None => None,
        }),
        paren_close(p + q, p.len() + i) == (match paren_close(q, i) {
            Some(k) => Some(p.len() + k),
            None => None,
        }),
    decreases q.len() - i,
{
    let t = p + q;
    if i < q.len() {
        lemma_scans_shift(p, q, i + 1);
        assert(t[p.len() + i] == q[i]);
        if i + 1 < q.len() {
            assert(t[p.len() + i + 1] == q[i + 1]);
        }
    }
}

/// The tokens of `(p + q)[p.len() + i..]` are those of `q[i..]`.
proof fn lemma_parse_shift(p: Seq<char>, q: Seq<char>, i: int)
    requires
        0 <= i,
    ensures
        parse_from(p + q, p.len() + i) == parse_from(q, i),
    decreases q.len() - i,
{
    let t = p + q;
    let m = p.len() as int;
    if i < q.len() {
        lemma_scans_shift(p, q, i);
        lemma_scans_shift(p, q, i + 1);
        lemma_scan_bounds(q, i);
        lemma_scan_bounds(q, i + 1);
        assert(t[m + i] == q[i]);
        if q[i] == '[' {
            match span_close(q, i + 1) {
                Some(k) => {
                    lemma_scan_bounds(q, k + 2);
                    lemma_scans_shift(p, q, k + 2);
                    assert(m + k + 2 == m + (k + 2));
                    match paren_close(q, k + 2) {
                        Some(pc) => {
                            lemma_parse_shift(p, q, pc + 1);
                            assert(t.subrange(m + i + 1, m + k) =~= q.subrange(i + 1, k));
                            assert(t.subrange(m + k + 2, m + pc) =~= q.subrange(k + 2, pc));
                            assert(m + pc + 1 == m + (pc + 1));
                        },
                        None => {
                            lemma_parse_shift(p, q, i + 1);
                        },
                    }
                },
                None => {
                    lemma_parse_shift(p, q, i + 1);
                },
            }
        } else if next_special(q, i) > i {
            let e = next_special(q, i);
            lemma_parse_shift(p, q, e);
            assert(t.subrange(m + i, m + e) =~= q.subrange(i, e));
        } else {
            let e = name_end(q, i + 1);
            lemma_parse_shift(p, q, e);
            assert(t.subrange(m + i + 1, m + e) =~= q.subrange(i + 1, e));
        }
    }
}

proof fn lemma_span_close_skips(line: Seq<char>, c: Seq<char>, j: int)
    requires
        1 <= j <= c.len() + 1,
        line.len() >= c.len() + 3,
        forall|x: int| 0 <= x < c.len() ==> line[1 + x] == #[trigger] c[x],
        line[c.len() as int + 1] == ']',
        line[c.len() as int + 2] == '(',
        forall|x: int| 0 <= x < c.len() - 1 ==> !(#[trigger] c[x] == ']' && c[x + 1] == '('),
    ensures
        span_close(line, j) == Some(c.len() as int + 1),
    decreases c.len() + 1 - j,
{
    if j < c.len() + 1 {
        lemma_span_close_skips(line, c, j + 1);
        assert(line[j] == c[j - 1]);
        if j < c.len() {
            assert(line[j + 1] == c[j]);
        }
    }
}

proof fn lemma_paren_close_skips(line: Seq<char>, start: int, st: Seq<char>, j: int)
    requires
        0 <= start <= j <= start + st.len(),
        line.len() > start + st.len(),
        forall|x: int| 0 <= x < st.len() ==> line[start + x] == #[trigger] st[x],
        line[start + st.len()] == ')',
        forall|x: int| 0 <= x < st.len() ==> #[trigger] st[x] != ')',
    ensures
        paren_close(line, j) == Some(start + st.len()),
    decreases start + st.len() - j,
{
    if j < start + st.len() {
        lemma_paren_close_skips(line, start, st, j + 1);
        assert(line[j] == st[j - start]);
    }
}

/// A styled span closes at the first `)` after its `](`: `[c](s)` followed by
/// any `rest`, where `c` holds no `](` and `s` no `)`, is the span with content
/// `c` and style `s`, then the tokens of `rest` as if it stood alone.
pub proof fn law_span_style_ends_at_first_paren(c: Seq<char>, st: Seq<char>, rest: Seq<char>)
    requires
        forall|x: int| 0 <= x < c.len() - 1 ==> !(#[trigger] c[x] == ']' && c[x + 1] == '('),
        forall|x: int| 0 <= x < st.len() ==> #[trigger] st[x] != ')',
    ensures
        parsed(seq!['['] + c + seq![']', '('] + st + seq![')'] + rest) == seq![
            TokenView::StyledSpan { content: c, style: st },
        ] + parsed(rest),
{
    let pre = seq!['['] + c + seq![']', '('] + st + seq![')'];
    let line = pre + rest;
    let k = c.len() as int + 1;
    let pc = c.len() as int + 3 + st.len() as int;
    assert(pre.len() == pc + 1);
    assert forall|x: int| 0 <= x < c.len() implies line[1 + x] == #[trigger] c[x] by {
        assert(pre[1 + x] == c[x]);
    }
    assert(line[k] == ']' && line[k + 1] == '(');
    lemma_span_close_skips(line, c, 1);
    assert forall|x: int| 0 <= x < st.len() implies line[k + 2 + x] == #[trigger] st[x] by {
        assert(pre[k + 2 + x] == st[x]);
    }
    assert(line[pc] == ')');
    lemma_paren_close_skips(line, k + 2, st, k + 2);
    lemma_scan_bounds(line, 0);
    lemma_scan_bounds(line, 1);
    assert(line[0] == '[');
    assert(line.subrange(1, k) =~= c);
    assert(line.subrange(k + 2, pc) =~= st);
    lemma_parse_shift(pre, rest, 0);
    assert(pc + 1 == pre.len() + 0);
}

proof fn lemma_next_special_skips(line: Seq<char>, lit: Seq<char>, j: int)
    requires
        0 <= j <= lit.len() <= line.len(),
        forall|x: int| 0 <= x < lit.len() ==> line[x] == #[trigger] lit[x],
        forall|x: int| 0 <= x < lit.len() ==> !is_special(#[trigger] lit[x]),
    ensures
        next_special(line, j) == next_special(line, lit.len() as int),
    decreases lit.len() - j,
{
    if j < lit.len() {
        lemma_next_special_skips(line, lit, j + 1);
        assert(line[j] == lit[j]);
    }
}

proof fn lemma_name_end_skips(line: Seq<char>, name: Seq<char>, j: int)
    requires
        1 <= j <= name.len() + 1 <= line.len(),
        forall|x: int| 0 <= x < name.len() ==> line[1 + x] == #[trigger] name[x],
        forall|x: int| 0 <= x < name.len() ==> !ends_name(#[trigger] name[x]),
    ensures
        name_end(line, j) == name_end(line, name.len() as int + 1),
    decreases name.len() + 1 - j,
{
    if j < name.len() + 1 {
        lemma_name_end_skips(line, name, j + 1);
        assert(line[j] == name[j - 1]);
    }
}

/// Literal text runs up to the next `$` or `[`: text `lit` holding neither,
/// followed by `rest` that is empty or starts with one, is one literal token
/// and then the tokens of `rest` as if it stood alone.
pub proof fn law_literal_runs_to_next_special(lit: Seq<char>, rest: Seq<char>)
    requires
        lit.len() > 0,
        forall|x: int| 0 <= x < lit.len() ==> !is_special(#[trigger] lit[x]),
        rest.len() == 0 || is_special(rest[0]),
    ensures
        parsed(lit + rest) == seq![TokenView::Literal(lit)] + parsed(rest),
{
    let line = lit + rest;
    assert forall|x: int| 0 <= x < lit.len() implies line[x] == #[trigger] lit[x] by {}
    lemma_next_special_skips(line, lit, 0);
    lemma_scans_shift(lit, rest, 0);
    assert(lit.len() + 0 == lit.len());
    lemma_parse_shift(lit, rest, 0);
    assert(line[0] == lit[0]);
    assert(line.subrange(0, lit.len() as int) =~= lit);
}

/// A `$name` runs up to whitespace, `[`, `$` or the end: `$` then a non-empty
/// `name` holding none of them, followed by `rest` that is empty or starts with
/// one, is the token that `name` stands for and then the tokens of `rest`.
pub proof fn law_module_name_runs_to_its_end(name: Seq<char>, rest: Seq<char>)
    requires
        name.len() > 0,
        forall|x: int| 0 <= x < name.len() ==> !ends_name(#[trigger] name[x]),
        rest.len() == 0 || ends_name(rest[0]),
    ensures
        parsed(seq!['$'] + name + rest) == seq![classify(name)] + parsed(rest),
{
    let pre = seq!['$'] + name;
    let line = pre + rest;
    assert forall|x: int| 0 <= x < name.len() implies line[1 + x] == #[trigger] name[x] by {
        assert(pre[1 + x] == name[x]);
    }
    lemma_name_end_skips(line, name, 1);
    lemma_scans_shift(pre, rest, 0);
    assert(pre.len() == name.len() + 1);
    lemma_parse_shift(pre, rest, 0);
    assert(line[0] == '$');
    lemma_scan_bounds(line, 0);
    assert(line.subrange(1, name.len() as int + 1) =~= name);
}

/// What a `$name` stands for: `fill` is the fill, `starship_prompt` the whole
/// prompt, a name under `cship.` a native module, and any other name a module
/// that Starship renders.
pub proof fn law_module_names_classified(name: Seq<char>)
    ensures
        classify("fill"@) == TokenView::Fill,
        classify("starship_prompt"@) == TokenView::StarshipPrompt,
        "cship."@.is_prefix_of(name) ==> classify(name) == TokenView::Native(name),
        !"cship."@.is_prefix_of(name) && name != "fill"@ && name != "starship_prompt"@
            ==> classify(name) == TokenView::Passthrough(name),
{
    reveal_strlit("fill");
    reveal_strlit("starship_prompt");
    reveal_strlit("cship.");
    assert("fill"@.len() == 4 && "starship_prompt"@.len() == 15 && "cship."@.len() == 6);
    if "cship."@.is_prefix_of(name) {
        assert(name.take(6) =~= "cship."@);
        assert(name != "fill"@);
        if name == "starship_prompt"@ {
            assert(name[0] == 's' && "cship."@[0] == 'c');
            assert(name.take(6)[0] == name[0]);
        }
    } else if name.len() >= 6 && name.take(6) == "cship."@ {
        assert forall|x: int| 0 <= x < 6 implies name[x] == "cship."@[x] by {
            assert(name.take(6)[x] == name[x]);
        }
    }
}

/// `repeated(s, k)` is `k` copies of `s` back to back.
pub proof fn law_repeated_is_copies(s: Seq<char>, k: nat)
    ensures
        repeated(s, k).len() == k * s.len(),
        forall|j: int, x: int|
            0 <= j < k && 0 <= x < s.len() ==> #[trigger] repeated(s, k)[j * s.len() + x] == s[x],
    decreases k,
{
    if k > 0 {
        law_repeated_is_copies(s, (k - 1) as nat);
        let prev = repeated(s, (k - 1) as nat);
        assert(k * s.len() == (k - 1) * s.len() + s.len()) by (nonlinear_arith);
        assert forall|j: int, x: int| 0 <= j < k && 0 <= x < s.len() implies #[trigger] repeated(
            s,
            k,
        )[j * s.len() + x] == s[x] by {
            if j < k - 1 {
                assert(j * s.len() + x < (k - 1) * s.len()) by (nonlinear_arith)
                    requires
                        j < k - 1,
                        0 <= x < s.len(),
                        j >= 0,
                ;
                assert(repeated(s, k)[j * s.len() + x] == prev[j * s.len() + x]);
            } else {
                assert(j * s.len() == (k - 1) * s.len());
            }
        }
    } else {
        assert(0 * s.len() == 0) by (nonlinear_arith);
    }
}

/// One unstyled fill between two texts right-aligns the second: when the texts
/// fit in `total` columns, the fill symbol is repeated for exactly the columns
/// the plain texts leave free, so the line ends at column `total`.
pub proof fn law_single_fill_right_aligns(a: Seq<char>, b: Seq<char>, total: int, sym: Seq<char>)
    requires
        display_columns(a) + display_columns(b) <= total,
    ensures
        filled_line(seq![PieceView::Text(a), PieceView::Fill, PieceView::Text(b)], total, sym, None)
            == a + repeated(sym, (total - display_columns(a) - display_columns(b)) as nat) + b,
{
    let ps = seq![PieceView::Text(a), PieceView::Fill, PieceView::Text(b)];
    let p2 = ps.drop_last();
    let p1 = p2.drop_last();
    assert(p1 =~= seq![PieceView::Text(a)]);
    assert(p2 =~= seq![PieceView::Text(a), PieceView::Fill]);
    assert(p1.drop_last() =~= Seq::<PieceView>::empty());
    assert(content_columns(p1.drop_last()) == 0);
    assert(fills_in(p1.drop_last()) == 0);
    assert(content_columns(p1) == display_columns(a));
    assert(content_columns(p2) == display_columns(a));
    assert(content_columns(ps) == display_columns(a) + display_columns(b));
    assert(fills_in(p1) == 0);
    assert(p2.last() is Fill);
    assert(fills_in(p2) == 1);
    assert(!(ps.last() is Fill));
    assert(fills_in(ps) == 1);
    let r = total - display_columns(a) - display_columns(b);
    assert(leftover(ps, total) == r);
    assert(r / 1 == r && r % 1 == 0) by (nonlinear_arith)
        requires
            r >= 0,
    ;
    assert(gap_for(r, 1, 0) == r);
    assert(selected_style(None) == plain_style());
    assert(laid_out(p1.drop_last(), r, 1, sym, None) =~= Seq::<char>::empty());
    assert(laid_out(p1, r, 1, sym, None) =~= a);
    if r == 0 {
        assert(repeated(sym, 0) =~= Seq::<char>::empty());
    }
    assert(laid_out(p2, r, 1, sym, None) =~= a + repeated(sym, r as nat));
}

} // verus!
