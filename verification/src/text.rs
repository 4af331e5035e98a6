//! Character-level helpers shared by the style and layout code: turning
//! strings into character vectors and back, comparing against literals, and
//! the few character classes that std or `unicode-width` decide.
use unicode_width::UnicodeWidthStr;
use vstd::prelude::*;
use vstd::std_specs::iter::IteratorSpec;

verus! {

broadcast use vstd::string::group_string_axioms;

/// Whether `c` has the Unicode `White_Space` property, which std
/// `char::is_whitespace` tests. The property is the list of code points that
/// the Unicode Character Database gives in `PropList.txt`: the controls
/// U+0009..U+000D, the space U+0020, NEXT LINE U+0085, NO-BREAK SPACE U+00A0,
/// OGHAM SPACE MARK U+1680, the spaces U+2000..U+200A, the line and paragraph
/// separators U+2028 and U+2029, U+202F, U+205F and the ideographic space
/// U+3000.
pub open spec fn white_space(c: char) -> bool {
    let n = c as u32;
    ||| 0x09 <= n <= 0x0D
    ||| n == 0x20
    ||| n == 0x85
    ||| n == 0xA0
    ||| n == 0x1680
    ||| 0x2000 <= n <= 0x200A
    ||| n == 0x2028
    ||| n == 0x2029
    ||| n == 0x202F
    ||| n == 0x205F
    ||| n == 0x3000
}

/// The Unicode lowercase form of a whole string (std `str::to_lowercase`).
pub uninterp spec fn lowercase(s: Seq<char>) -> Seq<char>;

/// The number of terminal columns `unicode-width` gives a string.
pub uninterp spec fn str_columns(s: Seq<char>) -> usize;

/// Calls std `char::is_whitespace`, which the std documentation defines as
/// the `White_Space` property of `c`, spelled out in `white_space`.
#[verifier::external_body]
pub(crate) fn is_white_space(c: char) -> (b: bool)
    ensures
        b == white_space(c),
{
    c.is_whitespace()
}

/// Calls std `str::to_lowercase`. Its result depends only on the string
/// (Unicode case tables, no locale); it is named here, not spelled out.
#[verifier::external_body]
fn to_lowercase(s: &str) -> (out: String)
    ensures
        out@ == lowercase(s@),
{
    s.to_lowercase()
}

/// Calls `unicode_width::UnicodeWidthStr::width`; the column count it
/// computes from the Unicode width tables is named, not spelled out. The one
/// fact stated beside the name: the count folds over the characters starting
/// from zero, so the empty string is zero columns wide.
#[verifier::external_body]
pub(crate) fn columns_of(s: &str) -> (w: usize)
    ensures
        w == str_columns(s@),
        s@.len() == 0 ==> w == 0,
{
    s.width()
}

/// Calls std `String::push`, which appends one character.
#[verifier::external_body]
pub(crate) fn push_char(s: &mut String, c: char)
    ensures
        final(s)@ == old(s)@.push(c),
{
    s.push(c)
}

/// The characters of `s`, in order.
pub fn chars_of(s: &str) -> (out: Vec<char>)
    ensures
        out@ == s@,
{
    let mut out: Vec<char> = Vec::new();
    for c in it: s.chars()
        invariant
            out@ == it.seq().take(it.index() as int),
    {
        out.push(c);
    }
    out
}

/// A `String` holding `cs[lo..hi]`.
pub fn string_of(cs: &Vec<char>, lo: usize, hi: usize) -> (out: String)
    requires
        lo <= hi <= cs.len(),
    ensures
        out@ == cs@.subrange(lo as int, hi as int),
{
    let mut out = String::new();
    let mut i = lo;
    while i < hi
        invariant
            lo <= i <= hi <= cs.len(),
            out@ == cs@.subrange(lo as int, i as int),
        decreases hi - i,
    {
        push_char(&mut out, cs[i]);
        assert(cs@.subrange(lo as int, i + 1) == cs@.subrange(lo as int, i as int).push(cs@[i as int]));
        i = i + 1;
    }
    out
}

/// Appends all of `cs` to `out`.
pub(crate) fn push_chars(out: &mut String, cs: &Vec<char>)
    ensures
        final(out)@ == old(out)@ + cs@,
{
    let mut i: usize = 0;
    while i < cs.len()
        invariant
            i <= cs.len(),
            out@ == old(out)@ + cs@.take(i as int),
        decreases cs.len() - i,
    {
        push_char(out, cs[i]);
        assert(cs@.take(i + 1) == cs@.take(i as int).push(cs@[i as int]));
        i = i + 1;
    }
    assert(cs@.take(cs.len() as int) == cs@);
}

/// The lowercase form of `cs[lo..hi]`, as characters.
pub fn lowercase_of(cs: &Vec<char>, lo: usize, hi: usize) -> (out: Vec<char>)
    requires
        lo <= hi <= cs.len(),
    ensures
        out@ == lowercase(cs@.subrange(lo as int, hi as int)),
{
    let s = string_of(cs, lo, hi);
    let l = to_lowercase(s.as_str());
    chars_of(l.as_str())
}

/// Whether `cs[lo..hi]` is exactly the text `lit`.
pub fn range_is(cs: &Vec<char>, lo: usize, hi: usize, lit: &str) -> (b: bool)
    requires
        lo <= hi <= cs.len(),
    ensures
        b == (cs@.subrange(lo as int, hi as int) == lit@),
{
    let l = chars_of(lit);
    if hi - lo != l.len() {
        return false;
    }
    let mut i: usize = 0;
    while i < l.len()
        invariant
            hi - lo == l.len(),
            lo <= hi <= cs.len(),
            l@ == lit@,
            i <= l.len(),
            forall|j: int| 0 <= j < i ==> cs@[lo + j] == l@[j],
        decreases l.len() - i,
    {
        if cs[lo + i] != l[i] {
            assert(cs@.subrange(lo as int, hi as int)[i as int] != lit@[i as int]);
            return false;
        }
        i = i + 1;
    }
    assert(cs@.subrange(lo as int, hi as int) =~= lit@);
    true
}

/// Whether `cs[lo..hi]` begins with the text `lit`.
pub fn range_starts_with(cs: &Vec<char>, lo: usize, hi: usize, lit: &str) -> (b: bool)
    requires
        lo <= hi <= cs.len(),
    ensures
        b == (lit@.len() <= hi - lo && cs@.subrange(lo as int, lo + lit@.len()) == lit@),
{
    let l = chars_of(lit);
    if l.len() > hi - lo {
        return false;
    }
    range_is(cs, lo, lo + l.len(), lit)
}

} // verus!
