//! Character-level helpers over a line held as a sequence of chars.
//!
//! Every helper works on a half-open index range `[a, b)` of one sequence, so
//! that the ranges the lexer computes can be turned into owned strings with a
//! single slice of the input line.
use vstd::prelude::*;
use vstd::string::*;

verus! {

/// The characters with the Unicode `White_Space` property.
pub open spec fn is_ws(c: char) -> bool {
    ||| ('\u{9}' <= c && c <= '\u{d}')
    ||| c == ' '
    ||| c == '\u{85}'
    ||| c == '\u{a0}'
    ||| c == '\u{1680}'
    ||| ('\u{2000}' <= c && c <= '\u{200a}')
    ||| c == '\u{2028}'
    ||| c == '\u{2029}'
    ||| c == '\u{202f}'
    ||| c == '\u{205f}'
    ||| c == '\u{3000}'
}

pub fn is_whitespace(c: char) -> (r: bool)
    ensures
        r == is_ws(c),
{
    ('\u{9}' <= c && c <= '\u{d}') || c == ' ' || c == '\u{85}' || c == '\u{a0}' || c
        == '\u{1680}' || ('\u{2000}' <= c && c <= '\u{200a}') || c == '\u{2028}' || c
        == '\u{2029}' || c == '\u{202f}' || c == '\u{205f}' || c == '\u{3000}'
}

/// End of `s[a..b]` once trailing whitespace is dropped.
pub open spec fn trim_end_at(s: Seq<char>, a: int, b: int) -> int
    decreases b - a,
{
    if a < b && is_ws(s[b - 1]) {
        trim_end_at(s, a, b - 1)
    } else {
        b
    }
}

/// Start of `s[a..b]` once leading whitespace is dropped.
pub open spec fn trim_start_at(s: Seq<char>, a: int, b: int) -> int
    decreases b - a,
{
    if a < b && is_ws(s[a]) {
        trim_start_at(s, a + 1, b)
    } else {
        a
    }
}

pub open spec fn br_marker() -> Seq<char> {
    seq!['<', 'b', 'r', '>']
}

/// End of `s[a..b]` once every trailing `<br>` is dropped.
pub open spec fn strip_br_at(s: Seq<char>, a: int, b: int) -> int
    decreases b - a,
{
    if b - a >= 4 && s.subrange(b - 4, b) == br_marker() {
        strip_br_at(s, a, b - 4)
    } else {
        b
    }
}

pub open spec fn is_quote(c: char) -> bool {
    c == '"' || c == '\''
}

/// End of `s[a..b]` once every trailing quote character is dropped.
pub open spec fn strip_quotes_end(s: Seq<char>, a: int, b: int) -> int
    decreases b - a,
{
    if a < b && is_quote(s[b - 1]) {
        strip_quotes_end(s, a, b - 1)
    } else {
        b
    }
}

/// Start of `s[a..b]` once every leading quote character is dropped.
pub open spec fn strip_quotes_start(s: Seq<char>, a: int, b: int) -> int
    decreases b - a,
{
    if a < b && is_quote(s[a]) {
        strip_quotes_start(s, a + 1, b)
    } else {
        a
    }
}

/// `t` without the quote characters at its start and at its end.
pub open spec fn quotes_stripped(t: Seq<char>) -> Seq<char> {
    let e = strip_quotes_end(t, 0, t.len() as int);
    t.subrange(strip_quotes_start(t, 0, e), e)
}

/// `s[a..b]` is a run of plain characters (anything but `q` and `\`) and of
/// escapes (`\` followed by any character but a newline).
pub open spec fn escaped_body(s: Seq<char>, a: int, b: int, q: char) -> bool
    decreases b - a,
{
    if a >= b {
        true
    } else if s[a] == '\\' {
        a + 1 < b && s[a + 1] != '\n' && escaped_body(s, a + 2, b, q)
    } else {
        s[a] != q && escaped_body(s, a + 1, b, q)
    }
}

/// `s[a..b]` is a string quoted with `q`, inner quotes escaped by `\`.
pub open spec fn quoted_with(s: Seq<char>, a: int, b: int, q: char) -> bool {
    b - a >= 2 && s[a] == q && s[b - 1] == q && escaped_body(s, a + 1, b - 1, q)
}

/// `s[a..b]` is a double- or single-quoted string.
pub open spec fn is_quoted(s: Seq<char>, a: int, b: int) -> bool {
    quoted_with(s, a, b, '"') || quoted_with(s, a, b, '\'')
}

/// First index in `s[a..b]` holding a space or a tab, or `b`.
pub open spec fn find_sep(s: Seq<char>, a: int, b: int) -> int
    decreases b - a,
{
    if a >= b {
        b
    } else if s[a] == ' ' || s[a] == '\t' {
        a
    } else {
        find_sep(s, a + 1, b)
    }
}

/// First index in `s[a..b]` holding neither a space nor a tab, or `b`.
pub open spec fn skip_sep(s: Seq<char>, a: int, b: int) -> int
    decreases b - a,
{
    if a < b && (s[a] == ' ' || s[a] == '\t') {
        skip_sep(s, a + 1, b)
    } else {
        a
    }
}

pub fn skip_separator(s: &Vec<char>, a: usize, b: usize) -> (r: usize)
    requires
        a <= b <= s@.len(),
    ensures
        r == skip_sep(s@, a as int, b as int),
        a <= r <= b,
{
    let mut i = a;
    while i < b && (s[i] == ' ' || s[i] == '\t')
        invariant
            a <= i <= b <= s@.len(),
            skip_sep(s@, i as int, b as int) == skip_sep(s@, a as int, b as int),
        decreases b - i,
    {
        i = i + 1;
    }
    i
}

pub fn trim_end(s: &Vec<char>, a: usize, b: usize) -> (r: usize)
    requires
        a <= b <= s@.len(),
    ensures
        r == trim_end_at(s@, a as int, b as int),
        a <= r <= b,
{
    let mut e = b;
    while a < e && is_whitespace(s[e - 1])
        invariant
            a <= e <= b <= s@.len(),
            trim_end_at(s@, a as int, e as int) == trim_end_at(s@, a as int, b as int),
        decreases e,
    {
        e = e - 1;
    }
    e
}

pub fn trim_start(s: &Vec<char>, a: usize, b: usize) -> (r: usize)
    requires
        a <= b <= s@.len(),
    ensures
        r == trim_start_at(s@, a as int, b as int),
        a <= r <= b,
{
    let mut i = a;
    while i < b && is_whitespace(s[i])
        invariant
            a <= i <= b <= s@.len(),
            trim_start_at(s@, i as int, b as int) == trim_start_at(s@, a as int, b as int),
        decreases b - i,
    {
        i = i + 1;
    }
    i
}

fn ends_with_br(s: &Vec<char>, a: usize, b: usize) -> (r: bool)
    requires
        a <= b <= s@.len(),
    ensures
        r == (b - a >= 4 && s@.subrange(b - 4, b as int) == br_marker()),
{
    if b - a >= 4 && s[b - 4] == '<' && s[b - 3] == 'b' && s[b - 2] == 'r' && s[b - 1] == '>' {
        assert(s@.subrange(b - 4, b as int) =~= br_marker());
        true
    } else {
        proof {
            if b - a >= 4 && s@.subrange(b - 4, b as int) == br_marker() {
                assert(s@.subrange(b - 4, b as int)[0] == s@[b - 4]);
                assert(s@.subrange(b - 4, b as int)[1] == s@[b - 3]);
                assert(s@.subrange(b - 4, b as int)[2] == s@[b - 2]);
                assert(s@.subrange(b - 4, b as int)[3] == s@[b - 1]);
            }
        }
        false
    }
}

pub fn strip_br(s: &Vec<char>, a: usize, b: usize) -> (r: usize)
    requires
        a <= b <= s@.len(),
    ensures
        r == strip_br_at(s@, a as int, b as int),
        a <= r <= b,
{
    let mut e = b;
    while ends_with_br(s, a, e)
        invariant
            a <= e <= b <= s@.len(),
            strip_br_at(s@, a as int, e as int) == strip_br_at(s@, a as int, b as int),
        decreases e,
    {
        e = e - 4;
    }
    e
}

pub fn strip_quotes(s: &Vec<char>, a: usize, b: usize) -> (r: (usize, usize))
    requires
        a <= b <= s@.len(),
    ensures
        r.1 == strip_quotes_end(s@, a as int, b as int),
        r.0 == strip_quotes_start(s@, a as int, r.1 as int),
        a <= r.0 <= r.1 <= b,
{
    let mut e = b;
    while a < e && (s[e - 1] == '"' || s[e - 1] == '\'')
        invariant
            a <= e <= b <= s@.len(),
            strip_quotes_end(s@, a as int, e as int) == strip_quotes_end(s@, a as int, b as int),
        decreases e,
    {
        e = e - 1;
    }
    let mut i = a;
    while i < e && (s[i] == '"' || s[i] == '\'')
        invariant
            a <= i <= e <= b <= s@.len(),
            strip_quotes_start(s@, i as int, e as int) == strip_quotes_start(s@, a as int, e as int),
        decreases e - i,
    {
        i = i + 1;
    }
    (i, e)
}

pub fn find_separator(s: &Vec<char>, a: usize, b: usize) -> (r: usize)
    requires
        a <= b <= s@.len(),
    ensures
        r == find_sep(s@, a as int, b as int),
        a <= r <= b,
{
    let mut i = a;
    while i < b && s[i] != ' ' && s[i] != '\t'
        invariant
            a <= i <= b <= s@.len(),
            find_sep(s@, i as int, b as int) == find_sep(s@, a as int, b as int),
        decreases b - i,
    {
        i = i + 1;
    }
    i
}

fn has_escaped_body(s: &Vec<char>, a: usize, b: usize, q: char) -> (r: bool)
    requires
        a <= b <= s@.len(),
    ensures
        r == escaped_body(s@, a as int, b as int, q),
{
    let mut i = a;
    while i < b
        invariant
            a <= i <= b + 1,
            b <= s@.len(),
            escaped_body(s@, i as int, b as int, q) == escaped_body(s@, a as int, b as int, q),
        decreases b - i,
    {
        if s[i] == '\\' {
            if i + 1 < b && s[i + 1] != '\n' {
                i = i + 2;
            } else {
                return false;
            }
        } else if s[i] == q {
            return false;
        } else {
            i = i + 1;
        }
    }
    true
}

pub fn quoted(s: &Vec<char>, a: usize, b: usize) -> (r: bool)
    requires
        a <= b <= s@.len(),
    ensures
        r == is_quoted(s@, a as int, b as int),
{
    let dq = b - a >= 2 && s[a] == '"' && s[b - 1] == '"' && has_escaped_body(s, a + 1, b - 1, '"');
    let sq = b - a >= 2 && s[a] == '\'' && s[b - 1] == '\'' && has_escaped_body(
        s,
        a + 1,
        b - 1,
        '\'',
    );
    dq || sq
}

/// The characters of a string.
pub(crate) fn chars_of(line: &str) -> (r: Vec<char>)
    ensures
        r@ == line@,
{
    let mut out: Vec<char> = Vec::new();
    for c in it: line.chars()
        invariant
            out@ == it.seq().subrange(0, it.index() as int),
            it.seq() == line@,
    {
        out.push(c);
    }
    out
}

/// An owned copy of the characters `a..b` of `line`.
pub fn text_of(line: &str, a: usize, b: usize) -> (r: String)
    requires
        a <= b <= line@.len(),
    ensures
        r@ == line@.subrange(a as int, b as int),
{
    String::from_str(line.substring_char(a, b))
}

} // verus!
