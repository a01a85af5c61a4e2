//! The lexer: the line's leading block mark, then the inline tokens.
use vstd::prelude::*;
use vstd::string::*;

use crate::inline::{framed, inline_tokens, split_inline};
use crate::laws::lemma_no_empty_tokens;
use crate::links::piece;
use crate::text::{chars_of, is_whitespace, is_ws};
use crate::token::{lemma_views_push, plain, views, Token, TokenKind, TokenView};

verus! {

/// The first index from `i` on that holds `c`, or the length.
pub open spec fn find_char(s: Seq<char>, i: int, c: char) -> int
    decreases s.len() - i,
{
    if i >= s.len() {
        s.len() as int
    } else if s[i] == c {
        i
    } else {
        find_char(s, i + 1, c)
    }
}

/// The first index from `i` on that holds whitespace, or the length.
pub open spec fn find_ws(s: Seq<char>, i: int) -> int
    decreases s.len() - i,
{
    if i >= s.len() {
        s.len() as int
    } else if is_ws(s[i]) {
        i
    } else {
        find_ws(s, i + 1)
    }
}

/// The first index from `i` on that holds no whitespace, or the length.
pub open spec fn find_non_ws(s: Seq<char>, i: int) -> int
    decreases s.len() - i,
{
    if i >= s.len() {
        s.len() as int
    } else if !is_ws(s[i]) {
        i
    } else {
        find_non_ws(s, i + 1)
    }
}

/// The line up to its first newline.
pub open spec fn body(line: Seq<char>) -> Seq<char> {
    line.subrange(0, find_char(line, 0, '\n'))
}

/// The line as the lexer reads it: its body and one newline.
pub open spec fn frame(line: Seq<char>) -> Seq<char> {
    body(line).push('\n')
}

/// How many of `s[0..k]` are `c`.
pub open spec fn count_upto(s: Seq<char>, c: char, k: int) -> nat
    decreases k,
{
    if k <= 0 {
        0
    } else {
        count_upto(s, c, k - 1) + if s[k - 1] == c {
            1nat
        } else {
            0nat
        }
    }
}

pub open spec fn is_rule_char(c: char) -> bool {
    c == '*' || c == '-' || c == '_'
}

/// Apart from whitespace, `s` holds one character of `*`, `-`, `_`, at least
/// three times.
pub open spec fn is_dividing_line(s: Seq<char>) -> bool {
    let i = find_non_ws(s, 0);
    &&& i < s.len()
    &&& is_rule_char(s[i])
    &&& forall|k: int| 0 <= k < s.len() && !is_ws(#[trigger] s[k]) ==> s[k] == s[i]
    &&& count_upto(s, s[i], s.len() as int) >= 3
}

pub open spec fn is_digit(c: char) -> bool {
    '0' <= c && c <= '9'
}

/// One to three digits and a `.`.
pub open spec fn is_ordered_word(w: Seq<char>) -> bool {
    &&& 2 <= w.len() <= 4
    &&& w[w.len() - 1] == '.'
    &&& forall|k: int| 0 <= k < w.len() - 1 ==> is_digit(#[trigger] w[k])
}

/// `#` to `####`.
pub open spec fn is_title_word(w: Seq<char>) -> bool {
    &&& 1 <= w.len() <= 4
    &&& forall|k: int| 0 <= k < w.len() ==> #[trigger] w[k] == '#'
}

/// The block mark of the first word `s[i..j]` of the framed line `s`, if it is
/// one.
pub open spec fn mark_token(s: Seq<char>, i: int, j: int) -> Option<TokenView> {
    let w = s.subrange(i, j);
    let rule = plain(s.subrange(0, s.len() - 1), TokenKind::DividingMark);
    if is_title_word(w) {
        Some(plain(w, TokenKind::TitleMark))
    } else if is_ordered_word(w) {
        Some(plain(w, TokenKind::OrderedMark))
    } else if w == seq!['>'] {
        Some(plain(w, TokenKind::QuoteMark))
    } else if w.len() >= 3 && w[0] == '`' && w[1] == '`' && w[2] == '`' {
        Some(plain(seq!['`', '`', '`'], TokenKind::CodeBlockMark))
    } else if w == seq!['+'] {
        Some(plain(w, TokenKind::UnorderedMark))
    } else if w == seq!['*'] || w == seq!['-'] {
        if is_dividing_line(s) {
            Some(rule)
        } else {
            Some(plain(w, TokenKind::UnorderedMark))
        }
    } else if w.len() >= 1 && is_rule_char(w[0]) {
        if is_dividing_line(s) {
            Some(rule)
        } else {
            None
        }
    } else {
        None
    }
}

/// The tokens of a framed line.
pub open spec fn lex_framed(s: Seq<char>) -> Seq<TokenView> {
    let i = find_non_ws(s, 0);
    if i >= s.len() {
        seq![plain(s.subrange(0, s.len() - 1), TokenKind::BlankLine)]
    } else {
        let lead = if i > 0 {
            seq![plain(s.subrange(0, i), TokenKind::WhiteSpace)]
        } else {
            Seq::empty()
        };
        let j = find_ws(s, i);
        match mark_token(s, i, j) {
            Some(t) => if t.kind == TokenKind::DividingMark {
                seq![t]
            } else if t.kind == TokenKind::CodeBlockMark {
                lead.push(t) + inline_tokens(s, i + 3)
            } else {
                lead.push(t) + inline_tokens(s, j + 1)
            },
            None => lead + inline_tokens(s, i),
        }
    }
}

/// The tokens of one line of text; only the part before its first newline
/// is read.
pub open spec fn lex(line: Seq<char>) -> Seq<TokenView> {
    lex_framed(frame(line))
}

/// Splits one line of Markdown into tokens.
pub struct Lexer<'a> {
    line_text: &'a str,
}

/// The line's chars up to its first newline, then one newline.
fn frame_line(line: &str) -> (s: Vec<char>)
    ensures
        s@ == frame(line@),
        framed(line@, s@),
{
    let all = chars_of(line);
    let mut k: usize = 0;
    while k < all.len() && all[k] != '\n'
        invariant
            all@ == line@,
            k <= all.len(),
            find_char(line@, k as int, '\n') == find_char(line@, 0, '\n'),
        decreases all.len() - k,
    {
        k = k + 1;
    }
    let mut s: Vec<char> = Vec::new();
    let mut i: usize = 0;
    while i < k
        invariant
            all@ == line@,
            i <= k <= all.len(),
            s@ == line@.subrange(0, i as int),
        decreases k - i,
    {
        s.push(all[i]);
        i = i + 1;
        assert(s@ =~= line@.subrange(0, i as int));
    }
    s.push('\n');
    s
}

pub(crate) fn find_char_from(s: &Vec<char>, i: usize, c: char) -> (r: usize)
    requires
        i <= s.len(),
    ensures
        r == find_char(s@, i as int, c),
        i <= r <= s.len(),
{
    let mut k = i;
    while k < s.len() && s[k] != c
        invariant
            i <= k <= s.len(),
            find_char(s@, k as int, c) == find_char(s@, i as int, c),
        decreases s.len() - k,
    {
        k = k + 1;
    }
    k
}

pub(crate) fn find_whitespace(s: &Vec<char>, i: usize) -> (r: usize)
    requires
        i <= s.len(),
    ensures
        r == find_ws(s@, i as int),
        i <= r <= s.len(),
{
    let mut k = i;
    while k < s.len() && !is_whitespace(s[k])
        invariant
            i <= k <= s.len(),
            find_ws(s@, k as int) == find_ws(s@, i as int),
        decreases s.len() - k,
    {
        k = k + 1;
    }
    k
}

pub(crate) fn find_non_whitespace(s: &Vec<char>, i: usize) -> (r: usize)
    requires
        i <= s.len(),
    ensures
        r == find_non_ws(s@, i as int),
        i <= r <= s.len(),
{
    let mut k = i;
    while k < s.len() && is_whitespace(s[k])
        invariant
            i <= k <= s.len(),
            find_non_ws(s@, k as int) == find_non_ws(s@, i as int),
        decreases s.len() - k,
    {
        k = k + 1;
    }
    k
}

/// What `find_non_ws` finds: whitespace before it, none at it.
pub proof fn lemma_find_non_ws(s: Seq<char>, i: int)
    requires
        0 <= i <= s.len(),
    ensures
        i <= find_non_ws(s, i) <= s.len(),
        find_non_ws(s, i) < s.len() ==> !is_ws(s[find_non_ws(s, i)]),
        forall|k: int| i <= k < find_non_ws(s, i) ==> is_ws(#[trigger] s[k]),
    decreases s.len() - i,
{
    if i < s.len() && is_ws(s[i]) {
        lemma_find_non_ws(s, i + 1);
    }
}

/// What `find_ws` finds: no whitespace before it, whitespace at it.
pub proof fn lemma_find_ws(s: Seq<char>, i: int)
    requires
        0 <= i <= s.len(),
    ensures
        i <= find_ws(s, i) <= s.len(),
        find_ws(s, i) < s.len() ==> is_ws(s[find_ws(s, i)]),
        forall|k: int| i <= k < find_ws(s, i) ==> !is_ws(#[trigger] s[k]),
    decreases s.len() - i,
{
    if i < s.len() && !is_ws(s[i]) {
        lemma_find_ws(s, i + 1);
    }
}

proof fn lemma_find_ws_bound(s: Seq<char>, i: int)
    requires
        0 <= i < s.len(),
        is_ws(s[s.len() - 1]),
    ensures
        find_ws(s, i) < s.len(),
    decreases s.len() - i,
{
    if !is_ws(s[i]) {
        lemma_find_ws_bound(s, i + 1);
    }
}

/// Whether the line is a dividing rule (see `is_dividing_line`).
pub fn is_dividing(s: &Vec<char>) -> (r: bool)
    ensures
        r == is_dividing_line(s@),
{
    let i = find_non_whitespace(s, 0);
    if i >= s.len() {
        return false;
    }
    let c = s[i];
    if !(c == '*' || c == '-' || c == '_') {
        return false;
    }
    let mut count: usize = 0;
    let mut k: usize = 0;
    while k < s.len()
        invariant
            k <= s.len(),
            i < s.len(),
            i == find_non_ws(s@, 0),
            is_rule_char(c),
            c == s@[i as int],
            count == count_upto(s@, c, k as int),
            count <= k,
            forall|m: int| 0 <= m < k && !is_ws(#[trigger] s@[m]) ==> s@[m] == c,
        decreases s.len() - k,
    {
        if !is_whitespace(s[k]) {
            if s[k] != c {
                assert(!is_ws(s@[k as int]) && s@[k as int] != s@[i as int]);
                assert(!(forall|m: int|
                    0 <= m < s@.len() && !is_ws(#[trigger] s@[m]) ==> s@[m] == s@[i as int]));
                return false;
            }
        }
        if s[k] == c {
            count = count + 1;
        }
        k = k + 1;
    }
    count >= 3
}

fn is_title(s: &Vec<char>, i: usize, j: usize) -> (r: bool)
    requires
        i <= j <= s.len(),
    ensures
        r == is_title_word(s@.subrange(i as int, j as int)),
{
    let ghost w = s@.subrange(i as int, j as int);
    if j - i < 1 || j - i > 4 {
        return false;
    }
    let mut k = i;
    while k < j
        invariant
            i <= k <= j <= s.len(),
            w == s@.subrange(i as int, j as int),
            forall|m: int| 0 <= m < k - i ==> #[trigger] w[m] == '#',
        decreases j - k,
    {
        if s[k] != '#' {
            assert(w[k - i] == s@[k as int]);
            return false;
        }
        k = k + 1;
    }
    true
}

fn is_ordered(s: &Vec<char>, i: usize, j: usize) -> (r: bool)
    requires
        i <= j <= s.len(),
    ensures
        r == is_ordered_word(s@.subrange(i as int, j as int)),
{
    let ghost w = s@.subrange(i as int, j as int);
    if j - i < 2 || j - i > 4 || s[j - 1] != '.' {
        return false;
    }
    let mut k = i;
    while k < j - 1
        invariant
            i <= k <= j - 1,
            j <= s.len(),
            w == s@.subrange(i as int, j as int),
            forall|m: int| 0 <= m < k - i ==> is_digit(#[trigger] w[m]),
        decreases j - k,
    {
        if !('0' <= s[k] && s[k] <= '9') {
            assert(w[k - i] == s@[k as int]);
            return false;
        }
        k = k + 1;
    }
    true
}

impl<'a> Lexer<'a> {
    /// The text this lexer reads.
    pub closed spec fn text(&self) -> Seq<char> {
        self.line_text@
    }

    pub fn new(text: &'a str) -> (r: Lexer<'a>)
        ensures
            r.text() == text@,
    {
        Lexer { line_text: text }
    }

    /// The block mark of the first word `s[i..j]` (see `mark_token`).
    fn extract_mark(&self, s: &Vec<char>, i: usize, j: usize) -> (r: Option<Token>)
        requires
            framed(self.text(), s@),
            i < j < s.len(),
        ensures
            match r {
                Some(t) => mark_token(s@, i as int, j as int) == Some(t@),
                None => mark_token(s@, i as int, j as int) is None,
            },
    {
        let ghost w = s@.subrange(i as int, j as int);
        let n = s.len() - 1;
        let line = self.line_text;
        let m = j - i;
        proof {
            if m >= 1 {
                assert(w[0] == s@[i as int]);
            }
            if m >= 3 {
                assert(w[1] == s@[i + 1]);
                assert(w[2] == s@[i + 2]);
            }
        }
        let one = m == 1;
        proof {
            if one {
                assert(w == seq![s@[i as int]]);
            }
        }
        if is_title(s, i, j) {
            Some(Token::new(piece(line, s, n, i, j), TokenKind::TitleMark))
        } else if is_ordered(s, i, j) {
            Some(Token::new(piece(line, s, n, i, j), TokenKind::OrderedMark))
        } else if one && s[i] == '>' {
            Some(Token::new(piece(line, s, n, i, j), TokenKind::QuoteMark))
        } else if m >= 3 && s[i] == '`' && s[i + 1] == '`' && s[i + 2] == '`' {
            proof {
                reveal_strlit("```");
                assert("```"@ =~= seq!['`', '`', '`']);
            }
            Some(Token::new(String::from_str("```"), TokenKind::CodeBlockMark))
        } else if one && s[i] == '+' {
            Some(Token::new(piece(line, s, n, i, j), TokenKind::UnorderedMark))
        } else if one && (s[i] == '*' || s[i] == '-') {
            if is_dividing(s) {
                Some(Token::new(piece(line, s, n, 0, n), TokenKind::DividingMark))
            } else {
                Some(Token::new(piece(line, s, n, i, j), TokenKind::UnorderedMark))
            }
        } else if m >= 1 && (s[i] == '*' || s[i] == '-' || s[i] == '_') {
            if is_dividing(s) {
                Some(Token::new(piece(line, s, n, 0, n), TokenKind::DividingMark))
            } else {
                None
            }
        } else {
            None
        }
    }

    /// The tokens of the line (see `lex`). None is empty, but the
    /// blank-line token of an empty line.
    pub fn split(self) -> (r: Vec<Token>)
        ensures
            views(r@) == lex(self.text()),
            forall|k: int|
                0 <= k < r.len() ==> #[trigger] views(r@)[k].value.len() > 0 || views(r@)[k].kind
                    == TokenKind::BlankLine,
    {
        let line = self.line_text;
        let s = frame_line(line);
        proof {
            lemma_no_empty_tokens(line@);
        }
        let n = s.len() - 1;
        let i = find_non_whitespace(&s, 0);
        let mut buff: Vec<Token> = Vec::new();
        if i >= s.len() {
            let t = Token::new(piece(line, &s, n, 0, n), TokenKind::BlankLine);
            proof {
                lemma_views_push(buff@, t);
            }
            buff.push(t);
            assert(views(buff@) =~= seq![t@]);
            return buff;
        }
        if i > 0 {
            let t = Token::new(piece(line, &s, n, 0, i), TokenKind::WhiteSpace);
            proof {
                lemma_views_push(buff@, t);
            }
            buff.push(t);
        }
        let ghost lead = views(buff@);
        assert(lead =~= (if i > 0 {
            seq![plain(s@.subrange(0, i as int), TokenKind::WhiteSpace)]
        } else {
            Seq::<TokenView>::empty()
        }));
        proof {
            lemma_find_ws_bound(s@, i as int);
            lemma_find_non_ws(s@, 0);
            lemma_find_ws(s@, i as int);
        }
        let j = find_whitespace(&s, i);
        let start = match self.extract_mark(&s, i, j) {
            Some(m) => {
                let kind = m.kind;
                if let TokenKind::DividingMark = kind {
                    let mut only: Vec<Token> = Vec::new();
                    proof {
                        lemma_views_push(only@, m);
                    }
                    only.push(m);
                    assert(views(only@) =~= seq![m@]);
                    return only;
                }
                proof {
                    lemma_views_push(buff@, m);
                }
                buff.push(m);
                if let TokenKind::CodeBlockMark = kind {
                    i + 3
                } else {
                    j + 1
                }
            },
            None => i,
        };
        let mut rest = split_inline(line, &s, start);
        let ghost before = buff@;
        let ghost tail = rest@;
        buff.append(&mut rest);
        assert(views(buff@) =~= views(before) + views(tail));
        buff
    }
}

} // verus!
