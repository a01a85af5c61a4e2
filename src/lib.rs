//! A line lexer for Markdown: each line becomes a sequence of typed tokens
//! (block marks, text, emphasis and code marks, links, images, autolinks and
//! reference links), and a coarse block parser for whole documents.
pub mod escapes;
pub mod inline;
pub mod laws;
pub mod lexer;
pub mod links;
pub mod round_trip;
pub mod text;
pub mod tidy;
pub mod token;

use vstd::prelude::*;

use crate::lexer::{
    find_char, find_char_from, find_non_whitespace, find_non_ws, find_whitespace, find_ws,
    lemma_find_non_ws, lemma_find_ws,
};
use crate::links::{agrees, piece};
use crate::text::chars_of;

verus! {

/// A document as the lines it was parsed into.
pub struct Ast {
    lines: Vec<Line>,
}

impl View for Ast {
    type V = Seq<LineView>;

    closed spec fn view(&self) -> Seq<LineView> {
        self.lines@.map_values(|l: Line| l@)
    }
}

impl Ast {
    pub fn new() -> (r: Ast)
        ensures
            r@ == Seq::<LineView>::empty(),
    {
        let r = Ast { lines: Vec::new() };
        assert(r@ =~= Seq::<LineView>::empty());
        r
    }

    pub fn push(&mut self, line: Line)
        ensures
            final(self)@ == old(self)@.push(line@),
    {
        self.lines.push(line);
        assert(self@ =~= old(self)@.push(line@));
    }
}

impl Ast {
    /// The number of lines.
    pub fn len(&self) -> (r: usize)
        ensures
            r == self@.len(),
    {
        self.lines.len()
    }
}

impl Default for Ast {
    fn default() -> (r: Ast)
        ensures
            r@ == Seq::<LineView>::empty(),
    {
        Ast::new()
    }
}

/// What the first token of a line says of it.
#[derive(Clone, Copy, Debug, PartialEq, Eq, Structural)]
pub enum LineKind {
    Unknow,
    Blank,
    Title,
    Plain,
}

/// The kinds of the block parser's tokens.
#[derive(Clone, Copy, Debug, PartialEq, Eq, Structural)]
pub enum BlockKind {
    TitleMark,
    DisorderMark,
    DividingMark,
    QuoteMark,
    Title,
    DisorderListItem,
    Quote,
    BlankLine,
    Plain,
}

/// A token of the block parser, with the number of its line.
struct BlockToken {
    value: String,
    kind: BlockKind,
    line_num: i32,
}

spec fn block_views(ts: Seq<BlockToken>) -> Seq<BlockTokenView> {
    ts.map_values(|t: BlockToken| BlockTokenView { value: t.value@, kind: t.kind, line_num: t.line_num })
}

pub struct BlockTokenView {
    pub value: Seq<char>,
    pub kind: BlockKind,
    pub line_num: i32,
}

/// A line of a document, parsed into block tokens.
pub struct Line {
    tokens: Vec<BlockToken>,
    kind: LineKind,
}

pub struct LineView {
    pub tokens: Seq<BlockTokenView>,
    pub kind: LineKind,
}

impl View for Line {
    type V = LineView;

    closed spec fn view(&self) -> LineView {
        LineView {
            tokens: block_views(self.tokens@),
            kind: self.kind,
        }
    }
}

/// End of `s[a..b]` once its trailing newlines are dropped.
pub open spec fn newline_trimmed(s: Seq<char>, a: int, b: int) -> int
    decreases b - a,
{
    if b > a && s[b - 1] == '\n' {
        newline_trimmed(s, a, b - 1)
    } else {
        b
    }
}

/// `s` from `a` on, without the newlines at its end.
pub open spec fn rest_of(s: Seq<char>, a: int) -> Seq<char> {
    s.subrange(a, newline_trimmed(s, a, s.len() as int))
}

pub open spec fn block_token(value: Seq<char>, kind: BlockKind, ln: i32) -> BlockTokenView {
    BlockTokenView { value, kind, line_num: ln }
}

/// The kind of the mark that the first word `w` is, if it is one.
pub open spec fn block_mark(w: Seq<char>) -> Option<BlockKind> {
    if 1 <= w.len() <= 5 && forall|k: int| 0 <= k < w.len() ==> #[trigger] w[k] == '#' {
        Some(BlockKind::TitleMark)
    } else if w == seq!['*'] || w == seq!['-'] || w == seq!['+'] {
        Some(BlockKind::DisorderMark)
    } else if w == seq!['*', '*', '*'] || w == seq!['-', '-', '-'] || w == seq!['_', '_', '_'] {
        Some(BlockKind::DividingMark)
    } else if w == seq!['>'] {
        Some(BlockKind::QuoteMark)
    } else {
        None
    }
}

/// The token that follows a mark of kind `m` whose word ends at `j`: the
/// rest of the line from its next non-blank character, if there is one.
pub open spec fn after_mark(s: Seq<char>, m: BlockKind, j: int, ln: i32) -> Seq<BlockTokenView> {
    let k = find_non_ws(s, j + 1);
    let kind = if m == BlockKind::TitleMark {
        BlockKind::Title
    } else if m == BlockKind::DisorderMark {
        BlockKind::DisorderListItem
    } else {
        BlockKind::Quote
    };
    if m == BlockKind::DividingMark || k >= s.len() {
        Seq::empty()
    } else {
        seq![block_token(rest_of(s, k), kind, ln)]
    }
}

/// The block tokens of line `s`, numbered `ln`. A line that is blank up to
/// a newline gives an empty blank-line token; otherwise the first word,
/// once a whitespace character ends it, is a mark followed by the rest of
/// the line, or the whole line from that word on is plain text.
pub open spec fn block_tokens(ln: i32, s: Seq<char>) -> Seq<BlockTokenView> {
    let i = find_non_ws(s, 0);
    if find_char(s, 0, '\n') < i {
        seq![block_token(Seq::empty(), BlockKind::BlankLine, ln)]
    } else if i >= s.len() {
        Seq::empty()
    } else {
        let j = find_ws(s, i);
        if j >= s.len() {
            Seq::empty()
        } else {
            match block_mark(s.subrange(i, j)) {
                Some(m) => seq![block_token(s.subrange(i, j), m, ln)] + after_mark(s, m, j, ln),
                None => seq![block_token(rest_of(s, i), BlockKind::Plain, ln)],
            }
        }
    }
}

pub open spec fn line_kind_of(ts: Seq<BlockTokenView>) -> LineKind {
    if ts.len() == 0 {
        LineKind::Unknow
    } else if ts[0].kind == BlockKind::BlankLine {
        LineKind::Blank
    } else if ts[0].kind == BlockKind::TitleMark {
        LineKind::Title
    } else if ts[0].kind == BlockKind::Plain {
        LineKind::Plain
    } else {
        LineKind::Unknow
    }
}

fn trim_newlines(s: &Vec<char>, a: usize, b: usize) -> (r: usize)
    requires
        a <= b <= s.len(),
    ensures
        r == newline_trimmed(s@, a as int, b as int),
        a <= r <= b,
{
    let mut e = b;
    while e > a && s[e - 1] == '\n'
        invariant
            a <= e <= b <= s.len(),
            newline_trimmed(s@, a as int, e as int) == newline_trimmed(s@, a as int, b as int),
        decreases e,
    {
        e = e - 1;
    }
    e
}

/// The mark that the first word `s[i..j]` is, if it is one (see `block_mark`).
fn check_mark(s: &Vec<char>, i: usize, j: usize) -> (r: Option<BlockKind>)
    requires
        i < j <= s.len(),
    ensures
        r == block_mark(s@.subrange(i as int, j as int)),
{
    let ghost w = s@.subrange(i as int, j as int);
    let m = j - i;
    let mut hashes = m <= 5;
    let mut k = i;
    while k < j
        invariant
            i <= k <= j <= s.len(),
            w == s@.subrange(i as int, j as int),
            hashes == (m <= 5 && forall|q: int| 0 <= q < k - i ==> #[trigger] w[q] == '#'),
        decreases j - k,
    {
        assert(w[k - i] == s@[k as int]);
        hashes = hashes && s[k] == '#';
        k = k + 1;
    }
    proof {
        assert(w[0] == s@[i as int]);
        if m == 1 {
            assert(w =~= seq![s@[i as int]]);
        }
        if m == 3 {
            assert(w[1] == s@[i + 1]);
            assert(w[2] == s@[i + 2]);
            assert(w =~= seq![s@[i as int], s@[i + 1], s@[i + 2]]);
        }
    }
    if hashes {
        Some(BlockKind::TitleMark)
    } else if m == 1 && (s[i] == '*' || s[i] == '-' || s[i] == '+') {
        Some(BlockKind::DisorderMark)
    } else if m == 3 && (s[i] == '*' || s[i] == '-' || s[i] == '_') && s[i + 1] == s[i] && s[i + 2]
        == s[i] {
        Some(BlockKind::DividingMark)
    } else if m == 1 && s[i] == '>' {
        Some(BlockKind::QuoteMark)
    } else {
        None
    }
}

fn push_block(
    tokens: &mut Vec<BlockToken>,
    line: &str,
    s: &Vec<char>,
    a: usize,
    b: usize,
    kind: BlockKind,
    ln: i32,
)
    requires
        agrees(line@, s@, s.len() as int),
        a <= b <= s.len(),
    ensures
        block_views(final(tokens)@) == block_views(old(tokens)@).push(block_token(s@.subrange(a as int, b as int), kind, ln)),
{
    let t = BlockToken { value: piece(line, s, s.len(), a, b), kind, line_num: ln };
    tokens.push(t);
    assert(block_views(tokens@) =~= block_views(old(tokens)@).push(block_token(s@.subrange(a as int, b as int), kind, ln)));
}

impl Line {
    /// What the first token says of the line.
    pub fn kind(&self) -> (r: LineKind)
        ensures
            r == self@.kind,
    {
        self.kind
    }

    /// The number of tokens.
    pub fn len(&self) -> (r: usize)
        ensures
            r == self@.tokens.len(),
    {
        self.tokens.len()
    }

    /// The text, kind and line number of token `i`.
    pub fn token(&self, i: usize) -> (r: (&str, BlockKind, i32))
        requires
            i < self@.tokens.len(),
        ensures
            r.0@ == self@.tokens[i as int].value,
            r.1 == self@.tokens[i as int].kind,
            r.2 == self@.tokens[i as int].line_num,
    {
        let t = &self.tokens[i];
        (t.value.as_str(), t.kind, t.line_num)
    }

    /// Parses one line of text, numbered `ln`, into block tokens.
    pub fn parse(ln: i32, line: String) -> (r: Line)
        ensures
            r@ == (LineView {
                tokens: block_tokens(ln, line@),
                kind: line_kind_of(block_tokens(ln, line@)),
            }),
    {
        let text = line.as_str();
        let s = chars_of(text);
        let ghost sv = s@;
        let ghost expected = block_tokens(ln, line@);
        let mut tokens: Vec<BlockToken> = Vec::new();
        assert(block_views(tokens@) =~= Seq::<BlockTokenView>::empty());
        assert(sv == line@);
        let i = find_non_whitespace(&s, 0);
        let nl = find_char_from(&s, 0, '\n');
        proof {
            lemma_find_non_ws(sv, 0);
            lemma_find_ws(sv, i as int);
        }
        if nl < i {
            push_block(&mut tokens, text, &s, 0, 0, BlockKind::BlankLine, ln);
            assert(sv.subrange(0, 0) =~= Seq::<char>::empty());
            assert(block_views(tokens@) =~= expected);
        } else if i < s.len() {
            let j = find_whitespace(&s, i);
            if j < s.len() {
                match check_mark(&s, i, j) {
                    Some(m) => {
                        push_block(&mut tokens, text, &s, i, j, m, ln);
                        let k = find_non_whitespace(&s, j + 1);
                        if m != BlockKind::DividingMark && k < s.len() {
                            let kind = if m == BlockKind::TitleMark {
                                BlockKind::Title
                            } else if m == BlockKind::DisorderMark {
                                BlockKind::DisorderListItem
                            } else {
                                BlockKind::Quote
                            };
                            let e = trim_newlines(&s, k, s.len());
                            push_block(&mut tokens, text, &s, k, e, kind, ln);
                        }
                        assert(block_views(tokens@) =~= expected);
                    },
                    None => {
                        let e = trim_newlines(&s, i, s.len());
                        push_block(&mut tokens, text, &s, i, e, BlockKind::Plain, ln);
                        assert(block_views(tokens@) =~= expected);
                    },
                }
            }
        }
        let kind = if tokens.len() == 0 {
            LineKind::Unknow
        } else if tokens[0].kind == BlockKind::BlankLine {
            LineKind::Blank
        } else if tokens[0].kind == BlockKind::TitleMark {
            LineKind::Title
        } else if tokens[0].kind == BlockKind::Plain {
            LineKind::Plain
        } else {
            LineKind::Unknow
        };
        let r = Line { tokens, kind };
        assert(r@.tokens =~= expected);
        r
    }
}

} // verus!
