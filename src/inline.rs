//! The inline automaton: one pass over the rest of a line, character by
//! character, producing raw tokens (text, delimiter runs, the link family),
//! followed by the tidy pass.
use vstd::prelude::*;
use vstd::string::*;

use crate::links::{
    agrees, autolink_ok, autolink_target, link_token, piece, split_generic_link_details,
};
use crate::text::{
    br_marker, is_whitespace, is_ws, strip_br, strip_br_at, trim_end, trim_end_at, trim_start,
    trim_start_at,
};
use crate::tidy::{tidied, tidy};
use crate::token::{lemma_views_push, plain, views, Token, TokenKind, TokenView};

verus! {

/// The phase of the automaton; positions are indices into the line.
#[derive(Clone, Copy, Debug)]
pub enum InlineState {
    /// The character after an escaping `\` is taken as it is.
    Skip,
    /// The rest of the line is ignored.
    Finished,
    Normal,
    /// Inside a run of one delimiter character that started at the position.
    Continuous(usize),
    /// After `!`.
    ImgBegin(usize),
    /// After `![`: the positions of `!` and `[`.
    ImgNameBegin(usize, usize),
    /// After `[`.
    LinkNameBegin(usize),
    /// After `]`: the positions of `!` (for an image), `[` and `]`.
    NameEnd(Option<usize>, usize, usize),
    /// After `][`: the positions of `[`, `]` and `[`.
    RefLink(usize, usize, usize),
    /// After `]:`: the positions of `[`, `]` and `:`.
    RefLinkDef(usize, usize, usize),
    /// After `](`: the positions of `!` (for an image), `[`, `]` and `(`.
    Location(Option<usize>, usize, usize, usize),
    /// After `<`.
    QuickLink(usize),
}

/// The automaton's state after some characters: its phase, where the text
/// not yet emitted starts, and the tokens so far.
pub struct Scan {
    pub state: InlineState,
    pub last: int,
    pub toks: Seq<TokenView>,
}

/// The characters that a backslash escapes.
pub open spec fn is_escape_char(c: char) -> bool {
    c == ':' || c == '*' || c == '_' || c == '`' || c == '#' || c == '+' || c == '-' || c == '.'
        || c == '!' || c == '[' || c == ']' || c == '(' || c == ')' || c == '<' || c == '>' || c
        == '\\'
}

pub open spec fn is_delim_char(c: char) -> bool {
    c == '*' || c == '_' || c == '`'
}

pub open spec fn delim_kind(c: char) -> TokenKind {
    if c == '*' {
        TokenKind::Star
    } else if c == '_' {
        TokenKind::UnderLine
    } else {
        TokenKind::BackTick
    }
}

/// `toks` with the text `s[a..b]` appended, if it is not empty.
pub open spec fn flush(toks: Seq<TokenView>, s: Seq<char>, a: int, b: int) -> Seq<TokenView> {
    if a < b {
        toks.push(plain(s.subrange(a, b), TokenKind::Text))
    } else {
        toks
    }
}

pub open spec fn next_is(s: Seq<char>, ix: int, c: char) -> bool {
    ix + 1 < s.len() && s[ix + 1] == c
}

pub open spec fn goto(st: Scan, state: InlineState) -> Scan {
    Scan { state, ..st }
}

/// The trimmed content between `<` at `b` and position `ix`.
pub open spec fn autolink_bounds(s: Seq<char>, b: int, ix: int) -> (int, int) {
    let e = trim_end_at(s, b + 1, ix);
    (trim_start_at(s, b + 1, e), e)
}

/// A transition after `<` at `b`, given `ok`: whether the content since the
/// `<`, trimmed, is a URL or an e-mail address. Whitespace after content
/// that is neither ends the autolink; so does `>`, which closes it when the
/// content is one.
pub open spec fn quick_link_step(s: Seq<char>, st: Scan, b: usize, ix: int, ok: bool) -> Scan {
    let c = s[ix];
    let (la, le) = autolink_bounds(s, b as int, ix);
    if is_ws(c) {
        if la < le && !ok {
            goto(st, InlineState::Normal)
        } else {
            st
        }
    } else if c == '>' {
        if ok {
            let t = link_token(s, b as int, ix + 1, la, le, la, le, TokenKind::QuickLink);
            Scan {
                state: InlineState::Normal,
                last: ix + 1,
                toks: flush(st.toks, s, st.last, b as int).push(t),
            }
        } else {
            goto(st, InlineState::Normal)
        }
    } else {
        st
    }
}

/// A transition on a character that is neither a newline nor an escape.
pub open spec fn phase_step(s: Seq<char>, st: Scan, ix: int) -> Scan {
    let c = s[ix];
    let at = ix as usize;
    match st.state {
        InlineState::Normal => {
            if is_delim_char(c) {
                let toks = flush(st.toks, s, st.last, ix);
                if next_is(s, ix, c) {
                    Scan { state: InlineState::Continuous(at), last: ix, toks }
                } else {
                    Scan {
                        state: InlineState::Normal,
                        last: ix + 1,
                        toks: toks.push(plain(s.subrange(ix, ix + 1), delim_kind(c))),
                    }
                }
            } else if c == '!' {
                goto(st, InlineState::ImgBegin(at))
            } else if c == '[' {
                goto(st, InlineState::LinkNameBegin(at))
            } else if c == '<' {
                goto(st, InlineState::QuickLink(at))
            } else {
                st
            }
        },
        InlineState::ImgBegin(b) => {
            if c == '[' {
                goto(st, InlineState::ImgNameBegin(b, at))
            } else if c == '!' {
                goto(st, InlineState::ImgBegin(at))
            } else {
                goto(st, InlineState::Normal)
            }
        },
        InlineState::ImgNameBegin(b1, b2) => {
            if c == ']' {
                goto(st, InlineState::NameEnd(Some(b1), b2, at))
            } else {
                st
            }
        },
        InlineState::LinkNameBegin(b) => {
            if c == ']' {
                goto(st, InlineState::NameEnd(None, b, at))
            } else if c == '[' {
                goto(st, InlineState::LinkNameBegin(at))
            } else {
                st
            }
        },
        InlineState::NameEnd(b1, b2, b3) => {
            if c == '(' {
                goto(st, InlineState::Location(b1, b2, b3, at))
            } else if c == ']' {
                goto(st, InlineState::NameEnd(b1, b2, at))
            } else if c == '[' {
                goto(st, InlineState::RefLink(b2, b3, at))
            } else if c == ':' {
                goto(st, InlineState::RefLinkDef(b2, b3, at))
            } else {
                goto(st, InlineState::Normal)
            }
        },
        InlineState::RefLink(b1, b2, b3) => {
            if c == ']' {
                let t = link_token(s, b1 as int, ix + 1, b1 + 1, b2 as int, b3 + 1, ix, TokenKind::RefLink);
                Scan { state: InlineState::Normal, last: ix + 1, toks: flush(st.toks, s, st.last, b1 as int).push(t) }
            } else {
                st
            }
        },
        InlineState::RefLinkDef(b1, b2, _b3) => {
            let end = s.len() - 1;
            let t = link_token(s, b1 as int, end, b1 + 1, b2 as int, ix, end, TokenKind::RefLinkDef);
            Scan {
                state: InlineState::Finished,
                last: st.last,
                toks: flush(st.toks, s, st.last, b1 as int).push(t),
            }
        },
        InlineState::Location(b1, b2, b3, b4) => {
            if c == ')' {
                let begin: int = match b1 { Some(b) => b as int, None => b2 as int };
                let kind = if b1 is Some { TokenKind::Image } else { TokenKind::Link };
                let t = link_token(s, begin, ix + 1, b2 + 1, b3 as int, b4 + 1, ix, kind);
                Scan { state: InlineState::Normal, last: ix + 1, toks: flush(st.toks, s, st.last, begin).push(t) }
            } else {
                st
            }
        },
        InlineState::QuickLink(b) => {
            let (la, le) = autolink_bounds(s, b as int, ix);
            quick_link_step(s, st, b, ix, autolink_ok(s.subrange(la, le)))
        },
        InlineState::Continuous(b) => {
            if !next_is(s, ix, c) {
                Scan {
                    state: InlineState::Normal,
                    last: ix + 1,
                    toks: st.toks.push(plain(s.subrange(b as int, ix + 1), delim_kind(c))),
                }
            } else {
                st
            }
        },
        _ => st,
    }
}

/// One character of the automaton. A newline ends the line: the pending
/// text, without trailing whitespace and `<br>` markers, is emitted.
pub open spec fn scan_step(s: Seq<char>, st: Scan, ix: int) -> Scan {
    let c = s[ix];
    if st.state is Finished {
        st
    } else if c == '\n' {
        let e = strip_br_at(s, st.last, trim_end_at(s, st.last, ix));
        Scan { state: InlineState::Finished, last: st.last, toks: flush(st.toks, s, st.last, e) }
    } else if st.state is Skip {
        goto(st, InlineState::Normal)
    } else if c == '\\' {
        if ix + 1 < s.len() && is_escape_char(s[ix + 1]) {
            Scan { state: InlineState::Skip, last: ix + 1, toks: flush(st.toks, s, st.last, ix) }
        } else {
            st
        }
    } else {
        phase_step(s, st, ix)
    }
}

/// The automaton run over `s[start..end]`.
pub open spec fn scan(s: Seq<char>, start: int, end: int) -> Scan
    decreases end - start,
{
    if end <= start {
        Scan { state: InlineState::Normal, last: start, toks: Seq::empty() }
    } else {
        scan_step(s, scan(s, start, end - 1), end - 1)
    }
}

/// The content from `start` ends in two spaces and the newline, or, without
/// its trailing whitespace, in `<br>`.
pub open spec fn has_line_break(s: Seq<char>, start: int) -> bool {
    let e = trim_end_at(s, start, s.len() as int);
    ||| (s.len() - start >= 3 && s.subrange(s.len() - 3, s.len() as int) == seq![' ', ' ', '\n'])
    ||| (e - start >= 4 && s.subrange(e - 4, e) == br_marker())
}

pub open spec fn line_break() -> TokenView {
    plain(br_marker(), TokenKind::LineBreak)
}

/// The tokens of `s[start..]`: the automaton's, a line break if the content
/// has one, and the tidy pass over them.
pub open spec fn inline_tokens(s: Seq<char>, start: int) -> Seq<TokenView> {
    let raw = scan(s, start, s.len() as int).toks;
    tidied(
        if has_line_break(s, start) {
            raw.push(line_break())
        } else {
            raw
        },
    )
}

/// A line held as chars: the text before its first newline, then one newline;
/// `line` agrees with it up to that newline.
pub open spec fn framed(line: Seq<char>, s: Seq<char>) -> bool {
    &&& s.len() >= 1
    &&& s[s.len() - 1] == '\n'
    &&& agrees(line, s, s.len() - 1)
}

/// Positions held by a state lie before `ix`, in the order they were seen.
pub open spec fn scan_wf(st: Scan, ix: int) -> bool {
    &&& 0 <= st.last <= ix
    &&& match st.state {
        InlineState::Continuous(b) => b < ix,
        InlineState::ImgBegin(b) => b < ix,
        InlineState::ImgNameBegin(b1, b2) => b1 < b2 < ix,
        InlineState::LinkNameBegin(b) => b < ix,
        InlineState::NameEnd(o, b2, b3) => (o is Some ==> o->0 < b2) && b2 < b3 < ix,
        InlineState::RefLink(b1, b2, b3) => b1 < b2 < b3 < ix,
        InlineState::RefLinkDef(b1, b2, b3) => b1 < b2 < b3 < ix,
        InlineState::Location(o, b2, b3, b4) => (o is Some ==> o->0 < b2) && b2 < b3 < b4 < ix,
        InlineState::QuickLink(b) => b < ix,
        _ => true,
    }
}

fn push_text(line: &str, s: &Vec<char>, n: usize, buff: &mut Vec<Token>, a: usize, b: usize)
    requires
        agrees(line@, s@, n as int),
        b <= n,
    ensures
        views(final(buff)@) == flush(views(old(buff)@), s@, a as int, b as int),
{
    if a < b {
        let t = Token::new(piece(line, s, n, a, b), TokenKind::Text);
        proof {
            lemma_views_push(buff@, t);
        }
        buff.push(t);
    }
}

fn push_token(buff: &mut Vec<Token>, t: Token)
    ensures
        views(final(buff)@) == views(old(buff)@).push(t@),
{
    proof {
        lemma_views_push(buff@, t);
    }
    buff.push(t);
}

fn is_escape(c: char) -> (r: bool)
    ensures
        r == is_escape_char(c),
{
    c == ':' || c == '*' || c == '_' || c == '`' || c == '#' || c == '+' || c == '-' || c == '.'
        || c == '!' || c == '[' || c == ']' || c == '(' || c == ')' || c == '<' || c == '>' || c
        == '\\'
}

fn kind_of_delim(c: char) -> (r: TokenKind)
    ensures
        r == delim_kind(c),
{
    if c == '*' {
        TokenKind::Star
    } else if c == '_' {
        TokenKind::UnderLine
    } else {
        TokenKind::BackTick
    }
}

/// The bracket part of a link, an image or an autolink closes at `ix`.
fn close_link(
    line: &str,
    s: &Vec<char>,
    n: usize,
    last: usize,
    buff: &mut Vec<Token>,
    begin: usize,
    t: Token,
)
    requires
        agrees(line@, s@, n as int),
        begin <= n,
    ensures
        views(final(buff)@) == flush(views(old(buff)@), s@, last as int, begin as int).push(t@),
{
    push_text(line, s, n, buff, last, begin);
    push_token(buff, t);
}

/// A transition after `<` at `b`, with the verdict `ok` on the content since
/// it (see `quick_link_step`).
pub fn quick_link_advance(
    line: &str,
    s: &Vec<char>,
    n: usize,
    b: usize,
    last: usize,
    buff: &mut Vec<Token>,
    ix: usize,
    ok: bool,
) -> (r: (InlineState, usize))
    requires
        framed(line@, s@),
        n == s.len() - 1,
        last <= ix < n,
        b < ix,
    ensures
        (Scan { state: r.0, last: r.1 as int, toks: views(final(buff)@) }) == quick_link_step(
            s@,
            Scan { state: InlineState::QuickLink(b), last: last as int, toks: views(old(buff)@) },
            b,
            ix as int,
            ok,
        ),
        r.1 <= ix + 1,
        r.0 is Normal || r.0 == InlineState::QuickLink(b),
{
    let c = s[ix];
    let le = trim_end(s, b + 1, ix);
    let la = trim_start(s, b + 1, le);
    if is_whitespace(c) {
        if la < le && !ok {
            (InlineState::Normal, last)
        } else {
            (InlineState::QuickLink(b), last)
        }
    } else if c == '>' {
        if ok {
            let t = split_generic_link_details(
                line,
                s,
                n,
                b,
                ix + 1,
                la,
                le,
                la,
                le,
                TokenKind::QuickLink,
            );
            close_link(line, s, n, last, buff, b, t);
            (InlineState::Normal, ix + 1)
        } else {
            (InlineState::Normal, last)
        }
    } else {
        (InlineState::QuickLink(b), last)
    }
}

/// A transition on a character that is neither a newline nor an escape (see
/// `phase_step`).
#[verifier::rlimit(40)]
fn phase_advance(
    line: &str,
    s: &Vec<char>,
    n: usize,
    state: InlineState,
    last: usize,
    buff: &mut Vec<Token>,
    ix: usize,
) -> (r: (InlineState, usize))
    requires
        framed(line@, s@),
        n == s.len() - 1,
        ix < n,
        scan_wf(Scan { state, last: last as int, toks: views(old(buff)@) }, ix as int),
    ensures
        (Scan { state: r.0, last: r.1 as int, toks: views(final(buff)@) }) == phase_step(
            s@,
            Scan { state, last: last as int, toks: views(old(buff)@) },
            ix as int,
        ),
        scan_wf(Scan { state: r.0, last: r.1 as int, toks: views(final(buff)@) }, ix + 1),
{
    let c = s[ix];
    match state {
        InlineState::Normal => {
            if c == '*' || c == '_' || c == '`' {
                push_text(line, s, n, buff, last, ix);
                if ix + 1 < s.len() && s[ix + 1] == c {
                    (InlineState::Continuous(ix), ix)
                } else {
                    push_token(buff, Token::new(piece(line, s, n, ix, ix + 1), kind_of_delim(c)));
                    (InlineState::Normal, ix + 1)
                }
            } else if c == '!' {
                (InlineState::ImgBegin(ix), last)
            } else if c == '[' {
                (InlineState::LinkNameBegin(ix), last)
            } else if c == '<' {
                (InlineState::QuickLink(ix), last)
            } else {
                (state, last)
            }
        },
        InlineState::ImgBegin(b) => {
            if c == '[' {
                (InlineState::ImgNameBegin(b, ix), last)
            } else if c == '!' {
                (InlineState::ImgBegin(ix), last)
            } else {
                (InlineState::Normal, last)
            }
        },
        InlineState::ImgNameBegin(b1, b2) => {
            if c == ']' {
                (InlineState::NameEnd(Some(b1), b2, ix), last)
            } else {
                (state, last)
            }
        },
        InlineState::LinkNameBegin(b) => {
            if c == ']' {
                (InlineState::NameEnd(None, b, ix), last)
            } else if c == '[' {
                (InlineState::LinkNameBegin(ix), last)
            } else {
                (state, last)
            }
        },
        InlineState::NameEnd(b1, b2, b3) => {
            if c == '(' {
                (InlineState::Location(b1, b2, b3, ix), last)
            } else if c == ']' {
                (InlineState::NameEnd(b1, b2, ix), last)
            } else if c == '[' {
                (InlineState::RefLink(b2, b3, ix), last)
            } else if c == ':' {
                (InlineState::RefLinkDef(b2, b3, ix), last)
            } else {
                (InlineState::Normal, last)
            }
        },
        InlineState::RefLink(b1, b2, b3) => {
            if c == ']' {
                let t = split_generic_link_details(
                    line,
                    s,
                    n,
                    b1,
                    ix + 1,
                    b1 + 1,
                    b2,
                    b3 + 1,
                    ix,
                    TokenKind::RefLink,
                );
                close_link(line, s, n, last, buff, b1, t);
                (InlineState::Normal, ix + 1)
            } else {
                (state, last)
            }
        },
        InlineState::RefLinkDef(b1, b2, _b3) => {
            let t = split_generic_link_details(
                line,
                s,
                n,
                b1,
                n,
                b1 + 1,
                b2,
                ix,
                n,
                TokenKind::RefLinkDef,
            );
            close_link(line, s, n, last, buff, b1, t);
            (InlineState::Finished, last)
        },
        InlineState::Location(b1, b2, b3, b4) => {
            if c == ')' {
                let begin = match b1 {
                    Some(b) => b,
                    None => b2,
                };
                let kind = if b1.is_some() {
                    TokenKind::Image
                } else {
                    TokenKind::Link
                };
                let t = split_generic_link_details(
                    line,
                    s,
                    n,
                    begin,
                    ix + 1,
                    b2 + 1,
                    b3,
                    b4 + 1,
                    ix,
                    kind,
                );
                close_link(line, s, n, last, buff, begin, t);
                (InlineState::Normal, ix + 1)
            } else {
                (state, last)
            }
        },
        InlineState::QuickLink(b) => {
            let le = trim_end(s, b + 1, ix);
            let la = trim_start(s, b + 1, le);
            let asks = (la < le && is_whitespace(c)) || c == '>';
            let ok = asks && autolink_target(line, la, le);
            assert(line@.subrange(la as int, le as int) =~= s@.subrange(la as int, le as int));
            quick_link_advance(line, s, n, b, last, buff, ix, ok)
        },
        InlineState::Continuous(b) => {
            if !(ix + 1 < s.len() && s[ix + 1] == c) {
                push_token(buff, Token::new(piece(line, s, n, b, ix + 1), kind_of_delim(c)));
                (InlineState::Normal, ix + 1)
            } else {
                (state, last)
            }
        },
        _ => (state, last),
    }
}

/// One character of the automaton (see `scan_step`).
fn advance(
    line: &str,
    s: &Vec<char>,
    n: usize,
    state: InlineState,
    last: usize,
    buff: &mut Vec<Token>,
    ix: usize,
) -> (r: (InlineState, usize))
    requires
        framed(line@, s@),
        n == s.len() - 1,
        ix <= n,
        scan_wf(Scan { state, last: last as int, toks: views(old(buff)@) }, ix as int),
    ensures
        (Scan { state: r.0, last: r.1 as int, toks: views(final(buff)@) }) == scan_step(
            s@,
            Scan { state, last: last as int, toks: views(old(buff)@) },
            ix as int,
        ),
        scan_wf(Scan { state: r.0, last: r.1 as int, toks: views(final(buff)@) }, ix + 1),
{
    let c = s[ix];
    if let InlineState::Finished = state {
        (state, last)
    } else if c == '\n' {
        let e = strip_br(s, last, trim_end(s, last, ix));
        push_text(line, s, n, buff, last, e);
        (InlineState::Finished, last)
    } else if let InlineState::Skip = state {
        (InlineState::Normal, last)
    } else if c == '\\' {
        if ix + 1 < s.len() && is_escape(s[ix + 1]) {
            push_text(line, s, n, buff, last, ix);
            (InlineState::Skip, ix + 1)
        } else {
            (state, last)
        }
    } else {
        phase_advance(line, s, n, state, last, buff, ix)
    }
}

fn has_br(s: &Vec<char>, start: usize) -> (r: bool)
    requires
        start <= s.len(),
    ensures
        r == has_line_break(s@, start as int),
{
    let len = s.len();
    let two_spaces = len - start >= 3 && s[len - 3] == ' ' && s[len - 2] == ' ' && s[len - 1]
        == '\n';
    proof {
        if len - start >= 3 {
            let tail = s@.subrange(len - 3, len as int);
            assert(tail[0] == s@[len - 3] && tail[1] == s@[len - 2] && tail[2] == s@[len - 1]);
            if two_spaces {
                assert(tail =~= seq![' ', ' ', '\n']);
            }
        }
    }
    let e = trim_end(s, start, len);
    let br = e - start >= 4 && s[e - 4] == '<' && s[e - 3] == 'b' && s[e - 2] == 'r' && s[e - 1]
        == '>';
    proof {
        if e - start >= 4 {
            let tail = s@.subrange(e - 4, e as int);
            assert(tail[0] == s@[e - 4] && tail[1] == s@[e - 3] && tail[2] == s@[e - 2] && tail[3]
                == s@[e - 1]);
            if br {
                assert(tail =~= br_marker());
            }
        }
    }
    two_spaces || br
}

/// The tokens of the line from `start` on (see `inline_tokens`).
pub fn split_inline(line: &str, s: &Vec<char>, start: usize) -> (r: Vec<Token>)
    requires
        framed(line@, s@),
        start <= s.len(),
    ensures
        views(r@) == inline_tokens(s@, start as int),
{
    let n = s.len() - 1;
    let mut buff: Vec<Token> = Vec::new();
    let mut state = InlineState::Normal;
    let mut last = start;
    let mut ix = start;
    assert(views(buff@) =~= Seq::<TokenView>::empty());
    while ix < s.len()
        invariant
            framed(line@, s@),
            n == s.len() - 1,
            start <= ix <= s.len(),
            (Scan { state, last: last as int, toks: views(buff@) }) == scan(s@, start as int, ix as int),
            scan_wf(Scan { state, last: last as int, toks: views(buff@) }, ix as int),
        decreases s.len() - ix,
    {
        let r = advance(line, s, n, state, last, &mut buff, ix);
        state = r.0;
        last = r.1;
        ix = ix + 1;
    }
    if has_br(s, start) {
        proof {
            reveal_strlit("<br>");
            assert("<br>"@ =~= br_marker());
        }
        push_token(&mut buff, Token::new(String::from_str("<br>"), TokenKind::LineBreak));
    }
    tidy(&mut buff);
    buff
}

} // verus!
