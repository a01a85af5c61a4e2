//! Escaped characters stay text: the character after an escaping backslash
//! ends up inside a text token cut from the line around it.
use vstd::prelude::*;

use crate::inline::{flush, inline_tokens, is_escape_char, scan, scan_step, InlineState, Scan};
use crate::round_trip::{one_line, scan_ok};
use crate::text::{strip_br_at, trim_end_at};
use crate::tidy::{
    demote, find_open, is_delim, match_scan, match_step, normalize, retag_all, stack_ok, tidied,
};
use crate::token::{plain, TokenKind, TokenView};

verus! {

/// Token `k` of `ts` is the text `s[a..b]`, and `a <= p < b`.
pub open spec fn covers_at(ts: Seq<TokenView>, s: Seq<char>, p: int, k: int, a: int, b: int) -> bool {
    &&& 0 <= k < ts.len()
    &&& a <= p < b
    &&& ts[k] == plain(s.subrange(a, b), TokenKind::Text)
}

/// Some text token of `ts`, cut from `s`, holds position `p`.
pub open spec fn text_covers(ts: Seq<TokenView>, s: Seq<char>, p: int) -> bool {
    exists|k: int, a: int, b: int| #[trigger] covers_at(ts, s, p, k, a, b)
}

/// Every position the state holds on to lies after `p`.
pub open spec fn held_after(st: Scan, p: int) -> bool {
    match st.state {
        InlineState::Normal => true,
        InlineState::ImgBegin(b) => b > p,
        InlineState::ImgNameBegin(b1, _b2) => b1 > p,
        InlineState::LinkNameBegin(b) => b > p,
        InlineState::NameEnd(o, b2, _b3) => match o {
            Some(b1) => b1 > p,
            None => b2 > p,
        },
        InlineState::RefLink(b1, _b2, _b3) => b1 > p,
        InlineState::RefLinkDef(b1, _b2, _b3) => b1 > p,
        InlineState::Location(o, b2, _b3, _b4) => match o {
            Some(b1) => b1 > p,
            None => b2 > p,
        },
        InlineState::QuickLink(b) => b > p,
        _ => false,
    }
}

/// Text starting at `p` is still to be emitted, and nothing the state holds
/// on to starts at or before `p`.
pub open spec fn pending_at(st: Scan, p: int) -> bool {
    st.last == p && held_after(st, p)
}

proof fn lemma_flush_covers(ts: Seq<TokenView>, s: Seq<char>, p: int, b: int)
    requires
        0 <= p < b <= s.len(),
    ensures
        text_covers(flush(ts, s, p, b), s, p),
{
    let t2 = flush(ts, s, p, b);
    assert(covers_at(t2, s, p, ts.len() as int, p, b));
}

proof fn lemma_extend_covers(ts: Seq<TokenView>, t2: Seq<TokenView>, s: Seq<char>, p: int)
    requires
        text_covers(ts, s, p),
        ts.len() <= t2.len(),
        forall|k: int| 0 <= k < ts.len() ==> #[trigger] t2[k] == ts[k],
    ensures
        text_covers(t2, s, p),
{
    let (k, a, b) = choose|k: int, a: int, b: int| #[trigger] covers_at(ts, s, p, k, a, b);
    assert(covers_at(t2, s, p, k, a, b));
}

pub open spec fn extends(ts: Seq<TokenView>, t2: Seq<TokenView>) -> bool {
    &&& ts.len() <= t2.len()
    &&& forall|k: int| 0 <= k < ts.len() ==> #[trigger] t2[k] == ts[k]
}

proof fn lemma_flush_extends(ts: Seq<TokenView>, s: Seq<char>, a: int, b: int)
    ensures
        extends(ts, flush(ts, s, a, b)),
        forall|t: TokenView| extends(ts, #[trigger] flush(ts, s, a, b).push(t)),
{
    assert forall|t: TokenView| extends(ts, #[trigger] flush(ts, s, a, b).push(t)) by {
        assert forall|k: int| 0 <= k < ts.len() implies #[trigger] flush(ts, s, a, b).push(t)[k]
            == ts[k] by {
            assert(flush(ts, s, a, b)[k] == ts[k]);
        }
    }
}

/// A step only appends tokens.
#[verifier::rlimit(50)]
proof fn lemma_step_extends(s: Seq<char>, st: Scan, ix: int)
    requires
        0 <= ix < s.len(),
    ensures
        extends(st.toks, scan_step(s, st, ix).toks),
{
    lemma_flush_extends(st.toks, s, st.last, ix);
    lemma_flush_extends(
        st.toks,
        s,
        st.last,
        strip_br_at(s, st.last, trim_end_at(s, st.last, ix)),
    );
    match st.state {
        InlineState::RefLink(b1, _b2, _b3) => {
            lemma_flush_extends(st.toks, s, st.last, b1 as int);
        },
        InlineState::RefLinkDef(b1, _b2, _b3) => {
            lemma_flush_extends(st.toks, s, st.last, b1 as int);
        },
        InlineState::Location(o, b2, _b3, _b4) => {
            lemma_flush_extends(st.toks, s, st.last, b2 as int);
            if o is Some {
                lemma_flush_extends(st.toks, s, st.last, o->0 as int);
            }
        },
        InlineState::QuickLink(b) => {
            lemma_flush_extends(st.toks, s, st.last, b as int);
        },
        _ => {},
    }
    assert(extends(st.toks, st.toks));
    assert forall|t: TokenView| extends(st.toks, #[trigger] st.toks.push(t)) by {
        assert forall|k: int| 0 <= k < st.toks.len() implies #[trigger] st.toks.push(t)[k]
            == st.toks[k] by {}
    }
}

/// While text from `p` is pending, a step keeps it pending or emits it as a
/// text token; at the end of the line it is emitted, unless it is part of the
/// line's trailing `<br>` markers and whitespace.
#[verifier::rlimit(80)]
proof fn lemma_step_keeps_pending(s: Seq<char>, start: int, st: Scan, ix: int, p: int)
    requires
        one_line(s),
        0 <= start,
        p < ix < s.len(),
        scan_ok(s, start, st, ix),
        pending_at(st, p),
        p < strip_br_at(s, p, trim_end_at(s, p, s.len() - 1)),
    ensures
        pending_at(scan_step(s, st, ix), p) || text_covers(scan_step(s, st, ix).toks, s, p),
        s[ix] == '\n' ==> text_covers(scan_step(s, st, ix).toks, s, p),
{
    let c = s[ix];
    let n = s.len() - 1;
    if c == '\n' {
        assert(ix == n);
        let e = strip_br_at(s, p, trim_end_at(s, p, ix));
        crate::round_trip::lemma_line_end_tail(s, p, n);
        lemma_flush_covers(st.toks, s, p, e);
        return;
    }
    if c == '\\' {
        if ix + 1 < s.len() && is_escape_char(s[ix + 1]) {
            lemma_flush_covers(st.toks, s, p, ix);
        }
        return;
    }
    match st.state {
        InlineState::Normal => {
            if c == '*' || c == '_' || c == '`' {
                lemma_flush_covers(st.toks, s, p, ix);
                lemma_flush_extends(st.toks, s, p, ix);
                let t2 = scan_step(s, st, ix).toks;
                if !(ix + 1 < s.len() && s[ix + 1] == c) {
                    lemma_extend_covers(flush(st.toks, s, p, ix), t2, s, p);
                }
            }
        },
        InlineState::RefLink(b1, _b2, _b3) => {
            if c == ']' {
                lemma_flush_covers(st.toks, s, p, b1 as int);
                lemma_flush_extends(flush(st.toks, s, p, b1 as int), s, 0, 0);
                lemma_extend_covers(flush(st.toks, s, p, b1 as int), scan_step(s, st, ix).toks, s, p);
            }
        },
        InlineState::RefLinkDef(b1, _b2, _b3) => {
            lemma_flush_covers(st.toks, s, p, b1 as int);
            lemma_flush_extends(flush(st.toks, s, p, b1 as int), s, 0, 0);
            lemma_extend_covers(flush(st.toks, s, p, b1 as int), scan_step(s, st, ix).toks, s, p);
        },
        InlineState::Location(o, b2, _b3, _b4) => {
            if c == ')' {
                let begin: int = match o {
                    Some(b) => b as int,
                    None => b2 as int,
                };
                lemma_flush_covers(st.toks, s, p, begin);
                lemma_flush_extends(flush(st.toks, s, p, begin), s, 0, 0);
                lemma_extend_covers(flush(st.toks, s, p, begin), scan_step(s, st, ix).toks, s, p);
            }
        },
        InlineState::QuickLink(b) => {
            if !crate::text::is_ws(c) && c == '>' {
                let (la, le) = crate::inline::autolink_bounds(s, b as int, ix);
                if crate::links::autolink_ok(s.subrange(la, le)) {
                    lemma_flush_covers(st.toks, s, p, b as int);
                    lemma_flush_extends(flush(st.toks, s, p, b as int), s, 0, 0);
                    lemma_extend_covers(flush(st.toks, s, p, b as int), scan_step(s, st, ix).toks, s, p);
                }
            }
        },
        _ => {},
    }
}

proof fn lemma_scan_escape(s: Seq<char>, start: int, i: int, end: int)
    requires
        one_line(s),
        0 <= start <= i,
        i + 2 <= end <= s.len(),
        s[i] == '\\',
        is_escape_char(s[i + 1]),
        !(scan(s, start, i).state is Skip),
        !(scan(s, start, i).state is Finished),
        i + 1 < strip_br_at(s, i + 1, trim_end_at(s, i + 1, s.len() - 1)),
    ensures
        pending_at(scan(s, start, end), i + 1) || text_covers(scan(s, start, end).toks, s, i + 1),
        end == s.len() ==> text_covers(scan(s, start, end).toks, s, i + 1),
    decreases end - i,
{
    let p = i + 1;
    if end == i + 2 {
        crate::laws::lemma_escape(s, start, i);
        assert(end < s.len());
    } else {
        lemma_scan_escape(s, start, i, end - 1);
        let st = scan(s, start, end - 1);
        assert(scan(s, start, end) == scan_step(s, st, end - 1));
        crate::round_trip::lemma_scan_ok(s, start, end - 1);
        lemma_step_extends(s, st, end - 1);
        if text_covers(st.toks, s, p) {
            lemma_extend_covers(st.toks, scan(s, start, end).toks, s, p);
        } else {
            lemma_step_keeps_pending(s, start, st, end - 1, p);
        }
    }
}

proof fn lemma_normalize_keeps(ts: Seq<TokenView>, kind: TokenKind, pre: nat, k: int) -> (k2: int)
    requires
        0 <= k < ts.len(),
        ts[k].kind != kind,
    ensures
        0 <= k2 < normalize(ts, kind, pre).len(),
        normalize(ts, kind, pre)[k2] == ts[k],
    decreases ts.len(),
{
    let t = ts[0];
    let rest = ts.subrange(1, ts.len() as int);
    let n = t.value.len();
    let (head, pre2) = if t.kind != kind {
        (seq![t], pre)
    } else if n >= pre && pre > 0 {
        if n > pre {
            (
                seq![
                    plain(t.value.subrange(0, pre as int), kind),
                    plain(t.value.subrange(pre as int, n as int), kind),
                ],
                (n - pre) as nat,
            )
        } else {
            (seq![t], 0nat)
        }
    } else {
        (seq![t], n)
    };
    assert(normalize(ts, kind, pre) == head + normalize(rest, kind, pre2));
    if k == 0 {
        0
    } else {
        assert(rest[k - 1] == ts[k]);
        let k1 = lemma_normalize_keeps(rest, kind, pre2, k - 1);
        head.len() + k1
    }
}

proof fn lemma_find_open_range(ts: Seq<TokenView>, stack: Seq<int>, t: TokenView, p: int)
    requires
        0 <= p <= stack.len(),
    ensures
        -1 <= find_open(ts, stack, t, p) < p,
    decreases p,
{
    if p > 0 {
        lemma_find_open_range(ts, stack, t, p - 1);
    }
}

proof fn lemma_demote_keeps(kinds: Seq<TokenKind>, stack: Seq<int>, from: int, j: int)
    requires
        stack_ok(stack, kinds.len() as int),
        0 <= j < kinds.len(),
        forall|q: int| 0 <= q < stack.len() ==> #[trigger] stack[q] != j,
    ensures
        demote(kinds, stack, from).len() == kinds.len(),
        demote(kinds, stack, from)[j] == kinds[j],
    decreases stack.len() - from,
{
    if from < stack.len() && from >= 0 {
        lemma_demote_keeps(kinds.update(stack[from], TokenKind::Text), stack, from + 1, j);
    }
}

/// The matching scan never touches a token that is no delimiter run.
proof fn lemma_match_keeps(ts: Seq<TokenView>, i: int)
    requires
        0 <= i <= ts.len(),
    ensures
        match_scan(ts, i).0.len() == ts.len(),
        stack_ok(match_scan(ts, i).1, ts.len() as int),
        forall|q: int|
            0 <= q < match_scan(ts, i).1.len() ==> is_delim(ts[#[trigger] match_scan(ts, i).1[q]].kind),
        forall|j: int|
            0 <= j < ts.len() && !is_delim(ts[j].kind) ==> #[trigger] match_scan(ts, i).0[j]
                == ts[j].kind,
    decreases i,
{
    if i <= 0 {
        return;
    }
    lemma_match_keeps(ts, i - 1);
    let (kinds, stack) = match_scan(ts, i - 1);
    let t = ts[i - 1];
    assert(match_scan(ts, i) == match_step(ts, (kinds, stack), i - 1));
    if !is_delim(t.kind) {
        return;
    }
    let p = find_open(ts, stack, t, stack.len() as int);
    lemma_find_open_range(ts, stack, t, stack.len() as int);
    if p >= 0 {
        let pk = crate::tidy::pair_kind(t);
        let d = demote(kinds, stack, p + 1);
        assert forall|j: int| 0 <= j < ts.len() && !is_delim(ts[j].kind) implies #[trigger] match_scan(
            ts,
            i,
        ).0[j] == ts[j].kind by {
            assert forall|q: int| 0 <= q < stack.len() implies #[trigger] stack[q] != j by {
                assert(is_delim(ts[stack[q]].kind));
            }
            lemma_demote_keeps(kinds, stack, p + 1, j);
            assert(stack[p] != j);
        }
        crate::tidy::lemma_demote_len(kinds, stack, p + 1);
        assert forall|q: int| 0 <= q < match_scan(ts, i).1.len() implies is_delim(
            ts[#[trigger] match_scan(ts, i).1[q]].kind,
        ) by {
            assert(match_scan(ts, i).1[q] == stack[q]);
        }
    } else if t.value.len() < 4 {
        assert forall|q: int| 0 <= q < match_scan(ts, i).1.len() implies is_delim(
            ts[#[trigger] match_scan(ts, i).1[q]].kind,
        ) by {
            if q < stack.len() {
                assert(match_scan(ts, i).1[q] == stack[q]);
            }
        }
    }
}

/// A text token passes the tidy pass unchanged.
proof fn lemma_tidied_keeps_text(ts: Seq<TokenView>, k: int) -> (k2: int)
    requires
        0 <= k < ts.len(),
        ts[k].kind == TokenKind::Text,
    ensures
        0 <= k2 < tidied(ts).len(),
        tidied(ts)[k2] == ts[k],
{
    let a = normalize(ts, TokenKind::Star, 0);
    let ka = lemma_normalize_keeps(ts, TokenKind::Star, 0, k);
    let b = normalize(a, TokenKind::UnderLine, 0);
    let kb = lemma_normalize_keeps(a, TokenKind::UnderLine, 0, ka);
    lemma_match_keeps(b, b.len() as int);
    let (kinds, stack) = match_scan(b, b.len() as int);
    assert forall|q: int| 0 <= q < stack.len() implies #[trigger] stack[q] != kb by {
        assert(is_delim(b[stack[q]].kind));
    }
    lemma_demote_keeps(kinds, stack, 0, kb);
    assert(tidied(ts) == retag_all(b, demote(kinds, stack, 0)));
    kb
}

/// An escaped character is text: where the automaton, outside an escape and
/// before the end of its work, reads `\` followed by an escapable character,
/// one of the inline tokens is a text token cut from the line around that
/// character, unless the character belongs to the `<br>` markers and
/// whitespace that end the line.
pub proof fn lemma_escaped_char_is_text(s: Seq<char>, start: int, i: int)
    requires
        one_line(s),
        0 <= start <= i,
        i + 1 < s.len(),
        s[i] == '\\',
        is_escape_char(s[i + 1]),
        !(scan(s, start, i).state is Skip),
        !(scan(s, start, i).state is Finished),
        i + 1 < strip_br_at(s, i + 1, trim_end_at(s, i + 1, s.len() - 1)),
    ensures
        text_covers(inline_tokens(s, start), s, i + 1),
{
    let p = i + 1;
    assert(s[p] != '\n');
    assert(p < s.len() - 1);
    lemma_scan_escape(s, start, i, s.len() as int);
    let raw0 = scan(s, start, s.len() as int).toks;
    let raw = if crate::inline::has_line_break(s, start) {
        raw0.push(crate::inline::line_break())
    } else {
        raw0
    };
    assert(extends(raw0, raw));
    lemma_extend_covers(raw0, raw, s, p);
    let (k, a, b) = choose|k: int, a: int, b: int| #[trigger] covers_at(raw, s, p, k, a, b);
    let k2 = lemma_tidied_keeps_text(raw, k);
    assert(covers_at(inline_tokens(s, start), s, p, k2, a, b));
}

} // verus!
