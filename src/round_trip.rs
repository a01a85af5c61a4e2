//! The text of the tokens is the text of the line: the round-trip property
//! of the inline automaton and of the tidy pass.
use vstd::prelude::*;

use crate::inline::{
    flush, has_line_break, inline_tokens, line_break, phase_step, scan, scan_step, scan_wf,
    InlineState, Scan,
};
use crate::links::link_token;
use crate::text::{br_marker, is_ws, strip_br_at, trim_end_at};
use crate::tidy::{normalize, retag_all, tidied};
use crate::token::{plain, TokenKind, TokenView};

verus! {

/// The texts of the tokens, one after another.
pub open spec fn concat(ts: Seq<TokenView>) -> Seq<char>
    decreases ts.len(),
{
    if ts.len() == 0 {
        Seq::empty()
    } else {
        ts[0].value + concat(ts.subrange(1, ts.len() as int))
    }
}

/// `out` is `orig` with some of its backslashes taken out.
pub open spec fn drops_backslashes(orig: Seq<char>, out: Seq<char>) -> bool
    decreases orig.len(),
{
    if orig.len() == 0 {
        out.len() == 0
    } else {
        ||| (out.len() > 0 && out.last() == orig.last() && drops_backslashes(
            orig.drop_last(),
            out.drop_last(),
        ))
        ||| (orig.last() == '\\' && drops_backslashes(orig.drop_last(), out))
    }
}

/// `s[e..m]` is `<br>` repeated, possibly no times.
pub open spec fn br_run(s: Seq<char>, e: int, m: int) -> bool
    decreases m - e,
{
    if m <= e {
        m == e
    } else {
        m - e >= 4 && s.subrange(m - 4, m) == br_marker() && br_run(s, e, m - 4)
    }
}

/// `s[e..n]` is some `<br>` markers followed by whitespace: what the end of a
/// line loses when its pending text is emitted.
pub open spec fn trailing_marks(s: Seq<char>, e: int, n: int) -> bool {
    br_run(s, e, trim_end_at(s, e, n))
}

pub proof fn lemma_concat_push(ts: Seq<TokenView>, t: TokenView)
    ensures
        concat(ts.push(t)) == concat(ts) + t.value,
    decreases ts.len(),
{
    if ts.len() == 0 {
        let one = ts.push(t);
        assert(one.subrange(1, 1) =~= Seq::<TokenView>::empty());
        assert(concat(one.subrange(1, 1)) == Seq::<char>::empty());
        assert(concat(one) == one[0].value + concat(one.subrange(1, 1)));
        assert(concat(ts) == Seq::<char>::empty());
        assert(concat(one) =~= concat(ts) + t.value);
    } else {
        let rest = ts.subrange(1, ts.len() as int);
        lemma_concat_push(rest, t);
        assert(ts.push(t).subrange(1, ts.len() + 1 as int) =~= rest.push(t));
        assert(concat(ts.push(t)) =~= concat(ts) + t.value);
    }
}

proof fn lemma_concat_flush(ts: Seq<TokenView>, s: Seq<char>, a: int, b: int)
    requires
        0 <= a <= b <= s.len(),
    ensures
        concat(flush(ts, s, a, b)) == concat(ts) + s.subrange(a, b),
{
    if a < b {
        lemma_concat_push(ts, plain(s.subrange(a, b), TokenKind::Text));
    } else {
        assert(concat(ts) + s.subrange(a, b) =~= concat(ts));
    }
}

proof fn lemma_drops_push(o: Seq<char>, u: Seq<char>, c: char)
    requires
        drops_backslashes(o, u),
    ensures
        drops_backslashes(o.push(c), u.push(c)),
{
    assert(o.push(c).drop_last() =~= o);
    assert(u.push(c).drop_last() =~= u);
}

proof fn lemma_drops_backslash(o: Seq<char>, u: Seq<char>)
    requires
        drops_backslashes(o, u),
    ensures
        drops_backslashes(o.push('\\'), u),
{
    assert(o.push('\\').drop_last() =~= o);
}

proof fn lemma_drops_extend(o: Seq<char>, u: Seq<char>, t: Seq<char>)
    requires
        drops_backslashes(o, u),
    ensures
        drops_backslashes(o + t, u + t),
    decreases t.len(),
{
    if t.len() == 0 {
        assert(o + t =~= o);
        assert(u + t =~= u);
    } else {
        let t0 = t.drop_last();
        lemma_drops_extend(o, u, t0);
        lemma_drops_push(o + t0, u + t0, t.last());
        assert((o + t0).push(t.last()) =~= o + t);
        assert((u + t0).push(t.last()) =~= u + t);
    }
}

/// The last pending text starts no later than any bracket or run the state
/// holds on to.
pub open spec fn pending_before(st: Scan) -> bool {
    match st.state {
        InlineState::Continuous(b) => st.last == b,
        InlineState::ImgBegin(b) => st.last <= b,
        InlineState::ImgNameBegin(b1, _b2) => st.last <= b1,
        InlineState::LinkNameBegin(b) => st.last <= b,
        InlineState::NameEnd(o, b2, _b3) => st.last <= match o {
            Some(b1) => b1 as int,
            None => b2 as int,
        },
        InlineState::RefLink(b1, _b2, _b3) => st.last <= b1,
        InlineState::RefLinkDef(b1, _b2, _b3) => st.last <= b1,
        InlineState::Location(o, b2, _b3, _b4) => st.last <= match o {
            Some(b1) => b1 as int,
            None => b2 as int,
        },
        InlineState::QuickLink(b) => st.last <= b,
        _ => true,
    }
}

/// A line as the automaton reads it: one newline, at its end.
pub open spec fn one_line(s: Seq<char>) -> bool {
    &&& 1 <= s.len() <= usize::MAX
    &&& s[s.len() - 1] == '\n'
    &&& forall|k: int| 0 <= k < s.len() - 1 ==> #[trigger] s[k] != '\n'
}

/// What the round trip needs of the automaton after `ix` characters.
pub open spec fn scan_ok(s: Seq<char>, start: int, st: Scan, ix: int) -> bool {
    let n = s.len() - 1;
    &&& start <= st.last
    &&& scan_wf(st, ix)
    &&& pending_before(st)
    &&& !(st.state is Finished) ==> ix <= n && drops_backslashes(
        s.subrange(start, ix),
        concat(st.toks) + s.subrange(st.last, ix),
    )
    &&& st.state is Finished ==> exists|e: int|
        start <= e <= n && trailing_marks(s, e, n) && drops_backslashes(
            s.subrange(start, n),
            concat(st.toks) + s.subrange(e, n),
        )
}

proof fn lemma_trim_end_from(s: Seq<char>, a: int, a2: int, b: int)
    requires
        0 <= a <= a2 <= trim_end_at(s, a, b),
        b <= s.len(),
    ensures
        a <= trim_end_at(s, a, b) <= b,
        trim_end_at(s, a2, b) == trim_end_at(s, a, b),
    decreases b - a,
{
    if a < b && is_ws(s[b - 1]) {
        lemma_trim_end_from(s, a, a2, b - 1);
    }
}

proof fn lemma_trim_end_bound(s: Seq<char>, a: int, b: int)
    requires
        0 <= a <= b <= s.len(),
    ensures
        a <= trim_end_at(s, a, b) <= b,
    decreases b - a,
{
    if a < b && is_ws(s[b - 1]) {
        lemma_trim_end_bound(s, a, b - 1);
    }
}

proof fn lemma_strip_br_run(s: Seq<char>, a: int, b: int)
    requires
        0 <= a <= b <= s.len(),
    ensures
        a <= strip_br_at(s, a, b) <= b,
        br_run(s, strip_br_at(s, a, b), b),
    decreases b - a,
{
    if b - a >= 4 && s.subrange(b - 4, b) == br_marker() {
        lemma_strip_br_run(s, a, b - 4);
        lemma_br_run_extend(s, strip_br_at(s, a, b - 4), b - 4);
    } else {
    }
}

proof fn lemma_br_run_extend(s: Seq<char>, e: int, m: int)
    requires
        e <= m,
        m + 4 <= s.len(),
        br_run(s, e, m),
        s.subrange(m, m + 4) == br_marker(),
    ensures
        br_run(s, e, m + 4),
{
}

/// The tail a line loses at its end (see `scan_step`) is `trailing_marks`.
pub proof fn lemma_line_end_tail(s: Seq<char>, a: int, n: int)
    requires
        0 <= a <= n <= s.len(),
    ensures
        a <= strip_br_at(s, a, trim_end_at(s, a, n)) <= n,
        trailing_marks(s, strip_br_at(s, a, trim_end_at(s, a, n)), n),
{
    lemma_trim_end_bound(s, a, n);
    let t = trim_end_at(s, a, n);
    lemma_strip_br_run(s, a, t);
    let e = strip_br_at(s, a, t);
    lemma_trim_end_from(s, a, e, n);
}

proof fn lemma_tail_transfer(s: Seq<char>, b: Seq<char>, e: int, m: int)
    requires
        0 <= e <= m <= s.len(),
        m <= b.len(),
        forall|k: int| 0 <= k < m ==> #[trigger] s[k] == b[k],
    ensures
        trim_end_at(s, e, m) == trim_end_at(b, e, m),
        br_run(s, e, m) == br_run(b, e, m),
    decreases m - e,
{
    if e < m {
        lemma_tail_transfer(s, b, e, m - 1);
        if m - e >= 4 {
            lemma_tail_transfer(s, b, e, m - 4);
            assert(s.subrange(m - 4, m) =~= b.subrange(m - 4, m));
        }
    }
}


#[verifier::rlimit(50)]
proof fn lemma_phase_shape(s: Seq<char>, st: Scan, ix: int)
    requires
        one_line(s),
        0 <= ix < s.len() - 1,
        scan_wf(st, ix),
        pending_before(st),
        !(st.state is Finished),
        !(st.state is Skip),
    ensures
        scan_wf(phase_step(s, st, ix), ix + 1),
        pending_before(phase_step(s, st, ix)),
{
    let c = s[ix];
    match st.state {
        InlineState::Normal => {
            if c == '*' || c == '_' || c == '`' {
            } else if c == '!' {
            } else if c == '[' {
            } else {
            }
        },
        InlineState::ImgBegin(_b) => {},
        InlineState::ImgNameBegin(_b1, _b2) => {},
        InlineState::LinkNameBegin(_b) => {},
        InlineState::NameEnd(_b1, _b2, _b3) => {},
        InlineState::RefLink(_b1, _b2, _b3) => {},
        InlineState::RefLinkDef(_b1, _b2, _b3) => {},
        InlineState::Location(_b1, _b2, _b3, _b4) => {},
        InlineState::QuickLink(_b) => {},
        InlineState::Continuous(_b) => {},
        _ => {},
    }
}

/// A non-escape, non-newline transition keeps the emitted text followed by
/// the pending text through `ix`, or, on a reference definition, emits the
/// rest of the line.
#[verifier::rlimit(80)]
proof fn lemma_phase_text(s: Seq<char>, start: int, st: Scan, ix: int)
    requires
        one_line(s),
        0 <= ix < s.len() - 1,
        scan_wf(st, ix),
        pending_before(st),
        !(st.state is Finished),
        !(st.state is Skip),
    ensures
        !(phase_step(s, st, ix).state is Finished) ==> concat(phase_step(s, st, ix).toks)
            + s.subrange(phase_step(s, st, ix).last, ix + 1) == concat(st.toks) + s.subrange(
            st.last,
            ix + 1,
        ),
        phase_step(s, st, ix).state is Finished ==> concat(phase_step(s, st, ix).toks) == concat(
            st.toks,
        ) + s.subrange(st.last, s.len() - 1),
{
    let c = s[ix];
    let st2 = phase_step(s, st, ix);
    let old_text = concat(st.toks) + s.subrange(st.last, ix + 1);
    match st.state {
        InlineState::Normal => {
            if c == '*' || c == '_' || c == '`' {
                lemma_concat_flush(st.toks, s, st.last, ix);
                let toks = flush(st.toks, s, st.last, ix);
                if !(ix + 1 < s.len() && s[ix + 1] == c) {
                    lemma_concat_push(toks, plain(s.subrange(ix, ix + 1), crate::inline::delim_kind(c)));
                }
                assert(concat(st2.toks) + s.subrange(st2.last, ix + 1) =~= old_text);
            }
        },
        InlineState::RefLink(b1, b2, b3) => {
            if c == ']' {
                let t = link_token(s, b1 as int, ix + 1, b1 + 1, b2 as int, b3 + 1, ix, TokenKind::RefLink);
                lemma_concat_flush(st.toks, s, st.last, b1 as int);
                lemma_concat_push(flush(st.toks, s, st.last, b1 as int), t);
                assert(concat(st2.toks) + s.subrange(st2.last, ix + 1) =~= old_text);
            }
        },
        InlineState::RefLinkDef(b1, b2, _b3) => {
            let end = s.len() - 1;
            let t = link_token(s, b1 as int, end, b1 + 1, b2 as int, ix, end, TokenKind::RefLinkDef);
            lemma_concat_flush(st.toks, s, st.last, b1 as int);
            lemma_concat_push(flush(st.toks, s, st.last, b1 as int), t);
            assert(concat(st2.toks) =~= concat(st.toks) + s.subrange(st.last, end));
        },
        InlineState::Location(b1, b2, b3, b4) => {
            if c == ')' {
                let begin: int = match b1 {
                    Some(b) => b as int,
                    None => b2 as int,
                };
                let kind = if b1 is Some {
                    TokenKind::Image
                } else {
                    TokenKind::Link
                };
                let t = link_token(s, begin, ix + 1, b2 + 1, b3 as int, b4 + 1, ix, kind);
                lemma_concat_flush(st.toks, s, st.last, begin);
                lemma_concat_push(flush(st.toks, s, st.last, begin), t);
                assert(concat(st2.toks) + s.subrange(st2.last, ix + 1) =~= old_text);
            }
        },
        InlineState::QuickLink(b) => {
            if !is_ws(c) && c == '>' {
                let (la, le) = crate::inline::autolink_bounds(s, b as int, ix);
                if crate::links::autolink_ok(s.subrange(la, le)) {
                    let t = link_token(s, b as int, ix + 1, la, le, la, le, TokenKind::QuickLink);
                    lemma_concat_flush(st.toks, s, st.last, b as int);
                    lemma_concat_push(flush(st.toks, s, st.last, b as int), t);
                    assert(concat(st2.toks) + s.subrange(st2.last, ix + 1) =~= old_text);
                }
            }
        },
        InlineState::Continuous(b) => {
            if !(ix + 1 < s.len() && s[ix + 1] == c) {
                lemma_concat_push(st.toks, plain(s.subrange(b as int, ix + 1), crate::inline::delim_kind(c)));
                assert(concat(st2.toks) + s.subrange(st2.last, ix + 1) =~= old_text);
            }
        },
        _ => {},
    }
}

proof fn lemma_step_newline(s: Seq<char>, start: int, st: Scan, ix: int)
    requires
        one_line(s),
        0 <= start,
        0 <= ix < s.len(),
        s[ix] == '\n',
        !(st.state is Finished),
        scan_ok(s, start, st, ix),
    ensures
        scan_ok(s, start, scan_step(s, st, ix), ix + 1),
{
    let n = s.len() - 1;
    let st2 = scan_step(s, st, ix);
    assert(ix == n);
    let t = trim_end_at(s, st.last, ix);
    let e = strip_br_at(s, st.last, t);
    lemma_line_end_tail(s, st.last, n);
    lemma_concat_flush(st.toks, s, st.last, e);
    assert(concat(st2.toks) + s.subrange(e, n) =~= concat(st.toks) + s.subrange(st.last, n));
    assert(start <= e <= n && trailing_marks(s, e, n) && drops_backslashes(
        s.subrange(start, n),
        concat(st2.toks) + s.subrange(e, n),
    ));
}

/// The character at `ix` joins the pending text.
proof fn lemma_step_pending(s: Seq<char>, start: int, st: Scan, st2: Scan, ix: int)
    requires
        one_line(s),
        0 <= start,
        0 <= ix < s.len() - 1,
        !(st.state is Finished),
        !(st2.state is Finished),
        scan_ok(s, start, st, ix),
        start <= st2.last,
        scan_wf(st2, ix + 1),
        pending_before(st2),
        concat(st2.toks) + s.subrange(st2.last, ix + 1) == concat(st.toks) + s.subrange(
            st.last,
            ix + 1,
        ),
    ensures
        scan_ok(s, start, st2, ix + 1),
{
    let c = s[ix];
    let text = concat(st.toks) + s.subrange(st.last, ix);
    assert(s.subrange(start, ix + 1) =~= s.subrange(start, ix).push(c));
    assert(concat(st.toks) + s.subrange(st.last, ix + 1) =~= text.push(c));
    lemma_drops_push(s.subrange(start, ix), text, c);
}

proof fn lemma_step_escape(s: Seq<char>, start: int, st: Scan, ix: int)
    requires
        one_line(s),
        0 <= start,
        0 <= ix < s.len() - 1,
        s[ix] == '\\',
        ix + 1 < s.len() && crate::inline::is_escape_char(s[ix + 1]),
        !(st.state is Finished),
        !(st.state is Skip),
        scan_ok(s, start, st, ix),
    ensures
        scan_ok(s, start, scan_step(s, st, ix), ix + 1),
{
    let st2 = scan_step(s, st, ix);
    let text = concat(st.toks) + s.subrange(st.last, ix);
    lemma_concat_flush(st.toks, s, st.last, ix);
    assert(concat(st2.toks) + s.subrange(ix + 1, ix + 1) =~= text);
    assert(s.subrange(start, ix + 1) =~= s.subrange(start, ix).push('\\'));
    lemma_drops_backslash(s.subrange(start, ix), text);
}

proof fn lemma_step_refdef(s: Seq<char>, start: int, st: Scan, st2: Scan, ix: int)
    requires
        one_line(s),
        0 <= start,
        0 <= ix < s.len() - 1,
        !(st.state is Finished),
        scan_ok(s, start, st, ix),
        st2.state is Finished,
        scan_wf(st2, ix + 1),
        pending_before(st2),
        start <= st2.last,
        concat(st2.toks) == concat(st.toks) + s.subrange(st.last, s.len() - 1),
    ensures
        scan_ok(s, start, st2, ix + 1),
{
    let n = s.len() - 1;
    let text = concat(st.toks) + s.subrange(st.last, ix);
    let rest = s.subrange(ix, n);
    lemma_drops_extend(s.subrange(start, ix), text, rest);
    assert(s.subrange(start, ix) + rest =~= s.subrange(start, n));
    assert(text + rest =~= concat(st2.toks) + s.subrange(n, n));
    assert(trailing_marks(s, n, n));
}

proof fn lemma_step_ok(s: Seq<char>, start: int, st: Scan, ix: int)
    requires
        one_line(s),
        0 <= start,
        0 <= ix < s.len(),
        scan_ok(s, start, st, ix),
    ensures
        scan_ok(s, start, scan_step(s, st, ix), ix + 1),
{
    let c = s[ix];
    let st2 = scan_step(s, st, ix);
    if st.state is Finished {
        return;
    }
    if c == '\n' {
        lemma_step_newline(s, start, st, ix);
        return;
    }
    assert(ix < s.len() - 1);
    if st.state is Skip {
        lemma_step_pending(s, start, st, st2, ix);
    } else if c == '\\' {
        if ix + 1 < s.len() && crate::inline::is_escape_char(s[ix + 1]) {
            lemma_step_escape(s, start, st, ix);
        } else {
            lemma_step_pending(s, start, st, st2, ix);
        }
    } else {
        assert(st2 == phase_step(s, st, ix));
        lemma_phase_shape(s, st, ix);
        lemma_phase_text(s, start, st, ix);
        if st2.state is Finished {
            lemma_step_refdef(s, start, st, st2, ix);
        } else {
            lemma_step_pending(s, start, st, st2, ix);
        }
    }
}

pub proof fn lemma_scan_ok(s: Seq<char>, start: int, end: int)
    requires
        one_line(s),
        0 <= start <= end <= s.len(),
        start < s.len(),
    ensures
        scan_ok(s, start, scan(s, start, end), end),
    decreases end - start,
{
    if end <= start {
        assert(s.subrange(start, start) =~= Seq::<char>::empty());
        assert(concat(Seq::<TokenView>::empty()) + s.subrange(start, start) =~= Seq::<char>::empty());
    } else {
        lemma_scan_ok(s, start, end - 1);
        lemma_step_ok(s, start, scan(s, start, end - 1), end - 1);
    }
}

proof fn lemma_concat_values(a: Seq<TokenView>, b: Seq<TokenView>)
    requires
        a.len() == b.len(),
        forall|j: int| 0 <= j < a.len() ==> #[trigger] a[j].value == b[j].value,
    ensures
        concat(a) == concat(b),
    decreases a.len(),
{
    if a.len() > 0 {
        lemma_concat_values(a.subrange(1, a.len() as int), b.subrange(1, b.len() as int));
    }
}

proof fn lemma_concat_cons(t: TokenView, r: Seq<TokenView>)
    ensures
        concat(seq![t] + r) == t.value + concat(r),
{
    assert((seq![t] + r).subrange(1, r.len() + 1 as int) =~= r);
}

proof fn lemma_normalize_concat(ts: Seq<TokenView>, k: TokenKind, pre: nat)
    ensures
        concat(normalize(ts, k, pre)) == concat(ts),
    decreases ts.len(),
{
    if ts.len() > 0 {
        let t = ts[0];
        let rest = ts.subrange(1, ts.len() as int);
        let n = t.value.len();
        if t.kind != k {
            lemma_normalize_concat(rest, k, pre);
            lemma_concat_cons(t, normalize(rest, k, pre));
        } else if n >= pre && pre > 0 {
            if n > pre {
                let h = plain(t.value.subrange(0, pre as int), k);
                let tl = plain(t.value.subrange(pre as int, n as int), k);
                let r2 = normalize(rest, k, (n - pre) as nat);
                lemma_normalize_concat(rest, k, (n - pre) as nat);
                assert(seq![h, tl] + r2 =~= seq![h] + (seq![tl] + r2));
                lemma_concat_cons(h, seq![tl] + r2);
                lemma_concat_cons(tl, r2);
                assert(h.value + tl.value =~= t.value);
                assert(h.value + (tl.value + concat(r2)) =~= t.value + concat(r2));
            } else {
                lemma_normalize_concat(rest, k, 0);
                lemma_concat_cons(t, normalize(rest, k, 0));
            }
        } else {
            lemma_normalize_concat(rest, k, n);
            lemma_concat_cons(t, normalize(rest, k, n));
        }
    }
}

/// The tidy pass keeps the text of the tokens.
pub proof fn lemma_tidy_keeps_text(ts: Seq<TokenView>)
    ensures
        concat(tidied(ts)) == concat(ts),
{
    let a = normalize(ts, TokenKind::Star, 0);
    let b = normalize(a, TokenKind::UnderLine, 0);
    lemma_normalize_concat(ts, TokenKind::Star, 0);
    lemma_normalize_concat(a, TokenKind::UnderLine, 0);
    let (kinds, stack) = crate::tidy::match_scan(b, b.len() as int);
    let fin = crate::tidy::demote(kinds, stack, 0);
    lemma_concat_values(retag_all(b, fin), b);
}

/// Round trip of the inline tokens of a line `s` from `start`: their texts,
/// one after another, are a text followed by a `<br>` exactly when the line
/// ends in a line break; and that text, followed by a tail of the line made
/// of whitespace and `<br>` characters, is the line from `start` with some
/// escaping backslashes taken out.
pub proof fn lemma_round_trip(s: Seq<char>, start: int)
    requires
        one_line(s),
        0 <= start < s.len(),
    ensures
        exists|text: Seq<char>, e: int|
            {
                &&& concat(inline_tokens(s, start)) == text + if has_line_break(s, start) {
                    br_marker()
                } else {
                    Seq::empty()
                }
                &&& start <= e <= s.len() - 1
                &&& trailing_marks(s, e, s.len() - 1)
                &&& #[trigger] drops_backslashes(s.subrange(start, s.len() - 1), text + s.subrange(e, s.len() - 1))
            },
{
    let n = s.len() - 1;
    lemma_scan_ok(s, start, s.len() as int);
    let fin = scan(s, start, s.len() as int);
    assert(fin == scan_step(s, scan(s, start, n), n));
    lemma_scan_ok(s, start, n);
    assert(fin.state is Finished);
    let e = choose|e: int|
        start <= e <= n && trailing_marks(s, e, n) && drops_backslashes(
            s.subrange(start, n),
            concat(fin.toks) + s.subrange(e, n),
        );
    let raw = if has_line_break(s, start) {
        fin.toks.push(line_break())
    } else {
        fin.toks
    };
    lemma_tidy_keeps_text(raw);
    if has_line_break(s, start) {
        lemma_concat_push(fin.toks, line_break());
    } else {
        assert(concat(fin.toks) + Seq::<char>::empty() =~= concat(fin.toks));
    }
    let text = concat(fin.toks);
    assert(concat(inline_tokens(s, start)) == text + if has_line_break(s, start) {
        br_marker()
    } else {
        Seq::empty()
    });
}

/// No token has an empty text.
pub open spec fn all_nonempty(ts: Seq<TokenView>) -> bool {
    forall|k: int| 0 <= k < ts.len() ==> #[trigger] ts[k].value.len() > 0
}

proof fn lemma_push_nonempty(ts: Seq<TokenView>, t: TokenView)
    requires
        all_nonempty(ts),
        t.value.len() > 0,
    ensures
        all_nonempty(ts.push(t)),
{
    assert forall|k: int| 0 <= k < ts.push(t).len() implies #[trigger] ts.push(t)[k].value.len() > 0 by {
        if k < ts.len() {
            assert(ts.push(t)[k] == ts[k]);
        }
    }
}

proof fn lemma_flush_nonempty(ts: Seq<TokenView>, s: Seq<char>, a: int, b: int)
    requires
        all_nonempty(ts),
        0 <= a,
        b <= s.len(),
    ensures
        all_nonempty(flush(ts, s, a, b)),
{
    if a < b {
        lemma_push_nonempty(ts, plain(s.subrange(a, b), TokenKind::Text));
    }
}

#[verifier::rlimit(50)]
proof fn lemma_step_nonempty(s: Seq<char>, start: int, st: Scan, ix: int)
    requires
        one_line(s),
        0 <= start,
        0 <= ix < s.len(),
        scan_ok(s, start, st, ix),
        all_nonempty(st.toks),
    ensures
        all_nonempty(scan_step(s, st, ix).toks),
{
    let c = s[ix];
    let n = s.len() - 1;
    if st.state is Finished {
        return;
    }
    if c == '\n' {
        let e = strip_br_at(s, st.last, trim_end_at(s, st.last, ix));
        lemma_line_end_tail(s, st.last, n);
        lemma_flush_nonempty(st.toks, s, st.last, e);
        return;
    }
    if st.state is Skip {
        return;
    }
    if c == '\\' {
        lemma_flush_nonempty(st.toks, s, st.last, ix);
        return;
    }
    match st.state {
        InlineState::Normal => {
            if c == '*' || c == '_' || c == '`' {
                lemma_flush_nonempty(st.toks, s, st.last, ix);
                lemma_push_nonempty(
                    flush(st.toks, s, st.last, ix),
                    plain(s.subrange(ix, ix + 1), crate::inline::delim_kind(c)),
                );
            }
        },
        InlineState::RefLink(b1, b2, b3) => {
            let t = link_token(s, b1 as int, ix + 1, b1 + 1, b2 as int, b3 + 1, ix, TokenKind::RefLink);
            lemma_flush_nonempty(st.toks, s, st.last, b1 as int);
            lemma_push_nonempty(flush(st.toks, s, st.last, b1 as int), t);
        },
        InlineState::RefLinkDef(b1, b2, _b3) => {
            let t = link_token(s, b1 as int, n, b1 + 1, b2 as int, ix, n, TokenKind::RefLinkDef);
            lemma_flush_nonempty(st.toks, s, st.last, b1 as int);
            lemma_push_nonempty(flush(st.toks, s, st.last, b1 as int), t);
        },
        InlineState::Location(b1, b2, b3, b4) => {
            let begin: int = match b1 {
                Some(b) => b as int,
                None => b2 as int,
            };
            let kind = if b1 is Some {
                TokenKind::Image
            } else {
                TokenKind::Link
            };
            let t = link_token(s, begin, ix + 1, b2 + 1, b3 as int, b4 + 1, ix, kind);
            lemma_flush_nonempty(st.toks, s, st.last, begin);
            lemma_push_nonempty(flush(st.toks, s, st.last, begin), t);
        },
        InlineState::QuickLink(b) => {
            let (la, le) = crate::inline::autolink_bounds(s, b as int, ix);
            let t = link_token(s, b as int, ix + 1, la, le, la, le, TokenKind::QuickLink);
            lemma_flush_nonempty(st.toks, s, st.last, b as int);
            lemma_push_nonempty(flush(st.toks, s, st.last, b as int), t);
        },
        InlineState::Continuous(b) => {
            lemma_push_nonempty(st.toks, plain(s.subrange(b as int, ix + 1), crate::inline::delim_kind(c)));
        },
        _ => {},
    }
}

proof fn lemma_scan_nonempty(s: Seq<char>, start: int, end: int)
    requires
        one_line(s),
        0 <= start <= end <= s.len(),
        start < s.len(),
    ensures
        all_nonempty(scan(s, start, end).toks),
    decreases end - start,
{
    if end > start {
        lemma_scan_nonempty(s, start, end - 1);
        lemma_scan_ok(s, start, end - 1);
        lemma_step_nonempty(s, start, scan(s, start, end - 1), end - 1);
    }
}

proof fn lemma_normalize_nonempty(ts: Seq<TokenView>, k: TokenKind, pre: nat)
    requires
        all_nonempty(ts),
    ensures
        all_nonempty(normalize(ts, k, pre)),
    decreases ts.len(),
{
    if ts.len() > 0 {
        let t = ts[0];
        let rest = ts.subrange(1, ts.len() as int);
        assert(all_nonempty(rest)) by {
            assert forall|m: int| 0 <= m < rest.len() implies #[trigger] rest[m].value.len() > 0 by {
                assert(rest[m] == ts[m + 1]);
            }
        }
        let n = t.value.len();
        assert(t.value.len() > 0);
        let (head, r2) = if t.kind != k {
            (seq![t], normalize(rest, k, pre))
        } else if n >= pre && pre > 0 {
            if n > pre {
                (
                    seq![
                        plain(t.value.subrange(0, pre as int), k),
                        plain(t.value.subrange(pre as int, n as int), k),
                    ],
                    normalize(rest, k, (n - pre) as nat),
                )
            } else {
                (seq![t], normalize(rest, k, 0))
            }
        } else {
            (seq![t], normalize(rest, k, n))
        };
        if t.kind != k {
            lemma_normalize_nonempty(rest, k, pre);
        } else if n >= pre && pre > 0 {
            if n > pre {
                lemma_normalize_nonempty(rest, k, (n - pre) as nat);
            } else {
                lemma_normalize_nonempty(rest, k, 0);
            }
        } else {
            lemma_normalize_nonempty(rest, k, n);
        }
        assert(normalize(ts, k, pre) == head + r2);
        assert forall|m: int| 0 <= m < (head + r2).len() implies #[trigger] (head + r2)[m].value.len()
            > 0 by {
            if m >= head.len() {
                assert((head + r2)[m] == r2[m - head.len()]);
            }
        }
    }
}

/// The inline tokens of a line are never empty.
pub proof fn lemma_inline_nonempty(s: Seq<char>, start: int)
    requires
        one_line(s),
        0 <= start <= s.len(),
    ensures
        all_nonempty(inline_tokens(s, start)),
{
    let raw0 = scan(s, start, s.len() as int).toks;
    if start < s.len() {
        lemma_scan_nonempty(s, start, s.len() as int);
    } else {
        assert(raw0 =~= Seq::<TokenView>::empty());
    }
    let raw = if has_line_break(s, start) {
        raw0.push(line_break())
    } else {
        raw0
    };
    if has_line_break(s, start) {
        lemma_push_nonempty(raw0, line_break());
    }
    let a = normalize(raw, TokenKind::Star, 0);
    let b = normalize(a, TokenKind::UnderLine, 0);
    lemma_normalize_nonempty(raw, TokenKind::Star, 0);
    lemma_normalize_nonempty(a, TokenKind::UnderLine, 0);
    let (kinds, stack) = crate::tidy::match_scan(b, b.len() as int);
    let fin = crate::tidy::demote(kinds, stack, 0);
    assert(tidied(raw) == retag_all(b, fin));
    assert forall|k: int| 0 <= k < retag_all(b, fin).len() implies #[trigger] retag_all(b, fin)[k].value.len()
        > 0 by {
        assert(retag_all(b, fin)[k].value == b[k].value);
    }
}

proof fn lemma_concat_append(a: Seq<TokenView>, b: Seq<TokenView>)
    ensures
        concat(a + b) == concat(a) + concat(b),
    decreases a.len(),
{
    if a.len() == 0 {
        assert(a + b =~= b);
        assert(concat(a) + concat(b) =~= concat(b));
    } else {
        let r = a.subrange(1, a.len() as int);
        lemma_concat_append(r, b);
        assert((a + b).subrange(1, (a + b).len() as int) =~= r + b);
        assert(concat(a + b) =~= concat(a) + concat(b));
    }
}

proof fn lemma_drops_prefix(p: Seq<char>, o: Seq<char>, u: Seq<char>)
    requires
        drops_backslashes(o, u),
    ensures
        drops_backslashes(p + o, p + u),
    decreases o.len(),
{
    if o.len() == 0 {
        assert(u.len() == 0);
        lemma_drops_extend(Seq::empty(), Seq::empty(), p);
        assert(Seq::<char>::empty() + p =~= p + o);
        assert(Seq::<char>::empty() + p =~= p + u);
    } else {
        assert((p + o).drop_last() =~= p + o.drop_last());
        if u.len() > 0 && u.last() == o.last() && drops_backslashes(o.drop_last(), u.drop_last()) {
            lemma_drops_prefix(p, o.drop_last(), u.drop_last());
            assert((p + u).drop_last() =~= p + u.drop_last());
        } else {
            lemma_drops_prefix(p, o.drop_last(), u);
        }
    }
}

/// Where inline lexing of the framed line `s` starts.
pub open spec fn inline_start(s: Seq<char>) -> int {
    let i = crate::lexer::find_non_ws(s, 0);
    let j = crate::lexer::find_ws(s, i);
    match crate::lexer::mark_token(s, i, j) {
        Some(t) => if t.kind == TokenKind::CodeBlockMark {
            i + 3
        } else {
            j + 1
        },
        None => i,
    }
}

/// Where the text of the tokens before the inline part ends: after the
/// indentation and the block mark's word.
pub open spec fn head_end(s: Seq<char>) -> int {
    let i = crate::lexer::find_non_ws(s, 0);
    let j = crate::lexer::find_ws(s, i);
    match crate::lexer::mark_token(s, i, j) {
        Some(t) => if t.kind == TokenKind::CodeBlockMark {
            i + 3
        } else {
            j
        },
        None => i,
    }
}

/// The body of the line without the whitespace character that ends a block
/// mark's word: the body up to `head_end`, then from where inline lexing
/// starts.
pub open spec fn without_separator(line: Seq<char>) -> Seq<char> {
    let s = crate::lexer::frame(line);
    let b = crate::lexer::body(line);
    let start = inline_start(s);
    b.subrange(0, head_end(s)) + b.subrange(
        if start <= b.len() {
            start
        } else {
            b.len() as int
        },
        b.len() as int,
    )
}

/// A line is neither blank nor a dividing rule.
pub open spec fn has_inline_part(line: Seq<char>) -> bool {
    let s = crate::lexer::frame(line);
    let i = crate::lexer::find_non_ws(s, 0);
    let j = crate::lexer::find_ws(s, i);
    &&& i < s.len()
    &&& match crate::lexer::mark_token(s, i, j) {
        Some(t) => t.kind != TokenKind::DividingMark,
        None => true,
    }
}

proof fn lemma_lead_text(s: Seq<char>, i: int)
    requires
        0 <= i <= s.len(),
    ensures
        concat(
            if i > 0 {
                seq![plain(s.subrange(0, i), TokenKind::WhiteSpace)]
            } else {
                Seq::empty()
            },
        ) == s.subrange(0, i),
{
    let lead = if i > 0 {
        seq![plain(s.subrange(0, i), TokenKind::WhiteSpace)]
    } else {
        Seq::empty()
    };
    assert(concat(Seq::<TokenView>::empty()) == Seq::<char>::empty());
    if i > 0 {
        lemma_concat_cons(lead[0], Seq::empty());
        assert(lead =~= seq![lead[0]] + Seq::<TokenView>::empty());
        assert(s.subrange(0, i) + Seq::<char>::empty() =~= s.subrange(0, i));
    } else {
        assert(s.subrange(0, 0) =~= Seq::<char>::empty());
    }
}

/// The texts of a line's tokens are the body up to `head_end`, then the
/// texts of the inline tokens.
#[verifier::rlimit(60)]
proof fn lemma_lex_head(line: Seq<char>)
    requires
        has_inline_part(line),
    ensures
        0 <= head_end(crate::lexer::frame(line)) <= inline_start(crate::lexer::frame(line)),
        head_end(crate::lexer::frame(line)) <= crate::lexer::body(line).len(),
        inline_start(crate::lexer::frame(line)) <= crate::lexer::frame(line).len(),
        concat(crate::lexer::lex(line)) == crate::lexer::body(line).subrange(
            0,
            head_end(crate::lexer::frame(line)),
        ) + concat(inline_tokens(crate::lexer::frame(line), inline_start(crate::lexer::frame(line)))),
{
    let s = crate::lexer::frame(line);
    let b = crate::lexer::body(line);
    let n = b.len() as int;
    crate::laws::lemma_frame(line);
    crate::lexer::lemma_find_non_ws(s, 0);
    let i = crate::lexer::find_non_ws(s, 0);
    crate::lexer::lemma_find_ws(s, i);
    let j = crate::lexer::find_ws(s, i);
    assert(i < n);
    assert(i < j <= n) by {
        if j > n {
            assert(is_ws(s[n]));
        }
    }
    let lead = if i > 0 {
        seq![plain(s.subrange(0, i), TokenKind::WhiteSpace)]
    } else {
        Seq::empty()
    };
    lemma_lead_text(s, i);
    let start = inline_start(s);
    let tail = inline_tokens(s, start);
    match crate::lexer::mark_token(s, i, j) {
        Some(t) => {
            let head = lead.push(t);
            assert(crate::lexer::lex_framed(s) == head + tail);
            lemma_concat_append(head, tail);
            lemma_concat_push(lead, t);
            if t.kind == TokenKind::CodeBlockMark {
                let w = s.subrange(i, j);
                assert(w[0] == s[i] && w[1] == s[i + 1] && w[2] == s[i + 2]);
                assert(t.value =~= s.subrange(i, i + 3));
                assert(s.subrange(0, i) + s.subrange(i, i + 3) =~= b.subrange(0, i + 3));
            } else {
                assert(t.value == s.subrange(i, j));
                assert(s.subrange(0, i) + s.subrange(i, j) =~= b.subrange(0, j));
            }
        },
        None => {
            assert(crate::lexer::lex_framed(s) == lead + tail);
            lemma_concat_append(lead, tail);
            assert(s.subrange(0, i) =~= b.subrange(0, i));
        },
    }
}

proof fn lemma_drops_same(o: Seq<char>)
    ensures
        drops_backslashes(o, o),
{
    assert(drops_backslashes(Seq::<char>::empty(), Seq::<char>::empty()));
    lemma_drops_prefix(o, Seq::empty(), Seq::empty());
    assert(o + Seq::<char>::empty() =~= o);
}

/// Round trip of a line that is neither blank nor a dividing rule: the texts
/// of its tokens, one after another, are a text followed by a `<br>` exactly
/// when the line ends in a line break; and that text, followed by a tail of
/// the line made of whitespace and `<br>` characters, is the line without its
/// newline, with some escaping backslashes taken out, and without the
/// whitespace character that ends a block mark's word.
#[verifier::rlimit(80)]
pub proof fn lemma_line_round_trip(line: Seq<char>)
    requires
        crate::lexer::frame(line).len() <= usize::MAX,
        has_inline_part(line),
    ensures
        exists|text: Seq<char>, e: int|
            {
                &&& concat(crate::lexer::lex(line)) == text + if has_line_break(
                    crate::lexer::frame(line),
                    inline_start(crate::lexer::frame(line)),
                ) {
                    br_marker()
                } else {
                    Seq::empty()
                }
                &&& 0 <= e <= crate::lexer::body(line).len()
                &&& trailing_marks(crate::lexer::body(line), e, crate::lexer::body(line).len() as int)
                &&& #[trigger] drops_backslashes(
                    without_separator(line),
                    text + crate::lexer::body(line).subrange(e, crate::lexer::body(line).len() as int),
                )
            },
{
    let s = crate::lexer::frame(line);
    let b = crate::lexer::body(line);
    let n = b.len() as int;
    crate::laws::lemma_frame(line);
    lemma_lex_head(line);
    let start = inline_start(s);
    let p = b.subrange(0, head_end(s));
    let br: Seq<char> = if has_line_break(s, start) {
        br_marker()
    } else {
        Seq::empty()
    };
    assert(one_line(s));
    if start <= n {
        lemma_round_trip(s, start);
        let (t0, e) = choose|t0: Seq<char>, e: int|
            {
                &&& concat(inline_tokens(s, start)) == t0 + br
                &&& start <= e <= n
                &&& trailing_marks(s, e, n)
                &&& #[trigger] drops_backslashes(s.subrange(start, n), t0 + s.subrange(e, n))
            };
        assert(s.subrange(start, n) =~= b.subrange(start, n));
        assert(s.subrange(e, n) =~= b.subrange(e, n));
        lemma_drops_prefix(p, b.subrange(start, n), t0 + b.subrange(e, n));
        assert(without_separator(line) == p + b.subrange(start, n));
        let text = p + t0;
        assert(p + (t0 + b.subrange(e, n)) =~= text + b.subrange(e, n));
        assert(concat(crate::lexer::lex(line)) =~= text + br);
        lemma_trim_end_bound(s, e, n);
        lemma_tail_transfer(s, b, e, n);
        lemma_tail_transfer(s, b, e, trim_end_at(s, e, n));
        assert(trailing_marks(b, e, n));
        assert(drops_backslashes(without_separator(line), text + b.subrange(e, n)));
    } else {
        assert(start == s.len());
        assert(scan(s, start, s.len() as int).toks =~= Seq::<TokenView>::empty());
        assert(!has_line_break(s, start));
        assert(inline_tokens(s, start) == tidied(Seq::<TokenView>::empty()));
        lemma_tidy_keeps_text(Seq::<TokenView>::empty());
        assert(concat(Seq::<TokenView>::empty()) == Seq::<char>::empty());
        lemma_drops_same(b);
        assert(b.subrange(n, n) =~= Seq::<char>::empty());
        assert(head_end(s) == n);
        assert(p =~= b);
        assert(without_separator(line) =~= b);
        assert(concat(crate::lexer::lex(line)) =~= b + br);
        assert(b + b.subrange(n, n) =~= b);
        assert(trailing_marks(b, n, n));
        assert(drops_backslashes(without_separator(line), b + b.subrange(n, n)));
    }
}

proof fn lemma_drops_plain(o: Seq<char>, u: Seq<char>)
    requires
        drops_backslashes(o, u),
        forall|k: int| 0 <= k < o.len() ==> #[trigger] o[k] != '\\',
    ensures
        u == o,
    decreases o.len(),
{
    if o.len() == 0 {
        assert(u =~= o);
    } else {
        assert(o.last() != '\\');
        assert forall|k: int| 0 <= k < o.drop_last().len() implies #[trigger] o.drop_last()[k]
            != '\\' by {
            assert(o.drop_last()[k] == o[k]);
        }
        lemma_drops_plain(o.drop_last(), u.drop_last());
        assert(u =~= u.drop_last().push(u.last()));
        assert(o =~= o.drop_last().push(o.last()));
    }
}

/// Round trip, exactly: a line whose first word is no block mark, which holds
/// no backslash and ends in neither whitespace nor `<br>`, gives back its text
/// (without its newline) as the texts of its tokens, one after another.
pub proof fn lemma_plain_text_round_trip(line: Seq<char>)
    requires
        crate::lexer::frame(line).len() <= usize::MAX,
        crate::lexer::body(line).len() > 0,
        !is_ws(crate::lexer::body(line).last()),
        !(crate::lexer::body(line).len() >= 4 && crate::lexer::body(line).subrange(
            crate::lexer::body(line).len() - 4,
            crate::lexer::body(line).len() as int,
        ) == br_marker()),
        forall|k: int|
            0 <= k < crate::lexer::body(line).len() ==> #[trigger] crate::lexer::body(line)[k]
                != '\\',
        crate::lexer::mark_token(
            crate::lexer::frame(line),
            crate::lexer::find_non_ws(crate::lexer::frame(line), 0),
            crate::lexer::find_ws(
                crate::lexer::frame(line),
                crate::lexer::find_non_ws(crate::lexer::frame(line), 0),
            ),
        ) is None,
    ensures
        concat(crate::lexer::lex(line)) == crate::lexer::body(line),
{
    let s = crate::lexer::frame(line);
    let b = crate::lexer::body(line);
    let n = b.len() as int;
    crate::laws::lemma_frame(line);
    crate::lexer::lemma_find_non_ws(s, 0);
    let i = crate::lexer::find_non_ws(s, 0);
    assert(!is_ws(s[n - 1]));
    assert(i <= n - 1);
    assert(has_inline_part(line));
    assert(inline_start(s) == i);
    assert(head_end(s) == i);
    assert(without_separator(line) =~= b);
    assert(is_ws(s[n]));
    assert(trim_end_at(s, i, n) == n);
    assert(trim_end_at(s, i, s.len() as int) == n);
    assert(!has_line_break(s, i)) by {
        if s.len() - i >= 3 {
            assert(s.subrange(s.len() - 3, s.len() as int)[1] == s[n - 1]);
        }
        if n - i >= 4 {
            assert(s.subrange(n - 4, n) =~= b.subrange(n - 4, n));
        }
    }
    lemma_line_round_trip(line);
    let (text, e) = choose|text: Seq<char>, e: int|
        {
            &&& concat(crate::lexer::lex(line)) == text + if has_line_break(s, inline_start(s)) {
                br_marker()
            } else {
                Seq::empty()
            }
            &&& 0 <= e <= n
            &&& trailing_marks(b, e, n)
            &&& #[trigger] drops_backslashes(without_separator(line), text + b.subrange(e, n))
        };
    if e < n {
        assert(trim_end_at(b, e, n) == n);
        assert(!br_run(b, e, n));
    }
    assert(e == n);
    assert(text + b.subrange(n, n) =~= text);
    lemma_drops_plain(b, text);
    assert(concat(crate::lexer::lex(line)) =~= b);
}

} // verus!
