//! Properties of the lexer as a whole, proved over its specification.
use vstd::prelude::*;

use crate::inline::{flush, inline_tokens, is_escape_char, scan, InlineState, Scan};
use crate::round_trip::{all_nonempty, lemma_inline_nonempty, one_line};
use crate::lexer::{
    body, count_upto, find_char, find_non_ws, find_ws, frame, is_dividing_line, lemma_find_ws,
    lex, lex_framed, mark_token,
};
use crate::text::is_ws;
use crate::tidy::{
    demote, find_open, is_delim, match_scan, match_step, normalize, pair_kind, tidied,
};
use crate::token::{plain, with_kind, TokenKind, TokenView};

verus! {

proof fn lemma_find_char_bound(s: Seq<char>, i: int, c: char)
    requires
        0 <= i <= s.len(),
    ensures
        i <= find_char(s, i, c) <= s.len(),
        find_char(s, i, c) < s.len() ==> s[find_char(s, i, c)] == c,
        forall|k: int| i <= k < find_char(s, i, c) ==> #[trigger] s[k] != c,
    decreases s.len() - i,
{
    if i < s.len() && s[i] != c {
        lemma_find_char_bound(s, i + 1, c);
    }
}

/// The framed line is the line's body followed by one newline.
pub proof fn lemma_frame(line: Seq<char>)
    ensures
        body(line).len() <= line.len(),
        frame(line).len() == body(line).len() + 1,
        frame(line)[frame(line).len() - 1] == '\n',
        forall|k: int| 0 <= k < body(line).len() ==> #[trigger] frame(line)[k] == body(line)[k]
            && body(line)[k] == line[k] && line[k] != '\n',
        frame(line).subrange(0, frame(line).len() - 1) == body(line),
{
    lemma_find_char_bound(line, 0, '\n');
    assert(frame(line).subrange(0, frame(line).len() - 1) =~= body(line));
}

proof fn lemma_all_ws(s: Seq<char>, i: int)
    requires
        0 <= i <= s.len(),
        forall|k: int| i <= k < s.len() ==> is_ws(#[trigger] s[k]),
    ensures
        find_non_ws(s, i) == s.len(),
    decreases s.len() - i,
{
    if i < s.len() {
        lemma_all_ws(s, i + 1);
    }
}

/// A line that holds only whitespace, or nothing, lexes to exactly one
/// blank-line token, whose text is the line without its newline.
pub proof fn lemma_blank_line(line: Seq<char>)
    requires
        forall|k: int| 0 <= k < line.len() ==> is_ws(#[trigger] line[k]),
    ensures
        lex(line) == seq![plain(body(line), TokenKind::BlankLine)],
        lex(line).len() == 1,
{
    lemma_frame(line);
    let s = frame(line);
    assert forall|k: int| 0 <= k < s.len() implies is_ws(#[trigger] s[k]) by {
        if k < s.len() - 1 {
            assert(s[k] == line[k]);
        } else {
            assert(s[k] == '\n');
        }
    }
    lemma_all_ws(s, 0);
}

proof fn lemma_count_prefix(s: Seq<char>, t: Seq<char>, c: char, k: int)
    requires
        0 <= k <= s.len(),
        k <= t.len(),
        forall|m: int| 0 <= m < k ==> #[trigger] s[m] == t[m],
    ensures
        count_upto(s, c, k) == count_upto(t, c, k),
    decreases k,
{
    if k > 0 {
        lemma_count_prefix(s, t, c, k - 1);
    }
}

proof fn lemma_count_pos(s: Seq<char>, c: char, k: int) -> (m: int)
    requires
        0 <= k <= s.len(),
        count_upto(s, c, k) > 0,
    ensures
        0 <= m < k,
        s[m] == c,
    decreases k,
{
    if s[k - 1] == c {
        k - 1
    } else {
        lemma_count_pos(s, c, k - 1)
    }
}

/// A line whose characters other than whitespace are one of `*`, `-`, `_`,
/// at least three times, whitespace anywhere in between, lexes to exactly one
/// dividing mark: the line without its newline.
pub proof fn lemma_dividing_line(line: Seq<char>, c: char)
    requires
        c == '*' || c == '-' || c == '_',
        forall|k: int|
            0 <= k < body(line).len() && !is_ws(#[trigger] body(line)[k]) ==> body(line)[k] == c,
        count_upto(body(line), c, body(line).len() as int) >= 3,
    ensures
        lex(line) == seq![plain(body(line), TokenKind::DividingMark)],
{
    lemma_frame(line);
    let s = frame(line);
    let b = body(line);
    let m = lemma_count_pos(b, c, b.len() as int);
    crate::lexer::lemma_find_non_ws(s, 0);
    let i = find_non_ws(s, 0);
    assert(s[m] == c);
    assert(!is_ws(c));
    assert(i <= m);
    assert(s[i] == c) by {
        assert(s[i] == b[i]);
    }
    assert forall|k: int| 0 <= k < s.len() && !is_ws(#[trigger] s[k]) implies s[k] == s[i] by {
        if k < s.len() - 1 {
            assert(s[k] == b[k]);
        }
    }
    lemma_count_prefix(s, b, c, b.len() as int);
    assert(count_upto(s, c, s.len() as int) == count_upto(s, c, b.len() as int));
    assert(is_dividing_line(s));
    lemma_find_ws(s, i);
    let j = find_ws(s, i);
    let w = s.subrange(i, j);
    assert(j >= i + 1);
    assert(w[0] == c);
    assert forall|k: int| 0 <= k < j - i implies #[trigger] w[k] == c by {
        assert(w[k] == s[i + k]);
        assert(!is_ws(s[i + k]));
    }
    assert(w[w.len() - 1] == c);
    assert(w != seq!['>']) by {
        if w == seq!['>'] {
            assert(w[0] == '>');
        }
    }
    assert(w != seq!['+']) by {
        if w == seq!['+'] {
            assert(w[0] == '+');
        }
    }
    assert(mark_token(s, i, j) == Some(plain(s.subrange(0, s.len() - 1), TokenKind::DividingMark)));
    assert(lex_framed(s) =~= seq![plain(b, TokenKind::DividingMark)]);
}

/// An escaping backslash: when the automaton, outside an escape and before
/// the end of its work, reads `\` followed by one of the escapable
/// characters, it emits the text before the backslash, drops the backslash,
/// and takes the escaped character as plain pending text: after it the
/// automaton is back in its normal phase, with that character as the start
/// of the text still to be emitted.
pub proof fn lemma_escape(s: Seq<char>, start: int, ix: int)
    requires
        0 <= start <= ix,
        ix + 1 < s.len(),
        s[ix] == '\\',
        is_escape_char(s[ix + 1]),
        !(scan(s, start, ix).state is Skip),
        !(scan(s, start, ix).state is Finished),
    ensures
        scan(s, start, ix + 1) == (Scan {
            state: InlineState::Skip,
            last: ix + 1,
            toks: flush(scan(s, start, ix).toks, s, scan(s, start, ix).last, ix),
        }),
        scan(s, start, ix + 2) == (Scan {
            state: InlineState::Normal,
            last: ix + 1,
            toks: flush(scan(s, start, ix).toks, s, scan(s, start, ix).last, ix),
        }),
{
    assert(is_escape_char(s[ix + 1]) ==> s[ix + 1] != '\n');
}

/// How many of `ts[0..k]` are delimiter runs.
pub open spec fn delim_rank(ts: Seq<TokenView>, k: int) -> nat
    decreases k,
{
    if k <= 0 {
        0
    } else {
        delim_rank(ts, k - 1) + if is_delim(ts[k - 1].kind) {
            1nat
        } else {
            0nat
        }
    }
}

proof fn lemma_rank_mono(ts: Seq<TokenView>, a: int, b: int)
    requires
        0 <= a < b <= ts.len(),
    ensures
        delim_rank(ts, a) <= delim_rank(ts, b),
        is_delim(ts[a].kind) ==> delim_rank(ts, a) + 1 <= delim_rank(ts, b),
    decreases b - a,
{
    if b > a + 1 {
        lemma_rank_mono(ts, a, b - 1);
    }
}

/// The delimiter runs all have kind `k0` and text `v`.
pub open spec fn uniform_runs(ts: Seq<TokenView>, k0: TokenKind, v: Seq<char>) -> bool {
    forall|k: int| 0 <= k < ts.len() && is_delim(#[trigger] ts[k].kind) ==> ts[k].kind == k0
        && ts[k].value == v
}

/// The kind that the run at `k` gets when runs pair left to right: the first
/// with the second, the third with the fourth, and so on; an odd last run
/// stays text.
pub open spec fn paired_kind(ts: Seq<TokenView>, k: int) -> TokenKind {
    if !is_delim(ts[k].kind) {
        ts[k].kind
    } else if delim_rank(ts, k) % 2 == 1 || delim_rank(ts, k) + 1 < delim_rank(ts, ts.len() as int) {
        pair_kind(ts[k])
    } else {
        TokenKind::Text
    }
}

/// The state of the matching scan after `i` tokens, on uniform runs.
spec fn scan_shape(ts: Seq<TokenView>, i: int, kinds: Seq<TokenKind>, stack: Seq<int>) -> bool {
    let r = delim_rank(ts, i);
    &&& kinds.len() == ts.len()
    &&& forall|k: int|
        0 <= k < ts.len() && (k >= i || !is_delim(ts[k].kind)) ==> #[trigger] kinds[k]
            == ts[k].kind
    &&& forall|k: int|
        0 <= k < i && is_delim(ts[k].kind) && (delim_rank(ts, k) % 2 == 1 || delim_rank(ts, k) + 1
            < r) ==> #[trigger] kinds[k] == pair_kind(ts[k])
    &&& forall|k: int|
        0 <= k < i && is_delim(ts[k].kind) && delim_rank(ts, k) % 2 == 0 && delim_rank(ts, k) + 1
            == r ==> #[trigger] kinds[k] == ts[k].kind
    &&& r % 2 == 0 ==> stack.len() == 0
    &&& r % 2 == 1 ==> stack.len() == 1 && 0 <= stack[0] < i && is_delim(ts[stack[0]].kind)
        && delim_rank(ts, stack[0]) + 1 == r
}

proof fn lemma_scan_shape(ts: Seq<TokenView>, k0: TokenKind, v: Seq<char>, i: int)
    requires
        0 <= i <= ts.len(),
        uniform_runs(ts, k0, v),
        1 <= v.len() < 4,
    ensures
        scan_shape(ts, i, match_scan(ts, i).0, match_scan(ts, i).1),
    decreases i,
{
    if i <= 0 {
        return;
    }
    lemma_scan_shape(ts, k0, v, i - 1);
    let (kinds, stack) = match_scan(ts, i - 1);
    let j = i - 1;
    let r = delim_rank(ts, j);
    assert(match_scan(ts, i) == match_step(ts, (kinds, stack), j));
    if !is_delim(ts[j].kind) {
        return;
    }
    let (k2, s2) = match_step(ts, (kinds, stack), j);
    assert forall|k: int| 0 <= k < j && is_delim(ts[k].kind) implies delim_rank(ts, k) + 1 <= r by {
        lemma_rank_mono(ts, k, j);
    }
    if r % 2 == 0 {
        assert(find_open(ts, stack, ts[j], 0) == -1);
        assert(k2 == kinds);
        assert(s2 == stack.push(j));
    } else {
        let p = stack[0];
        assert(find_open(ts, stack, ts[j], 1) == 0);
        assert(demote(kinds, stack, 1) == kinds);
        assert(pair_kind(ts[p]) == pair_kind(ts[j]));
        assert forall|k: int|
            0 <= k < j && is_delim(ts[k].kind) && delim_rank(ts, k) == delim_rank(ts, p) implies k
            == p by {
            if k < p {
                lemma_rank_mono(ts, k, p);
            } else if p < k {
                lemma_rank_mono(ts, p, k);
            }
        }
        assert(s2 =~= Seq::<int>::empty());
    }
}

proof fn lemma_normalize_uniform(ts: Seq<TokenView>, k: TokenKind, n: nat, pre: nat)
    requires
        n > 0,
        pre == 0 || pre == n,
        forall|m: int| 0 <= m < ts.len() && #[trigger] ts[m].kind == k ==> ts[m].value.len() == n,
    ensures
        normalize(ts, k, pre) == ts,
    decreases ts.len(),
{
    if ts.len() > 0 {
        let rest = ts.subrange(1, ts.len() as int);
        assert forall|m: int| 0 <= m < rest.len() && #[trigger] rest[m].kind == k implies rest[m].value.len()
            == n by {
            assert(rest[m] == ts[m + 1]);
        }
        if ts[0].kind != k {
            lemma_normalize_uniform(rest, k, n, pre);
        } else if pre > 0 {
            lemma_normalize_uniform(rest, k, n, 0);
        } else {
            lemma_normalize_uniform(rest, k, n, n);
        }
        assert(seq![ts[0]] + rest =~= ts);
    }
}

/// Runs of one delimiter kind and one length pair up left to right: the
/// first pending run with the next equal one. Each pair becomes italic, bold,
/// italic-bold or code marks by its length and kind; a last unpaired run
/// becomes text; every other token keeps its kind.
pub proof fn lemma_pairs_left_to_right(ts: Seq<TokenView>, k0: TokenKind, v: Seq<char>)
    requires
        is_delim(k0),
        1 <= v.len() < 4,
        uniform_runs(ts, k0, v),
    ensures
        tidied(ts).len() == ts.len(),
        forall|k: int|
            0 <= k < ts.len() ==> #[trigger] tidied(ts)[k] == with_kind(ts[k], paired_kind(ts, k)),
{
    lemma_normalize_uniform(ts, TokenKind::Star, v.len(), 0);
    lemma_normalize_uniform(ts, TokenKind::UnderLine, v.len(), 0);
    lemma_scan_shape(ts, k0, v, ts.len() as int);
    let (kinds, stack) = match_scan(ts, ts.len() as int);
    let fin = demote(kinds, stack, 0);
    if stack.len() == 1 {
        assert(demote(kinds.update(stack[0], TokenKind::Text), stack, 1) == kinds.update(
            stack[0],
            TokenKind::Text,
        ));
        assert(fin == kinds.update(stack[0], TokenKind::Text));
        assert forall|k: int|
            0 <= k < ts.len() && is_delim(ts[k].kind) && delim_rank(ts, k) == delim_rank(
                ts,
                stack[0],
            ) implies k == stack[0] by {
            if k < stack[0] {
                lemma_rank_mono(ts, k, stack[0]);
            } else if stack[0] < k {
                lemma_rank_mono(ts, stack[0], k);
            }
        }
    }
    assert forall|k: int| 0 <= k < ts.len() implies #[trigger] tidied(ts)[k] == with_kind(
        ts[k],
        paired_kind(ts, k),
    ) by {
        if is_delim(ts[k].kind) {
            lemma_rank_mono(ts, k, ts.len() as int);
        }
    }
}

/// Every token the lexer hands out has a non-empty text, but the blank-line
/// token of an empty line.
pub proof fn lemma_no_empty_tokens(line: Seq<char>)
    requires
        frame(line).len() <= usize::MAX,
    ensures
        forall|k: int|
            0 <= k < lex(line).len() ==> #[trigger] lex(line)[k].value.len() > 0 || lex(line)[k].kind
                == TokenKind::BlankLine,
{
    lemma_frame(line);
    let s = frame(line);
    assert(one_line(s));
    let i = find_non_ws(s, 0);
    crate::lexer::lemma_find_non_ws(s, 0);
    if i >= s.len() {
        return;
    }
    assert(i < s.len() - 1);
    let lead = if i > 0 {
        seq![plain(s.subrange(0, i), TokenKind::WhiteSpace)]
    } else {
        Seq::empty()
    };
    assert(all_nonempty(lead));
    lemma_find_ws(s, i);
    let j = find_ws(s, i);
    assert(i < j < s.len());
    let rest_start = match mark_token(s, i, j) {
        Some(t) => if t.kind == TokenKind::CodeBlockMark {
            i + 3
        } else {
            j + 1
        },
        None => i,
    };
    let head = match mark_token(s, i, j) {
        Some(t) => lead.push(t),
        None => lead,
    };
    assert(all_nonempty(head)) by {
        match mark_token(s, i, j) {
            Some(t) => {
                assert(t.value.len() > 0);
                assert forall|k: int| 0 <= k < head.len() implies #[trigger] head[k].value.len() > 0 by {
                    if k < lead.len() {
                        assert(head[k] == lead[k]);
                    }
                }
            },
            None => {},
        }
    }
    lemma_inline_nonempty(s, rest_start);
    let tail = inline_tokens(s, rest_start);
    match mark_token(s, i, j) {
        Some(t) => {
            if t.kind == TokenKind::DividingMark {
                assert(lex(line) == seq![t]);
                assert(all_nonempty(seq![t]));
                return;
            } else {
                assert(lex(line) == head + tail);
            }
        },
        None => {
            assert(lex(line) == head + tail);
        },
    }
    assert forall|k: int| 0 <= k < (head + tail).len() implies #[trigger] (head + tail)[k].value.len() > 0 by {
        if k >= head.len() {
            assert((head + tail)[k] == tail[k - head.len()]);
        }
    }
}

} // verus!
