//! The tidy pass: raw delimiter runs (`*`, `_`, `` ` ``) become emphasis and
//! code marks when they pair up, and text when they do not.
use vstd::prelude::*;
use vstd::string::*;

use crate::token::{
    lemma_views_push, plain, views, with_kind, Token, TokenKind, TokenView,
};

verus! {

pub open spec fn is_delim(k: TokenKind) -> bool {
    k == TokenKind::Star || k == TokenKind::UnderLine || k == TokenKind::BackTick
}

/// Run-length normalisation of the runs of kind `k`: a run longer than the
/// run of that kind before it is cut so that its first part has the length of
/// that earlier run. `pre` is the length the next run is compared with (0:
/// none); after a cut the rest of the run takes that place, and a run equal to
/// it clears it.
pub open spec fn normalize(ts: Seq<TokenView>, k: TokenKind, pre: nat) -> Seq<TokenView>
    decreases ts.len(),
{
    if ts.len() == 0 {
        Seq::empty()
    } else {
        let t = ts[0];
        let rest = ts.subrange(1, ts.len() as int);
        let n = t.value.len();
        if t.kind != k {
            seq![t] + normalize(rest, k, pre)
        } else if n >= pre && pre > 0 {
            if n > pre {
                seq![
                    plain(t.value.subrange(0, pre as int), k),
                    plain(t.value.subrange(pre as int, n as int), k),
                ] + normalize(rest, k, (n - pre) as nat)
            } else {
                seq![t] + normalize(rest, k, 0)
            }
        } else {
            seq![t] + normalize(rest, k, n)
        }
    }
}

/// The kind a matched pair of delimiter runs takes.
pub open spec fn pair_kind(t: TokenView) -> TokenKind {
    if t.kind == TokenKind::BackTick {
        TokenKind::CodeMark
    } else if t.value.len() == 1 {
        TokenKind::ItalicMark
    } else if t.value.len() == 2 {
        TokenKind::BoldMark
    } else {
        TokenKind::ItalicBoldMark
    }
}

/// The highest position below `p` in the stack of pending runs whose run has
/// the kind and the text of `t`, or -1.
pub open spec fn find_open(ts: Seq<TokenView>, stack: Seq<int>, t: TokenView, p: int) -> int
    decreases p,
{
    if p <= 0 {
        -1
    } else if ts[stack[p - 1]].kind == t.kind && ts[stack[p - 1]].value == t.value {
        p - 1
    } else {
        find_open(ts, stack, t, p - 1)
    }
}

/// The runs at stack positions `from..` become text.
pub open spec fn demote(kinds: Seq<TokenKind>, stack: Seq<int>, from: int) -> Seq<TokenKind>
    decreases stack.len() - from,
{
    if from >= stack.len() || from < 0 {
        kinds
    } else {
        demote(kinds.update(stack[from], TokenKind::Text), stack, from + 1)
    }
}

/// One step of the matching scan, on token `i`: the kinds so far and the
/// stack of pending runs (indices into `ts`).
pub open spec fn match_step(
    ts: Seq<TokenView>,
    st: (Seq<TokenKind>, Seq<int>),
    i: int,
) -> (Seq<TokenKind>, Seq<int>) {
    let (kinds, stack) = st;
    let t = ts[i];
    if !is_delim(t.kind) {
        st
    } else {
        let p = find_open(ts, stack, t, stack.len() as int);
        if p >= 0 {
            let pk = pair_kind(t);
            (demote(kinds, stack, p + 1).update(stack[p], pk).update(i, pk), stack.subrange(0, p))
        } else if t.value.len() < 4 {
            (kinds, stack.push(i))
        } else {
            (kinds.update(i, TokenKind::Text), stack)
        }
    }
}

pub open spec fn kinds_of(ts: Seq<TokenView>) -> Seq<TokenKind> {
    ts.map_values(|t: TokenView| t.kind)
}

/// The matching scan over the first `i` tokens.
pub open spec fn match_scan(ts: Seq<TokenView>, i: int) -> (Seq<TokenKind>, Seq<int>)
    decreases i,
{
    if i <= 0 {
        (kinds_of(ts), Seq::empty())
    } else {
        match_step(ts, match_scan(ts, i - 1), i - 1)
    }
}

pub open spec fn retag_all(ts: Seq<TokenView>, kinds: Seq<TokenKind>) -> Seq<TokenView> {
    Seq::new(ts.len(), |j: int| with_kind(ts[j], kinds[j]))
}

/// Pairs the delimiter runs; what stays pending at the end becomes text.
pub open spec fn resolve(ts: Seq<TokenView>) -> Seq<TokenView> {
    let (kinds, stack) = match_scan(ts, ts.len() as int);
    retag_all(ts, demote(kinds, stack, 0))
}

/// The whole tidy pass.
pub open spec fn tidied(ts: Seq<TokenView>) -> Seq<TokenView> {
    resolve(normalize(normalize(ts, TokenKind::Star, 0), TokenKind::UnderLine, 0))
}

pub open spec fn stack_ok(stack: Seq<int>, bound: int) -> bool {
    forall|j: int| 0 <= j < stack.len() ==> 0 <= #[trigger] stack[j] < bound
}

pub open spec fn stack_view(stack: Seq<usize>) -> Seq<int> {
    stack.map_values(|x: usize| x as int)
}

proof fn lemma_normalize_unfold(ts: Seq<TokenView>, i: int, k: TokenKind, pre: nat)
    requires
        0 <= i < ts.len(),
    ensures
        ts.subrange(i, ts.len() as int)[0] == ts[i],
        ts.subrange(i, ts.len() as int).subrange(1, ts.len() - i) == ts.subrange(
            i + 1,
            ts.len() as int,
        ),
{
    assert(ts.subrange(i, ts.len() as int).subrange(1, ts.len() - i) =~= ts.subrange(
        i + 1,
        ts.len() as int,
    ));
}

/// Cuts the runs of kind `kind` (see `normalize`).
pub fn tidy_continuous_mark(kind: TokenKind, buff: &Vec<Token>) -> (r: Vec<Token>)
    ensures
        views(r@) == normalize(views(buff@), kind, 0),
{
    let ghost ts = views(buff@);
    let mut out: Vec<Token> = Vec::new();
    let mut pre: usize = 0;
    let mut i: usize = 0;
    assert(ts.subrange(0, ts.len() as int) =~= ts);
    assert(views(out@) + normalize(ts, kind, 0) =~= normalize(ts, kind, 0));
    while i < buff.len()
        invariant
            ts == views(buff@),
            i <= buff.len(),
            views(out@) + normalize(ts.subrange(i as int, ts.len() as int), kind, pre as nat)
                == normalize(ts, kind, 0),
        decreases buff.len() - i,
    {
        proof {
            lemma_normalize_unfold(ts, i as int, kind, pre as nat);
        }
        let ghost rest = ts.subrange(i + 1, ts.len() as int);
        let t = &buff[i];
        let n = t.len();
        if t.kind != kind {
            proof {
                lemma_views_push(out@, *t);
            }
            out.push(t.retagged(t.kind));
            assert(views(out@) + normalize(rest, kind, pre as nat) =~= views(out@).subrange(
                0,
                out.len() - 1,
            ) + (seq![t@] + normalize(rest, kind, pre as nat)));
        } else if n >= pre && pre > 0 {
            if n > pre {
                let head = Token::new(
                    String::from_str(t.value.as_str().substring_char(0, pre)),
                    t.kind,
                );
                let tail = Token::new(
                    String::from_str(t.value.as_str().substring_char(pre, n)),
                    t.kind,
                );
                proof {
                    lemma_views_push(out@, head);
                    lemma_views_push(out@.push(head), tail);
                }
                let ghost o = views(out@);
                out.push(head);
                out.push(tail);
                pre = n - pre;
                assert(views(out@) + normalize(rest, kind, pre as nat) =~= o + (seq![
                    head@,
                    tail@,
                ] + normalize(rest, kind, pre as nat)));
            } else {
                proof {
                    lemma_views_push(out@, *t);
                }
                out.push(t.retagged(t.kind));
                pre = 0;
                assert(views(out@) + normalize(rest, kind, 0) =~= views(out@).subrange(
                    0,
                    out.len() - 1,
                ) + (seq![t@] + normalize(rest, kind, 0)));
            }
        } else {
            proof {
                lemma_views_push(out@, *t);
            }
            out.push(t.retagged(t.kind));
            pre = n;
            assert(views(out@) + normalize(rest, kind, pre as nat) =~= views(out@).subrange(
                0,
                out.len() - 1,
            ) + (seq![t@] + normalize(rest, kind, pre as nat)));
        }
        i = i + 1;
    }
    assert(ts.subrange(i as int, ts.len() as int) =~= Seq::<TokenView>::empty());
    assert(views(out@) + Seq::<TokenView>::empty() =~= views(out@));
    out
}

fn find_open_run(buff: &Vec<Token>, stack: &Vec<usize>, i: usize) -> (r: Option<usize>)
    requires
        stack_ok(stack_view(stack@), buff.len() as int),
        i < buff.len(),
    ensures
        match r {
            Some(p) => p < stack.len() && p as int == find_open(
                views(buff@),
                stack_view(stack@),
                views(buff@)[i as int],
                stack.len() as int,
            ),
            None => find_open(
                views(buff@),
                stack_view(stack@),
                views(buff@)[i as int],
                stack.len() as int,
            ) == -1,
        },
{
    let ghost ts = views(buff@);
    let ghost sv = stack_view(stack@);
    let mut p = stack.len();
    while p > 0
        invariant
            p <= stack.len(),
            ts == views(buff@),
            sv == stack_view(stack@),
            stack_ok(sv, buff.len() as int),
            i < buff.len(),
            find_open(ts, sv, ts[i as int], p as int) == find_open(
                ts,
                sv,
                ts[i as int],
                stack.len() as int,
            ),
        decreases p,
    {
        let j = stack[p - 1];
        assert(sv[p - 1] == j as int);
        if buff[j].kind == buff[i].kind && buff[j].value == buff[i].value {
            return Some(p - 1);
        }
        p = p - 1;
    }
    None
}

pub proof fn lemma_demote_len(kinds: Seq<TokenKind>, stack: Seq<int>, from: int)
    requires
        stack_ok(stack, kinds.len() as int),
    ensures
        demote(kinds, stack, from).len() == kinds.len(),
    decreases stack.len() - from,
{
    if from < stack.len() && from >= 0 {
        lemma_demote_len(kinds.update(stack[from], TokenKind::Text), stack, from + 1);
    }
}

fn demote_runs(kinds: &mut Vec<TokenKind>, stack: &Vec<usize>, from: usize)
    requires
        stack_ok(stack_view(stack@), old(kinds).len() as int),
    ensures
        final(kinds)@ == demote(old(kinds)@, stack_view(stack@), from as int),
{
    let ghost sv = stack_view(stack@);
    let ghost k0 = kinds@;
    let mut q = from;
    while q < stack.len()
        invariant
            sv == stack_view(stack@),
            stack_ok(sv, kinds.len() as int),
            demote(kinds@, sv, q as int) == demote(k0, sv, from as int),
        decreases stack.len() - q,
    {
        let j = stack[q];
        assert(sv[q as int] == j as int);
        kinds.set(j, TokenKind::Text);
        q = q + 1;
    }
}

fn pair_kind_of(t: &Token) -> (r: TokenKind)
    ensures
        r == pair_kind(t@),
{
    let n = t.len();
    if t.kind == TokenKind::BackTick {
        TokenKind::CodeMark
    } else if n == 1 {
        TokenKind::ItalicMark
    } else if n == 2 {
        TokenKind::BoldMark
    } else {
        TokenKind::ItalicBoldMark
    }
}

/// Pairs the delimiter runs of `buff` (see `resolve`).
pub fn resolve_marks(buff: &Vec<Token>) -> (r: Vec<Token>)
    ensures
        views(r@) == resolve(views(buff@)),
{
    let ghost ts = views(buff@);
    let n = buff.len();
    let mut kinds: Vec<TokenKind> = Vec::new();
    let mut j: usize = 0;
    while j < n
        invariant
            n == buff.len(),
            ts == views(buff@),
            j <= n,
            kinds@ == kinds_of(ts).subrange(0, j as int),
        decreases n - j,
    {
        kinds.push(buff[j].kind);
        j = j + 1;
        assert(kinds@ =~= kinds_of(ts).subrange(0, j as int));
    }
    assert(kinds@ =~= kinds_of(ts));
    let mut stack: Vec<usize> = Vec::new();
    assert(stack_view(stack@) =~= Seq::<int>::empty());
    let mut i: usize = 0;
    while i < n
        invariant
            n == buff.len(),
            ts == views(buff@),
            i <= n,
            kinds.len() == n,
            stack_ok(stack_view(stack@), i as int),
            (kinds@, stack_view(stack@)) == match_scan(ts, i as int),
        decreases n - i,
    {
        let ghost sv = stack_view(stack@);
        let t = &buff[i];
        if t.kind == TokenKind::Star || t.kind == TokenKind::UnderLine || t.kind
            == TokenKind::BackTick {
            match find_open_run(buff, &stack, i) {
                Some(p) => {
                    proof {
                        lemma_demote_len(kinds@, sv, p + 1);
                    }
                    demote_runs(&mut kinds, &stack, p + 1);
                    let pk = pair_kind_of(t);
                    let top = stack[p];
                    assert(sv[p as int] == top as int);
                    kinds.set(top, pk);
                    kinds.set(i, pk);
                    stack.truncate(p);
                    assert(stack_view(stack@) =~= sv.subrange(0, p as int));
                },
                None => {
                    if t.len() < 4 {
                        stack.push(i);
                        assert(stack_view(stack@) =~= sv.push(i as int));
                    } else {
                        kinds.set(i, TokenKind::Text);
                    }
                },
            }
        }
        i = i + 1;
    }
    proof {
        lemma_demote_len(kinds@, stack_view(stack@), 0);
    }
    demote_runs(&mut kinds, &stack, 0);
    let mut out: Vec<Token> = Vec::new();
    let mut j: usize = 0;
    while j < n
        invariant
            n == buff.len(),
            ts == views(buff@),
            kinds.len() == n,
            j <= n,
            views(out@) == retag_all(ts, kinds@).subrange(0, j as int),
        decreases n - j,
    {
        let nt = buff[j].retagged(kinds[j]);
        proof {
            lemma_views_push(out@, nt);
        }
        out.push(nt);
        j = j + 1;
        assert(views(out@) =~= retag_all(ts, kinds@).subrange(0, j as int));
    }
    assert(retag_all(ts, kinds@).subrange(0, n as int) =~= retag_all(ts, kinds@));
    out
}

/// The tidy pass over the raw tokens of one line (see `tidied`).
pub fn tidy(buff: &mut Vec<Token>)
    ensures
        views(final(buff)@) == tidied(views(old(buff)@)),
{
    let stars = tidy_continuous_mark(TokenKind::Star, buff);
    let lines = tidy_continuous_mark(TokenKind::UnderLine, &stars);
    *buff = resolve_marks(&lines);
}

} // verus!
