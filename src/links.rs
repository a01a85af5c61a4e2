//! The link family: splitting a matched span into its attributes, and the
//! URL and e-mail syntax checks that autolinks rely on.
use vstd::prelude::*;

use crate::text::{
    find_sep, find_separator, is_quoted, quoted, skip_sep, skip_separator, strip_quotes,
    strip_quotes_end, strip_quotes_start, text_of, trim_end, trim_end_at, trim_start, trim_start_at,
};
use crate::token::{attr, opt_view, plain, Token, TokenKind, TokenView};

verus! {

/// Whether a string parses as an absolute URL.
pub uninterp spec fn url_parses(s: Seq<char>) -> bool;

/// Whether a string is a syntactically valid e-mail address.
pub uninterp spec fn email_valid(s: Seq<char>) -> bool;

/// Relies on `url::Url::parse`, to tell whether autolink content is an
/// absolute URL: `true` exactly when it returns `Ok`.
#[verifier::external_body]
fn parses_as_url(s: &str) -> (r: bool)
    ensures
        r == url_parses(s@),
{
    url::Url::parse(s).is_ok()
}

/// Relies on `email_address::EmailAddress::is_valid`, to tell whether
/// autolink content is an e-mail address.
#[verifier::external_body]
fn valid_email(s: &str) -> (r: bool)
    ensures
        r == email_valid(s@),
{
    email_address::EmailAddress::is_valid(s)
}

/// Autolink content is accepted when it is a URL or an e-mail address.
pub open spec fn autolink_ok(s: Seq<char>) -> bool {
    url_parses(s) || email_valid(s)
}

/// Whether `line[a..b]` is a URL or an e-mail address.
pub fn autolink_target(line: &str, a: usize, b: usize) -> (r: bool)
    requires
        a <= b <= line@.len(),
    ensures
        r == autolink_ok(line@.subrange(a as int, b as int)),
{
    let t = line.substring_char(a, b);
    parses_as_url(t) || valid_email(t)
}

/// The line as text and as chars agree on their first `n` characters.
pub open spec fn agrees(line: Seq<char>, s: Seq<char>, n: int) -> bool {
    &&& 0 <= n <= line.len()
    &&& n <= s.len()
    &&& forall|i: int| 0 <= i < n ==> line[i] == s[i]
}

/// An owned copy of `s[a..b]`, cut from `line`.
pub fn piece(line: &str, s: &Vec<char>, n: usize, a: usize, b: usize) -> (r: String)
    requires
        agrees(line@, s@, n as int),
        a <= b <= n,
    ensures
        r@ == s@.subrange(a as int, b as int),
{
    let r = text_of(line, a, b);
    assert(r@ =~= s@.subrange(a as int, b as int));
    r
}

/// `s[a..b]` as an attribute value: absent when empty.
pub fn attr_of(line: &str, s: &Vec<char>, n: usize, a: usize, b: usize) -> (r: Option<String>)
    requires
        agrees(line@, s@, n as int),
        a <= b <= n,
    ensures
        opt_view(r) == attr(s@.subrange(a as int, b as int)),
{
    if a < b {
        Some(piece(line, s, n, a, b))
    } else {
        None
    }
}

/// The clause `s[ca..cb]`, trimmed, splits at its first run of spaces and
/// tabs into a location and a title; `(ta, tb, p, q)` are the trimmed bounds
/// and the bounds of that run (`tb` for both when there is none).
pub open spec fn clause_bounds(s: Seq<char>, ca: int, cb: int) -> (int, int, int, int) {
    let tb = trim_end_at(s, ca, cb);
    let ta = trim_start_at(s, ca, tb);
    let p = find_sep(s, ta, tb);
    (ta, tb, p, skip_sep(s, p, tb))
}

/// A clause is well formed when it has no title or a quoted one.
pub open spec fn clause_ok(s: Seq<char>, ca: int, cb: int) -> bool {
    let (ta, tb, p, q) = clause_bounds(s, ca, cb);
    p == tb || is_quoted(s, q, tb)
}

pub open spec fn clause_location(s: Seq<char>, ca: int, cb: int) -> Seq<char> {
    let (ta, tb, p, q) = clause_bounds(s, ca, cb);
    s.subrange(ta, p)
}

/// The title with its surrounding quote characters dropped.
pub open spec fn clause_title(s: Seq<char>, ca: int, cb: int) -> Seq<char> {
    let (ta, tb, p, q) = clause_bounds(s, ca, cb);
    if p == tb {
        Seq::empty()
    } else {
        let qb = strip_quotes_end(s, q, tb);
        s.subrange(strip_quotes_start(s, q, qb), qb)
    }
}

/// The clause without surrounding whitespace.
pub open spec fn clause_trimmed(s: Seq<char>, ca: int, cb: int) -> Seq<char> {
    let (ta, tb, p, q) = clause_bounds(s, ca, cb);
    s.subrange(ta, tb)
}

/// The token for a matched link-family span `s[va..vb]` with its bracketed
/// name `s[na..nb]` and its trailing clause `s[ca..cb]`. Links, images and
/// reference definitions take a location and an optional quoted title from
/// the clause, and an unquoted title turns the whole span into text; a
/// reference link takes the clause as its tag, an autolink as its location.
pub open spec fn link_token(
    s: Seq<char>,
    va: int,
    vb: int,
    na: int,
    nb: int,
    ca: int,
    cb: int,
    kind: TokenKind,
) -> TokenView {
    let value = s.subrange(va, vb);
    let name = attr(s.subrange(na, nb));
    let loc = attr(clause_location(s, ca, cb));
    let title = attr(clause_title(s, ca, cb));
    let whole = attr(clause_trimmed(s, ca, cb));
    match kind {
        TokenKind::Image | TokenKind::Link => if clause_ok(s, ca, cb) {
            TokenView { value, kind, name, location: loc, title, ptr: None }
        } else {
            plain(value, TokenKind::Text)
        },
        TokenKind::RefLinkDef => if clause_ok(s, ca, cb) {
            TokenView { value, kind, name: None, location: loc, title, ptr: name }
        } else {
            plain(value, TokenKind::Text)
        },
        TokenKind::RefLink => TokenView {
            value,
            kind,
            name,
            location: None,
            title: None,
            ptr: whole,
        },
        TokenKind::QuickLink => TokenView {
            value,
            kind,
            name,
            location: whole,
            title: None,
            ptr: None,
        },
        _ => plain(value, kind),
    }
}

/// Builds the token of a matched link-family span (see `link_token`).
pub fn split_generic_link_details(
    line: &str,
    s: &Vec<char>,
    n: usize,
    va: usize,
    vb: usize,
    na: usize,
    nb: usize,
    ca: usize,
    cb: usize,
    kind: TokenKind,
) -> (r: Token)
    requires
        agrees(line@, s@, n as int),
        va <= vb <= n,
        na <= nb <= n,
        ca <= cb <= n,
    ensures
        r@ == link_token(s@, va as int, vb as int, na as int, nb as int, ca as int, cb as int, kind),
{
    let tb = trim_end(s, ca, cb);
    let ta = trim_start(s, ca, tb);
    let p = find_separator(s, ta, tb);
    let q = skip_separator(s, p, tb);
    let value = piece(line, s, n, va, vb);
    match kind {
        TokenKind::RefLink => {
            return Token {
                value,
                kind,
                name: attr_of(line, s, n, na, nb),
                location: None,
                title: None,
                ptr: attr_of(line, s, n, ta, tb),
            };
        },
        TokenKind::QuickLink => {
            return Token {
                value,
                kind,
                name: attr_of(line, s, n, na, nb),
                location: attr_of(line, s, n, ta, tb),
                title: None,
                ptr: None,
            };
        },
        TokenKind::Image | TokenKind::Link | TokenKind::RefLinkDef => {},
        _ => {
            return Token::new(value, kind);
        },
    }
    let ok = p == tb || quoted(s, q, tb);
    if !ok {
        return Token::new(value, TokenKind::Text);
    }
    let (qa, qb) = if p == tb {
        (p, p)
    } else {
        strip_quotes(s, q, tb)
    };
    proof {
        if p == tb {
            assert(s@.subrange(qa as int, qb as int) =~= Seq::<char>::empty());
        }
    }
    let location = attr_of(line, s, n, ta, p);
    let title = attr_of(line, s, n, qa, qb);
    let name = attr_of(line, s, n, na, nb);
    if let TokenKind::RefLinkDef = kind {
        Token { value, kind, name: None, location, title, ptr: name }
    } else {
        Token { value, kind, name, location, title, ptr: None }
    }
}

} // verus!
