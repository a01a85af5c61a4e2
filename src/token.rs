//! Tokens: what the lexer hands out for one line.
use vstd::prelude::*;
use vstd::string::*;

use crate::text::{chars_of, quotes_stripped, strip_quotes};

verus! {

/// The closed set of token kinds.
#[derive(Clone, Copy, Debug, PartialEq, Eq, Structural)]
pub enum TokenKind {
    /// `#` to `####` at the start of a line.
    TitleMark,
    /// `*`, `-` or `+` at the start of a line.
    UnorderedMark,
    /// `1.` to `999.` at the start of a line.
    OrderedMark,
    /// A whole line of `-`, `*` or `_`.
    DividingMark,
    /// `>` at the start of a line.
    QuoteMark,
    BoldMark,
    ItalicMark,
    ItalicBoldMark,
    /// A code fence.
    CodeBlockMark,
    CodeMark,
    BlankLine,
    /// A hard line break.
    LineBreak,
    /// `![name](location "title")`
    Image,
    /// `[name](location "title")`
    Link,
    /// `<url or email>`
    QuickLink,
    /// `[name][tag]`
    RefLink,
    /// `[tag]: location "title"`
    RefLinkDef,
    Text,
    /// A run of `*` before emphasis is resolved.
    Star,
    /// A run of `_` before emphasis is resolved.
    UnderLine,
    /// A run of `` ` `` before code spans are resolved.
    BackTick,
    WhiteSpace,
}

pub open spec fn is_link_kind(k: TokenKind) -> bool {
    k == TokenKind::Image || k == TokenKind::Link || k == TokenKind::RefLink || k
        == TokenKind::RefLinkDef || k == TokenKind::QuickLink
}

/// A token: the text it covers, its kind, and for the link family the
/// attributes `name`, `location`, `title` and `ptr` (the reference tag).
/// An attribute is either absent or non-empty.
#[derive(Clone, Debug, PartialEq)]
pub struct Token {
    pub value: String,
    pub kind: TokenKind,
    pub name: Option<String>,
    pub location: Option<String>,
    pub title: Option<String>,
    pub ptr: Option<String>,
}

/// What a token holds, as mathematical values.
pub struct TokenView {
    pub value: Seq<char>,
    pub kind: TokenKind,
    pub name: Option<Seq<char>>,
    pub location: Option<Seq<char>>,
    pub title: Option<Seq<char>>,
    pub ptr: Option<Seq<char>>,
}

pub open spec fn opt_view(o: Option<String>) -> Option<Seq<char>> {
    match o {
        Some(s) => Some(s@),
        None => None,
    }
}

/// An attribute value as stored: empty values are omitted.
pub open spec fn attr(s: Seq<char>) -> Option<Seq<char>> {
    if s.len() > 0 {
        Some(s)
    } else {
        None
    }
}

/// A token without attributes.
pub open spec fn plain(value: Seq<char>, kind: TokenKind) -> TokenView {
    TokenView { value, kind, name: None, location: None, title: None, ptr: None }
}

pub open spec fn with_kind(t: TokenView, kind: TokenKind) -> TokenView {
    TokenView { kind, ..t }
}

pub open spec fn views(ts: Seq<Token>) -> Seq<TokenView> {
    ts.map_values(|t: Token| t@)
}

impl View for Token {
    type V = TokenView;

    open spec fn view(&self) -> TokenView {
        TokenView {
            value: self.value@,
            kind: self.kind,
            name: opt_view(self.name),
            location: opt_view(self.location),
            title: opt_view(self.title),
            ptr: opt_view(self.ptr),
        }
    }
}

fn copy_attr(o: &Option<String>) -> (r: Option<String>)
    ensures
        opt_view(r) == opt_view(*o),
{
    match o {
        Some(s) => Some(s.clone()),
        None => None,
    }
}

impl Token {
    /// A token without attributes.
    pub fn new(value: String, kind: TokenKind) -> (r: Token)
        ensures
            r@ == plain(value@, kind),
    {
        Token { value, kind, name: None, location: None, title: None, ptr: None }
    }

    /// The text the token covers.
    pub fn value(&self) -> (r: &str)
        ensures
            r@ == self@.value,
    {
        self.value.as_str()
    }

    /// The number of characters of the token's text.
    pub fn len(&self) -> (r: usize)
        ensures
            r == self@.value.len(),
    {
        self.value.as_str().unicode_len()
    }

    pub fn kind(&self) -> (r: TokenKind)
        ensures
            r == self@.kind,
    {
        self.kind
    }

    pub fn update_kind(&mut self, kind: TokenKind)
        ensures
            final(self)@ == with_kind(old(self)@, kind),
    {
        self.kind = kind;
    }

    /// A copy of the token with another kind.
    pub fn retagged(&self, kind: TokenKind) -> (r: Token)
        ensures
            r@ == with_kind(self@, kind),
    {
        Token {
            value: self.value.clone(),
            kind,
            name: copy_attr(&self.name),
            location: copy_attr(&self.location),
            title: copy_attr(&self.title),
            ptr: copy_attr(&self.ptr),
        }
    }

    /// Views the token as a member of the link family.
    pub fn as_generic_link(&self) -> (r: GenericLinkToken<'_>)
        requires
            is_link_kind(self@.kind),
        ensures
            r.token() == self,
    {
        GenericLinkToken(self)
    }

    /// Sets the `name` attribute, unless `v` is empty.
    pub fn insert_name(&mut self, v: &str)
        requires
            is_link_kind(old(self)@.kind),
        ensures
            final(self)@ == (TokenView { name: if v@.len() > 0 { Some(v@) } else { old(self)@.name }, ..old(self)@ }),
    {
        if v.unicode_len() > 0 {
            self.name = Some(String::from_str(v));
        }
    }

    /// Sets the `location` attribute, unless `v` is empty.
    pub fn insert_location(&mut self, v: &str)
        requires
            is_link_kind(old(self)@.kind),
        ensures
            final(self)@ == (TokenView { location: if v@.len() > 0 { Some(v@) } else { old(self)@.location }, ..old(self)@ }),
    {
        if v.unicode_len() > 0 {
            self.location = Some(String::from_str(v));
        }
    }

    /// Sets the `title` attribute to `v` without its surrounding quote
    /// characters, unless that leaves nothing.
    pub fn insert_title(&mut self, v: &str)
        requires
            is_link_kind(old(self)@.kind),
        ensures
            final(self)@ == (TokenView {
                title: if quotes_stripped(v@).len() > 0 {
                    Some(quotes_stripped(v@))
                } else {
                    old(self)@.title
                },
                ..old(self)@
            }),
    {
        let cs = chars_of(v);
        let (a, b) = strip_quotes(&cs, 0, cs.len());
        if a < b {
            self.title = Some(String::from_str(v.substring_char(a, b)));
        }
    }

    /// Sets the reference tag `ptr`, unless `v` is empty.
    pub fn insert_reflink_tag(&mut self, v: &str)
        requires
            is_link_kind(old(self)@.kind),
        ensures
            final(self)@ == (TokenView { ptr: if v@.len() > 0 { Some(v@) } else { old(self)@.ptr }, ..old(self)@ }),
    {
        if v.unicode_len() > 0 {
            self.ptr = Some(String::from_str(v));
        }
    }
}

/// Read access to the attributes of a link-family token.
pub struct GenericLinkToken<'a>(&'a Token);

impl<'a> GenericLinkToken<'a> {
    pub closed spec fn token(&self) -> &'a Token {
        self.0
    }

    pub fn name(&self) -> (r: Option<&str>)
        ensures
            match r {
                Some(s) => self.token()@.name == Some(s@),
                None => self.token()@.name is None,
            },
    {
        match &self.0.name {
            Some(s) => Some(s.as_str()),
            None => None,
        }
    }

    pub fn location(&self) -> (r: Option<&str>)
        ensures
            match r {
                Some(s) => self.token()@.location == Some(s@),
                None => self.token()@.location is None,
            },
    {
        match &self.0.location {
            Some(s) => Some(s.as_str()),
            None => None,
        }
    }

    pub fn title(&self) -> (r: Option<&str>)
        ensures
            match r {
                Some(s) => self.token()@.title == Some(s@),
                None => self.token()@.title is None,
            },
    {
        match &self.0.title {
            Some(s) => Some(s.as_str()),
            None => None,
        }
    }

    pub fn ptr(&self) -> (r: Option<&str>)
        ensures
            match r {
                Some(s) => self.token()@.ptr == Some(s@),
                None => self.token()@.ptr is None,
            },
    {
        match &self.0.ptr {
            Some(s) => Some(s.as_str()),
            None => None,
        }
    }
}

pub proof fn lemma_views_push(v: Seq<Token>, t: Token)
    ensures
        views(v.push(t)) == views(v).push(t@),
{
    assert(views(v.push(t)) =~= views(v).push(t@));
}

} // verus!
