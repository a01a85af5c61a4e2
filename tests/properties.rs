use md_lexer::inline::{quick_link_advance, InlineState};
use md_lexer::lexer::Lexer;
use md_lexer::token::{Token, TokenKind};
use md_lexer::{Ast, BlockKind, Line, LineKind};

use TokenKind::{
    BlankLine, BoldMark, CodeBlockMark, CodeMark, DividingMark, Image, ItalicBoldMark, ItalicMark,
    Link, LineBreak, OrderedMark, QuickLink, QuoteMark, RefLink, RefLinkDef, Text, TitleMark,
    UnorderedMark, WhiteSpace,
};

fn lex(s: &str) -> Vec<(String, TokenKind)> {
    Lexer::new(s)
        .split()
        .into_iter()
        .map(|t| (t.value().to_string(), t.kind()))
        .collect()
}

fn expect(v: &[(&str, TokenKind)]) -> Vec<(String, TokenKind)> {
    v.iter().map(|(s, k)| (s.to_string(), *k)).collect()
}

fn single(s: &str) -> Token {
    let mut v = Lexer::new(s).split();
    assert_eq!(v.len(), 1, "{:?}", v);
    v.remove(0)
}

#[test]
fn whitespace_lines_are_one_blank_token() {
    assert_eq!(lex(""), expect(&[("", BlankLine)]));
    assert_eq!(lex("\n"), expect(&[("", BlankLine)]));
    assert_eq!(lex("   "), expect(&[("   ", BlankLine)]));
    assert_eq!(lex(" \t \n"), expect(&[(" \t ", BlankLine)]));
}

#[test]
fn rule_lines_are_one_dividing_mark() {
    assert_eq!(lex("***"), expect(&[("***", DividingMark)]));
    assert_eq!(lex("- - -"), expect(&[("- - -", DividingMark)]));
    assert_eq!(lex("_ _ _\n"), expect(&[("_ _ _", DividingMark)]));
    assert_eq!(lex("--------  \n"), expect(&[("--------  ", DividingMark)]));
}

#[test]
fn indented_rule_is_one_dividing_mark() {
    assert_eq!(lex("  * * *"), expect(&[("  * * *", DividingMark)]));
    assert_eq!(lex("\t---\n"), expect(&[("\t---", DividingMark)]));
}

#[test]
fn short_or_mixed_rules_are_not_dividing() {
    assert_eq!(lex("**"), expect(&[("**", Text)]));
    assert_eq!(
        lex("*-*"),
        expect(&[("*", ItalicMark), ("-", Text), ("*", ItalicMark)])
    );
}

#[test]
fn escaped_characters_are_text() {
    assert_eq!(lex("\\*a*"), expect(&[("*a", Text), ("*", Text)]));
    assert_eq!(lex("\\[a](b)"), expect(&[("[a](b)", Text)]));
    assert_eq!(lex("a\\<b>"), expect(&[("a", Text), ("<b>", Text)]));
}

#[test]
fn escaped_backslash_leaves_the_next_mark_alone() {
    assert_eq!(
        lex("\\\\*a*"),
        expect(&[("\\", Text), ("*", ItalicMark), ("a", Text), ("*", ItalicMark)])
    );
}

#[test]
fn equal_runs_pair_left_to_right() {
    assert_eq!(
        lex("*a* *b* *c*"),
        expect(&[
            ("*", ItalicMark),
            ("a", Text),
            ("*", ItalicMark),
            (" ", Text),
            ("*", ItalicMark),
            ("b", Text),
            ("*", ItalicMark),
            (" ", Text),
            ("*", ItalicMark),
            ("c", Text),
            ("*", ItalicMark),
        ])
    );
    assert_eq!(
        lex("__a__ __b"),
        expect(&[
            ("__", BoldMark),
            ("a", Text),
            ("__", BoldMark),
            (" ", Text),
            ("__", Text),
            ("b", Text),
        ])
    );
    assert_eq!(
        lex("`a` `b`"),
        expect(&[
            ("`", CodeMark),
            ("a", Text),
            ("`", CodeMark),
            (" ", Text),
            ("`", CodeMark),
            ("b", Text),
            ("`", CodeMark),
        ])
    );
}

#[test]
fn longer_run_is_cut_to_the_previous_length() {
    assert_eq!(
        lex("**a****b**"),
        expect(&[
            ("**", BoldMark),
            ("a", Text),
            ("**", BoldMark),
            ("**", BoldMark),
            ("b", Text),
            ("**", BoldMark),
        ])
    );
    assert_eq!(lex("****a"), expect(&[("****", Text), ("a", Text)]));
    assert_eq!(
        lex("***a***"),
        expect(&[("***", ItalicBoldMark), ("a", Text), ("***", ItalicBoldMark)])
    );
}

#[test]
fn token_texts_give_back_the_line() {
    let toks = Lexer::new("a \\* b").split();
    let text: String = toks.iter().map(|t| t.value().to_string()).collect();
    assert_eq!(text, "a * b");
    assert_eq!(lex("x\\_y  "), expect(&[("x", Text), ("_y", Text), ("<br>", LineBreak)]));
    assert_eq!(
        lex("# a \\* b  "),
        expect(&[("#", TitleMark), ("a ", Text), ("* b", Text), ("<br>", LineBreak)])
    );
}

#[test]
fn scenario_title() {
    assert_eq!(lex("# header1\n"), expect(&[("#", TitleMark), ("header1", Text)]));
}

#[test]
fn scenario_runs() {
    assert_eq!(
        lex("**1** ****2***\n"),
        expect(&[
            ("**", BoldMark),
            ("1", Text),
            ("**", BoldMark),
            (" ", Text),
            ("****", Text),
            ("2", Text),
            ("***", Text),
        ])
    );
}

#[test]
fn scenario_empty_image() {
    let t = single("![]()\n");
    assert_eq!(t.kind(), Image);
    let l = t.as_generic_link();
    assert_eq!(l.name(), None);
    assert_eq!(l.location(), None);
    assert_eq!(l.title(), None);
    assert_eq!(l.ptr(), None);
}

#[test]
fn scenario_reference_definition() {
    let t = single("[link]: https://example.com \"example\"\n");
    assert_eq!(t.kind(), RefLinkDef);
    assert_eq!(t.value(), "[link]: https://example.com \"example\"");
    let l = t.as_generic_link();
    assert_eq!(l.ptr(), Some("link"));
    assert_eq!(l.location(), Some("https://example.com"));
    assert_eq!(l.title(), Some("example"));
    assert_eq!(l.name(), None);
}

#[test]
fn scenario_email_autolink() {
    let t = single("<user@example.com>\n");
    assert_eq!(t.kind(), QuickLink);
    let l = t.as_generic_link();
    assert_eq!(l.name(), Some("user@example.com"));
    assert_eq!(l.location(), Some("user@example.com"));
    assert_eq!(l.title(), None);
}

#[test]
fn scenario_escaped_star_before_bold() {
    assert_eq!(
        lex("\\***rust***\n"),
        expect(&[
            ("*", Text),
            ("**", BoldMark),
            ("rust", Text),
            ("**", BoldMark),
            ("*", Text),
        ])
    );
}

#[test]
fn line_break_markers() {
    assert_eq!(lex("abc  "), expect(&[("abc", Text), ("<br>", LineBreak)]));
    assert_eq!(lex("abc<br><br>"), expect(&[("abc", Text), ("<br>", LineBreak)]));
    assert_eq!(lex("abc <br>\t"), expect(&[("abc ", Text), ("<br>", LineBreak)]));
    assert_eq!(lex("abc "), expect(&[("abc", Text)]));
}

#[test]
fn newline_is_optional_and_ends_the_line() {
    assert_eq!(lex("# header1"), lex("# header1\n"));
    assert_eq!(lex("abc\nxyz"), expect(&[("abc", Text)]));
}

#[test]
fn leading_whitespace_is_its_own_token() {
    assert_eq!(lex("  abc"), expect(&[("  ", WhiteSpace), ("abc", Text)]));
    assert_eq!(
        lex("  # t"),
        expect(&[("  ", WhiteSpace), ("#", TitleMark), ("t", Text)])
    );
}

#[test]
fn block_marks_and_their_limits() {
    assert_eq!(lex("1000. x"), expect(&[("1000. x", Text)]));
    assert_eq!(lex("0. x"), expect(&[("0.", OrderedMark), ("x", Text)]));
    assert_eq!(lex("05. x"), expect(&[("05.", OrderedMark), ("x", Text)]));
    assert_eq!(lex("##### x"), expect(&[("##### x", Text)]));
    assert_eq!(lex("42. x"), expect(&[("42.", OrderedMark), ("x", Text)]));
    assert_eq!(lex("> q"), expect(&[(">", QuoteMark), ("q", Text)]));
    assert_eq!(lex("+ item"), expect(&[("+", UnorderedMark), ("item", Text)]));
    assert_eq!(lex("- item"), expect(&[("-", UnorderedMark), ("item", Text)]));
    assert_eq!(
        lex("```rust x"),
        expect(&[("```", CodeBlockMark), ("rust x", Text)])
    );
    assert_eq!(lex("#"), expect(&[("#", TitleMark)]));
}

#[test]
fn link_attributes() {
    let t = single("[a](b 'c')");
    assert_eq!(t.kind(), Link);
    let l = t.as_generic_link();
    assert_eq!(l.name(), Some("a"));
    assert_eq!(l.location(), Some("b"));
    assert_eq!(l.title(), Some("c"));

    let t = single("![x](y)");
    assert_eq!(t.kind(), Image);
    let l = t.as_generic_link();
    assert_eq!(l.name(), Some("x"));
    assert_eq!(l.location(), Some("y"));
    assert_eq!(l.title(), None);

    let t = single("[a][b]");
    assert_eq!(t.kind(), RefLink);
    let l = t.as_generic_link();
    assert_eq!(l.name(), Some("a"));
    assert_eq!(l.ptr(), Some("b"));
    assert_eq!(l.location(), None);
}

#[test]
fn title_after_a_run_of_blanks() {
    let t = single("[a](b  \t \"t\")");
    assert_eq!(t.kind(), Link);
    let l = t.as_generic_link();
    assert_eq!(l.location(), Some("b"));
    assert_eq!(l.title(), Some("t"));
}

#[test]
fn reference_tag_is_taken_whole() {
    let t = single("[a][ b c ]");
    assert_eq!(t.kind(), RefLink);
    assert_eq!(t.as_generic_link().ptr(), Some("b c"));
}

#[test]
fn empty_quoted_title_is_omitted() {
    let t = single("[a](b \"\")");
    assert_eq!(t.kind(), Link);
    assert_eq!(t.as_generic_link().title(), None);
}

#[test]
fn unquoted_title_makes_text() {
    assert_eq!(lex("[a](b c)"), expect(&[("[a](b c)", Text)]));
    assert_eq!(lex("[a](b \"c\\\"d\")").len(), 1);
    assert_eq!(single("[a](b \"c\\\"d\")").kind(), Link);
    assert_eq!(lex("[a](b \"c\"d\")"), expect(&[("[a](b \"c\"d\")", Text)]));
}

#[test]
fn autolinks_are_checked() {
    assert_eq!(lex("<not a url>"), expect(&[("<not a url>", Text)]));
    assert_eq!(lex("<nothing>"), expect(&[("<nothing>", Text)]));
    assert_eq!(
        lex("see <https://a.b> now"),
        expect(&[("see ", Text), ("<https://a.b>", QuickLink), (" now", Text)])
    );
    let t = single("<http://x.y>");
    assert_eq!(t.as_generic_link().location(), Some("http://x.y"));
}

#[test]
fn update_kind_and_inserts() {
    let mut t = Token::new("[a]".to_string(), Link);
    t.insert_name("a");
    t.insert_location("");
    t.insert_title("t");
    t.insert_reflink_tag("p");
    assert_eq!(t.len(), 3);
    {
        let l = t.as_generic_link();
        assert_eq!(l.name(), Some("a"));
        assert_eq!(l.location(), None);
        assert_eq!(l.title(), Some("t"));
        assert_eq!(l.ptr(), Some("p"));
    }
    t.update_kind(Text);
    assert_eq!(t.kind(), Text);
}

#[test]
fn line_parse_kinds() {
    let l = Line::parse(3, "# title\n".to_string());
    assert_eq!(l.kind(), LineKind::Title);
    assert_eq!(l.len(), 2);
    assert_eq!(l.token(0), ("#", BlockKind::TitleMark, 3));
    assert_eq!(l.token(1), ("title", BlockKind::Title, 3));

    let l = Line::parse(1, "\n".to_string());
    assert_eq!(l.kind(), LineKind::Blank);
    assert_eq!(l.token(0), ("", BlockKind::BlankLine, 1));

    let l = Line::parse(2, "hello world\n".to_string());
    assert_eq!(l.kind(), LineKind::Plain);
    assert_eq!(l.len(), 1);
    assert_eq!(l.token(0), ("hello world", BlockKind::Plain, 2));

    let l = Line::parse(4, "- item\n".to_string());
    assert_eq!(l.kind(), LineKind::Unknow);
    assert_eq!(l.token(0), ("-", BlockKind::DisorderMark, 4));
    assert_eq!(l.token(1), ("item", BlockKind::DisorderListItem, 4));

    let l = Line::parse(5, "--- \n".to_string());
    assert_eq!(l.len(), 1);
    assert_eq!(l.token(0), ("---", BlockKind::DividingMark, 5));

    let l = Line::parse(6, ">  quoted\n".to_string());
    assert_eq!(l.token(1), ("quoted", BlockKind::Quote, 6));

    let l = Line::parse(7, "abc".to_string());
    assert_eq!(l.len(), 0);
    assert_eq!(l.kind(), LineKind::Unknow);
}

#[test]
fn ast_collects_lines() {
    let mut a = Ast::new();
    assert_eq!(a.len(), 0);
    a.push(Line::parse(1, "# t\n".to_string()));
    a.push(Line::parse(2, "x\n".to_string()));
    assert_eq!(a.len(), 2);
    assert_eq!(Ast::default().len(), 0);
}

#[test]
fn insert_title_strips_quotes() {
    let mut t = Token::new("[a](b)".to_string(), Link);
    t.insert_title("\"Magic Gardens\"");
    assert_eq!(t.as_generic_link().title(), Some("Magic Gardens"));
    let mut u = Token::new("[a](b)".to_string(), Link);
    u.insert_title("''");
    assert_eq!(u.as_generic_link().title(), None);
}

#[test]
fn autolink_step_takes_the_verdict() {
    let line = "<x>\n";
    let s: Vec<char> = line.chars().collect();
    let mut buff: Vec<Token> = Vec::new();
    let r = quick_link_advance(line, &s, 3, 0, 0, &mut buff, 2, true);
    assert!(matches!(r.0, InlineState::Normal));
    assert_eq!(r.1, 3);
    assert_eq!(buff.len(), 1);
    assert_eq!(buff[0].kind(), QuickLink);
    assert_eq!(buff[0].value(), "<x>");
    assert_eq!(buff[0].as_generic_link().location(), Some("x"));

    let mut none: Vec<Token> = Vec::new();
    let r = quick_link_advance(line, &s, 3, 0, 0, &mut none, 2, false);
    assert!(matches!(r.0, InlineState::Normal));
    assert_eq!(r.1, 0);
    assert!(none.is_empty());
}

#[test]
fn text_before_a_reference_definition_is_text() {
    let v = Lexer::new("\\*[a]: b").split();
    assert_eq!(v.len(), 2);
    assert_eq!(v[0].value(), "*");
    assert_eq!(v[0].kind(), Text);
    assert_eq!(v[1].value(), "[a]: b");
    assert_eq!(v[1].kind(), RefLinkDef);
    assert_eq!(v[1].as_generic_link().ptr(), Some("a"));
    assert_eq!(v[1].as_generic_link().location(), Some("b"));
}

#[test]
fn plain_line_texts_are_the_line() {
    for line in ["a *b* `c` [d](e) __f__ g", "[a]:b", "x <y> z"] {
        let text: String = Lexer::new(line).split().iter().map(|t| t.value().to_string()).collect();
        assert_eq!(text, line);
    }
}

#[test]
fn escaped_characters_stay_text_in_any_context() {
    assert_eq!(lex("[a\\*b](c)"), expect(&[("[a", Text), ("*b](c)", Text)]));
    assert_eq!(lex("<a\\>b>"), expect(&[("<a", Text), (">b>", Text)]));
    assert_eq!(lex("a\\<br>"), expect(&[("a", Text), ("<br>", LineBreak)]));
}
