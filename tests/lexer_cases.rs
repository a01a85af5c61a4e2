use md_lexer::lexer::Lexer;
use md_lexer::token::{Token, TokenKind};

fn exec_cases(cases: Vec<(&str, Vec<(&str, TokenKind)>)>) {
    for c in cases.iter() {
        let s = if c.0.ends_with('\n') {
            c.0.to_string()
        } else {
            let mut s1 = c.0.to_string();
            s1.push('\n');
            s1
        };

        assert_eq!(
            Lexer::new(s.as_str()).split(),
            c.1.iter()
                .map(|(v, k)| { Token::new(v.to_string(), *k) })
                .collect::<Vec<Token>>()
        );
    }
}

fn exec_generic_link_cases(cases: Vec<(&str, Vec<(&str, TokenKind, &str, &str, &str)>)>) {
    for c in cases.iter() {
        let s = if c.0.ends_with('\n') {
            c.0.to_string()
        } else {
            let mut s1 = c.0.to_string();
            s1.push('\n');
            s1
        };

        assert_eq!(
            Lexer::new(s.as_str()).split(),
            c.1.iter()
                .map(|(v, k, s1, s2, s3)| {
                    let mut t = Token::new(v.to_string(), *k);
                    match k {
                        TokenKind::Link | TokenKind::Image | TokenKind::QuickLink => {
                            t.insert_name(s1);
                            t.insert_location(s2);
                            t.insert_title(s3);
                        }
                        TokenKind::RefLink => {
                            t.insert_name(s1);
                            t.insert_reflink_tag(s2)
                        }
                        TokenKind::RefLinkDef => {
                            t.insert_reflink_tag(s1);
                            t.insert_location(s2);
                            t.insert_title(s3);
                        }
                        _ => (),
                    }
                    t
                })
                .collect::<Vec<Token>>()
        );
    }
}

#[test]
fn test_normal_text() {
    let cases = vec![
        ("这是我的一个学习 rust 编程语言的项目，我将尝试去开发一个强大的 markdown 编辑器。",
            vec![("这是我的一个学习 rust 编程语言的项目，我将尝试去开发一个强大的 markdown 编辑器。", TokenKind::Text)],
        ),
        ("--- x", vec![("--- x", TokenKind::Text)]),
        (
            "___ 这不是一个分界线",
            vec![
                ("___", TokenKind::Text),
                (" 这不是一个分界线", TokenKind::Text),
            ],
        ),
        ("#这不是标题", vec![("#这不是标题", TokenKind::Text)]),
        ("##这也不是标题", vec![("##这也不是标题", TokenKind::Text)]),
        (">这不是引用", vec![(">这不是引用", TokenKind::Text)]),
        ("1.这也不是列表", vec![("1.这也不是列表", TokenKind::Text)]),
        (
            "***xxxx",
            vec![("***", TokenKind::Text), ("xxxx", TokenKind::Text)],
        ),
    ];

    exec_cases(cases);
}

#[test]
fn test_bold_italic() {
    let cases = vec![
        (
            "**粗体**_斜体_***斜体+粗体***",
            vec![
                ("**", TokenKind::BoldMark),
                ("粗体", TokenKind::Text),
                ("**", TokenKind::BoldMark),
                ("_", TokenKind::ItalicMark),
                ("斜体", TokenKind::Text),
                ("_", TokenKind::ItalicMark),
                ("***", TokenKind::ItalicBoldMark),
                ("斜体+粗体", TokenKind::Text),
                ("***", TokenKind::ItalicBoldMark),
            ],
        ),
        (
            "**1** ****2***",
            vec![
                ("**", TokenKind::BoldMark),
                ("1", TokenKind::Text),
                ("**", TokenKind::BoldMark),
                (" ", TokenKind::Text),
                ("****", TokenKind::Text),
                ("2", TokenKind::Text),
                ("***", TokenKind::Text),
            ],
        ),
        (
            "**__2__**",
            vec![
                ("**", TokenKind::BoldMark),
                ("__", TokenKind::BoldMark),
                ("2", TokenKind::Text),
                ("__", TokenKind::BoldMark),
                ("**", TokenKind::BoldMark),
            ],
        ),
        (
            "**1**",
            vec![
                ("**", TokenKind::BoldMark),
                ("1", TokenKind::Text),
                ("**", TokenKind::BoldMark),
            ],
        ),
        (
            "*1*",
            vec![
                ("*", TokenKind::ItalicMark),
                ("1", TokenKind::Text),
                ("*", TokenKind::ItalicMark),
            ],
        ),
        (
            "*** 1 ***",
            vec![
                ("***", TokenKind::ItalicBoldMark),
                (" 1 ", TokenKind::Text),
                ("***", TokenKind::ItalicBoldMark),
            ],
        ),
        (
            "__1__",
            vec![
                ("__", TokenKind::BoldMark),
                ("1", TokenKind::Text),
                ("__", TokenKind::BoldMark),
            ],
        ),
        (
            "_1_",
            vec![
                ("_", TokenKind::ItalicMark),
                ("1", TokenKind::Text),
                ("_", TokenKind::ItalicMark),
            ],
        ),
        (
            "___ 1 ___",
            vec![
                ("___", TokenKind::ItalicBoldMark),
                (" 1 ", TokenKind::Text),
                ("___", TokenKind::ItalicBoldMark),
            ],
        ),
    ];

    exec_cases(cases);
}

#[test]
fn test_line_break() {
    let cases = vec![
        ("这是我的一个学习 rust 编程语言的项目，我将尝试去开发一个强大的 markdown 编辑器。  ",  // have two spaces at the end of the line.
            vec![("这是我的一个学习 rust 编程语言的项目，我将尝试去开发一个强大的 markdown 编辑器。", TokenKind::Text),
                ("<br>", TokenKind::LineBreak)],
        ),
        ("这是我的一个学习 rust 编程语言的项目，我将尝试去开发一个强大的 markdown 编辑器。       ", // have two tab spaces at the end of the line.
            vec![("这是我的一个学习 rust 编程语言的项目，我将尝试去开发一个强大的 markdown 编辑器。", TokenKind::Text),
                ("<br>", TokenKind::LineBreak)],
        ),
        ("这是我的一个学习 rust 编程语言的项目，我将尝试去开发一个强大的 markdown 编辑器。    <br>  ", // have two spaces at the end of the line.
            vec![("这是我的一个学习 rust 编程语言的项目，我将尝试去开发一个强大的 markdown 编辑器。    ", TokenKind::Text),
                ("<br>", TokenKind::LineBreak)],
        ),
        ("这是我的一个学习 rust 编程语言的项目，我将尝试去开发一个强大的 markdown 编辑器。<br>",
            vec![("这是我的一个学习 rust 编程语言的项目，我将尝试去开发一个强大的 markdown 编辑器。", TokenKind::Text),
                ("<br>", TokenKind::LineBreak)],
        ),
    ];

    exec_cases(cases);
}

#[test]
fn test_blank_line() {
    let cases = vec![
        ("\n", vec![("", TokenKind::BlankLine)]),
        (" \n", vec![(" ", TokenKind::BlankLine)]),
        ("     \n", vec![("     ", TokenKind::BlankLine)]),
        ("         ", vec![("         ", TokenKind::BlankLine)]),
        (
            "                                            ",
            vec![(
                "                                            ",
                TokenKind::BlankLine,
            )],
        ),
        ("  ", vec![("  ", TokenKind::BlankLine)]),
    ];

    exec_cases(cases);
}

#[test]
fn test_dividing() {
    let cases = vec![
        ("---", vec![("---", TokenKind::DividingMark)]),
        ("***", vec![("***", TokenKind::DividingMark)]),
        ("___", vec![("___", TokenKind::DividingMark)]),
        ("- -----", vec![("- -----", TokenKind::DividingMark)]),
        ("* * *", vec![("* * *", TokenKind::DividingMark)]),
        (
            "__ ________         ",
            vec![("__ ________         ", TokenKind::DividingMark)],
        ),
        (
            "----------------------------------------   ",
            vec![(
                "----------------------------------------   ",
                TokenKind::DividingMark,
            )],
        ),
    ];

    exec_cases(cases);
}

#[test]
fn test_code_in_line() {
    let cases = vec![
        (
            "`rust`",
            vec![
                ("`", TokenKind::CodeMark),
                ("rust", TokenKind::Text),
                ("`", TokenKind::CodeMark),
            ],
        ),
        (
            "``rust``",
            vec![
                ("``", TokenKind::CodeMark),
                ("rust", TokenKind::Text),
                ("``", TokenKind::CodeMark),
            ],
        ),
        (
            "rust```rust```",
            vec![
                ("rust", TokenKind::Text),
                ("```", TokenKind::CodeMark),
                ("rust", TokenKind::Text),
                ("```", TokenKind::CodeMark),
            ],
        ),
    ];

    exec_cases(cases);
}

#[test]
fn test_escape() {
    let cases = vec![
        (
            "\\`rust`",
            vec![("`rust", TokenKind::Text), ("`", TokenKind::Text)],
        ),
        (
            "\\`rust\\`",
            vec![("`rust", TokenKind::Text), ("`", TokenKind::Text)],
        ),
        (
            "\\***rust***",
            vec![
                ("*", TokenKind::Text),
                ("**", TokenKind::BoldMark),
                ("rust", TokenKind::Text),
                ("**", TokenKind::BoldMark),
                ("*", TokenKind::Text),
            ],
        ),
        (
            "\\***rust**\\*",
            vec![
                ("*", TokenKind::Text),
                ("**", TokenKind::BoldMark),
                ("rust", TokenKind::Text),
                ("**", TokenKind::BoldMark),
                ("*", TokenKind::Text),
            ],
        ),
    ];

    exec_cases(cases);
}

#[test]
fn test_image() {
    let cases = vec![
        (
            r#"![这是图片](/assets/img/philly-magic-garden.jpg "Magic Gardens")"#,
            vec![(
                r#"![这是图片](/assets/img/philly-magic-garden.jpg "Magic Gardens")"#,
                TokenKind::Image,
                "这是图片",
                "/assets/img/philly-magic-garden.jpg",
                "Magic Gardens",
            )],
        ),
        (
            r#"![](/assets/img/philly-magic-garden.jpg "Magic Gardens")"#,
            vec![(
                r#"![](/assets/img/philly-magic-garden.jpg "Magic Gardens")"#,
                TokenKind::Image,
                "",
                "/assets/img/philly-magic-garden.jpg",
                "Magic Gardens",
            )],
        ),
        (
            r#"![](/assets/img/philly-magic-garden.jpg 'Magic Gardens')"#,
            vec![(
                r#"![](/assets/img/philly-magic-garden.jpg 'Magic Gardens')"#,
                TokenKind::Image,
                "",
                "/assets/img/philly-magic-garden.jpg",
                "Magic Gardens",
            )],
        ),
        (
            "![](/assets/img/philly-magic-garden.jpg Magic Gardens)",
            vec![(
                "![](/assets/img/philly-magic-garden.jpg Magic Gardens)",
                TokenKind::Text,
                "",
                "",
                "",
            )],
        ),
        (
            r#"![](/assets/img/philly-magic-garden.jpg "Magic" Gardens)"#,
            vec![(
                r#"![](/assets/img/philly-magic-garden.jpg "Magic" Gardens)"#,
                TokenKind::Text,
                "",
                "",
                "",
            )],
        ),
        (
            r#"![](/assets/img/philly-magic-garden.jpg "Magic Gardens)"#,
            vec![(
                r#"![](/assets/img/philly-magic-garden.jpg "Magic Gardens)"#,
                TokenKind::Text,
                "",
                "",
                "",
            )],
        ),
        ("![]()", vec![("![]()", TokenKind::Image, "", "", "")]),
        (
            "![[[[[[]()",
            vec![("![[[[[[]()", TokenKind::Image, "[[[[[", "", "")],
        ),
        ("![[]]()", vec![("![[]]()", TokenKind::Image, "[]", "", "")]),
        ("![!]()", vec![("![!]()", TokenKind::Image, "!", "", "")]),
        (
            "![![]]()",
            vec![("![![]]()", TokenKind::Image, "![]", "", "")],
        ),
    ];

    exec_generic_link_cases(cases);
}

#[test]
fn test_link() {
    let cases = vec![
        (
            "[这是链接](/assets/img/philly-magic-garden.jpg \"Magic Gardens\")",
            vec![(
                "[这是链接](/assets/img/philly-magic-garden.jpg \"Magic Gardens\")",
                TokenKind::Link,
                "这是链接",
                "/assets/img/philly-magic-garden.jpg",
                "Magic Gardens",
            )],
        ),
        (
            "[](/assets/img/philly-magic-garden.jpg \"Magic Gardens\")",
            vec![(
                "[](/assets/img/philly-magic-garden.jpg \"Magic Gardens\")",
                TokenKind::Link,
                "",
                "/assets/img/philly-magic-garden.jpg",
                "Magic Gardens",
            )],
        ),
        ("[]()", vec![("[]()", TokenKind::Link, "", "", "")]),
        ("[]]()", vec![("[]]()", TokenKind::Link, "]", "", "")]),
        ("[]]]]()", vec![("[]]]]()", TokenKind::Link, "]]]", "", "")]),
        ("[!]]()", vec![("[!]]()", TokenKind::Link, "!]", "", "")]),
    ];

    exec_generic_link_cases(cases);
}

#[test]
fn test_title() {
    let cases = vec![
        (
            "# header1",
            vec![("#", TokenKind::TitleMark), ("header1", TokenKind::Text)],
        ),
        (
            "## header2",
            vec![("##", TokenKind::TitleMark), ("header2", TokenKind::Text)],
        ),
        (
            "### header3 header3",
            vec![
                ("###", TokenKind::TitleMark),
                ("header3 header3", TokenKind::Text),
            ],
        ),
        (
            "####  header4",
            vec![
                ("####", TokenKind::TitleMark),
                (" header4", TokenKind::Text),
            ],
        ),
        ("# ", vec![("#", TokenKind::TitleMark)]),
        ("#  ", vec![("#", TokenKind::TitleMark)]),
    ];
    exec_cases(cases);
}

#[test]
fn test_quote() {
    let cases = vec![(
        "> Rust, A language empowering everyone to build reliable and efficient software.",
        vec![(">", TokenKind::QuoteMark), (
            "Rust, A language empowering everyone to build reliable and efficient software.",
            TokenKind::Text,
        )],
    )];
    exec_cases(cases);
}

#[test]
fn test_unordered_list() {
    let cases = vec![(
        "* rust",
        vec![("*", TokenKind::UnorderedMark), ("rust", TokenKind::Text)],
    )];
    exec_cases(cases);
}

#[test]
fn test_ordered_list() {
    let cases = vec![
        (
            "1. rust",
            vec![("1.", TokenKind::OrderedMark), ("rust", TokenKind::Text)],
        ),
        (
            "2. rust",
            vec![("2.", TokenKind::OrderedMark), ("rust", TokenKind::Text)],
        ),
        (
            "3. rust",
            vec![("3.", TokenKind::OrderedMark), ("rust", TokenKind::Text)],
        ),
        (
            "10. rust",
            vec![("10.", TokenKind::OrderedMark), ("rust", TokenKind::Text)],
        ),
        (
            "20. rust",
            vec![("20.", TokenKind::OrderedMark), ("rust", TokenKind::Text)],
        ),
        (
            "100. rust",
            vec![("100.", TokenKind::OrderedMark), ("rust", TokenKind::Text)],
        ),
        (
            "999. rust",
            vec![("999.", TokenKind::OrderedMark), ("rust", TokenKind::Text)],
        ),
    ];
    exec_cases(cases);
}

#[test]
fn test_code_block_mark() {
    let cases = vec![
        ("```", vec![("```", TokenKind::CodeBlockMark)]),
        (
            "```rust",
            vec![("```", TokenKind::CodeBlockMark), ("rust", TokenKind::Text)],
        ),
    ];
    exec_cases(cases);
}

#[test]
fn test_auto_link() {
    let cases = vec![
        ("<>", vec![("<>", TokenKind::Text, "", "", "")]),
        (
            "<https://example.com",
            vec![("<https://example.com", TokenKind::Text, "", "", "")],
        ),
        (
            "<https://example.com>",
            vec![(
                "<https://example.com>",
                TokenKind::QuickLink,
                "https://example.com",
                "https://example.com",
                "",
            )],
        ),
        (
            "<  https://example.com >",
            vec![(
                "<  https://example.com >",
                TokenKind::QuickLink,
                "https://example.com",
                "https://example.com",
                "",
            )],
        ),
        (
            "auto link <  https://example.com >!",
            vec![
                ("auto link ", TokenKind::Text, "", "", ""),
                (
                    "<  https://example.com >",
                    TokenKind::QuickLink,
                    "https://example.com",
                    "https://example.com",
                    "",
                ),
                ("!", TokenKind::Text, "", "", ""),
            ],
        ),
        (
            "<user@example.com>",
            vec![(
                "<user@example.com>",
                TokenKind::QuickLink,
                "user@example.com",
                "user@example.com",
                "",
            )],
        ),
    ];
    exec_generic_link_cases(cases);
}

#[test]
fn test_reflink() {
    let cases = vec![
        (
            "[Example][link]",
            vec![("[Example][link]", TokenKind::RefLink, "Example", "link", "")],
        ),
        (
            "link: [Example][link].",
            vec![
                ("link: ", TokenKind::Text, "", "", ""),
                ("[Example][link]", TokenKind::RefLink, "Example", "link", ""),
                (".", TokenKind::Text, "", "", ""),
            ],
        ),
    ];
    exec_generic_link_cases(cases);
}

#[test]
fn test_reflink_def() {
    let cases = vec![
        (
            "[link]: https://example.com",
            vec![(
                "[link]: https://example.com",
                TokenKind::RefLinkDef,
                "link",
                "https://example.com",
                "",
            )],
        ),
        (
            "[link]: https://example.com \"example\"",
            vec![(
                "[link]: https://example.com \"example\"",
                TokenKind::RefLinkDef,
                "link",
                "https://example.com",
                "example",
            )],
        ),
    ];
    exec_generic_link_cases(cases);
}
