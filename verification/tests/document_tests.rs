use markdown_parser::{Block, MarkdownToken, ParsedToken, Parser};

fn text_block(s: &str) -> Block {
    Block {
        children: vec![ParsedToken::Text {
            content: s.to_owned(),
        }],
    }
}

#[test]
fn level_counts_hash_run() {
    let mut parser = Parser::new("#### four\n");
    let expected = Block {
        children: vec![ParsedToken::Header {
            level: 4,
            content: " four".to_owned(),
        }],
    };
    assert_eq!(parser.parse_hashtag().unwrap(), expected);
}

#[test]
fn failed_header_absorbs_hash_into_content() {
    let mut parser = Parser::with_current_at("hi # test fails", 1);
    assert!(parser.parse_hashtag().is_none());
    assert_eq!(
        parser.lexer_tokens,
        vec![MarkdownToken::Content("hi # test fails".to_owned())]
    );
}

#[test]
fn first_pass_is_idempotent() {
    let input = "a # b\r\n- c _x_ ## d";
    let mut once = Parser::new(input);
    once.first_pass();
    let mut twice = Parser::new(input);
    twice.first_pass();
    twice.first_pass();
    assert_eq!(once.lexer_tokens, twice.lexer_tokens);
}

#[test]
fn first_pass_drops_carriage_returns_and_squashes_strays() {
    let mut parser = Parser::new("a # b\r\n");
    parser.first_pass();
    assert_eq!(
        parser.lexer_tokens,
        vec![
            MarkdownToken::Content("a # b".to_owned()),
            MarkdownToken::NewLine,
        ]
    );
}

#[test]
fn blank_line_separates_blocks() {
    let mut parser = Parser::new("para one\n\npara two");
    let blocks = parser.parse_document();
    assert_eq!(blocks, vec![text_block("para one"), text_block("para two")]);
}

#[test]
fn document_mixes_headers_and_paragraphs() {
    let mut parser = Parser::new("# title\nbody line\n\nsecond");
    let blocks = parser.parse_document();
    assert_eq!(
        blocks,
        vec![
            Block {
                children: vec![ParsedToken::Header {
                    level: 1,
                    content: " title".to_owned(),
                }],
            },
            text_block("body line"),
            text_block("second"),
        ]
    );
}

#[test]
fn link_construct_captures_text_and_target() {
    let mut parser = Parser::new("see [here](https://example.test) now");
    let blocks = parser.parse_document();
    assert_eq!(
        blocks,
        vec![Block {
            children: vec![
                ParsedToken::Text {
                    content: "see ".to_owned(),
                },
                ParsedToken::Link {
                    text: "here".to_owned(),
                    href: "https://example.test".to_owned(),
                },
                ParsedToken::Text {
                    content: " now".to_owned(),
                },
            ],
        }]
    );
}

#[test]
fn bold_and_italic_spans() {
    let mut parser = Parser::new("*strong* and _soft_");
    let blocks = parser.parse_document();
    assert_eq!(
        blocks,
        vec![Block {
            children: vec![
                ParsedToken::Bold {
                    content: "strong".to_owned(),
                },
                ParsedToken::Text {
                    content: " and ".to_owned(),
                },
                ParsedToken::Italic {
                    content: "soft".to_owned(),
                },
            ],
        }]
    );
}

#[test]
fn unclosed_marker_degrades_to_text() {
    let mut parser = Parser::new("a *b and [c](d");
    let blocks = parser.parse_document();
    assert_eq!(blocks, vec![text_block("a *b and [c](d")]);
}

#[test]
fn crlf_folds_before_parsing() {
    let mut parser = Parser::new("## h\r\nrest");
    let blocks = parser.parse_document();
    assert_eq!(
        blocks,
        vec![
            Block {
                children: vec![ParsedToken::Header {
                    level: 2,
                    content: " h".to_owned(),
                }],
            },
            text_block("rest"),
        ]
    );
}

#[test]
fn header_interrupts_paragraph() {
    let mut parser = Parser::new("lead\n# head\n");
    let blocks = parser.parse_document();
    assert_eq!(
        blocks,
        vec![
            text_block("lead"),
            Block {
                children: vec![ParsedToken::Header {
                    level: 1,
                    content: " head".to_owned(),
                }],
            },
        ]
    );
}

#[test]
fn empty_document_has_no_blocks() {
    let mut parser = Parser::new("");
    assert!(parser.parse_document().is_empty());
    let mut blank = Parser::new("\n\n\n");
    assert!(blank.parse_document().is_empty());
}

#[test]
fn next_block_dispatch_and_fallback() {
    let mut parser = Parser::new("# t\nplain");
    let header = parser.parse_next_block().unwrap();
    assert_eq!(
        header,
        Block {
            children: vec![ParsedToken::Header {
                level: 1,
                content: " t".to_owned(),
            }],
        }
    );
    assert!(parser.parse_next_block().is_none());
    let para = parser.parse_paragraph();
    assert_eq!(para, text_block("plain"));
}

#[test]
fn failed_construct_at_block_start_is_squashed() {
    let mut parser = Parser::new("*x");
    assert!(parser.parse_next_block().is_none());
    assert_eq!(
        parser.lexer_tokens,
        vec![MarkdownToken::Content("*x".to_owned())]
    );
}
