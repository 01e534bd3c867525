use markdown_parser::{Lexer, MarkdownToken};

fn token_text(t: &MarkdownToken) -> String {
    match t {
        MarkdownToken::Hash => "#".to_owned(),
        MarkdownToken::Asterisk => "*".to_owned(),
        MarkdownToken::Underscore => "_".to_owned(),
        MarkdownToken::Backslash => "\\".to_owned(),
        MarkdownToken::OpenParen => "(".to_owned(),
        MarkdownToken::CloseParen => ")".to_owned(),
        MarkdownToken::OpenSquareBracket => "[".to_owned(),
        MarkdownToken::CloseSquareBracket => "]".to_owned(),
        MarkdownToken::Dash => "-".to_owned(),
        MarkdownToken::CarriageReturn => "\r".to_owned(),
        MarkdownToken::NewLine => "\n".to_owned(),
        MarkdownToken::EndOfInput => String::new(),
        MarkdownToken::Content(s) => s.clone(),
    }
}

fn drain(input: &str) -> Vec<MarkdownToken> {
    let mut lexer = Lexer::new(input);
    let mut tokens = Vec::new();
    while let Some(t) = lexer.next() {
        tokens.push(t);
    }
    tokens
}

#[test]
fn reconstruction_round_trip() {
    let inputs = [
        "",
        "plain text only",
        "# header\n",
        "a *b* _c_ [d](e) \\ - #\r\n\r\nnext paragraph",
        "#*_\\()[]-\r\n",
        "--##",
    ];
    for input in inputs {
        let rebuilt: String = drain(input).iter().map(token_text).collect();
        assert_eq!(rebuilt, *input);
    }
}

#[test]
fn markers_lex_one_token_each() {
    let tokens = drain("#*_\\()[]-\r\n");
    assert_eq!(
        tokens,
        vec![
            MarkdownToken::Hash,
            MarkdownToken::Asterisk,
            MarkdownToken::Underscore,
            MarkdownToken::Backslash,
            MarkdownToken::OpenParen,
            MarkdownToken::CloseParen,
            MarkdownToken::OpenSquareBracket,
            MarkdownToken::CloseSquareBracket,
            MarkdownToken::Dash,
            MarkdownToken::CarriageReturn,
            MarkdownToken::NewLine,
        ]
    );
}

#[test]
fn content_runs_are_maximal() {
    let tokens = drain("ab#cd");
    assert_eq!(
        tokens,
        vec![
            MarkdownToken::Content("ab".to_owned()),
            MarkdownToken::Hash,
            MarkdownToken::Content("cd".to_owned()),
        ]
    );
}

#[test]
fn empty_input_lexes_to_nothing() {
    assert!(drain("").is_empty());
}
