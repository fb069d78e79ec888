use cozoscript::script::parse::{BuildEvent, CSTreeParser, HoldStr, HoldUsize, SyntaxCozo, Token};
use cozoscript::script::tokenize::{tokenizer, TokenKind};

fn ascii(s: &str) -> Token {
    Token::HoldStr(HoldStr::AsciiAlpha(s.to_string()))
}

#[test]
fn tokenizer_groups_runs_of_one_kind() {
    assert_eq!(
        tokenizer("あいう4hello"),
        vec![
            Token::HoldStr(HoldStr::NonAsciiNonWhite("あいう".to_string())),
            Token::HoldStr(HoldStr::Numeric("4".to_string())),
            ascii("hello"),
        ]
    );
    assert_eq!(tokenizer("world_is"), vec![ascii("world"), Token::Else, ascii("is")]);
    assert_eq!(
        tokenizer("a   b"),
        vec![ascii("a"), Token::HoldUsize(HoldUsize::Spaces(3)), ascii("b")]
    );
    assert_eq!(tokenizer("44dd"), vec![
        Token::HoldStr(HoldStr::Numeric("44".to_string())),
        ascii("dd"),
    ]);
    assert_eq!(tokenizer("[,]"), vec![Token::Else, Token::Else, Token::Else]);
    assert_eq!(tokenizer("[["), vec![Token::Else]);
    assert!(tokenizer("").is_empty());
}

#[test]
fn tokenizer_unicode_classes() {
    assert_eq!(
        tokenizer("あ、の"),
        vec![
            Token::HoldStr(HoldStr::NonAsciiNonWhite("あ".to_string())),
            Token::Else,
            Token::HoldStr(HoldStr::NonAsciiNonWhite("の".to_string())),
        ]
    );
    assert_eq!(tokenizer("\u{3000}"), vec![Token::Else]);
}

#[test]
fn token_kind_of_chars() {
    assert_eq!(TokenKind::try_from(' '), Ok(TokenKind::AsciiSpace));
    assert_eq!(TokenKind::try_from('?'), Ok(TokenKind::QuestionMark));
    assert_eq!(TokenKind::try_from('7'), Ok(TokenKind::AsciiDigit));
    assert_eq!(TokenKind::try_from('q'), Ok(TokenKind::AsciiAlpha));
    assert_eq!(TokenKind::try_from('語'), Ok(TokenKind::Alpha));
    assert_eq!(TokenKind::try_from('\u{3000}'), Ok(TokenKind::Space));
    assert_eq!(TokenKind::try_from('_'), Ok(TokenKind::Else));
    assert_eq!(TokenKind::try_from('\n'), Ok(TokenKind::Linebreak));
}

#[test]
fn token_parts() {
    let t = ascii("ab");
    assert_eq!(t.hold_str(), Some(&HoldStr::AsciiAlpha("ab".to_string())));
    assert_eq!(t.hold_u8(), None);
    let s = Token::HoldUsize(HoldUsize::Tabs(2));
    assert_eq!(s.hold_u8(), Some(HoldUsize::Tabs(2)));
    assert_eq!(s.hold_str(), None);
    assert_eq!(HoldStr::Numeric("12".to_string()).unwrap(), "12");
    assert!(HoldStr::Numeric("12".to_string()).is_var_tail());
    assert!(!HoldStr::Numeric("12".to_string()).is_var_head());
    assert!(HoldStr::NonAsciiNonWhite("語".to_string()).is_var_head());
    assert_eq!(HoldUsize::Spaces(4).unwrap(), 4);
}

#[test]
fn parser_reads_a_var() {
    let mut p = CSTreeParser::new(tokenizer("hello "));
    assert_eq!(p.parse_checked(SyntaxCozo::Var), Some(Ok(())));
    assert_eq!(
        p.finish(),
        vec![
            BuildEvent::StartNode(SyntaxCozo::Var),
            BuildEvent::Token(SyntaxCozo::AsciiAlpha, "hello".to_string()),
        ]
    );
}

#[test]
fn parser_refuses_past_the_end() {
    let mut p = CSTreeParser::new(tokenizer("hello"));
    assert_eq!(p.parse_checked(SyntaxCozo::Var), None);
    let mut q = CSTreeParser::new(Vec::new());
    assert_eq!(q.parse_checked(SyntaxCozo::Var), None);
}

#[test]
fn parser_var_needs_a_letter_first() {
    let mut p = CSTreeParser::new(tokenizer("4 "));
    assert_eq!(
        p.parse_checked(SyntaxCozo::Var),
        Some(Err("var starts with AsciiAlpha/NonAsciiNonWhite".to_string()))
    );
}

#[test]
fn parser_skips_spaces() {
    let mut p = CSTreeParser::new(tokenizer("  x"));
    assert!(p.next_ascii_spaces());
    assert!(!p.next_ascii_spaces());
    let mut q = CSTreeParser::new(tokenizer("  x"));
    q.skip_ascii_spaces();
    q.skip_ascii_spaces();
    assert_eq!(q.finish(), vec![BuildEvent::StaticToken(SyntaxCozo::Space)]);
}

#[test]
fn syntax_static_text() {
    assert_eq!(SyntaxCozo::ArrowLeft.static_text(), Some("<-"));
    assert_eq!(SyntaxCozo::Space.static_text(), Some(" "));
    assert_eq!(SyntaxCozo::Var.static_text(), None);
}
