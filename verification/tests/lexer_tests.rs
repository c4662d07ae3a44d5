use murder::lexer::{lex, Lexeme, LogicOperator, TokenKind};

fn kinds(code: &str) -> Vec<TokenKind> {
    lex(code).iter().map(|l| l.kind).collect()
}

fn texts(code: &str) -> Vec<String> {
    let chars: Vec<char> = code.chars().collect();
    lex(code)
        .iter()
        .map(|l: &Lexeme| chars[l.start..l.end].iter().collect())
        .collect()
}

#[test]
fn keywords_beat_words_of_the_same_length() {
    assert_eq!(
        kinds("true false null if"),
        vec![
            TokenKind::Bool(true),
            TokenKind::Whitespace,
            TokenKind::Bool(false),
            TokenKind::Whitespace,
            TokenKind::Null,
            TokenKind::Whitespace,
            TokenKind::KeywordIf,
        ]
    );
}

#[test]
fn longer_words_are_text() {
    assert_eq!(kinds("iff truest"), vec![TokenKind::Text, TokenKind::Whitespace, TokenKind::Text]);
}

#[test]
fn punctuation_and_operators() {
    assert_eq!(
        kinds("{}[]=(),;:.->=>&&||"),
        vec![
            TokenKind::BraceOpen,
            TokenKind::BraceClose,
            TokenKind::BracketOpen,
            TokenKind::BracketClose,
            TokenKind::AssignEqual,
            TokenKind::ParenOpen,
            TokenKind::ParenClose,
            TokenKind::Comma,
            TokenKind::Semicolon,
            TokenKind::Colon,
            TokenKind::Period,
            TokenKind::Arrow,
            TokenKind::FatArrow,
            TokenKind::LogicOp(LogicOperator::And),
            TokenKind::LogicOp(LogicOperator::Or),
        ]
    );
}

#[test]
fn string_literals_keep_their_quotes() {
    assert_eq!(kinds("\"Hello, world!\""), vec![TokenKind::Str]);
    assert_eq!(texts("say(\"a b\")"), vec!["say", "(", "\"a b\"", ")"]);
}

#[test]
fn unmatched_characters_are_errors() {
    assert_eq!(texts("\"ab1\""), vec!["\"ab", "1", "\""]);
    assert_eq!(kinds("\"ab1\""), vec![TokenKind::Error; 3]);
    assert_eq!(texts("\"a-b\""), vec!["\"a", "-", "b", "\""]);
    assert_eq!(
        kinds("\"a-b\""),
        vec![TokenKind::Error, TokenKind::Error, TokenKind::Text, TokenKind::Error]
    );
    assert_eq!(kinds("-&|7é"), vec![TokenKind::Error; 5]);
}

#[test]
fn whitespace_runs_are_one_lexeme() {
    assert_eq!(kinds(" \t\n\u{3000}x"), vec![TokenKind::Whitespace, TokenKind::Text]);
}

#[test]
fn lexemes_rebuild_the_script() {
    let code = "if true && x { say(\"hi\") } # é";
    assert_eq!(texts(code).concat(), code);
    let ls = lex(code);
    assert_eq!(ls[0].start, 0);
    for w in ls.windows(2) {
        assert_eq!(w[0].end, w[1].start);
        assert!(w[0].start < w[0].end);
    }
    assert_eq!(ls.last().unwrap().end, code.chars().count());
}

#[test]
fn empty_script_has_no_lexemes() {
    assert!(lex("").is_empty());
}
