use skipper_db::parser::lexer::{tokenize, TokenKind};

fn kinds(input: &str) -> Vec<TokenKind> {
    tokenize(input)
        .unwrap()
        .into_iter()
        .map(|t| t.kind)
        .collect()
}

#[test]
fn lexes_select() {
    assert_eq!(
        kinds("SELECT id, name FROM users"),
        vec![
            TokenKind::Ident("SELECT".to_string()),
            TokenKind::Ident("id".to_string()),
            TokenKind::Comma,
            TokenKind::Ident("name".to_string()),
            TokenKind::Ident("FROM".to_string()),
            TokenKind::Ident("users".to_string()),
            TokenKind::Eof,
        ]
    );
}

#[test]
fn lexes_operators_and_punctuation() {
    assert_eq!(
        kinds("(* , ; = != < <= > >=)"),
        vec![
            TokenKind::LParen,
            TokenKind::Star,
            TokenKind::Comma,
            TokenKind::Semicolon,
            TokenKind::Eq,
            TokenKind::NotEq,
            TokenKind::Lt,
            TokenKind::LtEq,
            TokenKind::Gt,
            TokenKind::GtEq,
            TokenKind::RParen,
            TokenKind::Eof,
        ]
    );
}

#[test]
fn lexes_literals() {
    assert_eq!(
        kinds("42 -7 'Alice'"),
        vec![
            TokenKind::Int(42),
            TokenKind::Int(-7),
            TokenKind::Str("Alice".to_string()),
            TokenKind::Eof,
        ]
    );
}

#[test]
fn tracks_positions() {
    let tokens = tokenize("a >= 1").unwrap();
    assert_eq!(tokens[0].pos, 0);
    assert_eq!(tokens[1].pos, 2);
    assert_eq!(tokens[2].pos, 5);
}

#[test]
fn rejects_unterminated_string() {
    let e = tokenize("'oops").unwrap_err();
    assert_eq!(e.pos, 0);
    assert!(e.message.contains("unterminated"));
}

#[test]
fn rejects_unexpected_character() {
    assert!(tokenize("a @ b").is_err());
}

#[test]
fn last_token_is_eof_at_end_of_input() {
    let input = "SELECT * FROM t WHERE a <= 'x'";
    let tokens = tokenize(input).unwrap();
    let last = tokens.last().unwrap();
    assert_eq!(last.kind, TokenKind::Eof);
    assert_eq!(last.pos, input.len());
    for w in tokens.windows(2) {
        assert!(w[0].pos < w[1].pos);
    }
}

#[test]
fn empty_input_is_just_eof() {
    let tokens = tokenize("").unwrap();
    assert_eq!(tokens.len(), 1);
    assert_eq!(tokens[0].kind, TokenKind::Eof);
    assert_eq!(tokens[0].pos, 0);
}

#[test]
fn parse_error_text_names_position() {
    let e = tokenize("a @ b").unwrap_err();
    assert_eq!(e.pos, 2);
    assert!(e.to_string().starts_with("parse error at position 2: "));
}

#[test]
fn lexer_errors_say_what_they_found() {
    let e = tokenize("'oops").unwrap_err();
    assert_eq!((e.pos, e.message.as_str()), (0, "unterminated string literal, found end of input"));
    let e = tokenize("a ! b").unwrap_err();
    assert_eq!((e.pos, e.message.as_str()), (2, "expected '=' after '!', found ' '"));
    let e = tokenize("a !").unwrap_err();
    assert_eq!(e.message, "expected '=' after '!', found end of input");
    let e = tokenize("x = 99999999999999999999").unwrap_err();
    assert_eq!((e.pos, e.message.as_str()), (4, "integer literal out of range, found 99999999999999999999"));
    let e = tokenize("a @ b").unwrap_err();
    assert_eq!((e.pos, e.message.as_str()), (2, "unexpected character, found '@'"));
    assert_eq!(
        e.to_string(),
        "parse error at position 2: unexpected character, found '@'"
    );
}
