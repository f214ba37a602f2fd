use snail_core::sql::lexer::{Lexer, LexerError};
use snail_core::sql::token::Token;

fn lex(s: &str) -> Vec<Token> {
    Lexer::new(s).tokenize().unwrap()
}

#[test]
fn keywords_and_idents() {
    let tokens = lex("SELECT name FROM users");
    assert_eq!(
        tokens,
        vec![
            Token::Select,
            Token::Ident("name".to_string()),
            Token::From,
            Token::Ident("users".to_string()),
        ]
    );
}

#[test]
fn string_and_int_literals() {
    let tokens = lex("INSERT INTO t VALUES (1, 'alice')");
    assert!(tokens.contains(&Token::IntLiteral(1)));
    assert!(tokens.contains(&Token::TextLiteral("alice".to_string())));
}

#[test]
fn operators() {
    let tokens = lex("!= <= >= < > =");
    assert_eq!(
        tokens,
        vec![Token::NotEq, Token::Lte, Token::Gte, Token::Lt, Token::Gt, Token::Eq]
    );
}

#[test]
fn star_and_punctuation() {
    let tokens = lex("SELECT * FROM t;");
    assert_eq!(tokens[1], Token::Star);
    assert_eq!(tokens[4], Token::Semicolon);
}

#[test]
fn new_keywords() {
    let tokens = lex("UPDATE users SET age = 31 WHERE id = 1");
    assert_eq!(tokens[0], Token::Update);
    assert_eq!(tokens[2], Token::SetKw);

    let tokens = lex("DELETE FROM users WHERE id = 1");
    assert_eq!(tokens[0], Token::Delete);

    let tokens = lex("SELECT * FROM users ORDER BY age DESC LIMIT 5");
    assert!(tokens.contains(&Token::Order));
    assert!(tokens.contains(&Token::Desc));
    assert!(tokens.contains(&Token::Limit));
}

#[test]
fn join_keywords_and_dot() {
    let tokens = lex("SELECT users.name FROM users INNER JOIN orders ON users.id = orders.user_id");
    assert!(tokens.contains(&Token::Inner));
    assert!(tokens.contains(&Token::Join));
    assert!(tokens.contains(&Token::On));
    assert!(tokens.contains(&Token::Dot));
}

// ── Further cases ────────────────────────────────────────────────────────────

#[test]
fn keywords_any_case() {
    let tokens = lex("select Name from USERS where x");
    assert_eq!(
        tokens,
        vec![
            Token::Select,
            Token::Ident("Name".to_string()),
            Token::From,
            Token::Ident("USERS".to_string()),
            Token::Where,
            Token::Ident("x".to_string()),
        ]
    );
}

#[test]
fn empty_input_has_no_tokens() {
    assert_eq!(lex(""), Vec::<Token>::new());
    assert_eq!(lex("   \t\n "), Vec::<Token>::new());
}

#[test]
fn unterminated_string_is_error() {
    let r = Lexer::new("SELECT 'abc").tokenize();
    assert_eq!(r, Err(LexerError::UnterminatedString));
}

#[test]
fn unexpected_char_reports_byte_offset() {
    let r = Lexer::new("SELECT é #").tokenize();
    // 'é' is alphabetic and starts an identifier; the position is just past '#'.
    assert_eq!(r, Err(LexerError::UnexpectedChar('#', 11)));
}

#[test]
fn lone_bang_is_error() {
    let r = Lexer::new("a ! b").tokenize();
    assert_eq!(r, Err(LexerError::UnexpectedChar('!', 3)));
}

#[test]
fn identifiers_with_underscores_and_digits() {
    let tokens = lex("user_id2 _x");
    assert_eq!(
        tokens,
        vec![Token::Ident("user_id2".to_string()), Token::Ident("_x".to_string())]
    );
}

#[test]
fn large_integer_literal() {
    let tokens = lex("9223372036854775807");
    assert_eq!(tokens, vec![Token::IntLiteral(9223372036854775807)]);
}
