use c_lexer::{Lexer, LexerError, Token};

fn lex(src: &str) -> Result<Vec<Token>, LexerError> {
    Lexer::new(src).tokenize_all()
}

fn main_tokens() -> Vec<Token> {
    vec![
        Token::KwInt,
        Token::Identifier("main".to_string()),
        Token::OpenParen,
        Token::CloseParen,
        Token::OpenBrace,
        Token::KwReturn,
        Token::Constant(0),
        Token::Semicolon,
        Token::CloseBrace,
    ]
}

#[test]
fn spaced_main_function() {
    assert_eq!(lex("int main ( ) { return 0 ; }"), Ok(main_tokens()));
}

#[test]
fn compact_main_function() {
    assert_eq!(lex("int main () { return 0; }"), Ok(main_tokens()));
}

#[test]
fn comments_are_transparent() {
    assert_eq!(lex("int/*c*/ main ( )//line\n{ return 0 ; }"), Ok(main_tokens()));
}

#[test]
fn keyword_prefix_is_identifier() {
    assert_eq!(lex("return1"), Ok(vec![Token::Identifier("return1".to_string())]));
}

#[test]
fn bare_keyword_is_keyword() {
    assert_eq!(lex("int"), Ok(vec![Token::KwInt]));
    assert_eq!(lex("void"), Ok(vec![Token::KwVoid]));
    assert_eq!(lex("return"), Ok(vec![Token::KwReturn]));
}

#[test]
fn keyword_lookalikes_are_identifiers() {
    assert_eq!(
        lex("Int voids _return in"),
        Ok(vec![
            Token::Identifier("Int".to_string()),
            Token::Identifier("voids".to_string()),
            Token::Identifier("_return".to_string()),
            Token::Identifier("in".to_string()),
        ])
    );
}

#[test]
fn digits_followed_by_letters() {
    assert_eq!(lex("123bar"), Err(LexerError::UnexpectedCharacter { char: '1', pos: 0 }));
}

#[test]
fn digits_followed_by_letters_after_tokens() {
    assert_eq!(lex("x = 12a"), Err(LexerError::UnexpectedCharacter { char: '=', pos: 2 }));
    assert_eq!(lex("x 12a"), Err(LexerError::UnexpectedCharacter { char: '1', pos: 2 }));
}

#[test]
fn integer_overflow() {
    assert_eq!(
        lex("99999999999"),
        Err(LexerError::InvalidInteger { value: "99999999999".to_string(), pos: 0 })
    );
}

#[test]
fn integer_limits() {
    assert_eq!(lex("2147483647"), Ok(vec![Token::Constant(2147483647)]));
    assert_eq!(
        lex("{ 2147483648"),
        Err(LexerError::InvalidInteger { value: "2147483648".to_string(), pos: 2 })
    );
    assert_eq!(lex("007"), Ok(vec![Token::Constant(7)]));
}

#[test]
fn unterminated_block_comment() {
    assert_eq!(lex("/* never closed"), Ok(vec![]));
    assert_eq!(lex("int /* never closed"), Ok(vec![Token::KwInt]));
}

#[test]
fn unknown_character() {
    assert_eq!(lex("$"), Err(LexerError::UnexpectedCharacter { char: '$', pos: 0 }));
}

#[test]
fn first_error_discards_tokens() {
    assert_eq!(lex("int main $ return"), Err(LexerError::UnexpectedCharacter { char: '$', pos: 9 }));
}

#[test]
fn multibyte_character_is_reported_whole() {
    assert_eq!(lex("ab é"), Err(LexerError::UnexpectedCharacter { char: 'é', pos: 3 }));
    assert_eq!(lex("aé"), Err(LexerError::UnexpectedCharacter { char: 'é', pos: 1 }));
}

#[test]
fn unicode_whitespace_is_skipped() {
    assert_eq!(
        lex("int\u{a0}x\u{3000};\u{2028}"),
        Ok(vec![Token::KwInt, Token::Identifier("x".to_string()), Token::Semicolon])
    );
}

#[test]
fn empty_and_trivia_only_input() {
    assert_eq!(lex(""), Ok(vec![]));
    assert_eq!(lex(" \t\r\n// only a comment"), Ok(vec![]));
    assert_eq!(lex("/**/ /* a */"), Ok(vec![]));
}

#[test]
fn lone_slash_is_unexpected() {
    assert_eq!(lex("a / b"), Err(LexerError::UnexpectedCharacter { char: '/', pos: 2 }));
    assert_eq!(lex("/*/"), Ok(vec![]));
}

#[test]
fn line_comment_stops_at_newline() {
    assert_eq!(lex("// c\n;"), Ok(vec![Token::Semicolon]));
}

#[test]
fn scanning_twice_gives_identical_results() {
    let src = String::from("int f ( void ) { return 42 ; }");
    let copy = src.clone();
    let first = lex(&src);
    let second = lex(&src);
    assert_eq!(first, second);
    assert_eq!(src, copy);
    let bad = "int 4294967296";
    assert_eq!(lex(bad), lex(bad));
}

#[test]
fn lexer_scans_once_to_the_end() {
    let mut lexer = Lexer::new("( )");
    assert_eq!(lexer.tokenize_all(), Ok(vec![Token::OpenParen, Token::CloseParen]));
    assert_eq!(lexer.tokenize_all(), Ok(vec![]));
}

#[test]
fn error_messages() {
    assert_eq!(
        LexerError::UnexpectedCharacter { char: '$', pos: 0 }.message(),
        "Unexpected character '$' at position 0"
    );
    assert_eq!(
        LexerError::InvalidInteger { value: "99999999999".to_string(), pos: 120 }.message(),
        "Invalid integer constant '99999999999' at position 120"
    );
    assert_eq!(LexerError::NoMatch { pos: 7 }.message(), "No token matched at position 7");
}
