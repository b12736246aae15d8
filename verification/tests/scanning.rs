use rustlox::scanner::Scanner;
use rustlox::scanner::Token;
use rustlox::scanner::TokenType;

fn scan_all(source: &[u8]) -> Vec<Token> {
    let mut scanner = Scanner::new();
    let mut tokens = Vec::new();
    loop {
        let token = scanner.scan_token(source);
        let done = token.token_type == TokenType::Eof;
        tokens.push(token);
        if done {
            return tokens;
        }
    }
}

fn types_of(source: &[u8]) -> Vec<TokenType> {
    scan_all(source).iter().map(|t| t.token_type).collect()
}

#[test]
fn single_character_tokens() {
    assert_eq!(
        types_of(b"(){},.-+;/*"),
        vec![
            TokenType::LeftParen,
            TokenType::RightParen,
            TokenType::LeftBrace,
            TokenType::RightBrace,
            TokenType::Comma,
            TokenType::Dot,
            TokenType::Minus,
            TokenType::Plus,
            TokenType::Semicolon,
            TokenType::Slash,
            TokenType::Star,
            TokenType::Eof,
        ]
    );
}

#[test]
fn one_or_two_character_tokens() {
    assert_eq!(
        types_of(b"! != = == < <= > >="),
        vec![
            TokenType::Bang,
            TokenType::BangEqual,
            TokenType::Equal,
            TokenType::EqualEqual,
            TokenType::Less,
            TokenType::LessEqual,
            TokenType::Greater,
            TokenType::GreaterEqual,
            TokenType::Eof,
        ]
    );
}

#[test]
fn two_character_token_at_end_of_input_does_not_overread() {
    assert_eq!(types_of(b"!"), vec![TokenType::Bang, TokenType::Eof]);
    assert_eq!(types_of(b"<"), vec![TokenType::Less, TokenType::Eof]);
}

#[test]
fn keywords_are_recognized() {
    let source: &[u8] =
        b"and class else false for fun if nil or print return super this true var while";
    assert_eq!(
        types_of(source),
        vec![
            TokenType::And,
            TokenType::Class,
            TokenType::Else,
            TokenType::False,
            TokenType::For,
            TokenType::Fun,
            TokenType::If,
            TokenType::Nil,
            TokenType::Or,
            TokenType::Print,
            TokenType::Return,
            TokenType::Super,
            TokenType::This,
            TokenType::True,
            TokenType::Var,
            TokenType::While,
            TokenType::Eof,
        ]
    );
}

#[test]
fn near_keywords_are_identifiers() {
    assert_eq!(
        types_of(b"andy fals fort classs _var t f"),
        vec![
            TokenType::Identifier,
            TokenType::Identifier,
            TokenType::Identifier,
            TokenType::Identifier,
            TokenType::Identifier,
            TokenType::Identifier,
            TokenType::Identifier,
            TokenType::Eof,
        ]
    );
}

#[test]
fn number_lexemes() {
    let tokens = scan_all(b"12 3.25 7.");
    assert_eq!(tokens[0].token_type, TokenType::Number);
    assert_eq!((tokens[0].label_start, tokens[0].label_end), (0, 2));
    assert_eq!(tokens[1].token_type, TokenType::Number);
    assert_eq!((tokens[1].label_start, tokens[1].label_end), (3, 7));
    // A dot with no following digit is not part of the number.
    assert_eq!(tokens[2].token_type, TokenType::Number);
    assert_eq!((tokens[2].label_start, tokens[2].label_end), (8, 9));
    assert_eq!(tokens[3].token_type, TokenType::Dot);
}

#[test]
fn string_lexeme_includes_quotes_and_tracks_lines() {
    let tokens = scan_all(b"\"hi\nthere\" 4");
    assert_eq!(tokens[0].token_type, TokenType::String);
    assert_eq!((tokens[0].label_start, tokens[0].label_end), (0, 10));
    assert_eq!(tokens[0].line, 2);
    assert_eq!(tokens[1].token_type, TokenType::Number);
    assert_eq!(tokens[1].line, 2);
}

#[test]
fn unterminated_string_is_an_error_token() {
    let tokens = scan_all(b"\"abc");
    assert_eq!(tokens[0].token_type, TokenType::Error);
    assert_eq!((tokens[0].label_start, tokens[0].label_end), (0, 0));
    assert_eq!(tokens[1].token_type, TokenType::Eof);
}

#[test]
fn unknown_character_is_an_error_token_with_empty_range() {
    let tokens = scan_all(b"@1");
    assert_eq!(tokens[0].token_type, TokenType::Error);
    assert_eq!((tokens[0].label_start, tokens[0].label_end), (0, 0));
    assert_eq!(tokens[1].token_type, TokenType::Number);
    assert_eq!(tokens[2].token_type, TokenType::Eof);
}

#[test]
fn whitespace_and_comments_are_skipped() {
    let tokens = scan_all(b"  \t\r // note\n  1 // trailing");
    assert_eq!(tokens[0].token_type, TokenType::Number);
    assert_eq!(tokens[0].line, 2);
    assert_eq!((tokens[0].label_start, tokens[0].label_end), (15, 16));
    assert_eq!(tokens[1].token_type, TokenType::Eof);
}

#[test]
fn lone_slash_is_not_a_comment() {
    assert_eq!(
        types_of(b"1 / 2"),
        vec![TokenType::Number, TokenType::Slash, TokenType::Number, TokenType::Eof]
    );
}

#[test]
fn newlines_increment_the_line_counter() {
    let tokens = scan_all(b"1\n2\n\n3");
    assert_eq!(tokens[0].line, 1);
    assert_eq!(tokens[1].line, 2);
    assert_eq!(tokens[2].line, 4);
    assert_eq!(tokens[3].line, 4);
}

#[test]
fn end_of_input_repeats_forever() {
    let source: &[u8] = b"1";
    let mut scanner = Scanner::new();
    let first = scanner.scan_token(source);
    assert_eq!(first.token_type, TokenType::Number);
    for _ in 0..3 {
        let token = scanner.scan_token(source);
        assert_eq!(token.token_type, TokenType::Eof);
        assert_eq!((token.label_start, token.label_end), (1, 1));
    }
}

#[test]
fn empty_source_scans_to_end_of_input() {
    assert_eq!(types_of(b""), vec![TokenType::Eof]);
}
