use lox_lang::scanner::{compile, Scanner};
use lox_lang::token::TokenType;

fn kinds(source: &str) -> Vec<TokenType> {
    compile(source).into_iter().map(|t| t.token_type).collect()
}

#[test]
fn scan_string_token() {
    let mut scanner = Scanner::init("\"slice\"");
    let token = scanner.scan_token();

    match &token.token_type {
        TokenType::String(x) => println!("{}", x),
        _ => println!("Unknown"),
    }

    assert_eq!(token.token_type, TokenType::String(String::from("slice\"")));
}

#[test]
fn scan_unterminated_string_token() {
    let mut scanner = Scanner::init("\"slice");
    let token = scanner.scan_token();

    assert_eq!(token.token_type, TokenType::Error("Unterminated string"));
}

#[test]
fn scan_with_whitespace() {
    let mut scanner = Scanner::init("  >=  ");
    let token = scanner.scan_token();

    assert_eq!(token.token_type, TokenType::GreaterEqual);
}

#[test]
fn scan_print() {
    let mut scanner = Scanner::init("print 1+2;");
    let token = scanner.scan_token().token_type;

    assert_eq!(token, TokenType::Print);
}

#[test]
fn scan_one_line() {
    assert_eq!(
        kinds("+ == /"),
        vec![TokenType::Plus, TokenType::EqualEqual, TokenType::Slash, TokenType::Eof]
    );
}

#[test]
fn scan_two_lines() {
    let tokens = compile("+ + \n-");
    let lines: Vec<usize> = tokens.iter().map(|t| t.line).collect();
    assert_eq!(lines, vec![1, 1, 2, 2]);
    assert_eq!(tokens[2].token_type, TokenType::Minus);
}

#[test]
fn scan_with_comment() {
    let tokens = compile("+#hello\n-");
    assert_eq!(tokens.len(), 3);
    assert_eq!(tokens[0].token_type, TokenType::Plus);
    assert_eq!(tokens[1].token_type, TokenType::Minus);
    assert_eq!(tokens[1].line, 2);
    assert_eq!(tokens[1].start, 8);
}

#[test]
fn scan_number() {
    assert_eq!(
        kinds("+90rust"),
        vec![TokenType::Plus, TokenType::Number, TokenType::Identifier, TokenType::Eof]
    );
}

#[test]
fn scan_decimal_number() {
    let tokens = compile("+93.5 = red fm");
    assert_eq!(tokens[1].token_type, TokenType::Number);
    assert_eq!((tokens[1].start, tokens[1].length), (1, 4));
    assert_eq!(tokens[2].token_type, TokenType::Equal);
    assert_eq!(tokens[3].token_type, TokenType::Identifier);
    assert_eq!(tokens[4].token_type, TokenType::Identifier);
    assert_eq!(tokens[5].token_type, TokenType::Eof);
}

#[test]
fn scan_number_plus_number() {
    let tokens = compile("2 + 3\n1 + 2 = 3");
    assert_eq!(tokens.len(), 9);
    assert_eq!(tokens[3].token_type, TokenType::Number);
    assert_eq!(tokens[3].line, 2);
    assert_eq!(tokens[6].token_type, TokenType::Equal);
}

#[test]
fn statement() {
    assert_eq!(
        kinds("fun main() {}"),
        vec![
            TokenType::Fun,
            TokenType::Identifier,
            TokenType::LeftParen,
            TokenType::RightParen,
            TokenType::LeftBrace,
            TokenType::RightBrace,
            TokenType::Eof,
        ]
    );
}

#[test]
fn keywords_separated_by_whitespace() {
    assert_eq!(
        kinds("and class else false for fun if nil or print return super this true var while"),
        vec![
            TokenType::And,
            TokenType::Class,
            TokenType::Else,
            TokenType::False,
            TokenType::For,
            TokenType::Fun,
            TokenType::If,
            TokenType::Nil,
            TokenType::Or,
            TokenType::Print,
            TokenType::Return,
            TokenType::Super,
            TokenType::This,
            TokenType::True,
            TokenType::Var,
            TokenType::While,
            TokenType::Eof,
        ]
    );
    assert_eq!(
        kinds("while\t\nor \r if"),
        vec![TokenType::While, TokenType::Or, TokenType::If, TokenType::Eof]
    );
}

#[test]
fn eof_repeats() {
    let mut scanner = Scanner::init("a # note");
    assert_eq!(scanner.scan_token().token_type, TokenType::Identifier);
    for _ in 0..3 {
        let token = scanner.scan_token();
        assert_eq!(token.token_type, TokenType::Eof);
        assert_eq!((token.start, token.length, token.line), (8, 0, 1));
    }
}

#[test]
fn empty_source_is_eof() {
    let mut scanner = Scanner::init("");
    assert_eq!(scanner.scan_token().token_type, TokenType::Eof);
    assert_eq!(scanner.scan_token().token_type, TokenType::Eof);
}

#[test]
fn keyword_prefix_and_extension_are_identifiers() {
    let mut scanner = Scanner::init("print");
    assert_eq!(scanner.scan_token().token_type, TokenType::Print);
    let mut scanner = Scanner::init("printer");
    assert_eq!(scanner.scan_token().token_type, TokenType::Identifier);
    assert_eq!(
        kinds("prin f fo th _if"),
        vec![
            TokenType::Identifier,
            TokenType::Identifier,
            TokenType::Identifier,
            TokenType::Identifier,
            TokenType::Identifier,
            TokenType::Eof,
        ]
    );
}

#[test]
fn operators_with_and_without_lookahead() {
    assert_eq!(
        kinds("! != = == < <= > >= (){};,-+/*"),
        vec![
            TokenType::Bang,
            TokenType::BangEqual,
            TokenType::Equal,
            TokenType::EqualEqual,
            TokenType::Less,
            TokenType::LessEqual,
            TokenType::Greater,
            TokenType::GreaterEqual,
            TokenType::LeftParen,
            TokenType::RightParen,
            TokenType::LeftBrace,
            TokenType::RightBrace,
            TokenType::Semicolon,
            TokenType::Comma,
            TokenType::Minus,
            TokenType::Plus,
            TokenType::Slash,
            TokenType::Star,
            TokenType::Eof,
        ]
    );
}

#[test]
fn unknown_byte_is_an_error_token() {
    let tokens = compile("1 . @");
    assert_eq!(tokens[1].token_type, TokenType::Error("Unknown token"));
    assert_eq!(tokens[2].token_type, TokenType::Error("Unknown token"));
    assert_eq!(tokens[3].token_type, TokenType::Eof);
}

#[test]
fn multiline_string_reports_line_where_it_ends() {
    let tokens = compile("\"a\nb\" x");
    assert_eq!(tokens[0].token_type, TokenType::String(String::from("a\nb\"")));
    assert_eq!((tokens[0].start, tokens[0].length, tokens[0].line), (0, 5, 2));
    assert_eq!(tokens[1].line, 2);
}

#[test]
fn unterminated_string_consumes_the_rest() {
    let tokens = compile("\"ab\ncd");
    assert_eq!(tokens[0].token_type, TokenType::Error("Unterminated string"));
    assert_eq!((tokens[0].length, tokens[0].line), (6, 2));
    assert_eq!(tokens.len(), 2);
}

#[test]
fn number_accepts_several_decimal_points() {
    let tokens = compile("1.2.3");
    assert_eq!(tokens[0].token_type, TokenType::Number);
    assert_eq!(tokens[0].length, 5);
}
