use rompiler::lexer::{Lexer, Token};
use rompiler::parser::all_tokens_fit;

#[test]
fn test_empty_input_returns_eof() {
    let mut lexer: Lexer<'_> = Lexer::new("");
    let my_token: Token = lexer.next_token();

    assert_eq!(my_token, Token::Eof);
}

#[test]
fn test_semicolon() {
    let mut lexer = Lexer::new(" ; ");
    let my_token: Token = lexer.next_token();

    assert_eq!(my_token, Token::Semicolon);
    let my_token2: Token = lexer.next_token();
    assert_eq!(my_token2, Token::Eof);
}

#[test]
fn test_single_digit_number() {
    let mut lexer = Lexer::new(" 5 ");
    let my_token: Token = lexer.next_token();

    assert_eq!(my_token, Token::Number(5));
}

#[test]
fn test_multi_digit_number() {
    let mut lexer = Lexer::new(" 505 ");
    let my_token: Token = lexer.next_token();

    assert_eq!(my_token, Token::Number(505));
}

#[test]
fn test_return() {
    let mut lexer = Lexer::new(" return 505 ");
    let my_token: Token = lexer.next_token();

    assert_eq!(my_token, Token::Return);
}

#[test]
fn test_full_statement() {
    let mut lexer = Lexer::new(" return 505; ");
    let return_token: Token = lexer.next_token();
    let number_token: Token = lexer.next_token();
    let semicolon_token: Token = lexer.next_token();
    let eof_token: Token = lexer.next_token();

    assert_eq!(return_token, Token::Return);
    assert_eq!(number_token, Token::Number(505));
    assert_eq!(semicolon_token, Token::Semicolon);
    assert_eq!(eof_token, Token::Eof);
}

#[test]
fn test_math_operators() {
    let mut lexer = Lexer::new("    + - * / ");
    let plus_token: Token = lexer.next_token();
    let minus_token: Token = lexer.next_token();
    let asterisk_token: Token = lexer.next_token();
    let slash_token: Token = lexer.next_token();

    assert_eq!(plus_token, Token::Plus);
    assert_eq!(minus_token, Token::Minus);
    assert_eq!(asterisk_token, Token::Asterisk);
    assert_eq!(slash_token, Token::Slash);
}

fn all_tokens(input: &str) -> Vec<Token> {
    let mut lexer = Lexer::new(input);
    let mut out = Vec::new();
    loop {
        let t = lexer.next_token();
        let end = t == Token::Eof;
        out.push(t);
        if end {
            return out;
        }
    }
}

#[test]
fn eof_repeats_at_end_of_input() {
    let mut lexer = Lexer::new("x  \t\n");
    assert_eq!(lexer.next_token(), Token::Identifier("x".to_string()));
    assert_eq!(lexer.next_token(), Token::Eof);
    assert_eq!(lexer.next_token(), Token::Eof);
    assert_eq!(lexer.next_token(), Token::Eof);
}

#[test]
fn keywords_and_identifiers() {
    assert_eq!(
        all_tokens("func var const return returns _x9 Func"),
        vec![
            Token::Function,
            Token::Var,
            Token::Const,
            Token::Return,
            Token::Identifier("returns".to_string()),
            Token::Identifier("_x9".to_string()),
            Token::Identifier("Func".to_string()),
            Token::Eof,
        ]
    );
}

#[test]
fn punctuation_tokens() {
    assert_eq!(
        all_tokens("(){}[]:,=&"),
        vec![
            Token::LeftParenthesis,
            Token::RightParenthesis,
            Token::LeftCurlyBrace,
            Token::RightCurlyBrace,
            Token::LeftBracket,
            Token::RightBracket,
            Token::Colon,
            Token::Comma,
            Token::Equals,
            Token::Ampersand,
            Token::Eof,
        ]
    );
}

#[test]
fn float_literal_keeps_its_text() {
    assert_eq!(
        all_tokens("3.14 7. 0.5"),
        vec![
            Token::Float("3.14".to_string()),
            Token::Number(7),
            Token::Illegal(".".to_string()),
            Token::Float("0.5".to_string()),
            Token::Eof,
        ]
    );
}

#[test]
fn illegal_characters() {
    assert_eq!(
        all_tokens("a$b é"),
        vec![
            Token::Identifier("a".to_string()),
            Token::Illegal("$".to_string()),
            Token::Identifier("b".to_string()),
            Token::Illegal("é".to_string()),
            Token::Eof,
        ]
    );
}

#[test]
fn number_then_word_splits() {
    assert_eq!(
        all_tokens("12ab"),
        vec![Token::Number(12), Token::Identifier("ab".to_string()), Token::Eof]
    );
}

#[test]
fn largest_number_fits() {
    assert_eq!(
        all_tokens("9223372036854775807"),
        vec![Token::Number(i64::MAX), Token::Eof]
    );
}

#[test]
fn unicode_whitespace_is_skipped() {
    assert_eq!(
        all_tokens("\u{a0}\u{2003}5\u{3000};"),
        vec![Token::Number(5), Token::Semicolon, Token::Eof]
    );
}

#[test]
fn number_too_large_for_i64_is_not_a_token() {
    let mut lexer = Lexer::new("1 9223372036854775808 2");
    assert_eq!(lexer.try_next_token(), Some(Token::Number(1)));
    assert_eq!(lexer.try_next_token(), None);
}

#[test]
fn all_tokens_fit_finds_a_number_too_large() {
    assert!(all_tokens_fit("func main() : i64 { return 9223372036854775807; }"));
    assert!(!all_tokens_fit("func main() : i64 { return 9223372036854775808; }"));
    assert!(!all_tokens_fit("x 99999999999999999999"));
    assert!(all_tokens_fit(""));
}

#[test]
fn leading_whitespace_does_not_change_tokens() {
    assert_eq!(all_tokens(" \t\n\u{a0} var x = 1;"), all_tokens("var x = 1;"));
}

#[test]
fn only_whitespace_left_gives_end_of_input() {
    let mut lexer = Lexer::new("a \u{2028}\t ");
    assert_eq!(lexer.next_token(), Token::Identifier("a".to_string()));
    assert_eq!(lexer.next_token(), Token::Eof);
    let mut lexer = Lexer::new("   .");
    assert_eq!(lexer.next_token(), Token::Illegal(".".to_string()));
}

#[test]
fn token_count_is_at_most_length_plus_one() {
    let input = "a;b;c";
    assert_eq!(all_tokens(input).len(), input.chars().count() + 1);
}
