use rusthon::lexer::{tokenize, LexError, Tokens};

#[test]
fn single_number_literal() {
    let toks = tokenize("12345".to_string()).unwrap();
    assert_eq!(toks, vec![Tokens::Number(12345), Tokens::EOF]);
}

#[test]
fn zero_literal() {
    let toks = tokenize("0".to_string()).unwrap();
    assert_eq!(toks, vec![Tokens::Number(0), Tokens::EOF]);
}

#[test]
fn largest_literal_fits() {
    let toks = tokenize("9223372036854775807".to_string()).unwrap();
    assert_eq!(toks, vec![Tokens::Number(i64::MAX), Tokens::EOF]);
}

#[test]
fn literal_past_the_domain_is_an_error() {
    let r = tokenize("9223372036854775808".to_string());
    assert_eq!(r, Err(LexError::NumberOverflow));
}

#[test]
fn long_zero_padded_literal() {
    let toks = tokenize("000000000000000000000042".to_string()).unwrap();
    assert_eq!(toks, vec![Tokens::Number(42), Tokens::EOF]);
}

#[test]
fn plain_identifier() {
    let toks = tokenize("foo".to_string()).unwrap();
    assert_eq!(toks, vec![Tokens::Ident("foo".to_string()), Tokens::EOF]);
}

#[test]
fn return_keyword() {
    let toks = tokenize("return".to_string()).unwrap();
    assert_eq!(toks, vec![Tokens::Return, Tokens::EOF]);
}

#[test]
fn var_keyword() {
    let toks = tokenize("var".to_string()).unwrap();
    assert_eq!(toks, vec![Tokens::Var, Tokens::EOF]);
}

#[test]
fn keyword_prefix_is_an_identifier() {
    let toks = tokenize("returns".to_string()).unwrap();
    assert_eq!(toks, vec![Tokens::Ident("returns".to_string()), Tokens::EOF]);
}

#[test]
fn whitespace_is_skipped() {
    let toks = tokenize("  \t\n 42 \r\n ".to_string()).unwrap();
    assert_eq!(toks, vec![Tokens::Number(42), Tokens::EOF]);
}

#[test]
fn empty_input_is_only_the_end_marker() {
    let toks = tokenize(String::new()).unwrap();
    assert_eq!(toks, vec![Tokens::EOF]);
}

#[test]
fn punctuation_maps_one_to_one() {
    let toks = tokenize("; + - * / ( ) =".to_string()).unwrap();
    assert_eq!(
        toks,
        vec![
            Tokens::SemiColon,
            Tokens::Plus,
            Tokens::Minus,
            Tokens::Star,
            Tokens::Slash,
            Tokens::LParen,
            Tokens::RParen,
            Tokens::Assign,
            Tokens::EOF,
        ]
    );
}

#[test]
fn declaration_token_stream() {
    let toks = tokenize("var x = 5;".to_string()).unwrap();
    assert_eq!(
        toks,
        vec![
            Tokens::Var,
            Tokens::Ident("x".to_string()),
            Tokens::Assign,
            Tokens::Number(5),
            Tokens::SemiColon,
            Tokens::EOF,
        ]
    );
}

#[test]
fn unrecognized_character_is_an_error() {
    let r = tokenize("@".to_string());
    assert_eq!(r, Err(LexError::UnrecognizedChar('@')));
}

#[test]
fn unrecognized_character_after_tokens() {
    let r = tokenize("1 + #".to_string());
    assert_eq!(r, Err(LexError::UnrecognizedChar('#')));
}

#[test]
fn digits_end_an_identifier_run() {
    let toks = tokenize("ab1".to_string()).unwrap();
    assert_eq!(
        toks,
        vec![
            Tokens::Ident("ab".to_string()),
            Tokens::Number(1),
            Tokens::EOF,
        ]
    );
}
