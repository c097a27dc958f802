use little_scheme::lexer::{lex_input, LexToken};
use little_scheme::parser::{parse_tokens, Expr, ParseError};

#[test]
fn parse_symbol() {
    let input = vec![LexToken::Symbol("little-schemer".to_string())];

    let expected_output = Expr::Symbol("little-schemer".to_string());

    let actual_output = parse_tokens(input).unwrap();

    assert_eq!(actual_output, vec![expected_output]);
}

#[test]
fn parse_atoms_in_order() {
    let input = vec![
        LexToken::Num("1".to_string()),
        LexToken::String("two".to_string()),
        LexToken::Symbol("three".to_string()),
    ];

    let expected_output = vec![
        Expr::Num("1".to_string()),
        Expr::String("two".to_string()),
        Expr::Symbol("three".to_string()),
    ];

    assert_eq!(parse_tokens(input).unwrap(), expected_output);
}

#[test]
fn parse_empty_input_is_no_form() {
    assert_eq!(parse_tokens(vec![]).unwrap(), vec![]);
}

#[test]
fn parse_empty_list() {
    let forms = parse_tokens(lex_input("()").unwrap()).unwrap();

    assert_eq!(forms, vec![Expr::List(vec![])]);
}

#[test]
fn parse_nested_lists() {
    let forms = parse_tokens(lex_input("(a (b) c)").unwrap()).unwrap();

    let expected = Expr::List(vec![
        Expr::Symbol("a".to_string()),
        Expr::List(vec![Expr::Symbol("b".to_string())]),
        Expr::Symbol("c".to_string()),
    ]);

    assert_eq!(forms, vec![expected]);
}

#[test]
fn parse_unmatched_open_fails() {
    assert_eq!(
        parse_tokens(lex_input("(a").unwrap()),
        Err(ParseError::UnmatchedOpen)
    );
    assert_eq!(
        parse_tokens(lex_input("((a)").unwrap()),
        Err(ParseError::UnmatchedOpen)
    );
}

#[test]
fn parse_unmatched_close_fails() {
    assert_eq!(
        parse_tokens(lex_input("a)").unwrap()),
        Err(ParseError::UnmatchedClose)
    );
    assert_eq!(
        parse_tokens(lex_input("(a))").unwrap()),
        Err(ParseError::UnmatchedClose)
    );
}
