use little_scheme::buffer::InputBuffer;
use little_scheme::chars::CharClass;
use little_scheme::lexer::{is_float_text, lex_input, lex_whitespace, LexToken};
use little_scheme::parser::{parse_tokens, Expr};

#[test]
fn string_escaping() {
    // Input "a\"b" holds an escaped quote; input "a\\b" an escaped backslash.
    assert_eq!(
        lex_input("\"a\\\"b\"").unwrap(),
        vec![LexToken::String("a\"b".to_string())]
    );
    assert_eq!(
        lex_input("\"a\\\\b\"").unwrap(),
        vec![LexToken::String("a\\b".to_string())]
    );
}

#[test]
fn numeric_symbol_boundary() {
    assert_eq!(
        lex_input("-").unwrap(),
        vec![LexToken::Symbol("-".to_string())]
    );
    assert_eq!(
        lex_input("-1").unwrap(),
        vec![LexToken::Num("-1".to_string())]
    );
    match &lex_input("-1").unwrap()[0] {
        LexToken::Num(text) => assert_eq!(text.parse::<f64>().unwrap(), -1.0f64),
        _ => unreachable!(),
    }
    assert_eq!(
        lex_input("-0.1e-5").unwrap(),
        vec![LexToken::Num("-0.1e-5".to_string())]
    );
    match &lex_input("-0.1e-5").unwrap()[0] {
        LexToken::Num(text) => assert_eq!(text.parse::<f64>().unwrap(), -0.1e-5f64),
        _ => unreachable!(),
    }
    assert_eq!(
        lex_input("e").unwrap(),
        vec![LexToken::Symbol("e".to_string())]
    );
}

#[test]
fn whitespace_insensitivity() {
    let padded = lex_input("  (  \"x\"   \"y\"  )  ").unwrap();
    let tight = lex_input("(\"x\" \"y\")").unwrap();

    assert_eq!(padded, tight);
    assert_eq!(
        parse_tokens(padded).unwrap(),
        parse_tokens(tight).unwrap()
    );
}

#[test]
fn float_text_matches_float_parsing() {
    // The lexer's own numeric check agrees with how the numeric text is
    // later read back as a floating-point value.
    let accepted = vec!["0", "-1", "123", "0.123", "-0.1e-5", "1.", ".5", "1e5", "1.e5"];
    for text in accepted {
        assert!(is_float_text(text));
        assert!(text.parse::<f64>().is_ok());
    }
    let rejected = vec!["", "-", "e", ".", "1.2.3", "1e", "1e-", "--1", "1-2", "1e2e3"];
    for text in rejected {
        assert!(!is_float_text(text));
        assert!(text.parse::<f64>().is_err());
    }
}

#[test]
fn full_program_brackets_and_forms() {
    let source = "
        (define (double n) (+ n n))

        (define (choose flag)
          (let ((doubled (double 2)))
            (cond
              (flag \"yes\")
              (#t (number->string doubled)))))

        (choose #t)
        ";

    let tokens = lex_input(source).unwrap();

    // The bracket tokens balance: never more closers than openers, and as
    // many of each in all.
    let mut depth: i64 = 0;
    for token in &tokens {
        match token {
            LexToken::LeftBracket => depth += 1,
            LexToken::RightBracket => {
                depth -= 1;
                assert!(depth >= 0);
            },
            _ => {},
        }
    }
    assert_eq!(depth, 0);

    // One top-level list per top-level form, nested as the source brackets.
    let forms = parse_tokens(tokens).unwrap();
    assert_eq!(forms.len(), 3);
    for form in &forms {
        assert!(matches!(form, Expr::List(_)));
    }
    match &forms[0] {
        Expr::List(items) => {
            assert_eq!(items[0], Expr::Symbol("define".to_string()));
            assert!(matches!(items[1], Expr::List(_)));
            assert!(matches!(items[2], Expr::List(_)));
        },
        _ => unreachable!(),
    }
}

fn count_nodes(e: &Expr) -> usize {
    match e {
        Expr::List(children) => {
            let mut total: usize = 1;
            for child in children {
                total += count_nodes(child);
            }
            total
        },
        _ => 1,
    }
}

#[test]
fn round_trip_counts_nodes() {
    // One node per atom plus one per matched bracket pair.
    let forms = parse_tokens(lex_input("(a (b) c) d").unwrap()).unwrap();

    let mut total: usize = 0;
    for form in &forms {
        total += count_nodes(form);
    }
    // atoms: a b c d; pairs: 2
    assert_eq!(total, 6);
}

#[test]
fn buffer_scans_runs_and_whitespace() {
    let mut buffer = InputBuffer::from_input("abc  (1)");

    assert!(buffer.has_chars_remaining());
    assert!(buffer.next_char_is(CharClass::SymbolChar));
    assert_eq!(buffer.read_while(CharClass::SymbolChar), "abc".to_string());
    assert_eq!(buffer.take_while(CharClass::SymbolChar), "abc".to_string());
    assert!(lex_whitespace(&mut buffer));
    assert!(lex_whitespace(&mut buffer));
    assert_eq!(buffer.take_next(), '(');
    assert!(buffer.next_char_is(CharClass::NumericRun));
    buffer.skip(1);
    assert!(buffer.next_char_is(CharClass::Exactly(')')));
    assert!(!buffer.next_char_is(CharClass::Whitespace));
    buffer.skip(1);
    assert!(!buffer.has_chars_remaining());
}
