use little_scheme::lexer::{lex_input, LexError, LexToken};

fn compare(input: &str, expected_output: Vec<LexToken>) {
    let actual_output = lex_input(input).unwrap();

    assert_eq!(actual_output, expected_output);
}

fn num_value(token: &LexToken) -> f64 {
    match token {
        LexToken::Num(text) => text.parse::<f64>().unwrap(),
        _ => panic!("expected a number token"),
    }
}

#[test]
fn lex_brackets() {
    let input = "()";

    let expected_output = vec![LexToken::LeftBracket, LexToken::RightBracket];

    compare(input, expected_output);
}

#[test]
fn lex_string() {
    let tests = vec![
        (r#""scheme""#, LexToken::String("scheme".to_string())),
        (
            r#""little schemer""#,
            LexToken::String("little schemer".to_string()),
        ),
        (
            r#""\" double quote at start""#,
            LexToken::String("\" double quote at start".to_string()),
        ),
        (
            r#""double quote \" in middle""#,
            LexToken::String("double quote \" in middle".to_string()),
        ),
        (
            r#""double quote at end \"""#,
            LexToken::String("double quote at end \"".to_string()),
        ),
        (
            r#""\\ backslash at start""#,
            LexToken::String("\\ backslash at start".to_string()),
        ),
        (
            r#""backslash \\ in middle""#,
            LexToken::String("backslash \\ in middle".to_string()),
        ),
        (
            r#""backslash at end \\""#,
            LexToken::String("backslash at end \\".to_string()),
        ),
    ];

    for (input, expect) in tests {
        compare(input, vec![expect]);
    }
}

#[test]
fn lex_list_of_strings() {
    let input = r#"("little" "scheme")"#;

    let expected_output = vec![
        LexToken::LeftBracket,
        LexToken::String("little".to_string()),
        LexToken::String("scheme".to_string()),
        LexToken::RightBracket,
    ];

    compare(input, expected_output);
}

#[test]
fn lex_list_of_strings_with_whitespace() {
    let input = r#"  (  "little"   "scheme"  )  "#;

    let expected_output = vec![
        LexToken::LeftBracket,
        LexToken::String("little".to_string()),
        LexToken::String("scheme".to_string()),
        LexToken::RightBracket,
    ];

    compare(input, expected_output);
}

#[test]
fn lex_number() {
    let tests = vec![
        ("123", LexToken::Num("123".to_string()), 123f64),
        ("0.123", LexToken::Num("0.123".to_string()), 0.123f64),
        ("-0.1e-5", LexToken::Num("-0.1e-5".to_string()), -0.1e-5f64),
    ];

    for (input, expect, value) in tests {
        let actual = lex_input(input).unwrap();
        assert_eq!(actual, vec![expect]);
        assert_eq!(num_value(&actual[0]), value);
    }
}

#[test]
fn lex_list_of_numbers() {
    let input = "(123 0.123 -0.1e-5)";

    let expected_output = vec![
        LexToken::LeftBracket,
        LexToken::Num("123".to_string()),
        LexToken::Num("0.123".to_string()),
        LexToken::Num("-0.1e-5".to_string()),
        LexToken::RightBracket,
    ];

    let actual = lex_input(input).unwrap();
    assert_eq!(actual, expected_output);
    assert_eq!(num_value(&actual[1]), 123f64);
    assert_eq!(num_value(&actual[2]), 0.123f64);
    assert_eq!(num_value(&actual[3]), -0.1e-5f64);
}

#[test]
fn lex_symbol() {
    let tests = vec![
        ("some_func", LexToken::Symbol("some_func".to_string())),
        ("+", LexToken::Symbol("+".to_string())),
        (",", LexToken::Symbol(",".to_string())),
        ("-", LexToken::Symbol("-".to_string())),
        ("e", LexToken::Symbol("e".to_string())),
        ("#symbol", LexToken::Symbol("#symbol".to_string())),
    ];

    for (input, expect) in tests {
        compare(input, vec![expect]);
    }
}

#[test]
fn lex_list_of_symbols() {
    let input = "(somefunc #some_symbol +)";

    let expected_output = vec![
        LexToken::LeftBracket,
        LexToken::Symbol("somefunc".to_string()),
        LexToken::Symbol("#some_symbol".to_string()),
        LexToken::Symbol("+".to_string()),
        LexToken::RightBracket,
    ];

    compare(input, expected_output);
}

#[test]
fn lex_fizzbuzz() {
    let input = r#"
        (define (fizzable num) (= 0 (modulo num 3)))
        (define (buzzable num) (= 0 (modulo num 5)))

        (define (fizzbuzz num)
          (let ((isFizzable (fizzable num))
                (isBuzzable (buzzable num)))
            (cond
              ((and isFizzable isBuzzable) "fizzbuzz")
              (isFizzable "fizz")
              (isBuzzable "buzz")
              (#t (number->string num)))))

        (define (fizzbuzzrange fromnum tonum)
          (display (fizzbuzz fromnum))
          (newline)

          (if (< fromnum tonum)
            (fizzbuzzrange (+ fromnum 1) tonum)))

        (fizzbuzzrange 1 100)
        "#;

    let expected_output = vec![
        // fizzable
        LexToken::LeftBracket,
        LexToken::Symbol("define".to_string()),
        LexToken::LeftBracket,
        LexToken::Symbol("fizzable".to_string()),
        LexToken::Symbol("num".to_string()),
        LexToken::RightBracket,
        LexToken::LeftBracket,
        LexToken::Symbol("=".to_string()),
        LexToken::Num("0".to_string()),
        LexToken::LeftBracket,
        LexToken::Symbol("modulo".to_string()),
        LexToken::Symbol("num".to_string()),
        LexToken::Num("3".to_string()),
        LexToken::RightBracket,
        LexToken::RightBracket,
        LexToken::RightBracket,
        // buzzable
        LexToken::LeftBracket,
        LexToken::Symbol("define".to_string()),
        LexToken::LeftBracket,
        LexToken::Symbol("buzzable".to_string()),
        LexToken::Symbol("num".to_string()),
        LexToken::RightBracket,
        LexToken::LeftBracket,
        LexToken::Symbol("=".to_string()),
        LexToken::Num("0".to_string()),
        LexToken::LeftBracket,
        LexToken::Symbol("modulo".to_string()),
        LexToken::Symbol("num".to_string()),
        LexToken::Num("5".to_string()),
        LexToken::RightBracket,
        LexToken::RightBracket,
        LexToken::RightBracket,
        // fizzbuzz
        LexToken::LeftBracket,
        LexToken::Symbol("define".to_string()),
        LexToken::LeftBracket,
        LexToken::Symbol("fizzbuzz".to_string()),
        LexToken::Symbol("num".to_string()),
        LexToken::RightBracket,
        LexToken::LeftBracket,
        LexToken::Symbol("let".to_string()),
        LexToken::LeftBracket,
        LexToken::LeftBracket,
        LexToken::Symbol("isFizzable".to_string()),
        LexToken::LeftBracket,
        LexToken::Symbol("fizzable".to_string()),
        LexToken::Symbol("num".to_string()),
        LexToken::RightBracket,
        LexToken::RightBracket,
        LexToken::LeftBracket,
        LexToken::Symbol("isBuzzable".to_string()),
        LexToken::LeftBracket,
        LexToken::Symbol("buzzable".to_string()),
        LexToken::Symbol("num".to_string()),
        LexToken::RightBracket,
        LexToken::RightBracket,
        LexToken::RightBracket,
        LexToken::LeftBracket,
        LexToken::Symbol("cond".to_string()),
        LexToken::LeftBracket,
        LexToken::LeftBracket,
        LexToken::Symbol("and".to_string()),
        LexToken::Symbol("isFizzable".to_string()),
        LexToken::Symbol("isBuzzable".to_string()),
        LexToken::RightBracket,
        LexToken::String("fizzbuzz".to_string()),
        LexToken::RightBracket,
        LexToken::LeftBracket,
        LexToken::Symbol("isFizzable".to_string()),
        LexToken::String("fizz".to_string()),
        LexToken::RightBracket,
        LexToken::LeftBracket,
        LexToken::Symbol("isBuzzable".to_string()),
        LexToken::String("buzz".to_string()),
        LexToken::RightBracket,
        LexToken::LeftBracket,
        LexToken::Symbol("#t".to_string()),
        LexToken::LeftBracket,
        LexToken::Symbol("number->string".to_string()),
        LexToken::Symbol("num".to_string()),
        LexToken::RightBracket,
        LexToken::RightBracket,
        LexToken::RightBracket,
        LexToken::RightBracket,
        LexToken::RightBracket,
        // fizzbuzzrange
        LexToken::LeftBracket,
        LexToken::Symbol("define".to_string()),
        LexToken::LeftBracket,
        LexToken::Symbol("fizzbuzzrange".to_string()),
        LexToken::Symbol("fromnum".to_string()),
        LexToken::Symbol("tonum".to_string()),
        LexToken::RightBracket,
        LexToken::LeftBracket,
        LexToken::Symbol("display".to_string()),
        LexToken::LeftBracket,
        LexToken::Symbol("fizzbuzz".to_string()),
        LexToken::Symbol("fromnum".to_string()),
        LexToken::RightBracket,
        LexToken::RightBracket,
        LexToken::LeftBracket,
        LexToken::Symbol("newline".to_string()),
        LexToken::RightBracket,
        LexToken::LeftBracket,
        LexToken::Symbol("if".to_string()),
        LexToken::LeftBracket,
        LexToken::Symbol("<".to_string()),
        LexToken::Symbol("fromnum".to_string()),
        LexToken::Symbol("tonum".to_string()),
        LexToken::RightBracket,
        LexToken::LeftBracket,
        LexToken::Symbol("fizzbuzzrange".to_string()),
        LexToken::LeftBracket,
        LexToken::Symbol("+".to_string()),
        LexToken::Symbol("fromnum".to_string()),
        LexToken::Num("1".to_string()),
        LexToken::RightBracket,
        LexToken::Symbol("tonum".to_string()),
        LexToken::RightBracket,
        LexToken::RightBracket,
        LexToken::RightBracket,
        // call to fizzbuzzrange
        LexToken::LeftBracket,
        LexToken::Symbol("fizzbuzzrange".to_string()),
        LexToken::Num("1".to_string()),
        LexToken::Num("100".to_string()),
        LexToken::RightBracket,
    ];

    compare(input, expected_output);
}

#[test]
fn lex_unterminated_string_fails() {
    assert_eq!(lex_input("\"abc"), Err(LexError::UnterminatedString));
    assert_eq!(lex_input("\"ends escaped \\\""), Err(LexError::UnterminatedString));
    assert_eq!(lex_input("(\"open"), Err(LexError::UnterminatedString));
}

#[test]
fn lex_permissive_escape() {
    // A backslash passes any following character through unchanged; only
    // quote and backslash are meaningful escape targets.
    compare(r#""a\nb""#, vec![LexToken::String("anb".to_string())]);
}

#[test]
fn lex_numeric_runs_that_are_no_numbers() {
    let tests = vec![
        ("1.2.3", LexToken::Symbol("1.2.3".to_string())),
        ("1e", LexToken::Symbol("1e".to_string())),
        ("1e-", LexToken::Symbol("1e-".to_string())),
        ("--1", LexToken::Symbol("--1".to_string())),
        ("1-2", LexToken::Symbol("1-2".to_string())),
        (".", LexToken::Symbol(".".to_string())),
        ("-.", LexToken::Symbol("-.".to_string())),
    ];

    for (input, expect) in tests {
        compare(input, vec![expect]);
    }
}

#[test]
fn lex_numeric_edge_literals() {
    let tests = vec![
        ("1.", 1f64),
        (".5", 0.5f64),
        ("-.5", -0.5f64),
        ("1e5", 1e5f64),
        ("1.e5", 1.0e5f64),
        ("1e-5", 1e-5f64),
    ];

    for (input, value) in tests {
        let actual = lex_input(input).unwrap();
        assert_eq!(actual, vec![LexToken::Num(input.to_string())]);
        assert_eq!(num_value(&actual[0]), value);
    }
}

#[test]
fn lex_unicode_text() {
    // Unicode whitespace separates tokens; a Unicode digit begins a numeric
    // run, which falls back to a symbol when it is no valid literal; other
    // non-ASCII characters belong to symbols.
    let actual = lex_input(" h\u{e9}llo\u{3000}\u{0663} ").unwrap();
    assert_eq!(
        actual,
        vec![
            LexToken::Symbol("h\u{e9}llo".to_string()),
            LexToken::Symbol("\u{0663}".to_string()),
        ]
    );
}
