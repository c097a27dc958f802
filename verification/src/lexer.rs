//! The lexer: scans source text left to right and produces a token stream.
//!
//! Tokens are strings, numbers, brackets and symbols; whitespace separates
//! tokens and is consumed silently. The whole scan is specified by
//! [`spec_lex`], and [`lex_input`] is proved to return exactly its result.

use crate::buffer::{string_from_chars, InputBuffer};
use crate::chars::{
    ascii_digit, class_holds, class_matches, lemma_run_len_bounds, lemma_run_len_exact,
    numeric_run_char, run_len, symbol_char, unicode_whitespace, CharClass,
};
use vstd::prelude::*;
use vstd::string::StrSliceExecFns;

verus! {

/// A token of the source text. A number keeps the literal text it was
/// written with; what numeric value that text denotes is the caller's
/// business, not the reader's.
#[derive(Debug, PartialEq)]
pub enum LexToken {
    Num(String),
    Symbol(String),
    String(String),
    LeftBracket,
    RightBracket,
}

/// A token at the specification level: payloads are character sequences.
#[verifier::ext_equal]
pub enum SpecToken {
    Num(Seq<char>),
    Symbol(Seq<char>),
    String(Seq<char>),
    LeftBracket,
    RightBracket,
}

impl View for LexToken {
    type V = SpecToken;

    open spec fn view(&self) -> SpecToken {
        match self {
            LexToken::Num(s) => SpecToken::Num(s@),
            LexToken::Symbol(s) => SpecToken::Symbol(s@),
            LexToken::String(s) => SpecToken::String(s@),
            LexToken::LeftBracket => SpecToken::LeftBracket,
            LexToken::RightBracket => SpecToken::RightBracket,
        }
    }
}

/// The token sequence a token vector stands for.
pub open spec fn tokens_view(ts: Seq<LexToken>) -> Seq<SpecToken> {
    Seq::new(ts.len(), |i: int| ts[i]@)
}

/// How lexing fails.
#[derive(Clone, Copy, Debug, PartialEq, Eq, Structural)]
pub enum LexError {
    /// The input ended before the closing quote of a string token.
    UnterminatedString,
    /// A numeric run that parses as no number; the fall-through to symbol
    /// lexing means the lexer never actually raises it, and it is kept as a
    /// defensive case.
    InvalidNumber,
}

// ---------------------------------------------------------------------------
// Numeric literals
// ---------------------------------------------------------------------------

/// The length of the leading run of ASCII digits.
pub open spec fn digit_run(s: Seq<char>) -> nat {
    run_len(s, CharClass::Digit)
}

/// The length of a leading mantissa — digits, optionally split once by a
/// dot, with at least one digit in all — or None when there is none.
pub open spec fn mantissa_len(s: Seq<char>) -> Option<nat> {
    let d1 = digit_run(s);
    if d1 < s.len() && s[d1 as int] == '.' {
        let d2 = digit_run(s.skip(d1 as int + 1));
        if d1 == 0 && d2 == 0 {
            None
        } else {
            Some((d1 + 1 + d2) as nat)
        }
    } else {
        if d1 == 0 {
            None
        } else {
            Some(d1)
        }
    }
}

/// Whether `s` is an exponent part: `e`, an optional minus sign, then
/// digits reaching the end, at least one.
pub open spec fn is_exponent(s: Seq<char>) -> bool {
    s.len() >= 2 && s[0] == 'e' && {
        let t = if s[1] == '-' {
            s.skip(2)
        } else {
            s.skip(1)
        };
        t.len() > 0 && digit_run(t) == t.len()
    }
}

/// Whether `s` is a floating-point literal: an optional minus sign, a
/// mantissa, and an optional exponent. Over the characters a numeric run
/// can contain, these are exactly the strings Rust's floating-point parser
/// accepts.
pub open spec fn is_float_literal(s: Seq<char>) -> bool {
    let b = if s.len() > 0 && s[0] == '-' {
        s.skip(1)
    } else {
        s
    };
    match mantissa_len(b) {
        None => false,
        Some(m) => {
            let r = b.skip(m as int);
            r.len() == 0 || is_exponent(r)
        },
    }
}

// ---------------------------------------------------------------------------
// String tokens
// ---------------------------------------------------------------------------

/// Scans the body of a string token, the opening quote already consumed:
/// yields the token's characters and how many input characters the scan
/// used, the closing quote included; or None when the input ends first.
///
/// A backslash, when not itself escaped, makes the next character literal
/// whatever it is; only an unescaped quote ends the token.
pub open spec fn scan_string(s: Seq<char>, escaped: bool) -> Option<(Seq<char>, nat)>
    decreases s.len(),
{
    if s.len() == 0 {
        None
    } else if s[0] == '"' && !escaped {
        Some((Seq::empty(), 1nat))
    } else if s[0] == '\\' && !escaped {
        match scan_string(s.skip(1), true) {
            None => None,
            Some((content, used)) => Some((content, (used + 1) as nat)),
        }
    } else {
        match scan_string(s.skip(1), false) {
            None => None,
            Some((content, used)) => Some((seq![s[0]] + content, (used + 1) as nat)),
        }
    }
}

/// A successful string scan uses at least the closing quote and at most
/// the whole input.
pub proof fn lemma_scan_string_used(s: Seq<char>, escaped: bool)
    ensures
        scan_string(s, escaped) matches Some((content, used)) ==> 1 <= used <= s.len(),
    decreases s.len(),
{
    if s.len() > 0 && !(s[0] == '"' && !escaped) {
        if s[0] == '\\' && !escaped {
            lemma_scan_string_used(s.skip(1), true);
        } else {
            lemma_scan_string_used(s.skip(1), false);
        }
    }
}

// ---------------------------------------------------------------------------
// The scan
// ---------------------------------------------------------------------------

/// Puts one token in front of a lexing outcome.
pub open spec fn lex_cons(
    t: SpecToken,
    rest: Result<Seq<SpecToken>, LexError>,
) -> Result<Seq<SpecToken>, LexError> {
    match rest {
        Ok(ts) => Ok(seq![t] + ts),
        Err(e) => Err(e),
    }
}

/// The whole token stream of a source text, or the first error.
///
/// Dispatch on the first character tries, in fixed order: string, number,
/// brackets, whitespace, symbol. A numeric-looking run that is no valid
/// literal falls through to the later cases, so that `-` or `e` alone lex
/// as symbols.
pub open spec fn spec_lex(s: Seq<char>) -> Result<Seq<SpecToken>, LexError>
    decreases s.len(), 1int,
    via spec_lex_decreases
{
    if s.len() == 0 {
        Ok(Seq::empty())
    } else if s[0] == '"' {
        match scan_string(s.skip(1), false) {
            None => Err(LexError::UnterminatedString),
            Some((content, used)) => lex_cons(
                SpecToken::String(content),
                spec_lex(s.skip(1 + used as int)),
            ),
        }
    } else if numeric_run_char(s[0]) {
        let n = run_len(s, CharClass::NumericRun);
        if is_float_literal(s.take(n as int)) {
            lex_cons(SpecToken::Num(s.take(n as int)), spec_lex(s.skip(n as int)))
        } else {
            spec_lex_other(s)
        }
    } else {
        spec_lex_other(s)
    }
}

/// The later dispatch cases: brackets, whitespace, symbols.
pub open spec fn spec_lex_other(s: Seq<char>) -> Result<Seq<SpecToken>, LexError>
    decreases s.len(), 0int,
    via spec_lex_other_decreases
{
    if s.len() == 0 {
        Ok(Seq::empty())
    } else if s[0] == '(' {
        lex_cons(SpecToken::LeftBracket, spec_lex(s.skip(1)))
    } else if s[0] == ')' {
        lex_cons(SpecToken::RightBracket, spec_lex(s.skip(1)))
    } else if unicode_whitespace(s[0]) {
        spec_lex(s.skip(1))
    } else {
        let k = run_len(s, CharClass::SymbolChar);
        lex_cons(SpecToken::Symbol(s.take(k as int)), spec_lex(s.skip(k as int)))
    }
}

#[via_fn]
proof fn spec_lex_decreases(s: Seq<char>) {
    if s.len() > 0 && s[0] == '"' {
        lemma_scan_string_used(s.skip(1), false);
    }
    if s.len() > 0 && numeric_run_char(s[0]) {
        lemma_run_len_bounds(s, CharClass::NumericRun);
    }
}

#[via_fn]
proof fn spec_lex_other_decreases(s: Seq<char>) {
    if s.len() > 0 {
        lemma_run_len_bounds(s, CharClass::SymbolChar);
    }
}

/// The fall-through from a failed numeric run to symbol lexing keeps its
/// promise: lexing never reports an invalid number, whatever the text.
pub proof fn lemma_lex_never_invalid_number(s: Seq<char>)
    ensures
        spec_lex(s) != Err::<Seq<SpecToken>, LexError>(LexError::InvalidNumber),
        spec_lex_other(s) != Err::<Seq<SpecToken>, LexError>(LexError::InvalidNumber),
    decreases s.len(),
{
    if s.len() > 0 {
        lemma_run_len_bounds(s, CharClass::NumericRun);
        lemma_run_len_bounds(s, CharClass::SymbolChar);
        lemma_lex_never_invalid_number(s.skip(1));
        let k = run_len(s, CharClass::SymbolChar);
        if k > 0 {
            lemma_lex_never_invalid_number(s.skip(k as int));
        }
        if s[0] == '"' {
            match scan_string(s.skip(1), false) {
                None => {},
                Some((content, used)) => {
                    lemma_scan_string_used(s.skip(1), false);
                    lemma_lex_never_invalid_number(s.skip(1 + used as int));
                },
            }
        } else {
            let n = run_len(s, CharClass::NumericRun);
            if numeric_run_char(s[0]) && is_float_literal(s.take(n as int)) {
                lemma_lex_never_invalid_number(s.skip(n as int));
            }
        }
    }
}

// ---------------------------------------------------------------------------
// Executable numeric check
// ---------------------------------------------------------------------------

/// The length of the run of ASCII digits in `s` starting at `from`.
fn scan_digits(s: &str, from: usize) -> (n: usize)
    requires
        from as nat <= s@.len(),
    ensures
        n == digit_run(s@.skip(from as int)),
        from + n <= s@.len(),
{
    let len = s.unicode_len();
    let mut i: usize = from;
    while i < len && class_matches(&CharClass::Digit, s.get_char(i))
        invariant
            from <= i <= len,
            len as nat == s@.len(),
            forall|j: int| from <= j < i ==> ascii_digit(s@[j]),
        decreases len - i,
    {
        i = i + 1;
    }
    proof {
        let rem = s@.skip(from as int);
        let k = (i - from) as nat;
        assert forall|j: int| 0 <= j < k implies class_holds(CharClass::Digit, rem[j]) by {
            assert(rem[j] == s@[from + j]);
        }
        if k < rem.len() {
            assert(rem[k as int] == s@[i as int]);
        }
        lemma_run_len_exact(rem, CharClass::Digit, k);
    }
    i - from
}

/// Whether the text is a floating-point literal as [`is_float_literal`]
/// defines it: the check the lexer applies to a numeric run.
#[verifier::rlimit(50)]
pub fn is_float_text(s: &str) -> (r: bool)
    ensures
        r == is_float_literal(s@),
{
    let len = s.unicode_len();
    let start: usize = if len > 0 && s.get_char(0) == '-' {
        1
    } else {
        0
    };
    let ghost b = s@.skip(start as int);
    proof {
        assert(b =~= if s@.len() > 0 && s@[0] == '-' {
            s@.skip(1)
        } else {
            s@
        });
    }
    let d1 = scan_digits(s, start);
    let m_end: usize;
    if start + d1 < len && s.get_char(start + d1) == '.' {
        proof {
            assert(b[d1 as int] == s@[start + d1]);
            assert(b.skip(d1 as int + 1) =~= s@.skip(start + d1 + 1));
        }
        let d2 = scan_digits(s, start + d1 + 1);
        if d1 == 0 && d2 == 0 {
            return false;
        }
        m_end = start + d1 + 1 + d2;
    } else {
        proof {
            if d1 < b.len() {
                assert(b[d1 as int] == s@[start + d1]);
            }
        }
        if d1 == 0 {
            return false;
        }
        m_end = start + d1;
    }
    let ghost m = (m_end - start) as nat;
    proof {
        assert(mantissa_len(b) == Some(m));
    }
    let ghost rexp = b.skip(m as int);
    proof {
        assert(rexp =~= s@.skip(m_end as int));
    }
    if m_end == len {
        return true;
    }
    proof {
        assert(rexp[0] == s@[m_end as int]);
    }
    if s.get_char(m_end) != 'e' {
        return false;
    }
    let e_start: usize = if m_end + 1 < len && s.get_char(m_end + 1) == '-' {
        m_end + 2
    } else {
        m_end + 1
    };
    proof {
        if m_end + 1 < len {
            assert(rexp[1] == s@[m_end + 1]);
        }
        assert(s@.skip(e_start as int) =~= rexp.skip(e_start - m_end));
    }
    let d3 = scan_digits(s, e_start);
    d3 > 0 && e_start + d3 == len
}

// ---------------------------------------------------------------------------
// The executable lexer
// ---------------------------------------------------------------------------

/// Appends a lexing outcome to the tokens already produced.
pub open spec fn lex_app(
    pre: Seq<SpecToken>,
    rest: Result<Seq<SpecToken>, LexError>,
) -> Result<Seq<SpecToken>, LexError> {
    match rest {
        Ok(ts) => Ok(pre + ts),
        Err(e) => Err(e),
    }
}

proof fn lemma_lex_app_cons(
    pre: Seq<SpecToken>,
    t: SpecToken,
    rest: Result<Seq<SpecToken>, LexError>,
)
    ensures
        lex_app(pre, lex_cons(t, rest)) == lex_app(pre + seq![t], rest),
{
    match rest {
        Ok(ts) => {
            assert(pre + (seq![t] + ts) =~= (pre + seq![t]) + ts);
        },
        Err(_) => {},
    }
}

proof fn lemma_tokens_view_push(ts: Seq<LexToken>, t: LexToken)
    ensures
        tokens_view(ts.push(t)) == tokens_view(ts) + seq![t@],
{
    assert(tokens_view(ts.push(t)) =~= tokens_view(ts) + seq![t@]);
}

/// Lexes a string token; does nothing when the next character is no quote.
fn lex_string(input: &mut InputBuffer) -> (r: Result<Option<LexToken>, LexError>)
    requires
        old(input).wf(),
        old(input).remaining().len() > 0,
    ensures
        final(input).wf(),
        final(input).text() == old(input).text(),
        old(input).remaining()[0] != '"' ==> r == Ok::<Option<LexToken>, LexError>(None)
            && final(input).pos() == old(input).pos(),
        old(input).remaining()[0] == '"' ==> match scan_string(
            old(input).remaining().skip(1),
            false,
        ) {
            None => r == Err::<Option<LexToken>, LexError>(LexError::UnterminatedString),
            Some((content, used)) => (r matches Ok(opt) && opt matches Some(tok) && tok@
                == SpecToken::String(content)) && final(input).pos() == old(input).pos() + 1
                + used,
        },
{
    if !input.next_char_is(CharClass::Exactly('"')) {
        return Ok(None);
    }
    input.skip(1);
    let ghost rest0 = old(input).remaining().skip(1);
    let mut output: Vec<char> = Vec::new();
    let mut escape_next_char = false;
    proof {
        match scan_string(rest0, false) {
            Some((c, u)) => {
                assert(Seq::<char>::empty() + c =~= c);
            },
            None => {},
        }
    }
    loop
        invariant
            input.wf(),
            input.text() == old(input).text(),
            input.pos() >= old(input).pos() + 1,
            old(input).wf(),
            old(input).remaining().len() > 0,
            old(input).remaining()[0] == '"',
            rest0 == old(input).remaining().skip(1),
            ({
                let cur = input.remaining();
                let consumed = input.pos() - (old(input).pos() + 1);
                match scan_string(cur, escape_next_char) {
                    None => scan_string(rest0, false) is None,
                    Some((c, u)) => scan_string(rest0, false) == Some(
                        (output@ + c, (consumed + u) as nat),
                    ),
                }
            }),
        decreases input.remaining().len(),
    {
        if !input.has_chars_remaining() {
            return Err(LexError::UnterminatedString);
        }
        let ghost cur = input.remaining();
        let next_char = input.take_next();
        if next_char == '"' && !escape_next_char {
            proof {
                assert(scan_string(cur, escape_next_char) == Some((Seq::<char>::empty(), 1nat)));
                assert(output@ + Seq::<char>::empty() =~= output@);
            }
            return Ok(Some(LexToken::String(string_from_chars(output))));
        }
        if next_char == '\\' && !escape_next_char {
            escape_next_char = true;
            continue;
        }
        proof {
            match scan_string(input.remaining(), false) {
                Some((c, u)) => {
                    assert(output@.push(next_char) + c =~= output@ + (seq![next_char] + c));
                },
                None => {},
            }
        }
        escape_next_char = false;
        output.push(next_char);
    }
}

/// Lexes a number; does nothing when the next character cannot begin one,
/// or when the numeric run is no valid literal — that run then falls
/// through to the later cases.
fn lex_number(input: &mut InputBuffer) -> (r: Option<LexToken>)
    requires
        old(input).wf(),
        old(input).remaining().len() > 0,
    ensures
        final(input).wf(),
        final(input).text() == old(input).text(),
        ({
            let rem = old(input).remaining();
            let n = run_len(rem, CharClass::NumericRun);
            if numeric_run_char(rem[0]) && is_float_literal(rem.take(n as int)) {
                (r matches Some(tok) && tok@ == SpecToken::Num(rem.take(n as int)))
                    && final(input).pos() == old(input).pos() + n
            } else {
                r is None && final(input).pos() == old(input).pos()
            }
        }),
{
    if !input.next_char_is(CharClass::NumericRun) {
        return None;
    }
    let num_as_string = input.read_while(CharClass::NumericRun);
    if is_float_text(num_as_string.as_str()) {
        proof {
            lemma_run_len_bounds(input.remaining(), CharClass::NumericRun);
        }
        let n = num_as_string.as_str().unicode_len();
        input.skip(n);
        Some(LexToken::Num(num_as_string))
    } else {
        None
    }
}

/// Lexes an opening bracket; does nothing on any other character.
fn lex_left_bracket(input: &mut InputBuffer) -> (r: Option<LexToken>)
    requires
        old(input).wf(),
        old(input).remaining().len() > 0,
    ensures
        final(input).wf(),
        final(input).text() == old(input).text(),
        old(input).remaining()[0] == '(' ==> (r matches Some(tok) && tok@
            == SpecToken::LeftBracket) && final(input).pos() == old(input).pos() + 1,
        old(input).remaining()[0] != '(' ==> r is None && final(input).pos() == old(input).pos(),
{
    if !input.next_char_is(CharClass::Exactly('(')) {
        return None;
    }
    input.skip(1);
    Some(LexToken::LeftBracket)
}

/// Lexes a closing bracket; does nothing on any other character.
fn lex_right_bracket(input: &mut InputBuffer) -> (r: Option<LexToken>)
    requires
        old(input).wf(),
        old(input).remaining().len() > 0,
    ensures
        final(input).wf(),
        final(input).text() == old(input).text(),
        old(input).remaining()[0] == ')' ==> (r matches Some(tok) && tok@
            == SpecToken::RightBracket) && final(input).pos() == old(input).pos() + 1,
        old(input).remaining()[0] != ')' ==> r is None && final(input).pos() == old(input).pos(),
{
    if !input.next_char_is(CharClass::Exactly(')')) {
        return None;
    }
    input.skip(1);
    Some(LexToken::RightBracket)
}

/// Consumes one whitespace character, emitting no token; reports whether
/// it did.
pub fn lex_whitespace(input: &mut InputBuffer) -> (r: bool)
    requires
        old(input).wf(),
        old(input).remaining().len() > 0,
    ensures
        final(input).wf(),
        final(input).text() == old(input).text(),
        r == unicode_whitespace(old(input).remaining()[0]),
        r ==> final(input).pos() == old(input).pos() + 1,
        !r ==> final(input).pos() == old(input).pos(),
{
    if input.next_char_is(CharClass::Whitespace) {
        input.skip(1);
        return true;
    }
    false
}

/// Lexes a symbol: the longest run of characters that are neither
/// whitespace nor brackets.
fn lex_symbol(input: &mut InputBuffer) -> (r: Option<LexToken>)
    requires
        old(input).wf(),
    ensures
        final(input).wf(),
        final(input).text() == old(input).text(),
        ({
            let rem = old(input).remaining();
            let k = run_len(rem, CharClass::SymbolChar);
            (r matches Some(tok) && tok@ == SpecToken::Symbol(rem.take(k as int)))
                && final(input).pos() == old(input).pos() + k
        }),
{
    let output = input.take_while(CharClass::SymbolChar);
    Some(LexToken::Symbol(output))
}

/// Lexes a whole source text: the token stream [`spec_lex`] assigns to it,
/// or the first error.
pub fn lex_input(input: &str) -> (r: Result<Vec<LexToken>, LexError>)
    ensures
        r matches Ok(toks) ==> spec_lex(input@) == Ok::<Seq<SpecToken>, LexError>(
            tokens_view(toks@),
        ),
        r matches Err(e) ==> spec_lex(input@) == Err::<Seq<SpecToken>, LexError>(e),
{
    let mut input_buffer = InputBuffer::from_input(input);
    let mut output: Vec<LexToken> = Vec::new();
    proof {
        assert(input_buffer.remaining() =~= input@);
        assert(tokens_view(output@) =~= Seq::<SpecToken>::empty());
        match spec_lex(input@) {
            Ok(ts) => {
                assert(tokens_view(output@) + ts =~= ts);
            },
            Err(_) => {},
        }
    }
    while input_buffer.has_chars_remaining()
        invariant
            input_buffer.wf(),
            input_buffer.text() == input@,
            spec_lex(input@) == lex_app(
                tokens_view(output@),
                spec_lex(input_buffer.remaining()),
            ),
        decreases input_buffer.remaining().len(),
    {
        let ghost rem = input_buffer.remaining();
        let ghost pos0 = input_buffer.pos();
        let ghost pre = tokens_view(output@);

        match lex_string(&mut input_buffer) {
            Err(e) => {
                return Err(e);
            },
            Ok(Some(lexed_string)) => {
                proof {
                    assert(input_buffer.remaining() =~= rem.skip(input_buffer.pos() - pos0));
                    lex_push_step(rem, pre, lexed_string@, input_buffer.remaining());
                    lemma_tokens_view_push(output@, lexed_string);
                }
                output.push(lexed_string);
                continue;
            },
            Ok(None) => {},
        }

        if let Some(lexed_number) = lex_number(&mut input_buffer) {
            proof {
                assert(input_buffer.remaining() =~= rem.skip(input_buffer.pos() - pos0));
                lex_push_step(rem, pre, lexed_number@, input_buffer.remaining());
                lemma_tokens_view_push(output@, lexed_number);
            }
            output.push(lexed_number);
            continue;
        }

        if let Some(lexed_left_bracket) = lex_left_bracket(&mut input_buffer) {
            proof {
                assert(spec_lex(rem) == spec_lex_other(rem));
                assert(input_buffer.remaining() =~= rem.skip(1));
                lex_push_step(rem, pre, lexed_left_bracket@, input_buffer.remaining());
                lemma_tokens_view_push(output@, lexed_left_bracket);
            }
            output.push(lexed_left_bracket);
            continue;
        }

        if let Some(lexed_right_bracket) = lex_right_bracket(&mut input_buffer) {
            proof {
                assert(spec_lex(rem) == spec_lex_other(rem));
                assert(input_buffer.remaining() =~= rem.skip(1));
                lex_push_step(rem, pre, lexed_right_bracket@, input_buffer.remaining());
                lemma_tokens_view_push(output@, lexed_right_bracket);
            }
            output.push(lexed_right_bracket);
            continue;
        }

        if lex_whitespace(&mut input_buffer) {
            proof {
                assert(spec_lex(rem) == spec_lex_other(rem));
                assert(input_buffer.remaining() =~= rem.skip(1));
            }
            continue;
        }

        if let Some(lexed_symbol) = lex_symbol(&mut input_buffer) {
            proof {
                assert(spec_lex(rem) == spec_lex_other(rem));
                assert(symbol_char(rem[0]));
                assert(input_buffer.remaining() =~= rem.skip(input_buffer.pos() - pos0));
                lex_push_step(rem, pre, lexed_symbol@, input_buffer.remaining());
                lemma_tokens_view_push(output@, lexed_symbol);
            }
            output.push(lexed_symbol);
            continue;
        }
    }
    proof {
        assert(tokens_view(output@) + Seq::<SpecToken>::empty() =~= tokens_view(output@));
    }
    Ok(output)
}

/// One lexing step: when the outcome on `rem` puts token `t` in front of
/// the outcome on `rest`, the produced tokens absorb `t`.
proof fn lex_push_step(
    rem: Seq<char>,
    pre: Seq<SpecToken>,
    t: SpecToken,
    rest: Seq<char>,
)
    requires
        spec_lex(rem) == lex_cons(t, spec_lex(rest)),
    ensures
        lex_app(pre, spec_lex(rem)) == lex_app(pre + seq![t], spec_lex(rest)),
{
    lemma_lex_app_cons(pre, t, spec_lex(rest));
}

} // verus!
