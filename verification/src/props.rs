//! Properties of the reader proved once and for all: balanced token
//! streams always parse, with a fixed relation between node and token
//! counts; and the whitespace laid between tokens never changes what the
//! reader produces.

use crate::chars::{
    lemma_run_len_bounds, lemma_run_len_concat, lemma_run_len_exact, numeric_run_char, run_len,
    symbol_char,
    unicode_numeric, unicode_whitespace, CharClass,
};
use crate::lexer::{
    is_float_literal, lex_cons, scan_string, spec_lex, spec_lex_other, LexError, SpecToken,
};
use crate::parser::{parse_from, push_top, spec_parse, SpecExpr};
use vstd::prelude::*;

verus! {

// ---------------------------------------------------------------------------
// Bracket balance and node counting
// ---------------------------------------------------------------------------

/// Walks the tokens with the number of currently open lists: balanced means
/// no closing bracket arrives with none open, and none stays open at the end.
pub open spec fn balanced_from(ts: Seq<SpecToken>, depth: nat) -> bool
    decreases ts.len(),
{
    if ts.len() == 0 {
        depth == 0
    } else {
        match ts[0] {
            SpecToken::LeftBracket => balanced_from(ts.skip(1), depth + 1),
            SpecToken::RightBracket => depth > 0 && balanced_from(ts.skip(1), (depth - 1) as nat),
            _ => balanced_from(ts.skip(1), depth),
        }
    }
}

/// Whether the brackets of a token stream pair up.
pub open spec fn balanced(ts: Seq<SpecToken>) -> bool {
    balanced_from(ts, 0)
}

/// The nodes of an expression: itself, plus all nodes beneath it.
pub open spec fn expr_node_count(e: SpecExpr) -> nat
    decreases e,
{
    match e {
        SpecExpr::List(children) => 1 + exprs_node_count(children),
        _ => 1,
    }
}

/// The nodes of a sequence of expressions.
pub open spec fn exprs_node_count(es: Seq<SpecExpr>) -> nat
    decreases es,
    via exprs_node_count_decreases
{
    if es.len() == 0 {
        0
    } else {
        expr_node_count(es[0]) + exprs_node_count(es.drop_first())
    }
}

#[via_fn]
proof fn exprs_node_count_decreases(es: Seq<SpecExpr>) {
    broadcast use vstd::seq::axiom_seq_index_decreases;

    if es.len() > 0 {
        assert(decreases_to!(es => es[0]));
        vstd::seq::axiom_seq_subrange_decreases(es, 1, es.len() as int);
        assert(es.drop_first() == es.subrange(1, es.len() as int));
    }
}

/// The atom tokens of a stream: every token that is no bracket.
pub open spec fn atom_count(ts: Seq<SpecToken>) -> nat
    decreases ts.len(),
{
    if ts.len() == 0 {
        0
    } else {
        (match ts[0] {
            SpecToken::LeftBracket | SpecToken::RightBracket => 0nat,
            _ => 1nat,
        }) + atom_count(ts.skip(1))
    }
}

/// The opening brackets of a stream; in a balanced stream, the matched pairs.
pub open spec fn open_count(ts: Seq<SpecToken>) -> nat
    decreases ts.len(),
{
    if ts.len() == 0 {
        0
    } else {
        (match ts[0] {
            SpecToken::LeftBracket => 1nat,
            _ => 0nat,
        }) + open_count(ts.skip(1))
    }
}

/// The nodes held anywhere in a parse stack.
pub open spec fn stack_node_count(st: Seq<Seq<SpecExpr>>) -> nat
    decreases st.len(),
{
    if st.len() == 0 {
        0
    } else {
        exprs_node_count(st[0]) + stack_node_count(st.skip(1))
    }
}

proof fn lemma_exprs_count_push(es: Seq<SpecExpr>, e: SpecExpr)
    ensures
        exprs_node_count(es.push(e)) == exprs_node_count(es) + expr_node_count(e),
    decreases es.len(),
{
    if es.len() == 0 {
        assert(es.push(e).drop_first() =~= es);
        assert(es.push(e)[0] == e);
    } else {
        assert(es.push(e).drop_first() =~= es.drop_first().push(e));
        lemma_exprs_count_push(es.drop_first(), e);
    }
}

proof fn lemma_stack_count_push(st: Seq<Seq<SpecExpr>>, v: Seq<SpecExpr>)
    ensures
        stack_node_count(st.push(v)) == stack_node_count(st) + exprs_node_count(v),
    decreases st.len(),
{
    if st.len() == 0 {
        assert(st.push(v).skip(1) =~= st);
    } else {
        assert(st.push(v).skip(1) =~= st.skip(1).push(v));
        lemma_stack_count_push(st.skip(1), v);
    }
}

proof fn lemma_stack_count_update_last(st: Seq<Seq<SpecExpr>>, v: Seq<SpecExpr>)
    requires
        st.len() >= 1,
    ensures
        stack_node_count(st.update(st.len() - 1, v)) + exprs_node_count(st.last())
            == stack_node_count(st) + exprs_node_count(v),
    decreases st.len(),
{
    if st.len() == 1 {
        assert(st.update(0, v) =~= seq![v]);
        assert(seq![v][0] == v);
        assert(seq![v].skip(1) =~= Seq::<Seq<SpecExpr>>::empty());
        assert(st.skip(1) =~= Seq::<Seq<SpecExpr>>::empty());
        assert(st[0] == st.last());
    } else {
        assert(st.update(st.len() - 1, v).skip(1) =~= st.skip(1).update(st.skip(1).len() - 1, v));
        assert(st.skip(1).last() == st.last());
        lemma_stack_count_update_last(st.skip(1), v);
    }
}

proof fn lemma_stack_count_drop_last(st: Seq<Seq<SpecExpr>>)
    requires
        st.len() >= 1,
    ensures
        stack_node_count(st) == stack_node_count(st.drop_last()) + exprs_node_count(st.last()),
{
    lemma_stack_count_push(st.drop_last(), st.last());
    assert(st.drop_last().push(st.last()) =~= st);
}

/// Running balanced tokens against a stack with one open list per counted
/// depth succeeds, and the nodes of the outcome are the nodes already on
/// the stack, one for each list still open, one per atom, and one per
/// opening bracket.
proof fn lemma_parse_from_balanced(st: Seq<Seq<SpecExpr>>, ts: Seq<SpecToken>)
    requires
        st.len() >= 1,
        balanced_from(ts, (st.len() - 1) as nat),
    ensures
        parse_from(st, ts) matches Ok(forms) && exprs_node_count(forms) == stack_node_count(st)
            + (st.len() - 1) + atom_count(ts) + open_count(ts),
    decreases ts.len(), 1int,
{
    if ts.len() == 0 {
        assert(st.len() == 1);
        assert(st.skip(1) =~= Seq::<Seq<SpecExpr>>::empty());
        assert(parse_from(st, ts) == Ok::<Seq<SpecExpr>, crate::parser::ParseError>(st[0]));
        assert(stack_node_count(st.skip(1)) == 0);
        assert(exprs_node_count(st[0]) == stack_node_count(st));
        assert(atom_count(ts) == 0);
        assert(open_count(ts) == 0);
    } else {
        match ts[0] {
            SpecToken::LeftBracket => {
                let st2 = st.push(Seq::empty());
                lemma_stack_count_push(st, Seq::empty());
                lemma_parse_from_balanced(st2, ts.skip(1));
                assert(parse_from(st, ts) == parse_from(st2, ts.skip(1)));
                assert(stack_node_count(st2) == stack_node_count(st));
            },
            SpecToken::RightBracket => {
                let closed = SpecExpr::List(st.last());
                let st2 = push_top(st.drop_last(), closed);
                assert(st.len() >= 2);
                assert(parse_from(st, ts) == parse_from(st2, ts.skip(1)));
                lemma_stack_count_drop_last(st);
                lemma_stack_count_update_last(st.drop_last(), st.drop_last().last().push(closed));
                lemma_exprs_count_push(st.drop_last().last(), closed);
                assert(expr_node_count(closed) == 1 + exprs_node_count(st.last()));
                assert(stack_node_count(st2) == stack_node_count(st) + 1);
                lemma_parse_from_balanced(st2, ts.skip(1));
            },
            SpecToken::Num(s) => {
                atom_step(st, ts, SpecExpr::Num(s));
            },
            SpecToken::Symbol(s) => {
                atom_step(st, ts, SpecExpr::Symbol(s));
            },
            SpecToken::String(s) => {
                atom_step(st, ts, SpecExpr::String(s));
            },
        }
    }
}

/// The atom cases of [`lemma_parse_from_balanced`] share this step.
proof fn atom_step(st: Seq<Seq<SpecExpr>>, ts: Seq<SpecToken>, e: SpecExpr)
    requires
        st.len() >= 1,
        ts.len() > 0,
        balanced_from(ts, (st.len() - 1) as nat),
        parse_from(st, ts) == parse_from(push_top(st, e), ts.skip(1)),
        expr_node_count(e) == 1,
        atom_count(ts) == 1 + atom_count(ts.skip(1)),
        open_count(ts) == open_count(ts.skip(1)),
        balanced_from(ts.skip(1), (st.len() - 1) as nat),
    ensures
        parse_from(st, ts) matches Ok(forms) && exprs_node_count(forms) == stack_node_count(st)
            + (st.len() - 1) + atom_count(ts) + open_count(ts),
    decreases ts.len(), 0int,
{
    let st2 = push_top(st, e);
    lemma_stack_count_update_last(st, st.last().push(e));
    lemma_exprs_count_push(st.last(), e);
    lemma_parse_from_balanced(st2, ts.skip(1));
}

/// A successful run leaves balance behind it: the tokens consumed against
/// a stack of open lists were balanced at that depth.
proof fn lemma_parse_from_ok_balanced(st: Seq<Seq<SpecExpr>>, ts: Seq<SpecToken>)
    requires
        st.len() >= 1,
        parse_from(st, ts) is Ok,
    ensures
        balanced_from(ts, (st.len() - 1) as nat),
    decreases ts.len(),
{
    if ts.len() > 0 {
        match ts[0] {
            SpecToken::LeftBracket => {
                lemma_parse_from_ok_balanced(st.push(Seq::empty()), ts.skip(1));
            },
            SpecToken::RightBracket => {
                lemma_parse_from_ok_balanced(
                    push_top(st.drop_last(), SpecExpr::List(st.last())),
                    ts.skip(1),
                );
            },
            SpecToken::Num(e) => {
                lemma_parse_from_ok_balanced(push_top(st, SpecExpr::Num(e)), ts.skip(1));
            },
            SpecToken::Symbol(e) => {
                lemma_parse_from_ok_balanced(push_top(st, SpecExpr::Symbol(e)), ts.skip(1));
            },
            SpecToken::String(e) => {
                lemma_parse_from_ok_balanced(push_top(st, SpecExpr::String(e)), ts.skip(1));
            },
        }
    }
}

/// Bracket balance decides parsing: a token stream parses exactly when its
/// brackets pair up; otherwise the first overshooting closer, or the open
/// list left at the end, is reported.
pub proof fn lemma_parse_ok_iff_balanced(ts: Seq<SpecToken>)
    ensures
        spec_parse(ts) is Ok <==> balanced(ts),
{
    if balanced(ts) {
        let st = seq![Seq::<SpecExpr>::empty()];
        lemma_parse_from_balanced(st, ts);
    }
    if spec_parse(ts) is Ok {
        lemma_parse_from_ok_balanced(seq![Seq::<SpecExpr>::empty()], ts);
    }
}

/// Round-trip shape: a lexed text whose brackets pair up always parses,
/// and the parsed forms hold one node per atom token and one per matched
/// bracket pair.
pub proof fn lemma_round_trip_shape(text: Seq<char>)
    requires
        crate::lexer::spec_lex(text) matches Ok(ts) && balanced(ts),
    ensures
        crate::lexer::spec_lex(text) matches Ok(ts) ==> spec_parse(ts) matches Ok(forms)
            && exprs_node_count(forms) == atom_count(ts) + open_count(ts),
{
    let ts = crate::lexer::spec_lex(text)->Ok_0;
    let st = seq![Seq::<SpecExpr>::empty()];
    assert(stack_node_count(st) == 0) by {
        assert(st[0] =~= Seq::<SpecExpr>::empty());
        assert(st.skip(1) =~= Seq::<Seq<SpecExpr>>::empty());
        assert(exprs_node_count(st[0]) == 0);
        assert(stack_node_count(st.skip(1)) == 0);
    }
    lemma_parse_from_balanced(st, ts);
}

// ---------------------------------------------------------------------------
// Whitespace between tokens
// ---------------------------------------------------------------------------

/// A character fit to separate two tokens: whitespace. In Unicode no
/// whitespace character is numeric; the conjunction records that for the
/// verifier, which keeps the numeric property of non-ASCII characters
/// abstract.
pub open spec fn separator_char(c: char) -> bool {
    unicode_whitespace(c) && !unicode_numeric(c)
}

/// Whether every character of a separator run is fit to separate.
pub open spec fn all_separator(sep: Seq<char>) -> bool {
    forall|i: int| 0 <= i < sep.len() ==> separator_char(#[trigger] sep[i])
}

/// String-token content written back out: a backslash before every quote
/// and every backslash.
pub open spec fn escape(content: Seq<char>) -> Seq<char>
    decreases content.len(),
{
    if content.len() == 0 {
        Seq::empty()
    } else {
        (if content[0] == '"' || content[0] == '\\' {
            seq!['\\', content[0]]
        } else {
            seq![content[0]]
        }) + escape(content.skip(1))
    }
}

/// The text one token is written as.
pub open spec fn render_token(t: SpecToken) -> Seq<char> {
    match t {
        SpecToken::Num(s) => s,
        SpecToken::Symbol(s) => s,
        SpecToken::String(content) => seq!['"'] + escape(content) + seq!['"'],
        SpecToken::LeftBracket => seq!['('],
        SpecToken::RightBracket => seq![')'],
    }
}

/// A token stream written out with a separator run before each token and
/// one after the last: seps[0], token 0, seps[1], token 1, ..., seps[n].
pub open spec fn render(ts: Seq<SpecToken>, seps: Seq<Seq<char>>) -> Seq<char>
    recommends
        seps.len() == ts.len() + 1,
    decreases ts.len(),
{
    if ts.len() == 0 {
        seps[0]
    } else {
        seps[0] + render_token(ts[0]) + render(ts.skip(1), seps.skip(1))
    }
}

/// The numeric run at the head of a symbol's text.
pub open spec fn numeric_prefix_of(s: Seq<char>) -> Seq<char> {
    s.take(run_len(s, CharClass::NumericRun) as int)
}

/// A token the lexer could have produced: a number is a nonempty valid
/// literal drawn from the numeric-run characters; a symbol is a nonempty
/// run of symbol characters that opens with no quote and whose leading
/// numeric run is no valid literal.
pub open spec fn wf_token(t: SpecToken) -> bool {
    match t {
        SpecToken::Num(s) => s.len() > 0 && (forall|i: int|
            0 <= i < s.len() ==> numeric_run_char(#[trigger] s[i])) && is_float_literal(s),
        SpecToken::Symbol(s) => s.len() > 0 && (forall|i: int|
            0 <= i < s.len() ==> symbol_char(#[trigger] s[i])) && s[0] != '"'
            && !is_float_literal(numeric_prefix_of(s)),
        SpecToken::String(_) => true,
        SpecToken::LeftBracket => true,
        SpecToken::RightBracket => true,
    }
}

/// Whether two tokens may stand with nothing between them and still lex
/// apart: anything may follow a bracket or a string; only a bracket or a
/// string may follow a number, and only a bracket a symbol.
pub open spec fn can_abut(t: SpecToken, next: SpecToken) -> bool {
    match t {
        SpecToken::LeftBracket => true,
        SpecToken::RightBracket => true,
        SpecToken::String(_) => true,
        SpecToken::Num(_) => match next {
            SpecToken::LeftBracket => true,
            SpecToken::RightBracket => true,
            SpecToken::String(_) => true,
            _ => false,
        },
        SpecToken::Symbol(_) => match next {
            SpecToken::LeftBracket => true,
            SpecToken::RightBracket => true,
            _ => false,
        },
    }
}

/// What must hold of the text after a token so the token's own scan stops
/// where the token ends.
pub open spec fn breaks_after(t: SpecToken, rest: Seq<char>) -> bool {
    match t {
        SpecToken::Num(_) => rest.len() == 0 || !numeric_run_char(rest[0]),
        SpecToken::Symbol(_) => rest.len() == 0 || (!symbol_char(rest[0])
            && !numeric_run_char(rest[0])),
        _ => true,
    }
}

/// A rendering the lexer reads back as the very tokens: separators are
/// whitespace, tokens are well formed, and two tokens stand together only
/// where that cannot merge them.
pub open spec fn wf_render(ts: Seq<SpecToken>, seps: Seq<Seq<char>>) -> bool {
    &&& seps.len() == ts.len() + 1
    &&& forall|i: int| 0 <= i < seps.len() ==> all_separator(#[trigger] seps[i])
    &&& forall|i: int| 0 <= i < ts.len() ==> wf_token(#[trigger] ts[i])
    &&& forall|i: int|
        0 <= i < ts.len() - 1 ==> seps[i + 1].len() > 0 || can_abut(#[trigger] ts[i], ts[i + 1])
}

/// Scanning escaped content inside quotes yields the content back, however
/// lax the escape policy leaves the rest of the text.
proof fn lemma_scan_escape(content: Seq<char>, rest: Seq<char>)
    ensures
        scan_string(escape(content) + seq!['"'] + rest, false) == Some(
            (content, (escape(content).len() + 1) as nat),
        ),
    decreases content.len(),
{
    reveal_with_fuel(scan_string, 4);
    let s = escape(content) + seq!['"'] + rest;
    if content.len() == 0 {
        assert(s =~= seq!['"'] + rest);
        assert(s[0] == '"');
        assert(content =~= Seq::<char>::empty());
    } else {
        let c0 = content[0];
        let tail = escape(content.skip(1)) + seq!['"'] + rest;
        lemma_scan_escape(content.skip(1), rest);
        if c0 == '"' || c0 == '\\' {
            assert(s =~= seq!['\\'] + (seq![c0] + tail));
            assert(s[0] == '\\');
            assert(s.skip(1) =~= seq![c0] + tail);
            assert((seq![c0] + tail)[0] == c0);
            assert((seq![c0] + tail).skip(1) =~= tail);
            assert(seq![c0] + content.skip(1) =~= content);
        } else {
            assert(s =~= seq![c0] + tail);
            assert(s[0] == c0);
            assert(s.skip(1) =~= tail);
            assert(seq![c0] + content.skip(1) =~= content);
        }
    }
}

/// Leading whitespace is consumed with no token emitted.
proof fn lemma_lex_separators(sep: Seq<char>, rest: Seq<char>)
    requires
        all_separator(sep),
    ensures
        spec_lex(sep + rest) == spec_lex(rest),
    decreases sep.len(),
{
    if sep.len() == 0 {
        assert(sep + rest =~= rest);
    } else {
        let s = sep + rest;
        let c = sep[0];
        assert(separator_char(c));
        assert(s[0] == c);
        assert(c != '"' && c != '(' && c != ')' && !numeric_run_char(c));
        assert(s.skip(1) =~= sep.skip(1) + rest);
        assert(all_separator(sep.skip(1)));
        lemma_lex_separators(sep.skip(1), rest);
        assert(spec_lex(s) == spec_lex_other(s));
        assert(spec_lex_other(s) == spec_lex(s.skip(1)));
    }
}

/// One well-formed token, followed by text that cannot lengthen its scan,
/// lexes to itself in front of whatever follows.
proof fn lemma_lex_one_token(t: SpecToken, rest: Seq<char>)
    requires
        wf_token(t),
        breaks_after(t, rest),
    ensures
        spec_lex(render_token(t) + rest) == lex_cons(t, spec_lex(rest)),
{
    let s = render_token(t) + rest;
    match t {
        SpecToken::LeftBracket => {
            assert(s[0] == '(');
            assert(!numeric_run_char('('));
            assert(s.skip(1) =~= rest);
            assert(spec_lex(s) == spec_lex_other(s));
            assert(spec_lex_other(s) == lex_cons(t, spec_lex(rest)));
        },
        SpecToken::RightBracket => {
            assert(s[0] == ')');
            assert(!numeric_run_char(')'));
            assert(s.skip(1) =~= rest);
            assert(spec_lex(s) == spec_lex_other(s));
            assert(spec_lex_other(s) == lex_cons(t, spec_lex(rest)));
        },
        SpecToken::String(content) => {
            assert(s =~= seq!['"'] + (escape(content) + seq!['"'] + rest));
            assert(s[0] == '"');
            assert(s.skip(1) =~= escape(content) + seq!['"'] + rest);
            lemma_scan_escape(content, rest);
            let used = (escape(content).len() + 1) as nat;
            assert(scan_string(s.skip(1), false) == Some((content, used)));
            assert(s.skip(1 + used as int) =~= rest);
        },
        SpecToken::Num(txt) => {
            assert(s =~= txt + rest);
            assert(s[0] == txt[0]);
            assert(numeric_run_char(s[0]));
            assert(s[0] != '"');
            lemma_run_len_exact(txt, CharClass::NumericRun, txt.len() as nat);
            lemma_run_len_concat(txt, rest, CharClass::NumericRun);
            let n = run_len(s, CharClass::NumericRun);
            assert(n == txt.len());
            assert(s.take(n as int) =~= txt);
            assert(is_float_literal(s.take(n as int)));
            assert(s.skip(n as int) =~= rest);
        },
        SpecToken::Symbol(sym) => {
            assert(s =~= sym + rest);
            assert(s[0] == sym[0]);
            assert(symbol_char(s[0]));
            assert(s[0] != '"');
            lemma_run_len_exact(sym, CharClass::SymbolChar, sym.len() as nat);
            lemma_run_len_concat(sym, rest, CharClass::SymbolChar);
            let k = run_len(s, CharClass::SymbolChar);
            assert(k == sym.len());
            assert(s.take(k as int) =~= sym);
            assert(s.skip(k as int) =~= rest);
            if numeric_run_char(sym[0]) {
                lemma_run_len_concat(sym, rest, CharClass::NumericRun);
                let n = run_len(s, CharClass::NumericRun);
                assert(n == run_len(sym, CharClass::NumericRun));
                lemma_run_len_bounds(sym, CharClass::NumericRun);
                assert(s.take(n as int) =~= numeric_prefix_of(sym));
                assert(!is_float_literal(s.take(n as int)));
                assert(spec_lex(s) == spec_lex_other(s));
            } else {
                assert(spec_lex(s) == spec_lex_other(s));
            }
            assert(spec_lex_other(s) == lex_cons(t, spec_lex(rest)));
        },
    }
}

/// A well-formed rendering lexes back to exactly its token stream.
pub proof fn lemma_lex_render(ts: Seq<SpecToken>, seps: Seq<Seq<char>>)
    requires
        wf_render(ts, seps),
    ensures
        spec_lex(render(ts, seps)) == Ok::<Seq<SpecToken>, LexError>(ts),
    decreases ts.len(),
{
    if ts.len() == 0 {
        assert(render(ts, seps) == seps[0]);
        assert(all_separator(seps[0]));
        assert(seps[0] + Seq::<char>::empty() =~= seps[0]);
        lemma_lex_separators(seps[0], Seq::empty());
        assert(spec_lex(Seq::<char>::empty()) == Ok::<Seq<SpecToken>, LexError>(Seq::empty()));
        assert(ts =~= Seq::<SpecToken>::empty());
    } else {
        let t0 = ts[0];
        let rest = render(ts.skip(1), seps.skip(1));
        assert(render(ts, seps) =~= seps[0] + (render_token(t0) + rest));
        assert(wf_token(t0));
        assert(breaks_after(t0, rest)) by {
            if ts.len() == 1 {
                assert(rest == seps.skip(1)[0]);
                assert(seps.skip(1)[0] == seps[1]);
                if seps[1].len() > 0 {
                    assert(separator_char(rest[0]));
                }
            } else {
                assert(seps[1int].len() > 0 || can_abut(ts[0int], ts[1int]));
                assert(ts.skip(1)[0] == ts[1]);
                assert(seps.skip(1)[0] == seps[1]);
                assert(wf_token(ts[1]));
                let tail2 = render(ts.skip(1).skip(1), seps.skip(1).skip(1));
                assert(rest == seps[1] + render_token(ts[1]) + tail2);
                if seps[1].len() > 0 {
                    assert(rest[0] == seps[1][0]);
                    assert(separator_char(rest[0]));
                } else {
                    assert(rest =~= render_token(ts[1]) + tail2);
                    assert(can_abut(t0, ts[1]));
                    match t0 {
                        SpecToken::Num(_) => {
                            match ts[1] {
                                SpecToken::LeftBracket => {
                                    assert(rest[0] == '(');
                                },
                                SpecToken::RightBracket => {
                                    assert(rest[0] == ')');
                                },
                                SpecToken::String(c2) => {
                                    assert(render_token(ts[1]) =~= seq!['"'] + (escape(c2)
                                        + seq!['"']));
                                    assert(rest[0] == '"');
                                },
                                _ => {
                                    assert(false);
                                },
                            }
                            assert(!numeric_run_char(rest[0]));
                        },
                        SpecToken::Symbol(_) => {
                            match ts[1] {
                                SpecToken::LeftBracket => {
                                    assert(rest[0] == '(');
                                },
                                SpecToken::RightBracket => {
                                    assert(rest[0] == ')');
                                },
                                _ => {
                                    assert(false);
                                },
                            }
                            assert(!numeric_run_char(rest[0]) && !symbol_char(rest[0]));
                        },
                        _ => {},
                    }
                }
            }
        }
        assert(all_separator(seps[0]));
        lemma_lex_separators(seps[0], render_token(t0) + rest);
        lemma_lex_one_token(t0, rest);
        assert(wf_render(ts.skip(1), seps.skip(1))) by {
            assert(seps.skip(1).len() == ts.skip(1).len() + 1);
            assert forall|i: int| 0 <= i < seps.skip(1).len() implies all_separator(
                #[trigger] seps.skip(1)[i],
            ) by {
                assert(seps.skip(1)[i] == seps[i + 1]);
                assert(all_separator(seps[i + 1]));
            }
            assert forall|i: int| 0 <= i < ts.skip(1).len() implies wf_token(
                #[trigger] ts.skip(1)[i],
            ) by {
                assert(ts.skip(1)[i] == ts[i + 1]);
                assert(wf_token(ts[i + 1]));
            }
            assert forall|i: int| 0 <= i < ts.skip(1).len() - 1 implies (seps.skip(1)[i
                + 1].len() > 0 || can_abut(#[trigger] ts.skip(1)[i], ts.skip(1)[i + 1])) by {
                assert(ts.skip(1)[i] == ts[i + 1]);
                assert(ts.skip(1)[i + 1] == ts[i + 2]);
                assert(seps.skip(1)[i + 1] == seps[i + 2]);
                assert(seps[i + 1 + 1].len() > 0 || can_abut(ts[i + 1], ts[i + 1 + 1]));
            }
        }
        lemma_lex_render(ts.skip(1), seps.skip(1));
        assert(spec_lex(render(ts, seps)) == lex_cons(
            t0,
            Ok::<Seq<SpecToken>, LexError>(ts.skip(1)),
        ));
        assert(seq![t0] + ts.skip(1) =~= ts);
    }
}

/// Whitespace idempotence: two renderings of one token stream, however the
/// whitespace between the tokens is laid out, lex to the same tokens, so
/// the parsed tree is the same as well.
pub proof fn lemma_whitespace_insensitive(
    ts: Seq<SpecToken>,
    seps1: Seq<Seq<char>>,
    seps2: Seq<Seq<char>>,
)
    requires
        wf_render(ts, seps1),
        wf_render(ts, seps2),
    ensures
        spec_lex(render(ts, seps1)) == spec_lex(render(ts, seps2)),
        spec_lex(render(ts, seps1)) == Ok::<Seq<SpecToken>, LexError>(ts),
        spec_parse(spec_lex(render(ts, seps1))->Ok_0) == spec_parse(
            spec_lex(render(ts, seps2))->Ok_0,
        ),
{
    lemma_lex_render(ts, seps1);
    lemma_lex_render(ts, seps2);
}

} // verus!
