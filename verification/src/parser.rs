//! The parser: consumes the token stream front to back and builds a tree
//! of S-expressions, one per top-level form.
//!
//! The build keeps a stack of open lists; an opening bracket opens a list,
//! a closing bracket closes the innermost one. [`spec_parse`] specifies the
//! whole build, and [`parse_tokens`] is proved to return exactly its result.

use crate::lexer::{tokens_view, LexToken, SpecToken};
use vstd::prelude::*;

verus! {

/// An S-expression: an atom, or a list of S-expressions. A list owns its
/// children, which stand in source order.
#[derive(Debug, PartialEq)]
pub enum Expr {
    Num(String),
    Symbol(String),
    String(String),
    List(Vec<Expr>),
}

/// An S-expression at the specification level.
#[verifier::ext_equal]
pub enum SpecExpr {
    Num(Seq<char>),
    Symbol(Seq<char>),
    String(Seq<char>),
    List(Seq<SpecExpr>),
}

/// The specification value of an expression.
pub open spec fn expr_view(e: Expr) -> SpecExpr
    decreases e,
    via expr_view_decreases
{
    match e {
        Expr::Num(s) => SpecExpr::Num(s@),
        Expr::Symbol(s) => SpecExpr::Symbol(s@),
        Expr::String(s) => SpecExpr::String(s@),
        Expr::List(children) => SpecExpr::List(exprs_view(children@)),
    }
}

/// The expression sequence an expression sequence stands for, element by
/// element.
pub open spec fn exprs_view(es: Seq<Expr>) -> Seq<SpecExpr>
    decreases es,
    via exprs_view_decreases
{
    if es.len() == 0 {
        Seq::empty()
    } else {
        seq![expr_view(es[0])] + exprs_view(es.drop_first())
    }
}

#[via_fn]
proof fn expr_view_decreases(e: Expr) {
    broadcast use vstd::std_specs::vec::axiom_vec_decreases_to_view;

    match e {
        Expr::List(children) => {
            assert(decreases_to!(e => children));
            assert(decreases_to!(children => children@));
        },
        _ => {},
    }
}

#[via_fn]
proof fn exprs_view_decreases(es: Seq<Expr>) {
    broadcast use vstd::seq::axiom_seq_index_decreases;

    if es.len() > 0 {
        assert(decreases_to!(es => es[0]));
        vstd::seq::axiom_seq_subrange_decreases(es, 1, es.len() as int);
        assert(es.drop_first() == es.subrange(1, es.len() as int));
    }
}

impl View for Expr {
    type V = SpecExpr;

    open spec fn view(&self) -> SpecExpr {
        expr_view(*self)
    }
}

/// An expression sequence stands for its elements' values, in order.
pub broadcast proof fn lemma_exprs_view(es: Seq<Expr>)
    ensures
        (#[trigger] exprs_view(es)).len() == es.len(),
        forall|i: int| 0 <= i < es.len() ==> exprs_view(es)[i] == es[i]@,
    decreases es.len(),
{
    if es.len() > 0 {
        lemma_exprs_view(es.drop_first());
        assert forall|i: int| 0 <= i < es.len() implies exprs_view(es)[i] == es[i]@ by {
            if i > 0 {
                assert(exprs_view(es.drop_first())[i - 1] == es.drop_first()[i - 1]@);
            }
        }
    }
}

/// How parsing fails.
#[derive(Clone, Copy, Debug, PartialEq, Eq, Structural)]
pub enum ParseError {
    /// A closing bracket with no list open.
    UnmatchedClose,
    /// The tokens ended while at least one list was still open.
    UnmatchedOpen,
}

/// Appends an expression to the innermost open list of a parse stack.
pub open spec fn push_top(st: Seq<Seq<SpecExpr>>, e: SpecExpr) -> Seq<Seq<SpecExpr>>
    recommends
        st.len() >= 1,
{
    st.update(st.len() - 1, st.last().push(e))
}

/// Applies one token to a parse stack. The bottom entry holds the finished
/// top-level forms; each entry above it is a list still open.
pub open spec fn parse_step(st: Seq<Seq<SpecExpr>>, t: SpecToken) -> Result<
    Seq<Seq<SpecExpr>>,
    ParseError,
>
    recommends
        st.len() >= 1,
{
    match t {
        SpecToken::Num(s) => Ok(push_top(st, SpecExpr::Num(s))),
        SpecToken::Symbol(s) => Ok(push_top(st, SpecExpr::Symbol(s))),
        SpecToken::String(s) => Ok(push_top(st, SpecExpr::String(s))),
        SpecToken::LeftBracket => Ok(st.push(Seq::empty())),
        SpecToken::RightBracket => {
            if st.len() <= 1 {
                Err(ParseError::UnmatchedClose)
            } else {
                Ok(push_top(st.drop_last(), SpecExpr::List(st.last())))
            }
        },
    }
}

/// Runs the remaining tokens against a parse stack: the finished forms, or
/// the first error.
pub open spec fn parse_from(st: Seq<Seq<SpecExpr>>, ts: Seq<SpecToken>) -> Result<
    Seq<SpecExpr>,
    ParseError,
>
    recommends
        st.len() >= 1,
    decreases ts.len(),
{
    if ts.len() == 0 {
        if st.len() == 1 {
            Ok(st[0])
        } else {
            Err(ParseError::UnmatchedOpen)
        }
    } else {
        match parse_step(st, ts[0]) {
            Err(e) => Err(e),
            Ok(st2) => parse_from(st2, ts.skip(1)),
        }
    }
}

/// The expressions of a token stream, one per top-level form, or the first
/// error: a closing bracket with no open list, or an end with one open.
pub open spec fn spec_parse(ts: Seq<SpecToken>) -> Result<Seq<SpecExpr>, ParseError> {
    parse_from(seq![Seq::<SpecExpr>::empty()], ts)
}

/// The parse stack a vector stack stands for.
pub open spec fn stack_view(st: Seq<Vec<Expr>>) -> Seq<Seq<SpecExpr>> {
    Seq::new(st.len(), |i: int| exprs_view(st[i]@))
}

/// Parses the token stream into its top-level forms, consuming the tokens
/// front to back: the result [`spec_parse`] assigns to it, or the first
/// error.
pub fn parse_tokens(input: Vec<LexToken>) -> (r: Result<Vec<Expr>, ParseError>)
    ensures
        r matches Ok(forms) ==> spec_parse(tokens_view(input@)) == Ok::<
            Seq<SpecExpr>,
            ParseError,
        >(exprs_view(forms@)),
        r matches Err(e) ==> spec_parse(tokens_view(input@)) == Err::<
            Seq<SpecExpr>,
            ParseError,
        >(e),
{
    broadcast use lemma_exprs_view;

    let mut tokens = input;
    let mut stack: Vec<Vec<Expr>> = Vec::new();
    stack.push(Vec::new());
    proof {
        assert(stack_view(stack@) =~~= seq![Seq::<SpecExpr>::empty()]);
    }
    while tokens.len() > 0
        invariant
            stack@.len() >= 1,
            parse_from(stack_view(stack@), tokens_view(tokens@)) == spec_parse(
                tokens_view(input@),
            ),
        decreases tokens@.len(),
    {
        let ghost st0 = stack_view(stack@);
        let ghost ts0 = tokens_view(tokens@);
        let token = tokens.remove(0);
        proof {
            assert(tokens_view(tokens@) =~= ts0.skip(1));
            assert(token@ == ts0[0]);
        }
        match token {
            LexToken::Num(s) => {
                let ghost sv = s@;
                let mut top = stack.pop().unwrap();
                top.push(Expr::Num(s));
                stack.push(top);
                proof {
                    broadcast use lemma_exprs_view;

                    assert(stack_view(stack@) =~~= push_top(st0, SpecExpr::Num(sv)));
                }
            },
            LexToken::Symbol(s) => {
                let ghost sv = s@;
                let mut top = stack.pop().unwrap();
                top.push(Expr::Symbol(s));
                stack.push(top);
                proof {
                    broadcast use lemma_exprs_view;

                    assert(stack_view(stack@) =~~= push_top(st0, SpecExpr::Symbol(sv)));
                }
            },
            LexToken::String(s) => {
                let ghost sv = s@;
                let mut top = stack.pop().unwrap();
                top.push(Expr::String(s));
                stack.push(top);
                proof {
                    broadcast use lemma_exprs_view;

                    assert(stack_view(stack@) =~~= push_top(st0, SpecExpr::String(sv)));
                }
            },
            LexToken::LeftBracket => {
                stack.push(Vec::new());
                proof {
                    broadcast use lemma_exprs_view;

                    assert(stack_view(stack@) =~~= st0.push(Seq::<SpecExpr>::empty()));
                }
            },
            LexToken::RightBracket => {
                if stack.len() <= 1 {
                    return Err(ParseError::UnmatchedClose);
                }
                let children = stack.pop().unwrap();
                let ghost cv = exprs_view(children@);
                let mut top = stack.pop().unwrap();
                top.push(Expr::List(children));
                stack.push(top);
                proof {
                    broadcast use lemma_exprs_view;

                    assert(cv == st0.last());
                    assert(stack_view(stack@) =~~= push_top(
                        st0.drop_last(),
                        SpecExpr::List(st0.last()),
                    ));
                }
            },
        }
    }
    if stack.len() == 1 {
        let ghost stv = stack_view(stack@);
        let forms = stack.pop().unwrap();
        proof {
            assert(exprs_view(forms@) == stv[0]);
        }
        Ok(forms)
    } else {
        Err(ParseError::UnmatchedOpen)
    }
}

} // verus!
