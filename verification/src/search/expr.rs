//! Syntax tree of search expressions.
use super::grammar::parsed;
use super::parser::{parse_expr, skip_space};
use crate::signaldb::value::{SignalValue, ValueView};
use crate::text::{chars_of, string_of};
use crate::vcd::parser::SyntaxError;
use vstd::prelude::*;

verus! {

/// Right-hand side of a comparison.
#[derive(Debug, PartialEq, Eq)]
pub enum ValueAst {
    /// A value written out in the expression
    Literal(SignalValue),
    /// The value of another signal at the same instant
    Id(String),
}

/// A search expression.
#[derive(Debug, PartialEq, Eq)]
pub enum ExprAst {
    /// The signal has the value
    Equal(String, ValueAst),
    /// The signal takes the value at this instant
    Transition(String, ValueAst),
    /// The signal has an event at this instant
    AnyTransition(String),
    Not(Box<ExprAst>),
    And(Box<ExprAst>, Box<ExprAst>),
    Or(Box<ExprAst>, Box<ExprAst>),
    /// The instant is after this many units of time
    After(i64),
    /// The instant is before this many units of time
    Before(i64),
}

/// The mathematical value of a `ValueAst`.
pub enum ValueTerm {
    Literal(ValueView),
    Id(Seq<char>),
}

/// The mathematical value of an `ExprAst`.
pub enum Expr {
    Equal(Seq<char>, ValueTerm),
    Transition(Seq<char>, ValueTerm),
    AnyTransition(Seq<char>),
    Not(Box<Expr>),
    And(Box<Expr>, Box<Expr>),
    Or(Box<Expr>, Box<Expr>),
    After(int),
    Before(int),
}

impl View for ValueAst {
    type V = ValueTerm;

    open spec fn view(&self) -> ValueTerm {
        match self {
            ValueAst::Literal(v) => ValueTerm::Literal(v@),
            ValueAst::Id(id) => ValueTerm::Id(id@),
        }
    }
}

impl ExprAst {
    /// The expression as a mathematical value.
    pub open spec fn model(&self) -> Expr
        decreases self,
    {
        match self {
            ExprAst::Equal(id, v) => Expr::Equal(id@, v@),
            ExprAst::Transition(id, v) => Expr::Transition(id@, v@),
            ExprAst::AnyTransition(id) => Expr::AnyTransition(id@),
            ExprAst::Not(e) => Expr::Not(Box::new(e.model())),
            ExprAst::And(l, r) => Expr::And(Box::new(l.model()), Box::new(r.model())),
            ExprAst::Or(l, r) => Expr::Or(Box::new(l.model()), Box::new(r.model())),
            ExprAst::After(n) => Expr::After(*n as int),
            ExprAst::Before(n) => Expr::Before(*n as int),
        }
    }
}

impl ExprAst {
    /// Reads an expression from its text. The whole text has to be one
    /// expression, with nothing but white space after it; the error
    /// carries the text.
    pub fn from_str(expr: &str) -> (r: Result<ExprAst, SyntaxError>)
        ensures
            match parsed(expr@) {
                Some(e) => r matches Ok(ast) && ast@ == e,
                None => r matches Err(err) && err.line@ == expr@,
            },
    {
        let chars = chars_of(expr);
        match parse_expr(&chars, 0) {
            Ok((e, ast)) => {
                if skip_space(&chars, e) == chars.len() {
                    Ok(ast)
                } else {
                    Err(SyntaxError::new(string_of(&chars)))
                }
            },
            Err(_) => Err(SyntaxError::new(string_of(&chars))),
        }
    }
}

impl View for ExprAst {
    type V = Expr;

    open spec fn view(&self) -> Expr {
        self.model()
    }
}

} // verus!
