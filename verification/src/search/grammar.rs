//! Grammar of the search expressions.
//!
//! ```ebnf
//! expr = or | tier ;
//! or = tier, "or", expr ;
//! tier = and | nand | term ;
//! and = term, "and", tier ;
//! nand = term, "nand", tier ;
//! term = parens | equal | not_equal | transition | before | after | any ;
//! parens = "(", expr, ")" ;
//! equal = id, ( "=" | "is" | "equals" ), value ;
//! not_equal = id, ( "!=" | "is not" ), value ;
//! transition = id, ( "<-" | "becomes" ), value ;
//! after = "after", decimal ;
//! before = "before", decimal ;
//! any = id ;
//! value = number | id | "(", value, ")" ;
//! number = "b", bit, { bit } | "h", hex, { hex } | decimal ;
//! decimal = "0" | nonzero, { digit } ;
//! id = "$", graphic, { graphic } ;
//! ```
//!
//! The alternatives of a rule are tried in the order in which they are
//! written and the first that matches is taken; where none matches, the
//! failure of the last one is reported. White space may stand around an
//! identifier, a value, a keyword of `after` and `before`, and the
//! operands of `and`, `nand` and `or`.
use super::expr::{Expr, ExprAst, ValueAst, ValueTerm};
use crate::signaldb::value::{bits_of_chars, bits_of_number, hex_number, ValueFormat, ValueView};
use crate::text::{in_class, parse_int_spec, run_end, CharClass};
use vstd::prelude::*;

verus! {

/// Why a rule did not match.
#[derive(Debug, Clone, Copy, PartialEq, Eq, Structural)]
pub enum ErrorKind {
    /// A fixed text was expected
    Tag,
    /// At least one character of a class was expected
    TakeWhile1,
    /// One character of a class was expected
    TakeWhileMN,
    /// A number does not fit 64 bits
    TooLarge,
}

/// A failure to match: the input that was left where the rule failed,
/// and why it failed.
#[derive(Debug, PartialEq, Eq)]
pub struct ParseError {
    pub input: String,
    pub code: ErrorKind,
}

/// A failure to match at a position of the input.
pub struct Fail {
    pub at: int,
    pub code: ErrorKind,
}

/// A failure to match at a position of the input.
#[derive(Debug, Clone, Copy)]
pub struct Failure {
    pub at: usize,
    pub code: ErrorKind,
}

impl View for Failure {
    type V = Fail;

    open spec fn view(&self) -> Fail {
        Fail { at: self.at as int, code: self.code }
    }
}

/// Whether the input goes on with a fixed text at a position.
pub open spec fn has_tag(s: Seq<char>, p: int, lit: Seq<char>) -> bool {
    0 <= p && p + lit.len() <= s.len() && s.subrange(p, p + lit.len()) == lit
}

/// The position after white space, if there is any.
pub open spec fn after_space(s: Seq<char>, p: int) -> int {
    run_end(s, p, CharClass::Space)
}

/// The position after optional white space.
pub open spec fn skip(s: Seq<char>, p: int) -> int {
    if p <= after_space(s, p) <= s.len() {
        after_space(s, p)
    } else {
        p
    }
}

/// `id = "$", graphic, { graphic }`
pub open spec fn s_identifier(s: Seq<char>, p: int) -> Result<(int, ValueTerm), Fail> {
    if has_tag(s, p, seq!['$']) {
        let e = run_end(s, p + 1, CharClass::Identifier);
        if e > p + 1 {
            Ok((e, ValueTerm::Id(s.subrange(p + 1, e))))
        } else {
            Err(Fail { at: p + 1, code: ErrorKind::TakeWhile1 })
        }
    } else {
        Err(Fail { at: p, code: ErrorKind::Tag })
    }
}

/// An identifier with optional white space around it.
pub open spec fn s_token_identifier(s: Seq<char>, p: int) -> Result<(int, ValueTerm), Fail> {
    match s_identifier(s, skip(s, p)) {
        Ok((e, v)) => Ok((skip(s, e), v)),
        Err(f) => Err(f),
    }
}

/// `decimal = "0" | nonzero, { digit }`, with a value that fits a signed
/// 64-bit integer.
pub open spec fn s_decimal(s: Seq<char>, p: int) -> Result<(int, int), Fail> {
    if has_tag(s, p, seq!['0']) {
        Ok((p + 1, 0))
    } else if 0 <= p < s.len() && '1' <= s[p] && s[p] <= '9' {
        let e = run_end(s, p + 1, CharClass::Digit);
        match parse_int_spec(s.subrange(p, e), true, i64::MIN as int, i64::MAX as int) {
            Some(v) => Ok((e, v)),
            None => Err(Fail { at: p, code: ErrorKind::TooLarge }),
        }
    } else {
        Err(Fail { at: p, code: ErrorKind::TakeWhileMN })
    }
}

/// `number = "b", bit, { bit } | "h", hex, { hex } | decimal`, with a
/// value that fits 64 bits where it is hexadecimal or decimal.
pub open spec fn s_number(s: Seq<char>, p: int) -> Result<(int, ValueTerm), Fail> {
    if has_tag(s, p, seq!['b']) && run_end(s, p + 1, CharClass::Binary) > p + 1 {
        let e = run_end(s, p + 1, CharClass::Binary);
        Ok(
            (
                e,
                ValueTerm::Literal(
                    ValueView::Literal(bits_of_chars(s.subrange(p + 1, e)), ValueFormat::Bin),
                ),
            ),
        )
    } else if has_tag(s, p, seq!['h']) && run_end(s, p + 1, CharClass::Hex) > p + 1 {
        let e = run_end(s, p + 1, CharClass::Hex);
        if e - (p + 1) <= 16 {
            Ok(
                (
                    e,
                    ValueTerm::Literal(
                        ValueView::Literal(
                            bits_of_number(hex_number(s.subrange(p + 1, e))),
                            ValueFormat::Hex,
                        ),
                    ),
                ),
            )
        } else {
            Err(Fail { at: p, code: ErrorKind::TooLarge })
        }
    } else if has_tag(s, p, seq!['0']) {
        Ok((p + 1, ValueTerm::Literal(ValueView::Literal(bits_of_number(0), ValueFormat::Hex))))
    } else if 0 <= p < s.len() && '1' <= s[p] && s[p] <= '9' {
        let e = run_end(s, p + 1, CharClass::Digit);
        match parse_int_spec(s.subrange(p, e), false, 0, u64::MAX as int) {
            Some(v) => Ok(
                (
                    e,
                    ValueTerm::Literal(
                        ValueView::Literal(bits_of_number(v as nat), ValueFormat::Hex),
                    ),
                ),
            ),
            None => Err(Fail { at: p, code: ErrorKind::TooLarge }),
        }
    } else {
        Err(Fail { at: p, code: ErrorKind::TakeWhileMN })
    }
}

/// `value = number | id | "(", value, ")"`
pub open spec fn s_value(s: Seq<char>, p: int) -> Result<(int, ValueTerm), Fail>
    decreases s.len() - p, 1int,
{
    if s_number(s, p) is Ok {
        s_number(s, p)
    } else if s_identifier(s, p) is Ok {
        s_identifier(s, p)
    } else {
        s_value_parens(s, p)
    }
}

/// A value in parentheses.
pub open spec fn s_value_parens(s: Seq<char>, p: int) -> Result<(int, ValueTerm), Fail>
    decreases s.len() - p, 0int,
{
    if has_tag(s, p, seq!['(']) {
        match s_value(s, p + 1) {
            Ok((e, v)) => if has_tag(s, e, seq![')']) {
                Ok((e + 1, v))
            } else {
                Err(Fail { at: e, code: ErrorKind::Tag })
            },
            Err(f) => Err(f),
        }
    } else {
        Err(Fail { at: p, code: ErrorKind::Tag })
    }
}

/// A value with optional white space around it.
pub open spec fn s_token_value(s: Seq<char>, p: int) -> Result<(int, ValueTerm), Fail> {
    match s_value(s, skip(s, p)) {
        Ok((e, v)) => Ok((skip(s, e), v)),
        Err(f) => Err(f),
    }
}

/// The relations between a signal and a value.
#[derive(Debug, Clone, Copy, PartialEq, Eq, Structural)]
pub enum Relation {
    Equal,
    NotEqual,
    Transition,
}

/// The position after the operator of a relation, if one of its
/// spellings stands at the position.
pub open spec fn operator_end(s: Seq<char>, p: int, rel: Relation) -> Option<int> {
    match rel {
        Relation::Equal => if has_tag(s, p, seq!['=']) {
            Some(p + 1)
        } else if has_tag(s, p, seq!['i', 's']) {
            Some(p + 2)
        } else if has_tag(s, p, seq!['e', 'q', 'u', 'a', 'l', 's']) {
            Some(p + 6)
        } else {
            None
        },
        Relation::NotEqual => if has_tag(s, p, seq!['!', '=']) {
            Some(p + 2)
        } else if has_tag(s, p, seq!['i', 's', ' ', 'n', 'o', 't']) {
            Some(p + 6)
        } else {
            None
        },
        Relation::Transition => if has_tag(s, p, seq!['<', '-']) {
            Some(p + 2)
        } else if has_tag(s, p, seq!['b', 'e', 'c', 'o', 'm', 'e', 's']) {
            Some(p + 7)
        } else {
            None
        },
    }
}

/// The expression that a relation between a signal and a value denotes.
pub open spec fn related(rel: Relation, id: Seq<char>, v: ValueTerm) -> Expr {
    match rel {
        Relation::Equal => Expr::Equal(id, v),
        Relation::NotEqual => Expr::Not(Box::new(Expr::Equal(id, v))),
        Relation::Transition => Expr::Transition(id, v),
    }
}

/// `id, operator, value`
pub open spec fn s_relation(s: Seq<char>, p: int, rel: Relation) -> Result<(int, Expr), Fail> {
    match s_token_identifier(s, p) {
        Err(f) => Err(f),
        Ok((q, id)) => match operator_end(s, q, rel) {
            None => Err(Fail { at: q, code: ErrorKind::Tag }),
            Some(r) => match s_token_value(s, r) {
                Err(f) => Err(f),
                Ok((e, v)) => Ok((e, related(rel, id->Id_0, v))),
            },
        },
    }
}

/// `any = id`
pub open spec fn s_any(s: Seq<char>, p: int) -> Result<(int, Expr), Fail> {
    match s_token_identifier(s, p) {
        Err(f) => Err(f),
        Ok((e, id)) => Ok((e, Expr::AnyTransition(id->Id_0))),
    }
}

/// `after = "after", decimal` and `before = "before", decimal`
pub open spec fn s_gate(s: Seq<char>, p: int, after: bool) -> Result<(int, Expr), Fail> {
    let q = skip(s, p);
    let word = if after {
        seq!['a', 'f', 't', 'e', 'r']
    } else {
        seq!['b', 'e', 'f', 'o', 'r', 'e']
    };
    if has_tag(s, q, word) {
        match s_decimal(s, skip(s, q + word.len())) {
            Err(f) => Err(f),
            Ok((e, n)) => Ok(
                (
                    e,
                    if after {
                        Expr::After(n)
                    } else {
                        Expr::Before(n)
                    },
                ),
            ),
        }
    } else {
        Err(Fail { at: q, code: ErrorKind::Tag })
    }
}

/// `parens = "(", expr, ")"`
pub open spec fn s_parens(s: Seq<char>, p: int) -> Result<(int, Expr), Fail>
    decreases s.len() - p, 0int,
{
    if has_tag(s, p, seq!['(']) {
        match s_expr(s, p + 1) {
            Ok((e, x)) => if has_tag(s, e, seq![')']) {
                Ok((e + 1, x))
            } else {
                Err(Fail { at: e, code: ErrorKind::Tag })
            },
            Err(f) => Err(f),
        }
    } else {
        Err(Fail { at: p, code: ErrorKind::Tag })
    }
}

/// `term = parens | equal | not_equal | transition | before | after | any`
pub open spec fn s_term(s: Seq<char>, p: int) -> Result<(int, Expr), Fail>
    decreases s.len() - p, 1int,
{
    if s_parens(s, p) is Ok {
        s_parens(s, p)
    } else if s_relation(s, p, Relation::Equal) is Ok {
        s_relation(s, p, Relation::Equal)
    } else if s_relation(s, p, Relation::NotEqual) is Ok {
        s_relation(s, p, Relation::NotEqual)
    } else if s_relation(s, p, Relation::Transition) is Ok {
        s_relation(s, p, Relation::Transition)
    } else if s_gate(s, p, false) is Ok {
        s_gate(s, p, false)
    } else if s_gate(s, p, true) is Ok {
        s_gate(s, p, true)
    } else {
        s_any(s, p)
    }
}

/// `and = term, "and", tier` and `nand = term, "nand", tier`: a term,
/// which always takes up some input, then the keyword, then a tier.
pub open spec fn s_junction(s: Seq<char>, p: int, negated: bool) -> Result<(int, Expr), Fail>
    decreases s.len() - p, 2int,
{
    let word = if negated {
        seq!['n', 'a', 'n', 'd']
    } else {
        seq!['a', 'n', 'd']
    };
    match s_term(s, skip(s, p)) {
        Err(f) => Err(f),
        Ok((e, l)) => {
            let q = skip(s, e);
            if has_tag(s, q, word) && q + word.len() > p {
                match s_tier(s, skip(s, q + word.len())) {
                    Err(f) => Err(f),
                    Ok((e2, r)) => Ok(
                        (
                            skip(s, e2),
                            if negated {
                                Expr::Not(Box::new(Expr::And(Box::new(l), Box::new(r))))
                            } else {
                                Expr::And(Box::new(l), Box::new(r))
                            },
                        ),
                    ),
                }
            } else {
                Err(Fail { at: q, code: ErrorKind::Tag })
            }
        },
    }
}

/// `tier = and | nand | term`
pub open spec fn s_tier(s: Seq<char>, p: int) -> Result<(int, Expr), Fail>
    decreases s.len() - p, 3int,
{
    if s_junction(s, p, false) is Ok {
        s_junction(s, p, false)
    } else if s_junction(s, p, true) is Ok {
        s_junction(s, p, true)
    } else {
        s_term(s, p)
    }
}

/// `or = tier, "or", expr`
pub open spec fn s_or(s: Seq<char>, p: int) -> Result<(int, Expr), Fail>
    decreases s.len() - p, 4int,
{
    match s_tier(s, skip(s, p)) {
        Err(f) => Err(f),
        Ok((e, l)) => {
            let q = skip(s, e);
            if has_tag(s, q, seq!['o', 'r']) && q + 2 > p {
                match s_expr(s, skip(s, q + 2)) {
                    Err(f) => Err(f),
                    Ok((e2, r)) => Ok((skip(s, e2), Expr::Or(Box::new(l), Box::new(r)))),
                }
            } else {
                Err(Fail { at: q, code: ErrorKind::Tag })
            }
        },
    }
}

/// `expr = or | tier`
pub open spec fn s_expr(s: Seq<char>, p: int) -> Result<(int, Expr), Fail>
    decreases s.len() - p, 5int,
{
    if s_or(s, p) is Ok {
        s_or(s, p)
    } else {
        s_tier(s, p)
    }
}

/// The expression that a text denotes: the text is an expression from
/// its first character on, with nothing but white space after it.
pub open spec fn parsed(s: Seq<char>) -> Option<Expr> {
    match s_expr(s, 0) {
        Ok((e, x)) => if skip(s, e) == s.len() {
            Some(x)
        } else {
            None
        },
        Err(_) => None,
    }
}

/// Whether a text is an identifier, the operator of a transition and a
/// value, with nothing but white space around them.
pub open spec fn transition_text(s: Seq<char>, id: Seq<char>, v: ValueTerm) -> bool {
    match s_token_identifier(s, 0) {
        Ok((q, name)) => name == ValueTerm::Id(id) && match operator_end(
            s,
            q,
            Relation::Transition,
        ) {
            Some(r) => s_token_value(s, r) == Ok::<(int, ValueTerm), Fail>((s.len() as int, v)),
            None => false,
        },
        Err(_) => false,
    }
}

/// White space is skipped once and for all.
pub proof fn lemma_skip_once(s: Seq<char>, p: int)
    ensures
        skip(s, skip(s, p)) == skip(s, p),
        p < skip(s, p) ==> 0 <= p < s.len() && in_class(s[p], CharClass::Space),
    decreases s.len() - p,
{
    if 0 <= p < s.len() && in_class(s[p], CharClass::Space) {
        lemma_skip_once(s, p + 1);
        lemma_run_bounds(s, p + 1, CharClass::Space);
    }
}

/// A run ends at or after its beginning and within the text.
pub proof fn lemma_run_bounds(s: Seq<char>, p: int, class: CharClass)
    requires
        0 <= p <= s.len(),
    ensures
        p <= run_end(s, p, class) <= s.len(),
    decreases s.len() - p,
{
    if p < s.len() && in_class(s[p], class) {
        lemma_run_bounds(s, p + 1, class);
    }
}

/// Such a text is a term from wherever its identifier is the next thing
/// but white space.
#[verifier::rlimit(50)]
proof fn lemma_transition_term(s: Seq<char>, id: Seq<char>, v: ValueTerm, p: int)
    requires
        transition_text(s, id, v),
        skip(s, p) == skip(s, 0),
        0 <= p,
    ensures
        s_term(s, p) == Ok::<(int, Expr), Fail>((s.len() as int, Expr::Transition(id, v))),
{
    lemma_skip_once(s, p);
    let a = skip(s, p);
    assert(has_tag(s, a, seq!['$']));
    assert(s.subrange(a, a + 1)[0] == '$');
    if has_tag(s, p, seq!['(']) {
        assert(s.subrange(p, p + 1)[0] == '(');
        assert(false);
    }
    let q = s_token_identifier(s, p)->Ok_0.0;
    let r = operator_end(s, q, Relation::Transition)->0;
    if has_tag(s, q, seq!['<', '-']) {
        assert(s.subrange(q, q + 2)[0] == '<');
    } else {
        assert(has_tag(s, q, seq!['b', 'e', 'c', 'o', 'm', 'e', 's']));
        assert(s.subrange(q, q + 7)[0] == 'b');
    }
    if has_tag(s, q, seq!['=']) {
        assert(s.subrange(q, q + 1)[0] == '=');
    }
    if has_tag(s, q, seq!['i', 's']) {
        assert(s.subrange(q, q + 2)[0] == 'i');
    }
    if has_tag(s, q, seq!['e', 'q', 'u', 'a', 'l', 's']) {
        assert(s.subrange(q, q + 6)[0] == 'e');
    }
    if has_tag(s, q, seq!['!', '=']) {
        assert(s.subrange(q, q + 2)[0] == '!');
    }
    if has_tag(s, q, seq!['i', 's', ' ', 'n', 'o', 't']) {
        assert(s.subrange(q, q + 6)[0] == 'i');
    }
    assert(operator_end(s, q, Relation::Equal) is None);
    assert(operator_end(s, q, Relation::NotEqual) is None);
    assert(s_relation(s, p, Relation::Equal) is Err);
    assert(s_relation(s, p, Relation::NotEqual) is Err);
    assert(s_relation(s, p, Relation::Transition) == Ok::<(int, Expr), Fail>(
        (s.len() as int, Expr::Transition(id, v)),
    ));
}

/// Such a text is a tier from wherever its identifier is the next thing
/// but white space.
#[verifier::rlimit(50)]
proof fn lemma_transition_tier(s: Seq<char>, id: Seq<char>, v: ValueTerm, p: int)
    requires
        transition_text(s, id, v),
        skip(s, p) == skip(s, 0),
        0 <= p,
    ensures
        s_tier(s, p) == Ok::<(int, Expr), Fail>((s.len() as int, Expr::Transition(id, v))),
{
    lemma_skip_once(s, p);
    lemma_run_bounds(s, s.len() as int, CharClass::Space);
    let a = skip(s, p);
    lemma_transition_term(s, id, v, p);
    if p <= a {
        lemma_transition_term(s, id, v, a);
    }
    assert(skip(s, s.len() as int) == s.len());
    assert(!has_tag(s, s.len() as int, seq!['a', 'n', 'd']));
    assert(!has_tag(s, s.len() as int, seq!['n', 'a', 'n', 'd']));
    assert(s_junction(s, p, false) is Err);
    assert(s_junction(s, p, true) is Err);
}

/// A text that is an identifier, the operator of a transition and a
/// value denotes the transition of that signal to that value.
#[verifier::rlimit(50)]
pub proof fn lemma_transition_text(s: Seq<char>, id: Seq<char>, v: ValueTerm)
    requires
        transition_text(s, id, v),
    ensures
        parsed(s) == Some(Expr::Transition(id, v)),
{
    lemma_skip_once(s, 0);
    lemma_run_bounds(s, s.len() as int, CharClass::Space);
    lemma_run_bounds(s, 0, CharClass::Space);
    lemma_transition_tier(s, id, v, 0);
    lemma_transition_tier(s, id, v, skip(s, 0));
    assert(skip(s, s.len() as int) == s.len());
    assert(!has_tag(s, s.len() as int, seq!['o', 'r']));
    assert(s_or(s, 0) is Err);
}

/// Whether what an exec rule gave for a value is what the grammar says.
pub open spec fn value_is(
    r: Result<(usize, ValueAst), Failure>,
    expected: Result<(int, ValueTerm), Fail>,
) -> bool {
    match r {
        Ok((e, v)) => expected == Ok::<(int, ValueTerm), Fail>((e as int, v@)),
        Err(f) => expected == Err::<(int, ValueTerm), Fail>(f@),
    }
}

/// Whether what an exec rule gave for an expression is what the grammar
/// says.
pub open spec fn expr_is(
    r: Result<(usize, ExprAst), Failure>,
    expected: Result<(int, Expr), Fail>,
) -> bool {
    match r {
        Ok((e, x)) => expected == Ok::<(int, Expr), Fail>((e as int, x@)),
        Err(f) => expected == Err::<(int, Expr), Fail>(f@),
    }
}

/// The position of what a rule gave is within the input and not before
/// the position at which the rule began.
pub open spec fn within<T>(r: Result<(usize, T), Failure>, pos: usize, len: nat) -> bool {
    match r {
        Ok((e, _)) => pos <= e <= len,
        Err(f) => pos <= f.at <= len,
    }
}

} // verus!
