//! Reader of search expressions: one function for each rule of the
//! grammar, from a position of the input to the position after what the
//! rule matched.
use super::expr::{Expr, ExprAst, ValueAst, ValueTerm};
use super::grammar::{
    expr_is, has_tag, operator_end, s_any, s_decimal, s_expr, s_gate, s_identifier, s_junction,
    s_number, s_or, s_parens, s_relation, s_term, s_tier, s_token_identifier, s_token_value,
    s_value, s_value_parens, skip, value_is, within, ErrorKind, Fail, Failure, ParseError,
    Relation,
};
use crate::signaldb::value::SignalValue;
pub use crate::text::{is_binary_digit, is_digit, is_digit_start, is_hex_digit, is_identifier};
use crate::text::{
    chars_of, parse_signed, parse_unsigned, string_of_range, take_run, CharClass,
};
use vstd::prelude::*;

verus! {

/// Tests whether the input goes on with a fixed text.
pub fn tag_at(input: &Vec<char>, pos: usize, lit: &str) -> (r: bool)
    requires
        pos <= input.len(),
    ensures
        r == has_tag(input@, pos as int, lit@),
        r ==> pos + lit@.len() <= input.len(),
{
    let text = chars_of(lit);
    if text.len() > input.len() - pos {
        return false;
    }
    let mut i: usize = 0;
    while i < text.len()
        invariant
            i <= text.len(),
            text@ == lit@,
            pos + text.len() <= input.len(),
            forall|k: int| 0 <= k < i ==> input@[pos + k] == text@[k],
        decreases text.len() - i,
    {
        if input[pos + i] != text[i] {
            assert(input@.subrange(pos as int, pos + text.len())[i as int] != text@[i as int]);
            return false;
        }
        i += 1;
    }
    assert(input@.subrange(pos as int, pos + text.len()) =~= text@);
    true
}

/// Skips optional white space.
pub fn skip_space(input: &Vec<char>, pos: usize) -> (r: usize)
    requires
        pos <= input.len(),
    ensures
        r == skip(input@, pos as int),
        pos <= r <= input.len(),
{
    take_run(input, pos, CharClass::Space)
}

/// Reads an identifier: `$` and what follows up to white space.
pub fn parse_identifier(input: &Vec<char>, pos: usize) -> (r: Result<(usize, ValueAst), Failure>)
    requires
        pos <= input.len(),
    ensures
        value_is(r, s_identifier(input@, pos as int)),
        within(r, pos, input@.len()),
        r matches Ok((e, v)) ==> v is Id && e > pos,
{
    proof {
        reveal_strlit("$");
        assert("$"@ =~= seq!['$']);
    }
    if tag_at(input, pos, "$") {
        let e = take_run(input, pos + 1, CharClass::Identifier);
        if e > pos + 1 {
            Ok((e, ValueAst::Id(string_of_range(input, pos + 1, e))))
        } else {
            Err(Failure { at: pos + 1, code: ErrorKind::TakeWhile1 })
        }
    } else {
        Err(Failure { at: pos, code: ErrorKind::Tag })
    }
}

/// Reads an identifier with white space around it.
pub fn parse_token_identifier(input: &Vec<char>, pos: usize) -> (r: Result<
    (usize, ValueAst),
    Failure,
>)
    requires
        pos <= input.len(),
    ensures
        value_is(r, s_token_identifier(input@, pos as int)),
        within(r, pos, input@.len()),
        r matches Ok((e, v)) ==> v is Id && e > pos,
{
    let q = skip_space(input, pos);
    match parse_identifier(input, q) {
        Ok((e, v)) => Ok((skip_space(input, e), v)),
        Err(f) => Err(f),
    }
}

/// Reads a decimal number that fits a signed 64-bit integer.
pub fn parse_decimal(input: &Vec<char>, pos: usize) -> (r: Result<(usize, i64), Failure>)
    requires
        pos <= input.len(),
    ensures
        match r {
            Ok((e, n)) => s_decimal(input@, pos as int) == Ok::<(int, int), Fail>(
                (e as int, n as int),
            ) && e > pos,
            Err(f) => s_decimal(input@, pos as int) == Err::<(int, int), Fail>(f@),
        },
        within(r, pos, input@.len()),
{
    proof {
        reveal_strlit("0");
        assert("0"@ =~= seq!['0']);
    }
    if tag_at(input, pos, "0") {
        Ok((pos + 1, 0))
    } else if pos < input.len() && is_digit_start(input[pos]) {
        let e = take_run(input, pos + 1, CharClass::Digit);
        match parse_signed(input, pos, e) {
            Some(v) => Ok((e, v)),
            None => Err(Failure { at: pos, code: ErrorKind::TooLarge }),
        }
    } else {
        Err(Failure { at: pos, code: ErrorKind::TakeWhileMN })
    }
}

/// Reads a number in binary, in hexadecimal or in decimal.
pub fn parse_number(input: &Vec<char>, pos: usize) -> (r: Result<(usize, ValueAst), Failure>)
    requires
        pos <= input.len(),
    ensures
        value_is(r, s_number(input@, pos as int)),
        within(r, pos, input@.len()),
        r matches Ok((e, v)) ==> e > pos,
{
    proof {
        reveal_strlit("b");
        assert("b"@ =~= seq!['b']);
        reveal_strlit("h");
        assert("h"@ =~= seq!['h']);
        reveal_strlit("0");
        assert("0"@ =~= seq!['0']);
    }
    if tag_at(input, pos, "b") {
        let e = take_run(input, pos + 1, CharClass::Binary);
        if e > pos + 1 {
            return Ok((e, ValueAst::Literal(SignalValue::from_bit_chars(input, pos + 1, e))));
        }
    }
    if tag_at(input, pos, "h") {
        let e = take_run(input, pos + 1, CharClass::Hex);
        if e > pos + 1 {
            if e - (pos + 1) <= 16 {
                return Ok((e, ValueAst::Literal(SignalValue::from_hex_chars(input, pos + 1, e))));
            } else {
                return Err(Failure { at: pos, code: ErrorKind::TooLarge });
            }
        }
    }
    if tag_at(input, pos, "0") {
        Ok((pos + 1, ValueAst::Literal(SignalValue::new(0))))
    } else if pos < input.len() && is_digit_start(input[pos]) {
        let e = take_run(input, pos + 1, CharClass::Digit);
        match parse_unsigned(input, pos, e, u64::MAX) {
            Some(v) => Ok((e, ValueAst::Literal(SignalValue::new(v)))),
            None => Err(Failure { at: pos, code: ErrorKind::TooLarge }),
        }
    } else {
        Err(Failure { at: pos, code: ErrorKind::TakeWhileMN })
    }
}

/// Reads a value: a number, an identifier or a value in parentheses.
pub fn parse_value(input: &Vec<char>, pos: usize) -> (r: Result<(usize, ValueAst), Failure>)
    requires
        pos <= input.len(),
    ensures
        value_is(r, s_value(input@, pos as int)),
        within(r, pos, input@.len()),
        r matches Ok((e, v)) ==> e > pos,
    decreases input.len() - pos, 1int,
{
    match parse_number(input, pos) {
        Ok(found) => {
            return Ok(found);
        },
        Err(_) => {},
    }
    match parse_identifier(input, pos) {
        Ok(found) => {
            return Ok(found);
        },
        Err(_) => {},
    }
    parse_value_parens(input, pos)
}

/// Reads a value in parentheses.
pub fn parse_value_parens(input: &Vec<char>, pos: usize) -> (r: Result<(usize, ValueAst), Failure>)
    requires
        pos <= input.len(),
    ensures
        value_is(r, s_value_parens(input@, pos as int)),
        within(r, pos, input@.len()),
        r matches Ok((e, v)) ==> e > pos,
    decreases input.len() - pos, 0int,
{
    proof {
        reveal_strlit("(");
        assert("("@ =~= seq!['(']);
        reveal_strlit(")");
        assert(")"@ =~= seq![')']);
    }
    if tag_at(input, pos, "(") {
        match parse_value(input, pos + 1) {
            Ok((e, v)) => {
                if tag_at(input, e, ")") {
                    Ok((e + 1, v))
                } else {
                    Err(Failure { at: e, code: ErrorKind::Tag })
                }
            },
            Err(f) => Err(f),
        }
    } else {
        Err(Failure { at: pos, code: ErrorKind::Tag })
    }
}

/// Reads a value with white space around it.
pub fn parse_token_value(input: &Vec<char>, pos: usize) -> (r: Result<(usize, ValueAst), Failure>)
    requires
        pos <= input.len(),
    ensures
        value_is(r, s_token_value(input@, pos as int)),
        within(r, pos, input@.len()),
        r matches Ok((e, v)) ==> e > pos,
{
    let q = skip_space(input, pos);
    match parse_value(input, q) {
        Ok((e, v)) => Ok((skip_space(input, e), v)),
        Err(f) => Err(f),
    }
}

/// Finds the end of the operator of a relation.
pub fn parse_operator(input: &Vec<char>, pos: usize, rel: Relation) -> (r: Option<usize>)
    requires
        pos <= input.len(),
    ensures
        match r {
            Some(e) => operator_end(input@, pos as int, rel) == Some(e as int) && pos < e
                <= input.len(),
            None => operator_end(input@, pos as int, rel) is None,
        },
{
    proof {
        reveal_strlit("=");
        assert("="@ =~= seq!['=']);
        reveal_strlit("is");
        assert("is"@ =~= seq!['i', 's']);
        reveal_strlit("equals");
        assert("equals"@ =~= seq!['e', 'q', 'u', 'a', 'l', 's']);
        reveal_strlit("!=");
        assert("!="@ =~= seq!['!', '=']);
        reveal_strlit("is not");
        assert("is not"@ =~= seq!['i', 's', ' ', 'n', 'o', 't']);
        reveal_strlit("<-");
        assert("<-"@ =~= seq!['<', '-']);
        reveal_strlit("becomes");
        assert("becomes"@ =~= seq!['b', 'e', 'c', 'o', 'm', 'e', 's']);
    }
    match rel {
        Relation::Equal => {
            if tag_at(input, pos, "=") {
                Some(pos + 1)
            } else if tag_at(input, pos, "is") {
                Some(pos + 2)
            } else if tag_at(input, pos, "equals") {
                Some(pos + 6)
            } else {
                None
            }
        },
        Relation::NotEqual => {
            if tag_at(input, pos, "!=") {
                Some(pos + 2)
            } else if tag_at(input, pos, "is not") {
                Some(pos + 6)
            } else {
                None
            }
        },
        Relation::Transition => {
            if tag_at(input, pos, "<-") {
                Some(pos + 2)
            } else if tag_at(input, pos, "becomes") {
                Some(pos + 7)
            } else {
                None
            }
        },
    }
}

/// Reads a relation between a signal and a value.
pub fn parse_relation(input: &Vec<char>, pos: usize, rel: Relation) -> (r: Result<
    (usize, ExprAst),
    Failure,
>)
    requires
        pos <= input.len(),
    ensures
        expr_is(r, s_relation(input@, pos as int, rel)),
        within(r, pos, input@.len()),
        r matches Ok((e, v)) ==> e > pos,
{
    reveal_with_fuel(ExprAst::model, 3);
    let (q, left) = match parse_token_identifier(input, pos) {
        Ok(found) => found,
        Err(f) => {
            return Err(f);
        },
    };
    let after = match parse_operator(input, q, rel) {
        Some(after) => after,
        None => {
            return Err(Failure { at: q, code: ErrorKind::Tag });
        },
    };
    let (e, right) = match parse_token_value(input, after) {
        Ok(found) => found,
        Err(f) => {
            return Err(f);
        },
    };
    match left {
        ValueAst::Id(id) => {
            let x = match rel {
                Relation::Equal => ExprAst::Equal(id, right),
                Relation::NotEqual => {
                    let inner = ExprAst::Equal(id, right);
                    ExprAst::Not(Box::new(inner))
                },
                Relation::Transition => ExprAst::Transition(id, right),
            };
            Ok((e, x))
        },
        ValueAst::Literal(_) => Err(Failure { at: pos, code: ErrorKind::Tag }),
    }
}

/// Reads an identifier that stands for any transition of the signal.
pub fn parse_any(input: &Vec<char>, pos: usize) -> (r: Result<(usize, ExprAst), Failure>)
    requires
        pos <= input.len(),
    ensures
        expr_is(r, s_any(input@, pos as int)),
        within(r, pos, input@.len()),
        r matches Ok((e, v)) ==> e > pos,
{
    reveal_with_fuel(ExprAst::model, 3);
    match parse_token_identifier(input, pos) {
        Ok((e, ValueAst::Id(id))) => {
            let x = ExprAst::AnyTransition(id);
            Ok((e, x))
        },
        Ok((_, ValueAst::Literal(_))) => Err(Failure { at: pos, code: ErrorKind::Tag }),
        Err(f) => Err(f),
    }
}

/// Reads `after` or `before` and the count of time that follows it.
pub fn parse_gate(input: &Vec<char>, pos: usize, after: bool) -> (r: Result<
    (usize, ExprAst),
    Failure,
>)
    requires
        pos <= input.len(),
    ensures
        expr_is(r, s_gate(input@, pos as int, after)),
        within(r, pos, input@.len()),
        r matches Ok((e, v)) ==> e > pos,
{
    reveal_with_fuel(ExprAst::model, 3);
    proof {
        reveal_strlit("after");
        assert("after"@ =~= seq!['a', 'f', 't', 'e', 'r']);
        reveal_strlit("before");
        assert("before"@ =~= seq!['b', 'e', 'f', 'o', 'r', 'e']);
    }
    let q = skip_space(input, pos);
    let matched = if after {
        tag_at(input, q, "after")
    } else {
        tag_at(input, q, "before")
    };
    if matched {
        let width: usize = if after {
            5
        } else {
            6
        };
        let from = skip_space(input, q + width);
        match parse_decimal(input, from) {
            Ok((e, n)) => {
                let x = if after {
                    ExprAst::After(n)
                } else {
                    ExprAst::Before(n)
                };
                Ok((e, x))
            },
            Err(f) => Err(f),
        }
    } else {
        Err(Failure { at: q, code: ErrorKind::Tag })
    }
}

/// Reads an expression in parentheses.
pub fn parse_parens(input: &Vec<char>, pos: usize) -> (r: Result<(usize, ExprAst), Failure>)
    requires
        pos <= input.len(),
    ensures
        expr_is(r, s_parens(input@, pos as int)),
        within(r, pos, input@.len()),
        r matches Ok((e, v)) ==> e > pos,
    decreases input.len() - pos, 0int,
{
    proof {
        reveal_strlit("(");
        assert("("@ =~= seq!['(']);
        reveal_strlit(")");
        assert(")"@ =~= seq![')']);
    }
    if tag_at(input, pos, "(") {
        match parse_expr(input, pos + 1) {
            Ok((e, x)) => {
                if tag_at(input, e, ")") {
                    Ok((e + 1, x))
                } else {
                    Err(Failure { at: e, code: ErrorKind::Tag })
                }
            },
            Err(f) => Err(f),
        }
    } else {
        Err(Failure { at: pos, code: ErrorKind::Tag })
    }
}

/// Reads a term: the first of its alternatives that matches.
pub fn parse_term(input: &Vec<char>, pos: usize) -> (r: Result<(usize, ExprAst), Failure>)
    requires
        pos <= input.len(),
    ensures
        expr_is(r, s_term(input@, pos as int)),
        within(r, pos, input@.len()),
        r matches Ok((e, v)) ==> e > pos,
    decreases input.len() - pos, 1int,
{
    match parse_parens(input, pos) {
        Ok(found) => {
            return Ok(found);
        },
        Err(_) => {},
    }
    match parse_relation(input, pos, Relation::Equal) {
        Ok(found) => {
            return Ok(found);
        },
        Err(_) => {},
    }
    match parse_relation(input, pos, Relation::NotEqual) {
        Ok(found) => {
            return Ok(found);
        },
        Err(_) => {},
    }
    match parse_relation(input, pos, Relation::Transition) {
        Ok(found) => {
            return Ok(found);
        },
        Err(_) => {},
    }
    match parse_gate(input, pos, false) {
        Ok(found) => {
            return Ok(found);
        },
        Err(_) => {},
    }
    match parse_gate(input, pos, true) {
        Ok(found) => {
            return Ok(found);
        },
        Err(_) => {},
    }
    parse_any(input, pos)
}

/// Reads a term, `and` or `nand`, and a tier.
pub fn parse_junction(input: &Vec<char>, pos: usize, negated: bool) -> (r: Result<
    (usize, ExprAst),
    Failure,
>)
    requires
        pos <= input.len(),
    ensures
        expr_is(r, s_junction(input@, pos as int, negated)),
        within(r, pos, input@.len()),
        r matches Ok((e, v)) ==> e > pos,
    decreases input.len() - pos, 2int,
{
    reveal_with_fuel(ExprAst::model, 3);
    proof {
        reveal_strlit("and");
        assert("and"@ =~= seq!['a', 'n', 'd']);
        reveal_strlit("nand");
        assert("nand"@ =~= seq!['n', 'a', 'n', 'd']);
    }
    let start = skip_space(input, pos);
    let (e, left) = match parse_term(input, start) {
        Ok(found) => found,
        Err(f) => {
            return Err(f);
        },
    };
    let q = skip_space(input, e);
    let matched = if negated {
        tag_at(input, q, "nand")
    } else {
        tag_at(input, q, "and")
    };
    if !matched {
        return Err(Failure { at: q, code: ErrorKind::Tag });
    }
    let width: usize = if negated {
        4
    } else {
        3
    };
    let from = skip_space(input, q + width);
    match parse_tier(input, from) {
        Ok((e2, right)) => {
            let both = ExprAst::And(Box::new(left), Box::new(right));
            let x = if negated {
                ExprAst::Not(Box::new(both))
            } else {
                both
            };
            Ok((skip_space(input, e2), x))
        },
        Err(f) => Err(f),
    }
}

/// Reads a tier: a junction, or else a term.
pub fn parse_tier(input: &Vec<char>, pos: usize) -> (r: Result<(usize, ExprAst), Failure>)
    requires
        pos <= input.len(),
    ensures
        expr_is(r, s_tier(input@, pos as int)),
        within(r, pos, input@.len()),
        r matches Ok((e, v)) ==> e > pos,
    decreases input.len() - pos, 3int,
{
    match parse_junction(input, pos, false) {
        Ok(found) => {
            return Ok(found);
        },
        Err(_) => {},
    }
    match parse_junction(input, pos, true) {
        Ok(found) => {
            return Ok(found);
        },
        Err(_) => {},
    }
    parse_term(input, pos)
}

/// Reads a tier, `or`, and an expression.
pub fn parse_or(input: &Vec<char>, pos: usize) -> (r: Result<(usize, ExprAst), Failure>)
    requires
        pos <= input.len(),
    ensures
        expr_is(r, s_or(input@, pos as int)),
        within(r, pos, input@.len()),
        r matches Ok((e, v)) ==> e > pos,
    decreases input.len() - pos, 4int,
{
    reveal_with_fuel(ExprAst::model, 3);
    proof {
        reveal_strlit("or");
        assert("or"@ =~= seq!['o', 'r']);
    }
    let start = skip_space(input, pos);
    let (e, left) = match parse_tier(input, start) {
        Ok(found) => found,
        Err(f) => {
            return Err(f);
        },
    };
    let q = skip_space(input, e);
    if !tag_at(input, q, "or") {
        return Err(Failure { at: q, code: ErrorKind::Tag });
    }
    let from = skip_space(input, q + 2);
    match parse_expr(input, from) {
        Ok((e2, right)) => {
            let x = ExprAst::Or(Box::new(left), Box::new(right));
            Ok((skip_space(input, e2), x))
        },
        Err(f) => Err(f),
    }
}

/// Reads an expression: a disjunction, or else a tier.
pub fn parse_expr(input: &Vec<char>, pos: usize) -> (r: Result<(usize, ExprAst), Failure>)
    requires
        pos <= input.len(),
    ensures
        expr_is(r, s_expr(input@, pos as int)),
        within(r, pos, input@.len()),
        r matches Ok((e, v)) ==> e > pos,
    decreases input.len() - pos, 5int,
{
    match parse_or(input, pos) {
        Ok(found) => {
            return Ok(found);
        },
        Err(_) => {},
    }
    parse_tier(input, pos)
}

/// Whether what a rule gave on a whole text, with the input that it
/// left, is what the grammar says.
pub open spec fn value_left(
    r: Result<(String, ValueAst), ParseError>,
    s: Seq<char>,
    expected: Result<(int, ValueTerm), Fail>,
) -> bool {
    match expected {
        Ok((e, v)) => r matches Ok((rest, x)) && rest@ == s.subrange(e, s.len() as int) && x@ == v,
        Err(f) => r matches Err(err) && err.input@ == s.subrange(f.at, s.len() as int) && err.code
            == f.code,
    }
}

/// Whether what a rule gave on a whole text, with the input that it
/// left, is what the grammar says.
pub open spec fn expr_left(
    r: Result<(String, ExprAst), ParseError>,
    s: Seq<char>,
    expected: Result<(int, Expr), Fail>,
) -> bool {
    match expected {
        Ok((e, v)) => r matches Ok((rest, x)) && rest@ == s.subrange(e, s.len() as int) && x@ == v,
        Err(f) => r matches Err(err) && err.input@ == s.subrange(f.at, s.len() as int) && err.code
            == f.code,
    }
}

fn left_value(input: &Vec<char>, r: Result<(usize, ValueAst), Failure>) -> (out: Result<
    (String, ValueAst),
    ParseError,
>)
    requires
        within(r, 0, input@.len()),
    ensures
        forall|expected: Result<(int, ValueTerm), Fail>|
            value_is(r, expected) ==> value_left(out, input@, expected),
{
    match r {
        Ok((e, v)) => Ok((string_of_range(input, e, input.len()), v)),
        Err(f) => Err(
            ParseError { input: string_of_range(input, f.at, input.len()), code: f.code },
        ),
    }
}

fn left_expr(input: &Vec<char>, r: Result<(usize, ExprAst), Failure>) -> (out: Result<
    (String, ExprAst),
    ParseError,
>)
    requires
        within(r, 0, input@.len()),
    ensures
        forall|expected: Result<(int, Expr), Fail>|
            expr_is(r, expected) ==> expr_left(out, input@, expected),
{
    match r {
        Ok((e, v)) => Ok((string_of_range(input, e, input.len()), v)),
        Err(f) => Err(
            ParseError { input: string_of_range(input, f.at, input.len()), code: f.code },
        ),
    }
}

/// Recognizes a number.
pub fn number(input: &str) -> (r: Result<(String, ValueAst), ParseError>)
    ensures
        value_left(r, input@, s_number(input@, 0)),
{
    let chars = chars_of(input);
    left_value(&chars, parse_number(&chars, 0))
}

/// Recognizes an identifier.
pub fn identifier(input: &str) -> (r: Result<(String, ValueAst), ParseError>)
    ensures
        value_left(r, input@, s_identifier(input@, 0)),
{
    let chars = chars_of(input);
    left_value(&chars, parse_identifier(&chars, 0))
}

/// Recognizes a value in parentheses.
pub fn value_parens(input: &str) -> (r: Result<(String, ValueAst), ParseError>)
    ensures
        value_left(r, input@, s_value_parens(input@, 0)),
{
    let chars = chars_of(input);
    left_value(&chars, parse_value_parens(&chars, 0))
}

/// Recognizes a value.
pub fn value(input: &str) -> (r: Result<(String, ValueAst), ParseError>)
    ensures
        value_left(r, input@, s_value(input@, 0)),
{
    let chars = chars_of(input);
    left_value(&chars, parse_value(&chars, 0))
}

/// Recognizes an equivalence condition.
pub fn equal(input: &str) -> (r: Result<(String, ExprAst), ParseError>)
    ensures
        expr_left(r, input@, s_relation(input@, 0, Relation::Equal)),
{
    let chars = chars_of(input);
    left_expr(&chars, parse_relation(&chars, 0, Relation::Equal))
}

/// Recognizes a non-equivalence condition.
pub fn not_equal(input: &str) -> (r: Result<(String, ExprAst), ParseError>)
    ensures
        expr_left(r, input@, s_relation(input@, 0, Relation::NotEqual)),
{
    let chars = chars_of(input);
    left_expr(&chars, parse_relation(&chars, 0, Relation::NotEqual))
}

/// Recognizes a transition.
pub fn transition(input: &str) -> (r: Result<(String, ExprAst), ParseError>)
    ensures
        expr_left(r, input@, s_relation(input@, 0, Relation::Transition)),
{
    let chars = chars_of(input);
    left_expr(&chars, parse_relation(&chars, 0, Relation::Transition))
}

/// Recognizes any transition.
pub fn any(input: &str) -> (r: Result<(String, ExprAst), ParseError>)
    ensures
        expr_left(r, input@, s_any(input@, 0)),
{
    let chars = chars_of(input);
    left_expr(&chars, parse_any(&chars, 0))
}

/// Recognizes an after duration.
pub fn after(input: &str) -> (r: Result<(String, ExprAst), ParseError>)
    ensures
        expr_left(r, input@, s_gate(input@, 0, true)),
{
    let chars = chars_of(input);
    left_expr(&chars, parse_gate(&chars, 0, true))
}

/// Recognizes a before duration.
pub fn before(input: &str) -> (r: Result<(String, ExprAst), ParseError>)
    ensures
        expr_left(r, input@, s_gate(input@, 0, false)),
{
    let chars = chars_of(input);
    left_expr(&chars, parse_gate(&chars, 0, false))
}

/// Recognizes a logical and.
pub fn and(input: &str) -> (r: Result<(String, ExprAst), ParseError>)
    ensures
        expr_left(r, input@, s_junction(input@, 0, false)),
{
    let chars = chars_of(input);
    left_expr(&chars, parse_junction(&chars, 0, false))
}

/// Recognizes a logical nand.
pub fn nand(input: &str) -> (r: Result<(String, ExprAst), ParseError>)
    ensures
        expr_left(r, input@, s_junction(input@, 0, true)),
{
    let chars = chars_of(input);
    left_expr(&chars, parse_junction(&chars, 0, true))
}

/// Recognizes a logical or.
pub fn or(input: &str) -> (r: Result<(String, ExprAst), ParseError>)
    ensures
        expr_left(r, input@, s_or(input@, 0)),
{
    let chars = chars_of(input);
    left_expr(&chars, parse_or(&chars, 0))
}

/// Recognizes an expression in parentheses.
pub fn parens(input: &str) -> (r: Result<(String, ExprAst), ParseError>)
    ensures
        expr_left(r, input@, s_parens(input@, 0)),
{
    let chars = chars_of(input);
    left_expr(&chars, parse_parens(&chars, 0))
}

/// Recognizes an expression term.
pub fn term(input: &str) -> (r: Result<(String, ExprAst), ParseError>)
    ensures
        expr_left(r, input@, s_term(input@, 0)),
{
    let chars = chars_of(input);
    left_expr(&chars, parse_term(&chars, 0))
}

/// Recognizes a tiered expression.
pub fn tier(input: &str) -> (r: Result<(String, ExprAst), ParseError>)
    ensures
        expr_left(r, input@, s_tier(input@, 0)),
{
    let chars = chars_of(input);
    left_expr(&chars, parse_tier(&chars, 0))
}

/// Recognizes an expression.
pub fn expr(input: &str) -> (r: Result<(String, ExprAst), ParseError>)
    ensures
        expr_left(r, input@, s_expr(input@, 0)),
{
    let chars = chars_of(input);
    left_expr(&chars, parse_expr(&chars, 0))
}

/// Recognizes a decimal number.
pub fn decimal(input: &str) -> (r: Result<(String, i64), ParseError>)
    ensures
        match s_decimal(input@, 0) {
            Ok((e, v)) => r matches Ok((rest, x)) && rest@ == input@.subrange(
                e,
                input@.len() as int,
            ) && x == v,
            Err(f) => r matches Err(err) && err.input@ == input@.subrange(
                f.at,
                input@.len() as int,
            ) && err.code == f.code,
        },
{
    let chars = chars_of(input);
    match parse_decimal(&chars, 0) {
        Ok((e, v)) => Ok((string_of_range(&chars, e, chars.len()), v)),
        Err(f) => Err(
            ParseError { input: string_of_range(&chars, f.at, chars.len()), code: f.code },
        ),
    }
}

} // verus!
