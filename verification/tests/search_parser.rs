use dwfv::search::grammar::{ErrorKind, ParseError};
use dwfv::search::parser::{
    after, and, any, before, decimal, equal, expr, identifier, is_binary_digit, is_digit,
    is_digit_start, is_hex_digit, is_identifier, nand, not_equal, number, or, parens, term, tier,
    transition, value, value_parens,
};
use dwfv::search::{ExprAst, ValueAst};
use dwfv::signaldb::BitValue::{self, High, HighZ, Low, Undefined};
use dwfv::signaldb::SignalValue;
use ErrorKind::{Tag, TakeWhile1, TakeWhileMN, TooLarge};

fn make_error<Output>(input: &str, code: ErrorKind) -> Result<(String, Output), ParseError> {
    Err(ParseError {
        input: input.to_string(),
        code,
    })
}

fn left<Output>(rest: &str, value: Output) -> Result<(String, Output), ParseError> {
    Ok((rest.to_string(), value))
}

fn make_id(id: &str) -> ValueAst {
    ValueAst::Id(id.to_string())
}

fn make_literal(value: u64) -> ValueAst {
    ValueAst::Literal(SignalValue::new(value))
}

fn make_bitvalue(width: usize, value: BitValue) -> ValueAst {
    ValueAst::Literal(SignalValue::new_default(width, value))
}

#[test]
fn test_number() {
    assert_eq!(number("b0 foo"), left(" foo", make_bitvalue(1, Low)));
    assert_eq!(number("bz bar"), left(" bar", make_bitvalue(1, HighZ)));
    assert_eq!(number("bu"), left("", make_bitvalue(1, Undefined)));
    assert_eq!(number("b12"), left("2", make_bitvalue(1, High)));
    assert_eq!(number("h0"), left("", make_literal(0)));
    assert_eq!(number("h4a"), left("", make_literal(74)));
    assert_eq!(number("0"), left("", make_literal(0)));
    assert_eq!(number("1"), left("", make_literal(1)));
    assert_eq!(number("01"), left("1", make_literal(0)));
    assert_eq!(number("42"), left("", make_literal(42)));

    assert_eq!(number(""), make_error("", TakeWhileMN));
    assert_eq!(number(" "), make_error(" ", TakeWhileMN));
    assert_eq!(number("b2"), make_error("b2", TakeWhileMN));
    assert_eq!(number("$a"), make_error("$a", TakeWhileMN));
}

#[test]
fn test_identifier() {
    assert_eq!(identifier("$a"), left("", make_id("a")));
    assert_eq!(identifier("$abc"), left("", make_id("abc")));
    assert_eq!(identifier("$.*"), left("", make_id(".*")));

    assert_eq!(identifier(""), make_error("", Tag));
    assert_eq!(identifier(" "), make_error(" ", Tag));
    assert_eq!(identifier("0"), make_error("0", Tag));
    assert_eq!(identifier("a"), make_error("a", Tag));
}

#[test]
fn test_value() {
    assert_eq!(value("$foo123 bar"), left(" bar", make_id("foo123")));
    assert_eq!(value("hdz"), left("z", make_literal(13)));

    assert_eq!(value(""), make_error("", Tag));
    assert_eq!(value(" "), make_error(" ", Tag));
    assert_eq!(value("a"), make_error("a", Tag));
}

#[test]
fn test_equal() {
    assert_eq!(
        equal("$a = b0 bar"),
        left("bar", ExprAst::Equal("a".to_string(), make_bitvalue(1, Low)))
    );
    assert_eq!(
        equal("$abc is 42z"),
        left("z", ExprAst::Equal("abc".to_string(), make_literal(42)))
    );
    assert_eq!(
        equal("$.* equals bu"),
        left(
            "",
            ExprAst::Equal(".*".to_string(), make_bitvalue(1, Undefined))
        )
    );

    assert_eq!(equal(""), make_error("", Tag));
    assert_eq!(equal(" "), make_error("", Tag));
    assert_eq!(equal("bz = bz"), make_error("bz = bz", Tag));
    assert_eq!(equal("foo = bar"), make_error("foo = bar", Tag));
}

#[test]
fn test_not_equal() {
    assert_eq!(
        not_equal("$a != b0 bar"),
        left(
            "bar",
            ExprAst::Not(Box::new(ExprAst::Equal(
                "a".to_string(),
                make_bitvalue(1, Low)
            )))
        )
    );
    assert_eq!(
        not_equal("$.* is not bu"),
        left(
            "",
            ExprAst::Not(Box::new(ExprAst::Equal(
                ".*".to_string(),
                make_bitvalue(1, Undefined)
            )))
        )
    );

    assert_eq!(not_equal(""), make_error("", Tag));
    assert_eq!(not_equal(" "), make_error("", Tag));
    assert_eq!(not_equal("bz != bz"), make_error("bz != bz", Tag));
    assert_eq!(not_equal("foo != bar"), make_error("foo != bar", Tag));
}

#[test]
fn parser_test_transition() {
    assert_eq!(
        transition("$a <- b0 bar"),
        left(
            "bar",
            ExprAst::Transition("a".to_string(), make_bitvalue(1, Low))
        )
    );
    assert_eq!(
        transition("$.* becomes bu"),
        left(
            "",
            ExprAst::Transition(".*".to_string(), make_bitvalue(1, Undefined))
        )
    );

    assert_eq!(transition(""), make_error("", Tag));
    assert_eq!(transition(" "), make_error("", Tag));
    assert_eq!(transition("bz <- bz"), make_error("bz <- bz", Tag));
    assert_eq!(
        transition("foo becomes bar"),
        make_error("foo becomes bar", Tag)
    );
}

#[test]
fn test_any() {
    assert_eq!(
        any("$a foo"),
        left("foo", ExprAst::AnyTransition("a".to_string()))
    );
    assert_eq!(any("$.*"), left("", ExprAst::AnyTransition(".*".to_string())));

    assert_eq!(any(""), make_error("", Tag));
    assert_eq!(any(" "), make_error("", Tag));
}

#[test]
fn test_after() {
    assert_eq!(after("after 12 foo"), left(" foo", ExprAst::After(12)));

    assert_eq!(after(""), make_error("", Tag));
    assert_eq!(after(" "), make_error("", Tag));
}

#[test]
fn test_before() {
    assert_eq!(before("before 2"), left("", ExprAst::Before(2)));
    assert_eq!(before("before 23 foo"), left(" foo", ExprAst::Before(23)));

    assert_eq!(before(""), make_error("", Tag));
    assert_eq!(before(" "), make_error("", Tag));
}

#[test]
fn test_and() {
    assert_eq!(
        and("$a = 8 and before 2"),
        left(
            "",
            ExprAst::And(
                Box::new(ExprAst::Equal("a".to_string(), make_literal(8))),
                Box::new(ExprAst::Before(2))
            )
        )
    );
    assert_eq!(
        and("$a <- 0 and $b = 4"),
        left(
            "",
            ExprAst::And(
                Box::new(ExprAst::Transition("a".to_string(), make_literal(0))),
                Box::new(ExprAst::Equal("b".to_string(), make_literal(4)))
            )
        )
    );

    assert_eq!(and(""), make_error("", Tag));
    assert_eq!(and(" "), make_error("", Tag));
}

#[test]
fn test_or() {
    assert_eq!(
        or("$a = 8 or before 2"),
        left(
            "",
            ExprAst::Or(
                Box::new(ExprAst::Equal("a".to_string(), make_literal(8))),
                Box::new(ExprAst::Before(2))
            )
        )
    );

    assert_eq!(or(""), make_error("", Tag));
    assert_eq!(or(" "), make_error("", Tag));
}

#[test]
fn test_expr() {
    assert_eq!(
        expr("($a becomes (0))"),
        left("", ExprAst::Transition("a".to_string(), make_literal(0)),)
    );
    assert_eq!(
        expr("$a <- 0 and $b = 4"),
        left(
            "",
            ExprAst::And(
                Box::new(ExprAst::Transition("a".to_string(), make_literal(0))),
                Box::new(ExprAst::Equal("b".to_string(), make_literal(4)))
            )
        )
    );

    assert_eq!(or(""), make_error("", Tag));
    assert_eq!(or(" "), make_error("", Tag));
}

#[test]
fn character_classes() {
    assert!(is_digit_start('1'));
    assert!(!is_digit_start('0'));
    assert!(is_digit('0'));
    assert!(!is_digit('a'));
    assert!(is_binary_digit('-'));
    assert!(is_binary_digit('w'));
    assert!(!is_binary_digit('x'));
    assert!(is_hex_digit('F'));
    assert!(is_hex_digit('a'));
    assert!(!is_hex_digit('g'));
    assert!(is_identifier('$'));
    assert!(!is_identifier(' '));
    assert!(!is_identifier('\u{7f}'));
    assert!(!is_identifier('\u{a0}'));
}

#[test]
fn other_rules() {
    assert_eq!(decimal("0"), left("", 0));
    assert_eq!(decimal("07"), left("7", 0));
    assert_eq!(decimal("120 x"), left(" x", 120));
    assert_eq!(decimal("x"), make_error("x", TakeWhileMN));
    assert_eq!(decimal("9223372036854775808"), make_error("9223372036854775808", TooLarge));
    assert_eq!(number("18446744073709551616"), make_error("18446744073709551616", TooLarge));
    assert_eq!(number("h00000000000000001"), make_error("h00000000000000001", TooLarge));
    assert_eq!(identifier("$ a"), make_error(" a", TakeWhile1));
    assert_eq!(value_parens("((7))x"), left("x", make_literal(7)));
    assert_eq!(value_parens("(7"), make_error("", Tag));
    assert_eq!(value_parens("7"), make_error("7", Tag));
    assert_eq!(
        parens("($a)"),
        make_error("", Tag)
    );
    assert_eq!(
        parens("($a )x"),
        left("x", ExprAst::AnyTransition("a".to_string()))
    );
    assert_eq!(
        term("before 3 and"),
        left(" and", ExprAst::Before(3))
    );
    assert_eq!(
        tier("$a nand $b or"),
        left(
            "or",
            ExprAst::Not(Box::new(ExprAst::And(
                Box::new(ExprAst::AnyTransition("a".to_string())),
                Box::new(ExprAst::AnyTransition("b".to_string()))
            )))
        )
    );
    assert_eq!(
        nand("$a nand $b"),
        left(
            "",
            ExprAst::Not(Box::new(ExprAst::And(
                Box::new(ExprAst::AnyTransition("a".to_string())),
                Box::new(ExprAst::AnyTransition("b".to_string()))
            )))
        )
    );
    assert_eq!(nand("$a and $b"), make_error("and $b", Tag));
    assert_eq!(equal("$a ! 1"), make_error("! 1", Tag));
    assert_eq!(equal("$a = x"), make_error("x", Tag));
}
