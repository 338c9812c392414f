use dwfv::search::types::{EvalResult, ExprType};
use dwfv::search::{ExprAst, FindingsSummary, Search, ValueAst};
use dwfv::signaldb::{BitValue, Scale, Signal, SignalDB, SignalValue, TimeDescr, Timestamp};

fn tick(value: i64) -> Timestamp {
    Timestamp::new(value, Scale::Picosecond)
}

fn two_wires() -> SignalDB {
    let mut db = SignalDB::new();
    let top: [&str; 0] = [];
    db.declare_signal(&top, Signal::new("a", "a", 1)).unwrap();
    db.declare_signal(&top, Signal::new("b", "b", 1)).unwrap();
    for (t, a, b) in [(0, 0, 0), (10, 1, 0), (20, 1, 1), (30, 0, 1), (40, 0, 0), (50, 1, 1)] {
        db.insert_event("a", tick(t), SignalValue::new(a)).unwrap();
        db.insert_event("b", tick(t), SignalValue::new(b)).unwrap();
    }
    db
}

#[test]
fn expr() {
    assert!(ExprAst::from_str("$a is b0").is_ok());
    assert!(ExprAst::from_str("$abc is 42").is_ok());
    assert!(ExprAst::from_str("$abc is bu").is_ok());
    assert!(ExprAst::from_str("$u is bz").is_ok());
    assert!(ExprAst::from_str("$bz is bz").is_ok());
    assert!(ExprAst::from_str("bz = bz").is_err());
    assert!(ExprAst::from_str("$.* is bz").is_ok());
    assert!(ExprAst::from_str("$a becomes 0").is_ok());
    assert!(ExprAst::from_str("$a becomes (0)").is_ok());
    assert!(ExprAst::from_str("($a becomes (0))").is_ok());
    assert!(ExprAst::from_str("$a <- 0 and $b = 4").is_ok());
    assert!(ExprAst::from_str("$a <- 0 and after 42").is_ok());
    assert!(ExprAst::from_str("$a <- 0 and before 42").is_ok());
    assert!(ExprAst::from_str("$a <- 0").is_ok());
    assert!(ExprAst::from_str("$a <- $b").is_ok());
}

#[test]
fn test_eq() {
    assert_eq!(
        ExprAst::from_str("$a is b0").unwrap(),
        ExprAst::Equal("a".to_string(), ValueAst::Literal(SignalValue::new(0)))
    );

    assert_eq!(
        ExprAst::from_str("$abc is 42").unwrap(),
        ExprAst::Equal("abc".to_string(), ValueAst::Literal(SignalValue::new(42)))
    );

    assert_eq!(
        ExprAst::from_str("$abc is bu").unwrap(),
        ExprAst::Equal("abc".to_string(), ValueAst::Literal(SignalValue::invalid()))
    );

    assert_eq!(
        ExprAst::from_str("$u is bz").unwrap(),
        ExprAst::Equal(
            "u".to_string(),
            ValueAst::Literal(SignalValue::new_default(1, BitValue::HighZ)),
        )
    );

    assert_eq!(
        ExprAst::from_str("$bz is bz").unwrap(),
        ExprAst::Equal(
            "bz".to_string(),
            ValueAst::Literal(SignalValue::new_default(1, BitValue::HighZ)),
        )
    );

    assert_eq!(
        ExprAst::from_str("$.* is bz").unwrap(),
        ExprAst::Equal(
            ".*".to_string(),
            ValueAst::Literal(SignalValue::new_default(1, BitValue::HighZ)),
        )
    );
}

#[test]
fn expr_test_transition() {
    assert_eq!(
        ExprAst::from_str("$a becomes 0").unwrap(),
        ExprAst::Transition("a".to_string(), ValueAst::Literal(SignalValue::new(0)))
    );

    assert_eq!(
        ExprAst::from_str("$a becomes (0)").unwrap(),
        ExprAst::Transition("a".to_string(), ValueAst::Literal(SignalValue::new(0)))
    );

    assert_eq!(
        ExprAst::from_str("($a becomes (0))").unwrap(),
        ExprAst::Transition("a".to_string(), ValueAst::Literal(SignalValue::new(0)))
    );

    assert_eq!(
        ExprAst::from_str("$a <- 0").unwrap(),
        ExprAst::Transition("a".to_string(), ValueAst::Literal(SignalValue::new(0)))
    );

    assert_eq!(
        ExprAst::from_str("$a <- $b").unwrap(),
        ExprAst::Transition("a".to_string(), ValueAst::Id("b".to_string()))
    );
}

#[test]
fn test_condition() {
    assert_eq!(
        ExprAst::from_str("$a <- 0 and $b = 4").unwrap(),
        ExprAst::And(
            Box::new(ExprAst::Transition(
                "a".to_string(),
                ValueAst::Literal(SignalValue::new(0)),
            )),
            Box::new(ExprAst::Equal(
                "b".to_string(),
                ValueAst::Literal(SignalValue::new(4)),
            )),
        )
    );

    assert_eq!(
        ExprAst::from_str("$a <- 0 and after 42").unwrap(),
        ExprAst::And(
            Box::new(ExprAst::Transition(
                "a".to_string(),
                ValueAst::Literal(SignalValue::new(0)),
            )),
            Box::new(ExprAst::After(42)),
        )
    );

    assert_eq!(
        ExprAst::from_str("$a <- 0 and before 42").unwrap(),
        ExprAst::And(
            Box::new(ExprAst::Transition(
                "a".to_string(),
                ValueAst::Literal(SignalValue::new(0)),
            )),
            Box::new(ExprAst::Before(42)),
        )
    );
}

#[test]
fn search() {
    let mut _db = SignalDB::new();
    let mut _search = Search::new("$A");
}

#[test]
fn chains_lean_to_the_right() {
    let a = || ExprAst::AnyTransition("a".to_string());
    let b = || ExprAst::AnyTransition("b".to_string());
    let c = || ExprAst::AnyTransition("c".to_string());
    assert_eq!(
        ExprAst::from_str("$a or $b or $c").unwrap(),
        ExprAst::Or(
            Box::new(a()),
            Box::new(ExprAst::Or(Box::new(b()), Box::new(c())))
        )
    );
    assert_eq!(
        ExprAst::from_str("$a and $b and $c").unwrap(),
        ExprAst::And(
            Box::new(a()),
            Box::new(ExprAst::And(Box::new(b()), Box::new(c())))
        )
    );
    assert_eq!(
        ExprAst::from_str("$a and $b or $c").unwrap(),
        ExprAst::Or(
            Box::new(ExprAst::And(Box::new(a()), Box::new(b()))),
            Box::new(c())
        )
    );
    assert_eq!(
        ExprAst::from_str("$a nand $b").unwrap(),
        ExprAst::Not(Box::new(ExprAst::And(Box::new(a()), Box::new(b()))))
    );
    assert_eq!(
        ExprAst::from_str("$a != 1").unwrap(),
        ExprAst::Not(Box::new(ExprAst::Equal(
            "a".to_string(),
            ValueAst::Literal(SignalValue::new(1))
        )))
    );
    assert_eq!(
        ExprAst::from_str("  $a is not h1F  ").unwrap(),
        ExprAst::Not(Box::new(ExprAst::Equal(
            "a".to_string(),
            ValueAst::Literal(SignalValue::new(31))
        )))
    );
}

#[test]
fn texts_that_are_no_expressions() {
    for text in [
        "",
        " ",
        "bz = bz",
        "$a =",
        "$a = 1 extra",
        "($a = 1",
        "$a and",
        "after x",
        "$a = 18446744073709551616",
        "$a = h12345678901234567",
        "after 9223372036854775808",
    ] {
        let e = ExprAst::from_str(text).unwrap_err();
        assert_eq!(e.line, text);
    }
    assert!(ExprAst::from_str("$a = 18446744073709551615").is_ok());
    assert!(ExprAst::from_str("$a = h1234567890123456").is_ok());
    assert_eq!(
        ExprAst::from_str("after 9223372036854775807").unwrap(),
        ExprAst::After(i64::MAX)
    );
    assert!(Search::new("bz = bz").is_err());
}

#[test]
fn kinds_combine() {
    assert_eq!(ExprType::Level | ExprType::Level, ExprType::Level);
    assert_eq!(ExprType::Level | ExprType::Transition, ExprType::Transition);
    assert_eq!(ExprType::Transition | ExprType::Level, ExprType::Transition);
    let yes_level = EvalResult { result: true, ty: ExprType::Level };
    let yes_edge = EvalResult { result: true, ty: ExprType::Transition };
    let no_edge = EvalResult { result: false, ty: ExprType::Transition };
    assert_eq!(yes_level | no_edge, yes_level);
    assert_eq!(no_edge | yes_edge, yes_edge);
    assert_eq!(yes_level | yes_edge, yes_edge);
    assert_eq!(
        no_edge | no_edge,
        EvalResult { result: false, ty: ExprType::Level }
    );
    assert_eq!(yes_level & yes_edge, yes_edge);
    assert_eq!(yes_level & yes_level, yes_level);
    assert_eq!(
        yes_edge & no_edge,
        EvalResult { result: false, ty: ExprType::Level }
    );
}

#[test]
fn evaluation_of_each_kind_of_expression() {
    let db = two_wires();
    let s = Search::new("$a").unwrap();
    let eval = |text: &str, t: i64| {
        s.eval_at(&ExprAst::from_str(text).unwrap(), &db, tick(t))
            .unwrap()
    };
    let level = |result| EvalResult { result, ty: ExprType::Level };
    let edge = |result| EvalResult { result, ty: ExprType::Transition };
    assert_eq!(eval("$a = 1", 10), level(true));
    assert_eq!(eval("$a = 1", 15), level(true));
    assert_eq!(eval("$a = 1", 30), level(false));
    assert_eq!(eval("$a = $b", 20), level(true));
    assert_eq!(eval("$a = $b", 10), level(false));
    assert_eq!(eval("$a <- 1", 10), edge(true));
    assert_eq!(eval("$a <- 1", 15), edge(false));
    assert_eq!(eval("$a <- 1", 30), edge(false));
    assert_eq!(eval("$a <- $b", 50), edge(true));
    assert_eq!(eval("$a", 10), edge(true));
    assert_eq!(eval("$a", 20), edge(false));
    assert_eq!(eval("$a != 1", 30), level(true));
    assert_eq!(eval("$a != 1", 10), level(false));
    assert_eq!(eval("$a <- 1 nand $b = 1", 30), edge(true));
    assert_eq!(eval("$a <- 1 and $b = 0", 10), edge(true));
    assert_eq!(eval("$a <- 1 and $b = 1", 10), edge(false));
    assert_eq!(eval("$a <- 1 and $b = 1", 30), edge(false));
    assert_eq!(eval("$a = 1 and $b = 1", 20), level(true));
    assert_eq!(eval("$a = 1 and $b = 1", 10), level(false));
    assert_eq!(eval("$a = 1 or $b = 1", 30), level(true));
    assert_eq!(eval("$a = 1 or $b = 1", 40), level(false));
    assert_eq!(eval("$a = 1 or $b <- 1", 20), level(true));
    assert_eq!(eval("$a = 0 or $b <- 1", 20), edge(true));
    assert_eq!(eval("after 20", 21), level(true));
    assert_eq!(eval("after 20", 20), level(false));
    assert_eq!(eval("before 20", 19), level(true));
    assert_eq!(eval("before 20", 20), level(false));
    assert!(s
        .eval_at(&ExprAst::from_str("$c = 1").unwrap(), &db, tick(0))
        .is_err());
    assert!(s
        .eval_at(&ExprAst::from_str("$a = $c").unwrap(), &db, tick(0))
        .is_err());
    assert!(s
        .eval_at(&ExprAst::from_str("$a = 1 or $c").unwrap(), &db, tick(10))
        .is_ok());
    assert_eq!(
        s.eval_value_at(&ValueAst::Id("b".to_string()), &db, tick(25)).unwrap(),
        SignalValue::new(1)
    );
    assert_eq!(
        s.eval_value_at(&ValueAst::Literal(SignalValue::new(9)), &db, tick(25)).unwrap(),
        SignalValue::new(9)
    );
}

#[test]
fn findings_of_a_level() {
    let db = two_wires();
    let mut s = Search::new("$a = 1").unwrap();
    s.search_all(&db).unwrap();
    assert_eq!(s.format_findings(), "10-30\n");
    assert_eq!(s.findings.len(), 1);
    assert_eq!(s.current_period, Some(tick(50)));
    assert_eq!(s.cursor, None);
    assert_eq!(s.get_first_finding(), Some(tick(10)));
    assert_eq!(s.get_last_finding(), Some(tick(30)));
    assert_eq!(s.get_next_finding(tick(0)), Some(tick(10)));
    assert_eq!(s.get_next_finding(tick(10)), Some(tick(50)));
    assert_eq!(s.get_next_finding(tick(50)), None);
    assert_eq!(s.get_end_of_next_finding(tick(0)), Some(tick(30)));
    assert_eq!(s.get_end_of_next_finding(tick(10)), None);
    assert_eq!(s.get_previous_finding(tick(31)), Some(tick(10)));
    assert_eq!(s.get_previous_finding(tick(5)), Some(tick(10)));
    assert_eq!(s.search_finding(tick(10)), Ok(0));
    assert_eq!(s.search_finding(tick(29)), Ok(0));
    assert_eq!(s.search_finding(tick(30)), Err(1));
    assert_eq!(s.search_finding(tick(9)), Err(0));
}

#[test]
fn summaries_of_windows() {
    let db = two_wires();
    let mut s = Search::new("$a = 1").unwrap();
    s.search_all(&db).unwrap();
    assert_eq!(s.findings_between(tick(1), tick(5)), FindingsSummary::Nothing);
    assert_eq!(s.findings_between(tick(5), tick(15)), FindingsSummary::RangeBegin);
    assert_eq!(s.findings_between(tick(12), tick(20)), FindingsSummary::Range);
    assert_eq!(s.findings_between(tick(25), tick(35)), FindingsSummary::RangeEnd);
    assert_eq!(s.findings_between(tick(5), tick(35)), FindingsSummary::Complex(1));
    assert_eq!(s.findings_between(tick(45), tick(55)), FindingsSummary::RangeBegin);
    assert_eq!(s.findings_between(tick(55), tick(60)), FindingsSummary::Range);

    let mut e = Search::new("$a").unwrap();
    e.search_all(&db).unwrap();
    assert_eq!(e.format_findings(), "0\n10\n30\n50\n");
    assert_eq!(e.findings_between(tick(5), tick(15)), FindingsSummary::Timestamp);
    assert_eq!(e.findings_between(tick(5), tick(35)), FindingsSummary::Complex(2));
    assert_eq!(e.findings_between(tick(5), tick(100)), FindingsSummary::Complex(3));
    assert_eq!(e.findings_between(tick(11), tick(21)), FindingsSummary::Nothing);
    assert_eq!(e.get_next_finding(tick(10)), Some(tick(30)));
    assert_eq!(e.get_last_finding(), Some(tick(50)));
}

#[test]
fn range_means_the_expression_holds() {
    let db = two_wires();
    let text = "$a = 1 or $b = 1";
    let mut s = Search::new(text).unwrap();
    s.search_all(&db).unwrap();
    let ast = ExprAst::from_str(text).unwrap();
    let mut instants = Vec::new();
    let mut it = db.get_timestamps();
    while let Some(t) = it.next() {
        instants.push(t);
    }
    for a in 1..60 {
        for b in a..60 {
            if s.findings_between(tick(a), tick(b)) == FindingsSummary::Range {
                for t in &instants {
                    if tick(a) <= *t && *t < tick(b) {
                        assert!(s.eval_at(&ast, &db, *t).unwrap().result);
                    }
                }
            }
        }
    }
    assert_eq!(s.findings_between(tick(12), tick(38)), FindingsSummary::Range);
}

#[test]
fn range_means_the_expression_holds_between_the_instants_too() {
    let db = two_wires();
    for text in ["$a = 1 or $b = 1", "$a = 1 and $b != 0", "$a != $b", "$a = $b or $a = 1"] {
        let mut s = Search::new(text).unwrap();
        s.search_all(&db).unwrap();
        let ast = ExprAst::from_str(text).unwrap();
        let mut ranges = 0;
        for a in 1..62 {
            for b in a..62 {
                if s.findings_between(tick(a), tick(b)) == FindingsSummary::Range {
                    ranges += 1;
                    for t in a..b {
                        assert!(s.eval_at(&ast, &db, tick(t)).unwrap().result);
                        let fine = Timestamp::new(t * 1000 - 500, Scale::Femtosecond);
                        if tick(a) <= fine {
                            assert!(s.eval_at(&ast, &db, fine).unwrap().result);
                        }
                    }
                }
            }
        }
        assert!(ranges > 0);
    }
}

#[test]
fn a_range_reaches_one_unit_of_the_end_before_the_end() {
    let mut db = SignalDB::new();
    let top: [&str; 0] = [];
    db.declare_signal(&top, Signal::new("a", "a", 1)).unwrap();
    db.insert_event("a", tick(0), SignalValue::new(0)).unwrap();
    db.insert_event("a", tick(1000), SignalValue::new(1)).unwrap();
    db.insert_event("a", tick(1500), SignalValue::new(0)).unwrap();
    let mut s = Search::new("$a = 1").unwrap();
    s.search_all(&db).unwrap();
    assert_eq!(s.format_findings(), "1000-1500\n");
    let end = Timestamp::new(2, Scale::Nanosecond);
    assert_eq!(s.findings_between(tick(1200), end), FindingsSummary::Range);
    let ast = ExprAst::from_str("$a = 1").unwrap();
    assert!(s.eval_at(&ast, &db, tick(1499)).unwrap().result);
    assert!(!s.eval_at(&ast, &db, tick(1700)).unwrap().result);
}

#[test]
fn points_are_the_instants_of_a_transition() {
    let db = two_wires();
    let text = "$b <- 1";
    let mut s = Search::new(text).unwrap();
    s.search_all(&db).unwrap();
    let ast = ExprAst::from_str(text).unwrap();
    let mut it = db.get_timestamps();
    let mut expected = Vec::new();
    while let Some(t) = it.next() {
        let r = s.eval_at(&ast, &db, t).unwrap();
        if r.result && r.ty == ExprType::Transition {
            expected.push(t);
        }
    }
    let found: Vec<Timestamp> = s
        .findings
        .iter()
        .map(|f| match f {
            TimeDescr::Point(t) => *t,
            TimeDescr::Period(_, _) => panic!("a point was expected"),
        })
        .collect();
    assert_eq!(found, expected);
    assert_eq!(found, vec![tick(20), tick(50)]);
}

#[test]
fn next_finding_is_the_least_later_beginning() {
    let db = two_wires();
    let mut s = Search::new("$a = 1").unwrap();
    s.search_all(&db).unwrap();
    let begins = [tick(10), tick(50)];
    for t in 0..60 {
        let expected = begins.iter().copied().find(|b| *b > tick(t));
        assert_eq!(s.get_next_finding(tick(t)), expected);
    }
}

#[test]
fn search_at_passes_over_earlier_instants() {
    let db = two_wires();
    let mut s = Search::new("$a").unwrap();
    s.search_at(&db, tick(30)).unwrap();
    assert_eq!(s.findings.len(), 1);
    assert_eq!(s.cursor, Some(tick(30)));
    s.search_at(&db, tick(10)).unwrap();
    assert_eq!(s.findings.len(), 1);
    assert_eq!(s.cursor, Some(tick(30)));
    s.search_at(&db, tick(50)).unwrap();
    assert_eq!(s.findings.len(), 2);
    s.finish();
    assert_eq!(s.cursor, None);
    s.search_at(&db, tick(10)).unwrap();
    assert_eq!(s.findings.len(), 2);
    let missing = Search::new("$zz").unwrap().search_at(&db, tick(0));
    assert_eq!(missing.unwrap_err().signal_id, "zz");
}

#[test]
fn a_false_outcome_closes_the_period() {
    let mut s = Search::new("$a").unwrap();
    let yes = EvalResult { result: true, ty: ExprType::Level };
    let no = EvalResult { result: false, ty: ExprType::Transition };
    let hit = EvalResult { result: true, ty: ExprType::Transition };
    s.record(tick(1), yes);
    assert_eq!(s.current_period, Some(tick(1)));
    s.record(tick(2), hit);
    assert!(s.findings.is_empty());
    s.record(tick(3), no);
    assert_eq!(s.format_findings(), "1-3\n");
    assert_eq!(s.current_period, None);
    s.record(tick(4), hit);
    assert_eq!(s.format_findings(), "1-3\n4\n");
    s.record(tick(4), hit);
    assert_eq!(s.format_findings(), "1-3\n4\n4\n");
    assert_eq!(s.get_next_finding(tick(4)), Some(tick(4)));
}
