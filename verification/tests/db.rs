use dwfv::signaldb::db::{
    DbError, EventIterator, InitializationError, SearchNotFound, SignalNotFound,
};
use dwfv::vcd::parser::Parser;
use dwfv::signaldb::{
    BitValue, FindingsSummary, Scale, Signal, SignalDB, SignalValue, Timestamp,
};

fn ps(value: i64) -> Timestamp {
    Timestamp::new(value, Scale::Picosecond)
}

const TWO_SIGNALS: &str = "$scope module top $end
$var wire 32 0 foo $end
$var string 1 1 state $end
$var wire 1 2 bar $end
$upscope $end
$enddefinitions $end
#0
$dumpvars
b0 0
sINIT 1
$end
#1337
b101010 0
sTEST 1
";

const ONE_WIRE: &str = "$scope module top $end
$var wire 1 0 foo $end
$upscope $end
$enddefinitions $end
#0
$dumpvars
b0 0
$end
#1337
10
#1338
00
";

const LOGIC: &str = "
$scope module logic $end
$var wire 1 # foo $end
$upscope $end
$enddefinitions $end
$dumpvars
b1 #
$end
#42
b0 #
#43
b1 #
#1337
b0 #
#1338
b1 #
";

fn declared() -> SignalDB {
    let mut db = SignalDB::new();
    let scope = ["foo", "bar"];
    db.create_scope(&scope);
    db.declare_signal(&scope, Signal::new("0", "baz", 32)).unwrap();
    db
}

#[test]
fn basic_value_read() {
    let db = SignalDB::from_vcd(
        "$scope module top $end
$var wire 32 0 foo $end
$var string 1 1 state $end
$upscope $end
$enddefinitions $end
#0 $dumpvars b0 0 sINIT 1 $end
#1337 b101010 0 sTEST 1
",
    )
    .unwrap();
    assert_eq!(db.value_at("0", ps(1336)).unwrap(), SignalValue::new(0));
    assert_eq!(db.value_at("0", ps(1338)).unwrap(), SignalValue::new(42));
    assert_eq!(
        db.value_at("1", ps(1336)).unwrap(),
        SignalValue::from_symbol_str("INIT")
    );
    assert_eq!(
        db.value_at("1", ps(1338)).unwrap(),
        SignalValue::from_symbol_str("TEST")
    );
}

#[test]
fn from_vcd_reads_values() {
    let db = SignalDB::from_vcd(TWO_SIGNALS).unwrap();
    assert_eq!(db.value_at("0", ps(1336)).unwrap(), SignalValue::new(0));
    assert_eq!(
        db.value_at("1", ps(1336)).unwrap(),
        SignalValue::from_symbol_str("INIT")
    );
    assert_eq!(db.value_at("0", ps(1338)).unwrap(), SignalValue::new(42));
    assert_eq!(
        db.value_at("1", ps(1338)).unwrap(),
        SignalValue::from_symbol_str("TEST")
    );
    assert!(db.is_valid());
    assert!(db.is_initialized());
    assert_eq!(db.get_status(), "Ready: 2 events");
}

#[test]
fn parse_limit_truncation() {
    let db = SignalDB::from_vcd_with_limit(TWO_SIGNALS, Some(1300)).unwrap();
    assert_eq!(db.value_at("0", ps(1000)).unwrap(), SignalValue::new(0));
    assert_eq!(
        db.value_at("1", ps(1000)).unwrap(),
        SignalValue::from_symbol_str("INIT")
    );
    assert_eq!(db.value_at("0", ps(1338)).unwrap(), SignalValue::new(0));
    assert_eq!(
        db.value_at("1", ps(1338)).unwrap(),
        SignalValue::from_symbol_str("INIT")
    );
}

#[test]
fn parse_vcd_extends_a_store() {
    let mut db = SignalDB::new();
    db.parse_vcd(TWO_SIGNALS).unwrap();
    assert_eq!(db.value_at("0", ps(1338)).unwrap(), SignalValue::new(42));
    let mut limited = SignalDB::new();
    limited.parse_vcd_with_limit(TWO_SIGNALS, Some(1300)).unwrap();
    assert_eq!(limited.value_at("0", ps(1338)).unwrap(), SignalValue::new(0));
}

#[test]
fn edge_navigation() {
    let db = SignalDB::from_vcd(ONE_WIRE).unwrap();
    assert_eq!(
        db.get_next_rising_edge("0", ps(0)).unwrap().unwrap(),
        ps(1337)
    );
    assert!(db.get_next_rising_edge("0", ps(1338)).unwrap().is_none());
    assert_eq!(
        db.get_previous_rising_edge("0", ps(1338)).unwrap().unwrap(),
        ps(1337)
    );
    assert!(db.get_previous_rising_edge("0", ps(2)).unwrap().is_none());
    assert_eq!(
        db.get_next_falling_edge("0", ps(0)).unwrap().unwrap(),
        ps(1338)
    );
    assert_eq!(db.get_first_event("0").unwrap().unwrap(), ps(0));
    assert_eq!(db.get_last_event("0").unwrap().unwrap(), ps(1338));
}

#[test]
fn level_search() {
    let mut db = SignalDB::from_vcd(ONE_WIRE).unwrap();
    assert_eq!(db.search_all("$0 = 1").unwrap(), "1337-1338\n");
    db.search("$0 = 1").unwrap();
    assert_eq!(db.get_first_finding("$0 = 1").unwrap().unwrap(), ps(1337));
    assert_eq!(db.get_last_finding("$0 = 1").unwrap().unwrap(), ps(1338));
    assert_eq!(
        db.findings_between("$0 = 1", ps(1338), ps(1338)).unwrap(),
        FindingsSummary::Range
    );
}

#[test]
fn edge_search() {
    let mut db = SignalDB::from_vcd(ONE_WIRE).unwrap();
    assert_eq!(db.search_all("$0 <- 1").unwrap(), "1337\n");
    db.search("$0 <- 1").unwrap();
    assert_eq!(db.get_first_finding("$0 <- 1").unwrap().unwrap(), ps(1337));
    assert_eq!(db.get_last_finding("$0 <- 1").unwrap().unwrap(), ps(1337));
    assert_eq!(
        db.findings_between("$0 <- 1", ps(1300), ps(1340)).unwrap(),
        FindingsSummary::Timestamp
    );
}

#[test]
fn search_and_step_through_findings() {
    let mut db = SignalDB::from_vcd(LOGIC).unwrap();
    let expr = "$# = 0";
    db.search(expr).unwrap();
    assert_eq!(db.get_first_finding(expr).unwrap().unwrap(), ps(42));
    assert_eq!(db.get_last_finding(expr).unwrap().unwrap(), ps(1338));
    assert_eq!(db.get_next_finding(expr, ps(43)).unwrap().unwrap(), ps(1337));
    assert_eq!(
        db.get_end_of_next_finding(expr, ps(43)).unwrap().unwrap(),
        ps(1338)
    );
    assert_eq!(
        db.get_previous_finding(expr, ps(43)).unwrap().unwrap(),
        ps(42)
    );
    assert_eq!(
        db.findings_between(expr, ps(0), ps(1339)).unwrap(),
        FindingsSummary::Complex(2)
    );
    assert!(db.get_next_finding(expr, ps(1337)).unwrap().is_none());
}

#[test]
fn incremental_search_finds_the_first_transition() {
    let mut db = SignalDB::new();
    db.parse_vcd(
        "
$scope module logic $end
$var wire 1 # foo $end
$upscope $end
$enddefinitions $end
$dumpvars
b1 #
$end
#42
b0 #
#1338
b1 #
",
    )
    .unwrap();
    db.wait_until_initialized().unwrap();
    let expr = "$# <- 0";
    db.search_init(expr).unwrap();
    assert!(db.get_first_finding(expr).unwrap().is_none());
    let mut instants = Vec::new();
    let mut it = db.get_timestamps();
    while let Some(t) = it.next() {
        instants.push(t);
    }
    for t in instants {
        db.search_at(expr, t).unwrap();
    }
    db.finish_search(expr).unwrap();
    assert_eq!(db.get_first_finding(expr).unwrap().unwrap(), ps(42));
}

#[test]
fn invalid_dump_invalidates_the_store() {
    let mut db = SignalDB::new();
    let r = db.parse_vcd(
        "$scope module logic $end
$var wire 1 # foo $end
$upscope $end
stray line
$enddefinitions $end
",
    );
    let error = r.unwrap_err();
    assert_eq!(error.line, "stray line\n");
    assert!(!db.is_valid());
    assert!(db.is_initialized());
    let waited = db.wait_until_initialized().unwrap_err();
    assert_eq!(waited.msg, db.get_status());
    assert_eq!(waited.msg, "Syntax Error: \"stray line\\n\"");
    assert_eq!(
        waited.to_string(),
        "Failed to initialize the database: Syntax Error: \"stray line\\n\""
    );
}

#[test]
fn new_store_is_empty() {
    let db = SignalDB::new();
    assert!(db.is_valid());
    assert!(!db.is_initialized());
    assert_eq!(db.get_status(), "Test");
    assert!(db.get_signal_ids().is_empty());
    assert_eq!(db.get_timescale().value, 1);
    assert_eq!(db.get_timescale().scale, Scale::Picosecond);
    let mut it = EventIterator::new(&db);
    assert_eq!(it.next().unwrap(), ps(0));
    assert!(it.next().is_none());
    assert!(it.next().is_none());
}

#[test]
fn marks_and_status() {
    let mut db = SignalDB::new();
    assert!(db.is_valid());
    db.mark_as_invalid();
    assert!(!db.is_valid());
    db.set_status("Hello, World!");
    assert_eq!(db.get_status(), "Hello, World!");
    db.mark_as_initialized();
    assert!(db.is_initialized());
    let e = db.wait_until_initialized().unwrap_err();
    assert_eq!(e.msg, "Hello, World!");
    db.set_timescale(Timestamp::new(10, Scale::Nanosecond));
    assert_eq!(db.get_timescale().value, 10);
    assert_eq!(db.get_timescale().scale, Scale::Nanosecond);
    let mut ok = SignalDB::new();
    ok.mark_as_initialized();
    assert!(ok.wait_until_initialized().is_ok());
}

#[test]
fn timestamps_are_recorded_once_in_order() {
    let mut db = declared();
    db.insert_event("0", ps(42), SignalValue::new(0x1337)).unwrap();
    db.insert_event("0", ps(43), SignalValue::new(0x1338)).unwrap();
    db.insert_event("0", ps(44), SignalValue::new(0x1339)).unwrap();
    db.insert_event("0", ps(43), SignalValue::new(0x1340)).unwrap();
    db.set_time(ps(44));
    db.set_time(ps(10));
    let mut events = db.get_timestamps();
    assert_eq!(events.next().unwrap(), ps(0));
    assert_eq!(events.next().unwrap(), ps(42));
    assert_eq!(events.next().unwrap(), ps(43));
    assert_eq!(events.next().unwrap(), ps(44));
    assert!(events.next().is_none());
    assert_eq!(db.value_at("0", ps(43)).unwrap(), SignalValue::new(0x1340));
}

#[test]
fn value_and_event_lookup() {
    let mut db = declared();
    db.insert_event("0", ps(42), SignalValue::new(0x1337)).unwrap();
    assert_eq!(
        db.value_at("0", ps(41)).unwrap(),
        SignalValue::new_default(32, BitValue::Undefined)
    );
    assert_eq!(db.value_at("0", ps(42)).unwrap(), SignalValue::new(0x1337));
    assert_eq!(db.value_at("0", ps(43)).unwrap(), SignalValue::new(0x1337));
    assert!(db.event_at("0", ps(41)).unwrap().is_none());
    assert_eq!(
        db.event_at("0", ps(42)).unwrap().unwrap(),
        SignalValue::new(0x1337)
    );
    assert!(db.event_at("0", ps(43)).unwrap().is_none());
}

#[test]
fn set_current_value_uses_the_current_time() {
    let mut db = declared();
    db.set_time(ps(42));
    db.set_current_value("0", SignalValue::new(7)).unwrap();
    assert_eq!(db.event_at("0", ps(42)).unwrap().unwrap(), SignalValue::new(7));
    assert_eq!(db.get_first_event("0").unwrap().unwrap(), ps(42));
}

#[test]
fn names_and_ids() {
    let mut db = declared();
    assert_eq!(db.get_signal_fullname("0").unwrap(), "baz");
    assert!(db.signal_exists("0"));
    assert!(!db.signal_exists("1"));
    assert_eq!(db.find_signals(|s| s.name == "baz"), vec!["0"]);
    assert_eq!(db.find_signals(|s| s.name == "").len(), 0);
    assert_eq!(db.get_signal_ids(), vec!["0"]);
    let scope = ["foo"];
    db.declare_signal(&scope, Signal::new("b", "second", 1)).unwrap();
    db.declare_signal(&scope, Signal::new("#", "third", 1)).unwrap();
    db.declare_signal(&scope, Signal::new("a", "fourth", 2)).unwrap();
    assert_eq!(db.get_signal_ids(), vec!["#", "0", "a", "b"]);
    assert_eq!(db.find_signals(|s| s.width == 1), vec!["#", "b"]);
    assert_eq!(db.find_signal("a"), Some(2));
    assert_eq!(db.find_signal("zz"), None);
}

#[test]
fn declaring_an_id_again_replaces_the_signal() {
    let mut db = declared();
    db.insert_event("0", ps(42), SignalValue::new(1)).unwrap();
    let scope = ["foo", "bar"];
    db.declare_signal(&scope, Signal::new("0", "again", 8)).unwrap();
    assert_eq!(db.get_signal_fullname("0").unwrap(), "again");
    assert!(db.get_first_event("0").unwrap().is_none());
    assert_eq!(db.get_signal_ids(), vec!["0"]);
}

#[test]
fn unknown_signals_are_errors() {
    let mut db = declared();
    let e: SignalNotFound = db.value_at("9", ps(1)).unwrap_err();
    assert_eq!(e.signal_id, "9");
    assert_eq!(e.to_string(), "Signal not found in the database: 9");
    assert!(db.event_at("9", ps(1)).is_err());
    assert!(db.get_signal_fullname("9").is_err());
    assert!(db.get_next_rising_edge("9", ps(1)).is_err());
    assert!(db.get_previous_rising_edge("9", ps(1)).is_err());
    assert!(db.get_next_falling_edge("9", ps(1)).is_err());
    assert!(db.get_first_event("9").is_err());
    assert!(db.get_last_event("9").is_err());
    assert!(db.events_between("9", ps(0), ps(0)).is_err());
    assert!(db.insert_event("9", ps(5), SignalValue::new(1)).is_err());
    assert!(db.set_current_value("9", SignalValue::new(1)).is_err());
    let mut it = db.get_timestamps();
    assert_eq!(it.next().unwrap(), ps(0));
    assert_eq!(it.next().unwrap(), ps(5));
    assert_eq!(SignalNotFound::new("x").signal_id, "x");
    assert_eq!(SearchNotFound::new("y").expr, "y");
    assert_eq!(InitializationError::new("z").msg, "z");
}

#[test]
fn unknown_searches_are_errors() {
    let mut db = declared();
    let e: SearchNotFound = db.get_first_finding("$0").unwrap_err();
    assert_eq!(e.expr, "$0");
    assert_eq!(e.to_string(), "Search not found in the database: $0");
    assert!(db.get_last_finding("$0").is_err());
    assert!(db.get_next_finding("$0", ps(1)).is_err());
    assert!(db.get_end_of_next_finding("$0", ps(1)).is_err());
    assert!(db.get_previous_finding("$0", ps(1)).is_err());
    assert!(db.findings_between("$0", ps(1), ps(2)).is_err());
    assert!(matches!(
        db.search_at("$0", ps(1)),
        Err(DbError::SearchNotFound(_))
    ));
    assert!(matches!(
        db.finish_search("$0"),
        Err(DbError::SearchNotFound(_))
    ));
}

#[test]
fn search_errors() {
    let mut db = declared();
    match db.search("bz = bz") {
        Err(DbError::SyntaxError(e)) => {
            assert_eq!(e.line, "bz = bz");
            assert_eq!(e.to_string(), "Syntax Error: \"bz = bz\"");
        }
        _ => panic!("a syntax error was expected"),
    }
    match db.search("$9 = 1") {
        Err(DbError::SignalNotFound(e)) => assert_eq!(e.signal_id, "9"),
        _ => panic!("a missing signal was expected"),
    }
    assert!(db.get_first_finding("$9 = 1").is_err());
    assert!(matches!(db.search_init("("), Err(DbError::SyntaxError(_))));
    assert!(matches!(
        db.search_all("$9"),
        Err(DbError::SignalNotFound(_))
    ));
    let e = DbError::SearchNotFound(SearchNotFound::new("q"));
    assert_eq!(e.to_string(), "Search not found in the database: q");
}

#[test]
fn events_between_in_a_store() {
    let db = SignalDB::from_vcd(
        "$scope module top $end
$var wire 1 0 foo $end
$upscope $end
$enddefinitions $end
#0
$dumpvars
b0 0
$end
#1337
10
#1339
00
#1340
b101010 0
",
    )
    .unwrap();
    assert_eq!(
        db.events_between("0", ps(1), ps(1340)).unwrap(),
        (SignalValue::new(0), 2, SignalValue::new(0))
    );
    assert_eq!(
        db.events_between("0", ps(1), ps(1339)).unwrap(),
        (SignalValue::new(0), 1, SignalValue::new(1))
    );
    let (before, count, _) = db.events_between("0", ps(1), ps(1341)).unwrap();
    assert_eq!(before, SignalValue::new(0));
    assert_eq!(count, 3);
    let (_, count, _) = db.events_between("0", ps(1340), ps(1)).unwrap();
    assert_eq!(count, 0);
}

#[test]
fn events_between_of_an_unknown_signal() {
    let db = SignalDB::from_vcd(ONE_WIRE).unwrap();
    for end in [0, 1, 1337, 1338, 1339, 5000, i64::MAX] {
        let e = db.events_between("9", ps(0), ps(end)).unwrap_err();
        assert_eq!(e.signal_id, "9");
        assert!(db.events_between("0", ps(0), ps(end)).is_ok());
    }
}

#[test]
fn declaring_under_a_missing_scope() {
    let mut db = SignalDB::new();
    let e = db
        .declare_signal(&["foo", "bar"], Signal::new("0", "baz", 32))
        .unwrap_err();
    assert_eq!(e.path, vec!["foo".to_string(), "bar".to_string()]);
    assert!(!db.signal_exists("0"));
    assert!(db.get_signal_ids().is_empty());
    db.create_scope(&["foo", "bar"]);
    assert!(db.declare_signal(&["foo"], Signal::new("1", "qux", 1)).is_ok());
    assert!(db.declare_signal(&["foo", "bar"], Signal::new("0", "baz", 32)).is_ok());
    assert!(db.declare_signal(&["foo", "baz"], Signal::new("2", "quux", 1)).is_err());
    assert!(db.signal_exists("0"));
    assert!(db.signal_exists("1"));
    assert!(!db.signal_exists("2"));
    assert_eq!(db.get_signal_fullname("0").unwrap(), "baz");
    assert_eq!(db.signals[0].path, vec!["top", "foo", "bar"]);
}

#[test]
fn a_store_read_from_a_dump_is_ready() {
    let db = SignalDB::from_vcd(ONE_WIRE).unwrap();
    assert_eq!(db.timestamps.len(), 3);
    assert_eq!(db.get_status(), "Ready: 3 events");
    assert!(db.searches.is_empty());
    assert!(db.is_valid());
}

#[test]
fn findings_in_windows_of_mixed_scales() {
    let mut db = SignalDB::from_vcd(ONE_WIRE).unwrap();
    db.search("$0 <- 1").unwrap();
    db.search("$0 = 1").unwrap();
    let ns = |v: i64| Timestamp::new(v, Scale::Nanosecond);
    assert_eq!(
        db.findings_between("$0 <- 1", ps(1500), ns(2)).unwrap(),
        FindingsSummary::Nothing
    );
    assert_eq!(
        db.findings_between("$0 <- 1", ps(1000), ns(2)).unwrap(),
        FindingsSummary::Nothing
    );
    assert_eq!(
        db.findings_between("$0 <- 1", ps(1000), ns(3)).unwrap(),
        FindingsSummary::Timestamp
    );
    assert_eq!(
        db.findings_between("$0 = 1", ps(1500), ns(2)).unwrap(),
        FindingsSummary::Nothing
    );
    assert_eq!(
        db.findings_between("$0 <- 1", ps(1340), ps(1300)).unwrap(),
        FindingsSummary::Nothing
    );
}


#[test]
fn stats_of_a_store() {
    let db = declared();
    assert_eq!(
        db.format_stats(),
        "# foo\n#   bar\n#     0 (baz) - width: 32, edges: 0\n"
    );
}

#[test]
fn values_of_a_store() {
    let mut db = declared();
    db.insert_event("0", ps(42), SignalValue::new(0x1337)).unwrap();
    assert_eq!(
        db.format_values_at(ps(43)),
        "foo\n  bar\n    0 (baz) = h00001337\n"
    );
    assert_eq!(
        db.format_values_at(ps(42)),
        "foo\n  bar\n    0 (baz) -> h00001337\n"
    );
}

#[test]
fn formatting_reproduces_final_values_and_counts() {
    let db = SignalDB::from_vcd(TWO_SIGNALS).unwrap();
    assert_eq!(
        db.format_values_at(ps(1337)),
        "top\n  0 (foo) -> b00000000000000000000000000101010\n  1 (state) -> TEST\n  2 (bar) = hu\n"
    );
    assert_eq!(
        db.format_stats(),
        "# top\n#   0 (foo) - width: 32, edges: 2, from: 0s, to: 1337ps\n\
         #   1 (state) - width: 1, edges: 2, from: 0s, to: 1337ps\n\
         #   2 (bar) - width: 1, edges: 0\n"
    );
}

#[test]
fn reading_a_statement_at_a_time() {
    let mut db = SignalDB::new();
    let mut parser = Parser::new(ONE_WIRE);
    db.start_parsing();
    assert_eq!(db.get_status(), "Parsing VCD file...");
    let mut unit = Timestamp::new(1, Scale::Picosecond);
    let mut steps = 0;
    let outcome = loop {
        match parser.parse_step(&mut db, unit) {
            Ok(Some(then)) => unit = then,
            Ok(None) => break Ok(()),
            Err(e) => break Err(e),
        }
        steps += 1;
        if steps == 4 {
            assert!(db.is_initialized());
            assert!(db.signal_exists("0"));
            assert!(db.get_first_event("0").unwrap().is_none());
        }
    };
    assert_eq!(steps, 10);
    assert_eq!(db.finish_parsing(outcome), Ok(()));
    assert_eq!(db.get_status(), "Ready: 3 events");
    assert_eq!(db.get_last_event("0").unwrap().unwrap(), ps(1338));

    let mut bad = SignalDB::new();
    let mut parser = Parser::new("$end");
    let outcome = match parser.parse_step(&mut bad, unit) {
        Ok(_) => Ok(()),
        Err(e) => Err(e),
    };
    assert!(bad.finish_parsing(outcome).is_err());
    assert!(!bad.is_valid());
    assert!(bad.is_initialized());
    assert_eq!(bad.get_status(), "Syntax Error: \"$end\"");
}
