use dwfv::signaldb::{Scale, SignalDB, SignalValue, Timestamp};
use dwfv::vcd::lexer::{Context, Keyword, Lexer, Token};
use dwfv::vcd::parser::{Parser, SyntaxError};

fn word(text: &str) -> Vec<char> {
    text.chars().collect()
}

#[test]
fn plain() {
    let input = "Hello World";
    let mut l = Lexer::new(input);
    assert_eq!(l.pop(Context::Stmt), Token::Word("Hello".to_string()));
    assert_eq!(l.pop(Context::Stmt), Token::Word("World".to_string()));
    assert_eq!(l.pop(Context::Stmt), Token::Eof);
}

#[test]
fn keywords() {
    let input = "Hello $world $end";
    let mut l = Lexer::new(input);
    assert_eq!(l.pop(Context::Stmt), Token::Word("Hello".to_string()));
    assert_eq!(l.pop(Context::Stmt), Token::Word("$world".to_string()));
    assert_eq!(l.pop(Context::Stmt), Token::Keyword(Keyword::End));
    assert_eq!(l.pop(Context::Stmt), Token::Eof);
}

#[test]
fn empty_lines() {
    let input = "   \n$end";
    let mut l = Lexer::new(input);
    assert_eq!(l.pop(Context::Stmt), Token::Keyword(Keyword::End));
    assert_eq!(l.pop(Context::Stmt), Token::Eof);
}

#[test]
fn header() {
    let input = "
$comment
Any comment text.
$end";
    let mut db = SignalDB::new();
    let mut p = Parser::new(input);
    assert_eq!(p.parse(&mut db), Ok(()))
}

#[test]
fn fail() {
    let input = "$end";
    let mut db = SignalDB::new();
    let mut p = Parser::new(input);
    assert_eq!(
        p.parse(&mut db),
        Err(SyntaxError {
            line: String::from("$end")
        })
    )
}

#[test]
fn full() {
    let input = "
$date
   Date text. For example: November 11, 2009.
$end
$version
   VCD generator tool version info text.
$end
$comment
   Any comment text.
$end
$timescale 100ps $end
$scope module logic $end
$var wire 8 # data[7:0] $end
$var wire 8 # data_test [7:0] $end
$var wire 1 $ data_valid $end
$var wire 1 % en $end
$var wire 1 & rx_en $end
$var wire 1 ' tx_en $end
$var wire 1 ( empty $end
$var wire 1 ) underrun $end
$upscope $end
$enddefinitions $end
$dumpvars
bxxxxxxxx #
x$
0%
x&
x'
1(
0)
$end
#0
b10000001 #
0$
1%
0&
1'
0(
0)
#2211
0'
#2296
b0 #
1$
#2302
0$
#2303
";
    let mut db = SignalDB::new();
    let mut p = Parser::new(input);
    assert_eq!(p.parse(&mut db), Ok(()));
    assert_eq!(db.get_timescale().value, 100);
    assert_eq!(db.get_timescale().scale, Scale::Picosecond);
    assert_eq!(db.get_signal_ids(), vec!["#", "$", "%", "&", "'", "(", ")"]);
    assert_eq!(db.get_signal_fullname("#").unwrap(), "data_test");
    assert_eq!(
        db.value_at("#", Timestamp::new(221100, Scale::Picosecond)).unwrap(),
        SignalValue::new(0x81)
    );
    assert_eq!(
        db.value_at("$", Timestamp::new(229600, Scale::Picosecond)).unwrap(),
        SignalValue::new(1)
    );
    assert_eq!(
        db.get_last_event("$").unwrap().unwrap(),
        Timestamp::new(230200, Scale::Picosecond)
    );
    assert!(db.is_initialized());
}

#[test]
fn words_in_their_places() {
    assert_eq!(
        Token::retokenize(&word("$dumpvars"), Context::Comment),
        Token::Keyword(Keyword::DumpVars)
    );
    assert_eq!(
        Token::retokenize(&word("#42"), Context::Comment),
        Token::Word("#42".to_string())
    );
    assert_eq!(
        Token::retokenize(&word("#42"), Context::Stmt),
        Token::Timestamp(42)
    );
    assert_eq!(
        Token::retokenize(&word("#-7"), Context::Stmt),
        Token::Timestamp(-7)
    );
    assert_eq!(
        Token::retokenize(&word("#x"), Context::Stmt),
        Token::Word("#x".to_string())
    );
    assert_eq!(
        Token::retokenize(&word("b101"), Context::Stmt),
        Token::Value(SignalValue::new(5))
    );
    assert_eq!(
        Token::retokenize(&word("sIDLE"), Context::Value),
        Token::Value(SignalValue::from_symbol_str("IDLE"))
    );
    assert_eq!(
        Token::retokenize(&word("1!"), Context::Value),
        Token::ValueIdentifier(SignalValue::new(1), "!".to_string())
    );
    assert_eq!(
        Token::retokenize(&word("xab"), Context::Stmt),
        Token::ValueIdentifier(SignalValue::from_binary_string("x"), "ab".to_string())
    );
    assert_eq!(
        Token::retokenize(&word("32"), Context::Id),
        Token::Integer(32)
    );
    assert_eq!(
        Token::retokenize(&word("data"), Context::Id),
        Token::Identifier("data".to_string())
    );
    assert_eq!(
        Token::retokenize(&word("data[7:0]"), Context::Id),
        Token::IdentifierRange("data".to_string(), 7, 0)
    );
    assert_eq!(
        Token::retokenize(&word("data[7]"), Context::Id),
        Token::Identifier("data[7]".to_string())
    );
    assert_eq!(
        Token::retokenize(&word("32"), Context::ShortId),
        Token::Identifier("32".to_string())
    );
    assert_eq!(
        Token::retokenize(&word("[7:0]"), Context::IdRange),
        Token::Range(7, 0)
    );
    assert_eq!(
        Token::retokenize(&word("[7:0:1]"), Context::IdRange),
        Token::Identifier("[7:0:1]".to_string())
    );
    assert_eq!(
        Token::retokenize(&word("$end"), Context::IdRange),
        Token::Keyword(Keyword::End)
    );
    assert_eq!(
        Token::retokenize(&word("10"), Context::Timescale),
        Token::Integer(10)
    );
    assert_eq!(
        Token::retokenize(&word("10ns"), Context::Timescale),
        Token::Timescale(Timestamp::new(10, Scale::Nanosecond))
    );
    match Token::retokenize(&word("us"), Context::Timescale) {
        Token::Timescale(t) => {
            assert_eq!(t.value, 1);
            assert_eq!(t.scale, Scale::Microsecond);
        }
        other => panic!("a timescale was expected, not {:?}", other),
    }
    assert_eq!(
        Token::retokenize(&word("10xs"), Context::Timescale),
        Token::Word("10xs".to_string())
    );
    assert_eq!(
        Token::retokenize(&word("\u{663}ns"), Context::Timescale),
        Token::Timescale(Timestamp::new(1, Scale::Nanosecond))
    );
}

#[test]
fn single_readings() {
    assert_eq!(Token::retokenize_kw(&word("$var")), Some(Token::Keyword(Keyword::Var)));
    assert_eq!(Token::retokenize_kw(&word("var")), None);
    assert_eq!(Token::retokenize_integer(&word("+5")), Some(Token::Integer(5)));
    assert_eq!(Token::retokenize_integer(&word("-5")), None);
    assert_eq!(Token::retokenize_integer(&word("")), None);
    assert_eq!(Token::retokenize_value(&word("q")), None);
    assert_eq!(Token::retokenize_value(&word("")), None);
    assert_eq!(Token::retokenize_timestamp(&word("#")), None);
    assert_eq!(Token::retokenize_range(&word("[1:2]")), Some(Token::Range(1, 2)));
    assert_eq!(Token::retokenize_range(&word("[1:]")), None);
    assert_eq!(Token::retokenize_range(&word("[]")), None);
    assert_eq!(Token::retokenize_range(&word("[")), None);
    assert_eq!(Token::retokenize_range(&word("1:2")), None);
    assert_eq!(Token::retokenize_id_range(&word("a[1:2")), None);
    assert_eq!(
        Token::retokenize_id_range(&word("[1:2]")),
        Some(Token::IdentifierRange("".to_string(), 1, 2))
    );
    assert_eq!(Token::retokenize_timescale(&word("10")), None);
    assert_eq!(Token::retokenize_timescale(&word("s")),
        Some(Token::Timescale(Timestamp::new(1, Scale::Second))));
    assert_eq!(Token::find_char(&word("abcabc"), 1, 6, 'a'), 3);
    assert_eq!(Token::find_char(&word("abcabc"), 1, 6, 'z'), 6);
    assert_eq!(Token::find_in(&word("abcabc"), 1, 5, 2, 'b'), 4);
    assert_eq!(Token::range_from(&word("ab[3:4]"), 2), Some((3, 4)));
}

#[test]
fn current_line_is_the_text_read_last() {
    let mut l = Lexer::new("one two\n\nthree\n   \nfour");
    assert_eq!(l.get_current_line(), "");
    assert_eq!(l.pop(Context::Comment), Token::Word("one".to_string()));
    assert_eq!(l.get_current_line(), "one two\n");
    assert_eq!(l.pop(Context::Comment), Token::Word("two".to_string()));
    assert_eq!(l.pop(Context::Comment), Token::Word("three".to_string()));
    assert_eq!(l.get_current_line(), "\nthree\n");
    assert_eq!(l.pop(Context::Comment), Token::Word("four".to_string()));
    assert_eq!(l.get_current_line(), "four");
    assert_eq!(l.pop(Context::Comment), Token::Eof);
    assert_eq!(l.get_current_line(), "");
    assert_eq!(l.pop(Context::Comment), Token::Eof);
}

#[test]
fn input_that_ends_with_empty_lines() {
    let mut l = Lexer::new("a\n\n");
    assert_eq!(l.pop(Context::Stmt), Token::Word("a".to_string()));
    assert_eq!(l.pop(Context::Stmt), Token::Eof);
    let mut db = SignalDB::new();
    assert_eq!(Parser::new("$comment x $end\n\n\n").parse(&mut db), Ok(()));
}

#[test]
fn statements_that_cannot_be_read() {
    let cases = [
        ("$comment never ends", ""),
        ("$scope module $end", ""),
        ("$scope module a b", "$scope module a b"),
        ("$scope module 12 $end\n", "$scope module 12 $end\n"),
        ("$upscope now $end", "$upscope now $end"),
        ("$var wire x 0 foo $end", "$var wire x 0 foo $end"),
        ("$var wire 1 0 foo bar $end", "$var wire 1 0 foo bar $end"),
        ("$var wire 1 0 foo[1:0] bar", "$var wire 1 0 foo[1:0] bar"),
        ("$var wire 1 0 foo [1:0] bar", "$var wire 1 0 foo [1:0] bar"),
        ("$var wire 1 0 12 $end", "$var wire 1 0 12 $end"),
        ("$timescale soon $end", "$timescale soon $end"),
        ("$timescale 10 ns", ""),
        ("$timescale 10 $end", "$timescale 10 $end"),
        ("$timescale 9223372036854775807 1000s $end", "$timescale 9223372036854775807 1000s $end"),
        ("$dumpvars word $end", "$dumpvars word $end"),
        ("$dumpvars b1 0 $end", "$dumpvars b1 0 $end"),
        ("1!", "1!"),
        ("b1 !", "b1 !"),
        ("b1", ""),
        ("word", "word"),
        ("$timescale 2s $end #9223372036854775807", "$timescale 2s $end #9223372036854775807"),
    ];
    for (input, line) in cases {
        let mut db = SignalDB::new();
        let mut p = Parser::new(input);
        assert_eq!(
            p.parse(&mut db),
            Err(SyntaxError {
                line: line.to_string()
            }),
            "{}",
            input
        );
    }
    let mut db = SignalDB::new();
    let mut p = Parser::new("$timescale 1ps $end\n#9223372036854775807 #10");
    assert_eq!(p.parse(&mut db), Ok(()));
}

#[test]
fn scopes_nest_as_declared() {
    let mut db = SignalDB::new();
    let mut p = Parser::new(
        "$scope module a $end
$scope module b $end
$var wire 1 ! x $end
$upscope $end
$var wire 4 \" y [3:0] $end
$upscope $end
$upscope $end
$var wire 1 # z $end
$timescale 2 ns $end
$enddefinitions $end
#5 1! b1010 \" 0#
",
    );
    assert_eq!(p.parse(&mut db), Ok(()));
    assert_eq!(
        db.format_values_at(Timestamp::new(10, Scale::Nanosecond)),
        "# (z) -> b0\na\n  \" (y) -> b1010\n  b\n    ! (x) -> b1\n"
    );
    assert_eq!(db.get_timescale().value, 2);
    assert_eq!(db.get_timescale().scale, Scale::Nanosecond);
    assert!(db.is_initialized());
    let mut p = Parser::new("$end");
    p.set_limit(3);
    assert_eq!(p.limit, Some(3));
}

#[test]
fn declarations_are_complete_after_enddefinitions_or_dumpvars() {
    let mut db = SignalDB::new();
    assert_eq!(Parser::new("$var wire 1 ! x $end").parse(&mut db), Ok(()));
    assert!(!db.is_initialized());
    assert_eq!(Parser::new("$dumpvars 1! $end").parse(&mut db), Ok(()));
    assert!(db.is_initialized());
    let mut other = SignalDB::new();
    assert_eq!(Parser::new("$enddefinitions $end").parse(&mut other), Ok(()));
    assert!(other.is_initialized());
}

#[test]
fn syntax_error_message_quotes_the_line() {
    let e = SyntaxError::new("a \"b\"\t\\\r\n".to_string());
    assert_eq!(e.to_string(), "Syntax Error: \"a \\\"b\\\"\\t\\\\\\r\\n\"");
}

#[test]
fn a_unit_of_time_whose_count_ends_where_it_is_told() {
    assert_eq!(
        Token::timescale_from(&word("10ns"), 2),
        Some(Token::Timescale(Timestamp::new(10, Scale::Nanosecond)))
    );
    assert_eq!(
        Token::timescale_from(&word("ps"), 0),
        Some(Token::Timescale(Timestamp::new(1, Scale::Picosecond)))
    );
    assert_eq!(Token::timescale_from(&word("10ns"), 1), None);
    assert_eq!(Token::timescale_from(&word("10ns"), 4), None);
    assert_eq!(Token::timescale_from(&word("10ns"), 9), None);
    assert_eq!(Token::timescale_from(&word("10n"), 2), None);
    assert_eq!(Token::timescale_from(&word(""), 0), None);
    assert_eq!(
        Token::retokenize_timescale(&word("100fs")),
        Some(Token::Timescale(Timestamp::new(100, Scale::Femtosecond)))
    );
}

#[test]
fn the_message_of_an_error_frames_the_quoted_line() {
    assert_eq!(SyntaxError::message_of("\"#x\""), "Syntax Error: \"#x\"");
    assert_eq!(SyntaxError::message_of(""), "Syntax Error: ");
    let e = SyntaxError::new("#x".to_string());
    assert_eq!(e.to_string(), SyntaxError::message_of("\"#x\""));
}
