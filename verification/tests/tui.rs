use dwfv::signaldb::{BitValue, Scale, SignalDB, SignalValue, Timestamp};
use dwfv::tui::event::{Event, Events, Input, InputMode, Key, MouseButton, SearchTarget};
use dwfv::tui::instr::TuiInstr;
use dwfv::tui::waveform::WaveformElement;

fn typed(events: &mut Events, text: &str) {
    for c in text.chars() {
        events.update(Some(Input::Key(Key::Char(c))));
    }
}

fn drain(events: &mut Events) -> Vec<Event> {
    let mut out = Vec::new();
    loop {
        match events.get_event() {
            Event::Nothing => return out,
            e => out.push(e),
        }
    }
}

#[test]
fn layout_lines() {
    assert_eq!(
        TuiInstr::parse_line("signal clk"),
        TuiInstr::Signal("clk".to_string())
    );
    assert_eq!(
        TuiInstr::parse_line("search $a = 1"),
        TuiInstr::Search("$a = 1".to_string())
    );
    assert_eq!(
        TuiInstr::parse_line("signal"),
        TuiInstr::Error("signal".to_string(), "Syntax Error".to_string())
    );
    assert_eq!(
        TuiInstr::parse_line("show clk"),
        TuiInstr::Error("show clk".to_string(), "Unknown command 'show'".to_string())
    );
    assert_eq!(
        TuiInstr::parse_line(" signal clk"),
        TuiInstr::Error(" signal clk".to_string(), "Unknown command ''".to_string())
    );
    assert_eq!(
        TuiInstr::parse_line("signal "),
        TuiInstr::Signal("".to_string())
    );
}

#[test]
fn layout_file() {
    let layout = TuiInstr::parse("# a comment\nsignal a\n\nsearch $a <- 1\r\nbogus\n#x\nsignal b");
    assert_eq!(
        layout,
        vec![
            TuiInstr::Signal("a".to_string()),
            TuiInstr::Search("$a <- 1".to_string()),
            TuiInstr::Error("bogus".to_string(), "Syntax Error".to_string()),
            TuiInstr::Signal("b".to_string()),
        ]
    );
    assert_eq!(
        TuiInstr::format_instrs(&layout),
        "signal a\nsearch $a <- 1\nbogus\nsignal b\n"
    );
    assert_eq!(TuiInstr::parse(&TuiInstr::format_instrs(&layout)), layout);
    assert_eq!(TuiInstr::total_height(&layout), 8);
    assert_eq!(layout[0].height(), 3);
    assert_eq!(layout[1].height(), 1);
    assert_eq!(layout[2].height(), 1);
    assert_eq!(layout[0].to_string(), "signal a");
    assert!(TuiInstr::parse("").is_empty());
    assert!(TuiInstr::parse("\n\n# only comments\n").is_empty());
    assert_eq!(TuiInstr::total_height(&[]), 0);
}

#[test]
fn commands_queue_events() {
    let mut events = Events::new();
    assert!(!events.in_visual_mode());
    assert!(!events.in_search_mode());
    assert_eq!(events.get_search_target(), SearchTarget::Nothing);
    assert_eq!(events.get_event(), Event::Nothing);
    typed(&mut events, "j");
    assert_eq!(drain(&mut events), vec![Event::Down]);
    assert_eq!(events.get_buffer(), "");
    typed(&mut events, "3k");
    assert_eq!(drain(&mut events), vec![Event::Up, Event::Up, Event::Up]);
    typed(&mut events, "g");
    assert_eq!(drain(&mut events), vec![]);
    assert_eq!(events.get_buffer(), "g");
    typed(&mut events, "g");
    assert_eq!(drain(&mut events), vec![Event::GotoTop]);
    typed(&mut events, "zo");
    assert_eq!(drain(&mut events), vec![Event::Edit]);
    typed(&mut events, "zz");
    assert_eq!(drain(&mut events), vec![Event::CenterWindow]);
    typed(&mut events, "0j");
    assert_eq!(drain(&mut events), vec![]);
    assert_eq!(events.get_buffer(), "");
    typed(&mut events, "12");
    assert_eq!(events.get_buffer(), "12");
    typed(&mut events, "q");
    assert_eq!(drain(&mut events).len(), 12);
}

#[test]
fn repeat_and_give_up() {
    let mut events = Events::new();
    typed(&mut events, "2l");
    assert_eq!(drain(&mut events), vec![Event::Right, Event::Right]);
    typed(&mut events, ".");
    assert_eq!(drain(&mut events), vec![Event::Right, Event::Right]);
    assert_eq!(events.get_buffer(), "2l");
    events.update(Some(Input::Key(Key::Esc)));
    assert_eq!(events.get_buffer(), "");
    typed(&mut events, "xxxxxxx");
    assert_eq!(events.get_buffer(), "xxxxxxx");
    typed(&mut events, "x");
    assert_eq!(events.get_buffer(), "");
    assert_eq!(drain(&mut events), vec![]);
}

#[test]
fn visual_mode() {
    let mut events = Events::new();
    typed(&mut events, "v");
    assert!(events.in_visual_mode());
    assert_eq!(drain(&mut events), vec![Event::StartVisualMode]);
    typed(&mut events, " ");
    assert!(!events.in_visual_mode());
    assert_eq!(drain(&mut events), vec![Event::StopVisualMode]);
    typed(&mut events, "\n");
    assert!(events.in_visual_mode());
    assert_eq!(drain(&mut events), vec![Event::StartVisualMode]);
    typed(&mut events, "\n");
    assert!(!events.in_visual_mode());
    assert_eq!(drain(&mut events), vec![Event::FitToSelection]);
    typed(&mut events, "v ");
    assert!(!events.in_visual_mode());
    events.update(Some(Input::Hold(7, 1)));
    assert!(events.in_visual_mode());
    events.update(Some(Input::Hold(8, 1)));
    events.update(Some(Input::Release(9, 1)));
    assert!(!events.in_visual_mode());
    events.update(Some(Input::Release(9, 1)));
    let all = drain(&mut events);
    assert_eq!(
        all[all.len() - 5..],
        [
            Event::StartVisualMode,
            Event::SetCursorHorizontal(7),
            Event::SetCursorHorizontal(8),
            Event::SetCursorHorizontal(9),
            Event::FitToSelection,
        ]
    );
}

#[test]
fn search_mode() {
    let mut events = Events::new();
    typed(&mut events, "/");
    assert!(events.in_search_mode());
    assert_eq!(events.get_search_target(), SearchTarget::Signal);
    assert_eq!(events.mode, InputMode::Search(SearchTarget::Signal));
    typed(&mut events, "clock.jq");
    events.update(Some(Input::Key(Key::Up)));
    events.update(Some(Input::Press(MouseButton::Left, 1, 2)));
    events.update(Some(Input::Key(Key::Backspace)));
    events.update(None);
    assert_eq!(events.get_buffer(), "clock.j");
    assert_eq!(drain(&mut events), vec![]);
    typed(&mut events, "\n");
    assert!(!events.in_search_mode());
    assert_eq!(
        drain(&mut events),
        vec![Event::Search(SearchTarget::Signal, "clock.j".to_string())]
    );
    typed(&mut events, "f");
    assert_eq!(events.get_search_target(), SearchTarget::Event);
    typed(&mut events, "1");
    events.update(Some(Input::Key(Key::Esc)));
    assert!(!events.in_search_mode());
    assert_eq!(events.get_buffer(), "");
    assert_eq!(drain(&mut events), vec![]);
}

#[test]
fn keys_and_mouse() {
    let mut events = Events::new();
    for key in [
        Key::Up,
        Key::Down,
        Key::Left,
        Key::Right,
        Key::PageUp,
        Key::PageDown,
        Key::Delete,
        Key::Home,
        Key::End,
        Key::Other,
        Key::Backspace,
    ] {
        events.update(Some(Input::Key(key)));
    }
    events.update(Some(Input::Other));
    events.update(Some(Input::Press(MouseButton::WheelUp, 0, 0)));
    events.update(Some(Input::Press(MouseButton::WheelDown, 0, 0)));
    events.update(Some(Input::Press(MouseButton::Left, 3, 4)));
    events.update(Some(Input::Press(MouseButton::Middle, 5, 6)));
    events.update(Some(Input::Press(MouseButton::Right, 7, 8)));
    assert_eq!(
        drain(&mut events),
        vec![
            Event::Up,
            Event::Down,
            Event::Left,
            Event::Right,
            Event::PageUp,
            Event::PageDown,
            Event::Delete,
            Event::GotoFirstEvent,
            Event::GotoLastEvent,
            Event::ZoomIn,
            Event::ZoomOut,
            Event::SetCursorHorizontal(3),
            Event::SetCursorVertical(4),
            Event::SetCursorHorizontal(5),
            Event::SetCursorVertical(6),
            Event::PasteBefore,
            Event::SetCursorHorizontal(7),
            Event::SetCursorVertical(8),
            Event::Yank,
        ]
    );
    typed(&mut events, "jx");
    events.clear_buffer();
    assert_eq!(events.get_buffer(), "");
    assert_eq!(events.previous_buffer, vec!['x']);
    assert_eq!(events.parse_buffer(), Err(()));
    assert_eq!(Event::Quit.clone(), Event::Quit);
}

#[test]
fn waveform_elements() {
    let zero = SignalValue::new(0);
    let one = SignalValue::new(1);
    let low = SignalValue::new_default(1, BitValue::Low);
    let high = SignalValue::new_default(1, BitValue::High);
    let unknown = SignalValue::new_default(1, BitValue::Undefined);
    let mut wide = SignalValue::new(0x2A);
    wide.expand(8);
    let el = WaveformElement::from_events;
    assert_eq!(el(&low, 0, &low), WaveformElement::Low);
    assert_eq!(el(&high, 0, &high), WaveformElement::High);
    assert_eq!(el(&wide, 0, &wide), WaveformElement::Value("h2A".to_string()));
    assert_eq!(el(&unknown, 1, &high), WaveformElement::High);
    assert_eq!(el(&low, 1, &high), WaveformElement::RisingEdge);
    assert_eq!(el(&high, 1, &low), WaveformElement::FallingEdge);
    assert_eq!(el(&wide, 1, &zero), WaveformElement::Transition);
    assert_eq!(el(&low, 2, &low), WaveformElement::LowDensity);
    assert_eq!(el(&low, 3, &high), WaveformElement::LowDensity);
    assert_eq!(el(&low, 4, &high), WaveformElement::MediumDensity);
    assert_eq!(el(&low, 10, &high), WaveformElement::MediumDensity);
    assert_eq!(el(&low, 11, &high), WaveformElement::HighDensity);
    assert_eq!(el(&low, 0, &unknown), WaveformElement::Invalid);
    assert_eq!(el(&one, 5, &SignalValue::invalid()), WaveformElement::Invalid);
    assert_eq!(
        el(&SignalValue::from_symbol_str("run"), 0, &SignalValue::from_symbol_str("run")),
        WaveformElement::Value("run".to_string())
    );
}

#[test]
fn columns_of_a_store() {
    let db = SignalDB::from_vcd(
        "$scope module top $end
$var wire 1 0 foo $end
$upscope $end
$enddefinitions $end
#0
$dumpvars
b0 0
$end
#10
10
#20
00
",
    )
    .unwrap();
    let ps = |v: i64| Timestamp::new(v, Scale::Picosecond);
    assert_eq!(
        WaveformElement::of_period(&db, "0", ps(1), ps(5)).unwrap(),
        WaveformElement::Low
    );
    assert_eq!(
        WaveformElement::of_period(&db, "0", ps(5), ps(15)).unwrap(),
        WaveformElement::RisingEdge
    );
    assert_eq!(
        WaveformElement::of_period(&db, "0", ps(11), ps(15)).unwrap(),
        WaveformElement::High
    );
    assert_eq!(
        WaveformElement::of_period(&db, "0", ps(15), ps(21)).unwrap(),
        WaveformElement::Invalid
    );
    assert_eq!(
        WaveformElement::of_period(&db, "9", ps(15), ps(21)).unwrap(),
        WaveformElement::Invalid
    );
    assert!(WaveformElement::of_period(&db, "9", ps(1), ps(5)).is_err());
}

#[test]
fn a_count_that_ends_where_it_is_told() {
    let mut events = Events::new();
    events.buffer = "3j".chars().collect();
    assert!(events.parse_buffer_from(1).is_ok());
    assert_eq!(drain(&mut events).len(), 3);

    events.buffer = "3j".chars().collect();
    assert!(events.parse_buffer_from(0).is_ok());
    assert_eq!(drain(&mut events).len(), 1);

    events.buffer = "12".chars().collect();
    assert!(events.parse_buffer_from(2).is_err());
    assert!(drain(&mut events).is_empty());

    events.buffer = "2y".chars().collect();
    assert!(events.parse_buffer_from(1).is_err());
    assert!(drain(&mut events).is_empty());
}
