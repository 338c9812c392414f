use dwfv::signaldb::{BitValue, Scale, Signal, SignalValue, Timestamp};

fn at(value: i64) -> Timestamp {
    Timestamp::new(value, Scale::Picosecond)
}

#[test]
fn add_events() {
    let mut s = Signal::new("t", "test", 32);
    s.add_event(at(42), SignalValue::new(0));
    s.add_event(at(43), SignalValue::new(1));
    assert_eq!(s.events[0].timestamp, at(42));
    assert_eq!(s.events[1].timestamp, at(43));

    s.add_event(at(44), SignalValue::new(1));
    assert_eq!(s.events.len(), 2);

    s.add_event(at(43), SignalValue::new(0));
    assert_eq!(s.events.len(), 1);
}

#[test]
fn values() {
    let mut s = Signal::new("t", "test", 32);
    s.add_event(at(42), SignalValue::new(0));
    s.add_event(at(43), SignalValue::new(1));
    s.add_event(at(45), SignalValue::new(0));

    assert_eq!(
        s.value_at(at(41)),
        SignalValue::new_default(32, BitValue::Undefined)
    );
    assert_eq!(s.value_at(at(42)), SignalValue::new(0));
    assert_eq!(s.value_at(at(43)), SignalValue::new(1));
    assert_eq!(s.value_at(at(44)), SignalValue::new(1));
    assert_eq!(s.value_at(at(45)), SignalValue::new(0));
    assert_eq!(s.value_at(at(100)), SignalValue::new(0));
}

#[test]
fn slices() {
    let mut s = Signal::new("t", "test", 32);
    s.add_event(at(42), SignalValue::new(0));
    s.add_event(at(43), SignalValue::new(1));
    s.add_event(at(45), SignalValue::new(0));

    let (_, big_slice, _) = s.events_between(at(0), at(100));
    assert_eq!(big_slice, 3);
    let (_, medium_slice, _) = s.events_between(at(0), at(44));
    assert_eq!(medium_slice, 2);
    let (_, small_slice, _) = s.events_between(at(0), at(43));
    assert_eq!(small_slice, 1);
    let (_, empty_slice, _) = s.events_between(at(0), at(10));
    assert_eq!(empty_slice, 0);
}

#[test]
fn new_signal_has_no_events() {
    let signal = Signal::new("0", "foo", 32);
    assert_eq!(signal.id, "0");
    assert_eq!(signal.name, "foo");
    assert_eq!(signal.width, 32);
    assert!(signal.path.is_empty());
    assert!(signal.events.is_empty());
    assert_eq!(signal.default, SignalValue::new_default(32, BitValue::Undefined));
    assert!(signal.get_first_event().is_none());
    assert!(signal.get_last_event().is_none());
}

#[test]
fn event_at_is_exact() {
    let mut signal = Signal::new("0", "foo", 32);
    signal.add_event(at(42), SignalValue::new(1337));
    assert_eq!(signal.event_at(at(42)).unwrap(), SignalValue::new(1337));
    assert!(signal.event_at(at(43)).is_none());
    assert!(signal.event_at(at(41)).is_none());
    assert_eq!(signal.value_at(at(43)), SignalValue::new(1337));
}

#[test]
fn events_between_brackets_the_window() {
    let mut signal = Signal::new("0", "foo", 32);
    signal.add_event(at(0), SignalValue::new(0));
    signal.add_event(at(42), SignalValue::new(1337));
    signal.add_event(at(43), SignalValue::new(1338));
    assert_eq!(
        signal.events_between(at(40), at(45)),
        (SignalValue::new(0), 2, SignalValue::new(1338))
    );
    assert_eq!(
        signal.events_between(at(42), at(43)),
        (SignalValue::new(0), 1, SignalValue::new(1337))
    );
    assert_eq!(
        signal.events_between(at(43), at(43)),
        (SignalValue::new(1337), 0, SignalValue::new(1337))
    );
}

#[test]
fn edges() {
    let mut signal = Signal::new("0", "foo", 1);
    signal.add_event(at(0), SignalValue::new(0));
    signal.add_event(at(42), SignalValue::new(1));
    signal.add_event(at(43), SignalValue::new(0));

    assert_eq!(signal.get_next_rising_edge(at(40)).unwrap(), at(42));
    assert!(signal.get_next_rising_edge(at(42)).is_none());
    assert!(signal.get_next_rising_edge(at(43)).is_none());

    assert_eq!(signal.get_previous_rising_edge(at(44)).unwrap(), at(42));
    assert_eq!(signal.get_previous_rising_edge(at(43)).unwrap(), at(42));
    assert!(signal.get_previous_rising_edge(at(42)).is_none());
    assert!(signal.get_previous_rising_edge(at(40)).is_none());

    assert_eq!(signal.get_next_falling_edge(at(40)).unwrap(), at(43));
    assert!(signal.get_next_falling_edge(at(44)).is_none());

    assert_eq!(signal.get_first_event().unwrap(), at(0));
    assert_eq!(signal.get_last_event().unwrap(), at(43));
}

#[test]
fn edges_across_scales() {
    let mut signal = Signal::new("0", "foo", 1);
    signal.add_event(Timestamp::new(1500, Scale::Picosecond), SignalValue::new(1));
    let found = signal
        .get_next_rising_edge(Timestamp::new(1, Scale::Nanosecond))
        .unwrap();
    assert_eq!(found.value, 1500);
    assert_eq!(found.scale, Scale::Picosecond);
    assert!(signal
        .get_next_rising_edge(Timestamp::new(2, Scale::Nanosecond))
        .is_none());
}

#[test]
fn stats_line() {
    let mut signal = Signal::new("0", "foo", 32);
    assert_eq!(signal.format_stats(), "0 (foo) - width: 32, edges: 0\n");
    signal.add_event(at(42), SignalValue::new(1337));
    signal.add_event(at(43), SignalValue::new(1338));
    assert_eq!(
        signal.format_stats(),
        "0 (foo) - width: 32, edges: 2, from: 42ps, to: 43ps\n"
    );
}

#[test]
fn value_line() {
    let mut signal = Signal::new("0", "foo", 32);
    signal.add_event(at(42), SignalValue::new(0x1337));
    assert_eq!(signal.format_value_at(at(43)), "0 (foo) = h00001337\n");
    assert_eq!(signal.format_value_at(at(42)), "0 (foo) -> h00001337\n");
    assert_eq!(signal.format_value_at(at(41)), "0 (foo) = huuuuuuuu\n");
}

#[test]
fn adding_an_event_twice_changes_nothing() {
    let mut once = Signal::new("0", "foo", 8);
    once.add_event(at(10), SignalValue::new(1));
    once.add_event(at(20), SignalValue::new(2));
    once.add_event(at(15), SignalValue::new(7));
    let mut twice = Signal::new("0", "foo", 8);
    twice.add_event(at(10), SignalValue::new(1));
    twice.add_event(at(20), SignalValue::new(2));
    twice.add_event(at(15), SignalValue::new(7));
    twice.add_event(at(15), SignalValue::new(7));
    assert_eq!(once.events.len(), 3);
    assert_eq!(twice.events.len(), 3);
    for i in 0..3 {
        assert_eq!(once.events[i].timestamp, twice.events[i].timestamp);
        assert_eq!(once.events[i].new_value, twice.events[i].new_value);
    }
    assert_eq!(twice.events[1].timestamp, at(15));
    assert_eq!(twice.events[1].new_value, SignalValue::new(7));
}

#[test]
fn adding_the_prior_value_removes_the_event() {
    let mut s = Signal::new("0", "foo", 8);
    s.add_event(at(10), SignalValue::new(1));
    s.add_event(at(20), SignalValue::new(2));
    s.add_event(at(20), SignalValue::new(1));
    assert_eq!(s.events.len(), 1);
    assert!(s.event_at(at(20)).is_none());
    s.add_event(at(30), SignalValue::new(1));
    assert_eq!(s.events.len(), 1);
    assert!(s.event_at(at(30)).is_none());
}

#[test]
fn events_stay_in_order_and_change_the_value() {
    let mut s = Signal::new("0", "foo", 8);
    for (t, v) in [(5, 1), (1, 2), (9, 3), (3, 4), (9, 5), (7, 5), (20, 5), (21, 6)] {
        s.add_event(at(t), SignalValue::new(v));
    }
    for pair in s.events.windows(2) {
        assert!(pair[0].timestamp < pair[1].timestamp);
    }
    let mut appended = Signal::new("0", "foo", 8);
    for (t, v) in [(1, 1), (2, 1), (3, 2), (3, 1), (4, 0), (5, 0), (6, 3)] {
        appended.add_event(at(t), SignalValue::new(v));
    }
    let mut prior = appended.default.clone();
    for event in &appended.events {
        assert_ne!(event.new_value, prior);
        prior = event.new_value.clone();
    }
    for pair in appended.events.windows(2) {
        assert!(pair[0].timestamp < pair[1].timestamp);
    }
}

#[test]
fn value_at_is_the_value_of_the_latest_event() {
    let mut s = Signal::new("0", "foo", 8);
    s.add_event(at(10), SignalValue::new(1));
    s.add_event(at(20), SignalValue::new(2));
    assert_eq!(s.value_at(at(17)), s.value_at(at(10)));
    assert_eq!(s.value_at(at(17)), SignalValue::new(1));
    assert_eq!(s.value_at(at(9)), s.default);
    assert_eq!(s.index_of(at(10)), 0);
    assert_eq!(s.index_of(at(11)), 1);
    assert_eq!(s.index_after(at(10)), 1);
    assert_eq!(s.index_after(at(25)), 2);
    assert_eq!(*s.prev_value_at_index(0), s.default);
    assert_eq!(*s.prev_value_at_index(1), SignalValue::new(1));
    assert_eq!(*s.prev_value_at_index(5), SignalValue::new(2));
}

#[test]
fn neighbours_never_hold_the_same_value() {
    let mut s = Signal::new("t", "test", 1);
    s.add_event(at(10), SignalValue::new(0));
    s.add_event(at(20), SignalValue::new(1));
    s.add_event(at(30), SignalValue::new(0));
    assert_eq!(s.events.len(), 3);

    // The event at 20 now repeats the value before it and goes; the
    // event at 30 then repeats the value in force and goes too.
    s.add_event(at(20), SignalValue::new(0));
    assert_eq!(s.events.len(), 1);
    assert_eq!(s.events[0].timestamp, at(10));

    s.add_event(at(30), SignalValue::new(1));
    s.add_event(at(40), SignalValue::new(0));
    // An event that comes before one of the same value takes its place.
    s.add_event(at(25), SignalValue::new(1));
    assert_eq!(s.events.len(), 3);
    assert_eq!(s.events[1].timestamp, at(25));
    assert_eq!(s.events[2].timestamp, at(40));
    for i in 1..s.events.len() {
        assert_ne!(s.events[i - 1].new_value, s.events[i].new_value);
    }
    assert_eq!(s.value_at(at(30)), SignalValue::new(1));
    assert_eq!(s.value_at(at(24)), SignalValue::new(0));
}

#[test]
fn a_window_that_ends_before_it_begins() {
    let mut s = Signal::new("t", "test", 32);
    s.add_event(at(42), SignalValue::new(0));
    s.add_event(at(43), SignalValue::new(1));
    s.add_event(at(45), SignalValue::new(0));
    let (before, count, after) = s.events_between(at(100), at(0));
    assert_eq!(count, 0);
    assert_eq!(before, SignalValue::new(0));
    assert!(after.is_invalid());
    let (_, count, _) = s.events_between(at(44), at(44));
    assert_eq!(count, 0);
}
