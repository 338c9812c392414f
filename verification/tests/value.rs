use dwfv::signaldb::value::NibbleValue;
use std::collections::VecDeque;
use dwfv::signaldb::{BitValue, SignalValue, ValueFormat};

#[test]
fn signal_eq() {
    assert_eq!(SignalValue::new(0), SignalValue::from_str("000").unwrap());
    assert_eq!(
        SignalValue::new(42),
        SignalValue::from_str("000000101010").unwrap()
    );
}

#[test]
fn bit_from_and_to_char() {
    assert_eq!(BitValue::from_char('0'), BitValue::Low);
    assert_eq!(BitValue::from_char('1'), BitValue::High);
    assert_eq!(BitValue::from_char('z'), BitValue::HighZ);
    assert_eq!(BitValue::from_char('u'), BitValue::Undefined);
    assert_eq!(BitValue::from_char('-'), BitValue::Overflow);
    assert_eq!(BitValue::from_char('w'), BitValue::Filtered);
    assert_eq!(BitValue::from_char('x'), BitValue::Invalid);
    assert_eq!(BitValue::from_char('?'), BitValue::Invalid);
    assert_eq!(BitValue::Low.to_char(), '0');
    assert_eq!(BitValue::High.to_char(), '1');
    assert_eq!(BitValue::HighZ.to_char(), 'z');
    assert_eq!(BitValue::Undefined.to_char(), 'u');
    assert_eq!(BitValue::Overflow.to_char(), '-');
    assert_eq!(BitValue::Filtered.to_char(), 'w');
    assert_eq!(BitValue::Invalid.to_char(), 'x');
}

#[test]
fn new_default_is_all_one_bit() {
    assert_eq!(
        SignalValue::new_default(16, BitValue::High),
        SignalValue::new(0xFFFF)
    );
    assert_eq!(SignalValue::new_default(16, BitValue::High).width(), 16);
    assert_eq!(SignalValue::new_default(0, BitValue::High), SignalValue::new(0));
}

#[test]
fn from_symbol_str_gives_a_symbol() {
    let v = SignalValue::from_symbol_str("foo");
    assert_eq!(v, SignalValue::Symbol("foo".to_string()));
    assert_ne!(v, SignalValue::Symbol("bar".to_string()));
    assert_ne!(v, SignalValue::new(0));
    assert_eq!(v.width(), 2);
    assert!(!v.is_invalid());
    assert_eq!(v.to_string(), "foo");
}

#[test]
fn from_hex_reads_both_cases() {
    assert_eq!(SignalValue::from_hex("2A"), SignalValue::new(42));
    assert_eq!(SignalValue::from_hex("2a"), SignalValue::new(42));
    assert_eq!(SignalValue::from_hex(""), SignalValue::new(0));
    assert_eq!(
        SignalValue::from_hex("ffffffffffffffff"),
        SignalValue::new(u64::MAX)
    );
    assert_eq!(SignalValue::from_hex("1g"), SignalValue::new(0x10));
    assert_eq!(SignalValue::from_hex("2A").width(), 6);
}

#[test]
fn invalid_value_is_invalid() {
    let v = SignalValue::invalid();
    assert!(v.is_invalid());
    assert_eq!(v.width(), 1);
    assert!(!SignalValue::new(42).is_invalid());
    assert!(SignalValue::from_binary_string("10z1").is_invalid());
    assert!(SignalValue::from_binary_string("10-1").is_invalid());
    assert!(SignalValue::from_binary_string("w").is_invalid());
    assert!(SignalValue::from_binary_string("x").is_invalid());
}

#[test]
fn expand_pads_with_the_most_significant_bit() {
    let mut v = SignalValue::new_default(16, BitValue::High);
    assert_eq!(v.width(), 16);
    v.expand(32);
    assert_eq!(v.width(), 32);
    assert_eq!(v, SignalValue::new(0xFFFF));

    let mut x = SignalValue::from_binary_string("x1");
    x.expand(4);
    assert_eq!(x.to_string_binary(), "xxx1");

    let mut z = SignalValue::from_binary_string("z");
    z.expand(3);
    assert_eq!(z.to_string_binary(), "zzz");

    let mut zero = SignalValue::new(0);
    zero.expand(3);
    assert_eq!(zero.to_string_binary(), "000");

    let mut wide = SignalValue::from_binary_string("1010");
    wide.expand(2);
    assert_eq!(wide.to_string_binary(), "1010");

    let mut symbol = SignalValue::from_symbol_str("idle");
    symbol.expand(8);
    assert_eq!(symbol, SignalValue::from_symbol_str("idle"));
}

#[test]
fn width_of_a_number() {
    assert_eq!(SignalValue::new(42).width(), 6);
    assert_eq!(SignalValue::new(0).width(), 0);
    assert_eq!(SignalValue::new(1).width(), 1);
}

#[test]
fn equality_ignores_radix_and_high_zeros() {
    let a = SignalValue::Literal(vec![BitValue::High, BitValue::Low], ValueFormat::Hex);
    let b = SignalValue::Literal(vec![BitValue::High], ValueFormat::Bin);
    assert_eq!(a, b);
    let c = SignalValue::Literal(vec![BitValue::High, BitValue::Undefined], ValueFormat::Hex);
    assert_ne!(a, c);
    assert_ne!(SignalValue::new(1), SignalValue::new(3));
    assert!(SignalValue::new(0).is_zero());
    assert!(SignalValue::from_binary_string("0000").is_zero());
    assert!(!SignalValue::new(2).is_zero());
    assert!(!SignalValue::from_symbol_str("0").is_zero());
}

#[test]
fn text_in_hex_and_binary() {
    let mut v = SignalValue::new(0x1337);
    v.expand(32);
    assert_eq!(v.to_string(), "h00001337");
    assert_eq!(SignalValue::new(42).to_string(), "h2A");
    assert_eq!(SignalValue::new(0).to_string(), "h");
    assert_eq!(SignalValue::from_binary_string("1x10").to_string(), "b1x10");
    assert_eq!(SignalValue::from_binary_string("z1010").to_string(), "bz1010");
    assert_eq!(SignalValue::from_hex("2A").to_string(), "h2A");
    let b = SignalValue::Literal(
        vec![BitValue::Low, BitValue::High, BitValue::HighZ],
        ValueFormat::Bin,
    );
    assert_eq!(b.to_string(), "bz10");
    assert_eq!(b.to_string_binary(), "z10");
}

#[test]
fn nibble_text() {
    let n = NibbleValue([BitValue::Low, BitValue::High, BitValue::Low, BitValue::High]);
    assert_eq!(n.to_char(), 'A');
    let n = NibbleValue([BitValue::HighZ, BitValue::High, BitValue::Undefined, BitValue::Low]);
    assert_eq!(n.to_char(), 'u');
    let n = NibbleValue([BitValue::High, BitValue::High, BitValue::High, BitValue::High]);
    assert_eq!(n.to_char(), 'F');
    let nibbles = NibbleValue::from_vec(&vec![
        BitValue::High,
        BitValue::Low,
        BitValue::Low,
        BitValue::Low,
        BitValue::High,
    ]);
    assert_eq!(nibbles.len(), 2);
    assert_eq!(nibbles[0].to_char(), '1');
    assert_eq!(nibbles[1].to_char(), '1');
}

#[test]
fn binary_text_is_stable() {
    for text in ["0", "1", "10z1", "abc", "u-w1", "", "0001"] {
        let once = SignalValue::from_binary_string(text).to_string_binary();
        let twice = SignalValue::from_binary_string(&once).to_string_binary();
        assert_eq!(once, twice);
        assert_eq!(once.chars().count(), text.chars().count());
        assert_eq!(
            SignalValue::from_binary_string(&once),
            SignalValue::from_binary_string(text)
        );
    }
    assert_eq!(SignalValue::from_binary_string("abc").to_string_binary(), "xxx");
    assert_eq!(SignalValue::from_binary_string("10z1").to_string_binary(), "10z1");
}

#[test]
fn clone_keeps_the_value() {
    let v = SignalValue::from_binary_string("1z0");
    assert_eq!(v.clone(), v);
    assert_eq!(v.clone().to_string_binary(), "1z0");
    let s = SignalValue::from_symbol_str("run");
    assert_eq!(s.clone(), s);
}

#[test]
fn nibbles_out_of_a_queue() {
    let mut q: VecDeque<BitValue> = VecDeque::new();
    for b in [
        BitValue::High,
        BitValue::Low,
        BitValue::High,
        BitValue::Low,
        BitValue::Low,
        BitValue::HighZ,
    ] {
        q.push_back(b);
    }
    assert_eq!(NibbleValue::pop_from(&mut q).to_char(), '5');
    assert_eq!(q.len(), 2);
    let last = NibbleValue::pop_from(&mut q);
    assert_eq!(last.0, [BitValue::Low, BitValue::HighZ, BitValue::Low, BitValue::Low]);
    assert_eq!(last.to_char(), 'z');
    assert!(q.is_empty());
    assert_eq!(NibbleValue::pop_from(&mut q).to_char(), '0');
    assert!(NibbleValue::from_vec(&Vec::new()).is_empty());
    assert_eq!(NibbleValue::from_vec(&vec![BitValue::High; 8]).len(), 2);
}

#[test]
fn bits_are_written_as_they_were_read() {
    for text in ["0", "1", "z", "u", "w", "-", "x", "01zuw-", "0000", "1x10", "u1", "zz01"] {
        let v = SignalValue::from_str(text).unwrap();
        let shown = v.to_string();
        assert_eq!(shown, format!("b{}", text));
        assert_eq!(SignalValue::from_str(&shown[1..]).unwrap(), v);
        let w = SignalValue::from_binary_string(text);
        assert_eq!(w.to_string(), format!("b{}", text));
        assert_eq!(SignalValue::from_binary_string(&shown[1..]), w);
    }
}
