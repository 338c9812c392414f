use dwfv::signaldb::{Scale, TimeDescr, Timestamp};

#[test]
fn timestamp_add_same_scale() {
    let a = Timestamp::new(21, Scale::Second);
    let b = Timestamp::new(21, Scale::Second);
    assert_eq!(a + b, Timestamp::new(42, Scale::Second));
}

#[test]
fn timestamp_add_mixed_scale() {
    let a = Timestamp::new(21, Scale::Second);
    let b = Timestamp::new(21, Scale::Microsecond);
    let sum = a + b;
    assert_eq!(sum.value, 21000021);
    assert_eq!(sum.scale, Scale::Microsecond);
    assert_eq!(sum, Timestamp::new(21000021, Scale::Microsecond));
}

#[test]
fn timestamp_sub() {
    let a = Timestamp::new(21, Scale::Millisecond);
    let b = Timestamp::new(21, Scale::Millisecond);
    assert_eq!(a - b, Timestamp::new(0, Scale::Millisecond));

    let a = Timestamp::new(21, Scale::Second);
    let b = Timestamp::new(21, Scale::Microsecond);
    let d = a - b;
    assert_eq!(d.value, 20999979);
    assert_eq!(d.scale, Scale::Microsecond);
}

#[test]
fn timestamp_div_by_timestamp() {
    let a = Timestamp::new(42, Scale::Millisecond);
    let b = Timestamp::new(21, Scale::Millisecond);
    assert_eq!(a / b, 2);

    let a = Timestamp::new(2, Scale::Second);
    let b = Timestamp::new(1, Scale::Microsecond);
    assert_eq!(a / b, 2000000);
}

#[test]
fn timestamp_mul() {
    let timestamp = Timestamp::new(500, Scale::Millisecond);
    let twice = timestamp * 2;
    assert_eq!(twice.value, 1000);
    assert_eq!(twice.scale, Scale::Millisecond);
    assert_eq!(twice, Timestamp::new(1, Scale::Second));
}

#[test]
fn timestamp_div_by_integer() {
    let timestamp = Timestamp::new(42, Scale::Millisecond);
    let half = timestamp / 2;
    assert_eq!(half.value, 21);
    assert_eq!(half.scale, Scale::Millisecond);

    let timestamp = Timestamp::new(1, Scale::Second);
    let half = timestamp / 2;
    assert_eq!(half.value, 500);
    assert_eq!(half.scale, Scale::Millisecond);

    let timestamp = Timestamp::new(1, Scale::Femtosecond);
    let half = timestamp / 2;
    assert_eq!(half.value, 1);
    assert_eq!(half.scale, Scale::Femtosecond);

    let timestamp = Timestamp::new(-10, Scale::Second);
    let half = timestamp / 2;
    assert_eq!(half.value, -5);
    assert_eq!(half.scale, Scale::Second);

    let timestamp = Timestamp::new(0, Scale::Nanosecond);
    let same = timestamp / 3;
    assert_eq!(same.value, 0);
    assert_eq!(same.scale, Scale::Nanosecond);
}

#[test]
fn timestamp_order_across_scales() {
    let a = Timestamp::new(1, Scale::Second);
    assert!(a == Timestamp::new(1000, Scale::Millisecond));
    assert!(a > Timestamp::new(999, Scale::Millisecond));
    assert!(a < Timestamp::new(1001, Scale::Millisecond));
    assert!(a <= Timestamp::new(1000, Scale::Millisecond));
    assert!(a != Timestamp::new(1, Scale::Millisecond));
}

#[test]
fn timestamp_order_is_exact_for_large_values() {
    let a = Timestamp::new(i64::MAX, Scale::Second);
    let b = Timestamp::new(i64::MAX, Scale::Femtosecond);
    assert!(a > b);
    let c = Timestamp::new(i64::MIN, Scale::Second);
    assert!(c < b);
    assert!(c < Timestamp::new(i64::MIN, Scale::Femtosecond));
}

#[test]
fn origin_equals_zero_at_any_scale() {
    assert_eq!(Timestamp::origin(), Timestamp::new(0, Scale::Femtosecond));
    assert_eq!(Timestamp::origin(), Timestamp::new(0, Scale::Millisecond));
    assert_eq!(Timestamp::origin().value, 0);
    assert_eq!(Timestamp::origin().scale, Scale::Second);
}

#[test]
fn rescale_both_ways() {
    let t = Timestamp::new(3, Scale::Microsecond);
    let finer = t.rescale(Scale::Nanosecond);
    assert_eq!(finer.value, 3000);
    assert_eq!(finer.scale, Scale::Nanosecond);
    let coarser = Timestamp::new(2999, Scale::Nanosecond).rescale(Scale::Microsecond);
    assert_eq!(coarser.value, 2);
    assert_eq!(coarser.scale, Scale::Microsecond);
    let negative = Timestamp::new(-2999, Scale::Nanosecond).rescale(Scale::Microsecond);
    assert_eq!(negative.value, -2);
    let same = t.rescale(Scale::Microsecond);
    assert_eq!(same.value, 3);
}

#[test]
fn normalize_takes_the_finer_scale() {
    let (a, b) = Timestamp::new(2, Scale::Second).normalize(Timestamp::new(5, Scale::Millisecond));
    assert_eq!(a.value, 2000);
    assert_eq!(a.scale, Scale::Millisecond);
    assert_eq!(b.value, 5);
    assert_eq!(b.scale, Scale::Millisecond);
}

#[test]
fn auto_rescale_scales_up() {
    let mut t = Timestamp::new(1_234_567, Scale::Nanosecond);
    assert!(t.auto_rescale(2000));
    assert_eq!(t.value, 1234);
    assert_eq!(t.scale, Scale::Microsecond);

    let mut t = Timestamp::new(-1_234_567, Scale::Nanosecond);
    assert!(t.auto_rescale(2000));
    assert_eq!(t.value, -1234);
    assert_eq!(t.scale, Scale::Microsecond);

    let mut t = Timestamp::new(5000, Scale::Second);
    assert!(!t.auto_rescale(2000));
    assert_eq!(t.value, 5000);
    assert_eq!(t.scale, Scale::Second);

    let mut t = Timestamp::new(5, Scale::Picosecond);
    assert!(t.auto_rescale(10));
    assert_eq!(t.value, 5);
    assert_eq!(t.scale, Scale::Picosecond);
}

#[test]
fn scale_up_and_down() {
    assert_eq!(Scale::Second.scale_down(), Some(Scale::Millisecond));
    assert_eq!(Scale::Femtosecond.scale_down(), None);
    assert_eq!(Scale::Second.scale_up(), None);
    assert_eq!(Scale::Femtosecond.scale_up(), Some(Scale::Picosecond));
    let down = Timestamp::new(2, Scale::Second).scale_down().unwrap();
    assert_eq!(down.value, 2000);
    assert_eq!(down.scale, Scale::Millisecond);
    assert!(Timestamp::new(2, Scale::Femtosecond).scale_down().is_none());
    let up = Timestamp::new(2500, Scale::Millisecond).scale_up().unwrap();
    assert_eq!(up.value, 2);
    assert_eq!(up.scale, Scale::Second);
    assert!(Timestamp::new(2, Scale::Second).scale_up().is_none());
}

#[test]
fn derive_keeps_the_scale() {
    let t = Timestamp::new(7, Scale::Nanosecond).derive(9);
    assert_eq!(t.value, 9);
    assert_eq!(t.scale, Scale::Nanosecond);
}

#[test]
fn scale_text() {
    assert_eq!(Scale::Second.to_string(), "s");
    assert_eq!(Scale::Millisecond.to_string(), "ms");
    assert_eq!(Scale::Microsecond.to_string(), "us");
    assert_eq!(Scale::Nanosecond.to_string(), "ns");
    assert_eq!(Scale::Picosecond.to_string(), "ps");
    assert_eq!(Scale::Femtosecond.to_string(), "fs");
    assert_eq!(Scale::from_str("ns"), Ok(Scale::Nanosecond));
    assert_eq!(Scale::from_str("s"), Ok(Scale::Second));
    assert_eq!(Scale::from_str("xs"), Err(()));
    assert_eq!(Scale::from_str(""), Err(()));
    assert_eq!(Scale::Second.femtoseconds(), 1_000_000_000_000_000);
    let nanosecond: i64 = Scale::Nanosecond.into();
    assert_eq!(nanosecond, 1_000_000);
    assert_eq!(i64::from(Scale::Femtosecond), 1);
    assert_eq!(Scale::Picosecond.femtoseconds(), 1000);
}

#[test]
fn timestamp_text() {
    assert_eq!(Timestamp::new(42, Scale::Nanosecond).to_string(), "42ns");
    assert_eq!(Timestamp::new(-7, Scale::Second).to_string(), "-7s");
    assert_eq!(Timestamp::new(0, Scale::Femtosecond).to_string(), "0fs");
    assert_eq!(
        Timestamp::new(i64::MIN, Scale::Microsecond).to_string(),
        "-9223372036854775808us"
    );
    assert_eq!(
        Timestamp::new(i64::MAX, Scale::Millisecond).to_string(),
        "9223372036854775807ms"
    );
}

#[test]
fn time_descr_text() {
    let a = Timestamp::new(1337, Scale::Picosecond);
    let b = Timestamp::new(1338, Scale::Picosecond);
    assert_eq!(TimeDescr::Point(a).to_string(), "1337");
    assert_eq!(TimeDescr::Period(a, b).to_string(), "1337-1338");
    assert_eq!(TimeDescr::Period(a, b).begin(), a);
    assert_eq!(TimeDescr::Period(a, b).end(), b);
    assert_eq!(TimeDescr::Point(a).end(), a);
}
