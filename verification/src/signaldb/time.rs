//! Points in time: an integer count of a time unit, comparable across units.
use crate::text::{append_str, decimal, push_decimal, same_str, string_of};
use std::cmp::Ordering;
use std::ops::{Add, Div, Mul, Sub};
use vstd::prelude::*;
use vstd::std_specs::cmp::{PartialEqSpecImpl, PartialOrdSpecImpl};
use vstd::std_specs::convert::FromSpecImpl;
use vstd::std_specs::ops::{AddSpecImpl, DivSpecImpl, MulSpecImpl, SubSpecImpl};

verus! {

/// The largest factor by which a value is multiplied when it is brought to
/// a finer unit.
pub const MAX_RESCALE: i64 = 1125899906842624;

/// Time unit, from the finest to the coarsest.
#[derive(Debug, Copy, Clone, Hash, PartialEq, Eq, Structural, PartialOrd, Ord)]
pub enum Scale {
    Femtosecond,
    Picosecond,
    Nanosecond,
    Microsecond,
    Millisecond,
    Second,
}

/// A point in time: `value` units of `scale`.
#[derive(Debug, Copy, Clone)]
pub struct Timestamp {
    pub value: i64,
    pub scale: Scale,
}

/// A finding in time: an instant, or the half-open period from the first
/// timestamp up to the second.
#[derive(Debug, Copy, Clone)]
pub enum TimeDescr {
    Point(Timestamp),
    Period(Timestamp, Timestamp),
}

/// Integer division that rounds toward zero.
pub open spec fn trunc_div(a: int, b: int) -> int
    recommends
        b != 0,
{
    let m = (if a < 0 {
        -a
    } else {
        a
    }) / (if b < 0 {
        -b
    } else {
        b
    });
    if (a < 0) != (b < 0) {
        -m
    } else {
        m
    }
}

/// Truncating division on wide integers.
fn wide_div(a: i128, b: i128) -> (q: i128)
    requires
        b != 0,
        -0x4000_0000_0000_0000_0000_0000_0000_0000 < a < 0x4000_0000_0000_0000_0000_0000_0000_0000,
        -0x4000_0000_0000_0000_0000_0000_0000_0000 < b < 0x4000_0000_0000_0000_0000_0000_0000_0000,
    ensures
        q == trunc_div(a as int, b as int),
        a >= 0 ==> -a <= q <= a,
        a < 0 ==> a <= q <= -a,
{
    let x: i128 = if a < 0 {
        -a
    } else {
        a
    };
    let y: i128 = if b < 0 {
        -b
    } else {
        b
    };
    let m = x / y;
    assert(0 <= m <= x) by (nonlinear_arith)
        requires
            m == x / y,
            x >= 0,
            y > 0,
    ;
    if (a < 0) != (b < 0) {
        -m
    } else {
        m
    }
}

impl Scale {
    /// The number of femtoseconds in one unit.
    pub open spec fn factor(self) -> int {
        match self {
            Scale::Second => 1_000_000_000_000_000,
            Scale::Millisecond => 1_000_000_000_000,
            Scale::Microsecond => 1_000_000_000,
            Scale::Nanosecond => 1_000_000,
            Scale::Picosecond => 1_000,
            Scale::Femtosecond => 1,
        }
    }

    /// Position of the unit among the units, the finest being 0.
    pub open spec fn rank(self) -> nat {
        match self {
            Scale::Second => 5,
            Scale::Millisecond => 4,
            Scale::Microsecond => 3,
            Scale::Nanosecond => 2,
            Scale::Picosecond => 1,
            Scale::Femtosecond => 0,
        }
    }

    /// The next finer unit.
    pub open spec fn finer(self) -> Option<Scale> {
        match self {
            Scale::Second => Some(Scale::Millisecond),
            Scale::Millisecond => Some(Scale::Microsecond),
            Scale::Microsecond => Some(Scale::Nanosecond),
            Scale::Nanosecond => Some(Scale::Picosecond),
            Scale::Picosecond => Some(Scale::Femtosecond),
            Scale::Femtosecond => None,
        }
    }

    /// The next coarser unit.
    pub open spec fn coarser(self) -> Option<Scale> {
        match self {
            Scale::Second => None,
            Scale::Millisecond => Some(Scale::Second),
            Scale::Microsecond => Some(Scale::Millisecond),
            Scale::Nanosecond => Some(Scale::Microsecond),
            Scale::Picosecond => Some(Scale::Nanosecond),
            Scale::Femtosecond => Some(Scale::Picosecond),
        }
    }

    /// The unit's suffix in the notation of a timestamp.
    pub open spec fn suffix(self) -> Seq<char> {
        match self {
            Scale::Second => seq!['s'],
            Scale::Millisecond => seq!['m', 's'],
            Scale::Microsecond => seq!['u', 's'],
            Scale::Nanosecond => seq!['n', 's'],
            Scale::Picosecond => seq!['p', 's'],
            Scale::Femtosecond => seq!['f', 's'],
        }
    }

    /// The unit with the given suffix, if there is one.
    pub open spec fn with_suffix(s: Seq<char>) -> Option<Scale> {
        if s == Scale::Second.suffix() {
            Some(Scale::Second)
        } else if s == Scale::Millisecond.suffix() {
            Some(Scale::Millisecond)
        } else if s == Scale::Microsecond.suffix() {
            Some(Scale::Microsecond)
        } else if s == Scale::Nanosecond.suffix() {
            Some(Scale::Nanosecond)
        } else if s == Scale::Picosecond.suffix() {
            Some(Scale::Picosecond)
        } else if s == Scale::Femtosecond.suffix() {
            Some(Scale::Femtosecond)
        } else {
            None
        }
    }

    /// The next finer unit, if any.
    pub fn scale_down(self) -> (r: Option<Scale>)
        ensures
            r == self.finer(),
    {
        match self {
            Scale::Second => Some(Scale::Millisecond),
            Scale::Millisecond => Some(Scale::Microsecond),
            Scale::Microsecond => Some(Scale::Nanosecond),
            Scale::Nanosecond => Some(Scale::Picosecond),
            Scale::Picosecond => Some(Scale::Femtosecond),
            Scale::Femtosecond => None,
        }
    }

    /// The next coarser unit, if any.
    pub fn scale_up(self) -> (r: Option<Scale>)
        ensures
            r == self.coarser(),
    {
        match self {
            Scale::Second => None,
            Scale::Millisecond => Some(Scale::Second),
            Scale::Microsecond => Some(Scale::Millisecond),
            Scale::Nanosecond => Some(Scale::Microsecond),
            Scale::Picosecond => Some(Scale::Nanosecond),
            Scale::Femtosecond => Some(Scale::Picosecond),
        }
    }

    /// The number of femtoseconds in one unit.
    pub fn femtoseconds(self) -> (r: i64)
        ensures
            r == self.factor(),
    {
        match self {
            Scale::Second => 1_000_000_000_000_000,
            Scale::Millisecond => 1_000_000_000_000,
            Scale::Microsecond => 1_000_000_000,
            Scale::Nanosecond => 1_000_000,
            Scale::Picosecond => 1_000,
            Scale::Femtosecond => 1,
        }
    }

    /// The unit's suffix: `s`, `ms`, `us`, `ns`, `ps` or `fs`.
    pub fn as_str(self) -> (r: &'static str)
        ensures
            r@ == self.suffix(),
    {
        proof {
            reveal_strlit("s");
            reveal_strlit("ms");
            reveal_strlit("us");
            reveal_strlit("ns");
            reveal_strlit("ps");
            reveal_strlit("fs");
        }
        let r = match self {
            Scale::Second => "s",
            Scale::Millisecond => "ms",
            Scale::Microsecond => "us",
            Scale::Nanosecond => "ns",
            Scale::Picosecond => "ps",
            Scale::Femtosecond => "fs",
        };
        assert(r@ =~= self.suffix());
        r
    }

    /// The unit's suffix as an owned string.
    pub fn to_string(self) -> (r: String)
        ensures
            r@ == self.suffix(),
    {
        let mut out: Vec<char> = Vec::new();
        append_str(&mut out, self.as_str());
        string_of(&out)
    }

    /// Reads a unit from its suffix.
    pub fn from_str(s: &str) -> (r: Result<Scale, ()>)
        ensures
            r == match Scale::with_suffix(s@) {
                Some(scale) => Ok::<Scale, ()>(scale),
                None => Err::<Scale, ()>(()),
            },
    {
        if same_str(s, Scale::Second.as_str()) {
            Ok(Scale::Second)
        } else if same_str(s, Scale::Millisecond.as_str()) {
            Ok(Scale::Millisecond)
        } else if same_str(s, Scale::Microsecond.as_str()) {
            Ok(Scale::Microsecond)
        } else if same_str(s, Scale::Nanosecond.as_str()) {
            Ok(Scale::Nanosecond)
        } else if same_str(s, Scale::Picosecond.as_str()) {
            Ok(Scale::Picosecond)
        } else if same_str(s, Scale::Femtosecond.as_str()) {
            Ok(Scale::Femtosecond)
        } else {
            Err(())
        }
    }

    /// Whether this unit is finer than the other.
    pub fn finer_than(self, other: Scale) -> (r: bool)
        ensures
            r == (self.factor() < other.factor()),
    {
        self.femtoseconds() < other.femtoseconds()
    }
}

impl FromSpecImpl<Scale> for i64 {
    open spec fn obeys_from_spec() -> bool {
        true
    }

    open spec fn from_spec(scale: Scale) -> i64 {
        scale.factor() as i64
    }
}

impl From<Scale> for i64 {
    /// The number of femtoseconds in one unit.
    fn from(scale: Scale) -> (r: i64) {
        scale.femtoseconds()
    }
}

/// The factor of a unit is a whole multiple of the factor of a finer one.
pub proof fn lemma_factor_ratio(a: Scale, b: Scale)
    requires
        a.factor() >= b.factor(),
    ensures
        (a.factor() / b.factor()) * b.factor() == a.factor(),
        1 <= a.factor() / b.factor() <= 1_000_000_000_000_000,
        a.factor() / b.factor() <= MAX_RESCALE,
        a == b <==> a.factor() / b.factor() == 1,
        a == b <==> a.factor() == b.factor(),
{
    match b {
        Scale::Second => {
            assert(b.factor() == 1_000_000_000_000_000);
            match a {
                Scale::Second => {
                    assert(a.factor() == 1_000_000_000_000_000);
                    assert(1_000_000_000_000_000int / 1_000_000_000_000_000int == 1);
                    assert(a.factor() / b.factor() == 1);
                    assert(1 * b.factor() == a.factor());
                },
                Scale::Millisecond => {
                },
                Scale::Microsecond => {
                },
                Scale::Nanosecond => {
                },
                Scale::Picosecond => {
                },
                Scale::Femtosecond => {
                },
            }
        },
        Scale::Millisecond => {
            assert(b.factor() == 1_000_000_000_000);
            match a {
                Scale::Second => {
                    assert(a.factor() == 1_000_000_000_000_000);
                    assert(1_000_000_000_000_000int / 1_000_000_000_000int == 1000);
                    assert(a.factor() / b.factor() == 1000);
                    assert(1000 * b.factor() == a.factor());
                },
                Scale::Millisecond => {
                    assert(a.factor() == 1_000_000_000_000);
                    assert(1_000_000_000_000int / 1_000_000_000_000int == 1);
                    assert(a.factor() / b.factor() == 1);
                    assert(1 * b.factor() == a.factor());
                },
                Scale::Microsecond => {
                },
                Scale::Nanosecond => {
                },
                Scale::Picosecond => {
                },
                Scale::Femtosecond => {
                },
            }
        },
        Scale::Microsecond => {
            assert(b.factor() == 1_000_000_000);
            match a {
                Scale::Second => {
                    assert(a.factor() == 1_000_000_000_000_000);
                    assert(1_000_000_000_000_000int / 1_000_000_000int == 1000000);
                    assert(a.factor() / b.factor() == 1000000);
                    assert(1000000 * b.factor() == a.factor());
                },
                Scale::Millisecond => {
                    assert(a.factor() == 1_000_000_000_000);
                    assert(1_000_000_000_000int / 1_000_000_000int == 1000);
                    assert(a.factor() / b.factor() == 1000);
                    assert(1000 * b.factor() == a.factor());
                },
                Scale::Microsecond => {
                    assert(a.factor() == 1_000_000_000);
                    assert(1_000_000_000int / 1_000_000_000int == 1);
                    assert(a.factor() / b.factor() == 1);
                    assert(1 * b.factor() == a.factor());
                },
                Scale::Nanosecond => {
                },
                Scale::Picosecond => {
                },
                Scale::Femtosecond => {
                },
            }
        },
        Scale::Nanosecond => {
            assert(b.factor() == 1_000_000);
            match a {
                Scale::Second => {
                    assert(a.factor() == 1_000_000_000_000_000);
                    assert(1_000_000_000_000_000int / 1_000_000int == 1000000000);
                    assert(a.factor() / b.factor() == 1000000000);
                    assert(1000000000 * b.factor() == a.factor());
                },
                Scale::Millisecond => {
                    assert(a.factor() == 1_000_000_000_000);
                    assert(1_000_000_000_000int / 1_000_000int == 1000000);
                    assert(a.factor() / b.factor() == 1000000);
                    assert(1000000 * b.factor() == a.factor());
                },
                Scale::Microsecond => {
                    assert(a.factor() == 1_000_000_000);
                    assert(1_000_000_000int / 1_000_000int == 1000);
                    assert(a.factor() / b.factor() == 1000);
                    assert(1000 * b.factor() == a.factor());
                },
                Scale::Nanosecond => {
                    assert(a.factor() == 1_000_000);
                    assert(1_000_000int / 1_000_000int == 1);
                    assert(a.factor() / b.factor() == 1);
                    assert(1 * b.factor() == a.factor());
                },
                Scale::Picosecond => {
                },
                Scale::Femtosecond => {
                },
            }
        },
        Scale::Picosecond => {
            assert(b.factor() == 1_000);
            match a {
                Scale::Second => {
                    assert(a.factor() == 1_000_000_000_000_000);
                    assert(1_000_000_000_000_000int / 1_000int == 1000000000000);
                    assert(a.factor() / b.factor() == 1000000000000);
                    assert(1000000000000 * b.factor() == a.factor());
                },
                Scale::Millisecond => {
                    assert(a.factor() == 1_000_000_000_000);
                    assert(1_000_000_000_000int / 1_000int == 1000000000);
                    assert(a.factor() / b.factor() == 1000000000);
                    assert(1000000000 * b.factor() == a.factor());
                },
                Scale::Microsecond => {
                    assert(a.factor() == 1_000_000_000);
                    assert(1_000_000_000int / 1_000int == 1000000);
                    assert(a.factor() / b.factor() == 1000000);
                    assert(1000000 * b.factor() == a.factor());
                },
                Scale::Nanosecond => {
                    assert(a.factor() == 1_000_000);
                    assert(1_000_000int / 1_000int == 1000);
                    assert(a.factor() / b.factor() == 1000);
                    assert(1000 * b.factor() == a.factor());
                },
                Scale::Picosecond => {
                    assert(a.factor() == 1_000);
                    assert(1_000int / 1_000int == 1);
                    assert(a.factor() / b.factor() == 1);
                    assert(1 * b.factor() == a.factor());
                },
                Scale::Femtosecond => {
                },
            }
        },
        Scale::Femtosecond => {
            assert(b.factor() == 1);
            match a {
                Scale::Second => {
                    assert(a.factor() == 1_000_000_000_000_000);
                    assert(1_000_000_000_000_000int / 1int == 1000000000000000);
                    assert(a.factor() / b.factor() == 1000000000000000);
                    assert(1000000000000000 * b.factor() == a.factor());
                },
                Scale::Millisecond => {
                    assert(a.factor() == 1_000_000_000_000);
                    assert(1_000_000_000_000int / 1int == 1000000000000);
                    assert(a.factor() / b.factor() == 1000000000000);
                    assert(1000000000000 * b.factor() == a.factor());
                },
                Scale::Microsecond => {
                    assert(a.factor() == 1_000_000_000);
                    assert(1_000_000_000int / 1int == 1000000000);
                    assert(a.factor() / b.factor() == 1000000000);
                    assert(1000000000 * b.factor() == a.factor());
                },
                Scale::Nanosecond => {
                    assert(a.factor() == 1_000_000);
                    assert(1_000_000int / 1int == 1000000);
                    assert(a.factor() / b.factor() == 1000000);
                    assert(1000000 * b.factor() == a.factor());
                },
                Scale::Picosecond => {
                    assert(a.factor() == 1_000);
                    assert(1_000int / 1int == 1000);
                    assert(a.factor() / b.factor() == 1000);
                    assert(1000 * b.factor() == a.factor());
                },
                Scale::Femtosecond => {
                    assert(a.factor() == 1);
                    assert(1int / 1int == 1);
                    assert(a.factor() / b.factor() == 1);
                    assert(1 * b.factor() == a.factor());
                },
            }
        },
    }
}

/// The finer of two units.
pub open spec fn finer_scale(a: Scale, b: Scale) -> Scale {
    if a.factor() <= b.factor() {
        a
    } else {
        b
    }
}

impl Timestamp {
    /// The instant in femtoseconds: the model by which timestamps are
    /// compared and added.
    pub open spec fn femtos(self) -> int {
        self.value * self.scale.factor()
    }

    /// The value that this instant has in another unit: exact toward a
    /// finer unit, rounded toward zero toward a coarser one.
    pub open spec fn value_in(self, scale: Scale) -> int {
        if self.scale.factor() >= scale.factor() {
            self.value * (self.scale.factor() / scale.factor())
        } else {
            trunc_div(self.value as int, scale.factor() / self.scale.factor())
        }
    }

    /// The timestamp in another unit. A factor beyond `MAX_RESCALE` leaves
    /// the timestamp as it is.
    pub open spec fn rescaled(self, scale: Scale) -> Timestamp {
        if self.scale.factor() / scale.factor() > MAX_RESCALE {
            self
        } else {
            Timestamp { value: self.value_in(scale) as i64, scale }
        }
    }

    /// The timestamp in ever coarser units until its magnitude is at most
    /// `max_value`, and whether that was reached.
    pub open spec fn auto_rescaled(self, max_value: i64) -> (Timestamp, bool)
        decreases 5 - self.scale.rank(),
    {
        if -(max_value as int) <= self.value <= max_value {
            (self, true)
        } else {
            match self.scale.coarser() {
                Some(scale) => self.rescaled(scale).auto_rescaled(max_value),
                None => (self, false),
            }
        }
    }

    /// The quotient by an integer: the first non-zero quotient found in the
    /// given unit or a finer one, where `wide` is the dividend in `scale`;
    /// `self` where every quotient down to femtoseconds is zero.
    pub open spec fn quotient_from(self, wide: int, scale: Scale, rhs: int) -> Timestamp
        decreases scale.rank(),
    {
        let q = trunc_div(wide, rhs);
        if q != 0 {
            Timestamp { value: q as i64, scale }
        } else {
            match scale.finer() {
                Some(finer) => self.quotient_from(wide * 1000, finer, rhs),
                None => self,
            }
        }
    }

    /// Creates a timestamp of `value` units of `scale`.
    pub fn new(value: i64, scale: Scale) -> (r: Timestamp)
        ensures
            r == (Timestamp { value, scale }),
    {
        Timestamp { value, scale }
    }

    /// The origin of time: zero seconds.
    pub fn origin() -> (r: Timestamp)
        ensures
            r == (Timestamp { value: 0, scale: Scale::Second }),
            r.femtos() == 0,
    {
        Timestamp { value: 0, scale: Scale::Second }
    }

    /// A timestamp in the same unit with another value.
    pub fn derive(self, value: i64) -> (r: Timestamp)
        ensures
            r == (Timestamp { value, scale: self.scale }),
    {
        Timestamp { value, scale: self.scale }
    }

    /// The instant in femtoseconds.
    pub fn femtoseconds(self) -> (r: i128)
        ensures
            r == self.femtos(),
            -0x8000_0000_0000_0000 * 1_000_000_000_000_000 <= r <= 0x8000_0000_0000_0000
                * 1_000_000_000_000_000,
    {
        let f = self.scale.femtoseconds();
        assert(-0x8000_0000_0000_0000 * 1_000_000_000_000_000 <= self.value * f
            <= 0x8000_0000_0000_0000 * 1_000_000_000_000_000) by (nonlinear_arith)
            requires
                -0x8000_0000_0000_0000 <= self.value < 0x8000_0000_0000_0000,
                1 <= f <= 1_000_000_000_000_000,
        ;
        (self.value as i128) * (f as i128)
    }

    /// Whether the value of this instant in the given unit fits 64 bits.
    pub open spec fn fits(self, scale: Scale) -> bool {
        i64::MIN <= self.value_in(scale) <= i64::MAX
    }

    /// Expresses the timestamp in another unit.
    pub fn rescale(self, scale: Scale) -> (r: Timestamp)
        requires
            self.fits(scale),
        ensures
            r == self.rescaled(scale),
            scale.factor() <= self.scale.factor() ==> r.femtos() == self.femtos(),
    {
        proof {
            if self.scale.factor() >= scale.factor() {
                lemma_factor_ratio(self.scale, scale);
            } else {
                lemma_factor_ratio(scale, self.scale);
            }
        }
        if scale == self.scale {
            proof {
                let ratio = self.scale.factor() / scale.factor();
                assert(ratio == 1);
                assert(self.value * ratio == self.value) by (nonlinear_arith)
                    requires
                        ratio == 1,
                ;
            }
            return self;
        }
        let current_scale = self.scale.femtoseconds();
        let new_scale = scale.femtoseconds();
        if current_scale > new_scale {
            let rescale = current_scale / new_scale;
            if rescale > MAX_RESCALE {
                self
            } else {
                assert(self.value * rescale * new_scale == self.value * (rescale * new_scale))
                    by (nonlinear_arith);
                let wide = (self.value as i128) * (rescale as i128);
                Timestamp { value: wide as i64, scale }
            }
        } else {
            let q = wide_div(self.value as i128, (new_scale / current_scale) as i128);
            Timestamp { value: q as i64, scale }
        }
    }

    /// Scales the timestamp up while its magnitude exceeds `max_value`;
    /// returns whether the magnitude is now at most `max_value`.
    pub fn auto_rescale(&mut self, max_value: i64) -> (r: bool)
        ensures
            (*final(self), r) == old(self).auto_rescaled(max_value),
    {
        let mut current = *self;
        loop
            invariant
                current.auto_rescaled(max_value) == old(self).auto_rescaled(max_value),
            decreases 5 - current.scale.rank(),
        {
            let within = if max_value < 0 {
                false
            } else {
                -max_value <= current.value && current.value <= max_value
            };
            if within {
                *self = current;
                return true;
            }
            match current.scale.scale_up() {
                Some(scale) => {
                    current = current.rescale(scale);
                },
                None => {
                    *self = current;
                    return false;
                },
            }
        }
    }

    /// Brings two timestamps to the finer of their units.
    pub fn normalize(self, other: Timestamp) -> (r: (Timestamp, Timestamp))
        requires
            self.fits(finer_scale(self.scale, other.scale)),
            other.fits(finer_scale(self.scale, other.scale)),
        ensures
            r.0 == self.rescaled(finer_scale(self.scale, other.scale)),
            r.1 == other.rescaled(finer_scale(self.scale, other.scale)),
            r.0.scale == r.1.scale,
            r.0.femtos() == self.femtos(),
            r.1.femtos() == other.femtos(),
    {
        proof {
            lemma_factor_ratio(self.scale, self.scale);
            lemma_factor_ratio(other.scale, other.scale);
        }
        if self.scale.finer_than(other.scale) {
            (self, other.rescale(self.scale))
        } else if other.scale.finer_than(self.scale) {
            (self.rescale(other.scale), other)
        } else {
            (self, other)
        }
    }

    /// The timestamp in the next finer unit, if there is one.
    pub fn scale_down(self) -> (r: Option<Timestamp>)
        requires
            self.scale.finer() matches Some(scale) ==> self.fits(scale),
        ensures
            r == match self.scale.finer() {
                Some(scale) => Some(self.rescaled(scale)),
                None => None,
            },
    {
        match self.scale.scale_down() {
            Some(new_scale) => Some(self.rescale(new_scale)),
            None => None,
        }
    }

    /// The timestamp in the next coarser unit, if there is one.
    pub fn scale_up(self) -> (r: Option<Timestamp>)
        ensures
            r == match self.scale.coarser() {
                Some(scale) => Some(self.rescaled(scale)),
                None => None,
            },
    {
        match self.scale.scale_up() {
            Some(new_scale) => Some(self.rescale(new_scale)),
            None => None,
        }
    }

    /// Whether this instant is the same as the other.
    pub fn same_instant(&self, other: &Timestamp) -> (r: bool)
        ensures
            r == (self.femtos() == other.femtos()),
    {
        self.femtoseconds() == other.femtoseconds()
    }

    /// Whether this instant is earlier than the other.
    pub fn earlier_than(&self, other: &Timestamp) -> (r: bool)
        ensures
            r == (self.femtos() < other.femtos()),
    {
        self.femtoseconds() < other.femtoseconds()
    }

    /// Whether this instant is the other or earlier.
    pub fn not_after(&self, other: &Timestamp) -> (r: bool)
        ensures
            r == (self.femtos() <= other.femtos()),
    {
        self.femtoseconds() <= other.femtoseconds()
    }

    /// The notation of the timestamp: its value in decimal, then the
    /// unit's suffix.
    pub open spec fn notation(self) -> Seq<char> {
        decimal(self.value as int) + self.scale.suffix()
    }

    /// Appends the notation of the timestamp.
    pub fn write_to(&self, out: &mut Vec<char>)
        ensures
            final(out)@ == old(out)@ + self.notation(),
    {
        push_decimal(out, self.value);
        append_str(out, self.scale.as_str());
        assert(old(out)@ + decimal(self.value as int) + self.scale.suffix() == old(out)@ + (decimal(
            self.value as int,
        ) + self.scale.suffix()));
    }

    /// The notation of the timestamp, such as `42ns`.
    pub fn to_string(&self) -> (r: String)
        ensures
            r@ == self.notation(),
    {
        let mut out: Vec<char> = Vec::new();
        self.write_to(&mut out);
        string_of(&out)
    }
}

impl Timestamp {
    /// The value of the instant in a unit that is not coarser than its
    /// own, on wide integers.
    fn wide_value_in(self, scale: Scale) -> (r: i128)
        requires
            scale.factor() <= self.scale.factor(),
        ensures
            r == self.value_in(scale),
            r * scale.factor() == self.femtos(),
            -0x8000_0000_0000_0000 * 1_000_000_000_000_000 <= r <= 0x8000_0000_0000_0000
                * 1_000_000_000_000_000,
    {
        proof {
            lemma_factor_ratio(self.scale, scale);
        }
        let ratio = self.scale.femtoseconds() / scale.femtoseconds();
        assert(-0x8000_0000_0000_0000 * 1_000_000_000_000_000 <= self.value * ratio
            <= 0x8000_0000_0000_0000 * 1_000_000_000_000_000) by (nonlinear_arith)
            requires
                -0x8000_0000_0000_0000 <= self.value < 0x8000_0000_0000_0000,
                1 <= ratio <= 1_000_000_000_000_000,
        ;
        assert(self.value * ratio * scale.factor() == self.value * (ratio * scale.factor()))
            by (nonlinear_arith);
        (self.value as i128) * (ratio as i128)
    }

    /// The quotient of two instants, each taken in the finer of the two
    /// units, rounded toward zero.
    pub open spec fn ratio(self, other: Timestamp) -> int {
        let scale = finer_scale(self.scale, other.scale);
        trunc_div(self.value_in(scale), other.value_in(scale))
    }

    /// The product with an integer.
    pub open spec fn product(self, rhs: i64) -> Timestamp {
        Timestamp { value: (self.value * rhs) as i64, scale: self.scale }
    }

    /// The quotient by an integer: in the timestamp's own unit where that
    /// is not zero, else in the first finer unit where it is not zero, else
    /// the timestamp itself.
    pub open spec fn quotient(self, rhs: i64) -> Timestamp {
        self.quotient_from(self.value as int, self.scale, rhs as int)
    }
}

/// The sum and the difference are exact: they denote the sum and the
/// difference of the two instants.
pub proof fn lemma_sum_difference_exact(a: Timestamp, b: Timestamp)
    ensures
        a.value_in(finer_scale(a.scale, b.scale)) * finer_scale(a.scale, b.scale).factor()
            == a.femtos(),
        b.value_in(finer_scale(a.scale, b.scale)) * finer_scale(a.scale, b.scale).factor()
            == b.femtos(),
{
    let scale = finer_scale(a.scale, b.scale);
    lemma_factor_ratio(a.scale, scale);
    lemma_factor_ratio(b.scale, scale);
    let ra = a.scale.factor() / scale.factor();
    let rb = b.scale.factor() / scale.factor();
    assert(a.value * ra * scale.factor() == a.value * (ra * scale.factor())) by (nonlinear_arith);
    assert(b.value * rb * scale.factor() == b.value * (rb * scale.factor())) by (nonlinear_arith);
}

impl PartialEqSpecImpl for Timestamp {
    open spec fn obeys_eq_spec() -> bool {
        true
    }

    open spec fn eq_spec(&self, other: &Timestamp) -> bool {
        self.femtos() == other.femtos()
    }
}

impl PartialEq for Timestamp {
    /// Two timestamps are equal when they denote the same instant, in
    /// whatever units.
    fn eq(&self, other: &Timestamp) -> (r: bool) {
        self.same_instant(other)
    }
}

impl Eq for Timestamp {

}

impl PartialOrdSpecImpl for Timestamp {
    open spec fn obeys_partial_cmp_spec() -> bool {
        true
    }

    open spec fn partial_cmp_spec(&self, other: &Timestamp) -> Option<Ordering> {
        if self.femtos() < other.femtos() {
            Some(Ordering::Less)
        } else if self.femtos() == other.femtos() {
            Some(Ordering::Equal)
        } else {
            Some(Ordering::Greater)
        }
    }
}

impl PartialOrd for Timestamp {
    /// Timestamps are ordered by the instant that they denote.
    fn partial_cmp(&self, other: &Timestamp) -> (r: Option<Ordering>) {
        if self.earlier_than(other) {
            Some(Ordering::Less)
        } else if self.same_instant(other) {
            Some(Ordering::Equal)
        } else {
            Some(Ordering::Greater)
        }
    }
}

impl AddSpecImpl for Timestamp {
    open spec fn obeys_add_spec() -> bool {
        true
    }

    open spec fn add_req(self, rhs: Timestamp) -> bool {
        let scale = finer_scale(self.scale, rhs.scale);
        i64::MIN <= self.value_in(scale) + rhs.value_in(scale) <= i64::MAX
    }

    open spec fn add_spec(self, rhs: Timestamp) -> Timestamp {
        let scale = finer_scale(self.scale, rhs.scale);
        Timestamp { value: (self.value_in(scale) + rhs.value_in(scale)) as i64, scale }
    }
}

impl Add for Timestamp {
    type Output = Timestamp;

    /// The sum of two timestamps, in the finer of their units.
    fn add(self, rhs: Timestamp) -> (r: Timestamp) {
        let scale = if self.scale.finer_than(rhs.scale) {
            self.scale
        } else {
            rhs.scale
        };
        let a = self.wide_value_in(scale);
        let b = rhs.wide_value_in(scale);
        Timestamp { value: (a + b) as i64, scale }
    }
}

impl SubSpecImpl for Timestamp {
    open spec fn obeys_sub_spec() -> bool {
        true
    }

    open spec fn sub_req(self, rhs: Timestamp) -> bool {
        let scale = finer_scale(self.scale, rhs.scale);
        i64::MIN <= self.value_in(scale) - rhs.value_in(scale) <= i64::MAX
    }

    open spec fn sub_spec(self, rhs: Timestamp) -> Timestamp {
        let scale = finer_scale(self.scale, rhs.scale);
        Timestamp { value: (self.value_in(scale) - rhs.value_in(scale)) as i64, scale }
    }
}

impl Sub for Timestamp {
    type Output = Timestamp;

    /// The difference of two timestamps, in the finer of their units.
    fn sub(self, rhs: Timestamp) -> (r: Timestamp) {
        let scale = if self.scale.finer_than(rhs.scale) {
            self.scale
        } else {
            rhs.scale
        };
        let a = self.wide_value_in(scale);
        let b = rhs.wide_value_in(scale);
        Timestamp { value: (a - b) as i64, scale }
    }
}

impl MulSpecImpl<i64> for Timestamp {
    open spec fn obeys_mul_spec() -> bool {
        true
    }

    open spec fn mul_req(self, rhs: i64) -> bool {
        i64::MIN <= self.value * rhs <= i64::MAX
    }

    open spec fn mul_spec(self, rhs: i64) -> Timestamp {
        self.product(rhs)
    }
}

impl Mul<i64> for Timestamp {
    type Output = Timestamp;

    /// The timestamp taken `rhs` times, in the same unit.
    fn mul(self, rhs: i64) -> (r: Timestamp) {
        Timestamp { value: self.value * rhs, scale: self.scale }
    }
}

impl DivSpecImpl<Timestamp> for Timestamp {
    open spec fn obeys_div_spec() -> bool {
        true
    }

    open spec fn div_req(self, rhs: Timestamp) -> bool {
        &&& rhs.value != 0
        &&& 0 <= self.ratio(rhs) <= usize::MAX
    }

    open spec fn div_spec(self, rhs: Timestamp) -> usize {
        self.ratio(rhs) as usize
    }
}

impl Div<Timestamp> for Timestamp {
    type Output = usize;

    /// How many times the other timestamp goes into this one.
    fn div(self, rhs: Timestamp) -> (r: usize) {
        let scale = if self.scale.finer_than(rhs.scale) {
            self.scale
        } else {
            rhs.scale
        };
        let a = self.wide_value_in(scale);
        let b = rhs.wide_value_in(scale);
        proof {
            lemma_factor_ratio(rhs.scale, scale);
            let ratio = rhs.scale.factor() / scale.factor();
            assert(rhs.value * ratio != 0) by (nonlinear_arith)
                requires
                    rhs.value != 0,
                    ratio >= 1,
            ;
        }
        wide_div(a, b) as usize
    }
}

impl DivSpecImpl<i64> for Timestamp {
    open spec fn obeys_div_spec() -> bool {
        true
    }

    open spec fn div_req(self, rhs: i64) -> bool {
        &&& rhs != 0
        &&& !(self.value == i64::MIN && rhs == -1)
    }

    open spec fn div_spec(self, rhs: i64) -> Timestamp {
        self.quotient(rhs)
    }
}

impl Div<i64> for Timestamp {
    type Output = Timestamp;

    /// The timestamp divided by an integer. Where the quotient would be
    /// zero the division is made in the next finer unit, down to
    /// femtoseconds; where it is zero even there, the timestamp is returned
    /// as it is.
    fn div(self, rhs: i64) -> (r: Timestamp) {
        let mut wide: i128 = self.value as i128;
        let mut scale = self.scale;
        let divisor: i128 = rhs as i128;
        loop
            invariant
                divisor == rhs,
                rhs != 0,
                self.quotient_from(wide as int, scale, rhs as int) == self.quotient(rhs),
                scale.rank() <= self.scale.rank(),
                scale.rank() == self.scale.rank() ==> wide == self.value,
                scale.rank() < self.scale.rank() ==> -1000 < trunc_div(wide as int, rhs as int)
                    < 1000,
                !(self.value == i64::MIN && rhs == -1),
                -1000 * 0x8000_0000_0000_0000 <= wide <= 1000 * 0x8000_0000_0000_0000,
            decreases scale.rank(),
        {
            let q = wide_div(wide, divisor);
            if q != 0 {
                proof {
                    if scale.rank() == self.scale.rank() {
                        lemma_quotient_fits(wide as int, rhs as int);
                    }
                }
                return Timestamp { value: q as i64, scale };
            }
            match scale.scale_down() {
                Some(finer) => {
                    proof {
                        lemma_small_quotient(wide as int, rhs as int);
                    }
                    wide = wide * 1000;
                    scale = finer;
                },
                None => {
                    return self;
                },
            }
        }
    }
}

/// A quotient of 64-bit integers fits 64 bits, but for the least of them
/// divided by minus one.
proof fn lemma_quotient_fits(a: int, b: int)
    requires
        b != 0,
        i64::MIN <= a <= i64::MAX,
        i64::MIN <= b <= i64::MAX,
        !(a == i64::MIN && b == -1),
    ensures
        i64::MIN <= trunc_div(a, b) <= i64::MAX,
{
    let x = if a < 0 {
        -a
    } else {
        a
    };
    let y = if b < 0 {
        -b
    } else {
        b
    };
    assert(0 <= x / y <= x) by (nonlinear_arith)
        requires
            x >= 0,
            y > 0,
    ;
    if y >= 2 {
        assert(x / y <= x / 2) by (nonlinear_arith)
            requires
                x >= 0,
                y >= 2,
        ;
    }
}

/// Where a quotient is zero, the quotient of a thousand times the dividend
/// has fewer than four digits.
proof fn lemma_small_quotient(a: int, b: int)
    requires
        b != 0,
        trunc_div(a, b) == 0,
    ensures
        -1000 < trunc_div(a * 1000, b) < 1000,
        (if a < 0 {
            -a
        } else {
            a
        }) < (if b < 0 {
            -b
        } else {
            b
        }),
{
    let x = if a < 0 {
        -a
    } else {
        a
    };
    let y = if b < 0 {
        -b
    } else {
        b
    };
    assert(x < y) by (nonlinear_arith)
        requires
            x / y == 0,
            x >= 0,
            y > 0,
    ;
    assert((x * 1000) / y < 1000) by (nonlinear_arith)
        requires
            x < y,
            x >= 0,
            y > 0,
    ;
    assert((x * 1000) / y >= 0) by (nonlinear_arith)
        requires
            x >= 0,
            y > 0,
    ;
    assert(a * 1000 < 0 <==> a < 0);
    if a < 0 {
        assert(-(a * 1000) == x * 1000);
    } else {
        assert(a * 1000 == x * 1000);
    }
}

impl TimeDescr {
    /// The instant at which the finding begins.
    pub open spec fn start(self) -> Timestamp {
        match self {
            TimeDescr::Point(t) => t,
            TimeDescr::Period(begin, _) => begin,
        }
    }

    /// The instant of a point, or the instant at which a period ends.
    pub open spec fn finish(self) -> Timestamp {
        match self {
            TimeDescr::Point(t) => t,
            TimeDescr::Period(_, end) => end,
        }
    }

    /// The notation of the finding: the count of time of a point, or the
    /// counts of the beginning and the end of a period with a hyphen
    /// between them; the counts are written in decimal without their unit.
    pub open spec fn notation(self) -> Seq<char> {
        match self {
            TimeDescr::Point(t) => decimal(t.value as int),
            TimeDescr::Period(begin, end) => decimal(begin.value as int) + seq!['-'] + decimal(
                end.value as int,
            ),
        }
    }

    /// The instant at which the finding begins.
    pub fn begin(&self) -> (r: Timestamp)
        ensures
            r == self.start(),
    {
        match self {
            TimeDescr::Point(t) => *t,
            TimeDescr::Period(begin, _) => *begin,
        }
    }

    /// The instant of a point, or the instant at which a period ends.
    pub fn end(&self) -> (r: Timestamp)
        ensures
            r == self.finish(),
    {
        match self {
            TimeDescr::Point(t) => *t,
            TimeDescr::Period(_, end) => *end,
        }
    }

    /// Appends the notation of the finding.
    pub fn write_to(&self, out: &mut Vec<char>)
        ensures
            final(out)@ == old(out)@ + self.notation(),
    {
        match self {
            TimeDescr::Point(t) => {
                push_decimal(out, t.value);
            },
            TimeDescr::Period(begin, end) => {
                push_decimal(out, begin.value);
                out.push('-');
                push_decimal(out, end.value);
                assert(out@ == old(out)@ + (decimal(begin.value as int) + seq!['-'] + decimal(
                    end.value as int,
                )));
            },
        }
    }

    /// The notation of the finding, such as `1337-1338`.
    pub fn to_string(&self) -> (r: String)
        ensures
            r@ == self.notation(),
    {
        let mut out: Vec<char> = Vec::new();
        self.write_to(&mut out);
        string_of(&out)
    }
}

} // verus!
