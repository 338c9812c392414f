//! Values of signals: vectors of four-state bits, or symbols.
use crate::text::{append_chars, chars_of, string_of};
use std::collections::VecDeque;
use vstd::prelude::*;
use vstd::std_specs::cmp::PartialEqSpecImpl;

verus! {

/// Value of a single bit.
#[derive(Debug, Copy, Clone, PartialEq, Eq, Structural)]
pub enum BitValue {
    Low,
    High,
    HighZ,
    Invalid,
    Overflow,
    Undefined,
    Filtered,
}

/// Four bits, the least significant first.
#[derive(Debug, Copy, Clone)]
pub struct NibbleValue(pub [BitValue; 4]);

/// Radix in which a literal is written out.
#[derive(Debug, Copy, Clone, PartialEq, Eq, Structural)]
pub enum ValueFormat {
    Hex,
    Bin,
}

/// Value of a signal.
#[derive(Debug)]
pub enum SignalValue {
    /// Bits of the signal, the least significant first, and the radix in
    /// which they are written out.
    Literal(Vec<BitValue>, ValueFormat),
    /// Symbolic value of the signal.
    Symbol(String),
}

impl BitValue {
    /// The bit that a character denotes; any character without a meaning
    /// of its own denotes an invalid bit.
    pub open spec fn of_char(c: char) -> BitValue {
        if c == '0' {
            BitValue::Low
        } else if c == '1' {
            BitValue::High
        } else if c == 'z' {
            BitValue::HighZ
        } else if c == 'u' {
            BitValue::Undefined
        } else if c == '-' {
            BitValue::Overflow
        } else if c == 'w' {
            BitValue::Filtered
        } else {
            BitValue::Invalid
        }
    }

    /// The character that stands for the bit.
    pub open spec fn as_char(self) -> char {
        match self {
            BitValue::Low => '0',
            BitValue::High => '1',
            BitValue::HighZ => 'z',
            BitValue::Undefined => 'u',
            BitValue::Overflow => '-',
            BitValue::Filtered => 'w',
            BitValue::Invalid => 'x',
        }
    }

    /// Whether the bit is a plain zero or one.
    pub open spec fn is_binary(self) -> bool {
        self == BitValue::Low || self == BitValue::High
    }

    /// Creates a `BitValue` from a `char`.
    pub fn from_char(c: char) -> (r: BitValue)
        ensures
            r == BitValue::of_char(c),
    {
        if c == '0' {
            BitValue::Low
        } else if c == '1' {
            BitValue::High
        } else if c == 'z' {
            BitValue::HighZ
        } else if c == 'u' {
            BitValue::Undefined
        } else if c == '-' {
            BitValue::Overflow
        } else if c == 'w' {
            BitValue::Filtered
        } else {
            BitValue::Invalid
        }
    }

    /// Returns the `char` representation of a `BitValue`.
    pub fn to_char(self) -> (r: char)
        ensures
            r == self.as_char(),
    {
        match self {
            BitValue::Low => '0',
            BitValue::High => '1',
            BitValue::HighZ => 'z',
            BitValue::Undefined => 'u',
            BitValue::Overflow => '-',
            BitValue::Filtered => 'w',
            BitValue::Invalid => 'x',
        }
    }
}

/// The bit at a position of a literal: past its end every bit is low.
pub open spec fn bit_at(bits: Seq<BitValue>, i: int) -> BitValue {
    if 0 <= i < bits.len() {
        bits[i]
    } else {
        BitValue::Low
    }
}

/// Two literals denote the same value: they agree bit by bit, missing
/// high bits counting as low.
#[verifier::opaque]
pub open spec fn same_bits(a: Seq<BitValue>, b: Seq<BitValue>) -> bool {
    forall|i: int| 0 <= i ==> bit_at(a, i) == bit_at(b, i)
}

/// The upper-case hexadecimal digit of a number below sixteen.
pub open spec fn hex_digit(n: int) -> char {
    if n == 0 {
        '0'
    } else if n == 1 {
        '1'
    } else if n == 2 {
        '2'
    } else if n == 3 {
        '3'
    } else if n == 4 {
        '4'
    } else if n == 5 {
        '5'
    } else if n == 6 {
        '6'
    } else if n == 7 {
        '7'
    } else if n == 8 {
        '8'
    } else if n == 9 {
        '9'
    } else if n == 10 {
        'A'
    } else if n == 11 {
        'B'
    } else if n == 12 {
        'C'
    } else if n == 13 {
        'D'
    } else if n == 14 {
        'E'
    } else {
        'F'
    }
}

/// One for a high bit, zero for any other.
pub open spec fn bit_weight(b: BitValue) -> int {
    if b == BitValue::High {
        1
    } else {
        0
    }
}

/// The character of four bits, `b0` the least significant: the character
/// of the most significant bit that is not binary if there is one, else
/// the hexadecimal digit of the number.
pub open spec fn nibble_char(b0: BitValue, b1: BitValue, b2: BitValue, b3: BitValue) -> char {
    if !b3.is_binary() {
        b3.as_char()
    } else if !b2.is_binary() {
        b2.as_char()
    } else if !b1.is_binary() {
        b1.as_char()
    } else if !b0.is_binary() {
        b0.as_char()
    } else {
        hex_digit(bit_weight(b0) + 2 * bit_weight(b1) + 4 * bit_weight(b2) + 8 * bit_weight(b3))
    }
}

/// The number of nibbles that hold the bits of a literal.
pub open spec fn nibble_count(bits: Seq<BitValue>) -> int {
    (bits.len() as int + 3) / 4
}

/// The character of the `k`-th nibble of a literal, counted from the
/// least significant.
pub open spec fn nibble_char_at(bits: Seq<BitValue>, k: int) -> char {
    nibble_char(
        bit_at(bits, 4 * k),
        bit_at(bits, 4 * k + 1),
        bit_at(bits, 4 * k + 2),
        bit_at(bits, 4 * k + 3),
    )
}

/// The bits of a literal in binary, the most significant first.
pub open spec fn binary_digits(bits: Seq<BitValue>) -> Seq<char> {
    Seq::new(bits.len(), |j: int| bits[bits.len() - 1 - j].as_char())
}

/// The nibbles of a literal in hexadecimal, the most significant first.
pub open spec fn hex_digits(bits: Seq<BitValue>) -> Seq<char> {
    Seq::new(
        nibble_count(bits) as nat,
        |j: int| nibble_char_at(bits, nibble_count(bits) - 1 - j),
    )
}

/// The bits that a string of bit characters denotes: the last character
/// is the least significant bit.
pub open spec fn bits_of_chars(s: Seq<char>) -> Seq<BitValue> {
    Seq::new(s.len(), |i: int| BitValue::of_char(s[s.len() - 1 - i]))
}

/// The bits of a number, the least significant first and the last one
/// high; none for zero.
pub open spec fn bits_of_number(n: nat) -> Seq<BitValue>
    decreases n,
{
    if n == 0 {
        Seq::empty()
    } else {
        seq![if n % 2 == 1 {
            BitValue::High
        } else {
            BitValue::Low
        }] + bits_of_number(n / 2)
    }
}

/// The value of a hexadecimal digit in either case.
pub open spec fn hex_value_of(c: char) -> Option<int> {
    if '0' <= c && c <= '9' {
        Some((c as u32) as int - 48)
    } else if 'a' <= c && c <= 'f' {
        Some((c as u32) as int - 87)
    } else if 'A' <= c && c <= 'F' {
        Some((c as u32) as int - 55)
    } else {
        None
    }
}

/// The number that a string of hexadecimal digits denotes; a character
/// that is no digit counts as zero in its place.
pub open spec fn hex_number(s: Seq<char>) -> nat
    decreases s.len(),
{
    if s.len() == 0 {
        0
    } else {
        (hex_number(s.drop_last()) * 16 + match hex_value_of(s.last()) {
            Some(d) => d,
            None => 0,
        }) as nat
    }
}

/// The bit with which a literal is extended: low after a high or missing
/// most significant bit, else the most significant bit again.
pub open spec fn padding_bit(bits: Seq<BitValue>) -> BitValue {
    if bits.len() == 0 || bits.last() == BitValue::High {
        BitValue::Low
    } else {
        bits.last()
    }
}

/// A literal extended to a width by its padding bit; unchanged where it
/// is wide enough.
pub open spec fn expanded_bits(bits: Seq<BitValue>, width: nat) -> Seq<BitValue> {
    if bits.len() >= width {
        bits
    } else {
        bits + Seq::new((width - bits.len()) as nat, |i: int| padding_bit(bits))
    }
}

impl NibbleValue {
    /// The character of the nibble.
    pub open spec fn as_char(self) -> char {
        nibble_char(self.0@[0], self.0@[1], self.0@[2], self.0@[3])
    }

    /// Cuts a literal into nibbles, the least significant first; the last
    /// one is filled up with low bits.
    pub fn from_vec(v: &Vec<BitValue>) -> (r: Vec<NibbleValue>)
        ensures
            r.len() == nibble_count(v@),
            forall|k: int|
                0 <= k < r.len() ==> (#[trigger] r[k]).as_char() == nibble_char_at(v@, k),
    {
        let mut nibbles: Vec<NibbleValue> = Vec::new();
        let mut queue: VecDeque<BitValue> = VecDeque::new();
        let mut i: usize = 0;
        while i < v.len()
            invariant
                i <= v.len(),
                queue@ == v@.take(i as int),
            decreases v.len() - i,
        {
            queue.push_back(v[i]);
            i += 1;
            assert(queue@ =~= v@.take(i as int));
        }
        assert(v@.take(v.len() as int) == v@);
        assert(v@.skip(0) == v@);
        while queue.len() > 0
            invariant
                queue@.len() <= v.len(),
                queue@ == v@.skip(v.len() - queue@.len()),
                queue@.len() > 0 ==> 4 * nibbles.len() == v.len() - queue@.len(),
                queue@.len() == 0 ==> nibbles.len() == nibble_count(v@),
                forall|j: int|
                    0 <= j < nibbles.len() ==> (#[trigger] nibbles[j]).as_char() == nibble_char_at(
                        v@,
                        j,
                    ),
            decreases queue@.len(),
        {
            let ghost k = nibbles.len() as int;
            let ghost before = queue@;
            let nibble = NibbleValue::pop_from(&mut queue);
            proof {
                assert forall|j: int| 0 <= j < 4 implies bit_at(before, j) == bit_at(
                    v@,
                    4 * k + j,
                ) by {
                    if j < before.len() {
                        assert(before[j] == v@[4 * k + j]);
                    }
                }
                assert(nibble.as_char() == nibble_char_at(v@, k));
                if before.len() >= 4 {
                    assert(queue@ =~= v@.skip(v.len() - (before.len() - 4)));
                } else {
                    assert(queue@ =~= v@.skip(v.len() as int));
                }
            }
            nibbles.push(nibble);
        }
        nibbles
    }

    /// Takes the next four bits out of a queue, the least significant
    /// first, and fills up with low bits where the queue runs out.
    pub fn pop_from(q: &mut VecDeque<BitValue>) -> (r: NibbleValue)
        ensures
            forall|k: int| 0 <= k < 4 ==> r.0@[k] == bit_at(old(q)@, k),
            final(q)@ == old(q)@.skip(
                if old(q)@.len() < 4 {
                    old(q)@.len() as int
                } else {
                    4
                },
            ),
    {
        let b0 = match q.pop_front() {
            Some(b) => b,
            None => BitValue::Low,
        };
        let b1 = match q.pop_front() {
            Some(b) => b,
            None => BitValue::Low,
        };
        let b2 = match q.pop_front() {
            Some(b) => b,
            None => BitValue::Low,
        };
        let b3 = match q.pop_front() {
            Some(b) => b,
            None => BitValue::Low,
        };
        assert(q@ =~= old(q)@.skip(
            if old(q)@.len() < 4 {
                old(q)@.len() as int
            } else {
                4
            },
        ));
        NibbleValue([b0, b1, b2, b3])
    }

    /// The character of the nibble: that of its most significant bit that
    /// is not binary, else its hexadecimal digit.
    pub fn to_char(&self) -> (r: char)
        ensures
            r == self.as_char(),
    {
        let mut acc: u8 = 0;
        let mut i: usize = 4;
        while i > 0
            invariant
                i <= 4,
                forall|j: int| i <= j < 4 ==> (#[trigger] self.0@[j]).is_binary(),
                i == 4 ==> acc == 0,
                i == 3 ==> acc == bit_weight(self.0@[3]),
                i == 2 ==> acc == bit_weight(self.0@[2]) + 2 * bit_weight(self.0@[3]),
                i == 1 ==> acc == bit_weight(self.0@[1]) + 2 * bit_weight(self.0@[2]) + 4
                    * bit_weight(self.0@[3]),
                i == 0 ==> acc == bit_weight(self.0@[0]) + 2 * bit_weight(self.0@[1]) + 4
                    * bit_weight(self.0@[2]) + 8 * bit_weight(self.0@[3]),
            decreases i,
        {
            i -= 1;
            let b = self.0[i];
            match b {
                BitValue::Low => {
                    acc = acc * 2;
                },
                BitValue::High => {
                    acc = acc * 2 + 1;
                },
                other => {
                    return other.to_char();
                },
            }
        }
        hex_digit_char(acc)
    }
}

/// The upper-case hexadecimal digit of a number below sixteen.
fn hex_digit_char(n: u8) -> (c: char)
    requires
        n < 16,
    ensures
        c == hex_digit(n as int),
{
    if n == 0 {
        '0'
    } else if n == 1 {
        '1'
    } else if n == 2 {
        '2'
    } else if n == 3 {
        '3'
    } else if n == 4 {
        '4'
    } else if n == 5 {
        '5'
    } else if n == 6 {
        '6'
    } else if n == 7 {
        '7'
    } else if n == 8 {
        '8'
    } else if n == 9 {
        '9'
    } else if n == 10 {
        'A'
    } else if n == 11 {
        'B'
    } else if n == 12 {
        'C'
    } else if n == 13 {
        'D'
    } else if n == 14 {
        'E'
    } else {
        'F'
    }
}

/// The value of a hexadecimal digit in either case.
fn hex_value(c: char) -> (r: Option<u64>)
    ensures
        r matches Some(d) ==> hex_value_of(c) == Some(d as int) && d < 16,
        r is None ==> hex_value_of(c) is None,
{
    if '0' <= c && c <= '9' {
        Some((c as u32 - 48) as u64)
    } else if 'a' <= c && c <= 'f' {
        Some((c as u32 - 87) as u64)
    } else if 'A' <= c && c <= 'F' {
        Some((c as u32 - 55) as u64)
    } else {
        None
    }
}

/// Sixteen to the power of `n`.
pub open spec fn pow16(n: nat) -> nat
    decreases n,
{
    if n == 0 {
        1
    } else {
        16 * pow16((n - 1) as nat)
    }
}

proof fn lemma_pow16_bound(n: nat)
    requires
        n <= 16,
    ensures
        pow16(n) <= 0x1_0000_0000_0000_0000,
        n < 16 ==> 16 * pow16(n) <= 0x1_0000_0000_0000_0000,
    decreases 16 - n,
{
    if n < 16 {
        lemma_pow16_bound(n + 1);
        assert(pow16(n + 1) == 16 * pow16(n));
    } else {
        reveal_with_fuel(pow16, 17);
        assert(pow16(16) == 0x1_0000_0000_0000_0000);
    }
}

/// The mathematical value of a `SignalValue`.
pub enum ValueView {
    Literal(Seq<BitValue>, ValueFormat),
    Symbol(Seq<char>),
}

impl ValueView {
    /// Equality of signal values: literals are equal when their bits are,
    /// missing high bits counting as low and the radix aside; symbols when
    /// they are the same text; a literal never equals a symbol.
    pub open spec fn same(self, other: ValueView) -> bool {
        match (self, other) {
            (ValueView::Literal(a, _), ValueView::Literal(b, _)) => same_bits(a, b),
            (ValueView::Symbol(a), ValueView::Symbol(b)) => a == b,
            _ => false,
        }
    }

    /// The notation of the value: `b` and the bits, `h` and the nibbles,
    /// or the bare symbol.
    pub open spec fn notation(self) -> Seq<char> {
        match self {
            ValueView::Literal(bits, ValueFormat::Bin) => seq!['b'] + binary_digits(bits),
            ValueView::Literal(bits, ValueFormat::Hex) => seq!['h'] + hex_digits(bits),
            ValueView::Symbol(s) => s,
        }
    }

    /// The value in binary without a prefix; a symbol as it is.
    pub open spec fn binary_notation(self) -> Seq<char> {
        match self {
            ValueView::Literal(bits, _) => binary_digits(bits),
            ValueView::Symbol(s) => s,
        }
    }

    /// The value extended to a width; a symbol has no width to extend.
    pub open spec fn expanded(self, width: nat) -> ValueView {
        match self {
            ValueView::Literal(bits, format) => ValueView::Literal(
                expanded_bits(bits, width),
                format,
            ),
            ValueView::Symbol(s) => ValueView::Symbol(s),
        }
    }

    /// Whether any bit is neither low nor high.
    pub open spec fn invalid(self) -> bool {
        match self {
            ValueView::Literal(bits, _) => exists|i: int|
                0 <= i < bits.len() && !(#[trigger] bits[i]).is_binary(),
            ValueView::Symbol(_) => false,
        }
    }

    /// The literal zero.
    pub open spec fn zero() -> ValueView {
        ValueView::Literal(Seq::empty(), ValueFormat::Hex)
    }
}

impl View for SignalValue {
    type V = ValueView;

    open spec fn view(&self) -> ValueView {
        match self {
            SignalValue::Literal(bits, format) => ValueView::Literal(bits@, *format),
            SignalValue::Symbol(s) => ValueView::Symbol(s@),
        }
    }
}

impl Clone for SignalValue {
    fn clone(&self) -> (r: SignalValue)
        ensures
            r@ == self@,
    {
        match self {
            SignalValue::Literal(bits, format) => {
                let copy = bits.clone();
                assert(copy@ =~= bits@);
                SignalValue::Literal(copy, *format)
            },
            SignalValue::Symbol(s) => SignalValue::Symbol(s.clone()),
        }
    }
}

impl PartialEqSpecImpl for SignalValue {
    open spec fn obeys_eq_spec() -> bool {
        true
    }

    open spec fn eq_spec(&self, other: &SignalValue) -> bool {
        self@.same(other@)
    }
}

impl PartialEq for SignalValue {
    /// Literals are compared bit by bit, missing high bits counting as
    /// low; symbols by their text.
    fn eq(&self, other: &SignalValue) -> (r: bool) {
        self.same_as(other)
    }
}

impl Eq for SignalValue {

}

impl SignalValue {
    /// Creates a new `SignalValue` from an integer: its bits up to the
    /// most significant one.
    pub fn new(value: u64) -> (r: SignalValue)
        ensures
            r@ == ValueView::Literal(bits_of_number(value as nat), ValueFormat::Hex),
    {
        let mut v: Vec<BitValue> = Vec::new();
        let mut rest: u64 = value;
        while rest != 0
            invariant
                bits_of_number(value as nat) == v@ + bits_of_number(rest as nat),
            decreases rest,
        {
            let bit = if rest % 2 == 0 {
                BitValue::Low
            } else {
                BitValue::High
            };
            proof {
                assert(bits_of_number(rest as nat) == seq![bit] + bits_of_number((rest / 2) as nat));
                assert(v@.push(bit) + bits_of_number((rest / 2) as nat) == v@ + (seq![bit]
                    + bits_of_number((rest / 2) as nat)));
            }
            v.push(bit);
            rest = rest / 2;
        }
        assert(v@ + Seq::<BitValue>::empty() == v@);
        SignalValue::Literal(v, ValueFormat::Hex)
    }

    /// Creates a new `SignalValue` with the same `BitValue` for every bit.
    pub fn new_default(width: usize, value: BitValue) -> (r: SignalValue)
        ensures
            r@ == ValueView::Literal(Seq::new(width as nat, |i: int| value), ValueFormat::Hex),
    {
        let mut v: Vec<BitValue> = Vec::new();
        let mut i: usize = 0;
        while i < width
            invariant
                i <= width,
                v@ == Seq::new(i as nat, |j: int| value),
            decreases width - i,
        {
            v.push(value);
            i += 1;
            assert(v@ =~= Seq::new(i as nat, |j: int| value));
        }
        SignalValue::Literal(v, ValueFormat::Hex)
    }

    /// Creates a `SignalValue` from a symbol.
    pub fn from_symbol_str(s: &str) -> (r: SignalValue)
        ensures
            r@ == ValueView::Symbol(s@),
    {
        let chars = chars_of(s);
        SignalValue::Symbol(string_of(&chars))
    }

    /// Creates a `SignalValue` from the characters of its bits, the most
    /// significant first. The value is written out in binary again.
    pub fn from_bit_chars(chars: &Vec<char>, from: usize, to: usize) -> (r: SignalValue)
        requires
            from <= to <= chars.len(),
        ensures
            r@ == ValueView::Literal(
                bits_of_chars(chars@.subrange(from as int, to as int)),
                ValueFormat::Bin,
            ),
    {
        let ghost s = chars@.subrange(from as int, to as int);
        let mut v: Vec<BitValue> = Vec::new();
        let mut i: usize = to;
        while i > from
            invariant
                from <= i <= to <= chars.len(),
                s == chars@.subrange(from as int, to as int),
                v.len() == to - i,
                forall|j: int| 0 <= j < v.len() ==> v@[j] == BitValue::of_char(s[s.len() - 1 - j]),
            decreases i,
        {
            i -= 1;
            v.push(BitValue::from_char(chars[i]));
        }
        assert(v@ =~= bits_of_chars(s));
        SignalValue::Literal(v, ValueFormat::Bin)
    }

    /// Creates a `SignalValue` from a string of bit characters (`0`, `1`,
    /// `z`, `u`, `w`, `-`; any other gives an invalid bit), the most
    /// significant first.
    pub fn from_binary_string(s: &str) -> (r: SignalValue)
        ensures
            r@ == ValueView::Literal(bits_of_chars(s@), ValueFormat::Bin),
    {
        let chars = chars_of(s);
        assert(chars@.subrange(0, chars@.len() as int) == chars@);
        SignalValue::from_bit_chars(&chars, 0, chars.len())
    }

    /// Reads a `SignalValue` from a string of bit characters; never fails.
    pub fn from_str(s: &str) -> (r: Result<SignalValue, ()>)
        ensures
            r matches Ok(v) && v@ == ValueView::Literal(bits_of_chars(s@), ValueFormat::Bin),
    {
        Ok(SignalValue::from_binary_string(s))
    }

    /// Creates a `SignalValue` from the characters of a hexadecimal
    /// number of at most sixteen digits.
    pub fn from_hex_chars(chars: &Vec<char>, from: usize, to: usize) -> (r: SignalValue)
        requires
            from <= to <= chars.len(),
            to - from <= 16,
        ensures
            r@ == ValueView::Literal(
                bits_of_number(hex_number(chars@.subrange(from as int, to as int))),
                ValueFormat::Hex,
            ),
    {
        let ghost s = chars@.subrange(from as int, to as int);
        let mut value: u64 = 0;
        let mut i: usize = from;
        while i < to
            invariant
                from <= i <= to <= chars.len(),
                to - from <= 16,
                s == chars@.subrange(from as int, to as int),
                value == hex_number(s.take(i - from)),
                value < pow16((i - from) as nat),
            decreases to - i,
        {
            let d: u64 = match hex_value(chars[i]) {
                Some(d) => d,
                None => 0,
            };
            proof {
                let t = s.take(i - from + 1);
                assert(t.drop_last() == s.take(i - from));
                assert(t.last() == chars@[i as int]);
                lemma_pow16_bound((i - from) as nat);
                assert(pow16((i - from + 1) as nat) == 16 * pow16((i - from) as nat));
            }
            value = value * 16 + d;
            i += 1;
        }
        assert(s.take(to - from) == s);
        SignalValue::new(value)
    }

    /// Creates a `SignalValue` from a hexadecimal string of at most
    /// sixteen digits.
    pub fn from_hex(s: &str) -> (r: SignalValue)
        requires
            s@.len() <= 16,
        ensures
            r@ == ValueView::Literal(bits_of_number(hex_number(s@)), ValueFormat::Hex),
    {
        let chars = chars_of(s);
        assert(chars@.subrange(0, chars@.len() as int) == chars@);
        SignalValue::from_hex_chars(&chars, 0, chars.len())
    }

    /// Creates an invalid `SignalValue`: one undefined bit.
    pub fn invalid() -> (r: SignalValue)
        ensures
            r@ == ValueView::Literal(seq![BitValue::Undefined], ValueFormat::Hex),
            r@.invalid(),
    {
        let mut v: Vec<BitValue> = Vec::new();
        v.push(BitValue::Undefined);
        assert(v@ =~= seq![BitValue::Undefined]);
        assert(!v@[0].is_binary());
        let r = SignalValue::Literal(v, ValueFormat::Hex);
        assert(!r@->Literal_0[0].is_binary());
        assert(r@.invalid());
        r
    }

    /// Expands the width of a `SignalValue`: a literal shorter than
    /// `width` is extended by its padding bit.
    pub fn expand(&mut self, width: usize)
        ensures
            final(self)@ == old(self)@.expanded(width as nat),
    {
        match self {
            SignalValue::Literal(literal, _) => {
                let ghost before = literal@;
                let last: BitValue = if literal.len() > 0 {
                    literal[literal.len() - 1]
                } else {
                    BitValue::High
                };
                let expand_value = if last == BitValue::High {
                    BitValue::Low
                } else {
                    last
                };
                assert(expand_value == padding_bit(before));
                while literal.len() < width
                    invariant
                        expand_value == padding_bit(before),
                        before.len() <= literal.len(),
                        before.len() < width ==> literal.len() <= width,
                        before.len() >= width ==> literal.len() == before.len(),
                        literal@ == before + Seq::new(
                            (literal.len() - before.len()) as nat,
                            |i: int| expand_value,
                        ),
                    decreases width - literal.len(),
                {
                    literal.push(expand_value);
                    assert(literal@ =~= before + Seq::new(
                        (literal.len() - before.len()) as nat,
                        |i: int| expand_value,
                    ));
                }
                proof {
                    let e = expanded_bits(before, width as nat);
                    if before.len() >= width {
                        assert(literal.len() == before.len());
                        assert(literal@ =~= before);
                    } else {
                        assert(literal.len() == width);
                        assert(e.len() == width);
                        assert forall|j: int| 0 <= j < width implies literal@[j] == e[j] by {
                            if j >= before.len() {
                                assert(literal@[j] == expand_value);
                            }
                        }
                    }
                    assert(literal@ =~= e);
                }
            },
            SignalValue::Symbol(_) => {},
        }
    }

    /// Gets the width of a `SignalValue`: the number of bits of a literal,
    /// two for a symbol.
    pub fn width(&self) -> (r: usize)
        ensures
            r == match self@ {
                ValueView::Literal(bits, _) => bits.len(),
                ValueView::Symbol(_) => 2,
            },
    {
        match self {
            SignalValue::Literal(literal, _) => literal.len(),
            SignalValue::Symbol(_) => 2,
        }
    }

    /// Checks if the `SignalValue` is invalid: whether any bit of a
    /// literal is neither low nor high.
    #[verifier::loop_isolation(false)]
    pub fn is_invalid(&self) -> (r: bool)
        ensures
            r == self@.invalid(),
    {
        match self {
            SignalValue::Literal(literal, _) => {
                let mut i: usize = 0;
                while i < literal.len()
                    invariant
                        i <= literal.len(),
                        forall|j: int| 0 <= j < i ==> (#[trigger] literal@[j]).is_binary(),
                    decreases literal.len() - i,
                {
                    match literal[i] {
                        BitValue::Low | BitValue::High => {},
                        _ => {
                            assert(!literal@[i as int].is_binary());
                            assert(self@->Literal_0 == literal@);
                            return true;
                        },
                    }
                    i += 1;
                }
                false
            },
            SignalValue::Symbol(_) => false,
        }
    }

    /// Whether two values are equal.
    #[verifier::loop_isolation(false)]
    pub fn same_as(&self, other: &SignalValue) -> (r: bool)
        ensures
            r == self@.same(other@),
    {
        match self {
            SignalValue::Literal(a, fa) => match other {
                SignalValue::Literal(b, fb) => {
                    reveal(same_bits);
                    assert(self@ == ValueView::Literal(a@, *fa));
                    assert(other@ == ValueView::Literal(b@, *fb));
                    assert(self@.same(other@) == same_bits(a@, b@));
                    let n = if a.len() > b.len() {
                        a.len()
                    } else {
                        b.len()
                    };
                    let mut i: usize = 0;
                    while i < n
                        invariant
                            i <= n,
                            n >= a.len(),
                            n >= b.len(),
                            forall|j: int| 0 <= j < i ==> bit_at(a@, j) == bit_at(b@, j),
                        decreases n - i,
                    {
                        let x = if i < a.len() {
                            a[i]
                        } else {
                            BitValue::Low
                        };
                        let y = if i < b.len() {
                            b[i]
                        } else {
                            BitValue::Low
                        };
                        if x != y {
                            assert(bit_at(a@, i as int) != bit_at(b@, i as int));
                            assert(!same_bits(a@, b@));
                            return false;
                        }
                        i += 1;
                    }
                    assert forall|j: int| 0 <= j implies bit_at(a@, j) == bit_at(b@, j) by {
                        if j >= n {
                            assert(bit_at(a@, j) == BitValue::Low);
                        }
                    }
                    assert(same_bits(a@, b@));
                    true
                },
                SignalValue::Symbol(_) => false,
            },
            SignalValue::Symbol(a) => match other {
                SignalValue::Literal(_, _) => false,
                SignalValue::Symbol(b) => {
                    let r = *a == *b;
                    assert(r == (a@ == b@));
                    r
                },
            },
        }
    }

    /// Whether the value is the literal zero: every bit low.
    #[verifier::loop_isolation(false)]
    pub fn is_zero(&self) -> (r: bool)
        ensures
            r == self@.same(ValueView::zero()),
    {
        match self {
            SignalValue::Literal(bits, format) => {
                reveal(same_bits);
                assert(self@ == ValueView::Literal(bits@, *format));
                assert(self@.same(ValueView::zero()) == same_bits(bits@, Seq::empty()));
                let mut i: usize = 0;
                while i < bits.len()
                    invariant
                        i <= bits.len(),
                        forall|j: int| 0 <= j < i ==> bits@[j] == BitValue::Low,
                    decreases bits.len() - i,
                {
                    if bits[i] != BitValue::Low {
                        assert(bit_at(bits@, i as int) != bit_at(Seq::empty(), i as int));
                        assert(!same_bits(bits@, Seq::empty()));
                        return false;
                    }
                    i += 1;
                }
                assert(same_bits(bits@, Seq::empty()));
                true
            },
            SignalValue::Symbol(_) => false,
        }
    }

    /// Appends the notation of the value.
    pub fn write_to(&self, out: &mut Vec<char>)
        ensures
            final(out)@ == old(out)@ + self@.notation(),
    {
        match self {
            SignalValue::Literal(literal, value_format) => {
                match value_format {
                    ValueFormat::Bin => {
                        out.push('b');
                        self.write_binary(out);
                        assert(out@ == old(out)@ + (seq!['b'] + binary_digits(literal@)));
                    },
                    ValueFormat::Hex => {
                        out.push('h');
                        let nibbles = NibbleValue::from_vec(literal);
                        let ghost start = out@;
                        let mut i: usize = nibbles.len();
                        while i > 0
                            invariant
                                i <= nibbles.len(),
                                nibbles.len() == nibble_count(literal@),
                                forall|k: int|
                                    0 <= k < nibbles.len() ==> (#[trigger] nibbles[k]).as_char()
                                        == nibble_char_at(literal@, k),
                                out@ == start + hex_digits(literal@).take(nibbles.len() - i),
                            decreases i,
                        {
                            i -= 1;
                            let c = nibbles[i].to_char();
                            out.push(c);
                            proof {
                                let h = hex_digits(literal@);
                                let j = nibbles.len() - i - 1;
                                assert(h[j] == c);
                                assert(h.take(j + 1) == h.take(j).push(c));
                            }
                        }
                        proof {
                            let h = hex_digits(literal@);
                            assert(h.take(nibbles.len() as int) == h);
                            assert(old(out)@.push('h') + h == old(out)@ + (seq!['h'] + h));
                        }
                    },
                }
            },
            SignalValue::Symbol(symbol) => {
                let chars = chars_of(symbol.as_str());
                append_chars(out, &chars);
            },
        }
    }

    /// Appends the value in binary without a prefix; a symbol as it is.
    pub fn write_binary(&self, out: &mut Vec<char>)
        ensures
            final(out)@ == old(out)@ + self@.binary_notation(),
    {
        match self {
            SignalValue::Literal(literal, _) => {
                let mut i: usize = literal.len();
                while i > 0
                    invariant
                        i <= literal.len(),
                        out@ == old(out)@ + binary_digits(literal@).take(literal.len() - i),
                    decreases i,
                {
                    i -= 1;
                    let c = literal[i].to_char();
                    out.push(c);
                    proof {
                        let b = binary_digits(literal@);
                        let j = literal.len() - i - 1;
                        assert(b[j] == c);
                        assert(b.take(j + 1) == b.take(j).push(c));
                    }
                }
                assert(binary_digits(literal@).take(literal.len() as int) == binary_digits(
                    literal@,
                ));
            },
            SignalValue::Symbol(symbol) => {
                let chars = chars_of(symbol.as_str());
                append_chars(out, &chars);
            },
        }
    }

    /// The notation of the value: `b` and the bits or `h` and the nibbles
    /// of a literal, the most significant first; the text of a symbol.
    pub fn to_string(&self) -> (r: String)
        ensures
            r@ == self@.notation(),
    {
        let mut out: Vec<char> = Vec::new();
        self.write_to(&mut out);
        string_of(&out)
    }

    /// The bits of a literal in binary, the most significant first and
    /// without a prefix; the text of a symbol.
    pub fn to_string_binary(&self) -> (r: String)
        ensures
            r@ == self@.binary_notation(),
    {
        let mut out: Vec<char> = Vec::new();
        self.write_binary(&mut out);
        string_of(&out)
    }
}

/// Whether a character is one of those that stand for a bit.
pub open spec fn bit_char(c: char) -> bool {
    c == '0' || c == '1' || c == 'z' || c == 'u' || c == 'w' || c == '-' || c == 'x'
}

/// A value read from a string of bit characters is written out as `b` and
/// that string, and reading what follows the `b` gives the value again.
pub proof fn lemma_binary_display(text: Seq<char>)
    requires
        forall|i: int| 0 <= i < text.len() ==> bit_char(#[trigger] text[i]),
    ensures
        ValueView::Literal(bits_of_chars(text), ValueFormat::Bin).notation() == seq!['b'] + text,
        bits_of_chars(
            ValueView::Literal(bits_of_chars(text), ValueFormat::Bin).notation().skip(1),
        ) == bits_of_chars(text),
{
    let bits = bits_of_chars(text);
    assert forall|j: int| 0 <= j < text.len() implies binary_digits(bits)[j] == text[j] by {
        assert(bit_char(text[j]));
        assert(bits[text.len() - 1 - j] == BitValue::of_char(text[j]));
    }
    assert(binary_digits(bits) =~= text);
    assert((seq!['b'] + text).skip(1) =~= text);
}

/// Reading the binary notation of a literal gives its bits back, and
/// writing out what was read from a string and reading it again changes
/// nothing more.
pub proof fn lemma_binary_round_trip(bits: Seq<BitValue>, text: Seq<char>)
    ensures
        bits_of_chars(binary_digits(bits)) == bits,
        binary_digits(bits_of_chars(binary_digits(bits_of_chars(text)))) == binary_digits(
            bits_of_chars(text),
        ),
        binary_digits(bits_of_chars(text)).len() == text.len(),
{
    assert forall|b: BitValue| BitValue::of_char(b.as_char()) == b by {}
    assert(bits_of_chars(binary_digits(bits)) =~= bits);
    let once = bits_of_chars(text);
    assert(bits_of_chars(binary_digits(once)) =~= once);
}

/// Equality of signal values is reflexive, symmetric and transitive.
pub proof fn lemma_same_is_equivalence(a: ValueView, b: ValueView, c: ValueView)
    ensures
        a.same(a),
        a.same(b) ==> b.same(a),
        a.same(b) && b.same(c) ==> a.same(c),
{
    reveal(same_bits);
}

/// Extending a literal does not change the value that it denotes when its
/// most significant bit is low or high or missing.
pub proof fn lemma_expand_keeps_value(bits: Seq<BitValue>, width: nat)
    requires
        padding_bit(bits) == BitValue::Low,
    ensures
        same_bits(bits, expanded_bits(bits, width)),
{
    reveal(same_bits);
}

} // verus!
