//! Character-level helpers shared by the parsers and formatters: conversion
//! between strings and character vectors, decimal numbers, the
//! lexicographic order used to keep identifiers sorted, and classes of
//! characters.
use vstd::prelude::*;

verus! {

/// Collects the characters of a string slice.
pub fn chars_of(s: &str) -> (r: Vec<char>)
    ensures
        r@ == s@,
{
    let mut v: Vec<char> = Vec::new();
    for c in it: s.chars()
        invariant
            it.seq() == s@,
            v@ == it.seq().take(it.index()),
    {
        v.push(c);
    }
    v
}

/// `String::push` of the standard library: the character is appended to the
/// end of the string and nothing else changes.
#[verifier::external_body]
fn push_char(s: &mut String, c: char)
    ensures
        final(s)@ == old(s)@.push(c),
{
    s.push(c)
}

/// Builds a string out of a range of characters.
pub fn string_of_range(chars: &Vec<char>, from: usize, to: usize) -> (r: String)
    requires
        from <= to <= chars.len(),
    ensures
        r@ == chars@.subrange(from as int, to as int),
{
    let mut s = String::new();
    let mut i: usize = from;
    while i < to
        invariant
            from <= i <= to <= chars.len(),
            s@ == chars@.subrange(from as int, i as int),
        decreases to - i,
    {
        push_char(&mut s, chars[i]);
        i += 1;
        assert(s@ == chars@.subrange(from as int, i as int));
    }
    s
}

/// Builds a string out of characters.
pub fn string_of(chars: &Vec<char>) -> (r: String)
    ensures
        r@ == chars@,
{
    let r = string_of_range(chars, 0, chars.len());
    assert(chars@.subrange(0, chars@.len() as int) == chars@);
    r
}

/// Appends the characters of `s` to `out`.
pub fn append_str(out: &mut Vec<char>, s: &str)
    ensures
        final(out)@ == old(out)@ + s@,
{
    for c in it: s.chars()
        invariant
            it.seq() == s@,
            out@ == old(out)@ + it.seq().take(it.index()),
    {
        out.push(c);
        assert(it.seq().take(it.index() + 1) == it.seq().take(it.index()).push(c));
    }
    assert(s@.take(s@.len() as int) == s@);
}

/// Appends the characters of `v` to `out`.
pub fn append_chars(out: &mut Vec<char>, v: &Vec<char>)
    ensures
        final(out)@ == old(out)@ + v@,
{
    let mut i: usize = 0;
    while i < v.len()
        invariant
            i <= v.len(),
            out@ == old(out)@ + v@.take(i as int),
        decreases v.len() - i,
    {
        out.push(v[i]);
        assert(v@.take(i + 1) == v@.take(i as int).push(v@[i as int]));
        i += 1;
    }
    assert(v@.take(v@.len() as int) == v@);
}

/// Copies a range of characters.
pub fn copy_range(chars: &Vec<char>, from: usize, to: usize) -> (r: Vec<char>)
    requires
        from <= to <= chars.len(),
    ensures
        r@ == chars@.subrange(from as int, to as int),
{
    let mut out: Vec<char> = Vec::new();
    let mut i: usize = from;
    while i < to
        invariant
            from <= i <= to <= chars.len(),
            out@ == chars@.subrange(from as int, i as int),
        decreases to - i,
    {
        out.push(chars[i]);
        i += 1;
        assert(out@ == chars@.subrange(from as int, i as int));
    }
    out
}

/// Whether two character vectors hold the same characters.
pub fn same_chars(a: &Vec<char>, b: &Vec<char>) -> (r: bool)
    ensures
        r == (a@ == b@),
{
    if a.len() != b.len() {
        return false;
    }
    let mut i: usize = 0;
    while i < a.len()
        invariant
            i <= a.len(),
            a.len() == b.len(),
            forall|j: int| 0 <= j < i ==> a@[j] == b@[j],
        decreases a.len() - i,
    {
        if a[i] != b[i] {
            return false;
        }
        i += 1;
    }
    assert(a@ =~= b@);
    true
}

/// Whether a character vector spells out the given string.
pub fn chars_are(a: &Vec<char>, s: &str) -> (r: bool)
    ensures
        r == (a@ == s@),
{
    let b = chars_of(s);
    same_chars(a, &b)
}

/// Whether two strings hold the same characters.
pub fn same_str(a: &str, b: &str) -> (r: bool)
    ensures
        r == (a@ == b@),
{
    let x = chars_of(a);
    let y = chars_of(b);
    same_chars(&x, &y)
}

// ---------------------------------------------------------------------------
// Decimal numbers
// ---------------------------------------------------------------------------

/// The character of a decimal digit.
pub open spec fn digit_char(d: int) -> char {
    if d == 0 {
        '0'
    } else if d == 1 {
        '1'
    } else if d == 2 {
        '2'
    } else if d == 3 {
        '3'
    } else if d == 4 {
        '4'
    } else if d == 5 {
        '5'
    } else if d == 6 {
        '6'
    } else if d == 7 {
        '7'
    } else if d == 8 {
        '8'
    } else {
        '9'
    }
}

/// The decimal digits of a natural number, most significant first.
pub open spec fn digits(n: nat) -> Seq<char>
    decreases n,
{
    if n < 10 {
        seq![digit_char(n as int)]
    } else {
        digits(n / 10).push(digit_char((n % 10) as int))
    }
}

/// The decimal notation of an integer: a minus sign for negative numbers,
/// then the digits of the magnitude.
pub open spec fn decimal(v: int) -> Seq<char> {
    if v < 0 {
        seq!['-'] + digits((-v) as nat)
    } else {
        digits(v as nat)
    }
}

fn digit_to_char(d: u8) -> (c: char)
    requires
        d < 10,
    ensures
        c == digit_char(d as int),
{
    if d == 0 {
        '0'
    } else if d == 1 {
        '1'
    } else if d == 2 {
        '2'
    } else if d == 3 {
        '3'
    } else if d == 4 {
        '4'
    } else if d == 5 {
        '5'
    } else if d == 6 {
        '6'
    } else if d == 7 {
        '7'
    } else if d == 8 {
        '8'
    } else {
        '9'
    }
}

/// Appends the decimal digits of `n` to `out`.
pub fn push_digits(out: &mut Vec<char>, n: u64)
    ensures
        final(out)@ == old(out)@ + digits(n as nat),
{
    // Least significant digit first, then copied back in reverse.
    let mut rev: Vec<char> = Vec::new();
    let mut rest: u64 = n;
    while rest >= 10
        invariant
            digits(n as nat) == digits(rest as nat) + rev@.reverse(),
        decreases rest,
    {
        let d = digit_to_char((rest % 10) as u8);
        proof {
            let prev = rev@;
            assert(prev.push(d).reverse() == seq![d] + prev.reverse());
            assert(digits(rest as nat) == digits((rest / 10) as nat).push(d));
            assert(digits((rest / 10) as nat).push(d) + prev.reverse() == digits(
                (rest / 10) as nat,
            ) + (seq![d] + prev.reverse()));
        }
        rev.push(d);
        rest = rest / 10;
    }
    let first = digit_to_char(rest as u8);
    out.push(first);
    assert(digits(rest as nat) == seq![first]);
    let mut i: usize = rev.len();
    while i > 0
        invariant
            i <= rev.len(),
            out@ == old(out)@ + seq![first] + rev@.reverse().take(rev.len() - i),
        decreases i,
    {
        i -= 1;
        out.push(rev[i]);
        proof {
            let r = rev@.reverse();
            let k = rev.len() - i - 1;
            assert(r[k] == rev@[i as int]);
            assert(r.take(k + 1) == r.take(k).push(r[k]));
        }
    }
    proof {
        let r = rev@.reverse();
        assert(r.take(rev.len() as int) == r);
        assert(old(out)@ + seq![first] + r == old(out)@ + (seq![first] + r));
    }
}

/// Appends the decimal notation of `v` to `out`.
pub fn push_decimal(out: &mut Vec<char>, v: i64)
    ensures
        final(out)@ == old(out)@ + decimal(v as int),
{
    if v < 0 {
        out.push('-');
        let magnitude: u64 = if v == i64::MIN {
            9223372036854775808u64
        } else {
            (-v) as u64
        };
        push_digits(out, magnitude);
        assert(old(out)@.push('-') + digits(magnitude as nat) == old(out)@ + (seq!['-'] + digits(
            magnitude as nat,
        )));
    } else {
        push_digits(out, v as u64);
    }
}

/// Whether a character is one of `0` to `9`.
pub open spec fn decimal_digit(c: char) -> bool {
    '0' <= c && c <= '9'
}

/// The value of a decimal digit.
pub open spec fn digit_value(c: char) -> int {
    (c as u32) as int - 48
}

/// Whether every character is a decimal digit.
pub open spec fn all_digits(s: Seq<char>) -> bool {
    forall|i: int| 0 <= i < s.len() ==> decimal_digit(#[trigger] s[i])
}

/// The number that a sequence of decimal digits denotes.
pub open spec fn digits_value(s: Seq<char>) -> int
    decreases s.len(),
{
    if s.len() == 0 {
        0
    } else {
        digits_value(s.drop_last()) * 10 + digit_value(s.last())
    }
}

/// What reading a decimal integer out of `s` gives: an optional sign (`-`
/// only for signed numbers), then at least one digit and nothing else, with
/// a value between `min` and `max`.
pub open spec fn parse_int_spec(s: Seq<char>, signed: bool, min: int, max: int) -> Option<int> {
    let negative = signed && s.len() > 0 && s[0] == '-';
    let body = if s.len() > 0 && (s[0] == '+' || negative) {
        s.skip(1)
    } else {
        s
    };
    let v = if negative {
        -digits_value(body)
    } else {
        digits_value(body)
    };
    if body.len() > 0 && all_digits(body) && min <= v <= max {
        Some(v)
    } else {
        None
    }
}

/// Exec test for a decimal digit.
pub fn is_digit_char(c: char) -> (r: bool)
    ensures
        r == decimal_digit(c),
{
    '0' <= c && c <= '9'
}

proof fn lemma_digits_value_nonneg(s: Seq<char>)
    requires
        all_digits(s),
    ensures
        digits_value(s) >= 0,
    decreases s.len(),
{
    if s.len() > 0 {
        lemma_digits_value_nonneg(s.drop_last());
        assert(decimal_digit(s.last()));
    }
}

proof fn lemma_digits_value_grows(s: Seq<char>, k: int)
    requires
        all_digits(s),
        0 <= k <= s.len(),
    ensures
        digits_value(s.take(k)) <= digits_value(s),
    decreases s.len() - k,
{
    if k < s.len() {
        lemma_digits_value_grows(s, k + 1);
        let t = s.take(k + 1);
        assert(t.drop_last() == s.take(k));
        assert(decimal_digit(s[k]));
        assert(t.last() == s[k]);
        lemma_digits_value_nonneg(s.take(k));
    } else {
        assert(s.take(k) == s);
    }
}

/// Reads the magnitude of a decimal number out of `chars[from..to]`: the
/// value of the digits if there is at least one character, all are digits
/// and the value is at most `limit`.
fn parse_magnitude(chars: &Vec<char>, from: usize, to: usize, limit: u64) -> (r: Option<u64>)
    requires
        from <= to <= chars.len(),
    ensures
        ({
            let body = chars@.subrange(from as int, to as int);
            r == if body.len() > 0 && all_digits(body) && digits_value(body) <= limit {
                Some(digits_value(body) as u64)
            } else {
                None
            }
        }),
{
    let ghost body = chars@.subrange(from as int, to as int);
    if from == to {
        return None;
    }
    let mut acc: u64 = 0;
    let mut i: usize = from;
    while i < to
        invariant
            from <= i <= to <= chars.len(),
            body == chars@.subrange(from as int, to as int),
            all_digits(body.take(i - from)),
            acc == digits_value(body.take(i - from)),
            acc <= limit,
        decreases to - i,
    {
        let c = chars[i];
        assert(body[i - from] == c);
        if !is_digit_char(c) {
            return None;
        }
        let d: u64 = (c as u32 - 48) as u64;
        proof {
            let t = body.take(i - from + 1);
            assert(t.drop_last() == body.take(i - from));
            assert(t.last() == c);
            assert(digits_value(t) == acc * 10 + d);
            assert forall|j: int| 0 <= j < t.len() implies decimal_digit(#[trigger] t[j]) by {
                if j < i - from {
                    assert(t[j] == body.take(i - from)[j]);
                }
            }
            if all_digits(body) {
                lemma_digits_value_grows(body, i - from + 1);
            }
        }
        if limit < d || acc > (limit - d) / 10 {
            assert(acc * 10 + d > limit) by (nonlinear_arith)
                requires
                    limit < d || acc > (limit - d) / 10,
                    0 <= d,
                    0 <= acc,
                    0 <= limit,
            ;
            return None;
        }
        assert(acc * 10 + d <= limit) by (nonlinear_arith)
            requires
                acc <= (limit - d) / 10,
                limit >= d,
        ;
        acc = acc * 10 + d;
        i += 1;
    }
    assert(body.take(to - from) == body);
    Some(acc)
}

/// Reads an unsigned decimal integer: an optional `+`, then digits only,
/// with a value of at most `max`.
pub fn parse_unsigned(chars: &Vec<char>, from: usize, to: usize, max: u64) -> (r: Option<u64>)
    requires
        from <= to <= chars.len(),
    ensures
        r matches Some(v) ==> parse_int_spec(
            chars@.subrange(from as int, to as int),
            false,
            0,
            max as int,
        ) == Some(v as int),
        r is None ==> parse_int_spec(chars@.subrange(from as int, to as int), false, 0, max as int)
            is None,
{
    let ghost s = chars@.subrange(from as int, to as int);
    let start = if from < to && chars[from] == '+' {
        from + 1
    } else {
        from
    };
    proof {
        if from < to {
            assert(s[0] == chars@[from as int]);
        }
        if start > from {
            assert(s.skip(1) == chars@.subrange(start as int, to as int));
        } else {
            assert(s == chars@.subrange(start as int, to as int));
        }
        if all_digits(chars@.subrange(start as int, to as int)) {
            lemma_digits_value_nonneg(chars@.subrange(start as int, to as int));
        }
    }
    parse_magnitude(chars, start, to, max)
}

/// Reads a signed decimal integer that fits 64 bits: an optional `+` or
/// `-`, then digits only.
pub fn parse_signed(chars: &Vec<char>, from: usize, to: usize) -> (r: Option<i64>)
    requires
        from <= to <= chars.len(),
    ensures
        r matches Some(v) ==> parse_int_spec(
            chars@.subrange(from as int, to as int),
            true,
            i64::MIN as int,
            i64::MAX as int,
        ) == Some(v as int),
        r is None ==> parse_int_spec(
            chars@.subrange(from as int, to as int),
            true,
            i64::MIN as int,
            i64::MAX as int,
        ) is None,
{
    let ghost s = chars@.subrange(from as int, to as int);
    let negative = from < to && chars[from] == '-';
    let start = if from < to && (chars[from] == '+' || negative) {
        from + 1
    } else {
        from
    };
    proof {
        if from < to {
            assert(s[0] == chars@[from as int]);
        }
        if start > from {
            assert(s.skip(1) == chars@.subrange(start as int, to as int));
        } else {
            assert(s == chars@.subrange(start as int, to as int));
        }
        if all_digits(chars@.subrange(start as int, to as int)) {
            lemma_digits_value_nonneg(chars@.subrange(start as int, to as int));
        }
    }
    if negative {
        match parse_magnitude(chars, start, to, 9223372036854775808u64) {
            Some(m) => {
                if m == 9223372036854775808u64 {
                    Some(i64::MIN)
                } else {
                    Some(-(m as i64))
                }
            },
            None => None,
        }
    } else {
        match parse_magnitude(chars, start, to, 9223372036854775807u64) {
            Some(m) => Some(m as i64),
            None => None,
        }
    }
}

// ---------------------------------------------------------------------------
// Lexicographic order
// ---------------------------------------------------------------------------

/// `a` comes before `b` in dictionary order by code point: at the first
/// position where they differ `a` has the smaller character, or `a` is a
/// proper prefix of `b`.
pub open spec fn lex_lt(a: Seq<char>, b: Seq<char>) -> bool {
    exists|k: int| lex_lt_at(a, b, k)
}

/// `a` and `b` agree before position `k`, and there `a` ends or is smaller.
pub open spec fn lex_lt_at(a: Seq<char>, b: Seq<char>, k: int) -> bool {
    &&& 0 <= k <= a.len()
    &&& k < b.len()
    &&& forall|i: int| 0 <= i < k ==> a[i] == b[i]
    &&& (k < a.len() ==> a[k] < b[k])
}

/// The dictionary order is irreflexive and transitive.
pub proof fn lemma_lex_order(a: Seq<char>, b: Seq<char>, c: Seq<char>)
    ensures
        !lex_lt(a, a),
        lex_lt(a, b) && lex_lt(b, c) ==> lex_lt(a, c),
        lex_lt(a, b) ==> !lex_lt(b, a) && a != b,
{
    if lex_lt(a, b) && lex_lt(b, c) {
        let k1 = choose|k: int| lex_lt_at(a, b, k);
        let k2 = choose|k: int| lex_lt_at(b, c, k);
        let k = if k1 <= k2 {
            k1
        } else {
            k2
        };
        assert(lex_lt_at(a, c, k));
    }
    if lex_lt(a, b) && lex_lt(b, a) {
        let k1 = choose|k: int| lex_lt_at(a, b, k);
        let k2 = choose|k: int| lex_lt_at(b, a, k);
        if k1 < k2 {
            assert(a[k1] == b[k1]);
        } else if k2 < k1 {
            assert(a[k2] == b[k2]);
        }
    }
}

/// How two sequences stand in dictionary order.
#[derive(Clone, Copy, Debug, PartialEq, Eq, Structural)]
pub enum Rank {
    Before,
    Same,
    After,
}

/// Compares two character vectors in dictionary order.
pub fn compare_chars(a: &Vec<char>, b: &Vec<char>) -> (r: Rank)
    ensures
        r == Rank::Before <==> lex_lt(a@, b@),
        r == Rank::Same <==> a@ == b@,
        r == Rank::After <==> lex_lt(b@, a@),
{
    proof {
        lemma_lex_order(a@, b@, a@);
        lemma_lex_order(b@, a@, b@);
    }
    let mut i: usize = 0;
    while i < a.len() && i < b.len()
        invariant
            i <= a.len(),
            i <= b.len(),
            forall|j: int| 0 <= j < i ==> a@[j] == b@[j],
        decreases a.len() - i,
    {
        if a[i] < b[i] {
            assert(lex_lt_at(a@, b@, i as int));
            return Rank::Before;
        }
        if a[i] > b[i] {
            assert(lex_lt_at(b@, a@, i as int));
            return Rank::After;
        }
        i += 1;
    }
    if i < b.len() {
        assert(lex_lt_at(a@, b@, i as int));
        Rank::Before
    } else if i < a.len() {
        assert(lex_lt_at(b@, a@, i as int));
        Rank::After
    } else {
        assert(a@ =~= b@);
        Rank::Same
    }
}

// ---------------------------------------------------------------------------
// Classes of characters
// ---------------------------------------------------------------------------

/// Classes of characters.
#[derive(Debug, Clone, Copy, PartialEq, Eq, Structural)]
pub enum CharClass {
    Space,
    /// Anything but white space
    Word,
    Digit,
    Binary,
    Hex,
    Identifier,
}

/// White space of Unicode.
pub open spec fn is_space(c: char) -> bool {
    let n = c as u32;
    (9 <= n <= 13) || n == 0x20 || n == 0x85 || n == 0xA0 || n == 0x1680 || (0x2000 <= n
        <= 0x200A) || n == 0x2028 || n == 0x2029 || n == 0x202F || n == 0x205F || n == 0x3000
}

/// Control characters of Unicode.
pub open spec fn is_control_char(c: char) -> bool {
    let n = c as u32;
    n <= 0x1F || (0x7F <= n <= 0x9F)
}

/// Whether a character belongs to a class.
pub open spec fn in_class(c: char, class: CharClass) -> bool {
    match class {
        CharClass::Space => is_space(c),
        CharClass::Word => !is_space(c),
        CharClass::Digit => '0' <= c && c <= '9',
        CharClass::Binary => c == '0' || c == '1' || c == 'u' || c == 'z' || c == 'w' || c == '-',
        CharClass::Hex => ('0' <= c && c <= '9') || ('a' <= c && c <= 'f') || ('A' <= c && c
            <= 'F'),
        CharClass::Identifier => !(is_space(c) || is_control_char(c)),
    }
}

/// The end of the longest run of characters of a class from a position.
pub open spec fn run_end(s: Seq<char>, p: int, class: CharClass) -> int
    decreases s.len() - p,
{
    if 0 <= p < s.len() && in_class(s[p], class) {
        run_end(s, p + 1, class)
    } else {
        p
    }
}

/// Whether a character is one of `1` to `9`.
pub fn is_digit_start(input: char) -> (r: bool)
    ensures
        r == ('1' <= input && input <= '9'),
{
    '1' <= input && input <= '9'
}

/// Whether a character is a decimal digit.
pub fn is_digit(input: char) -> (r: bool)
    ensures
        r == in_class(input, CharClass::Digit),
{
    '0' <= input && input <= '9'
}

/// Whether a character stands for a bit in a binary number.
pub fn is_binary_digit(input: char) -> (r: bool)
    ensures
        r == in_class(input, CharClass::Binary),
{
    input == '0' || input == '1' || input == 'u' || input == 'z' || input == 'w' || input == '-'
}

/// Whether a character is a hexadecimal digit in either case.
pub fn is_hex_digit(input: char) -> (r: bool)
    ensures
        r == in_class(input, CharClass::Hex),
{
    ('0' <= input && input <= '9') || ('a' <= input && input <= 'f') || ('A' <= input && input
        <= 'F')
}

/// Whether a character is white space.
pub fn is_whitespace(input: char) -> (r: bool)
    ensures
        r == is_space(input),
{
    let n = input as u32;
    (9 <= n && n <= 13) || n == 0x20 || n == 0x85 || n == 0xA0 || n == 0x1680 || (0x2000 <= n && n
        <= 0x200A) || n == 0x2028 || n == 0x2029 || n == 0x202F || n == 0x205F || n == 0x3000
}

/// Whether a character can stand in an identifier: anything but white
/// space and control characters.
pub fn is_identifier(input: char) -> (r: bool)
    ensures
        r == in_class(input, CharClass::Identifier),
{
    let n = input as u32;
    !(is_whitespace(input) || n <= 0x1F || (0x7F <= n && n <= 0x9F))
}

/// Whether a character belongs to a class.
pub fn char_in_class(c: char, class: CharClass) -> (r: bool)
    ensures
        r == in_class(c, class),
{
    match class {
        CharClass::Space => is_whitespace(c),
        CharClass::Word => !is_whitespace(c),
        CharClass::Digit => is_digit(c),
        CharClass::Binary => is_binary_digit(c),
        CharClass::Hex => is_hex_digit(c),
        CharClass::Identifier => is_identifier(c),
    }
}

/// Finds the end of the longest run of characters of a class.
pub fn take_run(input: &Vec<char>, pos: usize, class: CharClass) -> (r: usize)
    requires
        pos <= input.len(),
    ensures
        r == run_end(input@, pos as int, class),
        pos <= r <= input.len(),
        forall|i: int| pos <= i < r ==> in_class(#[trigger] input@[i], class),
{
    let mut i: usize = pos;
    while i < input.len() && char_in_class(input[i], class)
        invariant
            pos <= i <= input.len(),
            run_end(input@, pos as int, class) == run_end(input@, i as int, class),
            forall|k: int| pos <= k < i ==> in_class(#[trigger] input@[k], class),
        decreases input.len() - i,
    {
        i += 1;
    }
    i
}

/// Whether a character is a number of Unicode, as `char::is_numeric` of
/// the standard library tells.
pub uninterp spec fn numeric(c: char) -> bool;

/// `char::is_numeric` of the standard library: whether the character has
/// one of the general categories for numbers.
#[verifier::external_body]
fn is_numeric(c: char) -> (r: bool)
    ensures
        r == numeric(c),
{
    c.is_numeric()
}

/// The first position from `p` on that holds the character, or the
/// length.
pub open spec fn first_of(s: Seq<char>, p: int, c: char) -> int
    decreases s.len() - p,
{
    if 0 <= p < s.len() && s[p] != c {
        first_of(s, p + 1, c)
    } else {
        p
    }
}

/// The first position that holds no number of Unicode, or the length.
pub open spec fn numbers_end(s: Seq<char>, p: int) -> int
    decreases s.len() - p,
{
    if 0 <= p < s.len() && numeric(s[p]) {
        numbers_end(s, p + 1)
    } else {
        p
    }
}

/// The length of the longest prefix made of numbers of Unicode.
pub fn numeric_prefix(word: &Vec<char>) -> (end: usize)
    ensures
        end == numbers_end(word@, 0),
        end <= word.len(),
{
    let n = word.len();
    let mut end: usize = 0;
    while end < n && is_numeric(word[end])
        invariant
            end <= n,
            n == word.len(),
            numbers_end(word@, 0) == numbers_end(word@, end as int),
        decreases n - end,
    {
        end += 1;
    }
    end
}

} // verus!
