//! Words of a value change dump, and what a word is in the place in
//! which it stands.
use crate::names::views;
use crate::signaldb::time::{Scale, Timestamp};
use crate::signaldb::value::{bits_of_chars, SignalValue, ValueFormat, ValueView};
use crate::text::{
    chars_are, chars_of, copy_range, first_of, numbers_end, numeric_prefix, parse_int_spec,
    parse_signed, parse_unsigned, run_end, string_of, string_of_range, take_run, CharClass,
};
use vstd::prelude::*;

verus! {

#[derive(Copy, Clone, Debug, PartialEq, Eq, Structural)]
pub enum Keyword {
    Comment,
    Date,
    DumpVars,
    End,
    EndDefinitions,
    Scope,
    Timescale,
    Var,
    Version,
    Upscope,
}

#[derive(Debug, PartialEq)]
pub enum Token {
    Word(String),
    Keyword(Keyword),
    Range(u64, u64),
    Identifier(String),
    IdentifierRange(String, u64, u64),
    Integer(usize),
    Value(SignalValue),
    ValueIdentifier(SignalValue, String),
    Timestamp(i64),
    Timescale(Timestamp),
    Eof,
}

/// The place in which a word stands.
#[derive(Copy, Clone, Debug, PartialEq, Eq, Structural)]
pub enum Context {
    Comment,
    Stmt,
    Id,
    IdRange,
    ShortId,
    Value,
    Timescale,
}

/// The mathematical value of a `Token`.
pub enum TokenView {
    Word(Seq<char>),
    Keyword(Keyword),
    Range(u64, u64),
    Identifier(Seq<char>),
    IdentifierRange(Seq<char>, u64, u64),
    Integer(usize),
    Value(ValueView),
    ValueIdentifier(ValueView, Seq<char>),
    Timestamp(i64),
    Timescale(Timestamp),
    Eof,
}

impl View for Token {
    type V = TokenView;

    open spec fn view(&self) -> TokenView {
        match self {
            Token::Word(w) => TokenView::Word(w@),
            Token::Keyword(k) => TokenView::Keyword(*k),
            Token::Range(a, b) => TokenView::Range(*a, *b),
            Token::Identifier(id) => TokenView::Identifier(id@),
            Token::IdentifierRange(id, a, b) => TokenView::IdentifierRange(id@, *a, *b),
            Token::Integer(i) => TokenView::Integer(*i),
            Token::Value(v) => TokenView::Value(v@),
            Token::ValueIdentifier(v, id) => TokenView::ValueIdentifier(v@, id@),
            Token::Timestamp(t) => TokenView::Timestamp(*t),
            Token::Timescale(t) => TokenView::Timescale(*t),
            Token::Eof => TokenView::Eof,
        }
    }
}

/// The keyword that a word spells.
pub open spec fn keyword_of(word: Seq<char>) -> Option<Keyword> {
    if word == "$comment"@ {
        Some(Keyword::Comment)
    } else if word == "$date"@ {
        Some(Keyword::Date)
    } else if word == "$dumpvars"@ {
        Some(Keyword::DumpVars)
    } else if word == "$end"@ {
        Some(Keyword::End)
    } else if word == "$enddefinitions"@ {
        Some(Keyword::EndDefinitions)
    } else if word == "$scope"@ {
        Some(Keyword::Scope)
    } else if word == "$timescale"@ {
        Some(Keyword::Timescale)
    } else if word == "$var"@ {
        Some(Keyword::Var)
    } else if word == "$version"@ {
        Some(Keyword::Version)
    } else if word == "$upscope"@ {
        Some(Keyword::Upscope)
    } else {
        None
    }
}

/// A word as a keyword.
pub open spec fn as_keyword(word: Seq<char>) -> Option<TokenView> {
    match keyword_of(word) {
        Some(k) => Some(TokenView::Keyword(k)),
        None => None,
    }
}

/// A word as an unsigned integer.
pub open spec fn as_integer(word: Seq<char>) -> Option<TokenView> {
    match parse_int_spec(word, false, 0, usize::MAX as int) {
        Some(v) => Some(TokenView::Integer(v as usize)),
        None => None,
    }
}

/// A word as a value: `b` and the bits of a vector, `s` and a symbol, or
/// one bit with the identifier of its signal right after it.
pub open spec fn as_value(word: Seq<char>) -> Option<TokenView> {
    if word.len() == 0 {
        None
    } else if word[0] == 'b' {
        Some(
            TokenView::Value(ValueView::Literal(bits_of_chars(word.skip(1)), ValueFormat::Bin)),
        )
    } else if word[0] == 'x' || word[0] == '-' || word[0] == 'z' || word[0] == 'u' || word[0]
        == 'w' || word[0] == '1' || word[0] == '0' {
        Some(
            TokenView::ValueIdentifier(
                ValueView::Literal(bits_of_chars(word.take(1)), ValueFormat::Bin),
                word.skip(1),
            ),
        )
    } else if word[0] == 's' {
        Some(TokenView::Value(ValueView::Symbol(word.skip(1))))
    } else {
        None
    }
}

/// A word as a timestamp: `#` and a signed integer.
pub open spec fn as_timestamp(word: Seq<char>) -> Option<TokenView> {
    if word.len() > 0 && word[0] == '#' {
        match parse_int_spec(word.skip(1), true, i64::MIN as int, i64::MAX as int) {
            Some(v) => Some(TokenView::Timestamp(v as i64)),
            None => None,
        }
    } else {
        None
    }
}

/// A word as a range: two unsigned integers with a colon between them,
/// in square brackets.
pub open spec fn as_range(word: Seq<char>) -> Option<TokenView> {
    if word.len() >= 2 && word[0] == '[' && word.last() == ']' {
        let inner = word.subrange(1, word.len() - 1);
        let colon = first_of(inner, 0, ':');
        if colon < inner.len() && first_of(inner, colon + 1, ':') >= inner.len() {
            match (
                parse_int_spec(inner.take(colon), false, 0, u64::MAX as int),
                parse_int_spec(inner.skip(colon + 1), false, 0, u64::MAX as int),
            ) {
                (Some(a), Some(b)) => Some(TokenView::Range(a as u64, b as u64)),
                _ => None,
            }
        } else {
            None
        }
    } else {
        None
    }
}

/// A word as an identifier, with the range that follows it without a
/// space if there is one.
pub open spec fn as_id_range(word: Seq<char>) -> Option<TokenView> {
    let open = first_of(word, 0, '[');
    if 0 <= open < word.len() {
        match as_range(word.skip(open)) {
            Some(TokenView::Range(a, b)) => Some(TokenView::IdentifierRange(word.take(open), a, b)),
            _ => None,
        }
    } else {
        Some(TokenView::Identifier(word))
    }
}

/// A word read as a unit of time whose count ends at `end`: the word
/// ends in `s`, the count may be missing or unreadable and is one then,
/// and what follows it is the suffix of a scale.
pub open spec fn timescale_at(word: Seq<char>, end: int) -> Option<TokenView> {
    if word.len() > 0 && word.last() == 's' && 0 <= end < word.len() {
        match Scale::with_suffix(word.skip(end)) {
            Some(scale) => Some(
                TokenView::Timescale(
                    Timestamp {
                        value: match parse_int_spec(
                            word.take(end),
                            true,
                            i64::MIN as int,
                            i64::MAX as int,
                        ) {
                            Some(v) => v as i64,
                            None => 1,
                        },
                        scale,
                    },
                ),
            ),
            None => None,
        }
    } else {
        None
    }
}

/// A word as a timescale: a number, which counts as one where it is
/// missing or cannot be read, and a unit of time.
pub open spec fn as_timescale(word: Seq<char>) -> Option<TokenView> {
    timescale_at(word, numbers_end(word, 0))
}

/// The first of two readings of a word that there is.
pub open spec fn or_else(a: Option<TokenView>, b: Option<TokenView>) -> Option<TokenView> {
    if a is Some {
        a
    } else {
        b
    }
}

/// What a word is in the place in which it stands: the first reading
/// that the place admits, in the order given here, else the word itself
/// or, where an identifier is expected, an identifier.
pub open spec fn retokenized(word: Seq<char>, ctx: Context) -> TokenView {
    match ctx {
        Context::Comment => match as_keyword(word) {
            Some(t) => t,
            None => TokenView::Word(word),
        },
        Context::Stmt => match or_else(as_keyword(word), or_else(as_timestamp(word), as_value(word))) {
            Some(t) => t,
            None => TokenView::Word(word),
        },
        Context::Id => match or_else(as_integer(word), as_id_range(word)) {
            Some(t) => t,
            None => TokenView::Identifier(word),
        },
        Context::ShortId => TokenView::Identifier(word),
        Context::IdRange => match or_else(as_range(word), as_keyword(word)) {
            Some(t) => t,
            None => TokenView::Identifier(word),
        },
        Context::Value => match or_else(as_keyword(word), as_value(word)) {
            Some(t) => t,
            None => TokenView::Word(word),
        },
        Context::Timescale => match or_else(
            as_keyword(word),
            or_else(as_integer(word), as_timescale(word)),
        ) {
            Some(t) => t,
            None => TokenView::Word(word),
        },
    }
}

/// Whether an exec reading of a word is the one that the word has.
pub open spec fn reading_is(r: Option<Token>, expected: Option<TokenView>) -> bool {
    match r {
        Some(t) => expected == Some(t@),
        None => expected is None,
    }
}

impl Token {
    /// Reads a word as a keyword.
    pub fn retokenize_kw(word: &Vec<char>) -> (r: Option<Token>)
        ensures
            reading_is(r, as_keyword(word@)),
    {
        let kw = if chars_are(word, "$comment") {
            Some(Keyword::Comment)
        } else if chars_are(word, "$date") {
            Some(Keyword::Date)
        } else if chars_are(word, "$dumpvars") {
            Some(Keyword::DumpVars)
        } else if chars_are(word, "$end") {
            Some(Keyword::End)
        } else if chars_are(word, "$enddefinitions") {
            Some(Keyword::EndDefinitions)
        } else if chars_are(word, "$scope") {
            Some(Keyword::Scope)
        } else if chars_are(word, "$timescale") {
            Some(Keyword::Timescale)
        } else if chars_are(word, "$var") {
            Some(Keyword::Var)
        } else if chars_are(word, "$version") {
            Some(Keyword::Version)
        } else if chars_are(word, "$upscope") {
            Some(Keyword::Upscope)
        } else {
            None
        };
        match kw {
            Some(k) => Some(Token::Keyword(k)),
            None => None,
        }
    }

    /// Reads a word as an unsigned integer.
    pub fn retokenize_integer(word: &Vec<char>) -> (r: Option<Token>)
        ensures
            reading_is(r, as_integer(word@)),
    {
        assert(word@.subrange(0, word@.len() as int) == word@);
        match parse_unsigned(word, 0, word.len(), usize::MAX as u64) {
            Some(i) => Some(Token::Integer(i as usize)),
            None => None,
        }
    }

    /// Reads a word as a value.
    pub fn retokenize_value(word: &Vec<char>) -> (r: Option<Token>)
        ensures
            reading_is(r, as_value(word@)),
    {
        if word.len() == 0 {
            return None;
        }
        let c = word[0];
        proof {
            assert(word@.subrange(1, word@.len() as int) == word@.skip(1));
            assert(word@.subrange(0, 1) == word@.take(1));
        }
        if c == 'b' {
            Some(Token::Value(SignalValue::from_bit_chars(word, 1, word.len())))
        } else if c == 'x' || c == '-' || c == 'z' || c == 'u' || c == 'w' || c == '1' || c == '0' {
            Some(
                Token::ValueIdentifier(
                    SignalValue::from_bit_chars(word, 0, 1),
                    string_of_range(word, 1, word.len()),
                ),
            )
        } else if c == 's' {
            Some(Token::Value(SignalValue::Symbol(string_of_range(word, 1, word.len()))))
        } else {
            None
        }
    }

    /// Reads a word as a timestamp.
    pub fn retokenize_timestamp(word: &Vec<char>) -> (r: Option<Token>)
        ensures
            reading_is(r, as_timestamp(word@)),
    {
        if word.len() > 0 && word[0] == '#' {
            assert(word@.subrange(1, word@.len() as int) == word@.skip(1));
            match parse_signed(word, 1, word.len()) {
                Some(i) => Some(Token::Timestamp(i)),
                None => None,
            }
        } else {
            None
        }
    }

    /// Finds the first position from `from` on, before `to`, that holds
    /// the character.
    pub fn find_char(word: &Vec<char>, from: usize, to: usize, c: char) -> (r: usize)
        requires
            from <= to <= word.len(),
        ensures
            r == first_of(word@.subrange(0, to as int), from as int, c),
            from <= r <= to,
    {
        let ghost s = word@.subrange(0, to as int);
        let mut i: usize = from;
        while i < to && word[i] != c
            invariant
                from <= i <= to <= word.len(),
                s == word@.subrange(0, to as int),
                first_of(s, from as int, c) == first_of(s, i as int, c),
            decreases to - i,
        {
            assert(s[i as int] == word@[i as int]);
            i += 1;
        }
        proof {
            if i < to {
                assert(s[i as int] == word@[i as int]);
            }
        }
        i
    }

    /// Reads a range out of the characters from `from` on.
    pub fn range_from(word: &Vec<char>, from: usize) -> (r: Option<(u64, u64)>)
        requires
            from <= word.len(),
        ensures
            match r {
                Some((a, b)) => as_range(word@.skip(from as int)) == Some(TokenView::Range(a, b)),
                None => as_range(word@.skip(from as int)) is None,
            },
    {
        let ghost w = word@.skip(from as int);
        let n = word.len();
        if n - from < 2 || word[from] != '[' || word[n - 1] != ']' {
            return None;
        }
        let ghost inner = w.subrange(1, w.len() - 1);
        proof {
            assert(w[0] == word@[from as int]);
            assert(w.last() == word@[n - 1]);
            assert(inner =~= word@.subrange(from + 1, n - 1));
        }
        let colon = Token::find_in(word, from + 1, n - 1, from + 1, ':');
        if colon >= n - 1 {
            return None;
        }
        let second = Token::find_in(word, from + 1, n - 1, colon + 1, ':');
        if second < n - 1 {
            return None;
        }
        proof {
            assert(inner.take(colon - (from + 1)) =~= word@.subrange(from + 1, colon as int));
            assert(inner.skip(colon - (from + 1) + 1) =~= word@.subrange(colon + 1, n - 1));
        }
        let a = parse_unsigned(word, from + 1, colon, u64::MAX);
        let b = parse_unsigned(word, colon + 1, n - 1, u64::MAX);
        match (a, b) {
            (Some(a), Some(b)) => Some((a, b)),
            _ => None,
        }
    }

    /// Finds the first position from `from` on that holds the character,
    /// within the characters from `lo` up to `hi`.
    pub fn find_in(word: &Vec<char>, lo: usize, hi: usize, from: usize, c: char) -> (r: usize)
        requires
            lo <= from <= hi <= word.len(),
        ensures
            r - lo == first_of(word@.subrange(lo as int, hi as int), from - lo, c),
            from <= r <= hi,
    {
        let ghost s = word@.subrange(lo as int, hi as int);
        let mut i: usize = from;
        while i < hi && word[i] != c
            invariant
                lo <= from <= i <= hi <= word.len(),
                s == word@.subrange(lo as int, hi as int),
                first_of(s, from - lo, c) == first_of(s, i - lo, c),
            decreases hi - i,
        {
            assert(s[i - lo] == word@[i as int]);
            i += 1;
        }
        proof {
            if i < hi {
                assert(s[i - lo] == word@[i as int]);
            }
        }
        i
    }

    /// Reads a word as a range.
    pub fn retokenize_range(word: &Vec<char>) -> (r: Option<Token>)
        ensures
            reading_is(r, as_range(word@)),
    {
        assert(word@.skip(0) == word@);
        match Token::range_from(word, 0) {
            Some((a, b)) => Some(Token::Range(a, b)),
            None => None,
        }
    }

    /// Reads a word as an identifier, with a range if one follows.
    pub fn retokenize_id_range(word: &Vec<char>) -> (r: Option<Token>)
        ensures
            reading_is(r, as_id_range(word@)),
    {
        assert(word@.subrange(0, word@.len() as int) == word@);
        let open = Token::find_char(word, 0, word.len(), '[');
        if open < word.len() {
            assert(word@.subrange(0, open as int) == word@.take(open as int));
            match Token::range_from(word, open) {
                Some((a, b)) => Some(Token::IdentifierRange(string_of_range(word, 0, open), a, b)),
                None => None,
            }
        } else {
            Some(Token::Identifier(string_of(word)))
        }
    }

    /// Reads a word as a unit of time whose count ends at `end`.
    pub fn timescale_from(word: &Vec<char>, end: usize) -> (r: Option<Token>)
        ensures
            reading_is(r, timescale_at(word@, end as int)),
    {
        let n = word.len();
        if n == 0 || word[n - 1] != 's' || end >= n {
            return None;
        }
        proof {
            assert(word@.subrange(0, end as int) == word@.take(end as int));
            assert(word@.subrange(end as int, n as int) == word@.skip(end as int));
        }
        let value = match parse_signed(word, 0, end) {
            Some(v) => v,
            None => 1,
        };
        let suffix = string_of_range(word, end, n);
        match Scale::from_str(suffix.as_str()) {
            Ok(scale) => Some(Token::Timescale(Timestamp::new(value, scale))),
            Err(_) => None,
        }
    }

    /// Reads a word as a timescale.
    pub fn retokenize_timescale(word: &Vec<char>) -> (r: Option<Token>)
        ensures
            reading_is(r, as_timescale(word@)),
    {
        Token::timescale_from(word, numeric_prefix(word))
    }

    /// Reads a word as what it is in the place in which it stands.
    pub fn retokenize(word: &Vec<char>, ctx: Context) -> (r: Token)
        ensures
            r@ == retokenized(word@, ctx),
    {
        match ctx {
            Context::Comment => {
                match Token::retokenize_kw(word) {
                    Some(t) => t,
                    None => Token::Word(string_of(word)),
                }
            },
            Context::Stmt => {
                match Token::retokenize_kw(word) {
                    Some(t) => {
                        return t;
                    },
                    None => {},
                }
                match Token::retokenize_timestamp(word) {
                    Some(t) => {
                        return t;
                    },
                    None => {},
                }
                match Token::retokenize_value(word) {
                    Some(t) => t,
                    None => Token::Word(string_of(word)),
                }
            },
            Context::Id => {
                match Token::retokenize_integer(word) {
                    Some(t) => {
                        return t;
                    },
                    None => {},
                }
                match Token::retokenize_id_range(word) {
                    Some(t) => t,
                    None => Token::Identifier(string_of(word)),
                }
            },
            Context::ShortId => Token::Identifier(string_of(word)),
            Context::IdRange => {
                match Token::retokenize_range(word) {
                    Some(t) => {
                        return t;
                    },
                    None => {},
                }
                match Token::retokenize_kw(word) {
                    Some(t) => t,
                    None => Token::Identifier(string_of(word)),
                }
            },
            Context::Value => {
                match Token::retokenize_kw(word) {
                    Some(t) => {
                        return t;
                    },
                    None => {},
                }
                match Token::retokenize_value(word) {
                    Some(t) => t,
                    None => Token::Word(string_of(word)),
                }
            },
            Context::Timescale => {
                match Token::retokenize_kw(word) {
                    Some(t) => {
                        return t;
                    },
                    None => {},
                }
                match Token::retokenize_integer(word) {
                    Some(t) => {
                        return t;
                    },
                    None => {},
                }
                match Token::retokenize_timescale(word) {
                    Some(t) => t,
                    None => Token::Word(string_of(word)),
                }
            },
        }
    }
}

/// Reader of the words of a dump, a line at a time.
pub struct Lexer {
    /// The text that was read last: a line with its line feed, after an
    /// empty line if there was one
    pub buf: Vec<char>,
    pub input: Vec<char>,
    /// The position in the input of what was not read yet
    pub pos: usize,
    /// The words of the text that was read last
    pub words: Vec<Vec<char>>,
    /// The position of the next of these words
    pub next: usize,
}

/// What a `Lexer` has read and what it has handed out.
pub struct LexerView {
    pub buf: Seq<char>,
    /// The words of the text read last that were not handed out yet
    pub pending: Seq<Seq<char>>,
    pub pos: int,
}

/// The position after the line that begins at a position: after its
/// line feed, or the end of the input.
pub open spec fn line_end(s: Seq<char>, p: int) -> int {
    if first_of(s, p, '\n') < s.len() {
        first_of(s, p, '\n') + 1
    } else {
        s.len() as int
    }
}

/// The position after the text that is read at once: a line, and the
/// line after it where the first one is empty.
pub open spec fn chunk_end(s: Seq<char>, p: int) -> int {
    if 0 <= p < s.len() && s[p] == '\n' {
        line_end(s, p + 1)
    } else {
        line_end(s, p)
    }
}

/// The words of a text from a position on: the runs of characters that
/// are no white space.
pub open spec fn words_from(s: Seq<char>, p: int) -> Seq<Seq<char>>
    decreases s.len() - p,
{
    let a = run_end(s, p, CharClass::Space);
    let b = run_end(s, a, CharClass::Word);
    if p <= a < b <= s.len() {
        seq![s.subrange(a, b)] + words_from(s, b)
    } else {
        Seq::empty()
    }
}

/// The next word of the input, if there is one left, and the state of
/// the reader after it was handed out. Text without words is passed
/// over; at the end of the input nothing is left of the last text.
pub open spec fn advance(input: Seq<char>, st: LexerView) -> (Option<Seq<char>>, LexerView)
    decreases input.len() - st.pos, st.pending.len(),
{
    if st.pending.len() > 0 {
        (Some(st.pending[0]), LexerView { pending: st.pending.skip(1), ..st })
    } else if st.pos < chunk_end(input, st.pos) <= input.len() {
        let e = chunk_end(input, st.pos);
        let chunk = input.subrange(st.pos, e);
        advance(input, LexerView { buf: chunk, pending: words_from(chunk, 0), pos: e })
    } else {
        (None, LexerView { buf: Seq::empty(), pending: Seq::empty(), pos: st.pos })
    }
}

impl Lexer {
    /// The positions of the reader are within what it reads.
    pub open spec fn wf(&self) -> bool {
        self.pos <= self.input.len() && self.next <= self.words.len()
    }

    /// What the reader has read and what it has handed out.
    pub open spec fn view(&self) -> LexerView {
        LexerView {
            buf: self.buf@,
            pending: views(self.words@).skip(self.next as int),
            pos: self.pos as int,
        }
    }

    /// Creates a reader of the words of a text.
    pub fn new(input: &str) -> (r: Lexer)
        ensures
            r.wf(),
            r.input@ == input@,
            r.view() == (LexerView { buf: Seq::empty(), pending: Seq::empty(), pos: 0 }),
    {
        let r = Lexer {
            buf: Vec::new(),
            input: chars_of(input),
            pos: 0,
            words: Vec::new(),
            next: 0,
        };
        assert(r.view().pending =~= Seq::<Seq<char>>::empty());
        r
    }

    /// Finds the position after the line that begins at a position.
    fn end_of_line(&self, from: usize) -> (r: usize)
        requires
            from <= self.input.len(),
        ensures
            r == line_end(self.input@, from as int),
            from <= r <= self.input.len(),
            from < self.input.len() ==> from < r,
    {
        let mut i: usize = from;
        while i < self.input.len() && self.input[i] != '\n'
            invariant
                from <= i <= self.input.len(),
                first_of(self.input@, from as int, '\n') == first_of(self.input@, i as int, '\n'),
            decreases self.input.len() - i,
        {
            i += 1;
        }
        if i < self.input.len() {
            i + 1
        } else {
            i
        }
    }

    /// Reads the next text and cuts it into words.
    fn feed_words(&mut self)
        requires
            old(self).wf(),
            old(self).pos < old(self).input.len(),
        ensures
            final(self).wf(),
            final(self).input == old(self).input,
            final(self).pos == chunk_end(old(self).input@, old(self).pos as int),
            old(self).pos < final(self).pos <= final(self).input.len(),
            final(self).buf@ == old(self).input@.subrange(
                old(self).pos as int,
                final(self).pos as int,
            ),
            final(self).next == 0,
            views(final(self).words@) == words_from(final(self).buf@, 0),
    {
        let start = self.pos;
        let end = if self.input[start] == '\n' {
            self.end_of_line(start + 1)
        } else {
            self.end_of_line(start)
        };
        self.buf = copy_range(&self.input, start, end);
        self.pos = end;
        self.words = Vec::new();
        self.next = 0;
        let mut p: usize = 0;
        assert(views(self.words@) =~= Seq::<Seq<char>>::empty());
        loop
            invariant
                p <= self.buf.len(),
                self.input == old(self).input,
                self.pos == end,
                self.next == 0,
                self.buf@ == old(self).input@.subrange(start as int, end as int),
                words_from(self.buf@, 0) == views(self.words@) + words_from(self.buf@, p as int),
            ensures
                views(self.words@) == words_from(self.buf@, 0),
            decreases self.buf.len() - p,
        {
            let a = take_run(&self.buf, p, CharClass::Space);
            let b = take_run(&self.buf, a, CharClass::Word);
            if b > a {
                let ghost before = views(self.words@);
                self.words.push(copy_range(&self.buf, a, b));
                proof {
                    assert(views(self.words@) =~= before.push(self.buf@.subrange(a as int, b as int)));
                    assert(before + (seq![self.buf@.subrange(a as int, b as int)] + words_from(
                        self.buf@,
                        b as int,
                    )) =~= before.push(self.buf@.subrange(a as int, b as int)) + words_from(
                        self.buf@,
                        b as int,
                    ));
                }
                p = b;
            } else {
                proof {
                    assert(words_from(self.buf@, p as int) =~= Seq::<Seq<char>>::empty());
                    assert(views(self.words@) + Seq::<Seq<char>>::empty() =~= views(self.words@));
                }
                break ;
            }
        }
    }

    /// Hands out the next word of the input as what it is in the place in
    /// which it stands, or `Eof` at the end of the input.
    pub fn pop(&mut self, ctx: Context) -> (r: Token)
        requires
            old(self).wf(),
        ensures
            final(self).wf(),
            final(self).input == old(self).input,
            final(self).view() == advance(old(self).input@, old(self).view()).1,
            r@ == match advance(old(self).input@, old(self).view()).0 {
                Some(word) => retokenized(word, ctx),
                None => TokenView::Eof,
            },
    {
        loop
            invariant
                self.wf(),
                self.input == old(self).input,
                advance(self.input@, self.view()) == advance(old(self).input@, old(self).view()),
            decreases self.input.len() - self.pos, self.words.len() - self.next,
        {
            if self.next < self.words.len() {
                let token = Token::retokenize(&self.words[self.next], ctx);
                proof {
                    assert(self.view().pending[0] == self.words[self.next as int]@);
                    assert(self.view().pending.skip(1) =~= views(self.words@).skip(self.next + 1));
                }
                self.next += 1;
                return token;
            }
            proof {
                assert(self.view().pending.len() == 0);
            }
            if self.pos >= self.input.len() {
                self.buf = Vec::new();
                self.words = Vec::new();
                self.next = 0;
                proof {
                    assert(self.view().pending =~= Seq::<Seq<char>>::empty());
                    assert(first_of(self.input@, self.pos as int, '\n') == self.pos);
                }
                return Token::Eof;
            }
            self.feed_words();
            proof {
                assert(self.view().pending =~= words_from(self.buf@, 0));
            }
        }
    }

    /// The text that was read last.
    pub fn get_current_line(&self) -> (r: String)
        ensures
            r@ == self.buf@,
    {
        string_of(&self.buf)
    }
}

} // verus!
