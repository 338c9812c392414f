//! Statements of a value change dump.
use super::lexer::{advance, retokenized, Context, Keyword, Lexer, LexerView, Token, TokenView};
use crate::signaldb::db::{SignalDB, StoreView};
use crate::signaldb::scope::{path_names, texts};
use crate::signaldb::signal::Signal;
use crate::signaldb::time::{Scale, Timestamp};
use crate::signaldb::value::{SignalValue, ValueView};
use crate::text::{append_str, chars_of, string_of};
use vstd::prelude::*;

verus! {

/// A line of a dump, or a search expression, that could not be read.
#[derive(Debug, PartialEq, Eq)]
pub struct SyntaxError {
    pub line: String,
}

/// The text that the `Debug` format of the standard library gives for a
/// string: the string in quotes, with its quotes, backslashes and
/// characters that cannot be printed written as escapes.
pub uninterp spec fn quoted(s: Seq<char>) -> Seq<char>;

/// `format!("{:?}", s)` of the standard library for a string slice: the
/// `Debug` text of the string, which depends on the string alone.
#[verifier::external_body]
fn debug_text(s: &str) -> (r: String)
    ensures
        r@ == quoted(s@),
{
    format!("{:?}", s)
}

impl SyntaxError {
    /// The message of the error.
    pub open spec fn message(&self) -> Seq<char> {
        "Syntax Error: "@ + quoted(self.line@)
    }

    /// Creates the error that quotes a line.
    pub fn new(line: String) -> (r: SyntaxError)
        ensures
            r.line == line,
    {
        SyntaxError { line }
    }

    /// The message of an error whose line is given as it is quoted.
    pub fn message_of(quoted_line: &str) -> (r: String)
        ensures
            r@ == "Syntax Error: "@ + quoted_line@,
    {
        let mut out: Vec<char> = Vec::new();
        append_str(&mut out, "Syntax Error: ");
        append_str(&mut out, quoted_line);
        string_of(&out)
    }

    /// The message of the error: `Syntax Error: ` and the line in quotes.
    pub fn to_string(&self) -> (r: String)
        ensures
            r@ == self.message(),
    {
        let text = debug_text(self.line.as_str());
        SyntaxError::message_of(text.as_str())
    }
}

/// Reader of the statements of a dump.
pub struct Parser {
    pub lexer: Lexer,
    /// Names of the scopes that are open, outermost first
    pub scope: Vec<String>,
    /// The count of time after which reading stops
    pub limit: Option<i64>,
}

/// Where the reading of a dump stands: what the reader of words has
/// read, the scopes that are open, and what the store holds.
pub struct ParseView {
    pub lexer: LexerView,
    pub scope: Seq<Seq<char>>,
    pub store: StoreView,
}

/// The next token in a place, and the reader of words after it.
pub open spec fn token(input: Seq<char>, lexer: LexerView, ctx: Context) -> (TokenView, LexerView) {
    let (word, after) = advance(input, lexer);
    (
        match word {
            Some(w) => retokenized(w, ctx),
            None => TokenView::Eof,
        },
        after,
    )
}

/// The second reader of words is further on in the input than the first.
pub open spec fn further(a: LexerView, b: LexerView, input: Seq<char>) -> bool {
    (a.pos < b.pos <= input.len()) || (a.pos == b.pos && b.pending.len() < a.pending.len())
}

/// A reader that hands out a word is further on afterwards.
pub proof fn lemma_advance_further(input: Seq<char>, lexer: LexerView)
    ensures
        advance(input, lexer).0 is Some ==> further(lexer, advance(input, lexer).1, input),
        lexer.pos <= advance(input, lexer).1.pos,
        lexer.pos <= input.len() ==> advance(input, lexer).1.pos <= input.len(),
    decreases input.len() - lexer.pos, lexer.pending.len(),
{
    if lexer.pending.len() == 0 && lexer.pos < super::lexer::chunk_end(input, lexer.pos as int)
        <= input.len() {
        let e = super::lexer::chunk_end(input, lexer.pos as int);
        let chunk = input.subrange(lexer.pos, e);
        let next = LexerView { buf: chunk, pending: super::lexer::words_from(chunk, 0), pos: e };
        lemma_advance_further(input, next);
    }
}

/// The timestamp that a count of time denotes in a unit, where it fits
/// 64 bits.
pub open spec fn scaled(timescale: Timestamp, count: int) -> Option<Timestamp> {
    if i64::MIN <= timescale.value * count <= i64::MAX {
        Some(Timestamp { value: (timescale.value * count) as i64, scale: timescale.scale })
    } else {
        None
    }
}

/// `$comment`, `$date` and `$version`: words up to `$end`.
pub open spec fn comment(input: Seq<char>, pv: ParseView) -> (bool, ParseView)
    decreases input.len() - pv.lexer.pos, pv.lexer.pending.len(),
{
    let (t, lexer) = token(input, pv.lexer, Context::Comment);
    let next = ParseView { lexer, ..pv };
    match t {
        TokenView::Word(_) => if further(pv.lexer, lexer, input) {
            comment(input, next)
        } else {
            (false, next)
        },
        TokenView::Keyword(Keyword::End) => (true, next),
        _ => (false, next),
    }
}

/// `$scope`: a type, a name and `$end`. The scope is opened within the
/// scopes that are open, and created in the store.
pub open spec fn scope(input: Seq<char>, pv: ParseView) -> (bool, ParseView) {
    let (t1, l1) = token(input, pv.lexer, Context::Id);
    let (t2, l2) = token(input, l1, Context::Id);
    let (t3, l3) = token(input, l2, Context::Stmt);
    if !(t1 is Identifier) {
        (false, ParseView { lexer: l1, ..pv })
    } else if !(t2 is Identifier) {
        (false, ParseView { lexer: l2, ..pv })
    } else if t3 != TokenView::Keyword(Keyword::End) {
        (false, ParseView { lexer: l3, ..pv })
    } else {
        let opened = pv.scope.push(t2->Identifier_0);
        (true, ParseView { lexer: l3, scope: opened, store: pv.store.with_scope(opened) })
    }
}

/// `$upscope`: `$end`. The innermost open scope is closed.
pub open spec fn upscope(input: Seq<char>, pv: ParseView) -> (bool, ParseView) {
    let (t, lexer) = token(input, pv.lexer, Context::Stmt);
    if t == TokenView::Keyword(Keyword::End) {
        (
            true,
            ParseView {
                lexer,
                scope: if pv.scope.len() > 0 {
                    pv.scope.drop_last()
                } else {
                    pv.scope
                },
                ..pv
            },
        )
    } else {
        (false, ParseView { lexer, ..pv })
    }
}

/// `$var`: a type, a width, the identifier of the signal, its name,
/// which a range may follow with or without a space, and `$end`. The
/// signal is declared in the innermost open scope.
pub open spec fn var(input: Seq<char>, pv: ParseView) -> (bool, ParseView) {
    let (t1, l1) = token(input, pv.lexer, Context::Id);
    let (t2, l2) = token(input, l1, Context::Id);
    let (t3, l3) = token(input, l2, Context::ShortId);
    let (t4, l4) = token(input, l3, Context::Id);
    if !(t1 is Identifier) {
        (false, ParseView { lexer: l1, ..pv })
    } else if !(t2 is Integer) {
        (false, ParseView { lexer: l2, ..pv })
    } else if !(t3 is Identifier) {
        (false, ParseView { lexer: l3, ..pv })
    } else {
        let width = t2->Integer_0 as nat;
        let id = t3->Identifier_0;
        match t4 {
            TokenView::Identifier(name) => {
                let (t5, l5) = token(input, l4, Context::IdRange);
                let (t6, l6) = token(input, l5, Context::Stmt);
                if t5 is Range {
                    if t6 == TokenView::Keyword(Keyword::End) {
                        (
                            true,
                            ParseView {
                                lexer: l6,
                                store: pv.store.with_signal(pv.scope, id, name, width),
                                ..pv
                            },
                        )
                    } else {
                        (false, ParseView { lexer: l6, ..pv })
                    }
                } else if t5 == TokenView::Keyword(Keyword::End) {
                    (
                        true,
                        ParseView {
                            lexer: l5,
                            store: pv.store.with_signal(pv.scope, id, name, width),
                            ..pv
                        },
                    )
                } else {
                    (false, ParseView { lexer: l5, ..pv })
                }
            },
            TokenView::IdentifierRange(name, _, _) => {
                let (t5, l5) = token(input, l4, Context::Stmt);
                if t5 == TokenView::Keyword(Keyword::End) {
                    (
                        true,
                        ParseView {
                            lexer: l5,
                            store: pv.store.with_signal(pv.scope, id, name, width),
                            ..pv
                        },
                    )
                } else {
                    (false, ParseView { lexer: l5, ..pv })
                }
            },
            _ => (false, ParseView { lexer: l4, ..pv }),
        }
    }
}

/// A signal of the store takes a value at the current time; a signal
/// that the store does not have is an error.
pub open spec fn assign(pv: ParseView, id: Seq<char>, v: ValueView) -> (bool, ParseView) {
    if pv.store.signals.contains_key(id) {
        (true, ParseView { store: pv.store.with_value(id, v), ..pv })
    } else {
        (false, pv)
    }
}

/// The identifier that follows a value, and the change of value.
pub open spec fn value_change(input: Seq<char>, pv: ParseView, v: ValueView) -> (bool, ParseView) {
    let (t, lexer) = token(input, pv.lexer, Context::ShortId);
    match t {
        TokenView::Identifier(id) => assign(ParseView { lexer, ..pv }, id, v),
        _ => (false, ParseView { lexer, ..pv }),
    }
}

/// `$dumpvars`: changes of value up to `$end`, which completes the
/// declarations.
pub open spec fn dumpvars(input: Seq<char>, pv: ParseView) -> (bool, ParseView)
    decreases input.len() - pv.lexer.pos, pv.lexer.pending.len(),
{
    let (t, lexer) = token(input, pv.lexer, Context::Value);
    let next = ParseView { lexer, ..pv };
    match t {
        TokenView::Value(v) => {
            let (ok, after) = value_change(input, next, v);
            if ok && further(pv.lexer, after.lexer, input) {
                dumpvars(input, after)
            } else {
                (false, after)
            }
        },
        TokenView::ValueIdentifier(v, id) => {
            let (ok, after) = assign(next, id, v);
            if ok && further(pv.lexer, after.lexer, input) {
                dumpvars(input, after)
            } else {
                (false, after)
            }
        },
        TokenView::Keyword(Keyword::End) => (true, ParseView { store: pv.store.ready(), ..next }),
        _ => (false, next),
    }
}

/// `$timescale`: a unit of time, after a count where there is one, and
/// `$end`. The timescale is the unit taken that many times.
pub open spec fn timescale(input: Seq<char>, pv: ParseView) -> (Option<Timestamp>, ParseView) {
    let (t1, l1) = token(input, pv.lexer, Context::Timescale);
    let (t2, l2) = token(input, l1, Context::Timescale);
    let (t3, l3) = token(input, l2, Context::Timescale);
    match t1 {
        TokenView::Integer(times) => {
            if !(t2 is Timescale) {
                (None, ParseView { lexer: l2, ..pv })
            } else if t3 != TokenView::Keyword(Keyword::End) {
                (None, ParseView { lexer: l3, ..pv })
            } else {
                (scaled(t2->Timescale_0, times as int), ParseView { lexer: l3, ..pv })
            }
        },
        TokenView::Timescale(unit) => {
            if t2 == TokenView::Keyword(Keyword::End) {
                (Some(unit), ParseView { lexer: l2, ..pv })
            } else {
                (None, ParseView { lexer: l2, ..pv })
            }
        },
        _ => (None, ParseView { lexer: l1, ..pv }),
    }
}

/// The statement that a keyword begins, and the timescale in force
/// after it. `$enddefinitions` completes the declarations; `$timescale`
/// sets the unit of time; `$end` begins no statement.
pub open spec fn statement(input: Seq<char>, pv: ParseView, kw: Keyword, unit: Timestamp) -> (
    bool,
    ParseView,
    Timestamp,
) {
    match kw {
        Keyword::Timescale => {
            let (found, after) = timescale(input, pv);
            match found {
                Some(ts) => (true, ParseView { store: after.store.with_timescale(ts), ..after }, ts),
                None => (false, after, unit),
            }
        },
        Keyword::End => (false, pv, unit),
        Keyword::EndDefinitions => {
            let (ok, after) = comment(input, ParseView { store: pv.store.ready(), ..pv });
            (ok, after, unit)
        },
        Keyword::DumpVars => (dumpvars(input, pv).0, dumpvars(input, pv).1, unit),
        Keyword::Scope => (scope(input, pv).0, scope(input, pv).1, unit),
        Keyword::Var => (var(input, pv).0, var(input, pv).1, unit),
        Keyword::Upscope => (upscope(input, pv).0, upscope(input, pv).1, unit),
        _ => (comment(input, pv).0, comment(input, pv).1, unit),
    }
}

/// How the reading goes on after a statement.
pub enum Flow {
    /// With the next statement
    Next,
    /// Not at all: the reading is over, well or with an error
    Over(bool),
}

/// One statement of a dump: what a keyword begins, a timestamp, which is
/// the count of time in the timescale in force, or a change of value.
/// The end of the input and the first timestamp after the limit end the
/// reading; a timestamp that does not fit 64 bits and any other word are
/// errors.
pub open spec fn step(input: Seq<char>, pv: ParseView, unit: Timestamp, limit: Option<i64>) -> (
    Flow,
    ParseView,
    Timestamp,
) {
    let (t, lexer) = token(input, pv.lexer, Context::Stmt);
    let next = ParseView { lexer, ..pv };
    match t {
        TokenView::Keyword(kw) => {
            let (ok, after, then) = statement(input, next, kw, unit);
            if ok {
                (Flow::Next, after, then)
            } else {
                (Flow::Over(false), after, unit)
            }
        },
        TokenView::Timestamp(count) => match scaled(unit, count as int) {
            Some(at) => (
                if limit is Some && count > limit->0 {
                    Flow::Over(true)
                } else {
                    Flow::Next
                },
                ParseView { store: next.store.with_time(at), ..next },
                unit,
            ),
            None => (Flow::Over(false), next, unit),
        },
        TokenView::Value(v) => {
            let (ok, after) = value_change(input, next, v);
            (
                if ok {
                    Flow::Next
                } else {
                    Flow::Over(false)
                },
                after,
                unit,
            )
        },
        TokenView::ValueIdentifier(v, id) => {
            let (ok, after) = assign(next, id, v);
            (
                if ok {
                    Flow::Next
                } else {
                    Flow::Over(false)
                },
                after,
                unit,
            )
        },
        TokenView::Eof => (Flow::Over(true), next, unit),
        _ => (Flow::Over(false), next, unit),
    }
}

/// The statements of a dump up to its end, or up to the first timestamp
/// after the limit, or up to the first statement that cannot be read.
pub open spec fn file(
    input: Seq<char>,
    pv: ParseView,
    unit: Timestamp,
    limit: Option<i64>,
) -> (bool, ParseView)
    decreases input.len() - pv.lexer.pos, pv.lexer.pending.len(),
{
    let (flow, after, then) = step(input, pv, unit, limit);
    match flow {
        Flow::Next => if further(pv.lexer, after.lexer, input) {
            file(input, after, then, limit)
        } else {
            (false, after)
        },
        Flow::Over(ok) => (ok, after),
    }
}

/// The second reader of words is not behind the first.
pub open spec fn not_behind(a: LexerView, b: LexerView, input: Seq<char>) -> bool {
    (a.pos < b.pos <= input.len()) || (a.pos == b.pos && b.pending.len() <= a.pending.len())
}

/// A reader is not behind after it has handed out a token.
pub proof fn lemma_advance_not_behind(input: Seq<char>, lexer: LexerView)
    requires
        lexer.pos <= input.len(),
    ensures
        not_behind(lexer, advance(input, lexer).1, input),
        advance(input, lexer).0 is Some ==> further(lexer, advance(input, lexer).1, input),
    decreases input.len() - lexer.pos, lexer.pending.len(),
{
    lemma_advance_further(input, lexer);
    if lexer.pending.len() == 0 && lexer.pos < super::lexer::chunk_end(input, lexer.pos as int)
        <= input.len() {
        let e = super::lexer::chunk_end(input, lexer.pos as int);
        let chunk = input.subrange(lexer.pos, e);
        let next = LexerView { buf: chunk, pending: super::lexer::words_from(chunk, 0), pos: e };
        lemma_advance_not_behind(input, next);
    }
}

impl Parser {
    /// Where the reading stands with a store.
    pub open spec fn view(&self, db: &SignalDB) -> ParseView {
        ParseView { lexer: self.lexer.view(), scope: texts(self.scope@), store: db@ }
    }

    /// The reader and the store are consistent, and the store has the
    /// scopes that are open.
    pub open spec fn wf(&self, db: &SignalDB) -> bool {
        &&& self.lexer.wf()
        &&& db.wf()
        &&& db.scope.model().has_path(texts(self.scope@))
    }

    /// The reading of a statement ended as the grammar says: the reader
    /// and the store are where the statement leaves them, and an error
    /// quotes the text that was read last.
    pub open spec fn done(
        &self,
        db: &SignalDB,
        r: Result<(), SyntaxError>,
        expected: (bool, ParseView),
        before: &Parser,
        db0: &SignalDB,
    ) -> bool {
        &&& self.wf(db)
        &&& self.view(db) == expected.1
        &&& self.lexer.input == before.lexer.input
        &&& self.limit == before.limit
        &&& db.kept_aside(db0)
        &&& db0.events_at_instants() ==> db.events_at_instants()
        &&& not_behind(before.lexer.view(), self.lexer.view(), self.lexer.input@)
        &&& match r {
            Ok(()) => expected.0,
            Err(e) => !expected.0 && e.line@ == expected.1.lexer.buf,
        }
    }

    /// Creates a reader of the statements of a text.
    pub fn new(input: &str) -> (r: Parser)
        ensures
            r.lexer.wf(),
            r.lexer.input@ == input@,
            r.lexer.view() == (LexerView { buf: Seq::empty(), pending: Seq::empty(), pos: 0 }),
            r.scope@.len() == 0,
            r.limit is None,
    {
        Parser { lexer: Lexer::new(input), scope: Vec::new(), limit: None }
    }

    /// Sets the count of time after which reading stops.
    pub fn set_limit(&mut self, timestamp: i64)
        ensures
            *final(self) == (Parser { limit: Some(timestamp), ..*old(self) }),
    {
        self.limit = Some(timestamp);
    }

    /// The error that quotes the text that was read last.
    fn syntax_error(&self) -> (r: SyntaxError)
        ensures
            r.line@ == self.lexer.buf@,
    {
        SyntaxError { line: self.lexer.get_current_line() }
    }

    /// Hands out the next token.
    fn next_token(&mut self, ctx: Context) -> (r: Token)
        requires
            old(self).lexer.wf(),
        ensures
            final(self).lexer.wf(),
            final(self).lexer.input == old(self).lexer.input,
            final(self).scope == old(self).scope,
            final(self).limit == old(self).limit,
            r@ == token(old(self).lexer.input@, old(self).lexer.view(), ctx).0,
            final(self).lexer.view() == token(old(self).lexer.input@, old(self).lexer.view(), ctx).1,
            not_behind(old(self).lexer.view(), final(self).lexer.view(), final(self).lexer.input@),
            !(r is Eof) ==> further(
                old(self).lexer.view(),
                final(self).lexer.view(),
                final(self).lexer.input@,
            ),
    {
        proof {
            lemma_advance_not_behind(self.lexer.input@, self.lexer.view());
        }
        self.lexer.pop(ctx)
    }

    /// The names of the open scopes as a path.
    fn scope_path(&self) -> (r: Vec<&str>)
        ensures
            path_names(r@) == texts(self.scope@),
    {
        let mut path: Vec<&str> = Vec::new();
        let mut i: usize = 0;
        while i < self.scope.len()
            invariant
                i <= self.scope.len(),
                path.len() == i,
                forall|k: int| 0 <= k < i ==> path[k]@ == self.scope[k]@,
            decreases self.scope.len() - i,
        {
            path.push(self.scope[i].as_str());
            i += 1;
        }
        assert(path_names(path@) =~= texts(self.scope@));
        path
    }

    /// Reads the words of a comment up to `$end`.
    #[verifier::rlimit(50)]
    pub fn parse_comment(&mut self, db: &mut SignalDB) -> (r: Result<(), SyntaxError>)
        requires
            old(self).wf(old(db)),
        ensures
            final(self).done(
                final(db),
                r,
                comment(old(self).lexer.input@, old(self).view(old(db))),
                old(self),
                old(db),
            ),
    {
        let ghost input = self.lexer.input@;
        loop
            invariant
                self.wf(db),
                *db == *old(db),
                self.lexer.input == old(self).lexer.input,
                self.scope == old(self).scope,
                self.limit == old(self).limit,
                input == self.lexer.input@,
                not_behind(old(self).lexer.view(), self.lexer.view(), input),
                comment(input, self.view(db)) == comment(input, old(self).view(old(db))),
            decreases self.lexer.input.len() - self.lexer.pos, self.lexer.words.len() - self.lexer.next,
        {
            match self.next_token(Context::Comment) {
                Token::Word(_) => {},
                Token::Keyword(Keyword::End) => {
                    return Ok(());
                },
                _ => {
                    return Err(self.syntax_error());
                },
            }
        }
    }

    /// Reads the rest of a `$scope` statement and opens the scope.
    #[verifier::rlimit(50)]
    pub fn parse_scope(&mut self, db: &mut SignalDB) -> (r: Result<(), SyntaxError>)
        requires
            old(self).wf(old(db)),
        ensures
            final(self).done(
                final(db),
                r,
                scope(old(self).lexer.input@, old(self).view(old(db))),
                old(self),
                old(db),
            ),
    {
        match self.next_token(Context::Id) {
            Token::Identifier(_) => {},
            _ => {
                return Err(self.syntax_error());
            },
        }
        let scope_id = match self.next_token(Context::Id) {
            Token::Identifier(scope_id) => scope_id,
            _ => {
                return Err(self.syntax_error());
            },
        };
        match self.next_token(Context::Stmt) {
            Token::Keyword(Keyword::End) => {},
            _ => {
                return Err(self.syntax_error());
            },
        }
        self.scope.push(scope_id);
        assert(texts(self.scope@) =~= texts(old(self).scope@).push(scope_id@));
        let path = self.scope_path();
        db.create_scope(&path);
        Ok(())
    }

    /// Reads the rest of an `$upscope` statement and closes the innermost
    /// scope.
    #[verifier::rlimit(50)]
    pub fn parse_upscope(&mut self, db: &mut SignalDB) -> (r: Result<(), SyntaxError>)
        requires
            old(self).wf(old(db)),
        ensures
            final(self).done(
                final(db),
                r,
                upscope(old(self).lexer.input@, old(self).view(old(db))),
                old(self),
                old(db),
            ),
    {
        match self.next_token(Context::Stmt) {
            Token::Keyword(Keyword::End) => {},
            _ => {
                return Err(self.syntax_error());
            },
        }
        proof {
            if self.scope.len() > 0 {
                crate::signaldb::scope::lemma_shorter_path(
                    db.scope.model(),
                    texts(self.scope@),
                );
            }
        }
        let _ = self.scope.pop();
        proof {
            if old(self).scope.len() > 0 {
                assert(texts(self.scope@) =~= texts(old(self).scope@).drop_last());
            }
        }
        Ok(())
    }

    /// Declares a signal in the innermost open scope.
    pub fn declare_new_var(&mut self, db: &mut SignalDB, signal: Signal)
        requires
            old(self).wf(old(db)),
            signal.history().len() == 0,
            signal.default_value() == ValueView::Literal(
                Seq::new(signal.width as nat, |i: int| crate::signaldb::value::BitValue::Undefined),
                crate::signaldb::value::ValueFormat::Hex,
            ),
        ensures
            final(self).wf(final(db)),
            *final(self) == *old(self),
            final(db).kept_aside(old(db)),
            old(db).events_at_instants() ==> final(db).events_at_instants(),
            final(db)@ == old(db)@.with_signal(
                texts(old(self).scope@),
                signal.id@,
                signal.name@,
                signal.width as nat,
            ),
    {
        let path = self.scope_path();
        let declared = db.declare_signal(&path, signal);
        assert(declared is Ok);
    }

    /// Reads the rest of a `$var` statement and declares the signal.
    #[verifier::rlimit(50)]
    pub fn parse_var(&mut self, db: &mut SignalDB) -> (r: Result<(), SyntaxError>)
        requires
            old(self).wf(old(db)),
        ensures
            final(self).done(
                final(db),
                r,
                var(old(self).lexer.input@, old(self).view(old(db))),
                old(self),
                old(db),
            ),
    {
        match self.next_token(Context::Id) {
            Token::Identifier(_) => {},
            _ => {
                return Err(self.syntax_error());
            },
        }
        let var_width = match self.next_token(Context::Id) {
            Token::Integer(var_width) => var_width,
            _ => {
                return Err(self.syntax_error());
            },
        };
        let var_short_ident = match self.next_token(Context::ShortId) {
            Token::Identifier(var_short_ident) => var_short_ident,
            _ => {
                return Err(self.syntax_error());
            },
        };
        match self.next_token(Context::Id) {
            Token::Identifier(var_ident) => {
                match self.next_token(Context::IdRange) {
                    Token::Range(_, _) => {
                        match self.next_token(Context::Stmt) {
                            Token::Keyword(Keyword::End) => {},
                            _ => {
                                return Err(self.syntax_error());
                            },
                        }
                        self.declare_new_var(
                            db,
                            Signal::new(var_short_ident.as_str(), var_ident.as_str(), var_width),
                        );
                        Ok(())
                    },
                    Token::Keyword(Keyword::End) => {
                        self.declare_new_var(
                            db,
                            Signal::new(var_short_ident.as_str(), var_ident.as_str(), var_width),
                        );
                        Ok(())
                    },
                    _ => Err(self.syntax_error()),
                }
            },
            Token::IdentifierRange(var_ident, _, _) => {
                match self.next_token(Context::Stmt) {
                    Token::Keyword(Keyword::End) => {},
                    _ => {
                        return Err(self.syntax_error());
                    },
                }
                self.declare_new_var(
                    db,
                    Signal::new(var_short_ident.as_str(), var_ident.as_str(), var_width),
                );
                Ok(())
            },
            _ => Err(self.syntax_error()),
        }
    }

    /// Gives a signal a value at the current time.
    fn set_value(&mut self, db: &mut SignalDB, id: &str, v: SignalValue) -> (r: Result<
        (),
        SyntaxError,
    >)
        requires
            old(self).wf(old(db)),
        ensures
            final(self).wf(final(db)),
            *final(self) == *old(self),
            final(db).kept_aside(old(db)),
            old(db).events_at_instants() ==> final(db).events_at_instants(),
            final(self).view(final(db)) == assign(old(self).view(old(db)), id@, v@).1,
            match r {
                Ok(()) => assign(old(self).view(old(db)), id@, v@).0,
                Err(e) => !assign(old(self).view(old(db)), id@, v@).0 && e.line@
                    == old(self).lexer.buf@,
            },
    {
        match db.set_current_value(id, v) {
            Ok(()) => Ok(()),
            Err(_) => Err(self.syntax_error()),
        }
    }

    /// Reads the identifier that follows a value and gives the signal the
    /// value at the current time.
    #[verifier::rlimit(50)]
    pub fn parse_value_change(&mut self, db: &mut SignalDB, new_value: SignalValue) -> (r: Result<
        (),
        SyntaxError,
    >)
        requires
            old(self).wf(old(db)),
        ensures
            final(self).done(
                final(db),
                r,
                value_change(old(self).lexer.input@, old(self).view(old(db)), new_value@),
                old(self),
                old(db),
            ),
    {
        match self.next_token(Context::ShortId) {
            Token::Identifier(ident) => self.set_value(db, ident.as_str(), new_value),
            _ => Err(self.syntax_error()),
        }
    }

    /// Reads the changes of value of a `$dumpvars` statement up to `$end`.
    #[verifier::rlimit(50)]
    pub fn parse_dumpvars(&mut self, db: &mut SignalDB) -> (r: Result<(), SyntaxError>)
        requires
            old(self).wf(old(db)),
        ensures
            final(self).done(
                final(db),
                r,
                dumpvars(old(self).lexer.input@, old(self).view(old(db))),
                old(self),
                old(db),
            ),
    {
        let ghost input = self.lexer.input@;
        loop
            invariant
                self.wf(db),
                db.kept_aside(old(db)),
                old(db).events_at_instants() ==> db.events_at_instants(),
                self.lexer.input == old(self).lexer.input,
                self.limit == old(self).limit,
                input == self.lexer.input@,
                not_behind(old(self).lexer.view(), self.lexer.view(), input),
                dumpvars(input, self.view(db)) == dumpvars(input, old(self).view(old(db))),
            decreases self.lexer.input.len() - self.lexer.pos, self.lexer.words.len() - self.lexer.next,
        {
            match self.next_token(Context::Value) {
                Token::Value(v) => {
                    match self.parse_value_change(db, v) {
                        Ok(()) => {},
                        Err(e) => {
                            return Err(e);
                        },
                    }
                },
                Token::ValueIdentifier(v, i) => {
                    match self.set_value(db, i.as_str(), v) {
                        Ok(()) => {},
                        Err(e) => {
                            return Err(e);
                        },
                    }
                },
                Token::Keyword(Keyword::End) => {
                    db.mark_as_initialized();
                    return Ok(());
                },
                _ => {
                    return Err(self.syntax_error());
                },
            }
        }
    }

    /// Takes a unit of time a number of times, where that fits 64 bits.
    fn scale(unit: Timestamp, count: i128) -> (r: Option<Timestamp>)
        requires
            -0x8000_0000_0000_0000 <= count <= 0x1_0000_0000_0000_0000,
        ensures
            r == scaled(unit, count as int),
    {
        assert(-0x8000_0000_0000_0000 * 0x1_0000_0000_0000_0000 <= unit.value * count
            < 0x8000_0000_0000_0000 * 0x1_0000_0000_0000_0000) by (nonlinear_arith)
            requires
                -0x8000_0000_0000_0000 <= unit.value < 0x8000_0000_0000_0000,
                -0x8000_0000_0000_0000 <= count <= 0x1_0000_0000_0000_0000,
        ;
        let wide: i128 = (unit.value as i128) * count;
        if wide < -0x8000_0000_0000_0000 || wide > 0x7fff_ffff_ffff_ffff {
            None
        } else {
            Some(Timestamp::new(wide as i64, unit.scale))
        }
    }

    /// Reads the rest of a `$timescale` statement; gives the timescale.
    #[verifier::rlimit(50)]
    pub fn parse_timescale(&mut self, db: &mut SignalDB) -> (r: Result<Timestamp, SyntaxError>)
        requires
            old(self).wf(old(db)),
        ensures
            final(self).done(
                final(db),
                match r {
                    Ok(_) => Ok::<(), SyntaxError>(()),
                    Err(e) => Err::<(), SyntaxError>(e),
                },
                (
                    timescale(old(self).lexer.input@, old(self).view(old(db))).0 is Some,
                    timescale(old(self).lexer.input@, old(self).view(old(db))).1,
                ),
                old(self),
                old(db),
            ),
            r matches Ok(ts) ==> timescale(old(self).lexer.input@, old(self).view(old(db))).0
                == Some(ts),
            *final(db) == *old(db),
    {
        match self.next_token(Context::Timescale) {
            Token::Integer(times) => {
                let new_timescale = match self.next_token(Context::Timescale) {
                    Token::Timescale(new_timescale) => new_timescale,
                    _ => {
                        return Err(self.syntax_error());
                    },
                };
                match self.next_token(Context::Timescale) {
                    Token::Keyword(Keyword::End) => {},
                    _ => {
                        return Err(self.syntax_error());
                    },
                }
                match Parser::scale(new_timescale, times as i128) {
                    Some(ts) => Ok(ts),
                    None => Err(self.syntax_error()),
                }
            },
            Token::Timescale(new_timescale) => {
                match self.next_token(Context::Timescale) {
                    Token::Keyword(Keyword::End) => Ok(new_timescale),
                    _ => Err(self.syntax_error()),
                }
            },
            _ => Err(self.syntax_error()),
        }
    }

    /// Reads the statement that a keyword begins; gives the timescale in
    /// force after it.
    #[verifier::rlimit(50)]
    pub fn parse_statement(&mut self, db: &mut SignalDB, kw: Keyword, unit: Timestamp) -> (r: Result<
        Timestamp,
        SyntaxError,
    >)
        requires
            old(self).wf(old(db)),
        ensures
            final(self).done(
                final(db),
                match r {
                    Ok(_) => Ok::<(), SyntaxError>(()),
                    Err(e) => Err::<(), SyntaxError>(e),
                },
                (
                    statement(old(self).lexer.input@, old(self).view(old(db)), kw, unit).0,
                    statement(old(self).lexer.input@, old(self).view(old(db)), kw, unit).1,
                ),
                old(self),
                old(db),
            ),
            r matches Ok(then) ==> then == statement(
                old(self).lexer.input@,
                old(self).view(old(db)),
                kw,
                unit,
            ).2,
    {
        let step = match kw {
            Keyword::Comment | Keyword::Date | Keyword::Version => self.parse_comment(db),
            Keyword::EndDefinitions => {
                db.mark_as_initialized();
                self.parse_comment(db)
            },
            Keyword::DumpVars => self.parse_dumpvars(db),
            Keyword::Scope => self.parse_scope(db),
            Keyword::Var => self.parse_var(db),
            Keyword::Upscope => self.parse_upscope(db),
            Keyword::Timescale => {
                match self.parse_timescale(db) {
                    Ok(ts) => {
                        db.set_timescale(ts);
                        return Ok(ts);
                    },
                    Err(e) => Err(e),
                }
            },
            Keyword::End => Err(self.syntax_error()),
        };
        match step {
            Ok(()) => Ok(unit),
            Err(e) => Err(e),
        }
    }

    /// Reads one statement. Gives the timescale in force after it where
    /// the reading goes on, and nothing where it is over.
    #[verifier::rlimit(50)]
    pub fn parse_step(&mut self, db: &mut SignalDB, unit: Timestamp) -> (r: Result<
        Option<Timestamp>,
        SyntaxError,
    >)
        requires
            old(self).wf(old(db)),
        ensures
            final(self).done(
                final(db),
                match r {
                    Ok(_) => Ok::<(), SyntaxError>(()),
                    Err(e) => Err::<(), SyntaxError>(e),
                },
                (
                    step(old(self).lexer.input@, old(self).view(old(db)), unit, old(self).limit).0
                        != Flow::Over(false),
                    step(old(self).lexer.input@, old(self).view(old(db)), unit, old(self).limit).1,
                ),
                old(self),
                old(db),
            ),
            match r {
                Ok(Some(then)) => step(
                    old(self).lexer.input@,
                    old(self).view(old(db)),
                    unit,
                    old(self).limit,
                ).0 == Flow::Next && then == step(
                    old(self).lexer.input@,
                    old(self).view(old(db)),
                    unit,
                    old(self).limit,
                ).2 && further(
                    old(self).lexer.view(),
                    final(self).lexer.view(),
                    final(self).lexer.input@,
                ),
                Ok(None) => step(
                    old(self).lexer.input@,
                    old(self).view(old(db)),
                    unit,
                    old(self).limit,
                ).0 == Flow::Over(true),
                Err(_) => true,
            },
    {
        match self.next_token(Context::Stmt) {
            Token::Keyword(kw) => {
                match self.parse_statement(db, kw, unit) {
                    Ok(then) => Ok(Some(then)),
                    Err(e) => Err(e),
                }
            },
            Token::Timestamp(v) => {
                let t = match Parser::scale(unit, v as i128) {
                    Some(t) => t,
                    None => {
                        return Err(self.syntax_error());
                    },
                };
                db.set_time(t);
                match self.limit {
                    Some(limit) => {
                        if v > limit {
                            return Ok(None);
                        }
                    },
                    None => {},
                }
                Ok(Some(unit))
            },
            Token::Value(v) => {
                match self.parse_value_change(db, v) {
                    Ok(()) => Ok(Some(unit)),
                    Err(e) => Err(e),
                }
            },
            Token::ValueIdentifier(v, i) => {
                match self.set_value(db, i.as_str(), v) {
                    Ok(()) => Ok(Some(unit)),
                    Err(e) => Err(e),
                }
            },
            Token::Eof => Ok(None),
            _ => Err(self.syntax_error()),
        }
    }

    /// Reads the statements of the dump into the store, up to the end of
    /// the input or to the first timestamp after the limit. The first
    /// statement that cannot be read ends the reading with an error that
    /// quotes the text read last.
    #[verifier::rlimit(50)]
    pub fn parse(&mut self, db: &mut SignalDB) -> (r: Result<(), SyntaxError>)
        requires
            old(self).wf(old(db)),
        ensures
            final(self).done(
                final(db),
                r,
                file(
                    old(self).lexer.input@,
                    old(self).view(old(db)),
                    Timestamp { value: 1, scale: Scale::Picosecond },
                    old(self).limit,
                ),
                old(self),
                old(db),
            ),
    {
        let ghost input = self.lexer.input@;
        let ghost limit = self.limit;
        let mut timescale = Timestamp::new(1, Scale::Picosecond);
        loop
            invariant
                self.wf(db),
                db.kept_aside(old(db)),
                old(db).events_at_instants() ==> db.events_at_instants(),
                self.lexer.input == old(self).lexer.input,
                self.limit == old(self).limit,
                limit == self.limit,
                input == self.lexer.input@,
                not_behind(old(self).lexer.view(), self.lexer.view(), input),
                file(input, self.view(db), timescale, limit) == file(
                    input,
                    old(self).view(old(db)),
                    Timestamp { value: 1, scale: Scale::Picosecond },
                    limit,
                ),
            decreases self.lexer.input.len() - self.lexer.pos, self.lexer.words.len() - self.lexer.next,
        {
            match self.parse_step(db, timescale) {
                Ok(Some(then)) => {
                    timescale = then;
                },
                Ok(None) => {
                    return Ok(());
                },
                Err(e) => {
                    return Err(e);
                },
            }
        }
    }
}

} // verus!
