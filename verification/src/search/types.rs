//! Findings of a search: where an expression holds, and how the findings
//! are summarised and walked.
use super::expr::{Expr, ExprAst, ValueAst, ValueTerm};
use super::grammar::{lemma_transition_text, parsed, transition_text};
use crate::vcd::parser::SyntaxError;
use crate::signaldb::db::{rising, SignalDB, SignalNotFound};
use crate::signaldb::signal::has_event_at;
use crate::signaldb::time::{lemma_factor_ratio, TimeDescr, Timestamp};
use crate::signaldb::value::{SignalValue, ValueView};
use vstd::prelude::*;
use vstd::std_specs::ops::BitOrSpecImpl;
use vstd::std_specs::ops::BitAndSpecImpl;
use std::ops::{BitAnd, BitOr};

verus! {

/// Kind of a match: at an instant only, or for as long as a condition
/// holds.
#[derive(Debug, Copy, Clone, PartialEq, Eq, Structural)]
pub enum ExprType {
    Transition,
    Level,
}

/// Outcome of evaluating an expression at an instant.
#[derive(Debug, Copy, Clone, PartialEq, Eq, Structural)]
pub struct EvalResult {
    pub result: bool,
    pub ty: ExprType,
}

/// Summary of findings within a time period
#[derive(Debug, PartialEq, Eq, Structural)]
pub enum FindingsSummary {
    /// No findings in the time period
    Nothing,
    /// Only one finding in the time period
    Timestamp,
    /// The expression starts to be true during the time period
    RangeBegin,
    /// The expression is true during the time period
    Range,
    /// The expression stops to be true during the time period
    RangeEnd,
    /// Many findings found in the time period
    Complex(usize),
}

impl ExprType {
    /// A transition if either kind is one.
    pub open spec fn joined(self, rhs: ExprType) -> ExprType {
        if self == ExprType::Transition || rhs == ExprType::Transition {
            ExprType::Transition
        } else {
            ExprType::Level
        }
    }
}

impl BitOrSpecImpl for ExprType {
    open spec fn obeys_bitor_spec() -> bool {
        true
    }

    open spec fn bitor_req(self, rhs: ExprType) -> bool {
        true
    }

    open spec fn bitor_spec(self, rhs: ExprType) -> ExprType {
        self.joined(rhs)
    }
}

impl BitOr for ExprType {
    type Output = ExprType;

    /// A transition if either kind is one.
    fn bitor(self, rhs: ExprType) -> (r: ExprType) {
        match (self, rhs) {
            (ExprType::Transition, _) | (_, ExprType::Transition) => ExprType::Transition,
            _ => ExprType::Level,
        }
    }
}

impl BitOrSpecImpl for EvalResult {
    open spec fn obeys_bitor_spec() -> bool {
        true
    }

    open spec fn bitor_req(self, rhs: EvalResult) -> bool {
        true
    }

    open spec fn bitor_spec(self, rhs: EvalResult) -> EvalResult {
        EvalResult {
            result: self.result || rhs.result,
            ty: if self.result && rhs.result {
                self.ty.joined(rhs.ty)
            } else if self.result {
                self.ty
            } else if rhs.result {
                rhs.ty
            } else {
                ExprType::Level
            },
        }
    }
}

impl BitOr for EvalResult {
    type Output = EvalResult;

    /// Either holds. Where only one holds its kind is kept; where both
    /// hold the kinds are combined.
    fn bitor(self, rhs: EvalResult) -> (r: EvalResult) {
        let result = self.result || rhs.result;
        let ty = if result {
            if self.result == rhs.result {
                self.ty | rhs.ty
            } else if self.result {
                self.ty
            } else {
                rhs.ty
            }
        } else {
            ExprType::Level
        };
        EvalResult { result, ty }
    }
}

impl BitAndSpecImpl for EvalResult {
    open spec fn obeys_bitand_spec() -> bool {
        true
    }

    open spec fn bitand_req(self, rhs: EvalResult) -> bool {
        true
    }

    open spec fn bitand_spec(self, rhs: EvalResult) -> EvalResult {
        EvalResult {
            result: self.result && rhs.result,
            ty: if self.result && rhs.result {
                self.ty.joined(rhs.ty)
            } else {
                ExprType::Level
            },
        }
    }
}

impl BitAnd for EvalResult {
    type Output = EvalResult;

    /// Both hold, with the kinds combined; where one does not, the
    /// outcome is a level.
    fn bitand(self, rhs: EvalResult) -> (r: EvalResult) {
        let result = self.result && rhs.result;
        let ty = if result {
            self.ty | rhs.ty
        } else {
            ExprType::Level
        };
        EvalResult { result, ty }
    }
}

/// The instant one unit of its scale before a timestamp.
pub open spec fn tick_before(t: Timestamp) -> Timestamp {
    Timestamp { value: (t.value - 1) as i64, scale: t.scale }
}

/// Steps back by one unit of the timestamp's scale.
pub fn step_back(t: Timestamp) -> (r: Timestamp)
    requires
        t.value > i64::MIN,
    ensures
        r == tick_before(t),
{
    proof {
        lemma_factor_ratio(t.scale, t.scale);
        let ratio = t.scale.factor() / t.scale.factor();
        assert(t.value * ratio == t.value) by (nonlinear_arith)
            requires
                ratio == 1,
        ;
        assert(1 * ratio == 1) by (nonlinear_arith)
            requires
                ratio == 1,
        ;
    }
    t - t.derive(1)
}

/// The finding lies before an instant: it began earlier and is over.
pub open spec fn lies_before(f: TimeDescr, ts: Timestamp) -> bool {
    f.start().femtos() < ts.femtos() && f.finish().femtos() <= ts.femtos()
}

/// The finding is met at an instant: it begins there, or the instant is
/// within its period.
pub open spec fn met_at(f: TimeDescr, ts: Timestamp) -> bool {
    f.start().femtos() == ts.femtos() || f.start().femtos() < ts.femtos() < f.finish().femtos()
}

/// The findings are in the order of time: none ends before it begins,
/// and none begins before an earlier one has ended.
pub open spec fn ordered(fs: Seq<TimeDescr>) -> bool {
    &&& forall|i: int| 0 <= i < fs.len() ==> (#[trigger] fs[i]).start().femtos() <= fs[i].finish().femtos()
    &&& forall|i: int, j: int|
        0 <= i < j < fs.len() ==> (#[trigger] fs[i]).finish().femtos() <= (#[trigger] fs[j]).start().femtos()
}

/// The number of findings that lie before an instant.
pub open spec fn count_passed(fs: Seq<TimeDescr>, ts: Timestamp) -> int
    decreases fs.len(),
{
    if fs.len() == 0 {
        0
    } else {
        count_passed(fs.drop_last(), ts) + if lies_before(fs.last(), ts) {
            1int
        } else {
            0int
        }
    }
}

/// Where an instant falls among the findings: the position of the first
/// finding that does not lie before it, and whether that finding is met
/// at the instant.
pub open spec fn seek(fs: Seq<TimeDescr>, ts: Timestamp) -> (bool, int) {
    let i = count_passed(fs, ts);
    (0 <= i < fs.len() && met_at(fs[i], ts), i)
}

/// The findings that lie before an instant are those before the first
/// one that does not.
pub proof fn lemma_count_passed(fs: Seq<TimeDescr>, ts: Timestamp, i: int)
    requires
        0 <= i <= fs.len(),
        forall|j: int| 0 <= j < i ==> lies_before(#[trigger] fs[j], ts),
        forall|j: int| i <= j < fs.len() ==> !lies_before(#[trigger] fs[j], ts),
    ensures
        count_passed(fs, ts) == i,
    decreases fs.len(),
{
    if fs.len() > 0 {
        let g = fs.drop_last();
        if i == fs.len() {
            assert(lies_before(fs[i - 1], ts));
            lemma_count_passed(g, ts, i - 1);
        } else {
            assert(!lies_before(fs[fs.len() - 1], ts));
            lemma_count_passed(g, ts, i);
        }
    }
}

/// Among ordered findings those that lie before an instant come first.
pub proof fn lemma_passed_split(fs: Seq<TimeDescr>, ts: Timestamp)
    requires
        ordered(fs),
    ensures
        0 <= count_passed(fs, ts) <= fs.len(),
        forall|j: int| 0 <= j < count_passed(fs, ts) ==> lies_before(#[trigger] fs[j], ts),
        forall|j: int| count_passed(fs, ts) <= j < fs.len() ==> !lies_before(#[trigger] fs[j], ts),
    decreases fs.len(),
{
    if fs.len() > 0 {
        let g = fs.drop_last();
        let last = fs.len() - 1;
        assert forall|j: int| 0 <= j < g.len() implies g[j] == fs[j] by {}
        assert(ordered(g)) by {
            assert forall|i: int| 0 <= i < g.len() implies (#[trigger] g[i]).start().femtos()
                <= g[i].finish().femtos() by {
                assert(g[i] == fs[i]);
            }
            assert forall|i: int, j: int| 0 <= i < j < g.len() implies (#[trigger] g[i]).finish().femtos()
                <= (#[trigger] g[j]).start().femtos() by {
                assert(g[i] == fs[i] && g[j] == fs[j]);
            }
        }
        lemma_passed_split(g, ts);
        if lies_before(fs[last], ts) {
            assert forall|j: int| 0 <= j < last implies lies_before(#[trigger] fs[j], ts) by {
                assert(fs[j].finish().femtos() <= fs[last].start().femtos());
                assert(fs[j].start().femtos() <= fs[j].finish().femtos());
            }
            lemma_count_passed(g, ts, last);
        }
    }
}

/// No fewer findings lie before a later instant.
pub proof fn lemma_passed_monotone(fs: Seq<TimeDescr>, a: Timestamp, b: Timestamp)
    requires
        a.femtos() <= b.femtos(),
    ensures
        count_passed(fs, a) <= count_passed(fs, b),
    decreases fs.len(),
{
    if fs.len() > 0 {
        lemma_passed_monotone(fs.drop_last(), a, b);
    }
}

/// What a search has found so far.
pub struct Progress {
    /// The findings, the earliest first
    pub findings: Seq<TimeDescr>,
    /// The instant since which the expression holds, while it does
    pub current_period: Option<Timestamp>,
    /// The instant that was examined last, while the search goes on
    pub cursor: Option<Timestamp>,
    /// The latest instant that was examined
    pub latest: Timestamp,
}

impl Progress {
    /// The findings are ordered and none reaches beyond the instant
    /// examined last; a period that is still open began after the last
    /// finding and not after that instant.
    pub open spec fn wf(self) -> bool {
        &&& ordered(self.findings)
        &&& forall|i: int|
            0 <= i < self.findings.len() ==> (#[trigger] self.findings[i]).finish().femtos()
                <= self.latest.femtos()
        &&& self.current_period matches Some(p) ==> {
            &&& p.femtos() <= self.latest.femtos()
            &&& forall|i: int|
                0 <= i < self.findings.len() ==> (#[trigger] self.findings[i]).finish().femtos()
                    <= p.femtos()
        }
        &&& self.cursor matches Some(c) ==> c == self.latest
    }

    /// The state of a search that has examined nothing yet.
    pub open spec fn start() -> Progress {
        Progress {
            findings: Seq::empty(),
            current_period: None,
            cursor: Some(Timestamp { value: 0, scale: crate::signaldb::time::Scale::Second }),
            latest: Timestamp { value: 0, scale: crate::signaldb::time::Scale::Second },
        }
    }

    /// The state after the outcome of evaluating the expression at an
    /// instant is taken in. An instant before the latest one examined is
    /// passed over. A true transition outside a period is a finding of
    /// its own; a true level outside a period opens one; a false outcome
    /// closes the open period.
    pub open spec fn step(self, t: Timestamp, r: EvalResult) -> Progress {
        if t.femtos() < self.latest.femtos() {
            self
        } else if r.result && self.current_period is None && r.ty == ExprType::Transition {
            Progress {
                findings: self.findings.push(TimeDescr::Point(t)),
                current_period: None,
                cursor: Some(t),
                latest: t,
            }
        } else if r.result && self.current_period is None {
            Progress {
                findings: self.findings,
                current_period: Some(t),
                cursor: Some(t),
                latest: t,
            }
        } else if !r.result && self.current_period is Some {
            Progress {
                findings: self.findings.push(TimeDescr::Period(self.current_period->0, t)),
                current_period: None,
                cursor: Some(t),
                latest: t,
            }
        } else {
            Progress {
                findings: self.findings,
                current_period: self.current_period,
                cursor: Some(t),
                latest: t,
            }
        }
    }

    /// The state after the search is declared complete.
    pub open spec fn finished(self) -> Progress {
        Progress { cursor: None, ..self }
    }

    /// The summary of the findings in the window from `begin` to `end`.
    pub open spec fn summary(self, begin: Timestamp, end: Timestamp) -> FindingsSummary {
        let fs = self.findings;
        if self.current_period is Some && begin.femtos() <= self.current_period->0.femtos()
            < end.femtos() {
            FindingsSummary::RangeBegin
        } else if self.current_period is Some && self.current_period->0.femtos() <= begin.femtos()
            && (self.cursor is Some ==> end.femtos() <= self.cursor->0.femtos()) {
            FindingsSummary::Range
        } else {
            let (b_met, bi) = seek(fs, tick_before(begin));
            let (e_met, ei) = seek(fs, tick_before(end));
            if !b_met && !e_met {
                if bi >= ei {
                    FindingsSummary::Nothing
                } else if ei - bi == 1 {
                    if fs[bi] is Period {
                        FindingsSummary::Complex(1)
                    } else {
                        FindingsSummary::Timestamp
                    }
                } else {
                    FindingsSummary::Complex((ei - bi) as usize)
                }
            } else if b_met && !e_met {
                if fs[bi] is Point {
                    FindingsSummary::Nothing
                } else {
                    FindingsSummary::RangeEnd
                }
            } else if !b_met && e_met {
                if fs[ei] is Period {
                    if fs[ei].start().femtos() == end.femtos() {
                        FindingsSummary::Nothing
                    } else if fs[ei].finish().femtos() < end.femtos() {
                        FindingsSummary::RangeEnd
                    } else {
                        FindingsSummary::RangeBegin
                    }
                } else {
                    FindingsSummary::Timestamp
                }
            } else {
                if fs[bi] is Period && fs[bi].start().femtos() == begin.femtos() {
                    FindingsSummary::RangeBegin
                } else if fs[bi] is Period && ei == bi {
                    FindingsSummary::Range
                } else if ei < bi {
                    FindingsSummary::Nothing
                } else {
                    FindingsSummary::Complex((ei - bi) as usize)
                }
            }
        }
    }

    /// The position of the finding that follows an instant: after the
    /// finding met at the instant, or the first finding that does not lie
    /// before it.
    pub open spec fn next_index(self, from: Timestamp) -> int {
        let (met, i) = seek(self.findings, from);
        if met {
            i + 1
        } else {
            i
        }
    }

    /// The beginning of the finding that follows an instant; past the
    /// last finding, the beginning of the open period if that is later
    /// than the instant.
    pub open spec fn next_finding(self, from: Timestamp) -> Option<Timestamp> {
        let index = self.next_index(from);
        if 0 <= index < self.findings.len() {
            Some(self.findings[index].start())
        } else if self.current_period is Some && self.current_period->0.femtos() > from.femtos() {
            self.current_period
        } else {
            None
        }
    }

    /// The end of the finding that follows an instant.
    pub open spec fn end_of_next_finding(self, from: Timestamp) -> Option<Timestamp> {
        let index = self.next_index(from);
        if 0 <= index < self.findings.len() {
            Some(self.findings[index].finish())
        } else {
            None
        }
    }

    /// The beginning of the finding met one unit before an instant, else
    /// of the last finding that lies before it, else of the first
    /// finding; without findings, the beginning of the open period if
    /// that is earlier than the instant.
    pub open spec fn previous_finding(self, from: Timestamp) -> Option<Timestamp> {
        let (met, i) = seek(self.findings, tick_before(from));
        let index = if met || i == 0 {
            i
        } else {
            i - 1
        };
        if 0 <= index < self.findings.len() {
            Some(self.findings[index].start())
        } else if self.current_period is Some && self.current_period->0.femtos() < from.femtos() {
            self.current_period
        } else {
            None
        }
    }
}

/// A search expression and what was found for it.
pub struct Search {
    pub findings: Vec<TimeDescr>,
    pub expr: ExprAst,
    pub current_period: Option<Timestamp>,
    pub cursor: Option<Timestamp>,
    /// The latest instant that was examined; earlier instants are passed
    /// over from then on.
    pub latest: Timestamp,
}

impl Search {
    /// Creates a search for an expression given as text; nothing is
    /// examined yet.
    pub fn new(expr: &str) -> (r: Result<Search, SyntaxError>)
        ensures
            match parsed(expr@) {
                Some(e) => r matches Ok(s) && s.expr@ == e && s.progress() == Progress::start()
                    && s.wf(),
                None => r matches Err(err) && err.line@ == expr@,
            },
    {
        match ExprAst::from_str(expr) {
            Ok(ast) => {
                let s = Search {
                    expr: ast,
                    findings: Vec::new(),
                    current_period: None,
                    cursor: Some(Timestamp::origin()),
                    latest: Timestamp::origin(),
                };
                assert(s.progress().findings =~= Progress::start().findings);
                Ok(s)
            },
            Err(e) => Err(e),
        }
    }

    /// What the search has found so far.
    pub open spec fn progress(&self) -> Progress {
        Progress {
            findings: self.findings@,
            current_period: self.current_period,
            cursor: self.cursor,
            latest: self.latest,
        }
    }

    /// The findings of the search are in order.
    pub open spec fn wf(&self) -> bool {
        self.progress().wf()
    }

    /// Takes in the outcome of evaluating the expression at an instant.
    pub fn record(&mut self, timestamp: Timestamp, res: EvalResult)
        requires
            old(self).wf(),
        ensures
            final(self).wf(),
            final(self).progress() == old(self).progress().step(timestamp, res),
            final(self).expr == old(self).expr,
    {
        if timestamp.earlier_than(&self.latest) {
            return ;
        }
        let ghost before = self.progress();
        if res.result {
            if self.current_period.is_none() {
                match res.ty {
                    ExprType::Transition => {
                        self.findings.push(TimeDescr::Point(timestamp));
                    },
                    ExprType::Level => {
                        self.current_period = Some(timestamp);
                    },
                }
            }
        } else {
            match self.current_period {
                Some(begin) => {
                    self.findings.push(TimeDescr::Period(begin, timestamp));
                    self.current_period = None;
                },
                None => {},
            }
        }
        self.cursor = Some(timestamp);
        self.latest = timestamp;
        proof {
            let after = self.progress();
            assert(after == before.step(timestamp, res));
            lemma_step_keeps_wf(before, timestamp, res);
        }
    }

    /// Declares the search complete: no instant is being examined any
    /// more, and a period that is still open stays open.
    pub fn finish(&mut self)
        requires
            old(self).wf(),
        ensures
            final(self).wf(),
            final(self).progress() == old(self).progress().finished(),
            final(self).expr == old(self).expr,
    {
        self.cursor = None
    }

    /// Where an instant falls among the findings: `Ok` with the position
    /// of the first finding met at the instant, else `Err` with the
    /// position of the first finding that does not lie before it.
    pub fn search_finding(&self, timestamp: Timestamp) -> (r: Result<usize, usize>)
        requires
            self.wf(),
        ensures
            r == (if seek(self.findings@, timestamp).0 {
                Ok::<usize, usize>(seek(self.findings@, timestamp).1 as usize)
            } else {
                Err::<usize, usize>(seek(self.findings@, timestamp).1 as usize)
            }),
            0 <= seek(self.findings@, timestamp).1 <= self.findings.len(),
    {
        let ghost fs = self.findings@;
        let mut lo: usize = 0;
        let mut hi: usize = self.findings.len();
        while lo < hi
            invariant
                fs == self.findings@,
                ordered(fs),
                lo <= hi <= fs.len(),
                forall|j: int| 0 <= j < lo ==> lies_before(#[trigger] fs[j], timestamp),
                forall|j: int| hi <= j < fs.len() ==> !lies_before(#[trigger] fs[j], timestamp),
            decreases hi - lo,
        {
            let mid = lo + (hi - lo) / 2;
            let f = &self.findings[mid];
            let passed = f.begin().earlier_than(&timestamp) && f.end().not_after(&timestamp);
            assert(passed == lies_before(fs[mid as int], timestamp));
            if passed {
                assert forall|j: int| 0 <= j < mid + 1 implies lies_before(
                    #[trigger] fs[j],
                    timestamp,
                ) by {
                    if j < mid {
                        assert(fs[j].finish().femtos() <= fs[mid as int].start().femtos());
                        assert(fs[j].start().femtos() <= fs[j].finish().femtos());
                    }
                }
                lo = mid + 1;
            } else {
                assert forall|j: int| mid <= j < fs.len() implies !lies_before(
                    #[trigger] fs[j],
                    timestamp,
                ) by {
                    if j > mid {
                        assert(fs[mid as int].finish().femtos() <= fs[j].start().femtos());
                        assert(fs[mid as int].start().femtos() <= fs[mid as int].finish().femtos());
                    }
                }
                hi = mid;
            }
        }
        proof {
            lemma_count_passed(fs, timestamp, lo as int);
        }
        if lo < self.findings.len() {
            let f = &self.findings[lo];
            let begin = f.begin();
            let met = begin.same_instant(&timestamp) || (begin.earlier_than(&timestamp)
                && timestamp.earlier_than(&f.end()));
            if met {
                return Ok(lo);
            }
        }
        Err(lo)
    }

    /// Summarises the findings in the window from `begin` to `end`. The
    /// findings are looked up one tick before each of the two, in its own
    /// scale; where the second look-up comes out before the first and a
    /// number of findings would be due, the window holds nothing.
    pub fn findings_between(&self, begin: Timestamp, end: Timestamp) -> (r: FindingsSummary)
        requires
            self.wf(),
            begin.value > i64::MIN,
            end.value > i64::MIN,
        ensures
            r == self.progress().summary(begin, end),
    {
        match self.current_period {
            Some(current_period) => {
                if begin.not_after(&current_period) && current_period.earlier_than(&end) {
                    return FindingsSummary::RangeBegin;
                }
                match self.cursor {
                    Some(cursor) => {
                        if current_period.not_after(&begin) && end.not_after(&cursor) {
                            return FindingsSummary::Range;
                        }
                    },
                    None => {
                        if current_period.not_after(&begin) {
                            return FindingsSummary::Range;
                        }
                    },
                }
            },
            None => {},
        }
        let seek_begin = self.search_finding(step_back(begin));
        let seek_end = self.search_finding(step_back(end));
        match (seek_begin, seek_end) {
            (Err(bi), Err(ei)) => {
                if bi >= ei {
                    FindingsSummary::Nothing
                } else if ei - bi == 1 {
                    match self.findings[bi] {
                        TimeDescr::Period(_, _) => FindingsSummary::Complex(1),
                        TimeDescr::Point(_) => FindingsSummary::Timestamp,
                    }
                } else {
                    FindingsSummary::Complex(ei - bi)
                }
            },
            (Ok(bi), Err(_)) => match self.findings[bi] {
                TimeDescr::Point(_) => FindingsSummary::Nothing,
                _ => FindingsSummary::RangeEnd,
            },
            (Err(_), Ok(ei)) => match self.findings[ei] {
                TimeDescr::Period(b, e) => {
                    if b.same_instant(&end) {
                        FindingsSummary::Nothing
                    } else if e.earlier_than(&end) {
                        FindingsSummary::RangeEnd
                    } else {
                        FindingsSummary::RangeBegin
                    }
                },
                TimeDescr::Point(_) => FindingsSummary::Timestamp,
            },
            (Ok(bi), Ok(ei)) => match self.findings[bi] {
                TimeDescr::Period(b, _) => {
                    if b.same_instant(&begin) {
                        FindingsSummary::RangeBegin
                    } else if ei == bi {
                        FindingsSummary::Range
                    } else if ei < bi {
                        FindingsSummary::Nothing
                    } else {
                        FindingsSummary::Complex(ei - bi)
                    }
                },
                _ => if ei < bi {
                    FindingsSummary::Nothing
                } else {
                    FindingsSummary::Complex(ei - bi)
                },
            },
        }
    }

    /// Gets the beginning of the finding that follows an instant.
    pub fn get_next_finding(&self, from: Timestamp) -> (r: Option<Timestamp>)
        requires
            self.wf(),
        ensures
            r == self.progress().next_finding(from),
    {
        let index = match self.search_finding(from) {
            Ok(index) => index + 1,
            Err(index) => index,
        };
        if index < self.findings.len() {
            Some(self.findings[index].begin())
        } else {
            match self.current_period {
                Some(current_period) => {
                    if from.earlier_than(&current_period) {
                        Some(current_period)
                    } else {
                        None
                    }
                },
                None => None,
            }
        }
    }

    /// Gets the end of the finding that follows an instant.
    pub fn get_end_of_next_finding(&self, from: Timestamp) -> (r: Option<Timestamp>)
        requires
            self.wf(),
        ensures
            r == self.progress().end_of_next_finding(from),
    {
        let index = match self.search_finding(from) {
            Ok(index) => index + 1,
            Err(index) => index,
        };
        if index < self.findings.len() {
            Some(self.findings[index].end())
        } else {
            None
        }
    }

    /// Gets the beginning of the finding that precedes an instant.
    pub fn get_previous_finding(&self, from: Timestamp) -> (r: Option<Timestamp>)
        requires
            self.wf(),
            from.value > i64::MIN,
        ensures
            r == self.progress().previous_finding(from),
    {
        let index = match self.search_finding(step_back(from)) {
            Ok(index) => index,
            Err(index) => {
                if index > 0 {
                    index - 1
                } else {
                    index
                }
            },
        };
        if index < self.findings.len() {
            Some(self.findings[index].begin())
        } else {
            match self.current_period {
                Some(current_period) => {
                    if current_period.earlier_than(&from) {
                        Some(current_period)
                    } else {
                        None
                    }
                },
                None => None,
            }
        }
    }

    /// Gets the beginning of the first finding.
    pub fn get_first_finding(&self) -> (r: Option<Timestamp>)
        ensures
            r == if self.findings@.len() > 0 {
                Some(self.findings@.first().start())
            } else {
                None
            },
    {
        if self.findings.len() > 0 {
            Some(self.findings[0].begin())
        } else {
            None
        }
    }

    /// Gets the end of the last finding.
    pub fn get_last_finding(&self) -> (r: Option<Timestamp>)
        ensures
            r == if self.findings@.len() > 0 {
                Some(self.findings@.last().finish())
            } else {
                None
            },
    {
        if self.findings.len() > 0 {
            Some(self.findings[self.findings.len() - 1].end())
        } else {
            None
        }
    }
}

/// Taking in an outcome keeps the findings in order.
pub proof fn lemma_step_keeps_wf(p: Progress, t: Timestamp, r: EvalResult)
    requires
        p.wf(),
    ensures
        p.step(t, r).wf(),
{
    let q = p.step(t, r);
    if t.femtos() >= p.latest.femtos() {
        assert forall|i: int| 0 <= i < q.findings.len() implies (#[trigger] q.findings[i]).start().femtos()
            <= q.findings[i].finish().femtos() && q.findings[i].finish().femtos()
            <= q.latest.femtos() by {
            if i < p.findings.len() {
                assert(q.findings[i] == p.findings[i]);
            }
        }
        assert forall|i: int, j: int| 0 <= i < j < q.findings.len() implies (
        #[trigger] q.findings[i]).finish().femtos() <= (#[trigger] q.findings[j]).start().femtos() by {
            assert(q.findings[i] == p.findings[i]);
            if j < p.findings.len() {
                assert(q.findings[j] == p.findings[j]);
            }
        }
        if q.current_period is Some {
            assert forall|i: int| 0 <= i < q.findings.len() implies (#[trigger] q.findings[i]).finish().femtos()
                <= q.current_period->0.femtos() by {
                assert(q.findings[i] == p.findings[i]);
            }
        }
    }
}

impl Progress {
    /// A finding or the open period begins at the instant.
    pub open spec fn begins_at(self, t: Timestamp) -> bool {
        ||| exists|i: int| 0 <= i < self.findings.len() && (#[trigger] self.findings[i]).start() == t
        ||| self.current_period == Some(t)
    }
}

/// The finding after an instant begins at the earliest beginning that is
/// strictly later than the instant, and there is none where no beginning
/// is later. This holds where no two findings begin at the instant
/// itself.
pub proof fn lemma_next_finding_is_least(p: Progress, from: Timestamp)
    requires
        p.wf(),
        forall|i: int, j: int|
            0 <= i < j < p.findings.len() ==> !((#[trigger] p.findings[i]).start().femtos()
                == from.femtos() && (#[trigger] p.findings[j]).start().femtos() == from.femtos()),
    ensures
        match p.next_finding(from) {
            Some(x) => {
                &&& x.femtos() > from.femtos()
                &&& p.begins_at(x)
                &&& forall|y: Timestamp|
                    p.begins_at(y) && y.femtos() > from.femtos() ==> x.femtos() <= y.femtos()
            },
            None => forall|y: Timestamp| p.begins_at(y) ==> y.femtos() <= from.femtos(),
        },
{
    let fs = p.findings;
    lemma_passed_split(fs, from);
    let (met, i) = seek(fs, from);
    let index = p.next_index(from);
    // Every finding before `index` begins at `from` or earlier.
    assert forall|j: int| 0 <= j < index && j < fs.len() implies (#[trigger] fs[j]).start().femtos()
        <= from.femtos() by {
        if j < i {
            assert(lies_before(fs[j], from));
        }
    }
    // Every finding from `index` on begins later, and not before the one
    // at `index`.
    assert forall|j: int| index <= j < fs.len() implies (#[trigger] fs[j]).start().femtos()
        > from.femtos() && fs[index].start().femtos() <= fs[j].start().femtos() by {
        if met {
            assert(fs[i].finish().femtos() <= fs[j].start().femtos());
            assert(fs[i].start().femtos() <= fs[i].finish().femtos());
        } else {
            assert(!lies_before(fs[i], from));
            if j > i {
                assert(fs[i].finish().femtos() <= fs[j].start().femtos());
                assert(fs[i].start().femtos() <= fs[i].finish().femtos());
            }
        }
        if j > index {
            assert(fs[index].finish().femtos() <= fs[j].start().femtos());
            assert(fs[index].start().femtos() <= fs[index].finish().femtos());
        }
    }
    match p.next_finding(from) {
        Some(x) => {
            if index < fs.len() {
                assert(fs[index].start() == x);
                assert forall|y: Timestamp|
                    p.begins_at(y) && y.femtos() > from.femtos() implies x.femtos()
                    <= y.femtos() by {
                    if p.current_period == Some(y) {
                        assert(fs[index].finish().femtos() <= y.femtos());
                        assert(fs[index].start().femtos() <= fs[index].finish().femtos());
                    } else {
                        let j = choose|j: int| 0 <= j < fs.len() && (#[trigger] fs[j]).start() == y;
                        assert(j >= index);
                    }
                }
            } else {
                assert forall|y: Timestamp|
                    p.begins_at(y) && y.femtos() > from.femtos() implies x.femtos()
                    <= y.femtos() by {
                    if p.current_period != Some(y) {
                        let j = choose|j: int| 0 <= j < fs.len() && (#[trigger] fs[j]).start() == y;
                        assert(fs[j].start().femtos() <= from.femtos());
                    }
                }
            }
        },
        None => {
            assert forall|y: Timestamp| p.begins_at(y) implies y.femtos() <= from.femtos() by {
                if p.current_period != Some(y) {
                    let j = choose|j: int| 0 <= j < fs.len() && (#[trigger] fs[j]).start() == y;
                    assert(fs[j].start().femtos() <= from.femtos());
                }
            }
        },
    }
}

/// The value that the right-hand side of a comparison has at an instant,
/// or the identifier of the signal that the store does not have.
pub open spec fn eval_value(v: ValueTerm, db: &SignalDB, t: Timestamp) -> Result<
    ValueView,
    Seq<char>,
> {
    match v {
        ValueTerm::Literal(x) => Ok(x),
        ValueTerm::Id(id) => match db.signal_of(id) {
            Some(s) => Ok(s.value_at_spec(t)),
            None => Err(id),
        },
    }
}

/// The outcome of an expression at an instant, or the identifier of the
/// first signal met in the evaluation that the store does not have.
///
/// A comparison with a value and the two time gates are levels; a
/// transition is one. The right-hand side of a transition is looked at
/// only where the signal has an event. `and` and `or` stop at the left
/// operand where it decides. A negation keeps the kind of its operand
/// where it holds and is a level where it does not.
pub open spec fn eval(e: Expr, db: &SignalDB, t: Timestamp) -> Result<EvalResult, Seq<char>>
    decreases e,
{
    match e {
        Expr::Equal(id, v) => match db.signal_of(id) {
            None => Err(id),
            Some(s) => match eval_value(v, db, t) {
                Err(missing) => Err(missing),
                Ok(value) => Ok(
                    EvalResult { result: s.value_at_spec(t).same(value), ty: ExprType::Level },
                ),
            },
        },
        Expr::Transition(id, v) => match db.signal_of(id) {
            None => Err(id),
            Some(s) => if has_event_at(s.history(), t) {
                match eval_value(v, db, t) {
                    Err(missing) => Err(missing),
                    Ok(value) => Ok(
                        EvalResult {
                            result: s.value_at_spec(t).same(value),
                            ty: ExprType::Transition,
                        },
                    ),
                }
            } else {
                Ok(EvalResult { result: false, ty: ExprType::Transition })
            },
        },
        Expr::AnyTransition(id) => match db.signal_of(id) {
            None => Err(id),
            Some(s) => Ok(
                EvalResult { result: has_event_at(s.history(), t), ty: ExprType::Transition },
            ),
        },
        Expr::And(l, r) => match eval(*l, db, t) {
            Err(missing) => Err(missing),
            Ok(a) => if !a.result {
                Ok(a)
            } else {
                match eval(*r, db, t) {
                    Err(missing) => Err(missing),
                    Ok(b) => Ok(EvalResult { result: b.result, ty: a.ty.joined(b.ty) }),
                }
            },
        },
        Expr::Or(l, r) => match eval(*l, db, t) {
            Err(missing) => Err(missing),
            Ok(a) => if a.result {
                Ok(a)
            } else {
                match eval(*r, db, t) {
                    Err(missing) => Err(missing),
                    Ok(b) => Ok(
                        EvalResult {
                            result: b.result,
                            ty: if b.result {
                                b.ty
                            } else {
                                ExprType::Level
                            },
                        },
                    ),
                }
            },
        },
        Expr::Not(inner) => match eval(*inner, db, t) {
            Err(missing) => Err(missing),
            Ok(a) => Ok(
                EvalResult {
                    result: !a.result,
                    ty: if !a.result {
                        a.ty
                    } else {
                        ExprType::Level
                    },
                },
            ),
        },
        Expr::After(n) => Ok(
            EvalResult { result: t.femtos() > n * t.scale.factor(), ty: ExprType::Level },
        ),
        Expr::Before(n) => Ok(
            EvalResult { result: t.femtos() < n * t.scale.factor(), ty: ExprType::Level },
        ),
    }
}

/// The state of a search after the instants of a list are examined in
/// turn, and the identifier of the missing signal at which the
/// examination stopped, if it did.
pub open spec fn scan(p: Progress, e: Expr, db: &SignalDB, ts: Seq<Timestamp>) -> (
    Progress,
    Option<Seq<char>>,
)
    decreases ts.len(),
{
    if ts.len() == 0 {
        (p, None)
    } else if ts[0].femtos() < p.latest.femtos() {
        scan(p, e, db, ts.skip(1))
    } else {
        match eval(e, db, ts[0]) {
            Err(missing) => (p, Some(missing)),
            Ok(r) => scan(p.step(ts[0], r), e, db, ts.skip(1)),
        }
    }
}

/// Whether an exec outcome of an evaluation is the one that the
/// expression has.
pub open spec fn agrees<T>(r: Result<T, SignalNotFound>, expected: Result<T, Seq<char>>) -> bool {
    match expected {
        Ok(x) => r == Ok::<T, SignalNotFound>(x),
        Err(id) => r matches Err(e) && e.signal_id@ == id,
    }
}

impl Search {
    /// Evaluates the right-hand side of a comparison at an instant.
    pub fn eval_value_at(&self, value: &ValueAst, signaldb: &SignalDB, timestamp: Timestamp) -> (r:
        Result<SignalValue, SignalNotFound>)
        requires
            signaldb.wf(),
        ensures
            match eval_value(value@, signaldb, timestamp) {
                Ok(x) => r matches Ok(v) && v@ == x,
                Err(id) => r matches Err(e) && e.signal_id@ == id,
            },
    {
        match value {
            ValueAst::Literal(v) => Ok(v.clone()),
            ValueAst::Id(id) => signaldb.value_at(id.as_str(), timestamp),
        }
    }

    /// Evaluates an expression at an instant.
    pub fn eval_at(&self, expr: &ExprAst, signaldb: &SignalDB, timestamp: Timestamp) -> (r: Result<
        EvalResult,
        SignalNotFound,
    >)
        requires
            signaldb.wf(),
        ensures
            agrees(r, eval(expr@, signaldb, timestamp)),
        decreases expr,
    {
        match expr {
            ExprAst::Equal(id, v) => {
                let value = match signaldb.value_at(id.as_str(), timestamp) {
                    Ok(value) => value,
                    Err(e) => {
                        return Err(e);
                    },
                };
                let other = match self.eval_value_at(v, signaldb, timestamp) {
                    Ok(other) => other,
                    Err(e) => {
                        return Err(e);
                    },
                };
                Ok(EvalResult { result: value.same_as(&other), ty: ExprType::Level })
            },
            ExprAst::Transition(id, v) => {
                let event = match signaldb.event_at(id.as_str(), timestamp) {
                    Ok(event) => event,
                    Err(e) => {
                        return Err(e);
                    },
                };
                match event {
                    Some(evt) => {
                        let other = match self.eval_value_at(v, signaldb, timestamp) {
                            Ok(other) => other,
                            Err(e) => {
                                return Err(e);
                            },
                        };
                        Ok(EvalResult { result: evt.same_as(&other), ty: ExprType::Transition })
                    },
                    None => Ok(EvalResult { result: false, ty: ExprType::Transition }),
                }
            },
            ExprAst::AnyTransition(id) => {
                match signaldb.event_at(id.as_str(), timestamp) {
                    Ok(event) => Ok(
                        EvalResult { result: event.is_some(), ty: ExprType::Transition },
                    ),
                    Err(e) => Err(e),
                }
            },
            ExprAst::And(le, re) => {
                let ler = match self.eval_at(le, signaldb, timestamp) {
                    Ok(ler) => ler,
                    Err(e) => {
                        return Err(e);
                    },
                };
                if !ler.result {
                    Ok(ler)
                } else {
                    match self.eval_at(re, signaldb, timestamp) {
                        Ok(rer) => Ok(
                            EvalResult { result: ler.result && rer.result, ty: ler.ty | rer.ty },
                        ),
                        Err(e) => Err(e),
                    }
                }
            },
            ExprAst::Or(le, re) => {
                let ler = match self.eval_at(le, signaldb, timestamp) {
                    Ok(ler) => ler,
                    Err(e) => {
                        return Err(e);
                    },
                };
                if ler.result {
                    Ok(ler)
                } else {
                    match self.eval_at(re, signaldb, timestamp) {
                        Ok(rer) => Ok(ler | rer),
                        Err(e) => Err(e),
                    }
                }
            },
            ExprAst::Not(e) => {
                match self.eval_at(e, signaldb, timestamp) {
                    Ok(er) => {
                        let result = !er.result;
                        let ty = if result {
                            er.ty
                        } else {
                            ExprType::Level
                        };
                        Ok(EvalResult { result, ty })
                    },
                    Err(e) => Err(e),
                }
            },
            ExprAst::After(t) => Ok(
                EvalResult {
                    result: timestamp.derive(*t).earlier_than(&timestamp),
                    ty: ExprType::Level,
                },
            ),
            ExprAst::Before(t) => Ok(
                EvalResult {
                    result: timestamp.earlier_than(&timestamp.derive(*t)),
                    ty: ExprType::Level,
                },
            ),
        }
    }

    /// Examines one instant: evaluates the expression there and takes the
    /// outcome in. An instant before the latest one examined is passed
    /// over; where a signal of the expression is missing nothing changes.
    pub fn search_at(&mut self, signaldb: &SignalDB, timestamp: Timestamp) -> (r: Result<
        (),
        SignalNotFound,
    >)
        requires
            old(self).wf(),
            signaldb.wf(),
        ensures
            final(self).wf(),
            final(self).expr == old(self).expr,
            timestamp.femtos() < old(self).latest.femtos() ==> r is Ok && final(self).progress()
                == old(self).progress(),
            timestamp.femtos() >= old(self).latest.femtos() ==> match eval(
                old(self).expr@,
                signaldb,
                timestamp,
            ) {
                Ok(res) => r is Ok && final(self).progress() == old(self).progress().step(
                    timestamp,
                    res,
                ),
                Err(id) => (r matches Err(e) && e.signal_id@ == id) && final(self).progress() == old(
                    self,
                ).progress(),
            },
    {
        if timestamp.earlier_than(&self.latest) {
            return Ok(());
        }
        let res = match self.eval_at(&self.expr, signaldb, timestamp) {
            Ok(res) => res,
            Err(e) => {
                return Err(e);
            },
        };
        self.record(timestamp, res);
        Ok(())
    }

    /// Examines every instant of the store from the first one on, and
    /// declares the search complete. Where a signal of the expression is
    /// missing the search stops at that instant.
    pub fn search_all(&mut self, signaldb: &SignalDB) -> (r: Result<(), SignalNotFound>)
        requires
            signaldb.wf(),
        ensures
            final(self).wf(),
            final(self).expr == old(self).expr,
            match scan(Progress::start(), old(self).expr@, signaldb, signaldb.timestamps@).1 {
                None => r is Ok && final(self).progress() == scan(
                    Progress::start(),
                    old(self).expr@,
                    signaldb,
                    signaldb.timestamps@,
                ).0.finished(),
                Some(id) => (r matches Err(e) && e.signal_id@ == id) && final(self).progress()
                    == scan(Progress::start(), old(self).expr@, signaldb, signaldb.timestamps@).0,
            },
    {
        self.findings.clear();
        self.current_period = None;
        self.cursor = Some(Timestamp::origin());
        self.latest = Timestamp::origin();
        let ghost ts = signaldb.timestamps@;
        let ghost e = self.expr@;
        assert(self.progress() == Progress::start());
        assert(ts.skip(0) == ts);
        let mut i: usize = 0;
        while i < signaldb.timestamps.len()
            invariant
                i <= signaldb.timestamps.len(),
                ts == signaldb.timestamps@,
                signaldb.wf(),
                self.wf(),
                self.expr == old(self).expr,
                e == self.expr@,
                scan(Progress::start(), e, signaldb, ts) == scan(
                    self.progress(),
                    e,
                    signaldb,
                    ts.skip(i as int),
                ),
            decreases signaldb.timestamps.len() - i,
        {
            let timestamp = signaldb.timestamps[i];
            proof {
                assert(ts.skip(i as int)[0] == timestamp);
                assert(ts.skip(i as int).skip(1) == ts.skip(i + 1));
            }
            match self.search_at(signaldb, timestamp) {
                Ok(()) => {},
                Err(err) => {
                    return Err(err);
                },
            }
            i += 1;
        }
        self.finish();
        Ok(())
    }

    /// Appends the findings, each on a line of its own.
    pub fn write_findings(&self, out: &mut Vec<char>)
        ensures
            final(out)@ == old(out)@ + findings_text(self.findings@),
    {
        let mut i: usize = 0;
        assert(self.findings@.take(0) =~= Seq::<TimeDescr>::empty());
        while i < self.findings.len()
            invariant
                i <= self.findings.len(),
                out@ == old(out)@ + findings_text(self.findings@.take(i as int)),
            decreases self.findings.len() - i,
        {
            proof {
                let t = self.findings@.take(i + 1);
                assert(t.drop_last() =~= self.findings@.take(i as int));
                assert(t.last() == self.findings@[i as int]);
            }
            self.findings[i].write_to(out);
            out.push('\n');
            i += 1;
            assert(out@ =~= old(out)@ + findings_text(self.findings@.take(i as int)));
        }
        assert(self.findings@.take(self.findings.len() as int) == self.findings@);
    }

    /// Formats the findings, each on a line of its own: the timestamp of
    /// a point, the two timestamps of a period with a hyphen between.
    pub fn format_findings(&self) -> (r: String)
        ensures
            r@ == findings_text(self.findings@),
    {
        let mut out: Vec<char> = Vec::new();
        self.write_findings(&mut out);
        crate::text::string_of(&out)
    }
}

/// The findings written out, each followed by a line feed.
pub open spec fn findings_text(fs: Seq<TimeDescr>) -> Seq<char>
    decreases fs.len(),
{
    if fs.len() == 0 {
        Seq::empty()
    } else {
        findings_text(fs.drop_last()) + fs.last().notation() + seq!['\n']
    }
}

/// The expression holds at the instant.
pub open spec fn holds_at(e: Expr, db: &SignalDB, t: Timestamp) -> bool {
    eval(e, db, t) matches Ok(r) && r.result
}

/// The matches of an expression at the instants of a list, as points.
pub open spec fn hits(e: Expr, db: &SignalDB, ts: Seq<Timestamp>) -> Seq<TimeDescr>
    decreases ts.len(),
{
    if ts.len() == 0 {
        Seq::empty()
    } else if holds_at(e, db, ts[0]) {
        seq![TimeDescr::Point(ts[0])] + hits(e, db, ts.skip(1))
    } else {
        hits(e, db, ts.skip(1))
    }
}

/// At every instant of the list the expression can be evaluated, and
/// where it holds it is a transition.
pub open spec fn all_transitions(e: Expr, db: &SignalDB, ts: Seq<Timestamp>) -> bool {
    forall|i: int|
        0 <= i < ts.len() ==> (eval(e, db, #[trigger] ts[i]) matches Ok(r) && (r.result ==> r.ty
            == ExprType::Transition))
}

/// The points among the matches are the instants at which the
/// expression holds.
pub proof fn lemma_hits(e: Expr, db: &SignalDB, ts: Seq<Timestamp>, t: Timestamp)
    ensures
        hits(e, db, ts).contains(TimeDescr::Point(t)) <==> ts.contains(t) && holds_at(e, db, t),
    decreases ts.len(),
{
    if ts.len() > 0 {
        let rest = ts.skip(1);
        lemma_hits(e, db, rest, t);
        let h = hits(e, db, ts);
        let hr = hits(e, db, rest);
        if h.contains(TimeDescr::Point(t)) {
            let k = choose|k: int| 0 <= k < h.len() && h[k] == TimeDescr::Point(t);
            if holds_at(e, db, ts[0]) {
                if k == 0 {
                    assert(ts[0] == t);
                } else {
                    assert(hr[k - 1] == TimeDescr::Point(t));
                }
            }
            if hr.contains(TimeDescr::Point(t)) {
                let j = choose|j: int| 0 <= j < rest.len() && rest[j] == t;
                assert(ts[j + 1] == t);
            }
        }
        if ts.contains(t) && holds_at(e, db, t) {
            let j = choose|j: int| 0 <= j < ts.len() && ts[j] == t;
            if j == 0 {
                assert(h[0] == TimeDescr::Point(t));
            } else {
                assert(rest[j - 1] == t);
                let k = choose|k: int| 0 <= k < hr.len() && hr[k] == TimeDescr::Point(t);
                if holds_at(e, db, ts[0]) {
                    assert(h[k + 1] == TimeDescr::Point(t));
                } else {
                    assert(h[k] == TimeDescr::Point(t));
                }
            }
        }
    }
}

/// A search for an expression that is a transition wherever it holds
/// finds the matches as points and opens no period.
#[verifier::rlimit(50)]
pub proof fn lemma_scan_transitions(p: Progress, e: Expr, db: &SignalDB, ts: Seq<Timestamp>)
    requires
        p.current_period is None,
        all_transitions(e, db, ts),
        ts.len() > 0 ==> p.latest.femtos() <= ts[0].femtos(),
        forall|i: int, j: int|
            0 <= i < j < ts.len() ==> (#[trigger] ts[i]).femtos() <= (#[trigger] ts[j]).femtos(),
    ensures
        scan(p, e, db, ts).1 is None,
        scan(p, e, db, ts).0.current_period is None,
        scan(p, e, db, ts).0.findings == p.findings + hits(e, db, ts),
    decreases ts.len(),
{
    if ts.len() > 0 {
        let rest = ts.skip(1);
        let r = eval(e, db, ts[0])->Ok_0;
        let q = p.step(ts[0], r);
        assert forall|i: int| 0 <= i < rest.len() implies (eval(e, db, #[trigger] rest[i]) matches Ok(
            x,
        ) && (x.result ==> x.ty == ExprType::Transition)) by {
            assert(rest[i] == ts[i + 1]);
        }
        assert forall|i: int, j: int| 0 <= i < j < rest.len() implies (
        #[trigger] rest[i]).femtos() <= (#[trigger] rest[j]).femtos() by {
            assert(rest[i] == ts[i + 1] && rest[j] == ts[j + 1]);
        }
        if rest.len() > 0 {
            assert(rest[0] == ts[1]);
            assert(ts[0].femtos() <= ts[1].femtos());
        }
        lemma_scan_transitions(q, e, db, rest);
        assert(scan(p, e, db, ts).0.findings =~= p.findings + hits(e, db, ts));
    } else {
        assert(p.findings + hits(e, db, ts) =~= p.findings);
    }
}

/// For an expression that is a transition wherever it holds, the
/// findings of a search over the store are points, and an instant is
/// among them exactly when it is an instant of the store at which the
/// expression holds.
pub proof fn lemma_points_are_transitions(e: Expr, db: &SignalDB, t: Timestamp)
    requires
        db.wf(),
        all_transitions(e, db, db.timestamps@),
    ensures
        scan(Progress::start(), e, db, db.timestamps@).1 is None,
        scan(Progress::start(), e, db, db.timestamps@).0.findings.contains(TimeDescr::Point(t)) <==> (
        db.timestamps@.contains(t) && holds_at(e, db, t)),
        forall|k: int|
            0 <= k < scan(Progress::start(), e, db, db.timestamps@).0.findings.len() ==> (
            #[trigger] scan(Progress::start(), e, db, db.timestamps@).0.findings[k]) is Point,
{
    let ts = db.timestamps@;
    lemma_scan_transitions(Progress::start(), e, db, ts);
    lemma_hits(e, db, ts, t);
    let fs = scan(Progress::start(), e, db, ts).0.findings;
    assert(fs =~= hits(e, db, ts));
    lemma_hits_are_points(e, db, ts);
}

/// A search for the instants at which a signal of the store takes a
/// given value finds points only and opens no period. An instant is among
/// the findings exactly when it is an instant of the store at which the
/// signal has an event whose value is the given one.
pub proof fn lemma_transition_search(id: Seq<char>, value: ValueView, db: &SignalDB, t: Timestamp)
    requires
        db.wf(),
        db.signal_of(id) is Some,
    ensures
        ({
            let e = Expr::Transition(id, ValueTerm::Literal(value));
            let found = scan(Progress::start(), e, db, db.timestamps@);
            let s = db.signal_of(id)->0;
            &&& found.1 is None
            &&& found.0.current_period is None
            &&& forall|k: int|
                0 <= k < found.0.findings.len() ==> (#[trigger] found.0.findings[k]) is Point
            &&& found.0.findings.contains(TimeDescr::Point(t)) <==> (db.timestamps@.contains(t)
                && has_event_at(s.history(), t) && s.value_at_spec(t).same(value))
        }),
{
    let e = Expr::Transition(id, ValueTerm::Literal(value));
    let ts = db.timestamps@;
    assert(all_transitions(e, db, ts));
    lemma_scan_transitions(Progress::start(), e, db, ts);
    lemma_points_are_transitions(e, db, t);
}

/// The same of a text: where a text is the identifier of a signal of
/// the store, the operator of a transition and a literal, the search for
/// what the text denotes finds points only and opens no period, and an
/// instant of the store is among the findings exactly when the signal has
/// an event there whose value is the literal.
pub proof fn lemma_transition_text_search(
    text: Seq<char>,
    id: Seq<char>,
    value: ValueView,
    db: &SignalDB,
    t: Timestamp,
)
    requires
        db.wf(),
        db.signal_of(id) is Some,
        transition_text(text, id, ValueTerm::Literal(value)),
    ensures
        parsed(text) is Some,
        ({
            let found = scan(Progress::start(), parsed(text)->0, db, db.timestamps@);
            let s = db.signal_of(id)->0;
            &&& found.1 is None
            &&& found.0.current_period is None
            &&& forall|k: int|
                0 <= k < found.0.findings.len() ==> (#[trigger] found.0.findings[k]) is Point
            &&& found.0.findings.contains(TimeDescr::Point(t)) <==> (db.timestamps@.contains(t)
                && has_event_at(s.history(), t) && s.value_at_spec(t).same(value))
        }),
{
    lemma_transition_text(text, id, ValueTerm::Literal(value));
    lemma_transition_search(id, value, db, t);
}

proof fn lemma_hits_are_points(e: Expr, db: &SignalDB, ts: Seq<Timestamp>)
    ensures
        forall|k: int| 0 <= k < hits(e, db, ts).len() ==> (#[trigger] hits(e, db, ts)[k]) is Point,
    decreases ts.len(),
{
    if ts.len() > 0 {
        lemma_hits_are_points(e, db, ts.skip(1));
    }
}

/// What a search knows of the instants that it has examined: within
/// every period that it found, and from the beginning of the open period
/// on, the expression holds.
pub open spec fn holds_through(p: Progress, e: Expr, db: &SignalDB, ts: Seq<Timestamp>) -> bool {
    &&& forall|k: int, i: int|
        0 <= k < p.findings.len() && 0 <= i < ts.len() && (#[trigger] p.findings[k]).start().femtos()
            <= (#[trigger] ts[i]).femtos() < p.findings[k].finish().femtos() ==> holds_at(
            e,
            db,
            ts[i],
        )
    &&& p.current_period matches Some(cp) ==> forall|i: int|
        0 <= i < ts.len() && cp.femtos() <= (#[trigger] ts[i]).femtos() ==> holds_at(e, db, ts[i])
}

/// A search that has examined the first `n` instants of a rising list
/// and goes on to the end knows the same of all of them.
#[verifier::rlimit(50)]
pub proof fn lemma_scan_holds(p: Progress, e: Expr, db: &SignalDB, all: Seq<Timestamp>, n: int)
    requires
        rising(all),
        0 <= n <= all.len(),
        p.wf(),
        n < all.len() ==> p.latest.femtos() <= all[n].femtos(),
        n > 0 ==> p.latest == all[n - 1],
        holds_through(p, e, db, all.take(n)),
        scan(p, e, db, all.skip(n)).1 is None,
    ensures
        holds_through(scan(p, e, db, all.skip(n)).0, e, db, all),
        scan(p, e, db, all.skip(n)).0.wf(),
    decreases all.len() - n,
{
    if n < all.len() {
        let t = all[n];
        let rest = all.skip(n);
        assert(rest[0] == t);
        assert(rest.skip(1) == all.skip(n + 1));
        let r = eval(e, db, t)->Ok_0;
        let q = p.step(t, r);
        lemma_step_keeps_wf(p, t, r);
        let done = all.take(n);
        let more = all.take(n + 1);
        assert forall|i: int| 0 <= i < n implies more[i] == done[i] && done[i] == all[i] by {}
        assert(more[n] == t);
        assert forall|i: int| 0 <= i < n implies (#[trigger] all[i]).femtos() < t.femtos() by {}
        // Within the periods found before, nothing is new: they ended by
        // the latest instant, which is not after `t`.
        assert forall|k: int, i: int|
            0 <= k < q.findings.len() && 0 <= i < more.len() && (
            #[trigger] q.findings[k]).start().femtos() <= (#[trigger] more[i]).femtos()
                < q.findings[k].finish().femtos() implies holds_at(e, db, more[i]) by {
            if k < p.findings.len() {
                assert(q.findings[k] == p.findings[k]);
                assert(p.findings[k].finish().femtos() <= p.latest.femtos());
                if i < n {
                    assert(done[i] == more[i]);
                }
            } else {
                // The period that was just closed: it was open from its
                // beginning up to `t`.
                assert(q.findings[k] == TimeDescr::Period(p.current_period->0, t));
                assert(i < n);
                assert(done[i] == more[i]);
            }
        }
        if q.current_period is Some {
            let cp = q.current_period->0;
            assert forall|i: int|
                0 <= i < more.len() && cp.femtos() <= (#[trigger] more[i]).femtos() implies holds_at(
                e,
                db,
                more[i],
            ) by {
                if i < n {
                    assert(done[i] == more[i]);
                    if p.current_period is None {
                        assert(all[i].femtos() < t.femtos());
                    }
                }
            }
        }
        if n + 1 < all.len() {
            assert(all[n].femtos() < all[n + 1].femtos());
        }
        lemma_scan_holds(q, e, db, all, n + 1);
    } else {
        assert(all.take(n) == all);
    }
}

/// Where the summary of a window is a range, the expression holds at
/// every instant of the store from the beginning of the window up to one
/// unit before its end.
#[verifier::rlimit(50)]
pub proof fn lemma_range_holds(e: Expr, db: &SignalDB, begin: Timestamp, end: Timestamp, t: Timestamp)
    requires
        db.wf(),
        scan(Progress::start(), e, db, db.timestamps@).1 is None,
        begin.value > i64::MIN,
        end.value > i64::MIN,
        scan(Progress::start(), e, db, db.timestamps@).0.finished().summary(begin, end)
            == FindingsSummary::Range,
        db.timestamps@.contains(t),
        begin.femtos() <= t.femtos() <= tick_before(end).femtos(),
    ensures
        holds_at(e, db, t),
{
    let ts = db.timestamps@;
    let start = Progress::start();
    assert(ts.skip(0) == ts);
    assert(ts.take(0) =~= Seq::<Timestamp>::empty());
    lemma_scan_holds(start, e, db, ts, 0);
    let q = scan(start, e, db, ts).0;
    let s = q.finished();
    let i = choose|i: int| 0 <= i < ts.len() && ts[i] == t;
    assert((begin.value - 1) * begin.scale.factor() < begin.value * begin.scale.factor())
        by (nonlinear_arith)
        requires
            begin.scale.factor() > 0,
    ;
    assert((end.value - 1) * end.scale.factor() < end.value * end.scale.factor())
        by (nonlinear_arith)
        requires
            end.scale.factor() > 0,
    ;
    if s.current_period is Some && s.current_period->0.femtos() <= begin.femtos() {
        assert(holds_at(e, db, ts[i]));
    } else {
        let fs = s.findings;
        let (b_met, bi) = seek(fs, tick_before(begin));
        let (e_met, ei) = seek(fs, tick_before(end));
        assert(b_met && e_met && bi == ei && fs[bi] is Period);
        assert(met_at(fs[bi], tick_before(begin)));
        assert(met_at(fs[bi], tick_before(end)));
        assert(fs[bi].start().femtos() <= ts[i].femtos() < fs[bi].finish().femtos());
        assert(q.findings[bi] == fs[bi]);
        assert(holds_at(e, db, ts[i]));
    }
}

} // verus!
