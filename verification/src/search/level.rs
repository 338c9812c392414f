//! Expressions over the values of signals between the instants of a
//! store: what holds at an instant holds until the next one.
use super::expr::{Expr, ValueTerm};
use super::types::{
    eval, holds_at, holds_through, lemma_scan_holds, met_at, scan, seek, tick_before,
    FindingsSummary, Progress,
};
use crate::signaldb::db::{lemma_instant_of_event, occurs, rising, SignalDB};
use crate::signaldb::signal::{count_upto, lemma_count_upto, lemma_counts_split, Signal};
use crate::signaldb::time::Timestamp;
use vstd::prelude::*;

verus! {

/// Whether no signal of the store has an event after `u` and up to `t`.
pub open spec fn quiet(db: &SignalDB, u: Timestamp, t: Timestamp) -> bool {
    forall|id: Seq<char>, j: int|
        db.signal_of(id) is Some && 0 <= j < db.signal_of(id)->0.history().len() ==> !(u.femtos()
            < (#[trigger] db.signal_of(id)->0.history()[j]).0.femtos() <= t.femtos())
}

/// Whether an expression compares signals of the store with values and
/// with each other, and joins such comparisons: it is built from
/// equalities, negations, conjunctions and disjunctions alone.
pub open spec fn over_values(e: Expr, db: &SignalDB) -> bool
    decreases e,
{
    match e {
        Expr::Equal(id, v) => db.signal_of(id) is Some && match v {
            ValueTerm::Literal(_) => true,
            ValueTerm::Id(other) => db.signal_of(other) is Some,
        },
        Expr::Not(inner) => over_values(*inner, db),
        Expr::And(l, r) => over_values(*l, db) && over_values(*r, db),
        Expr::Or(l, r) => over_values(*l, db) && over_values(*r, db),
        _ => false,
    }
}

/// A signal keeps its value from an instant to a later one where it has
/// no event in between.
pub proof fn lemma_value_stays(s: Signal, u: Timestamp, t: Timestamp)
    requires
        s.wf(),
        u.femtos() <= t.femtos(),
        forall|j: int|
            0 <= j < s.history().len() ==> !(u.femtos() < (#[trigger] s.history()[j]).0.femtos()
                <= t.femtos()),
    ensures
        s.value_at_spec(t) == s.value_at_spec(u),
{
    let h = s.history();
    lemma_counts_split(h, u);
    lemma_count_upto(h, t, count_upto(h, u));
}

/// An expression over the values of signals has the same outcome at two
/// instants between which no signal has an event.
pub proof fn lemma_eval_stays(e: Expr, db: &SignalDB, u: Timestamp, t: Timestamp)
    requires
        db.wf(),
        over_values(e, db),
        u.femtos() <= t.femtos(),
        quiet(db, u, t),
    ensures
        eval(e, db, t) == eval(e, db, u),
    decreases e,
{
    match e {
        Expr::Equal(id, v) => {
            lemma_signal_stays(db, id, u, t);
            match v {
                ValueTerm::Literal(_) => {},
                ValueTerm::Id(other) => {
                    lemma_signal_stays(db, other, u, t);
                },
            }
        },
        Expr::Not(inner) => {
            lemma_eval_stays(*inner, db, u, t);
        },
        Expr::And(l, r) => {
            lemma_eval_stays(*l, db, u, t);
            lemma_eval_stays(*r, db, u, t);
        },
        Expr::Or(l, r) => {
            lemma_eval_stays(*l, db, u, t);
            lemma_eval_stays(*r, db, u, t);
        },
        _ => {},
    }
}

/// A signal of a store keeps its value between two instants between
/// which no signal has an event.
pub proof fn lemma_signal_stays(db: &SignalDB, id: Seq<char>, u: Timestamp, t: Timestamp)
    requires
        db.wf(),
        db.signal_of(id) is Some,
        u.femtos() <= t.femtos(),
        quiet(db, u, t),
    ensures
        db.signal_of(id)->0.value_at_spec(t) == db.signal_of(id)->0.value_at_spec(u),
{
    let s = db.signal_of(id)->0;
    assert(s == db.signals[crate::names::rank(db.ids(), id)]);
    assert(s.wf());
    assert forall|j: int| 0 <= j < s.history().len() implies !(u.femtos() < (
    #[trigger] s.history()[j]).0.femtos() <= t.femtos()) by {
        assert(!(u.femtos() < db.signal_of(id)->0.history()[j].0.femtos() <= t.femtos()));
    }
    lemma_value_stays(s, u, t);
}

/// The last instant of a rising list that is not after `t`, for a list
/// that begins no later than `t`.
pub proof fn lemma_latest_instant(ts: Seq<Timestamp>, t: Timestamp) -> (k: int)
    requires
        rising(ts),
        ts.len() > 0,
        ts[0].femtos() <= t.femtos(),
    ensures
        0 <= k < ts.len(),
        ts[k].femtos() <= t.femtos(),
        forall|j: int| k < j < ts.len() ==> (#[trigger] ts[j]).femtos() > t.femtos(),
    decreases ts.len(),
{
    if ts.last().femtos() <= t.femtos() {
        ts.len() - 1
    } else {
        let front = ts.drop_last();
        assert(ts.len() > 1);
        assert forall|i: int, j: int| 0 <= i < j < front.len() implies (#[trigger] front[i]).femtos()
            < (#[trigger] front[j]).femtos() by {
            assert(front[i] == ts[i] && front[j] == ts[j]);
        }
        assert(front[0] == ts[0]);
        let k = lemma_latest_instant(front, t);
        assert(front[k] == ts[k]);
        assert forall|j: int| k < j < ts.len() implies (#[trigger] ts[j]).femtos() > t.femtos() by {
            if j < front.len() {
                assert(front[j] == ts[j]);
            }
        }
        k
    }
}

/// Whether the findings of a search, and the period that it has open,
/// begin at instants of a list.
pub open spec fn anchored(p: Progress, ts: Seq<Timestamp>) -> bool {
    &&& forall|k: int|
        0 <= k < p.findings.len() ==> occurs(ts, (#[trigger] p.findings[k]).start())
    &&& p.current_period matches Some(cp) ==> occurs(ts, cp)
}

/// What a search finds begins at the instants that it examines.
#[verifier::rlimit(50)]
pub proof fn lemma_scan_anchored(p: Progress, e: Expr, db: &SignalDB, all: Seq<Timestamp>, n: int)
    requires
        0 <= n <= all.len(),
        anchored(p, all),
    ensures
        anchored(scan(p, e, db, all.skip(n)).0, all),
    decreases all.len() - n,
{
    if n < all.len() {
        let rest = all.skip(n);
        let t = all[n];
        assert(rest[0] == t);
        assert(rest.skip(1) == all.skip(n + 1));
        assert(occurs(all, t));
        if t.femtos() < p.latest.femtos() {
            lemma_scan_anchored(p, e, db, all, n + 1);
        } else {
            match eval(e, db, t) {
                Err(_) => {},
                Ok(r) => {
                    let q = p.step(t, r);
                    assert forall|k: int| 0 <= k < q.findings.len() implies occurs(
                        all,
                        (#[trigger] q.findings[k]).start(),
                    ) by {
                        if k < p.findings.len() {
                            assert(q.findings[k] == p.findings[k]);
                        }
                    }
                    lemma_scan_anchored(q, e, db, all, n + 1);
                },
            }
        }
    }
}

/// Where the summary of a window is a range, an expression over the
/// values of signals holds at every instant from the beginning of the
/// window up to one unit of the end before the end, whether the store has
/// that instant or not.
#[verifier::rlimit(50)]
pub proof fn lemma_range_holds_throughout(
    e: Expr,
    db: &SignalDB,
    begin: Timestamp,
    end: Timestamp,
    t: Timestamp,
)
    requires
        db.wf(),
        db.events_at_instants(),
        over_values(e, db),
        scan(Progress::start(), e, db, db.timestamps@).1 is None,
        begin.value > i64::MIN,
        end.value > i64::MIN,
        scan(Progress::start(), e, db, db.timestamps@).0.finished().summary(begin, end)
            == FindingsSummary::Range,
        begin.femtos() <= t.femtos() <= tick_before(end).femtos(),
    ensures
        holds_at(e, db, t),
{
    let ts = db.timestamps@;
    let start = Progress::start();
    assert(ts.skip(0) == ts);
    assert(ts.take(0) =~= Seq::<Timestamp>::empty());
    lemma_scan_holds(start, e, db, ts, 0);
    lemma_scan_anchored(start, e, db, ts, 0);
    let q = scan(start, e, db, ts).0;
    let s = q.finished();
    assert((begin.value - 1) * begin.scale.factor() < begin.value * begin.scale.factor())
        by (nonlinear_arith)
        requires
            begin.scale.factor() > 0,
    ;
    // The instant at which the period in question begins.
    let from = if s.current_period is Some && s.current_period->0.femtos() <= begin.femtos() {
        s.current_period->0
    } else {
        s.findings[seek(s.findings, tick_before(begin)).1].start()
    };
    if !(s.current_period is Some && s.current_period->0.femtos() <= begin.femtos()) {
        let fs = s.findings;
        let (b_met, bi) = seek(fs, tick_before(begin));
        let (e_met, ei) = seek(fs, tick_before(end));
        assert(b_met && e_met && bi == ei && fs[bi] is Period);
        assert(met_at(fs[bi], tick_before(begin)));
        assert(met_at(fs[bi], tick_before(end)));
        assert(q.findings[bi] == fs[bi]);
    }
    assert(occurs(ts, from));
    assert(from.femtos() <= t.femtos());
    let a = choose|a: int| 0 <= a < ts.len() && (#[trigger] ts[a]).femtos() == from.femtos();
    assert(ts[0].femtos() <= ts[a].femtos()) by {
        if a > 0 {
            assert(ts[0].femtos() < ts[a].femtos());
        }
    }
    let k = lemma_latest_instant(ts, t);
    let u = ts[k];
    assert(a <= k) by {
        if k < a {
            assert(ts[a].femtos() > t.femtos());
        }
    }
    assert(from.femtos() <= u.femtos()) by {
        if a < k {
            assert(ts[a].femtos() < ts[k].femtos());
        }
    }
    assert(quiet(db, u, t)) by {
        assert forall|id: Seq<char>, j: int|
            db.signal_of(id) is Some && 0 <= j < db.signal_of(id)->0.history().len() implies !(
            u.femtos() < (#[trigger] db.signal_of(id)->0.history()[j]).0.femtos()
                <= t.femtos()) by {
            let x = db.signal_of(id)->0.history()[j].0;
            lemma_instant_of_event(db, id, j);
            let m = choose|m: int| 0 <= m < ts.len() && (#[trigger] ts[m]).femtos() == x.femtos();
            if u.femtos() < x.femtos() <= t.femtos() {
                if m <= k {
                    if m < k {
                        assert(ts[m].femtos() < ts[k].femtos());
                    }
                } else {
                    assert(ts[m].femtos() > t.femtos());
                }
            }
        }
    }
    lemma_eval_stays(e, db, u, t);
    assert(holds_through(q, e, db, ts));
    assert(holds_at(e, db, ts[k]));
}

} // verus!
