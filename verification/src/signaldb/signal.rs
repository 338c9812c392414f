//! A single signal: its identity and the history of its values.
use super::time::Timestamp;
use super::value::{lemma_same_is_equivalence, BitValue, SignalValue, ValueView};
use crate::text::{append_str, chars_of, digits, push_digits, string_of};
use vstd::prelude::*;

verus! {

/// A change of value at an instant.
#[derive(Debug)]
pub struct Event {
    pub timestamp: Timestamp,
    pub new_value: SignalValue,
}

/// Representation of a single signal.
pub struct Signal {
    /// Identifier of the signal
    pub id: String,
    /// Full name of the signal
    pub name: String,
    /// Width of the signal in bits
    pub width: usize,
    /// Names of the scopes that lead to the signal, outermost first
    pub path: Vec<String>,
    /// Events of the signal, the earliest first
    pub events: Vec<Event>,
    /// Value of the signal before its first event
    pub default: SignalValue,
}

/// The timestamps of a history increase strictly.
pub open spec fn increasing(h: Seq<(Timestamp, ValueView)>) -> bool {
    forall|i: int, j: int| 0 <= i < j < h.len() ==> h[i].0.femtos() < h[j].0.femtos()
}

/// The value in force just before the event at a position: that of the
/// event before it, or the default before the first event; past the end,
/// the last value.
pub open spec fn prior(d: ValueView, h: Seq<(Timestamp, ValueView)>, i: int) -> ValueView {
    if i <= 0 || h.len() == 0 {
        d
    } else if i >= h.len() {
        h.last().1
    } else {
        h[i - 1].1
    }
}

/// No event of a history repeats the value that was in force before it.
pub open spec fn changing(d: ValueView, h: Seq<(Timestamp, ValueView)>) -> bool {
    forall|i: int| 0 <= i < h.len() ==> !prior(d, h, i).same(#[trigger] h[i].1)
}

/// The number of events strictly before an instant.
pub open spec fn count_before(h: Seq<(Timestamp, ValueView)>, t: Timestamp) -> int
    decreases h.len(),
{
    if h.len() == 0 {
        0
    } else {
        count_before(h.drop_last(), t) + if h.last().0.femtos() < t.femtos() {
            1int
        } else {
            0int
        }
    }
}

/// The number of events at or before an instant.
pub open spec fn count_upto(h: Seq<(Timestamp, ValueView)>, t: Timestamp) -> int
    decreases h.len(),
{
    if h.len() == 0 {
        0
    } else {
        count_upto(h.drop_last(), t) + if h.last().0.femtos() <= t.femtos() {
            1int
        } else {
            0int
        }
    }
}

/// The number of events in the half-open window from `begin` up to `end`.
pub open spec fn count_within(h: Seq<(Timestamp, ValueView)>, begin: Timestamp, end: Timestamp) -> int
    decreases h.len(),
{
    if h.len() == 0 {
        0
    } else {
        count_within(h.drop_last(), begin, end) + if begin.femtos() <= h.last().0.femtos()
            < end.femtos() {
            1int
        } else {
            0int
        }
    }
}

/// Whether a history has an event at an instant.
pub open spec fn has_event_at(h: Seq<(Timestamp, ValueView)>, t: Timestamp) -> bool {
    exists|i: int| 0 <= i < h.len() && (#[trigger] h[i]).0.femtos() == t.femtos()
}

/// The history after an event is put at the place that its timestamp gives
/// it, and the position of the event that follows that place. A value
/// equal to the one in force before the place is not recorded, and an
/// event already there is removed; any other value is inserted or
/// replaces the value of the event already there.
pub open spec fn placed(
    d: ValueView,
    h: Seq<(Timestamp, ValueView)>,
    t: Timestamp,
    v: ValueView,
) -> (Seq<(Timestamp, ValueView)>, int) {
    let i = count_before(h, t);
    if 0 <= i < h.len() && h[i].0.femtos() == t.femtos() {
        if prior(d, h, i).same(v) {
            (h.remove(i), i)
        } else {
            (h.update(i, (h[i].0, v)), i + 1)
        }
    } else if prior(d, h, i).same(v) {
        (h, i)
    } else {
        (h.insert(i, (t, v)), i + 1)
    }
}

/// The history without the event at a position where that event repeats
/// the value in force before it.
pub open spec fn settled(
    d: ValueView,
    h: Seq<(Timestamp, ValueView)>,
    k: int,
) -> Seq<(Timestamp, ValueView)> {
    if 0 <= k < h.len() && prior(d, h, k).same(h[k].1) {
        h.remove(k)
    } else {
        h
    }
}

/// The history after an event is added: the event is put at its place,
/// and the event that follows goes where it now repeats the value in
/// force before it.
pub open spec fn added(
    d: ValueView,
    h: Seq<(Timestamp, ValueView)>,
    t: Timestamp,
    v: ValueView,
) -> Seq<(Timestamp, ValueView)> {
    settled(d, placed(d, h, t, v).0, placed(d, h, t, v).1)
}

/// In an increasing history the events before an instant are those up to
/// the first one that is not before it.
pub proof fn lemma_count_before(h: Seq<(Timestamp, ValueView)>, t: Timestamp, i: int)
    requires
        0 <= i <= h.len(),
        forall|j: int| 0 <= j < i ==> (#[trigger] h[j]).0.femtos() < t.femtos(),
        forall|j: int| i <= j < h.len() ==> (#[trigger] h[j]).0.femtos() >= t.femtos(),
    ensures
        count_before(h, t) == i,
    decreases h.len(),
{
    if h.len() > 0 {
        let g = h.drop_last();
        if i == h.len() {
            assert(h[i - 1].0.femtos() < t.femtos());
            lemma_count_before(g, t, i - 1);
        } else {
            assert(h[h.len() - 1].0.femtos() >= t.femtos());
            lemma_count_before(g, t, i);
        }
    }
}

/// In an increasing history the events at or before an instant are those
/// up to the first one after it.
pub proof fn lemma_count_upto(h: Seq<(Timestamp, ValueView)>, t: Timestamp, i: int)
    requires
        0 <= i <= h.len(),
        forall|j: int| 0 <= j < i ==> (#[trigger] h[j]).0.femtos() <= t.femtos(),
        forall|j: int| i <= j < h.len() ==> (#[trigger] h[j]).0.femtos() > t.femtos(),
    ensures
        count_upto(h, t) == i,
    decreases h.len(),
{
    if h.len() > 0 {
        let g = h.drop_last();
        if i == h.len() {
            assert(h[i - 1].0.femtos() <= t.femtos());
            lemma_count_upto(g, t, i - 1);
        } else {
            assert(h[h.len() - 1].0.femtos() > t.femtos());
            lemma_count_upto(g, t, i);
        }
    }
}

/// The counts are within the history, and in an increasing history they
/// split it: the events before an instant are before it, the others not.
pub proof fn lemma_counts_split(h: Seq<(Timestamp, ValueView)>, t: Timestamp)
    requires
        increasing(h),
    ensures
        0 <= count_before(h, t) <= count_upto(h, t) <= h.len(),
        count_upto(h, t) <= count_before(h, t) + 1,
        forall|j: int| 0 <= j < count_before(h, t) ==> (#[trigger] h[j]).0.femtos() < t.femtos(),
        forall|j: int|
            count_before(h, t) <= j < h.len() ==> (#[trigger] h[j]).0.femtos() >= t.femtos(),
        forall|j: int| 0 <= j < count_upto(h, t) ==> (#[trigger] h[j]).0.femtos() <= t.femtos(),
        forall|j: int|
            count_upto(h, t) <= j < h.len() ==> (#[trigger] h[j]).0.femtos() > t.femtos(),
        count_upto(h, t) == count_before(h, t) + 1 <==> has_event_at(h, t),
        has_event_at(h, t) ==> h[count_before(h, t)].0.femtos() == t.femtos(),
    decreases h.len(),
{
    if h.len() > 0 {
        let g = h.drop_last();
        assert(increasing(g)) by {
            assert forall|i: int, j: int| 0 <= i < j < g.len() implies g[i].0.femtos()
                < g[j].0.femtos() by {
                assert(g[i] == h[i] && g[j] == h[j]);
            }
        }
        lemma_counts_split(g, t);
        let last = h.len() - 1;
        assert forall|j: int| 0 <= j < g.len() implies g[j] == h[j] by {}
        if h[last].0.femtos() < t.femtos() {
            assert forall|j: int| 0 <= j < last implies (#[trigger] h[j]).0.femtos()
                < t.femtos() by {
                assert(h[j].0.femtos() < h[last].0.femtos());
            }
            lemma_count_before(g, t, last);
            lemma_count_upto(g, t, last);
            assert(!has_event_at(h, t));
        } else if h[last].0.femtos() == t.femtos() {
            assert forall|j: int| 0 <= j < last implies (#[trigger] h[j]).0.femtos()
                < t.femtos() by {
                assert(h[j].0.femtos() < h[last].0.femtos());
            }
            lemma_count_before(g, t, last);
            lemma_count_upto(g, t, last);
            assert(has_event_at(h, t));
        } else {
            if has_event_at(h, t) {
                let k = choose|k: int| 0 <= k < h.len() && (#[trigger] h[k]).0.femtos()
                    == t.femtos();
                assert(g[k] == h[k]);
                assert(has_event_at(g, t));
            }
            if has_event_at(g, t) {
                let k = choose|k: int| 0 <= k < g.len() && (#[trigger] g[k]).0.femtos()
                    == t.femtos();
                assert(g[k] == h[k]);
                assert(has_event_at(h, t));
            }
        }
    } else {
        assert(!has_event_at(h, t));
    }
}

/// The events of a window are those before its end that are not before
/// its beginning; a window that ends before it begins has none.
pub proof fn lemma_count_within(h: Seq<(Timestamp, ValueView)>, begin: Timestamp, end: Timestamp)
    ensures
        count_within(h, begin, end) >= 0,
        begin.femtos() <= end.femtos() ==> count_within(h, begin, end) == count_before(h, end)
            - count_before(h, begin),
        begin.femtos() > end.femtos() ==> count_within(h, begin, end) == 0 && count_before(h, end)
            <= count_before(h, begin),
    decreases h.len(),
{
    if h.len() > 0 {
        lemma_count_within(h.drop_last(), begin, end);
    }
}

/// Whether a value counts as an edge of the wanted kind: a rising edge is
/// any value but the literal zero, a falling edge the literal zero.
pub open spec fn is_edge(v: ValueView, rising: bool) -> bool {
    rising != v.same(ValueView::zero())
}

/// `r` is the first edge of the wanted kind strictly after `t`.
pub open spec fn is_next_edge(
    h: Seq<(Timestamp, ValueView)>,
    t: Timestamp,
    rising: bool,
    r: Option<Timestamp>,
) -> bool {
    match r {
        Some(x) => exists|j: int|
            {
                &&& 0 <= j < h.len()
                &&& (#[trigger] h[j]).0 == x
                &&& x.femtos() > t.femtos()
                &&& is_edge(h[j].1, rising)
                &&& forall|k: int|
                    0 <= k < j && (#[trigger] h[k]).0.femtos() > t.femtos() ==> !is_edge(
                        h[k].1,
                        rising,
                    )
            },
        None => forall|k: int|
            0 <= k < h.len() && (#[trigger] h[k]).0.femtos() > t.femtos() ==> !is_edge(
                h[k].1,
                rising,
            ),
    }
}

/// `r` is the last rising edge strictly before `t`.
pub open spec fn is_previous_rising_edge(
    h: Seq<(Timestamp, ValueView)>,
    t: Timestamp,
    r: Option<Timestamp>,
) -> bool {
    match r {
        Some(x) => exists|j: int|
            {
                &&& 0 <= j < h.len()
                &&& (#[trigger] h[j]).0 == x
                &&& x.femtos() < t.femtos()
                &&& is_edge(h[j].1, true)
                &&& forall|k: int|
                    j < k < h.len() && (#[trigger] h[k]).0.femtos() < t.femtos() ==> !is_edge(
                        h[k].1,
                        true,
                    )
            },
        None => forall|k: int|
            0 <= k < h.len() && (#[trigger] h[k]).0.femtos() < t.femtos() ==> !is_edge(
                h[k].1,
                true,
            ),
    }
}

impl Signal {
    /// The events of the signal, the earliest first.
    pub open spec fn history(&self) -> Seq<(Timestamp, ValueView)> {
        Seq::new(
            self.events.len() as nat,
            |i: int| (self.events[i].timestamp, self.events[i].new_value@),
        )
    }

    /// The value of the signal before its first event.
    pub open spec fn default_value(&self) -> ValueView {
        self.default@
    }

    /// The events are in the order of their timestamps, no two at one
    /// instant, and each of them changes the value.
    pub open spec fn wf(&self) -> bool {
        increasing(self.history()) && changing(self.default_value(), self.history())
    }

    /// The value of the signal at an instant: that of the last event at
    /// or before it, the default before the first event.
    pub open spec fn value_at_spec(&self, t: Timestamp) -> ValueView {
        prior(self.default_value(), self.history(), count_upto(self.history(), t))
    }

    /// The value of the signal just before an instant.
    pub open spec fn value_before_spec(&self, t: Timestamp) -> ValueView {
        prior(self.default_value(), self.history(), count_before(self.history(), t))
    }

    /// The label of the signal in listings: its identifier, then its name
    /// in parentheses.
    pub open spec fn label(&self) -> Seq<char> {
        self.id@ + " ("@ + self.name@ + ")"@
    }

    /// The line of statistics of the signal.
    pub open spec fn stats_line(&self) -> Seq<char> {
        let h = self.history();
        self.label() + " - width: "@ + digits(self.width as nat) + ", edges: "@ + digits(h.len())
            + (if h.len() > 0 {
            ", from: "@ + h.first().0.notation() + ", to: "@ + h.last().0.notation()
        } else {
            Seq::empty()
        }) + "\n"@
    }

    /// The line that shows the value of the signal at an instant: `->`
    /// before the value of an event at that very instant, `=` before a
    /// value that was already in force.
    pub open spec fn value_line(&self, t: Timestamp) -> Seq<char> {
        self.label() + (if has_event_at(self.history(), t) {
            " -> "@
        } else {
            " = "@
        }) + self.value_at_spec(t).notation() + "\n"@
    }

    /// Creates a new `Signal` without events, undefined in every bit.
    pub fn new(id: &str, name: &str, width: usize) -> (r: Signal)
        ensures
            r.id@ == id@,
            r.name@ == name@,
            r.width == width,
            r.path@.len() == 0,
            r.history() == Seq::<(Timestamp, ValueView)>::empty(),
            r.default_value() == ValueView::Literal(
                Seq::new(width as nat, |i: int| BitValue::Undefined),
                super::value::ValueFormat::Hex,
            ),
            r.wf(),
    {
        let r = Signal {
            id: string_of(&chars_of(id)),
            name: string_of(&chars_of(name)),
            width,
            path: Vec::new(),
            events: Vec::new(),
            default: SignalValue::new_default(width, BitValue::Undefined),
        };
        assert(r.history() =~= Seq::<(Timestamp, ValueView)>::empty());
        r
    }

    /// The value in force just before the event at a position.
    pub fn prev_value_at_index(&self, index: usize) -> (r: &SignalValue)
        ensures
            r@ == prior(self.default_value(), self.history(), index as int),
    {
        if index == 0 {
            &self.default
        } else if index >= self.events.len() {
            if self.events.len() > 0 {
                &self.events[self.events.len() - 1].new_value
            } else {
                &self.default
            }
        } else {
            &self.events[index - 1].new_value
        }
    }

    /// The position of the first event that is not before an instant.
    pub fn index_of(&self, timestamp: Timestamp) -> (r: usize)
        requires
            self.wf(),
        ensures
            r == count_before(self.history(), timestamp),
            r <= self.history().len(),
    {
        let ghost h = self.history();
        let mut lo: usize = 0;
        let mut hi: usize = self.events.len();
        while lo < hi
            invariant
                h == self.history(),
                lo <= hi <= self.events.len(),
                increasing(h),
                forall|j: int| 0 <= j < lo ==> (#[trigger] h[j]).0.femtos() < timestamp.femtos(),
                forall|j: int|
                    hi <= j < h.len() ==> (#[trigger] h[j]).0.femtos() >= timestamp.femtos(),
            decreases hi - lo,
        {
            let mid = lo + (hi - lo) / 2;
            assert(h[mid as int].0 == self.events[mid as int].timestamp);
            if self.events[mid].timestamp.earlier_than(&timestamp) {
                assert forall|j: int| 0 <= j < mid + 1 implies (#[trigger] h[j]).0.femtos()
                    < timestamp.femtos() by {
                    if j < mid {
                        assert(h[j].0.femtos() < h[mid as int].0.femtos());
                    }
                }
                lo = mid + 1;
            } else {
                assert forall|j: int| mid <= j < h.len() implies (#[trigger] h[j]).0.femtos()
                    >= timestamp.femtos() by {
                    if j > mid {
                        assert(h[mid as int].0.femtos() < h[j].0.femtos());
                    }
                }
                hi = mid;
            }
        }
        proof {
            lemma_count_before(h, timestamp, lo as int);
        }
        lo
    }

    /// The position of the first event after an instant.
    pub fn index_after(&self, timestamp: Timestamp) -> (r: usize)
        requires
            self.wf(),
        ensures
            r == count_upto(self.history(), timestamp),
            r <= self.history().len(),
    {
        let i = self.index_of(timestamp);
        proof {
            lemma_counts_split(self.history(), timestamp);
        }
        if i < self.events.len() && self.events[i].timestamp.same_instant(&timestamp) {
            assert(self.history()[i as int].0.femtos() == timestamp.femtos());
            i + 1
        } else {
            i
        }
    }

    /// Adds an event to the `Signal`. The value is first expanded to the
    /// width of the signal. No event of the signal repeats the value in
    /// force before it afterwards.
    #[verifier::rlimit(50)]
    pub fn add_event(&mut self, timestamp: Timestamp, new_value: SignalValue)
        requires
            old(self).wf(),
        ensures
            final(self).wf(),
            final(self).history() == added(
                old(self).default_value(),
                old(self).history(),
                timestamp,
                new_value@.expanded(old(self).width as nat),
            ),
            final(self).default_value() == old(self).default_value(),
            final(self).id == old(self).id,
            final(self).name == old(self).name,
            final(self).width == old(self).width,
            final(self).path == old(self).path,
    {
        let mut new_value = new_value;
        new_value.expand(self.width);
        let ghost h = self.history();
        let ghost d = self.default_value();
        let ghost v = new_value@;
        let n = self.events.len();
        let index = if n > 0 && self.events[n - 1].timestamp.earlier_than(&timestamp) {
            proof {
                assert forall|j: int| 0 <= j < n implies (#[trigger] h[j]).0.femtos()
                    < timestamp.femtos() by {
                    if j < n - 1 {
                        assert(h[j].0.femtos() < h[n - 1].0.femtos());
                    }
                }
                lemma_count_before(h, timestamp, n as int);
            }
            n
        } else {
            self.index_of(timestamp)
        };
        proof {
            lemma_counts_split(h, timestamp);
        }
        let hit = index < n && self.events[index].timestamp.same_instant(&timestamp);
        assert(hit == (index < n && h[index as int].0.femtos() == timestamp.femtos()));
        let same = self.prev_value_at_index(index).same_as(&new_value);
        let next = if hit {
            if same {
                let _ = self.events.remove(index);
                assert(self.history() =~= h.remove(index as int));
                index
            } else {
                let at = self.events[index].timestamp;
                self.events[index] = Event { timestamp: at, new_value };
                assert(self.history() =~= h.update(index as int, (h[index as int].0, v)));
                index + 1
            }
        } else if !same {
            self.events.insert(index, Event { timestamp, new_value });
            assert(self.history() =~= h.insert(index as int, (timestamp, v)));
            index + 1
        } else {
            index
        };
        let ghost g = self.history();
        assert(g == placed(d, h, timestamp, v).0 && next == placed(d, h, timestamp, v).1);
        if next < self.events.len() {
            let repeats = self.prev_value_at_index(next).same_as(&self.events[next].new_value);
            assert(g[next as int].1 == self.events[next as int].new_value@);
            if repeats {
                let _ = self.events.remove(next);
                assert(self.history() =~= g.remove(next as int));
            }
        }
        proof {
            lemma_added_keeps_order(d, h, timestamp, v);
            lemma_added_changing(d, h, timestamp, v);
        }
    }

    /// Gets the value of the `Signal` at a given time.
    pub fn value_at(&self, timestamp: Timestamp) -> (r: SignalValue)
        requires
            self.wf(),
        ensures
            r@ == self.value_at_spec(timestamp),
    {
        let index = self.index_after(timestamp);
        self.prev_value_at_index(index).clone()
    }

    /// Gets the event of the `Signal` reported at a given time, if there
    /// is one.
    pub fn event_at(&self, timestamp: Timestamp) -> (r: Option<SignalValue>)
        requires
            self.wf(),
        ensures
            r is Some == has_event_at(self.history(), timestamp),
            r matches Some(v) ==> v@ == self.value_at_spec(timestamp) && v@
                == self.history()[count_before(self.history(), timestamp)].1,
    {
        let index = self.index_of(timestamp);
        proof {
            lemma_counts_split(self.history(), timestamp);
        }
        if index < self.events.len() && self.events[index].timestamp.same_instant(&timestamp) {
            assert(self.history()[index as int].0.femtos() == timestamp.femtos());
            Some(self.events[index].new_value.clone())
        } else {
            None
        }
    }

    /// Gets a summary of the events of the half-open period from `begin`
    /// up to `end`: the value just before `begin`, the number of events in
    /// the period, and the value just before `end`. A period that ends
    /// before it begins holds no event.
    pub fn events_between(&self, begin: Timestamp, end: Timestamp) -> (r: (
        SignalValue,
        usize,
        SignalValue,
    ))
        requires
            self.wf(),
        ensures
            r.0@ == self.value_before_spec(begin),
            r.1 == count_within(self.history(), begin, end),
            r.2@ == self.value_before_spec(end),
    {
        let begin_index = self.index_of(begin);
        let end_index = self.index_of(end);
        proof {
            lemma_count_within(self.history(), begin, end);
        }
        let count: usize = if begin_index <= end_index {
            end_index - begin_index
        } else {
            0
        };
        (
            self.prev_value_at_index(begin_index).clone(),
            count,
            self.prev_value_at_index(end_index).clone(),
        )
    }

    /// The first event of the wanted kind at a position from `start` on.
    #[verifier::loop_isolation(false)]
    fn first_edge_from(&self, start: usize, rising: bool) -> (r: Option<usize>)
        requires
            start <= self.history().len(),
        ensures
            r matches Some(j) ==> start <= j < self.history().len() && is_edge(
                self.history()[j as int].1,
                rising,
            ) && forall|k: int| start <= k < j ==> !is_edge((#[trigger] self.history()[k]).1, rising),
            r is None ==> forall|k: int|
                start <= k < self.history().len() ==> !is_edge(
                    (#[trigger] self.history()[k]).1,
                    rising,
                ),
    {
        let mut j: usize = start;
        while j < self.events.len()
            invariant
                start <= j <= self.events.len(),
                forall|k: int| start <= k < j ==> !is_edge((#[trigger] self.history()[k]).1, rising),
            decreases self.events.len() - j,
        {
            let zero = self.events[j].new_value.is_zero();
            assert(self.history()[j as int].1 == self.events[j as int].new_value@);
            if zero != rising {
                return Some(j);
            }
            j += 1;
        }
        None
    }

    /// Gets the timestamp of the next rising edge: the first event
    /// strictly after `timestamp` whose value is not the literal zero.
    pub fn get_next_rising_edge(&self, timestamp: Timestamp) -> (r: Option<Timestamp>)
        requires
            self.wf(),
        ensures
            is_next_edge(self.history(), timestamp, true, r),
    {
        self.next_edge(timestamp, true)
    }

    /// Gets the timestamp of the next falling edge: the first event
    /// strictly after `timestamp` whose value is the literal zero.
    pub fn get_next_falling_edge(&self, timestamp: Timestamp) -> (r: Option<Timestamp>)
        requires
            self.wf(),
        ensures
            is_next_edge(self.history(), timestamp, false, r),
    {
        self.next_edge(timestamp, false)
    }

    fn next_edge(&self, timestamp: Timestamp, rising: bool) -> (r: Option<Timestamp>)
        requires
            self.wf(),
        ensures
            is_next_edge(self.history(), timestamp, rising, r),
    {
        let start = self.index_after(timestamp);
        proof {
            lemma_counts_split(self.history(), timestamp);
        }
        match self.first_edge_from(start, rising) {
            Some(j) => {
                let x = self.events[j].timestamp;
                assert(self.history()[j as int].0 == x);
                Some(x)
            },
            None => None,
        }
    }

    /// Gets the timestamp of the previous rising edge: the last event
    /// strictly before `timestamp` whose value is not the literal zero.
    #[verifier::loop_isolation(false)]
    pub fn get_previous_rising_edge(&self, timestamp: Timestamp) -> (r: Option<Timestamp>)
        requires
            self.wf(),
        ensures
            is_previous_rising_edge(self.history(), timestamp, r),
    {
        let end = self.index_of(timestamp);
        proof {
            lemma_counts_split(self.history(), timestamp);
        }
        let mut j: usize = end;
        while j > 0
            invariant
                j <= end,
                forall|k: int| j <= k < end ==> !is_edge((#[trigger] self.history()[k]).1, true),
            decreases j,
        {
            j -= 1;
            let zero = self.events[j].new_value.is_zero();
            assert(self.history()[j as int].1 == self.events[j as int].new_value@);
            if !zero {
                let x = self.events[j].timestamp;
                assert(self.history()[j as int].0 == x);
                return Some(x);
            }
        }
        None
    }

    /// Gets the timestamp of the first event.
    pub fn get_first_event(&self) -> (r: Option<Timestamp>)
        ensures
            r == if self.history().len() > 0 {
                Some(self.history().first().0)
            } else {
                None
            },
    {
        if self.events.len() > 0 {
            Some(self.events[0].timestamp)
        } else {
            None
        }
    }

    /// Gets the timestamp of the last event.
    pub fn get_last_event(&self) -> (r: Option<Timestamp>)
        ensures
            r == if self.history().len() > 0 {
                Some(self.history().last().0)
            } else {
                None
            },
    {
        if self.events.len() > 0 {
            Some(self.events[self.events.len() - 1].timestamp)
        } else {
            None
        }
    }

    /// Appends the label of the signal.
    pub fn write_label(&self, out: &mut Vec<char>)
        ensures
            final(out)@ == old(out)@ + self.label(),
    {
        append_str(out, self.id.as_str());
        append_str(out, " (");
        append_str(out, self.name.as_str());
        append_str(out, ")");
        assert(out@ =~= old(out)@ + self.label());
    }

    /// Appends the line of statistics of the signal.
    pub fn write_stats(&self, out: &mut Vec<char>)
        ensures
            final(out)@ == old(out)@ + self.stats_line(),
    {
        self.write_label(out);
        append_str(out, " - width: ");
        push_digits(out, self.width as u64);
        append_str(out, ", edges: ");
        push_digits(out, self.events.len() as u64);
        if self.events.len() > 0 {
            append_str(out, ", from: ");
            self.events[0].timestamp.write_to(out);
            append_str(out, ", to: ");
            self.events[self.events.len() - 1].timestamp.write_to(out);
        }
        append_str(out, "\n");
        assert(out@ =~= old(out)@ + self.stats_line());
    }

    /// Formats some statistics of the signal: its label, its width, the
    /// number of its events and, if it has any, the timestamps of the
    /// first and the last one.
    pub fn format_stats(&self) -> (r: String)
        ensures
            r@ == self.stats_line(),
    {
        let mut out: Vec<char> = Vec::new();
        self.write_stats(&mut out);
        string_of(&out)
    }

    /// Appends the line that shows the value of the signal at an instant.
    pub fn write_value_at(&self, out: &mut Vec<char>, timestamp: Timestamp)
        requires
            self.wf(),
        ensures
            final(out)@ == old(out)@ + self.value_line(timestamp),
    {
        self.write_label(out);
        match self.event_at(timestamp) {
            Some(v) => {
                append_str(out, " -> ");
                v.write_to(out);
            },
            None => {
                append_str(out, " = ");
                self.value_at(timestamp).write_to(out);
            },
        }
        append_str(out, "\n");
        assert(out@ =~= old(out)@ + self.value_line(timestamp));
    }

    /// Formats the value of the signal at a given time.
    pub fn format_value_at(&self, timestamp: Timestamp) -> (r: String)
        requires
            self.wf(),
        ensures
            r@ == self.value_line(timestamp),
    {
        let mut out: Vec<char> = Vec::new();
        self.write_value_at(&mut out, timestamp);
        string_of(&out)
    }
}

/// A history without one of its events is still increasing.
pub proof fn lemma_remove_keeps_order(h: Seq<(Timestamp, ValueView)>, k: int)
    requires
        increasing(h),
        0 <= k < h.len(),
    ensures
        increasing(h.remove(k)),
{
    let g = h.remove(k);
    assert forall|a: int, b: int| 0 <= a < b < g.len() implies g[a].0.femtos()
        < g[b].0.femtos() by {
        let a0 = if a < k {
            a
        } else {
            a + 1
        };
        let b0 = if b < k {
            b
        } else {
            b + 1
        };
        assert(g[a] == h[a0] && g[b] == h[b0]);
    }
}

/// Putting an event at its place keeps the timestamps of a history
/// increasing, and the position of the event that follows is within the
/// history or its end.
#[verifier::spinoff_prover]
#[verifier::rlimit(60)]
pub proof fn lemma_placed_keeps_order(
    d: ValueView,
    h: Seq<(Timestamp, ValueView)>,
    t: Timestamp,
    v: ValueView,
)
    requires
        increasing(h),
    ensures
        increasing(placed(d, h, t, v).0),
        0 <= placed(d, h, t, v).1 <= placed(d, h, t, v).0.len(),
{
    lemma_counts_split(h, t);
    let i = count_before(h, t);
    let g = placed(d, h, t, v).0;
    if 0 <= i < h.len() && h[i].0.femtos() == t.femtos() {
        if prior(d, h, i).same(v) {
            lemma_remove_keeps_order(h, i);
        } else {
            assert forall|a: int, b: int| 0 <= a < b < g.len() implies g[a].0.femtos()
                < g[b].0.femtos() by {
                assert(g[a].0 == h[a].0 && g[b].0 == h[b].0);
            }
        }
    } else if !prior(d, h, i).same(v) {
        assert forall|a: int, b: int| 0 <= a < b < g.len() implies g[a].0.femtos()
            < g[b].0.femtos() by {
            let a0 = if a < i {
                a
            } else {
                a - 1
            };
            let b0 = if b < i {
                b
            } else {
                b - 1
            };
            if a == i {
                assert(g[b] == h[b0]);
                assert(!has_event_at(h, t));
                assert(h[b0].0.femtos() >= t.femtos());
                assert(h[b0].0.femtos() != t.femtos());
            } else if b == i {
                assert(g[a] == h[a0]);
            } else {
                assert(g[a] == h[a0] && g[b] == h[b0]);
            }
        }
    }
}

/// Adding an event keeps the timestamps of a history increasing.
pub proof fn lemma_added_keeps_order(
    d: ValueView,
    h: Seq<(Timestamp, ValueView)>,
    t: Timestamp,
    v: ValueView,
)
    requires
        increasing(h),
    ensures
        increasing(added(d, h, t, v)),
{
    lemma_placed_keeps_order(d, h, t, v);
    let (g, k) = placed(d, h, t, v);
    if 0 <= k < g.len() {
        lemma_remove_keeps_order(g, k);
    }
}

/// Whether a history has an event with this very timestamp.
pub open spec fn has_instant(h: Seq<(Timestamp, ValueView)>, x: Timestamp) -> bool {
    exists|m: int| 0 <= m < h.len() && (#[trigger] h[m]).0 == x
}

/// An event of a history to which an event was added is at the instant
/// of the added one or has the timestamp of an event that was there.
#[verifier::rlimit(50)]
pub proof fn lemma_added_instants(
    d: ValueView,
    h: Seq<(Timestamp, ValueView)>,
    t: Timestamp,
    v: ValueView,
    j: int,
)
    requires
        increasing(h),
        0 <= j < added(d, h, t, v).len(),
    ensures
        added(d, h, t, v)[j].0.femtos() == t.femtos() || has_instant(h, added(d, h, t, v)[j].0),
{
    lemma_counts_split(h, t);
    let (g, k) = placed(d, h, t, v);
    let r = added(d, h, t, v);
    let j1 = if r.len() == g.len() || j < k {
        j
    } else {
        j + 1
    };
    assert(r[j] == g[j1]);
    let i = count_before(h, t);
    if 0 <= i < h.len() && h[i].0.femtos() == t.femtos() {
        if prior(d, h, i).same(v) {
            let m = if j1 < i {
                j1
            } else {
                j1 + 1
            };
            assert(g[j1] == h[m]);
        } else {
            assert(g[j1].0 == h[j1].0);
        }
    } else if prior(d, h, i).same(v) {
        assert(g[j1] == h[j1]);
    } else {
        if j1 < i {
            assert(g[j1] == h[j1]);
        } else if j1 > i {
            assert(g[j1] == h[j1 - 1]);
        }
    }
}

/// Every event of the history but the one at the position changes the
/// value.
pub open spec fn changing_but_at(d: ValueView, h: Seq<(Timestamp, ValueView)>, k: int) -> bool {
    forall|j: int| 0 <= j < h.len() && j != k ==> !prior(d, h, j).same(#[trigger] h[j].1)
}

/// Where every event but one changes the value, and the event after that
/// one changes the value of that one, the history without a repetition at
/// that one is a history in which every event changes the value.
#[verifier::spinoff_prover]
#[verifier::rlimit(60)]
pub proof fn lemma_settled_changing(d: ValueView, g: Seq<(Timestamp, ValueView)>, k: int)
    requires
        0 <= k <= g.len(),
        changing_but_at(d, g, k),
        k + 1 < g.len() ==> !g[k].1.same(g[k + 1].1),
    ensures
        changing(d, settled(d, g, k)),
{
    let r = settled(d, g, k);
    if 0 <= k < g.len() && prior(d, g, k).same(g[k].1) {
        let f = prior(d, g, k);
        assert forall|j: int| 0 <= j < r.len() implies !prior(d, r, j).same(#[trigger] r[j].1) by {
            if j < k {
                assert(r[j] == g[j]);
                if j > 0 {
                    assert(r[j - 1] == g[j - 1]);
                }
                assert(prior(d, r, j) == prior(d, g, j));
            } else if j == k {
                assert(r[j] == g[j + 1]);
                if k > 0 {
                    assert(r[k - 1] == g[k - 1]);
                }
                assert(prior(d, r, j) == f);
                lemma_same_is_equivalence(f, g[k].1, g[k + 1].1);
                lemma_same_is_equivalence(g[k].1, f, g[k + 1].1);
            } else {
                assert(r[j] == g[j + 1]);
                assert(r[j - 1] == g[j]);
                assert(prior(d, r, j) == prior(d, g, j + 1));
            }
        }
    } else {
        assert forall|j: int| 0 <= j < r.len() implies !prior(d, r, j).same(#[trigger] r[j].1) by {}
    }
}

/// Putting an event at its place leaves every event changing the value
/// but, at most, the one that follows the place.
#[verifier::spinoff_prover]
#[verifier::rlimit(60)]
pub proof fn lemma_placed_changing(
    d: ValueView,
    h: Seq<(Timestamp, ValueView)>,
    t: Timestamp,
    v: ValueView,
)
    requires
        increasing(h),
        changing(d, h),
    ensures
        changing_but_at(d, placed(d, h, t, v).0, placed(d, h, t, v).1),
        placed(d, h, t, v).1 + 1 < placed(d, h, t, v).0.len() ==> !placed(d, h, t, v).0[placed(
            d,
            h,
            t,
            v,
        ).1].1.same(placed(d, h, t, v).0[placed(d, h, t, v).1 + 1].1),
{
    lemma_counts_split(h, t);
    let i = count_before(h, t);
    let (g, k) = placed(d, h, t, v);
    let p = prior(d, h, i);
    if 0 <= i < h.len() && h[i].0.femtos() == t.femtos() {
        if p.same(v) {
            assert forall|j: int| 0 <= j < g.len() && j != k implies !prior(d, g, j).same(
                #[trigger] g[j].1,
            ) by {
                if j < i {
                    assert(g[j] == h[j]);
                    assert(prior(d, g, j) == prior(d, h, j));
                } else {
                    assert(g[j] == h[j + 1]);
                    assert(g[j - 1] == h[j]);
                    assert(prior(d, g, j) == prior(d, h, j + 1));
                }
            }
            if k + 1 < g.len() {
                assert(g[k] == h[i + 1] && g[k + 1] == h[i + 2]);
                assert(prior(d, h, i + 2) == h[i + 1].1);
            }
        } else {
            assert forall|j: int| 0 <= j < g.len() && j != k implies !prior(d, g, j).same(
                #[trigger] g[j].1,
            ) by {
                if j < i {
                    assert(g[j] == h[j]);
                    assert(prior(d, g, j) == prior(d, h, j));
                } else if j == i {
                    assert(prior(d, g, j) == p);
                } else {
                    assert(g[j] == h[j]);
                    assert(g[j - 1] == h[j - 1]);
                    assert(prior(d, g, j) == prior(d, h, j));
                }
            }
            if k + 1 < g.len() {
                assert(g[k] == h[i + 1] && g[k + 1] == h[i + 2]);
                assert(prior(d, h, i + 2) == h[i + 1].1);
            }
        }
    } else if !p.same(v) {
        assert forall|j: int| 0 <= j < g.len() && j != k implies !prior(d, g, j).same(
            #[trigger] g[j].1,
        ) by {
            if j < i {
                assert(g[j] == h[j]);
                assert(prior(d, g, j) == prior(d, h, j));
            } else if j == i {
                assert(prior(d, g, j) == p);
            } else {
                assert(g[j] == h[j - 1]);
                assert(g[j - 1] == h[j - 2]);
                assert(prior(d, g, j) == prior(d, h, j - 1));
            }
        }
        if k + 1 < g.len() {
            assert(g[k] == h[i] && g[k + 1] == h[i + 1]);
            assert(prior(d, h, i + 1) == h[i].1);
        }
    } else {
        assert forall|j: int| 0 <= j < g.len() && j != k implies !prior(d, g, j).same(
            #[trigger] g[j].1,
        ) by {}
        if k + 1 < g.len() {
            assert(prior(d, h, k + 1) == h[k].1);
        }
    }
}

/// After an event is added to a history in which every event changes the
/// value, every event changes the value again.
pub proof fn lemma_added_changing(
    d: ValueView,
    h: Seq<(Timestamp, ValueView)>,
    t: Timestamp,
    v: ValueView,
)
    requires
        increasing(h),
        changing(d, h),
    ensures
        changing(d, added(d, h, t, v)),
{
    lemma_placed_keeps_order(d, h, t, v);
    lemma_placed_changing(d, h, t, v);
    lemma_settled_changing(d, placed(d, h, t, v).0, placed(d, h, t, v).1);
}

/// The value at an instant is the value at the last event at or before
/// that instant, which is the value of that event; where there is no such
/// event, it is the default.
pub proof fn lemma_value_at_latest_event(s: Signal, t: Timestamp)
    requires
        s.wf(),
    ensures
        count_upto(s.history(), t) == 0 ==> s.value_at_spec(t) == s.default_value(),
        count_upto(s.history(), t) == 0 ==> forall|j: int|
            0 <= j < s.history().len() ==> (#[trigger] s.history()[j]).0.femtos() > t.femtos(),
        count_upto(s.history(), t) > 0 ==> ({
            let e = s.history()[count_upto(s.history(), t) - 1];
            &&& e.0.femtos() <= t.femtos()
            &&& forall|j: int|
                0 <= j < s.history().len() && (#[trigger] s.history()[j]).0.femtos()
                    <= t.femtos() ==> s.history()[j].0.femtos() <= e.0.femtos()
            &&& s.value_at_spec(t) == s.value_at_spec(e.0)
            &&& s.value_at_spec(t) == e.1
        }),
{
    let h = s.history();
    lemma_counts_split(h, t);
    let k = count_upto(h, t);
    if k > 0 {
        let e = h[k - 1];
        assert forall|j: int| 0 <= j < k implies (#[trigger] h[j]).0.femtos()
            <= e.0.femtos() by {
            if j < k - 1 {
                assert(h[j].0.femtos() < h[k - 1].0.femtos());
            }
        }
        assert forall|j: int| k <= j < h.len() implies (#[trigger] h[j]).0.femtos()
            > e.0.femtos() by {
            assert(h[k - 1].0.femtos() < h[j].0.femtos());
        }
        lemma_count_upto(h, e.0, k);
    }
}

/// Adding the same event a second time changes nothing, and after an
/// event was added whose value is the one already in force before it, the
/// history has no event at that instant.
#[verifier::spinoff_prover]
#[verifier::rlimit(60)]
pub proof fn lemma_add_event_twice(
    d: ValueView,
    h: Seq<(Timestamp, ValueView)>,
    t: Timestamp,
    v: ValueView,
)
    requires
        increasing(h),
        changing(d, h),
    ensures
        added(d, added(d, h, t, v), t, v) == added(d, h, t, v),
        prior(d, h, count_before(h, t)).same(v) ==> !has_event_at(added(d, h, t, v), t),
{
    lemma_counts_split(h, t);
    lemma_placed_keeps_order(d, h, t, v);
    lemma_added_keeps_order(d, h, t, v);
    lemma_added_changing(d, h, t, v);
    let i = count_before(h, t);
    let (g, k) = placed(d, h, t, v);
    let r = added(d, h, t, v);
    let p = prior(d, h, i);
    let hit = 0 <= i < h.len() && h[i].0.femtos() == t.femtos();
    assert forall|j: int| 0 <= j < i && j < r.len() implies (#[trigger] r[j]).0.femtos()
        < t.femtos() && r[j] == h[j] by {
        assert(g[j] == h[j]);
        assert(r[j] == g[j]);
    }
    if p.same(v) {
        assert forall|j: int| i <= j < r.len() implies (#[trigger] r[j]).0.femtos()
            > t.femtos() by {
            if hit {
                let j1 = if r.len() == g.len() {
                    j
                } else {
                    j + 1
                };
                assert(r[j] == g[j1]);
                assert(g[j1] == h[j1 + 1]);
                assert(h[i].0.femtos() < h[j1 + 1].0.femtos());
            } else {
                assert(r == h);
                assert(!has_event_at(h, t));
                assert(h[j].0.femtos() >= t.femtos());
            }
        }
        lemma_count_before(r, t, i);
        assert(prior(d, r, i) == p) by {
            if i > 0 {
                assert(r[i - 1] == h[i - 1]);
            }
        }
        if has_event_at(r, t) {
            let w = choose|w: int| 0 <= w < r.len() && (#[trigger] r[w]).0.femtos()
                == t.femtos();
            if w < i {
                assert(r[w].0.femtos() < t.femtos());
            } else {
                assert(r[w].0.femtos() > t.femtos());
            }
        }
        assert(placed(d, r, t, v) == (r, i));
        if i < r.len() {
            assert(!prior(d, r, i).same(r[i].1));
        }
    } else {
        assert(g[i].1 == v && g[i].0.femtos() == t.femtos());
        assert(r[i] == g[i]);
        assert forall|j: int| i <= j < r.len() implies (#[trigger] r[j]).0.femtos()
            >= t.femtos() by {
            if j > i {
                assert(r[i].0.femtos() < r[j].0.femtos());
            }
        }
        lemma_count_before(r, t, i);
        assert(prior(d, r, i) == p) by {
            if i > 0 {
                assert(r[i - 1] == h[i - 1]);
            }
        }
        assert(r.update(i, (r[i].0, v)) =~= r);
        assert(placed(d, r, t, v) == (r, i + 1));
        if i + 1 < r.len() {
            assert(!prior(d, r, i + 1).same(r[i + 1].1));
        }
    }
}

} // verus!
