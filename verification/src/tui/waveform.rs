//! What a column of a waveform shows.
use crate::signaldb::db::{SignalDB, SignalNotFound};
use crate::signaldb::signal::count_within;
use crate::signaldb::time::Timestamp;
use crate::signaldb::value::{SignalValue, ValueView};
use vstd::prelude::*;

verus! {

/// What a column of a waveform shows of a signal.
#[derive(Debug, PartialEq, Eq)]
pub enum WaveformElement {
    Low,
    High,
    Value(String),
    Transition,
    RisingEdge,
    FallingEdge,
    Invalid,
    LowDensity,
    MediumDensity,
    HighDensity,
}

/// The mathematical value of a `WaveformElement`.
pub enum ElementView {
    Low,
    High,
    Value(Seq<char>),
    Transition,
    RisingEdge,
    FallingEdge,
    Invalid,
    LowDensity,
    MediumDensity,
    HighDensity,
}

impl View for WaveformElement {
    type V = ElementView;

    open spec fn view(&self) -> ElementView {
        match self {
            WaveformElement::Low => ElementView::Low,
            WaveformElement::High => ElementView::High,
            WaveformElement::Value(v) => ElementView::Value(v@),
            WaveformElement::Transition => ElementView::Transition,
            WaveformElement::RisingEdge => ElementView::RisingEdge,
            WaveformElement::FallingEdge => ElementView::FallingEdge,
            WaveformElement::Invalid => ElementView::Invalid,
            WaveformElement::LowDensity => ElementView::LowDensity,
            WaveformElement::MediumDensity => ElementView::MediumDensity,
            WaveformElement::HighDensity => ElementView::HighDensity,
        }
    }
}

impl Clone for WaveformElement {
    fn clone(&self) -> (r: WaveformElement)
        ensures
            r@ == self@,
    {
        match self {
            WaveformElement::Low => WaveformElement::Low,
            WaveformElement::High => WaveformElement::High,
            WaveformElement::Value(v) => WaveformElement::Value(v.clone()),
            WaveformElement::Transition => WaveformElement::Transition,
            WaveformElement::RisingEdge => WaveformElement::RisingEdge,
            WaveformElement::FallingEdge => WaveformElement::FallingEdge,
            WaveformElement::Invalid => WaveformElement::Invalid,
            WaveformElement::LowDensity => WaveformElement::LowDensity,
            WaveformElement::MediumDensity => WaveformElement::MediumDensity,
            WaveformElement::HighDensity => WaveformElement::HighDensity,
        }
    }
}

/// The width of a value: the number of its bits, two for a symbol.
pub open spec fn width_of(v: ValueView) -> nat {
    match v {
        ValueView::Literal(bits, _) => bits.len(),
        ValueView::Symbol(_) => 2,
    }
}

/// What a column shows of a signal that has a value before the period
/// of the column, a number of events within it, and a value at its end.
///
/// A period that ends with an invalid value is invalid. A period without
/// events, or with the one event that ends an invalid value, shows the
/// level of a signal of one bit and the value of any other. A period with
/// one event shows an edge, which rises from zero, or a transition of a
/// wider signal. More events show as a density: low up to three, medium
/// up to ten.
pub open spec fn element_of(before: ValueView, events: nat, after: ValueView) -> ElementView {
    if after.invalid() {
        ElementView::Invalid
    } else if events == 0 || (events == 1 && before.invalid()) {
        if width_of(before) == 1 {
            if after.same(ValueView::zero()) {
                ElementView::Low
            } else {
                ElementView::High
            }
        } else {
            ElementView::Value(before.notation())
        }
    } else if events == 1 {
        if width_of(before) == 1 {
            if before.same(ValueView::zero()) {
                ElementView::RisingEdge
            } else {
                ElementView::FallingEdge
            }
        } else {
            ElementView::Transition
        }
    } else if events <= 3 {
        ElementView::LowDensity
    } else if events <= 10 {
        ElementView::MediumDensity
    } else {
        ElementView::HighDensity
    }
}

impl WaveformElement {
    /// Tells what a column shows of a signal, from the summary of its
    /// events in the period of the column.
    pub fn from_events(before: &SignalValue, nb_events: usize, after: &SignalValue) -> (r:
        WaveformElement)
        ensures
            r@ == element_of(before@, nb_events as nat, after@),
    {
        if after.is_invalid() {
            WaveformElement::Invalid
        } else if nb_events == 0 || (nb_events == 1 && before.is_invalid()) {
            if before.width() == 1 {
                if after.is_zero() {
                    WaveformElement::Low
                } else {
                    WaveformElement::High
                }
            } else {
                WaveformElement::Value(before.to_string())
            }
        } else if nb_events == 1 {
            if before.width() == 1 {
                if before.is_zero() {
                    WaveformElement::RisingEdge
                } else {
                    WaveformElement::FallingEdge
                }
            } else {
                WaveformElement::Transition
            }
        } else if nb_events <= 3 {
            WaveformElement::LowDensity
        } else if nb_events <= 10 {
            WaveformElement::MediumDensity
        } else {
            WaveformElement::HighDensity
        }
    }

    /// Tells what a column shows of a signal of a store in the period from
    /// `begin` up to `end`. What lies after the current time of the store
    /// is not known yet: a period that ends there is invalid, whatever the
    /// signal. Any other period shows the events of the signal in it.
    pub fn of_period(db: &SignalDB, signal_id: &str, begin: Timestamp, end: Timestamp) -> (r:
        Result<WaveformElement, SignalNotFound>)
        requires
            db.wf(),
        ensures
            end.femtos() > db.now.femtos() ==> (r matches Ok(e) && e@ == ElementView::Invalid),
            end.femtos() <= db.now.femtos() ==> match db.signal_of(signal_id@) {
                Some(s) => r matches Ok(e) && e@ == element_of(
                    s.value_before_spec(begin),
                    count_within(s.history(), begin, end) as nat,
                    s.value_before_spec(end),
                ),
                None => r matches Err(e) && e.signal_id@ == signal_id@,
            },
    {
        if db.now.earlier_than(&end) {
            Ok(WaveformElement::Invalid)
        } else {
            match db.events_between(signal_id, begin, end) {
                Ok((before, nb_events, after)) => Ok(
                    WaveformElement::from_events(&before, nb_events, &after),
                ),
                Err(e) => Err(e),
            }
        }
    }
}

} // verus!
