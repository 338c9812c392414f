//! The signal store: the signals of a trace, the scopes in which they
//! were declared, the instants at which anything changed, and the
//! searches that were run over them.
use super::scope::{
    entries_view, lemma_listing_within, lemma_put, lemma_with_path, lemma_within_more,
    lemma_within_put, lemma_within_with_path, path_names, Scope, ScopeChild, ScopeView,
};
use super::signal::{count_within, has_event_at, is_next_edge, is_previous_rising_edge, Signal};
use super::time::{Scale, Timestamp};
use super::value::{BitValue, SignalValue, ValueFormat, ValueView};
use crate::names::{holds, lemma_rank_split, lemma_with_name, locate, rank, sorted, views, with_name};
use crate::search::expr::Expr;
use crate::search::grammar::parsed;
use crate::search::types::{eval, scan, tick_before, FindingsSummary, Progress, Search};
use crate::text::same_chars;
use crate::text::digits;
use crate::vcd::lexer::LexerView;
use crate::vcd::parser::{file, ParseView, Parser, SyntaxError};
use crate::text::{append_str, chars_of, push_digits, string_of};
use vstd::prelude::*;

verus! {

/// Signal Database
pub struct SignalDB {
    pub scope: Scope,
    /// Identifiers of the signals, in dictionary order
    pub keys: Vec<Vec<char>>,
    /// The signals, each at the place of its identifier
    pub signals: Vec<Signal>,
    /// The instants at which anything was reported, the earliest first
    pub timestamps: Vec<Timestamp>,
    pub now: Timestamp,
    /// The searches, each under the text of its expression
    pub searches: Vec<Search>,
    pub search_names: Vec<Vec<char>>,
    pub status: String,
    pub initialized: bool,
    pub valid: bool,
    pub timescale: Timestamp,
}

#[derive(Debug)]
pub struct SignalNotFound {
    pub signal_id: String,
}

#[derive(Debug)]
pub struct SearchNotFound {
    pub expr: String,
}

#[derive(Debug)]
pub struct InitializationError {
    pub msg: String,
}

#[derive(Debug)]
pub struct ScopeNotFound {
    pub path: Vec<String>,
}

impl SignalNotFound {
    /// Creates the error for a signal that the store does not have.
    pub fn new(signal_id: &str) -> (r: SignalNotFound)
        ensures
            r.signal_id@ == signal_id@,
    {
        SignalNotFound { signal_id: string_of(&chars_of(signal_id)) }
    }

    /// The message of the error.
    pub fn to_string(&self) -> (r: String)
        ensures
            r@ == "Signal not found in the database: "@ + self.signal_id@,
    {
        let mut out: Vec<char> = Vec::new();
        append_str(&mut out, "Signal not found in the database: ");
        append_str(&mut out, self.signal_id.as_str());
        string_of(&out)
    }
}

impl ScopeNotFound {
    /// Creates the error for a path that leads to no scope of the store.
    pub fn new(path: &[&str]) -> (r: ScopeNotFound)
        ensures
            super::scope::texts(r.path@) == path_names(path@),
    {
        let mut names: Vec<String> = Vec::new();
        let mut i: usize = 0;
        while i < path.len()
            invariant
                i <= path.len(),
                names.len() == i,
                forall|j: int| 0 <= j < i ==> (#[trigger] names[j])@ == path[j]@,
            decreases path.len() - i,
        {
            names.push(string_of(&chars_of(path[i])));
            i += 1;
        }
        assert(super::scope::texts(names@) =~= path_names(path@));
        ScopeNotFound { path: names }
    }
}

impl SearchNotFound {
    /// Creates the error for a search that the store does not have.
    pub fn new(expr: &str) -> (r: SearchNotFound)
        ensures
            r.expr@ == expr@,
    {
        SearchNotFound { expr: string_of(&chars_of(expr)) }
    }

    /// The message of the error.
    pub fn to_string(&self) -> (r: String)
        ensures
            r@ == "Search not found in the database: "@ + self.expr@,
    {
        let mut out: Vec<char> = Vec::new();
        append_str(&mut out, "Search not found in the database: ");
        append_str(&mut out, self.expr.as_str());
        string_of(&out)
    }
}

impl InitializationError {
    /// Creates the error of a store that could not be initialized.
    pub fn new(msg: &str) -> (r: InitializationError)
        ensures
            r.msg@ == msg@,
    {
        InitializationError { msg: string_of(&chars_of(msg)) }
    }

    /// The message of the error.
    pub fn to_string(&self) -> (r: String)
        ensures
            r@ == "Failed to initialize the database: "@ + self.msg@,
    {
        let mut out: Vec<char> = Vec::new();
        append_str(&mut out, "Failed to initialize the database: ");
        append_str(&mut out, self.msg.as_str());
        string_of(&out)
    }
}

/// The instants increase strictly.
pub open spec fn rising(ts: Seq<Timestamp>) -> bool {
    forall|i: int, j: int| 0 <= i < j < ts.len() ==> (#[trigger] ts[i]).femtos() < (#[trigger] ts[j]).femtos()
}

/// Two spaces for each level of depth.
pub open spec fn indent(depth: int) -> Seq<char>
    decreases depth,
{
    if depth <= 0 {
        Seq::empty()
    } else {
        indent(depth - 1) + "  "@
    }
}

impl SignalDB {
    /// The identifiers of the signals, in dictionary order.
    pub open spec fn ids(&self) -> Seq<Seq<char>> {
        views(self.keys@)
    }

    /// The signal with the given identifier, if there is one.
    pub open spec fn signal_of(&self, id: Seq<char>) -> Option<Signal> {
        if holds(self.ids(), id) && 0 <= rank(self.ids(), id) < self.signals.len() {
            Some(self.signals[rank(self.ids(), id)])
        } else {
            None
        }
    }

    /// The store is consistent: each signal stands at the place of its
    /// identifier and is itself well-formed, every signal of the scope
    /// tree is in the store, and the instants start at zero, increase
    /// strictly and end with the current time.
    pub open spec fn wf(&self) -> bool {
        &&& self.scope.wf()
        &&& self.scope.model().signals_within(self.ids())
        &&& sorted(self.ids())
        &&& self.keys.len() == self.signals.len()
        &&& forall|i: int|
            0 <= i < self.signals.len() ==> (#[trigger] self.signals[i]).wf() && self.signals[i].id@
                == self.keys[i]@
        &&& self.timestamps.len() > 0
        &&& self.timestamps[0].femtos() == 0
        &&& rising(self.timestamps@)
        &&& self.now == self.timestamps@.last()
        &&& self.searches_wf()
    }

    /// Each search stands under the text of its expression, no text
    /// twice, and is itself well-formed.
    pub open spec fn searches_wf(&self) -> bool {
        &&& self.searches.len() == self.search_names.len()
        &&& forall|i: int| 0 <= i < self.searches.len() ==> (#[trigger] self.searches[i]).wf()
        &&& forall|i: int, j: int|
            0 <= i < j < self.search_names.len() ==> (#[trigger] self.search_names[i])@ != (
            #[trigger] self.search_names[j])@
    }

    /// The line of a listing entry in the statistics.
    pub open spec fn stats_entry(&self, e: (Seq<char>, ScopeChild, int)) -> Seq<char> {
        "# "@ + indent(e.2) + match e.1 {
            ScopeChild::Signal => self.signal_of(e.0)->0.stats_line(),
            ScopeChild::Scope => e.0 + "\n"@,
        }
    }

    /// The statistics of a list of entries, a line for each.
    pub open spec fn stats_text(&self, entries: Seq<(Seq<char>, ScopeChild, int)>) -> Seq<char>
        decreases entries.len(),
    {
        if entries.len() == 0 {
            Seq::empty()
        } else {
            self.stats_text(entries.drop_last()) + self.stats_entry(entries.last())
        }
    }

    /// The line of a listing entry in a dump of values.
    pub open spec fn value_entry(&self, e: (Seq<char>, ScopeChild, int), t: Timestamp) -> Seq<char> {
        indent(e.2) + match e.1 {
            ScopeChild::Signal => self.signal_of(e.0)->0.value_line(t),
            ScopeChild::Scope => e.0 + "\n"@,
        }
    }

    /// The values of a list of entries at an instant, a line for each.
    pub open spec fn values_text(
        &self,
        entries: Seq<(Seq<char>, ScopeChild, int)>,
        t: Timestamp,
    ) -> Seq<char>
        decreases entries.len(),
    {
        if entries.len() == 0 {
            Seq::empty()
        } else {
            self.values_text(entries.drop_last(), t) + self.value_entry(entries.last(), t)
        }
    }

    /// Creates a new and empty `SignalDB`: no signal, the scope `top`,
    /// the one instant zero, and a timescale of one picosecond.
    pub fn new() -> (r: SignalDB)
        ensures
            r.wf(),
            r.ids().len() == 0,
            r.scope.model() == ScopeView::leaf("top"@, Seq::empty()),
            r.timestamps@ == seq![Timestamp { value: 0, scale: Scale::Second }],
            r.searches.len() == 0,
            r.status@ == "Test"@,
            !r.initialized,
            r.valid,
            r.timescale == (Timestamp { value: 1, scale: Scale::Picosecond }),
    {
        let mut timestamps: Vec<Timestamp> = Vec::new();
        timestamps.push(Timestamp::origin());
        let r = SignalDB {
            scope: Scope::new(string_of(&chars_of("top"))),
            keys: Vec::new(),
            signals: Vec::new(),
            timestamps,
            now: Timestamp::origin(),
            searches: Vec::new(),
            search_names: Vec::new(),
            status: string_of(&chars_of("Test")),
            initialized: false,
            valid: true,
            timescale: Timestamp::new(1, Scale::Picosecond),
        };
        proof {
            assert(r.ids() =~= Seq::<Seq<char>>::empty());
            assert(r.timestamps@ =~= seq![Timestamp { value: 0, scale: Scale::Second }]);
        }
        r
    }

    /// Indicates that the `SignalDB` is initialized, meaning that no
    /// additional signals are expected to be added after that point.
    pub fn mark_as_initialized(&mut self)
        ensures
            *final(self) == (SignalDB { initialized: true, ..*old(self) }),
            final(self)@ == old(self)@.ready(),
            old(self).events_at_instants() ==> final(self).events_at_instants(),
    {
        let ghost before_all = *self;
        self.initialized = true;
        assert(self.signal_models() =~= old(self).signal_models());
        proof {
            lemma_instants_same(&before_all, self);
        }
    }

    /// Whether the `SignalDB` was marked as initialized.
    pub fn is_initialized(&self) -> (r: bool)
        ensures
            r == self.initialized,
    {
        self.initialized
    }

    /// Indicates that the content of the `SignalDB` may be invalid.
    pub fn mark_as_invalid(&mut self)
        ensures
            *final(self) == (SignalDB { valid: false, ..*old(self) }),
    {
        self.valid = false;
    }

    /// Checks that the content of the `SignalDB` has not be been marked
    /// as invalid.
    pub fn is_valid(&self) -> (r: bool)
        ensures
            r == self.valid,
    {
        self.valid
    }

    /// Checks, once the `SignalDB` is marked as initialized, that its
    /// content has not been invalidated; the error carries the status.
    pub fn wait_until_initialized(&self) -> (r: Result<(), InitializationError>)
        requires
            self.initialized,
        ensures
            self.valid ==> r is Ok,
            !self.valid ==> (r matches Err(e) && e.msg@ == self.status@),
    {
        if self.valid {
            Ok(())
        } else {
            Err(InitializationError::new(self.status.as_str()))
        }
    }

    /// Sets the status message of the `SignalDB`.
    pub fn set_status(&mut self, new_status: &str)
        ensures
            final(self).status@ == new_status@,
            *final(self) == (SignalDB { status: final(self).status, ..*old(self) }),
    {
        self.status = string_of(&chars_of(new_status));
    }

    /// Gets the status message of the `SignalDB`
    pub fn get_status(&self) -> (r: String)
        ensures
            r@ == self.status@,
    {
        self.status.clone()
    }

    /// Sets the unit in which the timestamps of a dump count.
    pub fn set_timescale(&mut self, timescale: Timestamp)
        ensures
            *final(self) == (SignalDB { timescale, ..*old(self) }),
            final(self)@ == old(self)@.with_timescale(timescale),
            old(self).events_at_instants() ==> final(self).events_at_instants(),
    {
        let ghost before_all = *self;
        self.timescale = timescale;
        assert(self.signal_models() =~= old(self).signal_models());
        proof {
            lemma_instants_same(&before_all, self);
        }
    }

    /// Gets the unit in which the timestamps of a dump count.
    pub fn get_timescale(&self) -> (r: Timestamp)
        ensures
            r == self.timescale,
    {
        self.timescale
    }

    /// Creates a scope in the `SignalDB`, with the scopes around it where
    /// they are missing.
    pub fn create_scope(&mut self, path: &[&str])
        requires
            old(self).wf(),
        ensures
            final(self).wf(),
            final(self).scope.model() == old(self).scope.model().with_path(path_names(path@)),
            final(self).scope.model().has_path(path_names(path@)),
            *final(self) == (SignalDB { scope: final(self).scope, ..*old(self) }),
            final(self)@ == old(self)@.with_scope(path_names(path@)),
            old(self).events_at_instants() ==> final(self).events_at_instants(),
    {
        let ghost before_all = *self;
        proof {
            lemma_with_path(self.scope.model(), path_names(path@));
            lemma_within_with_path(self.scope.model(), path_names(path@), self.ids());
        }
        self.scope.add_scope(path);
        assert(self.signal_models() =~= old(self).signal_models());
        proof {
            lemma_instants_same(&before_all, self);
        }
    }

    /// Finds the place of a signal by its identifier.
    pub fn find_signal(&self, signal_id: &str) -> (r: Option<usize>)
        requires
            self.wf(),
        ensures
            r matches Some(i) ==> i < self.signals.len() && self.signal_of(signal_id@) == Some(
                self.signals[i as int],
            ) && i == rank(self.ids(), signal_id@),
            r is None ==> self.signal_of(signal_id@) is None,
    {
        let key = chars_of(signal_id);
        let (found, index) = locate(&self.keys, &key);
        if found {
            Some(index)
        } else {
            None
        }
    }

    /// The store holds the signal under the key.
    pub open spec fn kept(db: &SignalDB, signal: Signal, key: Seq<char>) -> bool {
        exists|j: int|
            0 <= j < db.signals.len() && j < db.keys.len() && #[trigger] db.signals[j] == signal
                && db.keys[j]@ == key
    }

    /// Puts a signal into the store at the place of its identifier; a
    /// signal that had the same identifier is replaced.
    fn put_signal(&mut self, signal: Signal)
        requires
            old(self).keys.len() == old(self).signals.len(),
            sorted(old(self).ids()),
        ensures
            final(self).keys.len() == final(self).signals.len(),
            final(self).ids() == with_name(old(self).ids(), signal.id@),
            sorted(final(self).ids()),
            final(self).signal_of(signal.id@) == Some(signal),
            forall|id: Seq<char>|
                id != signal.id@ ==> final(self).signal_of(id) == old(self).signal_of(id),
            forall|i: int|
                0 <= i < final(self).signals.len() && i != rank(final(self).ids(), signal.id@)
                    ==> SignalDB::kept(old(self), #[trigger] final(self).signals[i], final(self).keys[i]@),
            final(self).keys[rank(final(self).ids(), signal.id@)]@ == signal.id@,
            *final(self) == (SignalDB {
                keys: final(self).keys,
                signals: final(self).signals,
                ..*old(self)
            }),
    {
        let ghost ids = self.ids();
        let ghost id = signal.id@;
        let ghost more = with_name(ids, id);
        proof {
            lemma_with_name(ids, id);
            lemma_rank_split(ids, id);
        }
        let key = chars_of(signal.id.as_str());
        let (found, index) = locate(&self.keys, &key);
        let ghost old_signals = self.signals@;
        let ghost old_keys = self.keys@;
        if found {
            self.signals[index] = signal;
            assert(self.ids() =~= more);
            proof {
                crate::names::lemma_unique_place(more, id, index as int);
            }
            assert forall|i: int|
                0 <= i < self.signals.len() && i != rank(self.ids(), id) implies SignalDB::kept(
                old(self),
                #[trigger] self.signals[i],
                self.keys[i]@,
            ) by {
                assert(old_signals[i] == self.signals[i] && old_keys[i] == self.keys[i]);
            }
        } else {
            self.keys.insert(index, key);
            self.signals.insert(index, signal);
            assert(self.ids() =~= more);
            proof {
                assert(more[index as int] == id);
                crate::names::lemma_unique_place(more, id, index as int);
            }
            assert forall|i: int|
                0 <= i < self.signals.len() && i != rank(self.ids(), id) implies SignalDB::kept(
                old(self),
                #[trigger] self.signals[i],
                self.keys[i]@,
            ) by {
                if i < index {
                    assert(old_signals[i] == self.signals[i] && old_keys[i] == self.keys[i]);
                } else if i > index {
                    assert(old_signals[i - 1] == self.signals[i] && old_keys[i - 1]
                        == self.keys[i]);
                }
            }
        }
        proof {
            lemma_rank_split(more, id);
            assert(more[index as int] == id);
            crate::names::lemma_unique_place(more, id, index as int);
            assert forall|other: Seq<char>| other != id implies self.signal_of(other) == old(self).signal_of(other) by {
                lemma_rank_split(ids, other);
                lemma_rank_split(more, other);
                if holds(ids, other) {
                    let k = rank(ids, other);
                    let k2 = if found || k < index {
                        k
                    } else {
                        k + 1
                    };
                    assert(more[k2] == other);
                    crate::names::lemma_unique_place(more, other, k2);
                }
            }
        }
    }

    /// Adds a new signal in the ``SignalDB``, in the scope at the end of
    /// the path. A signal that had the same identifier is replaced. Where
    /// the path leads to no scope, the store keeps what it held and the
    /// path comes back as an error.
    #[verifier::rlimit(50)]
    pub fn declare_signal(&mut self, scope: &[&str], signal: Signal) -> (r: Result<
        (),
        ScopeNotFound,
    >)
        requires
            old(self).wf(),
            signal.wf(),
        ensures
            final(self).wf(),
            r is Ok == old(self).scope.model().has_path(path_names(scope@)),
            r matches Err(e) ==> super::scope::texts(e.path@) == path_names(scope@)
                && final(self)@ == old(self)@ && final(self).scope.model() == old(
                self,
            ).scope.model() && *final(self) == (SignalDB {
                scope: final(self).scope,
                ..*old(self)
            }),
            r is Ok ==> final(self).ids() == with_name(old(self).ids(), signal.id@),
            r is Ok ==> (final(self).signal_of(signal.id@) matches Some(s) && s.id == signal.id
                && s.name == signal.name && s.width == signal.width && s.events == signal.events
                && s.default == signal.default && super::scope::texts(s.path@) == old(
                self,
            ).scope.model().at(path_names(scope@)).path.push(
                old(self).scope.model().at(path_names(scope@)).name,
            )),
            r is Ok ==> forall|id: Seq<char>|
                id != signal.id@ ==> final(self).signal_of(id) == old(self).signal_of(id),
            r is Ok ==> final(self).scope.model() == old(self).scope.model().put(
                path_names(scope@),
                old(self).scope.model().at(path_names(scope@)).with_signal(signal.id@),
            ),
            forall|p: Seq<Seq<char>>|
                old(self).scope.model().has_path(p) ==> final(self).scope.model().has_path(p),
            r is Ok ==> *final(self) == (SignalDB {
                scope: final(self).scope,
                keys: final(self).keys,
                signals: final(self).signals,
                ..*old(self)
            }),
            r is Ok && signal.history().len() == 0 && signal.default_value() == ValueView::Literal(
                Seq::new(signal.width as nat, |i: int| BitValue::Undefined),
                ValueFormat::Hex,
            ) ==> final(self)@ == old(self)@.with_signal(
                path_names(scope@),
                signal.id@,
                signal.name@,
                signal.width as nat,
            ),
            old(self).events_at_instants() && (r is Ok ==> signal.history().len() == 0) ==> final(self).events_at_instants(),
    {
        let ghost old_signal = signal;
        let mut signal = signal;
        proof {
            if self.scope.model().has_path(path_names(scope@)) {
                lemma_declare_in_tree(
                    self.scope.model(),
                    path_names(scope@),
                    signal.id@,
                    self.ids(),
                );
            }
        }
        match self.scope.get_scope_by_path(scope) {
            Some(s) => {
                s.add_signal(&mut signal);
            },
            None => {
                proof {
                    assert(self.signal_models() =~= old(self).signal_models());
                    lemma_instants_same(old(self), self);
                }
                return Err(ScopeNotFound::new(scope));
            },
        }
        let ghost mid = *self;
        self.put_signal(signal);
        proof {
            assert(signal.history() == old_signal.history());
            assert forall|i: int| 0 <= i < self.signals.len() implies (
            #[trigger] self.signals[i]).wf() && self.signals[i].id@ == self.keys[i]@ by {
                lemma_rank_split(self.ids(), signal.id@);
                if i != rank(self.ids(), signal.id@) {
                    assert(SignalDB::kept(&mid, self.signals[i], self.keys[i]@));
                    let j = choose|j: int|
                        0 <= j < mid.signals.len() && j < mid.keys.len() && #[trigger] mid.signals[j]
                            == self.signals[i] && mid.keys[j]@ == self.keys[i]@;
                    assert(old(self).signals[j].wf());
                }
            }
            if old_signal.history().len() == 0 {
                assert(self.signal_of(old_signal.id@)->0.history() =~= Seq::empty());
            }
            assert(self.signal_models() =~= old(self).signal_models().insert(
                old_signal.id@,
                self.signal_of(old_signal.id@)->0.model(),
            ));
            if old(self).events_at_instants() && old_signal.history().len() == 0 {
                assert forall|k: int| 0 <= k < old(self).timestamps@.len() implies occurs(
                    self.timestamps@,
                    #[trigger] old(self).timestamps@[k],
                ) by {}
                lemma_instants_kept(old(self), self, Some(old_signal.id@));
            }
        }
        Ok(())
    }
}

/// Declaring a signal in a scope of a well-formed tree whose signals are
/// all in the store keeps both, and keeps every path of the tree.
pub proof fn lemma_declare_in_tree(
    tree: ScopeView,
    p: Seq<Seq<char>>,
    id: Seq<char>,
    ids: Seq<Seq<char>>,
)
    requires
        tree.wf(),
        tree.has_path(p),
        tree.signals_within(ids),
        sorted(ids),
    ensures
        tree.at(p).wf(),
        tree.at(p).with_signal(id).wf(),
        tree.put(p, tree.at(p).with_signal(id)).wf(),
        tree.put(p, tree.at(p).with_signal(id)).signals_within(with_name(ids, id)),
        forall|q: Seq<Seq<char>>|
            tree.has_path(q) ==> tree.put(p, tree.at(p).with_signal(id)).has_path(q),
{
    let more = with_name(ids, id);
    let node = tree.at(p).with_signal(id);
    lemma_with_name(ids, id);
    super::scope::lemma_at(tree, p);
    lemma_within_put(tree, p, node, ids);
    lemma_with_name(tree.at(p).signals, id);
    assert(node.child_names() =~= tree.at(p).child_names());
    assert(node.wf());
    lemma_put(tree, p, node);
    lemma_within_more(tree, ids, more);
    lemma_within_put(tree, p, node, more);
    assert(node.signals_within(more)) by {
        assert(tree.at(p).signals_within(more));
        assert forall|i: int| 0 <= i < node.signals.len() implies holds(
            more,
            #[trigger] node.signals[i],
        ) by {
            let x = node.signals[i];
            assert(holds(node.signals, x));
            if x != id {
                assert(holds(tree.at(p).signals, x));
                let k = choose|k: int|
                    0 <= k < tree.at(p).signals.len() && #[trigger] tree.at(p).signals[k] == x;
                assert(holds(ids, tree.at(p).signals[k]));
            }
        }
    }
    assert forall|q: Seq<Seq<char>>| tree.has_path(q) implies tree.put(p, node).has_path(q) by {
        super::scope::lemma_put_keeps_paths(tree, p, node, q);
    }
}

/// The instants after one more was reported: it is recorded if it is
/// later than the last one.
pub open spec fn advanced(ts: Seq<Timestamp>, t: Timestamp) -> Seq<Timestamp> {
    if ts.len() > 0 && t.femtos() > ts.last().femtos() {
        ts.push(t)
    } else {
        ts
    }
}

/// Goes over the instants of a `SignalDB`, the earliest first.
pub struct EventIterator<'a> {
    pub signaldb: &'a SignalDB,
    pub index: usize,
}

impl<'a> EventIterator<'a> {
    /// Creates the walk over the instants of a store, at its beginning.
    pub fn new(signaldb: &'a SignalDB) -> (r: EventIterator<'a>)
        ensures
            r.signaldb == signaldb,
            r.index == 0,
    {
        EventIterator { signaldb, index: 0 }
    }

    /// The next instant, if there is one left.
    pub fn next(&mut self) -> (r: Option<Timestamp>)
        ensures
            final(self).signaldb == old(self).signaldb,
            r == if old(self).index < old(self).signaldb.timestamps.len() {
                Some(old(self).signaldb.timestamps[old(self).index as int])
            } else {
                None
            },
            final(self).index == if r is Some {
                old(self).index + 1
            } else {
                old(self).index as int
            },
    {
        if self.index < self.signaldb.timestamps.len() {
            let timestamp = self.signaldb.timestamps[self.index];
            self.index += 1;
            Some(timestamp)
        } else {
            None
        }
    }
}

impl SignalDB {
    /// Sets the current time of the `SignalDB`: an instant later than the
    /// current time is recorded and becomes the current time, any other
    /// is ignored.
    pub fn set_time(&mut self, timestamp: Timestamp)
        requires
            old(self).wf(),
        ensures
            final(self).wf(),
            final(self).timestamps@ == advanced(old(self).timestamps@, timestamp),
            *final(self) == (SignalDB {
                timestamps: final(self).timestamps,
                now: final(self).now,
                ..*old(self)
            }),
            final(self)@ == old(self)@.with_time(timestamp),
            old(self).events_at_instants() ==> final(self).events_at_instants(),
    {
        if self.now.earlier_than(&timestamp) {
            let ghost before = self.timestamps@;
            self.timestamps.push(timestamp);
            self.now = timestamp;
            proof {
                assert forall|i: int, j: int| 0 <= i < j < self.timestamps.len() implies (
                #[trigger] self.timestamps[i]).femtos() < (#[trigger] self.timestamps[j]).femtos() by {
                    if j == before.len() {
                        if i < before.len() - 1 {
                            assert(before[i].femtos() < before[before.len() - 1].femtos());
                        }
                    } else {
                        assert(before[i].femtos() < before[j].femtos());
                    }
                }
            }
        }
        proof {
            assert(self.signal_models() =~= old(self).signal_models());
            assert(self.timestamps@ =~= advanced(old(self).timestamps@, timestamp));
            if old(self).events_at_instants() {
                assert forall|k: int| 0 <= k < old(self).timestamps@.len() implies occurs(
                    self.timestamps@,
                    #[trigger] old(self).timestamps@[k],
                ) by {
                    assert(self.timestamps@[k] == old(self).timestamps@[k]);
                }
                lemma_instants_kept(old(self), self, None);
            }
        }
    }

    /// Inserts an event in the specified signal, after the time of the
    /// event was reported as by `set_time`.
    #[verifier::rlimit(50)]
    pub fn insert_event(&mut self, signal_id: &str, timestamp: Timestamp, new_value: SignalValue) -> (r:
        Result<(), SignalNotFound>)
        requires
            old(self).wf(),
        ensures
            final(self).wf(),
            final(self).timestamps@ == advanced(old(self).timestamps@, timestamp),
            *final(self) == (SignalDB {
                timestamps: final(self).timestamps,
                now: final(self).now,
                signals: final(self).signals,
                ..*old(self)
            }),
            forall|id: Seq<char>|
                id != signal_id@ ==> final(self).signal_of(id) == old(self).signal_of(id),
            match old(self).signal_of(signal_id@) {
                Some(s) => r is Ok && final(self).signal_of(signal_id@) is Some && final(self).signal_of(signal_id@)->0.history() == super::signal::added(
                    s.default_value(),
                    s.history(),
                    timestamp,
                    new_value@.expanded(s.width as nat),
                ) && final(self).signal_of(signal_id@)->0.default_value() == s.default_value()
                    && final(self).signal_of(signal_id@)->0.id == s.id && final(self).signal_of(
                    signal_id@,
                )->0.name == s.name && final(self).signal_of(signal_id@)->0.width == s.width
                    && final(self).signal_of(signal_id@)->0.path == s.path,
                None => (r matches Err(e) && e.signal_id@ == signal_id@) && final(self).signals
                    == old(self).signals,
            },
            old(self).events_at_instants() && occurs(final(self).timestamps@, timestamp) ==> final(self).events_at_instants(),
    {
        self.set_time(timestamp);
        let ghost timed = *self;
        match self.find_signal(signal_id) {
            Some(index) => {
                let ghost before = self.signals@;
                self.signals[index].add_event(timestamp, new_value);
                proof {
                    assert(self.signals@ =~= before.update(index as int, self.signals[index as int]));
                    assert forall|i: int| 0 <= i < self.signals.len() implies (
                    #[trigger] self.signals[i]).wf() && self.signals[i].id@ == self.keys[i]@ by {
                        if i != index {
                            assert(self.signals[i] == before[i]);
                        }
                    }
                    assert forall|id: Seq<char>| id != signal_id@ implies self.signal_of(id) == old(self).signal_of(id) by {
                        lemma_rank_split(self.ids(), id);
                        lemma_rank_split(self.ids(), signal_id@);
                        if holds(self.ids(), id) {
                            assert(self.ids()[rank(self.ids(), id)] == id);
                            assert(self.ids()[index as int] == signal_id@);
                            assert(rank(self.ids(), id) != index);
                        }
                    }
                    if old(self).events_at_instants() && occurs(self.timestamps@, timestamp) {
                        let was = old(self).signal_of(signal_id@)->0;
                        let now = self.signal_of(signal_id@)->0;
                        let value = new_value@.expanded(was.width as nat);
                        assert forall|j: int| 0 <= j < now.history().len() implies occurs(
                            self.timestamps@,
                            (#[trigger] now.history()[j]).0,
                        ) by {
                            super::signal::lemma_added_instants(
                                was.default_value(),
                                was.history(),
                                timestamp,
                                value,
                                j,
                            );
                            let x = now.history()[j].0;
                            if x.femtos() == timestamp.femtos() {
                                let m = choose|m: int|
                                    0 <= m < self.timestamps@.len() && (
                                    #[trigger] self.timestamps@[m]).femtos() == timestamp.femtos();
                                assert(self.timestamps@[m].femtos() == x.femtos());
                            } else {
                                let m = choose|m: int|
                                    0 <= m < was.history().len() && (#[trigger] was.history()[m]).0
                                        == x;
                                lemma_instant_of_event(&timed, signal_id@, m);
                            }
                        }
                        lemma_instants_kept(&timed, self, Some(signal_id@));
                    }
                }
                Ok(())
            },
            None => {
                proof {
                    lemma_instants_same(&timed, self);
                }
                Err(SignalNotFound::new(signal_id))
            },
        }
    }

    /// Sets the value of a signal at the current time.
    #[verifier::rlimit(50)]
    pub fn set_current_value(&mut self, signal_id: &str, new_value: SignalValue) -> (r: Result<
        (),
        SignalNotFound,
    >)
        requires
            old(self).wf(),
        ensures
            final(self).wf(),
            final(self).timestamps@ == old(self).timestamps@,
            *final(self) == (SignalDB {
                signals: final(self).signals,
                timestamps: final(self).timestamps,
                ..*old(self)
            }),
            forall|id: Seq<char>|
                id != signal_id@ ==> final(self).signal_of(id) == old(self).signal_of(id),
            match old(self).signal_of(signal_id@) {
                Some(s) => r is Ok && final(self).signal_of(signal_id@) is Some && final(self).signal_of(signal_id@)->0.history() == super::signal::added(
                    s.default_value(),
                    s.history(),
                    old(self).now,
                    new_value@.expanded(s.width as nat),
                ) && final(self).signal_of(signal_id@)->0.default_value() == s.default_value()
                    && final(self).signal_of(signal_id@)->0.id == s.id && final(self).signal_of(
                    signal_id@,
                )->0.name == s.name && final(self).signal_of(signal_id@)->0.width == s.width
                    && final(self).signal_of(signal_id@)->0.path == s.path,
                None => (r matches Err(e) && e.signal_id@ == signal_id@) && final(self).signals
                    == old(self).signals,
            },
            old(self).signal_of(signal_id@) is Some ==> final(self)@ == old(self)@.with_value(
                signal_id@,
                new_value@,
            ),
            old(self).signal_of(signal_id@) is None ==> final(self)@ == old(self)@,
            old(self).events_at_instants() ==> final(self).events_at_instants(),
    {
        let t = self.now;
        let r = self.insert_event(signal_id, t, new_value);
        proof {
            assert(self.timestamps@ == old(self).timestamps@);
            assert(self.timestamps@[self.timestamps@.len() - 1].femtos() == t.femtos());
            assert(occurs(self.timestamps@, t));
            if old(self).signal_of(signal_id@) is Some {
                let s = self.signal_of(signal_id@)->0;
                assert(self.signal_models() =~= old(self).signal_models().insert(
                    signal_id@,
                    s.model(),
                ));
            } else {
                assert(self.signal_models() =~= old(self).signal_models());
            }
        }
        r
    }

    /// Returns all the timestamp where an event has been reported.
    pub fn get_timestamps(&self) -> (r: EventIterator<'_>)
        ensures
            r.signaldb == self,
            r.index == 0,
    {
        EventIterator::new(self)
    }

    /// Returns value of a signal at a given time.
    pub fn value_at(&self, signal_id: &str, timestamp: Timestamp) -> (r: Result<
        SignalValue,
        SignalNotFound,
    >)
        requires
            self.wf(),
        ensures
            match self.signal_of(signal_id@) {
                Some(s) => r matches Ok(v) && v@ == s.value_at_spec(timestamp),
                None => r matches Err(e) && e.signal_id@ == signal_id@,
            },
    {
        match self.find_signal(signal_id) {
            Some(index) => Ok(self.signals[index].value_at(timestamp)),
            None => Err(SignalNotFound::new(signal_id)),
        }
    }

    /// Returns event of a signal reported at a given time.
    pub fn event_at(&self, signal_id: &str, timestamp: Timestamp) -> (r: Result<
        Option<SignalValue>,
        SignalNotFound,
    >)
        requires
            self.wf(),
        ensures
            match self.signal_of(signal_id@) {
                Some(s) => r matches Ok(e) && e is Some == has_event_at(s.history(), timestamp) && (e
                    matches Some(v) ==> v@ == s.value_at_spec(timestamp)),
                None => r matches Err(e) && e.signal_id@ == signal_id@,
            },
    {
        match self.find_signal(signal_id) {
            Some(index) => Ok(self.signals[index].event_at(timestamp)),
            None => Err(SignalNotFound::new(signal_id)),
        }
    }

    /// Gets the full name of a signal.
    pub fn get_signal_fullname(&self, signal_id: &str) -> (r: Result<String, SignalNotFound>)
        requires
            self.wf(),
        ensures
            match self.signal_of(signal_id@) {
                Some(s) => r matches Ok(name) && name@ == s.name@,
                None => r matches Err(e) && e.signal_id@ == signal_id@,
            },
    {
        match self.find_signal(signal_id) {
            Some(index) => Ok(self.signals[index].name.clone()),
            None => Err(SignalNotFound::new(signal_id)),
        }
    }

    /// Checks that a signal exists in the `SignalDB`.
    pub fn signal_exists(&self, signal_id: &str) -> (r: bool)
        requires
            self.wf(),
        ensures
            r == self.signal_of(signal_id@) is Some,
            r == holds(self.ids(), signal_id@),
    {
        proof {
            lemma_rank_split(self.ids(), signal_id@);
        }
        self.find_signal(signal_id).is_some()
    }

    /// The store has a signal with this identifier on which the
    /// predicate can answer yes.
    pub open spec fn accepted<F: Fn(&Signal) -> bool>(&self, f: F, id: Seq<char>) -> bool {
        exists|i: int|
            0 <= i < self.signals.len() && #[trigger] self.ids()[i] == id && f.ensures(
                (&self.signals[i],),
                true,
            )
    }

    /// Searches signals in the `SignalDB` that fulfill a given predicate.
    /// The identifiers come in dictionary order.
    pub fn find_signals<F>(&self, f: F) -> (r: Vec<String>) where F: Fn(&Signal) -> bool
        requires
            self.wf(),
            forall|i: int| 0 <= i < self.signals.len() ==> f.requires((&self.signals[i],)),
        ensures
            sorted(super::scope::texts(r@)),
            forall|k: int| 0 <= k < r.len() ==> self.accepted(f, (#[trigger] r[k])@),
            forall|i: int|
                0 <= i < self.signals.len() && !f.ensures((&self.signals[i],), false) ==> holds(
                    super::scope::texts(r@),
                    #[trigger] self.ids()[i],
                ),
    {
        let mut matches: Vec<String> = Vec::new();
        let ghost ids = self.ids();
        let ghost mut picked: Seq<int> = Seq::empty();
        let mut i: usize = 0;
        while i < self.signals.len()
            invariant
                i <= self.signals.len(),
                self.wf(),
                ids == self.ids(),
                forall|j: int| 0 <= j < self.signals.len() ==> f.requires((&self.signals[j],)),
                picked.len() == matches.len(),
                forall|k: int|
                    0 <= k < picked.len() ==> 0 <= (#[trigger] picked[k]) < i && ids[picked[k]]
                        == matches[k]@ && f.ensures((&self.signals[picked[k]],), true),
                forall|k: int, l: int| 0 <= k < l < picked.len() ==> picked[k] < picked[l],
                forall|j: int|
                    0 <= j < i && !f.ensures((&self.signals[j],), false) ==> holds(
                        super::scope::texts(matches@),
                        #[trigger] ids[j],
                    ),
            decreases self.signals.len() - i,
        {
            let ghost before = matches@;
            if f(&self.signals[i]) {
                matches.push(string_of(&self.keys[i]));
                proof {
                    picked = picked.push(i as int);
                    assert(super::scope::texts(matches@)[before.len() as int] == ids[i as int]);
                    assert forall|j: int|
                        0 <= j < i && !f.ensures((&self.signals[j],), false) implies holds(
                        super::scope::texts(matches@),
                        #[trigger] ids[j],
                    ) by {
                        let k = choose|k: int|
                            0 <= k < before.len() && #[trigger] super::scope::texts(before)[k]
                                == ids[j];
                        assert(super::scope::texts(matches@)[k] == ids[j]);
                    }
                }
            }
            i += 1;
        }
        proof {
            assert forall|a: int, b: int| 0 <= a < b < matches.len() implies crate::text::lex_lt(
                #[trigger] super::scope::texts(matches@)[a],
                #[trigger] super::scope::texts(matches@)[b],
            ) by {
                assert(picked[a] < picked[b]);
                assert(crate::text::lex_lt(ids[picked[a]], ids[picked[b]]));
            }
            assert forall|k: int| 0 <= k < matches.len() implies self.accepted(
                f,
                (#[trigger] matches[k])@,
            ) by {
                let i = picked[k];
                assert(0 <= i < self.signals.len() && self.ids()[i] == matches[k]@ && f.ensures(
                    (&self.signals[i],),
                    true,
                ));
            }
        }
        matches
    }

    /// Returns a vector of all the signal IDs registered in the
    /// `SignalDB`, in dictionary order.
    pub fn get_signal_ids(&self) -> (r: Vec<String>)
        ensures
            super::scope::texts(r@) == self.ids(),
    {
        let mut out: Vec<String> = Vec::new();
        let mut i: usize = 0;
        while i < self.keys.len()
            invariant
                i <= self.keys.len(),
                out.len() == i,
                super::scope::texts(out@) == self.ids().take(i as int),
            decreases self.keys.len() - i,
        {
            let ghost before = out@;
            out.push(string_of(&self.keys[i]));
            i += 1;
            assert(out@.len() == i);
            assert(before.len() == i - 1) by {
                assert(super::scope::texts(before).len() == self.ids().take(i - 1).len());
            }
            assert forall|j: int| 0 <= j < i implies super::scope::texts(out@)[j]
                == self.ids().take(i as int)[j] by {
                if j < i - 1 {
                    assert(super::scope::texts(before)[j] == self.ids().take(i - 1)[j]);
                    assert(out@[j] == before[j]);
                }
            }
            assert(super::scope::texts(out@) =~= self.ids().take(i as int));
        }
        assert(self.ids().take(self.keys.len() as int) == self.ids());
        out
    }

    /// Gets the timestamp of the next rising edge of a given signal.
    pub fn get_next_rising_edge(&self, signal_id: &str, timestamp: Timestamp) -> (r: Result<
        Option<Timestamp>,
        SignalNotFound,
    >)
        requires
            self.wf(),
        ensures
            match self.signal_of(signal_id@) {
                Some(s) => r matches Ok(e) && is_next_edge(s.history(), timestamp, true, e),
                None => r matches Err(e) && e.signal_id@ == signal_id@,
            },
    {
        match self.find_signal(signal_id) {
            Some(index) => Ok(self.signals[index].get_next_rising_edge(timestamp)),
            None => Err(SignalNotFound::new(signal_id)),
        }
    }

    /// Gets the timestamp of the previous rising edge of a given signal.
    pub fn get_previous_rising_edge(&self, signal_id: &str, timestamp: Timestamp) -> (r: Result<
        Option<Timestamp>,
        SignalNotFound,
    >)
        requires
            self.wf(),
        ensures
            match self.signal_of(signal_id@) {
                Some(s) => r matches Ok(e) && is_previous_rising_edge(s.history(), timestamp, e),
                None => r matches Err(e) && e.signal_id@ == signal_id@,
            },
    {
        match self.find_signal(signal_id) {
            Some(index) => Ok(self.signals[index].get_previous_rising_edge(timestamp)),
            None => Err(SignalNotFound::new(signal_id)),
        }
    }

    /// Gets the timestamp of the next falling edge of a given signal.
    pub fn get_next_falling_edge(&self, signal_id: &str, timestamp: Timestamp) -> (r: Result<
        Option<Timestamp>,
        SignalNotFound,
    >)
        requires
            self.wf(),
        ensures
            match self.signal_of(signal_id@) {
                Some(s) => r matches Ok(e) && is_next_edge(s.history(), timestamp, false, e),
                None => r matches Err(e) && e.signal_id@ == signal_id@,
            },
    {
        match self.find_signal(signal_id) {
            Some(index) => Ok(self.signals[index].get_next_falling_edge(timestamp)),
            None => Err(SignalNotFound::new(signal_id)),
        }
    }

    /// Gets the timestamp of the first event of the signal.
    pub fn get_first_event(&self, signal_id: &str) -> (r: Result<Option<Timestamp>, SignalNotFound>)
        requires
            self.wf(),
        ensures
            match self.signal_of(signal_id@) {
                Some(s) => r matches Ok(e) && e == (if s.history().len() > 0 {
                    Some(s.history().first().0)
                } else {
                    None
                }),
                None => r matches Err(e) && e.signal_id@ == signal_id@,
            },
    {
        match self.find_signal(signal_id) {
            Some(index) => Ok(self.signals[index].get_first_event()),
            None => Err(SignalNotFound::new(signal_id)),
        }
    }

    /// Gets the timestamp of the last event of the signal.
    pub fn get_last_event(&self, signal_id: &str) -> (r: Result<Option<Timestamp>, SignalNotFound>)
        requires
            self.wf(),
        ensures
            match self.signal_of(signal_id@) {
                Some(s) => r matches Ok(e) && e == (if s.history().len() > 0 {
                    Some(s.history().last().0)
                } else {
                    None
                }),
                None => r matches Err(e) && e.signal_id@ == signal_id@,
            },
    {
        match self.find_signal(signal_id) {
            Some(index) => Ok(self.signals[index].get_last_event()),
            None => Err(SignalNotFound::new(signal_id)),
        }
    }

    /// Gets an overview of the events of a signal during a given time
    /// period: the value just before the period, the number of events in
    /// it, and the value just before its end.
    pub fn events_between(&self, signal_id: &str, begin: Timestamp, end: Timestamp) -> (r: Result<
        (SignalValue, usize, SignalValue),
        SignalNotFound,
    >)
        requires
            self.wf(),
        ensures
            match self.signal_of(signal_id@) {
                Some(s) => r matches Ok(t) && t.0@ == s.value_before_spec(begin) && t.1
                    == count_within(s.history(), begin, end) && t.2@ == s.value_before_spec(end),
                None => r matches Err(e) && e.signal_id@ == signal_id@,
            },
    {
        match self.find_signal(signal_id) {
            Some(index) => Ok(self.signals[index].events_between(begin, end)),
            None => Err(SignalNotFound::new(signal_id)),
        }
    }

    /// Appends two spaces for each level of depth.
    fn write_indent(out: &mut Vec<char>, depth: u64)
        ensures
            final(out)@ == old(out)@ + indent(depth as int),
    {
        let mut i: u64 = 0;
        while i < depth
            invariant
                i <= depth,
                out@ == old(out)@ + indent(i as int),
            decreases depth - i,
        {
            append_str(out, "  ");
            i += 1;
            assert(out@ =~= old(out)@ + indent(i as int));
        }
    }

    /// Formats some stats of the `SignalDB`: a line for each entry of the
    /// scope tree, indented by its depth, with the statistics of a signal
    /// or the name of a scope.
    #[verifier::rlimit(50)]
    pub fn format_stats(&self) -> (r: String)
        requires
            self.wf(),
        ensures
            r@ == self.stats_text(self.scope.model().listing(0)),
    {
        let entries = self.scope.traverse();
        let ghost listing = self.scope.model().listing(0);
        proof {
            lemma_listing_within(self.scope.model(), self.ids(), 0);
        }
        let mut out: Vec<char> = Vec::new();
        let mut k: usize = 0;
        assert(listing.take(0) =~= Seq::<(Seq<char>, ScopeChild, int)>::empty());
        while k < entries.len()
            invariant
                k <= entries.len(),
                self.wf(),
                entries_view(entries@) == listing,
                forall|j: int|
                    0 <= j < listing.len() && (#[trigger] listing[j]).1 == ScopeChild::Signal
                        ==> holds(self.ids(), listing[j].0),
                out@ == self.stats_text(listing.take(k as int)),
            decreases entries.len() - k,
        {
            let entry = &entries[k];
            proof {
                let t = listing.take(k + 1);
                assert(t.drop_last() =~= listing.take(k as int));
                assert(t.last() == listing[k as int]);
                assert(listing[k as int] == (entry.name@, entry.kind, entry.depth as int));
            }
            let ghost before = out@;
            proof {
                lemma_rank_split(self.ids(), entry.name@);
            }
            append_str(&mut out, "# ");
            SignalDB::write_indent(&mut out, entry.depth);
            match entry.kind {
                ScopeChild::Signal => {
                    match self.find_signal(entry.name.as_str()) {
                        Some(index) => {
                            self.signals[index].write_stats(&mut out);
                        },
                        None => {},
                    }
                },
                ScopeChild::Scope => {
                    append_str(&mut out, entry.name.as_str());
                    append_str(&mut out, "\n");
                },
            }
            assert(out@ =~= before + self.stats_entry(listing[k as int]));
            k += 1;
        }
        assert(listing.take(entries.len() as int) == listing);
        string_of(&out)
    }

    /// Formats the value of the signals at a given time: a line for each
    /// entry of the scope tree, indented by its depth, with the value of
    /// a signal or the name of a scope.
    #[verifier::rlimit(40)]
    pub fn format_values_at(&self, timestamp: Timestamp) -> (r: String)
        requires
            self.wf(),
        ensures
            r@ == self.values_text(self.scope.model().listing(0), timestamp),
    {
        let entries = self.scope.traverse();
        let ghost listing = self.scope.model().listing(0);
        proof {
            lemma_listing_within(self.scope.model(), self.ids(), 0);
        }
        let mut out: Vec<char> = Vec::new();
        let mut k: usize = 0;
        assert(listing.take(0) =~= Seq::<(Seq<char>, ScopeChild, int)>::empty());
        while k < entries.len()
            invariant
                k <= entries.len(),
                self.wf(),
                entries_view(entries@) == listing,
                forall|j: int|
                    0 <= j < listing.len() && (#[trigger] listing[j]).1 == ScopeChild::Signal
                        ==> holds(self.ids(), listing[j].0),
                out@ == self.values_text(listing.take(k as int), timestamp),
            decreases entries.len() - k,
        {
            let entry = &entries[k];
            proof {
                let t = listing.take(k + 1);
                assert(t.drop_last() =~= listing.take(k as int));
                assert(t.last() == listing[k as int]);
                assert(listing[k as int] == (entry.name@, entry.kind, entry.depth as int));
            }
            let ghost before = out@;
            proof {
                lemma_rank_split(self.ids(), entry.name@);
            }
            SignalDB::write_indent(&mut out, entry.depth);
            match entry.kind {
                ScopeChild::Signal => {
                    match self.find_signal(entry.name.as_str()) {
                        Some(index) => {
                            self.signals[index].write_value_at(&mut out, timestamp);
                        },
                        None => {},
                    }
                },
                ScopeChild::Scope => {
                    append_str(&mut out, entry.name.as_str());
                    append_str(&mut out, "\n");
                },
            }
            assert(out@ =~= before + self.value_entry(listing[k as int], timestamp));
            k += 1;
        }
        assert(listing.take(entries.len() as int) == listing);
        string_of(&out)
    }
}

/// What went wrong with a request to the store.
#[derive(Debug)]
pub enum DbError {
    SignalNotFound(SignalNotFound),
    SearchNotFound(SearchNotFound),
    SyntaxError(SyntaxError),
}

impl DbError {
    /// The message of the error.
    pub fn to_string(&self) -> (r: String)
        ensures
            r@ == match self {
                DbError::SignalNotFound(e) => "Signal not found in the database: "@ + e.signal_id@,
                DbError::SearchNotFound(e) => "Search not found in the database: "@ + e.expr@,
                DbError::SyntaxError(e) => e.message(),
            },
    {
        match self {
            DbError::SignalNotFound(e) => e.to_string(),
            DbError::SearchNotFound(e) => e.to_string(),
            DbError::SyntaxError(e) => e.to_string(),
        }
    }
}

/// The position of the first occurrence of a name in a list, or the
/// length of the list.
pub open spec fn position(names: Seq<Seq<char>>, name: Seq<char>) -> int
    decreases names.len(),
{
    if names.len() == 0 || names[0] == name {
        0
    } else {
        1 + position(names.skip(1), name)
    }
}

/// The position of a name is within the list or its end; the name is at
/// its position if it is in the list at all, and nowhere before.
pub proof fn lemma_position(names: Seq<Seq<char>>, name: Seq<char>)
    ensures
        0 <= position(names, name) <= names.len(),
        position(names, name) < names.len() ==> names[position(names, name)] == name,
        forall|i: int| 0 <= i < position(names, name) ==> #[trigger] names[i] != name,
    decreases names.len(),
{
    if names.len() > 0 && names[0] != name {
        let rest = names.skip(1);
        lemma_position(rest, name);
        assert forall|i: int| 0 <= i < position(names, name) implies #[trigger] names[i]
            != name by {
            if i > 0 {
                assert(rest[i - 1] == names[i]);
            }
        }
    }
}

/// The outcome of an expression depends on the signals of the store
/// only.
pub proof fn lemma_eval_signals(e: Expr, a: &SignalDB, b: &SignalDB, t: Timestamp)
    requires
        a.keys == b.keys,
        a.signals == b.signals,
    ensures
        eval(e, a, t) == eval(e, b, t),
    decreases e,
{
    match e {
        Expr::And(l, r) => {
            lemma_eval_signals(*l, a, b, t);
            lemma_eval_signals(*r, a, b, t);
        },
        Expr::Or(l, r) => {
            lemma_eval_signals(*l, a, b, t);
            lemma_eval_signals(*r, a, b, t);
        },
        Expr::Not(inner) => {
            lemma_eval_signals(*inner, a, b, t);
        },
        _ => {},
    }
}

/// The course of a search depends on the signals of the store only.
pub proof fn lemma_scan_signals(p: Progress, e: Expr, a: &SignalDB, b: &SignalDB, ts: Seq<Timestamp>)
    requires
        a.keys == b.keys,
        a.signals == b.signals,
    ensures
        scan(p, e, a, ts) == scan(p, e, b, ts),
    decreases ts.len(),
{
    if ts.len() > 0 {
        lemma_eval_signals(e, a, b, ts[0]);
        if ts[0].femtos() < p.latest.femtos() {
            lemma_scan_signals(p, e, a, b, ts.skip(1));
        } else if eval(e, a, ts[0]) is Ok {
            lemma_scan_signals(p.step(ts[0], eval(e, a, ts[0])->Ok_0), e, a, b, ts.skip(1));
        }
    }
}

impl SignalDB {
    /// The texts under which the searches stand.
    pub open spec fn search_texts(&self) -> Seq<Seq<char>> {
        views(self.search_names@)
    }

    /// The search that stands under a text, if there is one.
    pub open spec fn search_of(&self, text: Seq<char>) -> Option<Search> {
        let i = position(self.search_texts(), text);
        if 0 <= i < self.searches.len() && i < self.search_names.len() {
            Some(self.searches[i])
        } else {
            None
        }
    }

    /// Whether the two stores differ in their searches at most.
    pub open spec fn same_but_searches(&self, other: &SignalDB) -> bool {
        *self == (SignalDB {
            searches: self.searches,
            search_names: self.search_names,
            ..*other
        })
    }

    /// Finds the place of a search by the text of its expression.
    pub fn find_search(&self, expr: &str) -> (r: Option<usize>)
        requires
            self.wf(),
        ensures
            r matches Some(i) ==> i < self.searches.len() && i == position(
                self.search_texts(),
                expr@,
            ) && self.search_of(expr@) == Some(self.searches[i as int]) && self.search_names[i as int]@
                == expr@,
            r is None ==> self.search_of(expr@) is None && position(self.search_texts(), expr@)
                == self.searches.len(),
    {
        let key = chars_of(expr);
        let ghost names = self.search_texts();
        let mut i: usize = 0;
        assert(names.skip(0) == names);
        while i < self.search_names.len()
            invariant
                i <= self.search_names.len(),
                names == self.search_texts(),
                key@ == expr@,
                self.searches.len() == self.search_names.len(),
                position(names, expr@) == i + position(names.skip(i as int), expr@),
            decreases self.search_names.len() - i,
        {
            proof {
                assert(names.skip(i as int)[0] == self.search_names[i as int]@);
                assert(names.skip(i as int).skip(1) == names.skip(i + 1));
            }
            if same_chars(&self.search_names[i], &key) {
                return Some(i);
            }
            i += 1;
        }
        None
    }

    /// Puts a search under the text of its expression; a search that
    /// stood there is replaced.
    fn put_search(&mut self, expr: &str, search: Search)
        requires
            old(self).wf(),
            search.wf(),
        ensures
            final(self).wf(),
            final(self).same_but_searches(old(self)),
            final(self).search_of(expr@) == Some(search),
            forall|other: Seq<char>|
                other != expr@ ==> final(self).search_of(other) == old(self).search_of(other),
    {
        let ghost names = self.search_texts();
        proof {
            lemma_position(names, expr@);
        }
        match self.find_search(expr) {
            Some(i) => {
                let ghost before = self.searches@;
                self.searches[i] = search;
                proof {
                    assert(self.searches@ =~= before.update(i as int, search));
                    assert forall|k: int| 0 <= k < self.searches.len() implies (
                    #[trigger] self.searches[k]).wf() by {
                        if k != i {
                            assert(self.searches[k] == before[k]);
                        }
                    }
                    assert forall|other: Seq<char>| other != expr@ implies self.search_of(other)
                        == old(self).search_of(other) by {
                        lemma_position(names, other);
                    }
                }
            },
            None => {
                let ghost before = self.searches@;
                let ghost count = self.searches.len() as int;
                self.search_names.push(chars_of(expr));
                self.searches.push(search);
                proof {
                    let more = self.search_texts();
                    assert(more =~= names.push(expr@));
                    lemma_position_push(names, expr@, expr@);
                    assert forall|k: int| 0 <= k < self.searches.len() implies (
                    #[trigger] self.searches[k]).wf() by {
                        if k < count {
                            assert(self.searches[k] == before[k]);
                        }
                    }
                    assert forall|a: int, b: int|
                        0 <= a < b < self.search_names.len() implies (
                    #[trigger] self.search_names[a])@ != (#[trigger] self.search_names[b])@ by {
                        if b == count {
                            assert(names[a] == self.search_names[a]@);
                        } else {
                            assert(old(self).search_names[a]@ != old(self).search_names[b]@);
                        }
                    }
                    assert forall|other: Seq<char>| other != expr@ implies self.search_of(other)
                        == old(self).search_of(other) by {
                        lemma_position_push(names, expr@, other);
                        lemma_position(names, other);
                        if position(names, other) < count {
                            assert(self.searches[position(names, other)] == before[position(
                                names,
                                other,
                            )]);
                        }
                    }
                }
            },
        }
    }

    /// Searches in the database and formats the findings, each on a line
    /// of its own.
    pub fn search_all(&mut self, expr: &str) -> (r: Result<String, DbError>)
        requires
            old(self).wf(),
        ensures
            *final(self) == *old(self),
            match parsed(expr@) {
                None => r matches Err(DbError::SyntaxError(e)) && e.line@ == expr@,
                Some(e) => match scan(Progress::start(), e, old(self), old(self).timestamps@).1 {
                    Some(id) => r matches Err(DbError::SignalNotFound(err)) && err.signal_id@ == id,
                    None => r matches Ok(text) && text@ == crate::search::types::findings_text(
                        scan(Progress::start(), e, old(self), old(self).timestamps@).0.findings,
                    ),
                },
            },
    {
        let mut search = match Search::new(expr) {
            Ok(search) => search,
            Err(e) => {
                return Err(DbError::SyntaxError(e));
            },
        };
        match search.search_all(self) {
            Ok(()) => {},
            Err(e) => {
                return Err(DbError::SignalNotFound(e));
            },
        }
        Ok(search.format_findings())
    }

    /// Searches in the `SignalDB` and keeps the findings under the text of
    /// the expression, for the functions defined below.
    pub fn search(&mut self, expr: &str) -> (r: Result<(), DbError>)
        requires
            old(self).wf(),
        ensures
            final(self).wf(),
            final(self).same_but_searches(old(self)),
            forall|other: Seq<char>|
                other != expr@ ==> final(self).search_of(other) == old(self).search_of(other),
            match parsed(expr@) {
                None => (r matches Err(DbError::SyntaxError(e)) && e.line@ == expr@) && final(self).search_of(expr@) == old(self).search_of(expr@),
                Some(e) => match scan(Progress::start(), e, old(self), old(self).timestamps@).1 {
                    Some(id) => (r matches Err(DbError::SignalNotFound(err)) && err.signal_id@ == id)
                        && final(self).search_of(expr@) == old(self).search_of(expr@),
                    None => r is Ok && (final(self).search_of(expr@) matches Some(s) && s.expr@ == e
                        && s.progress() == scan(
                        Progress::start(),
                        e,
                        old(self),
                        old(self).timestamps@,
                    ).0.finished()),
                },
            },
    {
        let mut search = match Search::new(expr) {
            Ok(search) => search,
            Err(e) => {
                return Err(DbError::SyntaxError(e));
            },
        };
        match search.search_all(self) {
            Ok(()) => {},
            Err(e) => {
                return Err(DbError::SignalNotFound(e));
            },
        }
        self.put_search(expr, search);
        Ok(())
    }

    /// Allocates a new search object in the `SignalDB` but doesn't
    /// perform the actual search.
    pub fn search_init(&mut self, expr: &str) -> (r: Result<(), DbError>)
        requires
            old(self).wf(),
        ensures
            final(self).wf(),
            final(self).same_but_searches(old(self)),
            forall|other: Seq<char>|
                other != expr@ ==> final(self).search_of(other) == old(self).search_of(other),
            match parsed(expr@) {
                None => (r matches Err(DbError::SyntaxError(e)) && e.line@ == expr@) && final(self).search_of(expr@) == old(self).search_of(expr@),
                Some(e) => r is Ok && (final(self).search_of(expr@) matches Some(s) && s.expr@ == e
                    && s.progress() == Progress::start()),
            },
    {
        let search = match Search::new(expr) {
            Ok(search) => search,
            Err(e) => {
                return Err(DbError::SyntaxError(e));
            },
        };
        self.put_search(expr, search);
        Ok(())
    }

    /// Checks if an expression is valid at a given point of time. The
    /// expression must first be reported to the `SignalDB` using the
    /// `search_init` function.
    pub fn search_at(&mut self, expr: &str, timestamp: Timestamp) -> (r: Result<(), DbError>)
        requires
            old(self).wf(),
        ensures
            final(self).wf(),
            final(self).same_but_searches(old(self)),
            final(self).search_texts() == old(self).search_texts(),
            forall|other: Seq<char>|
                other != expr@ ==> final(self).search_of(other) == old(self).search_of(other),
            match old(self).search_of(expr@) {
                None => (r matches Err(DbError::SearchNotFound(e)) && e.expr@ == expr@) && final(self).search_of(expr@) is None,
                Some(s) => final(self).search_of(expr@) is Some && final(self).search_of(
                    expr@,
                )->0.expr == s.expr && if timestamp.femtos() < s.latest.femtos() {
                    r is Ok && final(self).search_of(expr@)->0.progress() == s.progress()
                } else {
                    match eval(s.expr@, old(self), timestamp) {
                        Ok(res) => r is Ok && final(self).search_of(expr@)->0.progress()
                            == s.progress().step(timestamp, res),
                        Err(id) => (r matches Err(DbError::SignalNotFound(err)) && err.signal_id@
                            == id) && final(self).search_of(expr@)->0.progress() == s.progress(),
                    }
                },
            },
    {
        let index = match self.find_search(expr) {
            Some(index) => index,
            None => {
                return Err(DbError::SearchNotFound(SearchNotFound::new(expr)));
            },
        };
        let ghost names = self.search_texts();
        let ghost before = self.searches@;
        let ghost old_names = self.search_names@;
        let name = self.search_names.remove(index);
        let mut search = self.searches.remove(index);
        proof {
            assert forall|k: int| 0 <= k < self.searches.len() implies (
            #[trigger] self.searches[k]).wf() by {
                if k < index {
                    assert(self.searches[k] == before[k]);
                } else {
                    assert(self.searches[k] == before[k + 1]);
                }
            }
            assert forall|a: int, b: int| 0 <= a < b < self.search_names.len() implies (
            #[trigger] self.search_names[a])@ != (#[trigger] self.search_names[b])@ by {
                let a0 = if a < index {
                    a
                } else {
                    a + 1
                };
                let b0 = if b < index {
                    b
                } else {
                    b + 1
                };
                assert(self.search_names[a] == old_names[a0]);
                assert(self.search_names[b] == old_names[b0]);
                assert(old(self).search_names[a0]@ != old(self).search_names[b0]@);
            }
            lemma_eval_signals(search.expr@, self, old(self), timestamp);
        }
        let r = search.search_at(self, timestamp);
        self.search_names.insert(index, name);
        self.searches.insert(index, search);
        proof {
            assert(self.search_names@ =~= old_names);
            assert(self.searches@ =~= before.update(index as int, search));
            assert(self.search_texts() =~= names);
            assert forall|k: int| 0 <= k < self.searches.len() implies (
            #[trigger] self.searches[k]).wf() by {
                if k != index {
                    assert(self.searches[k] == before[k]);
                }
            }
            assert forall|other: Seq<char>| other != expr@ implies self.search_of(other) == old(self).search_of(other) by {
                lemma_position(names, other);
            }
        }
        match r {
            Ok(()) => Ok(()),
            Err(e) => Err(DbError::SignalNotFound(e)),
        }
    }

    /// Indicates that a search object isn't active anymore.
    pub fn finish_search(&mut self, expr: &str) -> (r: Result<(), DbError>)
        requires
            old(self).wf(),
        ensures
            final(self).wf(),
            final(self).same_but_searches(old(self)),
            final(self).search_texts() == old(self).search_texts(),
            forall|other: Seq<char>|
                other != expr@ ==> final(self).search_of(other) == old(self).search_of(other),
            match old(self).search_of(expr@) {
                None => (r matches Err(DbError::SearchNotFound(e)) && e.expr@ == expr@) && final(self).search_of(expr@) is None,
                Some(s) => r is Ok && final(self).search_of(expr@) is Some && final(self).search_of(
                    expr@,
                )->0.expr == s.expr && final(self).search_of(expr@)->0.progress()
                    == s.progress().finished(),
            },
    {
        let ghost names = self.search_texts();
        match self.find_search(expr) {
            Some(index) => {
                let ghost before = self.searches@;
                self.searches[index].finish();
                proof {
                    assert(self.searches@ =~= before.update(index as int, self.searches[index as int]));
                    assert forall|k: int| 0 <= k < self.searches.len() implies (
                    #[trigger] self.searches[k]).wf() by {
                        if k != index {
                            assert(self.searches[k] == before[k]);
                        }
                    }
                    assert forall|other: Seq<char>| other != expr@ implies self.search_of(other)
                        == old(self).search_of(other) by {
                        lemma_position(names, other);
                    }
                }
                Ok(())
            },
            None => Err(DbError::SearchNotFound(SearchNotFound::new(expr))),
        }
    }

    /// Gets a summary of the findings of a search within a time period.
    pub fn findings_between(&self, expr: &str, begin: Timestamp, end: Timestamp) -> (r: Result<
        FindingsSummary,
        SearchNotFound,
    >)
        requires
            self.wf(),
            begin.value > i64::MIN,
            end.value > i64::MIN,
        ensures
            match self.search_of(expr@) {
                Some(s) => r matches Ok(summary) && summary == s.progress().summary(begin, end),
                None => r matches Err(e) && e.expr@ == expr@,
            },
    {
        match self.find_search(expr) {
            Some(index) => Ok(self.searches[index].findings_between(begin, end)),
            None => Err(SearchNotFound::new(expr)),
        }
    }

    /// Gets the next finding of a given search expression.
    pub fn get_next_finding(&self, search_expr: &str, timestamp: Timestamp) -> (r: Result<
        Option<Timestamp>,
        SearchNotFound,
    >)
        requires
            self.wf(),
        ensures
            match self.search_of(search_expr@) {
                Some(s) => r matches Ok(t) && t == s.progress().next_finding(timestamp),
                None => r matches Err(e) && e.expr@ == search_expr@,
            },
    {
        match self.find_search(search_expr) {
            Some(index) => Ok(self.searches[index].get_next_finding(timestamp)),
            None => Err(SearchNotFound::new(search_expr)),
        }
    }

    /// Gets the timestamp where the search expression is not true
    /// anymore.
    pub fn get_end_of_next_finding(&self, search_expr: &str, timestamp: Timestamp) -> (r: Result<
        Option<Timestamp>,
        SearchNotFound,
    >)
        requires
            self.wf(),
        ensures
            match self.search_of(search_expr@) {
                Some(s) => r matches Ok(t) && t == s.progress().end_of_next_finding(timestamp),
                None => r matches Err(e) && e.expr@ == search_expr@,
            },
    {
        match self.find_search(search_expr) {
            Some(index) => Ok(self.searches[index].get_end_of_next_finding(timestamp)),
            None => Err(SearchNotFound::new(search_expr)),
        }
    }

    /// Gets the previous finding of the given search expression.
    pub fn get_previous_finding(&self, search_expr: &str, timestamp: Timestamp) -> (r: Result<
        Option<Timestamp>,
        SearchNotFound,
    >)
        requires
            self.wf(),
            timestamp.value > i64::MIN,
        ensures
            match self.search_of(search_expr@) {
                Some(s) => r matches Ok(t) && t == s.progress().previous_finding(timestamp),
                None => r matches Err(e) && e.expr@ == search_expr@,
            },
    {
        match self.find_search(search_expr) {
            Some(index) => Ok(self.searches[index].get_previous_finding(timestamp)),
            None => Err(SearchNotFound::new(search_expr)),
        }
    }

    /// Gets the first finding of the given search expression.
    pub fn get_first_finding(&self, expr: &str) -> (r: Result<Option<Timestamp>, SearchNotFound>)
        requires
            self.wf(),
        ensures
            match self.search_of(expr@) {
                Some(s) => r matches Ok(t) && t == (if s.findings@.len() > 0 {
                    Some(s.findings@.first().start())
                } else {
                    None
                }),
                None => r matches Err(e) && e.expr@ == expr@,
            },
    {
        match self.find_search(expr) {
            Some(index) => Ok(self.searches[index].get_first_finding()),
            None => Err(SearchNotFound::new(expr)),
        }
    }

    /// Gets the last finding of the given search expression.
    pub fn get_last_finding(&self, expr: &str) -> (r: Result<Option<Timestamp>, SearchNotFound>)
        requires
            self.wf(),
        ensures
            match self.search_of(expr@) {
                Some(s) => r matches Ok(t) && t == (if s.findings@.len() > 0 {
                    Some(s.findings@.last().finish())
                } else {
                    None
                }),
                None => r matches Err(e) && e.expr@ == expr@,
            },
    {
        match self.find_search(expr) {
            Some(index) => Ok(self.searches[index].get_last_finding()),
            None => Err(SearchNotFound::new(expr)),
        }
    }
}

/// The position of a name in a list with one more name at its end.
pub proof fn lemma_position_push(names: Seq<Seq<char>>, added: Seq<char>, name: Seq<char>)
    ensures
        position(names.push(added), name) == if position(names, name) < names.len() || added
            == name {
            position(names, name)
        } else {
            names.len() as int + 1
        },
    decreases names.len(),
{
    reveal_with_fuel(position, 3);
    let more = names.push(added);
    if names.len() > 0 {
        assert(more[0] == names[0]);
        if names[0] != name {
            assert(more.skip(1) =~= names.skip(1).push(added));
            lemma_position_push(names.skip(1), added, name);
        }
    } else {
        assert(more.skip(1) =~= Seq::<Seq<char>>::empty());
    }
}

/// Whether an instant is among those of a list.
pub open spec fn occurs(ts: Seq<Timestamp>, x: Timestamp) -> bool {
    exists|k: int| 0 <= k < ts.len() && (#[trigger] ts[k]).femtos() == x.femtos()
}

/// A store whose events are at its instants stays so where it gains
/// instants and where at most one signal changes, whose events are at
/// the instants again.
pub proof fn lemma_instants_kept(a: &SignalDB, b: &SignalDB, changed: Option<Seq<char>>)
    requires
        a.events_at_instants(),
        forall|k: int|
            0 <= k < a.timestamps@.len() ==> occurs(b.timestamps@, #[trigger] a.timestamps@[k]),
        forall|id: Seq<char>|
            Some(id) != changed ==> #[trigger] b.signal_of(id) == a.signal_of(id),
        changed matches Some(id) ==> (b.signal_of(id) matches Some(s) ==> forall|j: int|
            0 <= j < s.history().len() ==> occurs(b.timestamps@, (#[trigger] s.history()[j]).0)),
    ensures
        b.events_at_instants(),
{
    reveal(SignalDB::events_at_instants);
    assert forall|id: Seq<char>, j: int|
        b.signal_of(id) is Some && 0 <= j < b.signal_of(id)->0.history().len() implies occurs(
        b.timestamps@,
        (#[trigger] b.signal_of(id)->0.history()[j]).0,
    ) by {
        if Some(id) != changed {
            assert(b.signal_of(id) == a.signal_of(id));
            let x = a.signal_of(id)->0.history()[j].0;
            assert(occurs(a.timestamps@, x));
            let k = choose|k: int|
                0 <= k < a.timestamps@.len() && (#[trigger] a.timestamps@[k]).femtos()
                    == x.femtos();
            assert(occurs(b.timestamps@, a.timestamps@[k]));
            let m = choose|m: int|
                0 <= m < b.timestamps@.len() && (#[trigger] b.timestamps@[m]).femtos()
                    == a.timestamps@[k].femtos();
            assert(b.timestamps@[m].femtos() == x.femtos());
        } else {
            let s = b.signal_of(id)->0;
            assert(occurs(b.timestamps@, s.history()[j].0));
        }
    }
}

/// In a store whose events are at its instants, the instant of an event
/// of a signal is among them.
pub proof fn lemma_instant_of_event(db: &SignalDB, id: Seq<char>, j: int)
    requires
        db.events_at_instants(),
        db.signal_of(id) is Some,
        0 <= j < db.signal_of(id)->0.history().len(),
    ensures
        occurs(db.timestamps@, db.signal_of(id)->0.history()[j].0),
{
    reveal(SignalDB::events_at_instants);
}

/// A store keeps its events at its instants where neither its signals
/// nor its instants change.
pub proof fn lemma_instants_same(a: &SignalDB, b: &SignalDB)
    requires
        a.keys == b.keys,
        a.signals == b.signals,
        a.timestamps == b.timestamps,
    ensures
        a.events_at_instants() ==> b.events_at_instants(),
{
    if a.events_at_instants() {
        assert forall|k: int| 0 <= k < a.timestamps@.len() implies occurs(
            b.timestamps@,
            #[trigger] a.timestamps@[k],
        ) by {}
        lemma_instants_kept(a, b, None);
    }
}

/// What a store holds of a signal.
pub struct SignalView {
    pub name: Seq<char>,
    pub path: Seq<Seq<char>>,
    pub width: nat,
    pub default: ValueView,
    pub history: Seq<(Timestamp, ValueView)>,
}

/// What a dump puts into a store: the scope tree, the signals by their
/// identifiers, the instants, whether the declarations are complete, and
/// the unit of time.
pub struct StoreView {
    pub tree: ScopeView,
    pub ids: Seq<Seq<char>>,
    pub signals: Map<Seq<char>, SignalView>,
    pub timestamps: Seq<Timestamp>,
    pub initialized: bool,
    pub timescale: Timestamp,
}

impl Signal {
    /// What a store holds of the signal.
    pub open spec fn model(&self) -> SignalView {
        SignalView {
            name: self.name@,
            path: super::scope::texts(self.path@),
            width: self.width as nat,
            default: self.default_value(),
            history: self.history(),
        }
    }
}

impl StoreView {
    /// The store with the scopes of a path.
    pub open spec fn with_scope(self, path: Seq<Seq<char>>) -> StoreView {
        StoreView { tree: self.tree.with_path(path), ..self }
    }

    /// The store with a new signal without events in the scope at the end
    /// of a path, in place of the signal that had the same identifier if
    /// there was one.
    pub open spec fn with_signal(
        self,
        path: Seq<Seq<char>>,
        id: Seq<char>,
        name: Seq<char>,
        width: nat,
    ) -> StoreView {
        StoreView {
            tree: self.tree.put(path, self.tree.at(path).with_signal(id)),
            ids: with_name(self.ids, id),
            signals: self.signals.insert(
                id,
                SignalView {
                    name,
                    path: self.tree.at(path).path.push(self.tree.at(path).name),
                    width,
                    default: ValueView::Literal(
                        Seq::new(width, |i: int| BitValue::Undefined),
                        ValueFormat::Hex,
                    ),
                    history: Seq::empty(),
                },
            ),
            ..self
        }
    }

    /// The store after an instant was reported.
    pub open spec fn with_time(self, t: Timestamp) -> StoreView {
        StoreView { timestamps: advanced(self.timestamps, t), ..self }
    }

    /// The store after a signal took a value at the current time.
    pub open spec fn with_value(self, id: Seq<char>, v: ValueView) -> StoreView {
        let s = self.signals[id];
        StoreView {
            signals: self.signals.insert(
                id,
                SignalView {
                    history: super::signal::added(
                        s.default,
                        s.history,
                        self.timestamps.last(),
                        v.expanded(s.width),
                    ),
                    ..s
                },
            ),
            ..self
        }
    }

    /// The store with its declarations complete.
    pub open spec fn ready(self) -> StoreView {
        StoreView { initialized: true, ..self }
    }

    /// The store with another unit of time.
    pub open spec fn with_timescale(self, timescale: Timestamp) -> StoreView {
        StoreView { timescale, ..self }
    }
}

impl SignalDB {
    /// What the store holds of the signals, by their identifiers.
    pub open spec fn signal_models(&self) -> Map<Seq<char>, SignalView> {
        Map::new(|id: Seq<char>| self.signal_of(id) is Some, |id: Seq<char>| self.signal_of(id)->0.model())
    }

    /// Whether every event of every signal of the store is at an instant
    /// of the store. A store that is filled at its current time only, as
    /// by a dump, is of this kind.
    #[verifier::opaque]
    pub open spec fn events_at_instants(&self) -> bool {
        forall|id: Seq<char>, j: int|
            self.signal_of(id) is Some && 0 <= j < self.signal_of(id)->0.history().len()
                ==> occurs(self.timestamps@, (#[trigger] self.signal_of(id)->0.history()[j]).0)
    }

    /// Whether the two stores have the same searches, status and
    /// validity.
    pub open spec fn kept_aside(&self, other: &SignalDB) -> bool {
        &&& self.searches == other.searches
        &&& self.search_names == other.search_names
        &&& self.status == other.status
        &&& self.valid == other.valid
    }

    /// What a dump has put into the store.
    pub open spec fn view(&self) -> StoreView {
        StoreView {
            tree: self.scope.model(),
            ids: self.ids(),
            signals: self.signal_models(),
            timestamps: self.timestamps@,
            initialized: self.initialized,
            timescale: self.timescale,
        }
    }
}

/// What reading a dump into a store gives: whether every statement
/// could be read, and where the reading stood at its end.
pub open spec fn reading(input: Seq<char>, store: StoreView, limit: Option<i64>) -> (
    bool,
    ParseView,
) {
    file(
        input,
        ParseView {
            lexer: LexerView { buf: Seq::empty(), pending: Seq::empty(), pos: 0 },
            scope: Seq::empty(),
            store,
        },
        Timestamp { value: 1, scale: Scale::Picosecond },
        limit,
    )
}

impl SignalDB {
    /// Creates a new `SignalDB` from the text of a Value Change Dump
    /// (VCD). The store holds what the dump declares and reports, with
    /// every event at one of its instants, has no search, and tells in its
    /// status the number of instants.
    pub fn from_vcd(input: &str) -> (r: Result<SignalDB, SyntaxError>)
        ensures
            match r {
                Ok(db) => db.wf() && db.events_at_instants() && reading(input@, SignalDB::fresh(), None).0 && db@ == reading(
                    input@,
                    SignalDB::fresh(),
                    None,
                ).1.store && db.valid && db.searches.len() == 0 && db.status@ == "Ready: "@ + digits(
                    db.timestamps@.len(),
                ) + " events"@,
                Err(e) => !reading(input@, SignalDB::fresh(), None).0 && e.line@ == reading(
                    input@,
                    SignalDB::fresh(),
                    None,
                ).1.lexer.buf,
            },
    {
        SignalDB::from_vcd_with_limit(input, None)
    }

    /// Creates a new `SignalDB` from the text of a Value Change Dump
    /// (VCD) and stops reading after the first timestamp beyond a limit.
    pub fn from_vcd_with_limit(input: &str, limit: Option<i64>) -> (r: Result<SignalDB, SyntaxError>)
        ensures
            match r {
                Ok(db) => db.wf() && db.events_at_instants() && reading(input@, SignalDB::fresh(), limit).0 && db@ == reading(
                    input@,
                    SignalDB::fresh(),
                    limit,
                ).1.store && db.valid && db.searches.len() == 0 && db.status@ == "Ready: "@ + digits(
                    db.timestamps@.len(),
                ) + " events"@,
                Err(e) => !reading(input@, SignalDB::fresh(), limit).0 && e.line@ == reading(
                    input@,
                    SignalDB::fresh(),
                    limit,
                ).1.lexer.buf,
            },
    {
        let mut db = SignalDB::new();
        proof {
            assert(db.signal_models() =~= Map::<Seq<char>, SignalView>::empty());
            assert(db.ids() =~= Seq::<Seq<char>>::empty());
            assert(db@ == SignalDB::fresh());
            assert(db.events_at_instants()) by {
                reveal(SignalDB::events_at_instants);
            }
        }
        match db.parse_vcd_with_limit(input, limit) {
            Ok(()) => Ok(db),
            Err(e) => Err(e),
        }
    }

    /// What an empty store holds.
    pub open spec fn fresh() -> StoreView {
        StoreView {
            tree: ScopeView::leaf("top"@, Seq::empty()),
            ids: Seq::empty(),
            signals: Map::empty(),
            timestamps: seq![Timestamp { value: 0, scale: Scale::Second }],
            initialized: false,
            timescale: Timestamp { value: 1, scale: Scale::Picosecond },
        }
    }

    /// Extends the current `SignalDB` with the signals defined in the
    /// text of a Value Change Dump (VCD).
    pub fn parse_vcd(&mut self, input: &str) -> (r: Result<(), SyntaxError>)
        requires
            old(self).wf(),
        ensures
            final(self).read(old(self), r, reading(input@, old(self)@, None)),
    {
        self.parse_vcd_with_limit(input, None)
    }

    /// Whether the store is what reading a dump has made of it. The store
    /// holds what was read up to the end or to the error. After an error
    /// it is marked as invalid and as initialized, and its status is the
    /// message of the error; else the status tells the number of
    /// instants. The searches stay as they were.
    pub open spec fn read(
        &self,
        before: &SignalDB,
        r: Result<(), SyntaxError>,
        expected: (bool, ParseView),
    ) -> bool {
        &&& self.wf()
        &&& self.searches == before.searches
        &&& self.search_names == before.search_names
        &&& before.events_at_instants() ==> self.events_at_instants()
        &&& match r {
            Ok(()) => {
                &&& expected.0
                &&& self@ == expected.1.store
                &&& self.valid == before.valid
                &&& self.status@ == "Ready: "@ + digits(self.timestamps@.len()) + " events"@
            },
            Err(e) => {
                &&& !expected.0
                &&& e.line@ == expected.1.lexer.buf
                &&& self@ == expected.1.store.ready()
                &&& !self.valid
                &&& self.status@ == e.message()
            },
        }
    }

    /// Tells in the status that a dump is being read.
    pub fn start_parsing(&mut self)
        ensures
            final(self).status@ == "Parsing VCD file..."@,
            *final(self) == (SignalDB { status: final(self).status, ..*old(self) }),
            old(self).events_at_instants() ==> final(self).events_at_instants(),
    {
        let ghost before_all = *self;
        self.set_status("Parsing VCD file...");
        proof {
            lemma_instants_same(&before_all, self);
        }
    }

    /// Takes note of how the reading of a dump ended. After an error the
    /// store is marked as invalid and as initialized, and its status is
    /// the message of the error; else the status tells the number of
    /// instants.
    pub fn finish_parsing(&mut self, outcome: Result<(), SyntaxError>) -> (r: Result<
        (),
        SyntaxError,
    >)
        requires
            old(self).wf(),
        ensures
            r == outcome,
            final(self).wf(),
            match outcome {
                Ok(()) => final(self).status@ == "Ready: "@ + digits(old(self).timestamps@.len())
                    + " events"@ && *final(self) == (SignalDB {
                    status: final(self).status,
                    ..*old(self)
                }),
                Err(e) => final(self).status@ == e.message() && *final(self) == (SignalDB {
                    status: final(self).status,
                    valid: false,
                    initialized: true,
                    ..*old(self)
                }),
            },
            old(self).events_at_instants() ==> final(self).events_at_instants(),
    {
        let ghost before_all = *self;
        match &outcome {
            Ok(()) => {
                let mut status: Vec<char> = Vec::new();
                append_str(&mut status, "Ready: ");
                push_digits(&mut status, self.timestamps.len() as u64);
                append_str(&mut status, " events");
                self.status = string_of(&status);
            },
            Err(err) => {
                let message = err.to_string();
                self.set_status(message.as_str());
                self.mark_as_invalid();
                self.mark_as_initialized();
            },
        }
        proof {
            lemma_instants_same(&before_all, self);
        }
        outcome
    }

    /// Extends the current `SignalDB` with the signals defined in the
    /// text of a Value Change Dump (VCD) and stops reading after the
    /// first timestamp beyond a limit.
    #[verifier::rlimit(50)]
    pub fn parse_vcd_with_limit(&mut self, input: &str, limit: Option<i64>) -> (r: Result<
        (),
        SyntaxError,
    >)
        requires
            old(self).wf(),
        ensures
            final(self).read(old(self), r, reading(input@, old(self)@, limit)),
    {
        let mut parser = Parser::new(input);
        match limit {
            Some(t) => {
                parser.set_limit(t);
            },
            None => {},
        }
        self.start_parsing();
        proof {
            assert(self.signal_models() =~= old(self).signal_models());
            assert(super::scope::texts(parser.scope@) =~= Seq::<Seq<char>>::empty());
        }
        let outcome = parser.parse(self);
        let ghost before = *self;
        let r = self.finish_parsing(outcome);
        proof {
            assert(self.signal_models() =~= before.signal_models());
        }
        r
    }
}

} // verus!
