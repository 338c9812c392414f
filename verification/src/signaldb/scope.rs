//! The tree of scopes in which signals are declared.
use super::signal::Signal;
use crate::names::{
    holds, lemma_rank, lemma_rank_split, lemma_with_name, locate, rank, sorted, views, with_name,
};
use crate::text::{chars_of, compare_chars, lemma_lex_order, lex_lt, string_of, Rank};
use vstd::prelude::*;

verus! {

/// Kind of an entry of a scope.
#[derive(Debug, Clone, Copy, PartialEq, Eq, Structural)]
pub enum ScopeChild {
    Signal,
    Scope,
}

/// A named scope with the signals and the scopes declared in it, each
/// kind in the order of the names.
#[derive(Debug)]
pub struct Scope {
    pub name: String,
    /// Identifiers of the signals of the scope, in dictionary order
    pub signals: Vec<Vec<char>>,
    /// Scopes within the scope, in the dictionary order of their names
    pub scopes: Vec<Scope>,
    /// Names of the scopes around this one, outermost first
    pub path: Vec<String>,
}

/// An entry of the listing of a scope tree.
#[derive(Debug)]
pub struct ScopeEntry {
    /// Identifier of a signal or name of a scope
    pub name: String,
    pub kind: ScopeChild,
    /// Number of scopes between the entry and the scope that is listed
    pub depth: u64,
}

/// The mathematical value of a `Scope`.
pub struct ScopeView {
    pub name: Seq<char>,
    pub signals: Seq<Seq<char>>,
    pub scopes: Seq<ScopeView>,
    pub path: Seq<Seq<char>>,
}

/// The texts of a list of strings.
pub open spec fn texts(s: Seq<String>) -> Seq<Seq<char>> {
    Seq::new(s.len(), |i: int| s[i]@)
}

/// The names of a path given as string slices.
pub open spec fn path_names(path: Seq<&str>) -> Seq<Seq<char>> {
    Seq::new(path.len(), |i: int| path[i]@)
}

impl ScopeView {
    /// A scope without signals and scopes.
    pub open spec fn leaf(name: Seq<char>, path: Seq<Seq<char>>) -> ScopeView {
        ScopeView { name, signals: Seq::empty(), scopes: Seq::empty(), path }
    }

    /// The names of the scopes within the scope.
    pub open spec fn child_names(self) -> Seq<Seq<char>> {
        Seq::new(self.scopes.len(), |i: int| self.scopes[i].name)
    }

    /// The signals and the scopes are in the order of their names, and
    /// each scope within knows the way that leads to it.
    pub open spec fn wf(self) -> bool
        decreases self,
    {
        &&& sorted(self.signals)
        &&& sorted(self.child_names())
        &&& forall|i: int|
            0 <= i < self.scopes.len() ==> {
                &&& (#[trigger] self.scopes[i]).path == self.path.push(self.name)
                &&& self.scopes[i].wf()
            }
    }

    /// Whether the scopes named by the path exist, each within the one
    /// before it.
    pub open spec fn has_path(self, p: Seq<Seq<char>>) -> bool
        decreases p.len(),
    {
        p.len() == 0 || {
            let r = rank(self.child_names(), p[0]);
            holds(self.child_names(), p[0]) && 0 <= r < self.scopes.len() && self.scopes[r].has_path(
                p.skip(1),
            )
        }
    }

    /// The scope at the end of a path.
    pub open spec fn at(self, p: Seq<Seq<char>>) -> ScopeView
        recommends
            self.has_path(p),
        decreases p.len(),
    {
        if p.len() == 0 {
            self
        } else {
            self.scopes[rank(self.child_names(), p[0])].at(p.skip(1))
        }
    }

    /// The tree with another scope in place of the one at the end of a
    /// path.
    pub open spec fn put(self, p: Seq<Seq<char>>, s: ScopeView) -> ScopeView
        recommends
            self.has_path(p),
        decreases p.len(),
    {
        if p.len() == 0 {
            s
        } else {
            let r = rank(self.child_names(), p[0]);
            ScopeView { scopes: self.scopes.update(r, self.scopes[r].put(p.skip(1), s)), ..self }
        }
    }

    /// The tree in which the scopes named by the path exist: those that
    /// were missing are created empty.
    pub open spec fn with_path(self, p: Seq<Seq<char>>) -> ScopeView
        decreases p.len(),
    {
        if p.len() == 0 {
            self
        } else {
            let r = rank(self.child_names(), p[0]);
            if holds(self.child_names(), p[0]) && 0 <= r < self.scopes.len() {
                ScopeView { scopes: self.scopes.update(r, self.scopes[r].with_path(p.skip(1))), ..self }
            } else {
                ScopeView {
                    scopes: self.scopes.insert(
                        r,
                        ScopeView::leaf(p[0], self.path.push(self.name)).with_path(p.skip(1)),
                    ),
                    ..self
                }
            }
        }
    }

    /// The scope with one more signal, unless it is there.
    pub open spec fn with_signal(self, id: Seq<char>) -> ScopeView {
        ScopeView { signals: with_name(self.signals, id), ..self }
    }

    /// The entries of the scope at a depth: its signals, then each scope
    /// within it, followed by the entries of that scope one level deeper.
    pub open spec fn listing(self, depth: int) -> Seq<(Seq<char>, ScopeChild, int)>
        decreases self, 1int,
    {
        Seq::new(self.signals.len(), |i: int| (self.signals[i], ScopeChild::Signal, depth))
            + ScopeView::listing_of(self.scopes, depth)
    }

    /// The entries of a list of scopes at a depth.
    pub open spec fn listing_of(scopes: Seq<ScopeView>, depth: int) -> Seq<
        (Seq<char>, ScopeChild, int),
    >
        decreases scopes, 0int,
    {
        if scopes.len() == 0 {
            Seq::empty()
        } else {
            ScopeView::listing_of(scopes.drop_last(), depth) + seq![
                (scopes.last().name, ScopeChild::Scope, depth),
            ] + scopes.last().listing(depth + 1)
        }
    }
}

impl Scope {
    /// The scope as a mathematical value.
    pub open spec fn model(&self) -> ScopeView
        decreases self,
    {
        ScopeView {
            name: self.name@,
            signals: views(self.signals@),
            scopes: Scope::models(self.scopes@),
            path: texts(self.path@),
        }
    }

    /// The values of a list of scopes.
    pub open spec fn models(s: Seq<Scope>) -> Seq<ScopeView>
        decreases s,
    {
        if s.len() == 0 {
            Seq::empty()
        } else {
            Scope::models(s.drop_last()).push(s.last().model())
        }
    }

    /// The scope tree is in order.
    pub open spec fn wf(&self) -> bool {
        self.model().wf()
    }
}

/// The values of a list of scopes are the values of its scopes.
pub proof fn lemma_models(s: Seq<Scope>)
    ensures
        Scope::models(s).len() == s.len(),
        forall|i: int| 0 <= i < s.len() ==> Scope::models(s)[i] == (#[trigger] s[i]).model(),
    decreases s.len(),
{
    if s.len() > 0 {
        lemma_models(s.drop_last());
        assert forall|i: int| 0 <= i < s.len() implies Scope::models(s)[i] == (
        #[trigger] s[i]).model() by {
            if i < s.len() - 1 {
                assert(s.drop_last()[i] == s[i]);
            }
        }
    }
}

/// Replacing or inserting a scope of a list does the same to the values.
pub proof fn lemma_models_change(s: Seq<Scope>, i: int, x: Scope)
    requires
        0 <= i <= s.len(),
    ensures
        i < s.len() ==> Scope::models(s.update(i, x)) == Scope::models(s).update(i, x.model()),
        Scope::models(s.insert(i, x)) == Scope::models(s).insert(i, x.model()),
{
    lemma_models(s);
    let a = s.insert(i, x);
    lemma_models(a);
    assert forall|k: int| 0 <= k < a.len() implies Scope::models(a)[k] == Scope::models(s).insert(
        i,
        x.model(),
    )[k] by {
        assert(Scope::models(a)[k] == a[k].model());
        if k < i {
            assert(a[k] == s[k]);
        } else if k > i {
            assert(a[k] == s[k - 1]);
        }
    }
    assert(Scope::models(a) =~= Scope::models(s).insert(i, x.model()));
    if i < s.len() {
        let b = s.update(i, x);
        lemma_models(b);
        assert forall|k: int| 0 <= k < b.len() implies Scope::models(b)[k] == Scope::models(
            s,
        ).update(i, x.model())[k] by {
            assert(Scope::models(b)[k] == b[k].model());
            if k != i {
                assert(b[k] == s[k]);
            }
        }
        assert(Scope::models(b) =~= Scope::models(s).update(i, x.model()));
    }
}

/// Creating the scopes of a path keeps the tree well-formed, and changes
/// neither the name of the scope nor its signals nor the way to it.
pub proof fn lemma_with_path(v: ScopeView, p: Seq<Seq<char>>)
    requires
        v.wf(),
    ensures
        v.with_path(p).wf(),
        v.with_path(p).name == v.name,
        v.with_path(p).path == v.path,
        v.with_path(p).signals == v.signals,
        v.with_path(p).has_path(p),
        v.with_path(p).with_path(p) == v.with_path(p),
        v.has_path(p) ==> v.with_path(p) == v,
    decreases p.len(),
{
    if p.len() > 0 {
        let names = v.child_names();
        let r = rank(names, p[0]);
        let w = v.with_path(p);
        lemma_rank_split(names, p[0]);
        lemma_with_name(names, p[0]);
        if holds(names, p[0]) {
            let c = v.scopes[r];
            lemma_with_path(c, p.skip(1));
            assert(w.child_names() =~= names);
            assert(w.scopes[r] == c.with_path(p.skip(1)));
            assert forall|i: int| 0 <= i < w.scopes.len() implies (#[trigger] w.scopes[i]).path
                == w.path.push(w.name) && w.scopes[i].wf() by {
                if i != r {
                    assert(w.scopes[i] == v.scopes[i]);
                }
            }
            assert(w.with_path(p).scopes =~= w.scopes);
            if v.has_path(p) {
                assert(w.scopes =~= v.scopes);
            }
        } else {
            let c = ScopeView::leaf(p[0], v.path.push(v.name));
            assert(c.child_names() =~= Seq::<Seq<char>>::empty());
            assert(c.wf());
            lemma_with_path(c, p.skip(1));
            assert(w.child_names() =~= with_name(names, p[0]));
            assert forall|i: int| 0 <= i < w.scopes.len() implies (#[trigger] w.scopes[i]).path
                == w.path.push(w.name) && w.scopes[i].wf() by {
                if i < r {
                    assert(w.scopes[i] == v.scopes[i]);
                } else if i > r {
                    assert(w.scopes[i] == v.scopes[i - 1]);
                }
            }
            lemma_rank_split(w.child_names(), p[0]);
            assert(w.child_names()[r] == p[0]);
            assert(holds(w.child_names(), p[0]));
            assert(rank(w.child_names(), p[0]) == r);
            assert(w.scopes[r] == c.with_path(p.skip(1)));
            assert(w.with_path(p).scopes =~= w.scopes);
        }
    }
}

/// Putting a well-formed scope with the same name and the same way to it
/// in place of a scope keeps the tree well-formed.
pub proof fn lemma_put(v: ScopeView, p: Seq<Seq<char>>, s: ScopeView)
    requires
        v.wf(),
        v.has_path(p),
        s.wf(),
        s.name == v.at(p).name,
        s.path == v.at(p).path,
    ensures
        v.put(p, s).wf(),
        v.put(p, s).name == v.name,
        v.put(p, s).path == v.path,
        v.put(p, s).has_path(p),
        v.put(p, s).at(p) == s,
    decreases p.len(),
{
    if p.len() > 0 {
        let names = v.child_names();
        let r = rank(names, p[0]);
        let w = v.put(p, s);
        lemma_rank_split(names, p[0]);
        let c = v.scopes[r];
        lemma_put(c, p.skip(1), s);
        assert(w.child_names() =~= names);
        assert(w.scopes[r] == c.put(p.skip(1), s));
        assert forall|i: int| 0 <= i < w.scopes.len() implies (#[trigger] w.scopes[i]).path
            == w.path.push(w.name) && w.scopes[i].wf() by {
            if i != r {
                assert(w.scopes[i] == v.scopes[i]);
            }
        }
    }
}

/// Copies a list of strings.
pub fn copy_strings(v: &Vec<String>) -> (r: Vec<String>)
    ensures
        r@ == v@,
{
    let mut out: Vec<String> = Vec::new();
    let mut i: usize = 0;
    while i < v.len()
        invariant
            i <= v.len(),
            out@ == v@.take(i as int),
        decreases v.len() - i,
    {
        out.push(v[i].clone());
        i += 1;
        assert(out@ =~= v@.take(i as int));
    }
    assert(v@.take(v.len() as int) == v@);
    out
}

impl Scope {
    /// Creates a scope without signals and scopes, outside any scope.
    pub fn new(name: String) -> (r: Scope)
        ensures
            r.model() == ScopeView::leaf(name@, Seq::empty()),
            r.wf(),
    {
        let r = Scope { name, signals: Vec::new(), scopes: Vec::new(), path: Vec::new() };
        proof {
            assert(views(r.signals@) =~= Seq::<Seq<char>>::empty());
            assert(texts(r.path@) =~= Seq::<Seq<char>>::empty());
            assert(r.model().child_names() =~= Seq::<Seq<char>>::empty());
        }
        r
    }

    /// Finds the place of a scope within this one by its name: whether
    /// there is such a scope, and how many scopes come before the name.
    pub fn find_scope(&self, name: &Vec<char>) -> (r: (bool, usize))
        requires
            self.wf(),
        ensures
            r.0 == holds(self.model().child_names(), name@),
            r.1 == rank(self.model().child_names(), name@),
            r.1 <= self.scopes.len(),
            r.0 ==> r.1 < self.scopes.len(),
    {
        let ghost names = self.model().child_names();
        proof {
            lemma_models(self.scopes@);
            lemma_rank_split(names, name@);
            lemma_lex_order(name@, name@, name@);
        }
        let mut i: usize = 0;
        while i < self.scopes.len()
            invariant
                i <= self.scopes.len(),
                names == self.model().child_names(),
                names.len() == self.scopes.len(),
                sorted(names),
                forall|j: int| 0 <= j < self.scopes.len() ==> names[j] == self.scopes[j].name@,
                forall|j: int| 0 <= j < i ==> lex_lt(#[trigger] names[j], name@),
            decreases self.scopes.len() - i,
        {
            let key = chars_of(self.scopes[i].name.as_str());
            match compare_chars(&key, name) {
                Rank::Before => {
                    i += 1;
                },
                found => {
                    proof {
                        assert(!lex_lt(names[i as int], name@)) by {
                            lemma_lex_order(names[i as int], name@, names[i as int]);
                        }
                        assert forall|j: int| i <= j < names.len() implies !lex_lt(
                            #[trigger] names[j],
                            name@,
                        ) by {
                            if j > i {
                                assert(lex_lt(names[i as int], names[j]));
                                lemma_lex_order(names[i as int], names[j], name@);
                                lemma_lex_order(name@, names[i as int], names[j]);
                                lemma_lex_order(names[j], name@, names[j]);
                            }
                        }
                        lemma_rank(names, name@, i as int);
                        lemma_rank_split(names, name@);
                    }
                    return (found == Rank::Same, i);
                },
            }
        }
        proof {
            lemma_rank(names, name@, i as int);
            lemma_rank_split(names, name@);
        }
        (false, i)
    }

    /// Creates the scopes named by a path, each within the one before it;
    /// those that exist already are left as they are.
    pub fn add_scope(&mut self, path: &[&str])
        requires
            old(self).wf(),
        ensures
            final(self).wf(),
            final(self).model() == old(self).model().with_path(path_names(path@)),
    {
        assert(path_names(path@).skip(0) == path_names(path@));
        self.add_scope_from(path, 0)
    }

    fn add_scope_from(&mut self, path: &[&str], from: usize)
        requires
            old(self).wf(),
            from <= path.len(),
        ensures
            final(self).wf(),
            final(self).model() == old(self).model().with_path(path_names(path@).skip(from as int)),
        decreases path.len() - from,
    {
        let ghost v = self.model();
        let ghost p = path_names(path@).skip(from as int);
        proof {
            lemma_with_path(v, p);
        }
        if from < path.len() {
            let name = chars_of(path[from]);
            assert(p[0] == name@);
            assert(p.skip(1) == path_names(path@).skip(from + 1));
            let (found, index) = self.find_scope(&name);
            let ghost old_scopes = self.scopes@;
            proof {
                lemma_models(old_scopes);
            }
            if found {
                proof {
                    assert(v.scopes[index as int].wf());
                }
                self.scopes[index].add_scope_from(path, from + 1);
                proof {
                    assert(self.scopes@ =~= old_scopes.update(index as int, self.scopes[index as int]));
                    lemma_models_change(old_scopes, index as int, self.scopes[index as int]);
                }
            } else {
                let mut s = Scope::new(string_of(&name));
                s.path = copy_strings(&self.path);
                s.path.push(self.name.clone());
                proof {
                    assert(views(s.signals@) =~= Seq::<Seq<char>>::empty());
                    assert(texts(s.path@) =~= v.path.push(v.name));
                    assert(s.model() =~= ScopeView::leaf(name@, v.path.push(v.name)));
                    assert(s.model().child_names() =~= Seq::<Seq<char>>::empty());
                }
                s.add_scope_from(path, from + 1);
                self.scopes.insert(index, s);
                proof {
                    lemma_models_change(old_scopes, index as int, self.scopes[index as int]);
                }
            }
        }
    }

    /// Gets the scope of the given name within this one.
    pub fn get_scope(&mut self, name: &str) -> (r: Option<&mut Scope>)
        requires
            old(self).wf(),
        ensures
            r is Some == old(self).model().has_path(seq![name@]),
            r matches Some(s) ==> s.model() == old(self).model().at(seq![name@]) && final(self).model() == old(self).model().put(seq![name@], final(s).model()),
            r is None ==> final(self).model() == old(self).model(),
    {
        let key = chars_of(name);
        let (found, index) = self.find_scope(&key);
        let ghost v = self.model();
        let ghost old_scopes = self.scopes@;
        proof {
            lemma_models(old_scopes);
            assert(seq![name@].skip(1) =~= Seq::<Seq<char>>::empty());
            reveal_with_fuel(ScopeView::has_path, 2);
            reveal_with_fuel(ScopeView::at, 2);
            reveal_with_fuel(ScopeView::put, 2);
        }
        if found {
            let ghost fin: Scope = *final(self);
            let s = &mut self.scopes[index];
            proof {
                lemma_models_change(old_scopes, index as int, *final(s));
                assert(fin.scopes@ =~= old_scopes.update(index as int, *final(s)));
                assert(fin.model().scopes == v.scopes.update(index as int, final(s).model()));
            }
            Some(s)
        } else {
            None
        }
    }

    /// Gets the scope at the end of a path that starts within this one.
    pub fn get_scope_by_path(&mut self, path: &[&str]) -> (r: Option<&mut Scope>)
        requires
            old(self).wf(),
        ensures
            r is Some == old(self).model().has_path(path_names(path@)),
            r matches Some(s) ==> s.model() == old(self).model().at(path_names(path@)) && final(self).model() == old(self).model().put(path_names(path@), final(s).model()),
            r is None ==> final(self).model() == old(self).model(),
    {
        assert(path_names(path@).skip(0) == path_names(path@));
        self.get_scope_from(path, 0)
    }

    fn get_scope_from(&mut self, path: &[&str], from: usize) -> (r: Option<&mut Scope>)
        requires
            old(self).wf(),
            from <= path.len(),
        ensures
            r is Some == old(self).model().has_path(path_names(path@).skip(from as int)),
            r matches Some(s) ==> s.model() == old(self).model().at(
                path_names(path@).skip(from as int),
            ) && final(self).model() == old(self).model().put(
                path_names(path@).skip(from as int),
                final(s).model(),
            ),
            r is None ==> final(self).model() == old(self).model(),
        decreases path.len() - from,
    {
        let ghost v = self.model();
        let ghost p = path_names(path@).skip(from as int);
        if from == path.len() {
            Some(self)
        } else {
            let name = chars_of(path[from]);
            assert(p[0] == name@);
            assert(p.skip(1) == path_names(path@).skip(from + 1));
            let (found, index) = self.find_scope(&name);
            let ghost old_scopes = self.scopes@;
            proof {
                lemma_models(old_scopes);
            }
            if found {
                proof {
                    assert(v.scopes[index as int].wf());
                }
                let ghost fin: Scope = *final(self);
                let child = &mut self.scopes[index];
                proof {
                    lemma_models_change(old_scopes, index as int, *final(child));
                    assert(fin.scopes@ =~= old_scopes.update(index as int, *final(child)));
                    assert(fin.model().scopes == v.scopes.update(
                        index as int,
                        final(child).model(),
                    ));
                    assert(v.scopes.update(index as int, v.scopes[index as int]) =~= v.scopes);
                }
                child.get_scope_from(path, from + 1)
            } else {
                None
            }
        }
    }

    /// Puts a signal into the scope and tells the signal the way that
    /// leads to it.
    pub fn add_signal(&mut self, signal: &mut Signal)
        requires
            old(self).wf(),
        ensures
            final(self).wf(),
            final(self).model() == old(self).model().with_signal(old(signal).id@),
            texts(final(signal).path@) == old(self).model().path.push(old(self).model().name),
            final(signal).id == old(signal).id,
            final(signal).name == old(signal).name,
            final(signal).width == old(signal).width,
            final(signal).events == old(signal).events,
            final(signal).default == old(signal).default,
    {
        let key = chars_of(signal.id.as_str());
        let ghost names = views(self.signals@);
        proof {
            lemma_with_name(names, key@);
            lemma_models(self.scopes@);
        }
        let (found, index) = locate(&self.signals, &key);
        if !found {
            self.signals.insert(index, key);
            assert(views(self.signals@) =~= names.insert(index as int, key@));
        }
        signal.path = copy_strings(&self.path);
        signal.path.push(self.name.clone());
        proof {
            assert(texts(signal.path@) =~= texts(self.path@).push(self.name@));
            assert(self.model().child_names() =~= old(self).model().child_names());
        }
    }

    /// Lists the entries of the scope tree: the signals of a scope in the
    /// order of their identifiers, then each scope within it in the order
    /// of the names, followed by its own entries one level deeper.
    pub fn traverse(&self) -> (r: Vec<ScopeEntry>)
        requires
            self.wf(),
        ensures
            entries_view(r@) == self.model().listing(0),
    {
        let mut out: Vec<ScopeEntry> = Vec::new();
        assert(entries_view(out@) =~= Seq::<(Seq<char>, ScopeChild, int)>::empty());
        self._traverse(0, &mut out);
        out
    }

    /// Appends the entries of the scope tree at a depth.
    pub fn _traverse(&self, depth: u64, out: &mut Vec<ScopeEntry>)
        requires
            self.wf(),
            depth <= self.path.len(),
        ensures
            entries_view(final(out)@) == entries_view(old(out)@) + self.model().listing(depth as int),
        decreases self,
    {
        let ghost v = self.model();
        let ghost start = entries_view(out@);
        let mut i: usize = 0;
        while i < self.signals.len()
            invariant
                i <= self.signals.len(),
                entries_view(out@) == start + Seq::new(
                    i as nat,
                    |k: int| (v.signals[k], ScopeChild::Signal, depth as int),
                ),
                v == self.model(),
            decreases self.signals.len() - i,
        {
            let ghost before = out@;
            let entry = ScopeEntry {
                name: string_of(&self.signals[i]),
                kind: ScopeChild::Signal,
                depth,
            };
            assert(entry.name@ == v.signals[i as int]);
            out.push(entry);
            assert(entries_view(out@) =~= entries_view(before).push(
                (v.signals[i as int], ScopeChild::Signal, depth as int),
            ));
            i += 1;
            assert(entries_view(out@) =~= start + Seq::new(
                i as nat,
                |k: int| (v.signals[k], ScopeChild::Signal, depth as int),
            ));
        }
        let ghost mid = entries_view(out@);
        proof {
            lemma_models(self.scopes@);
        }
        let mut j: usize = 0;
        assert(v.scopes.take(0) =~= Seq::<ScopeView>::empty());
        while j < self.scopes.len()
            invariant
                j <= self.scopes.len(),
                v == self.model(),
                v.wf(),
                depth <= self.path.len(),
                v.scopes.len() == self.scopes.len(),
                forall|k: int| 0 <= k < self.scopes.len() ==> v.scopes[k] == (#[trigger] self.scopes[k]).model(),
                entries_view(out@) == mid + ScopeView::listing_of(v.scopes.take(j as int), depth as int),
            decreases self.scopes.len() - j,
        {
            let child = &self.scopes[j];
            proof {
                assert(v.scopes[j as int].wf());
                assert(v.scopes[j as int].path == v.path.push(v.name));
                assert(texts(child.path@) == texts(self.path@).push(self.name@));
                assert(child.path.len() == self.path.len() + 1);
                let t = v.scopes.take(j + 1);
                assert(t.drop_last() =~= v.scopes.take(j as int));
                assert(t.last() == v.scopes[j as int]);
            }
            let ghost before = out@;
            out.push(ScopeEntry { name: child.name.clone(), kind: ScopeChild::Scope, depth });
            assert(entries_view(out@) =~= entries_view(before).push(
                (v.scopes[j as int].name, ScopeChild::Scope, depth as int),
            ));
            assert(entries_view(out@) =~= mid + ScopeView::listing_of(v.scopes.take(j as int), depth as int)
                + seq![(v.scopes[j as int].name, ScopeChild::Scope, depth as int)]);
            child._traverse(depth + 1, out);
            j += 1;
            assert(entries_view(out@) =~= mid + ScopeView::listing_of(v.scopes.take(j as int), depth as int));
        }
        assert(v.scopes.take(self.scopes.len() as int) == v.scopes);
    }
}

/// The entries of a listing as mathematical values.
pub open spec fn entries_view(entries: Seq<ScopeEntry>) -> Seq<(Seq<char>, ScopeChild, int)> {
    Seq::new(entries.len(), |i: int| (entries[i].name@, entries[i].kind, entries[i].depth as int))
}

impl ScopeView {
    /// Every signal of the tree is among the given identifiers.
    pub open spec fn signals_within(self, ids: Seq<Seq<char>>) -> bool
        decreases self,
    {
        &&& forall|i: int| 0 <= i < self.signals.len() ==> holds(ids, #[trigger] self.signals[i])
        &&& forall|i: int|
            0 <= i < self.scopes.len() ==> (#[trigger] self.scopes[i]).signals_within(ids)
    }
}

/// Creating scopes adds no signal to a tree.
pub proof fn lemma_within_with_path(v: ScopeView, p: Seq<Seq<char>>, ids: Seq<Seq<char>>)
    requires
        v.signals_within(ids),
    ensures
        v.with_path(p).signals_within(ids),
    decreases p.len(),
{
    if p.len() > 0 {
        let names = v.child_names();
        let r = rank(names, p[0]);
        let w = v.with_path(p);
        if holds(names, p[0]) && 0 <= r < v.scopes.len() {
            lemma_within_with_path(v.scopes[r], p.skip(1), ids);
            assert forall|i: int| 0 <= i < w.scopes.len() implies (
            #[trigger] w.scopes[i]).signals_within(ids) by {
                if i != r {
                    assert(w.scopes[i] == v.scopes[i]);
                }
            }
        } else {
            let c = ScopeView::leaf(p[0], v.path.push(v.name));
            assert(c.signals_within(ids));
            lemma_within_with_path(c, p.skip(1), ids);
            lemma_rank_bounds(names, p[0]);
            assert forall|i: int| 0 <= i < w.scopes.len() implies (
            #[trigger] w.scopes[i]).signals_within(ids) by {
                if i < r {
                    assert(w.scopes[i] == v.scopes[i]);
                } else if i > r {
                    assert(w.scopes[i] == v.scopes[i - 1]);
                }
            }
        }
    }
}

/// The rank of a name is a position of the list or its end.
pub proof fn lemma_rank_bounds(names: Seq<Seq<char>>, name: Seq<char>)
    ensures
        0 <= rank(names, name) <= names.len(),
    decreases names.len(),
{
    if names.len() > 0 {
        lemma_rank_bounds(names.drop_last(), name);
    }
}

/// A scope of a tree has no signal that the tree has not, and the tree
/// with another such scope in its place has none either.
pub proof fn lemma_within_put(v: ScopeView, p: Seq<Seq<char>>, s: ScopeView, ids: Seq<Seq<char>>)
    requires
        v.signals_within(ids),
        v.has_path(p),
    ensures
        v.at(p).signals_within(ids),
        s.signals_within(ids) ==> v.put(p, s).signals_within(ids),
    decreases p.len(),
{
    if p.len() > 0 {
        let r = rank(v.child_names(), p[0]);
        let w = v.put(p, s);
        lemma_within_put(v.scopes[r], p.skip(1), s, ids);
        if s.signals_within(ids) {
            assert forall|i: int| 0 <= i < w.scopes.len() implies (
            #[trigger] w.scopes[i]).signals_within(ids) by {
                if i != r {
                    assert(w.scopes[i] == v.scopes[i]);
                }
            }
        }
    }
}

/// The signals of a tree stay among the identifiers when there are more
/// identifiers.
pub proof fn lemma_within_more(v: ScopeView, ids: Seq<Seq<char>>, more: Seq<Seq<char>>)
    requires
        v.signals_within(ids),
        forall|x: Seq<char>| holds(ids, x) ==> holds(more, x),
    ensures
        v.signals_within(more),
    decreases v,
{
    assert forall|i: int| 0 <= i < v.scopes.len() implies (#[trigger] v.scopes[i]).signals_within(
        more,
    ) by {
        lemma_within_more(v.scopes[i], ids, more);
    }
}

/// Every signal that the listing of a tree shows is a signal of the tree.
pub proof fn lemma_listing_within(v: ScopeView, ids: Seq<Seq<char>>, depth: int)
    requires
        v.signals_within(ids),
    ensures
        forall|k: int|
            0 <= k < v.listing(depth).len() && (#[trigger] v.listing(depth)[k]).1
                == ScopeChild::Signal ==> holds(ids, v.listing(depth)[k].0),
    decreases v, 1int,
{
    lemma_listing_of_within(v.scopes, ids, depth);
}

/// Every signal that the listing of a list of trees shows is a signal of
/// one of the trees.
pub proof fn lemma_listing_of_within(scopes: Seq<ScopeView>, ids: Seq<Seq<char>>, depth: int)
    requires
        forall|i: int| 0 <= i < scopes.len() ==> (#[trigger] scopes[i]).signals_within(ids),
    ensures
        forall|k: int|
            0 <= k < ScopeView::listing_of(scopes, depth).len() && (#[trigger] ScopeView::listing_of(
                scopes,
                depth,
            )[k]).1 == ScopeChild::Signal ==> holds(ids, ScopeView::listing_of(scopes, depth)[k].0),
    decreases scopes, 0int,
{
    if scopes.len() > 0 {
        let g = scopes.drop_last();
        assert forall|i: int| 0 <= i < g.len() implies (#[trigger] g[i]).signals_within(ids) by {
            assert(g[i] == scopes[i]);
        }
        lemma_listing_of_within(g, ids, depth);
        assert(scopes.last() == scopes[scopes.len() - 1]);
        lemma_listing_within(scopes.last(), ids, depth + 1);
    }
}

/// The scope at the end of a path of a well-formed tree is well-formed.
pub proof fn lemma_at(v: ScopeView, p: Seq<Seq<char>>)
    requires
        v.wf(),
        v.has_path(p),
    ensures
        v.at(p).wf(),
    decreases p.len(),
{
    if p.len() > 0 {
        let r = rank(v.child_names(), p[0]);
        lemma_at(v.scopes[r], p.skip(1));
    }
}

/// Putting a scope with the same name and at least the same scopes in
/// place of a scope keeps every path of the tree.
pub proof fn lemma_put_keeps_paths(v: ScopeView, p: Seq<Seq<char>>, s: ScopeView, q: Seq<Seq<char>>)
    requires
        v.has_path(p),
        v.has_path(q),
        s.name == v.at(p).name,
        s.scopes == v.at(p).scopes,
    ensures
        v.put(p, s).has_path(q),
    decreases p.len(),
{
    if p.len() > 0 && q.len() > 0 {
        let names = v.child_names();
        let r = rank(names, p[0]);
        let w = v.put(p, s);
        lemma_put_keeps_name(v.scopes[r], p.skip(1), s);
        assert(w.child_names() =~= names);
        let rq = rank(names, q[0]);
        if rq == r {
            lemma_put_keeps_paths(v.scopes[r], p.skip(1), s, q.skip(1));
        } else {
            assert(w.scopes[rq] == v.scopes[rq]);
        }
    } else if q.len() > 0 {
        assert(s.child_names() =~= v.child_names());
    }
}

/// Putting a scope with the same name in place of a scope keeps the
/// name of the tree.
pub proof fn lemma_put_keeps_name(v: ScopeView, p: Seq<Seq<char>>, s: ScopeView)
    requires
        v.has_path(p),
        s.name == v.at(p).name,
    ensures
        v.put(p, s).name == v.name,
    decreases p.len(),
{
}

/// A tree that has the scopes of a path has those of the path without
/// its last name.
pub proof fn lemma_shorter_path(v: ScopeView, p: Seq<Seq<char>>)
    requires
        v.has_path(p),
        p.len() > 0,
    ensures
        v.has_path(p.drop_last()),
    decreases p.len(),
{
    if p.len() > 1 {
        let r = rank(v.child_names(), p[0]);
        lemma_shorter_path(v.scopes[r], p.skip(1));
        assert(p.drop_last().skip(1) == p.skip(1).drop_last());
        assert(p.drop_last()[0] == p[0]);
    }
}

} // verus!
