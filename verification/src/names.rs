//! Lists of names kept in dictionary order, each name once: the keys of
//! the store's ordered collections.
use crate::text::{compare_chars, lemma_lex_order, lex_lt, Rank};
use vstd::prelude::*;

verus! {

/// The names that a list of keys holds.
pub open spec fn views(keys: Seq<Vec<char>>) -> Seq<Seq<char>> {
    Seq::new(keys.len(), |i: int| keys[i]@)
}

/// The names are in dictionary order, each once.
pub open spec fn sorted(names: Seq<Seq<char>>) -> bool {
    forall|i: int, j: int| 0 <= i < j < names.len() ==> lex_lt(#[trigger] names[i], #[trigger] names[j])
}

/// The number of names that come before a name.
pub open spec fn rank(names: Seq<Seq<char>>, name: Seq<char>) -> int
    decreases names.len(),
{
    if names.len() == 0 {
        0
    } else {
        rank(names.drop_last(), name) + if lex_lt(names.last(), name) {
            1int
        } else {
            0int
        }
    }
}

/// Whether the list holds the name.
pub open spec fn holds(names: Seq<Seq<char>>, name: Seq<char>) -> bool {
    exists|i: int| 0 <= i < names.len() && #[trigger] names[i] == name
}

/// The list with the name put in at its place, unless it is there.
pub open spec fn with_name(names: Seq<Seq<char>>, name: Seq<char>) -> Seq<Seq<char>> {
    if holds(names, name) {
        names
    } else {
        names.insert(rank(names, name), name)
    }
}

/// The names that come before a name are those before the first one that
/// does not.
pub proof fn lemma_rank(names: Seq<Seq<char>>, name: Seq<char>, i: int)
    requires
        0 <= i <= names.len(),
        forall|j: int| 0 <= j < i ==> lex_lt(#[trigger] names[j], name),
        forall|j: int| i <= j < names.len() ==> !lex_lt(#[trigger] names[j], name),
    ensures
        rank(names, name) == i,
    decreases names.len(),
{
    if names.len() > 0 {
        let g = names.drop_last();
        if i == names.len() {
            assert(lex_lt(names[i - 1], name));
            lemma_rank(g, name, i - 1);
        } else {
            assert(!lex_lt(names[names.len() - 1], name));
            lemma_rank(g, name, i);
        }
    }
}

/// In a sorted list the names before a name come first, and the name
/// itself, if it is there, right after them.
pub proof fn lemma_rank_split(names: Seq<Seq<char>>, name: Seq<char>)
    requires
        sorted(names),
    ensures
        0 <= rank(names, name) <= names.len(),
        forall|j: int| 0 <= j < rank(names, name) ==> lex_lt(#[trigger] names[j], name),
        forall|j: int| rank(names, name) <= j < names.len() ==> !lex_lt(#[trigger] names[j], name),
        holds(names, name) <==> rank(names, name) < names.len() && names[rank(names, name)]
            == name,
        forall|j: int|
            rank(names, name) < j < names.len() ==> lex_lt(name, #[trigger] names[j]),
        !holds(names, name) ==> forall|j: int|
            rank(names, name) <= j < names.len() ==> lex_lt(name, #[trigger] names[j]),
    decreases names.len(),
{
    if names.len() > 0 {
        let g = names.drop_last();
        let last = names.len() - 1;
        assert forall|j: int| 0 <= j < g.len() implies g[j] == names[j] by {}
        assert(sorted(g)) by {
            assert forall|i: int, j: int| 0 <= i < j < g.len() implies lex_lt(
                #[trigger] g[i],
                #[trigger] g[j],
            ) by {
                assert(g[i] == names[i] && g[j] == names[j]);
            }
        }
        lemma_rank_split(g, name);
        if lex_lt(names[last], name) {
            assert forall|j: int| 0 <= j < last implies lex_lt(#[trigger] names[j], name) by {
                assert(lex_lt(names[j], names[last]));
                lemma_lex_order(names[j], names[last], name);
            }
            lemma_rank(g, name, last);
        }
        let r = rank(names, name);
        lemma_lex_order(name, name, name);
        if holds(names, name) {
            let k = choose|k: int| 0 <= k < names.len() && #[trigger] names[k] == name;
            if k < r {
                assert(lex_lt(names[k], name));
            } else if k > r {
                assert(lex_lt(names[r], names[k]));
                assert(!lex_lt(names[r], name));
            }
        }
        assert forall|j: int| r <= j < names.len() && names[j] != name implies lex_lt(
            name,
            #[trigger] names[j],
        ) by {
            assert(!lex_lt(names[j], name));
            lemma_trichotomy(names[j], name);
        }
        assert forall|j: int| r < j < names.len() implies lex_lt(name, #[trigger] names[j]) by {
            if names[j] == name {
                assert(lex_lt(names[r], names[j]));
            }
        }
    } else {
        assert(!holds(names, name));
    }
}

/// Of two different names one comes before the other.
pub proof fn lemma_trichotomy(a: Seq<char>, b: Seq<char>)
    ensures
        lex_lt(a, b) || a == b || lex_lt(b, a),
    decreases a.len() + b.len(),
{
    if a != b && !lex_lt(a, b) && !lex_lt(b, a) {
        // They agree on every position that both have.
        assert forall|k: int| 0 <= k < a.len() && k < b.len() implies a[k] == b[k] by {
            lemma_agree_upto(a, b, k);
        }
        if a.len() < b.len() {
            assert(crate::text::lex_lt_at(a, b, a.len() as int));
        } else if b.len() < a.len() {
            assert(crate::text::lex_lt_at(b, a, b.len() as int));
        } else {
            assert(a =~= b);
        }
    }
}

proof fn lemma_agree_upto(a: Seq<char>, b: Seq<char>, k: int)
    requires
        !lex_lt(a, b),
        !lex_lt(b, a),
        0 <= k < a.len(),
        k < b.len(),
    ensures
        forall|i: int| 0 <= i <= k ==> a[i] == b[i],
    decreases k,
{
    if k > 0 {
        lemma_agree_upto(a, b, k - 1);
    }
    if a[k] != b[k] {
        if a[k] < b[k] {
            assert(crate::text::lex_lt_at(a, b, k));
        } else {
            assert(crate::text::lex_lt_at(b, a, k));
        }
    }
}

/// Putting a name into a sorted list keeps it sorted, and the new list
/// holds the name and what the old one held.
pub proof fn lemma_with_name(names: Seq<Seq<char>>, name: Seq<char>)
    requires
        sorted(names),
    ensures
        sorted(with_name(names, name)),
        holds(with_name(names, name), name),
        forall|other: Seq<char>|
            holds(with_name(names, name), other) <==> (other == name || holds(names, other)),
        with_name(with_name(names, name), name) == with_name(names, name),
{
    lemma_rank_split(names, name);
    let r = rank(names, name);
    let g = with_name(names, name);
    if !holds(names, name) {
        assert forall|i: int, j: int| 0 <= i < j < g.len() implies lex_lt(
            #[trigger] g[i],
            #[trigger] g[j],
        ) by {
            let i0 = if i < r {
                i
            } else {
                i - 1
            };
            let j0 = if j < r {
                j
            } else {
                j - 1
            };
            if i == r {
                assert(g[j] == names[j0]);
            } else if j == r {
                assert(g[i] == names[i0]);
            } else {
                assert(g[i] == names[i0] && g[j] == names[j0]);
            }
        }
        assert(g[r] == name);
        assert forall|other: Seq<char>| holds(g, other) <==> (other == name || holds(
            names,
            other,
        )) by {
            if holds(g, other) {
                let k = choose|k: int| 0 <= k < g.len() && #[trigger] g[k] == other;
                if k < r {
                    assert(names[k] == other);
                } else if k > r {
                    assert(names[k - 1] == other);
                }
            }
            if holds(names, other) {
                let k = choose|k: int| 0 <= k < names.len() && #[trigger] names[k] == other;
                if k < r {
                    assert(g[k] == other);
                } else {
                    assert(g[k + 1] == other);
                }
            }
        }
    }
}

/// In a sorted list a name stands at the place that its rank gives.
pub proof fn lemma_unique_place(names: Seq<Seq<char>>, name: Seq<char>, k: int)
    requires
        sorted(names),
        0 <= k < names.len(),
        names[k] == name,
    ensures
        rank(names, name) == k,
        holds(names, name),
{
    lemma_rank_split(names, name);
    lemma_lex_order(name, name, name);
    let r = rank(names, name);
    if k < r {
        assert(lex_lt(names[k], name));
    } else if k > r {
        assert(lex_lt(names[r], names[k]));
    }
}

/// Finds the place of a name in a sorted list of keys: whether the list
/// holds it, and how many keys come before it.
pub fn locate(keys: &Vec<Vec<char>>, name: &Vec<char>) -> (r: (bool, usize))
    requires
        sorted(views(keys@)),
    ensures
        r.0 == holds(views(keys@), name@),
        r.1 == rank(views(keys@), name@),
        r.1 <= keys.len(),
        r.0 ==> r.1 < keys.len() && keys[r.1 as int]@ == name@,
{
    let ghost names = views(keys@);
    let mut lo: usize = 0;
    let mut hi: usize = keys.len();
    let mut found = false;
    while lo < hi
        invariant
            names == views(keys@),
            sorted(names),
            lo <= hi <= keys.len(),
            forall|j: int| 0 <= j < lo ==> lex_lt(#[trigger] names[j], name@),
            forall|j: int| hi <= j < names.len() ==> !lex_lt(#[trigger] names[j], name@),
            found ==> hi < keys.len() && names[hi as int] == name@,
            !found ==> forall|j: int| hi <= j < names.len() ==> #[trigger] names[j] != name@,
        decreases hi - lo,
    {
        let mid = lo + (hi - lo) / 2;
        assert(names[mid as int] == keys[mid as int]@);
        match compare_chars(&keys[mid], name) {
            Rank::Before => {
                assert forall|j: int| 0 <= j < mid + 1 implies lex_lt(
                    #[trigger] names[j],
                    name@,
                ) by {
                    if j < mid {
                        assert(lex_lt(names[j], names[mid as int]));
                        lemma_lex_order(names[j], names[mid as int], name@);
                    }
                }
                lo = mid + 1;
            },
            Rank::Same => {
                proof {
                    lemma_lex_order(name@, name@, name@);
                    assert forall|j: int| mid <= j < names.len() implies !lex_lt(
                        #[trigger] names[j],
                        name@,
                    ) by {
                        if j > mid {
                            assert(lex_lt(names[mid as int], names[j]));
                            lemma_lex_order(names[mid as int], names[j], name@);
                        }
                    }
                }
                found = true;
                hi = mid;
            },
            Rank::After => {
                proof {
                    assert forall|j: int| mid <= j < names.len() implies !lex_lt(
                        #[trigger] names[j],
                        name@,
                    ) && names[j] != name@ by {
                        lemma_lex_order(name@, names[mid as int], name@);
                        if j > mid {
                            assert(lex_lt(names[mid as int], names[j]));
                            lemma_lex_order(name@, names[mid as int], names[j]);
                            lemma_lex_order(name@, names[j], name@);
                        }
                    }
                }
                found = false;
                hi = mid;
            },
        }
    }
    proof {
        lemma_rank(names, name@, lo as int);
        lemma_rank_split(names, name@);
        if holds(names, name@) && !found {
            let k = choose|k: int| 0 <= k < names.len() && #[trigger] names[k] == name@;
            lemma_lex_order(name@, name@, name@);
            assert(k >= lo);
        }
    }
    (found, lo)
}

} // verus!
