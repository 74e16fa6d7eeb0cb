//! Stable ordering of named items, ascending by name.

use crate::text::{equal, lemma_lex_total, lemma_lex_transitive, less_than, lex_le, lex_lt};
use vstd::prelude::*;
use vstd::seq_lib::*;

verus! {

/// The views of a sequence of items.
pub open spec fn views<T: View>(s: Seq<T>) -> Seq<T::V> {
    s.map_values(|t: T| t@)
}

/// A value that is ordered by a name it carries.
pub trait Named {
    /// The name by which the value is ordered.
    spec fn name(self) -> Seq<char>;
}

/// An item whose view is ordered by a name, and that can hand the name out.
pub trait Keyed: View + Sized where Self::V: Named {
    /// The name by which the item is ordered.
    fn key(&self) -> (k: &str)
        ensures
            k@ == self@.name(),
    ;
}

/// The names of `s`, in order.
pub open spec fn names_of<V: Named>(s: Seq<V>) -> Seq<Seq<char>> {
    s.map_values(|v: V| v.name())
}

/// Each name is at or below every later one.
pub open spec fn ascending(names: Seq<Seq<char>>) -> bool {
    forall|i: int, j: int| 0 <= i < j < names.len() ==> lex_le(names[i], names[j])
}

/// Each name is strictly below every later one; hence no name occurs twice.
pub open spec fn strictly_ascending(names: Seq<Seq<char>>) -> bool {
    forall|i: int, j: int| 0 <= i < j < names.len() ==> lex_lt(names[i], names[j])
}

/// Where `name` goes among `names`: behind the last name that is not above it.
pub open spec fn insert_point(names: Seq<Seq<char>>, name: Seq<char>) -> int
    decreases names.len(),
{
    if names.len() == 0 {
        0
    } else if lex_lt(name, names.last()) {
        insert_point(names.drop_last(), name)
    } else {
        names.len() as int
    }
}

/// `s` with `x` put in behind the last item whose name is not above its own.
pub open spec fn sorted_insert<V: Named>(s: Seq<V>, x: V) -> Seq<V> {
    s.insert(insert_point(names_of(s), x.name()), x)
}

/// `s` sorted ascending by name; items of equal name keep their order.
pub open spec fn stable_sort<V: Named>(s: Seq<V>) -> Seq<V>
    decreases s.len(),
{
    if s.len() == 0 {
        s
    } else {
        sorted_insert(stable_sort(s.drop_last()), s.last())
    }
}

/// The insert point lies within the sequence, every name from it on is above
/// the new name, and the name just before it is not.
pub proof fn lemma_insert_point(names: Seq<Seq<char>>, name: Seq<char>)
    ensures
        0 <= insert_point(names, name) <= names.len(),
        forall|j: int| insert_point(names, name) <= j < names.len() ==> lex_lt(name, names[j]),
        insert_point(names, name) > 0 ==> !lex_lt(name, names[insert_point(names, name) - 1]),
    decreases names.len(),
{
    if names.len() > 0 && lex_lt(name, names.last()) {
        let front = names.drop_last();
        lemma_insert_point(front, name);
        assert forall|j: int| insert_point(names, name) <= j < names.len() implies lex_lt(
            name,
            names[j],
        ) by {
            if j < front.len() {
                assert(names[j] == front[j]);
            }
        }
    }
}

/// The insert point among the first `p` names is the insert point among all
/// of them, when every name from `p` on is above the new name.
pub proof fn lemma_insert_point_prefix(names: Seq<Seq<char>>, name: Seq<char>, p: int)
    requires
        0 <= p <= names.len(),
        forall|j: int| p <= j < names.len() ==> lex_lt(name, names[j]),
    ensures
        insert_point(names, name) == insert_point(names.take(p), name),
    decreases names.len() - p,
{
    if p < names.len() {
        assert(names.drop_last().take(p) =~= names.take(p));
        lemma_insert_point_prefix(names.drop_last(), name, p);
    } else {
        assert(names.take(p) =~= names);
    }
}

/// Inserting keeps an ascending sequence ascending.
pub proof fn lemma_sorted_insert_ascending<V: Named>(s: Seq<V>, x: V)
    requires
        ascending(names_of(s)),
    ensures
        ascending(names_of(sorted_insert(s, x))),
        sorted_insert(s, x).len() == s.len() + 1,
        sorted_insert(s, x).to_multiset() == s.to_multiset().insert(x),
{
    let names = names_of(s);
    let p = insert_point(names, x.name());
    lemma_insert_point(names, x.name());
    to_multiset_insert(s, p, x);
    let after = names_of(sorted_insert(s, x));
    assert forall|i: int, j: int| 0 <= i < j < after.len() implies lex_le(after[i], after[j]) by {
        if j == p {
            // after[i] is an old name before the insert point
            assert(after[i] == names[i]);
            assert(lex_le(names[i], names[p - 1]));
            lemma_lex_total(names[i], x.name());
            if lex_lt(x.name(), names[i]) {
                if names[i] != names[p - 1] {
                    lemma_lex_transitive(x.name(), names[i], names[p - 1]);
                }
            }
        } else if i == p {
            assert(after[j] == names[j - 1]);
        } else {
            let oi = if i < p {
                i
            } else {
                i - 1
            };
            let oj = if j < p {
                j
            } else {
                j - 1
            };
            assert(after[i] == names[oi]);
            assert(after[j] == names[oj]);
        }
    }
}

/// A sorted sequence is ascending and holds the items of the input, each
/// as often as the input does.
pub proof fn lemma_stable_sort<V: Named>(s: Seq<V>)
    ensures
        ascending(names_of(stable_sort(s))),
        stable_sort(s).len() == s.len(),
        stable_sort(s).to_multiset() == s.to_multiset(),
    decreases s.len(),
{
    if s.len() > 0 {
        lemma_stable_sort(s.drop_last());
        lemma_sorted_insert_ascending(stable_sort(s.drop_last()), s.last());
        to_multiset_build(s.drop_last(), s.last());
        assert(s.drop_last().push(s.last()) =~= s);
    }
}

/// Sorting a sequence with one more item at its end is inserting that item
/// into the sorted sequence.
pub proof fn lemma_stable_sort_push<V: Named>(s: Seq<V>, x: V)
    ensures
        stable_sort(s.push(x)) == sorted_insert(stable_sort(s), x),
{
    assert(s.push(x).drop_last() =~= s);
}

/// No two items of `s` share a name.
pub open spec fn names_differ<V: Named>(s: Seq<V>) -> bool {
    forall|i: int, j: int| 0 <= i < j < s.len() ==> s[i].name() != s[j].name()
}

/// Sorting neither adds nor loses an item.
pub proof fn lemma_stable_sort_contains<V: Named>(s: Seq<V>, x: V)
    ensures
        stable_sort(s).contains(x) <==> s.contains(x),
{
    lemma_stable_sort(s);
    to_multiset_contains(s, x);
    to_multiset_contains(stable_sort(s), x);
}

/// Inserting an item whose name is new keeps a strictly ascending sequence
/// strictly ascending.
pub proof fn lemma_sorted_insert_strict<V: Named>(s: Seq<V>, x: V)
    requires
        strictly_ascending(names_of(s)),
        forall|i: int| 0 <= i < s.len() ==> s[i].name() != x.name(),
    ensures
        strictly_ascending(names_of(sorted_insert(s, x))),
{
    let names = names_of(s);
    let p = insert_point(names, x.name());
    lemma_insert_point(names, x.name());
    let after = names_of(sorted_insert(s, x));
    assert forall|i: int, j: int| 0 <= i < j < after.len() implies lex_lt(after[i], after[j]) by {
        if j == p {
            assert(after[i] == names[i]);
            assert(names[p - 1] == s[p - 1].name());
            lemma_lex_total(names[p - 1], x.name());
            if i < p - 1 {
                lemma_lex_transitive(names[i], names[p - 1], x.name());
            }
        } else if i == p {
            assert(after[j] == names[j - 1]);
        } else {
            let oi = if i < p {
                i
            } else {
                i - 1
            };
            let oj = if j < p {
                j
            } else {
                j - 1
            };
            assert(after[i] == names[oi]);
            assert(after[j] == names[oj]);
        }
    }
}

/// Sorting items of pairwise different names gives a strictly ascending
/// sequence.
pub proof fn lemma_stable_sort_strict<V: Named>(s: Seq<V>)
    requires
        names_differ(s),
    ensures
        strictly_ascending(names_of(stable_sort(s))),
    decreases s.len(),
{
    if s.len() > 0 {
        let front = s.drop_last();
        let x = s.last();
        assert forall|i: int, j: int| 0 <= i < j < front.len() implies front[i].name()
            != front[j].name() by {
            assert(front[i] == s[i] && front[j] == s[j]);
        }
        lemma_stable_sort_strict(front);
        let sorted = stable_sort(front);
        assert forall|i: int| 0 <= i < sorted.len() implies sorted[i].name() != x.name() by {
            lemma_stable_sort_contains(front, sorted[i]);
            assert(sorted.contains(sorted[i]));
            let k = choose|k: int| 0 <= k < front.len() && front[k] == sorted[i];
            assert(s[k] == front[k]);
        }
        lemma_sorted_insert_strict(sorted, x);
    }
}

/// `i` is the first index in `s` of an item called `name`.
pub open spec fn is_first_named<V: Named>(s: Seq<V>, name: Seq<char>, i: int) -> bool {
    &&& 0 <= i < s.len()
    &&& s[i].name() == name
    &&& forall|j: int| 0 <= j < i ==> s[j].name() != name
}

/// The first index in `s` of an item called `name`, if there is one.
pub open spec fn first_named<V: Named>(s: Seq<V>, name: Seq<char>) -> Option<int> {
    if exists|i: int| is_first_named(s, name, i) {
        Some(choose|i: int| is_first_named(s, name, i))
    } else {
        None
    }
}

/// Only one index is the first of a name.
pub proof fn lemma_first_named<V: Named>(s: Seq<V>, name: Seq<char>, i: int)
    requires
        is_first_named(s, name, i),
    ensures
        first_named(s, name) == Some(i),
{
    let k = choose|k: int| is_first_named(s, name, k);
    if k < i {
        assert(s[k].name() != name);
    }
    if i < k {
        assert(s[i].name() != name);
    }
}

/// The first index in `v` of an item called `name`.
pub fn find_named<T: Keyed>(v: &Vec<T>, name: &str) -> (r: Option<usize>) where T::V: Named
    ensures
        r is Some <==> first_named(views(v@), name@) is Some,
        r matches Some(i) ==> first_named(views(v@), name@) == Some(i as int),
{
    let mut i: usize = 0;
    while i < v.len()
        invariant
            i <= v.len(),
            forall|j: int| 0 <= j < i ==> views(v@)[j].name() != name@,
        decreases v.len() - i,
    {
        if equal(v[i].key(), name) {
            proof {
                lemma_first_named(views(v@), name@, i as int);
            }
            return Some(i);
        }
        i = i + 1;
    }
    None
}

/// Where an item called `name` goes in `v`.
pub fn insert_position<T: Keyed>(v: &Vec<T>, name: &str) -> (p: usize) where T::V: Named
    ensures
        p == insert_point(names_of(views(v@)), name@),
{
    let ghost names = names_of(views(v@));
    let mut p: usize = v.len();
    while p > 0 && less_than(name, v[p - 1].key())
        invariant
            p <= v.len(),
            names == names_of(views(v@)),
            forall|j: int| p <= j < names.len() ==> lex_lt(name@, names[j]),
        decreases p,
    {
        p = p - 1;
    }
    proof {
        lemma_insert_point_prefix(names, name@, p as int);
        if p > 0 {
            assert(names.take(p as int).last() == names[p - 1]);
        }
    }
    p
}

/// Puts `x` into `v` behind the last item whose name is not above its own.
pub fn insert_sorted<T: Keyed>(v: &mut Vec<T>, x: T) where T::V: Named
    ensures
        views(final(v)@) == sorted_insert(views(old(v)@), x@),
{
    let p = insert_position(v, x.key());
    proof {
        lemma_insert_point(names_of(views(v@)), x@.name());
    }
    let ghost before = v@;
    v.insert(p, x);
    assert(views(v@) =~= views(before).insert(p as int, x@));
}

} // verus!
