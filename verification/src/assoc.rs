//! Association sequences: the mathematical reading of `Vec<(K, V)>` fields.
//!
//! Every store in this crate keeps its maps as vectors of key/value pairs
//! whose keys are pairwise distinct (by deep view).  `map_of` interprets such
//! a sequence as a finite `Map`, and the lemmas below relate the executable
//! operations (push, update, remove) to `Map` operations.

use vstd::prelude::*;

verus! {

/// The finite map denoted by an association sequence; later entries win,
/// which is irrelevant once keys are distinct.
pub open spec fn map_of<K: DeepView, V: DeepView>(s: Seq<(K, V)>) -> Map<K::V, V::V>
    decreases s.len(),
{
    if s.len() == 0 {
        Map::empty()
    } else {
        map_of(s.drop_last()).insert(s.last().0.deep_view(), s.last().1.deep_view())
    }
}

/// Some entry of `s` has key view `k`.
pub open spec fn has_key<K: DeepView, V>(s: Seq<(K, V)>, k: K::V) -> bool {
    exists|i: int| 0 <= i < s.len() && (#[trigger] s[i]).0.deep_view() == k
}

/// No two entries of `s` share a key view.
pub open spec fn uniq_keys<K: DeepView, V>(s: Seq<(K, V)>) -> bool {
    forall|i: int, j: int|
        0 <= i < j < s.len() ==> (#[trigger] s[i]).0.deep_view() != (#[trigger] s[j]).0.deep_view()
}

/// `v` occurs among the values of the map `m`.
pub open spec fn in_values<K, V>(m: Map<K, V>, v: V) -> bool {
    exists|k: K| #[trigger] m.dom().contains(k) && m[k] == v
}

/// The domain of `map_of(s)` is exactly the set of key views of `s`.
pub proof fn lemma_map_of_dom<K: DeepView, V: DeepView>(s: Seq<(K, V)>)
    ensures
        forall|k: K::V| #[trigger] map_of(s).contains_key(k) <==> has_key(s, k),
        map_of(s).dom().finite(),
    decreases s.len(),
{
    if s.len() == 0 {
    } else {
        lemma_map_of_dom(s.drop_last());
        assert forall|k: K::V| #[trigger] map_of(s).contains_key(k) implies has_key(s, k) by {
            if k == s.last().0.deep_view() {
                assert(s[s.len() - 1].0.deep_view() == k);
            } else {
                let i = choose|i: int|
                    0 <= i < s.drop_last().len() && (#[trigger] s.drop_last()[i]).0.deep_view()
                        == k;
                assert(s[i].0.deep_view() == k);
            }
        }
        assert forall|k: K::V| has_key(s, k) implies #[trigger] map_of(s).contains_key(k) by {
            let i = choose|i: int| 0 <= i < s.len() && (#[trigger] s[i]).0.deep_view() == k;
            if i < s.len() - 1 {
                assert(s.drop_last()[i].0.deep_view() == k);
            }
        }
    }
}

/// Distinct keys survive dropping the last entry.
pub proof fn lemma_uniq_drop_last<K: DeepView, V: DeepView>(s: Seq<(K, V)>)
    requires
        uniq_keys(s),
        s.len() > 0,
    ensures
        uniq_keys(s.drop_last()),
{
    assert forall|i: int, j: int| 0 <= i < j < s.drop_last().len() implies (#[trigger] s.drop_last()[i]).0.deep_view()
        != (#[trigger] s.drop_last()[j]).0.deep_view() by {
        assert(s.drop_last()[i] == s[i]);
        assert(s.drop_last()[j] == s[j]);
    }
}

/// With distinct keys, entry `i` is what `map_of` associates to its key.
pub proof fn lemma_map_of_index<K: DeepView, V: DeepView>(s: Seq<(K, V)>, i: int)
    requires
        uniq_keys(s),
        0 <= i < s.len(),
    ensures
        map_of(s).contains_key(s[i].0.deep_view()),
        map_of(s)[s[i].0.deep_view()] == s[i].1.deep_view(),
    decreases s.len(),
{
    if i == s.len() - 1 {
    } else {
        lemma_uniq_drop_last(s);
        lemma_map_of_index(s.drop_last(), i);
        assert(s.drop_last()[i] == s[i]);
        assert(s[s.len() - 1].0.deep_view() != s[i].0.deep_view());
    }
}

/// Pushing a pair is insertion.
pub proof fn lemma_map_of_push<K: DeepView, V: DeepView>(s: Seq<(K, V)>, k: K, v: V)
    ensures
        map_of(s.push((k, v))) == map_of(s).insert(k.deep_view(), v.deep_view()),
{
    assert(s.push((k, v)).drop_last() =~= s);
    assert(s.push((k, v)).last() == (k, v));
}

/// Overwriting entry `i` while keeping its key is insertion at that key.
pub proof fn lemma_map_of_update<K: DeepView, V: DeepView>(s: Seq<(K, V)>, i: int, p: (K, V))
    requires
        uniq_keys(s),
        0 <= i < s.len(),
        p.0.deep_view() == s[i].0.deep_view(),
    ensures
        map_of(s.update(i, p)) == map_of(s).insert(p.0.deep_view(), p.1.deep_view()),
        uniq_keys(s.update(i, p)),
    decreases s.len(),
{
    assert forall|x: int, y: int| 0 <= x < y < s.update(i, p).len() implies (#[trigger] s.update(
        i,
        p,
    )[x]).0.deep_view() != (#[trigger] s.update(i, p)[y]).0.deep_view() by {
        assert(s.update(i, p)[x].0.deep_view() == s[x].0.deep_view());
        assert(s.update(i, p)[y].0.deep_view() == s[y].0.deep_view());
    }
    if i == s.len() - 1 {
        assert(s.update(i, p).drop_last() =~= s.drop_last());
        assert(s.update(i, p).last() == p);
        assert(map_of(s.update(i, p)) =~= map_of(s).insert(p.0.deep_view(), p.1.deep_view()));
    } else {
        lemma_uniq_drop_last(s);
        lemma_map_of_update(s.drop_last(), i, p);
        assert(s.update(i, p).drop_last() =~= s.drop_last().update(i, p));
        assert(s.update(i, p).last() == s.last());
        assert(map_of(s.update(i, p)) =~= map_of(s).insert(p.0.deep_view(), p.1.deep_view()));
    }
}

/// Removing entry `i` is removal of its key.
pub proof fn lemma_map_of_remove<K: DeepView, V: DeepView>(s: Seq<(K, V)>, i: int)
    requires
        uniq_keys(s),
        0 <= i < s.len(),
    ensures
        map_of(s.remove(i)) == map_of(s).remove(s[i].0.deep_view()),
        uniq_keys(s.remove(i)),
    decreases s.len(),
{
    assert forall|x: int, y: int| 0 <= x < y < s.remove(i).len() implies (#[trigger] s.remove(
        i,
    )[x]).0.deep_view() != (#[trigger] s.remove(i)[y]).0.deep_view() by {
        let x0: int = if x < i { x } else { x + 1 };
        let y0: int = if y < i { y } else { y + 1 };
        assert(s.remove(i)[x] == s[x0]);
        assert(s.remove(i)[y] == s[y0]);
    }
    if i == s.len() - 1 {
        assert(s.remove(i) =~= s.drop_last());
        lemma_uniq_drop_last(s);
        lemma_map_of_dom::<K, V>(s.drop_last());
        assert(!has_key(s.drop_last(), s[i].0.deep_view()));
        assert(map_of(s.remove(i)) =~= map_of(s).remove(s[i].0.deep_view()));
    } else {
        lemma_uniq_drop_last(s);
        lemma_map_of_remove(s.drop_last(), i);
        assert(s.remove(i).drop_last() =~= s.drop_last().remove(i));
        assert(s.remove(i).len() == s.len() - 1);
        assert(s.remove(i)[s.len() - 2] == s[s.len() - 1]);
        assert(s.remove(i).last() == s.last());
        assert(s[s.len() - 1].0.deep_view() != s[i].0.deep_view());
        assert(map_of(s.remove(i)) =~= map_of(s).remove(s[i].0.deep_view()));
    }
}

/// With distinct keys, the values of `map_of(s)` are the value views of `s`.
pub proof fn lemma_map_of_values<K: DeepView, V: DeepView>(s: Seq<(K, V)>)
    requires
        uniq_keys(s),
    ensures
        forall|v: V::V|
            #[trigger] in_values(map_of(s), v) <==> exists|i: int|
                0 <= i < s.len() && (#[trigger] s[i]).1.deep_view() == v,
{
    lemma_map_of_dom::<K, V>(s);
    assert forall|v: V::V| #[trigger] in_values(map_of(s), v) implies exists|i: int|
        0 <= i < s.len() && (#[trigger] s[i]).1.deep_view() == v by {
        let k = choose|k: K::V| #[trigger] map_of(s).dom().contains(k) && map_of(s)[k] == v;
        let i = choose|i: int| 0 <= i < s.len() && (#[trigger] s[i]).0.deep_view() == k;
        lemma_map_of_index(s, i);
        assert(s[i].1.deep_view() == v);
    }
    assert forall|v: V::V| (exists|i: int| 0 <= i < s.len() && (#[trigger] s[i]).1.deep_view() == v)
        implies #[trigger] in_values(map_of(s), v) by {
        let i = choose|i: int| 0 <= i < s.len() && (#[trigger] s[i]).1.deep_view() == v;
        lemma_map_of_index(s, i);
        assert(map_of(s).dom().contains(s[i].0.deep_view()) && map_of(s)[s[i].0.deep_view()] == v);
    }
}

} // verus!
