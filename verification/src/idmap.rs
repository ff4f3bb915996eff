//! A kinda-bi-directional map that associates numeric ids to cached records,
//! and names back to ids.
//!
//! Both directions can hold negative entries: `forward[id] == None` records
//! that the id is known not to exist, and `backward[name] == None` the same
//! for a name.  The map is a storage primitive: it never removes entries, and
//! the caches around it are responsible for keeping the two directions
//! consistent with each other.

use crate::records::{arc_clone, str_eq};
use std::sync::Arc;
use vstd::prelude::*;

verus! {

/// The value stored behind a forward entry, as the contract sees it.
pub open spec fn opt_view<T: View>(o: Option<Arc<T>>) -> Option<T::V> {
    match o {
        Some(a) => Some(a@),
        None => None,
    }
}

/// The map described by a sequence of key/value pairs, a later pair for the
/// same key overriding an earlier one.
pub open spec fn assoc<K, V>(s: Seq<(K, V)>) -> Map<K, V>
    decreases s.len(),
{
    if s.len() == 0 {
        Map::<K, V>::empty()
    } else {
        assoc(s.drop_last()).insert(s.last().0, s.last().1)
    }
}

/// No key occurs twice in the sequence.
pub open spec fn keys_distinct<K, V>(s: Seq<(K, V)>) -> bool {
    forall|i: int, j: int| #![trigger s[i], s[j]] 0 <= i < j < s.len() ==> s[i].0 != s[j].0
}

/// A key is in the map exactly when some pair carries it.
pub proof fn lemma_assoc_contains<K, V>(s: Seq<(K, V)>, k: K)
    ensures
        assoc(s).contains_key(k) <==> exists|i: int| 0 <= i < s.len() && (#[trigger] s[i]).0 == k,
    decreases s.len(),
{
    if s.len() > 0 {
        lemma_assoc_contains(s.drop_last(), k);
        if s.last().0 == k {
            assert(s[s.len() - 1].0 == k);
        } else if assoc(s).contains_key(k) {
            let i = choose|i: int| 0 <= i < s.drop_last().len() && (#[trigger] s.drop_last()[i]).0 == k;
            assert(s[i].0 == k);
        } else {
            assert forall|i: int| 0 <= i < s.len() implies (#[trigger] s[i]).0 != k by {
                if i < s.len() - 1 {
                    assert(s.drop_last()[i].0 == s[i].0);
                }
            }
        }
    }
}

/// With distinct keys, the map agrees with every pair of the sequence.
pub proof fn lemma_assoc_at<K, V>(s: Seq<(K, V)>, i: int)
    requires
        keys_distinct(s),
        0 <= i < s.len(),
    ensures
        assoc(s).contains_key(s[i].0),
        assoc(s)[s[i].0] == s[i].1,
    decreases s.len(),
{
    if i == s.len() - 1 {
        assert(s.last() == s[i]);
    } else {
        assert(keys_distinct(s.drop_last()));
        assert(s.drop_last()[i] == s[i]);
        lemma_assoc_at(s.drop_last(), i);
        assert(s[i].0 != s.last().0);
    }
}

/// Replacing the value at one position, key kept, turns the map's entry for
/// that key over to the new value and touches nothing else.
pub proof fn lemma_assoc_update<K, V>(s: Seq<(K, V)>, i: int, v: V)
    requires
        keys_distinct(s),
        0 <= i < s.len(),
    ensures
        keys_distinct(s.update(i, (s[i].0, v))),
        assoc(s.update(i, (s[i].0, v))) == assoc(s).insert(s[i].0, v),
    decreases s.len(),
{
    let t = s.update(i, (s[i].0, v));
    assert forall|x: int, y: int| 0 <= x < y < t.len() implies (#[trigger] t[x]).0 != (#[trigger] t[y]).0 by {
        assert(t[x].0 == s[x].0);
        assert(t[y].0 == s[y].0);
        assert(s[x].0 != s[y].0);
    }
    if i == s.len() - 1 {
        assert(t.drop_last() =~= s.drop_last());
        assert(t.last() == (s[i].0, v));
        assert(assoc(t) =~= assoc(s).insert(s[i].0, v));
    } else {
        assert(keys_distinct(s.drop_last()));
        assert(s.drop_last()[i] == s[i]);
        lemma_assoc_update(s.drop_last(), i, v);
        assert(t.drop_last() =~= s.drop_last().update(i, (s[i].0, v)));
        assert(t.last() == s.last());
        assert(assoc(t) == assoc(s.drop_last()).insert(s[i].0, v).insert(s.last().0, s.last().1));
        assert(s[i].0 != s.last().0);
        assert(assoc(t) =~= assoc(s).insert(s[i].0, v));
    }
}

/// Appending a pair with a fresh key keeps the keys distinct.
pub proof fn lemma_push_distinct<K, V>(s: Seq<(K, V)>, p: (K, V))
    requires
        keys_distinct(s),
        forall|i: int| 0 <= i < s.len() ==> (#[trigger] s[i]).0 != p.0,
    ensures
        keys_distinct(s.push(p)),
        assoc(s.push(p)) == assoc(s).insert(p.0, p.1),
{
    let t = s.push(p);
    assert forall|x: int, y: int| 0 <= x < y < t.len() implies (#[trigger] t[x]).0 != (#[trigger] t[y]).0 by {
        assert(t[x] == s[x]);
        if y < s.len() {
            assert(t[y] == s[y]);
        } else {
            assert(t[y] == p);
        }
    }
    assert(t.drop_last() =~= s);
    assert(t.last() == p);
}

/// A sequence of pairs that covers a table exactly — distinct keys, every
/// pair in the table, every table key among the pairs — describes that very
/// table.
pub proof fn lemma_assoc_is_table<K, V>(s: Seq<(K, V)>, table: Map<K, V>)
    requires
        keys_distinct(s),
        forall|i: int|
            0 <= i < s.len() ==> table.contains_key((#[trigger] s[i]).0) && table[s[i].0]
                == s[i].1,
        forall|k: K| table.contains_key(k) ==> exists|i: int|
            0 <= i < s.len() && (#[trigger] s[i]).0 == k,
    ensures
        assoc(s) == table,
{
    assert forall|k: K| #[trigger] assoc(s).contains_key(k) implies table.contains_key(k)
        && assoc(s)[k] == table[k] by {
        lemma_assoc_contains(s, k);
        let i = choose|i: int| 0 <= i < s.len() && (#[trigger] s[i]).0 == k;
        lemma_assoc_at(s, i);
    }
    assert forall|k: K| #[trigger] table.contains_key(k) implies assoc(s).contains_key(k) by {
        lemma_assoc_contains(s, k);
    }
    assert(assoc(s) =~= table);
}

/// The positive entries of a forward sequence, in storage order, negative
/// placeholders dropped.
pub open spec fn positive_entries<V>(s: Seq<(u32, Option<V>)>) -> Seq<(u32, V)>
    decreases s.len(),
{
    if s.len() == 0 {
        Seq::<(u32, V)>::empty()
    } else {
        let rest = positive_entries(s.drop_last());
        match s.last().1 {
            Some(v) => rest.push((s.last().0, v)),
            None => rest,
        }
    }
}

/// With distinct keys, the positive entries are exactly the positive part of
/// the map: their keys are distinct, each entry is in the map, and every
/// positive key of the map is among them.
pub proof fn lemma_positive_entries<V>(s: Seq<(u32, Option<V>)>)
    requires
        keys_distinct(s),
    ensures
        keys_distinct(positive_entries(s)),
        forall|i: int| #![trigger positive_entries(s)[i]]
            0 <= i < positive_entries(s).len() ==> assoc(s).contains_key(
                positive_entries(s)[i].0,
            ) && assoc(s)[positive_entries(s)[i].0] == Some(positive_entries(s)[i].1),
        forall|k: u32| #![trigger assoc(s)[k]]
            assoc(s).contains_key(k) && assoc(s)[k] is Some ==> exists|i: int|
                0 <= i < positive_entries(s).len() && (#[trigger] positive_entries(s)[i]).0 == k
                    && Some(positive_entries(s)[i].1) == assoc(s)[k],
    decreases s.len(),
{
    if s.len() > 0 {
        let d = s.drop_last();
        assert(keys_distinct(d));
        lemma_positive_entries(d);
        let pe = positive_entries(s);
        let ped = positive_entries(d);
        assert forall|i: int| 0 <= i < ped.len() implies exists|j: int|
            0 <= j < d.len() && (#[trigger] d[j]).0 == (#[trigger] ped[i]).0 by {
            lemma_assoc_contains(d, ped[i].0);
        }
        match s.last().1 {
            Some(v) => {
                assert(pe == ped.push((s.last().0, v)));
                assert forall|x: int, y: int| 0 <= x < y < pe.len() implies (#[trigger] pe[x]).0
                    != (#[trigger] pe[y]).0 by {
                    if y < ped.len() {
                        assert(pe[x] == ped[x] && pe[y] == ped[y]);
                    } else {
                        assert(pe[y] == (s.last().0, v));
                        assert(pe[x] == ped[x]);
                        let j = choose|j: int|
                            0 <= j < d.len() && (#[trigger] d[j]).0 == ped[x].0;
                        assert(s[j] == d[j]);
                        assert(s[s.len() - 1].0 == s.last().0);
                    }
                }
                assert forall|i: int| 0 <= i < pe.len() implies assoc(s).contains_key(
                    (#[trigger] pe[i]).0,
                ) && assoc(s)[pe[i].0] == Some(pe[i].1) by {
                    if i < ped.len() {
                        let j = choose|j: int|
                            0 <= j < d.len() && (#[trigger] d[j]).0 == ped[i].0;
                        assert(s[j] == d[j]);
                        assert(s[s.len() - 1].0 == s.last().0);
                        assert(pe[i].0 != s.last().0);
                    }
                }
                assert forall|k: u32| assoc(s).contains_key(k) && #[trigger] assoc(s)[k] is Some
                    implies exists|i: int|
                    0 <= i < pe.len() && (#[trigger] pe[i]).0 == k && Some(pe[i].1)
                        == assoc(s)[k] by {
                    if k == s.last().0 {
                        assert(pe[pe.len() - 1].0 == k);
                    } else {
                        let i = choose|i: int|
                            0 <= i < ped.len() && (#[trigger] ped[i]).0 == k && Some(ped[i].1)
                                == assoc(d)[k];
                        assert(pe[i] == ped[i]);
                    }
                }
            },
            None => {
                assert(pe == ped);
                assert forall|i: int| 0 <= i < pe.len() implies assoc(s).contains_key(
                    (#[trigger] pe[i]).0,
                ) && assoc(s)[pe[i].0] == Some(pe[i].1) by {
                    let j = choose|j: int| 0 <= j < d.len() && (#[trigger] d[j]).0 == pe[i].0;
                    assert(s[j] == d[j]);
                    assert(s[s.len() - 1].0 == s.last().0);
                    assert(pe[i].0 != s.last().0);
                }
                assert forall|k: u32| assoc(s).contains_key(k) && #[trigger] assoc(s)[k] is Some
                    implies exists|i: int|
                    0 <= i < pe.len() && (#[trigger] pe[i]).0 == k && Some(pe[i].1)
                        == assoc(s)[k] by {
                    assert(k != s.last().0);
                }
            },
        }
    }
}

/// A kinda-bi-directional map: ids to optional record handles forward, names
/// to optional ids backward.  Negative entries (`None` values) record
/// confirmed absence; the map itself never removes or forgets an entry.
pub struct IdNameMap<T> {
    forward: Vec<(u32, Option<Arc<T>>)>,
    backward: Vec<(String, Option<u32>)>,
}

impl<T: View> IdNameMap<T> {
    /// The forward entries in storage order, as key/value pairs.
    pub closed spec fn fwd_entries(&self) -> Seq<(u32, Option<T::V>)> {
        self.forward@.map_values(|p: (u32, Option<Arc<T>>)| (p.0, opt_view(p.1)))
    }

    /// The backward entries in storage order, as key/value pairs.
    pub closed spec fn bwd_entries(&self) -> Seq<(Seq<char>, Option<u32>)> {
        self.backward@.map_values(|p: (String, Option<u32>)| (p.0@, p.1))
    }

    /// The id-to-record direction of the map.
    pub open spec fn fwd(&self) -> Map<u32, Option<T::V>> {
        assoc(self.fwd_entries())
    }

    /// The name-to-id direction of the map.
    pub open spec fn bwd(&self) -> Map<Seq<char>, Option<u32>> {
        assoc(self.bwd_entries())
    }

    /// Each key is stored at most once, in either direction.
    pub open spec fn wf(&self) -> bool {
        keys_distinct(self.fwd_entries()) && keys_distinct(self.bwd_entries())
    }

    /// An empty map in both directions.
    pub fn empty() -> (r: IdNameMap<T>)
        ensures
            r.wf(),
            r.fwd() == Map::<u32, Option<T::V>>::empty(),
            r.bwd() == Map::<Seq<char>, Option<u32>>::empty(),
    {
        let r = IdNameMap { forward: Vec::new(), backward: Vec::new() };
        proof {
            assert(r.fwd_entries() =~= Seq::<(u32, Option<T::V>)>::empty());
            assert(r.bwd_entries() =~= Seq::<(Seq<char>, Option<u32>)>::empty());
        }
        r
    }

    /// The storage position of an id, if it has one.
    fn find_fwd(&self, id: u32) -> (r: Option<usize>)
        ensures
            r matches Some(i) ==> i < self.fwd_entries().len() && self.fwd_entries()[i as int].0
                == id,
            r is None ==> forall|i: int|
                0 <= i < self.fwd_entries().len() ==> (#[trigger] self.fwd_entries()[i]).0 != id,
    {
        let n = self.forward.len();
        let mut i: usize = 0;
        while i < n
            invariant
                i <= n,
                n == self.forward@.len(),
                forall|j: int| 0 <= j < i ==> (#[trigger] self.fwd_entries()[j]).0 != id,
            decreases n - i,
        {
            if self.forward[i].0 == id {
                assert(self.fwd_entries()[i as int].0 == id);
                return Some(i);
            }
            assert(self.fwd_entries()[i as int].0 != id);
            i += 1;
        }
        None
    }

    /// The storage position of a name, if it has one.
    fn find_bwd(&self, name: &str) -> (r: Option<usize>)
        ensures
            r matches Some(i) ==> i < self.bwd_entries().len() && self.bwd_entries()[i as int].0
                == name@,
            r is None ==> forall|i: int|
                0 <= i < self.bwd_entries().len() ==> (#[trigger] self.bwd_entries()[i]).0
                    != name@,
    {
        let n = self.backward.len();
        let mut i: usize = 0;
        while i < n
            invariant
                i <= n,
                n == self.backward@.len(),
                forall|j: int| 0 <= j < i ==> (#[trigger] self.bwd_entries()[j]).0 != name@,
            decreases n - i,
        {
            if str_eq(self.backward[i].0.as_str(), name) {
                assert(self.bwd_entries()[i as int].0 == name@);
                return Some(i);
            }
            assert(self.bwd_entries()[i as int].0 != name@);
            i += 1;
        }
        None
    }

    /// The forward entry for an id: `None` when the id was never stored,
    /// otherwise the stored entry, which is itself `None` for a confirmed
    /// absence.
    pub fn get_by_id(&self, id: u32) -> (r: Option<Option<Arc<T>>>)
        requires
            self.wf(),
        ensures
            r is None ==> !self.fwd().contains_key(id),
            r matches Some(e) ==> self.fwd().contains_key(id) && opt_view(e) == self.fwd()[id],
    {
        match self.find_fwd(id) {
            Some(i) => {
                proof {
                    lemma_assoc_at(self.fwd_entries(), i as int);
                }
                let e = match &self.forward[i].1 {
                    Some(a) => Some(arc_clone(a)),
                    None => None,
                };
                assert(opt_view(e) == self.fwd_entries()[i as int].1);
                Some(e)
            },
            None => {
                proof {
                    lemma_assoc_contains(self.fwd_entries(), id);
                }
                None
            },
        }
    }

    /// The backward entry for a name: `None` when the name was never stored,
    /// otherwise the stored entry, which is itself `None` for a confirmed
    /// absence.
    pub fn get_by_name(&self, name: &str) -> (r: Option<Option<u32>>)
        requires
            self.wf(),
        ensures
            r is None ==> !self.bwd().contains_key(name@),
            r matches Some(e) ==> self.bwd().contains_key(name@) && e == self.bwd()[name@],
    {
        match self.find_bwd(name) {
            Some(i) => {
                proof {
                    lemma_assoc_at(self.bwd_entries(), i as int);
                }
                Some(self.backward[i].1)
            },
            None => {
                proof {
                    lemma_assoc_contains(self.bwd_entries(), name@);
                }
                None
            },
        }
    }

    /// Stores a forward entry, overwriting any prior entry for that id.
    pub fn set_forward(&mut self, id: u32, value: Option<Arc<T>>)
        requires
            old(self).wf(),
        ensures
            final(self).wf(),
            final(self).fwd() == old(self).fwd().insert(id, opt_view(value)),
            final(self).bwd() == old(self).bwd(),
    {
        let ghost pre = self.fwd_entries();
        match self.find_fwd(id) {
            Some(i) => {
                self.forward[i] = (id, value);
                proof {
                    assert(self.fwd_entries() =~= pre.update(i as int, (id, opt_view(value))));
                    lemma_assoc_update(pre, i as int, opt_view(value));
                }
            },
            None => {
                self.forward.push((id, value));
                proof {
                    assert(self.fwd_entries() =~= pre.push((id, opt_view(value))));
                    lemma_push_distinct(pre, (id, opt_view(value)));
                }
            },
        }
        proof {
            assert(self.bwd_entries() =~= old(self).bwd_entries());
        }
    }

    /// Stores a backward entry, overwriting any prior entry for that name.
    pub fn set_backward(&mut self, name: String, value: Option<u32>)
        requires
            old(self).wf(),
        ensures
            final(self).wf(),
            final(self).fwd() == old(self).fwd(),
            final(self).bwd() == old(self).bwd().insert(name@, value),
    {
        let ghost pre = self.bwd_entries();
        match self.find_bwd(name.as_str()) {
            Some(i) => {
                self.backward[i] = (name, value);
                proof {
                    assert(self.bwd_entries() =~= pre.update(i as int, (name@, value)));
                    lemma_assoc_update(pre, i as int, value);
                }
            },
            None => {
                self.backward.push((name, value));
                proof {
                    assert(self.bwd_entries() =~= pre.push((name@, value)));
                    lemma_push_distinct(pre, (name@, value));
                }
            },
        }
        proof {
            assert(self.fwd_entries() =~= old(self).fwd_entries());
        }
    }

    /// Creates a new entry: a positive record under its id forward, and the
    /// id under the record's name backward.  Prior entries for that id or
    /// name are overwritten.
    pub fn insert(&mut self, id: u32, name: String, value: Arc<T>)
        requires
            old(self).wf(),
        ensures
            final(self).wf(),
            final(self).fwd() == old(self).fwd().insert(id, Some(value@)),
            final(self).bwd() == old(self).bwd().insert(name@, Some(id)),
    {
        self.set_forward(id, Some(value));
        self.set_backward(name, Some(id));
    }
    /// Every positively stored record handle, in storage order, negative
    /// placeholders filtered out.
    pub fn positive_values(&self) -> (r: Vec<Arc<T>>)
        requires
            self.wf(),
        ensures
            r@.len() == positive_entries(self.fwd_entries()).len(),
            forall|i: int|
                0 <= i < r@.len() ==> (#[trigger] r@[i])@ == positive_entries(
                    self.fwd_entries(),
                )[i].1,
    {
        let mut r: Vec<Arc<T>> = Vec::new();
        let n = self.forward.len();
        let mut i: usize = 0;
        while i < n
            invariant
                i <= n,
                n == self.forward@.len(),
                r@.len() == positive_entries(self.fwd_entries().take(i as int)).len(),
                forall|j: int|
                    0 <= j < r@.len() ==> (#[trigger] r@[j])@ == positive_entries(
                        self.fwd_entries().take(i as int),
                    )[j].1,
            decreases n - i,
        {
            let ghost prev = r@;
            match &self.forward[i].1 {
                Some(a) => {
                    r.push(arc_clone(a));
                },
                None => {},
            }
            proof {
                let e = self.fwd_entries();
                assert(e.take(i + 1).drop_last() =~= e.take(i as int));
                assert(e.take(i + 1).last() == e[i as int]);
                match self.forward@[i as int].1 {
                    Some(a) => {
                        assert(r@ == prev.push(a));
                        assert(e[i as int].1 == Some(a@));
                        assert(positive_entries(e.take(i + 1)) == positive_entries(
                            e.take(i as int),
                        ).push((e[i as int].0, a@)));
                    },
                    None => {
                        assert(e[i as int].1 is None);
                        assert(positive_entries(e.take(i + 1)) == positive_entries(
                            e.take(i as int),
                        ));
                    },
                }
            }
            i += 1;
        }
        proof {
            assert(self.fwd_entries().take(n as int) =~= self.fwd_entries());
        }
        r
    }
}

impl<T: View> Default for IdNameMap<T> {
    /// An empty map in both directions.
    fn default() -> (r: IdNameMap<T>)
        ensures
            r.wf(),
            r.fwd() == Map::<u32, Option<T::V>>::empty(),
            r.bwd() == Map::<Seq<char>, Option<u32>>::empty(),
    {
        IdNameMap::empty()
    }
}

} // verus!
