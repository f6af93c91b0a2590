//! A map from strings to strings that remembers the order in which keys
//! were first inserted.
//!
//! Its abstract value is a `Map<Seq<char>, Seq<char>>`; `pairs` gives the
//! entries in order, with no key occurring twice.

use vstd::prelude::*;
use crate::text::str_eq;

verus! {

/// No key occurs twice among the pairs.
pub open spec fn keys_distinct(ps: Seq<(Seq<char>, Seq<char>)>) -> bool {
    forall|i: int, j: int|
        0 <= i < ps.len() && 0 <= j < ps.len() && i != j ==> #[trigger] ps[i].0 != #[trigger] ps[j].0
}

/// The map holding the pairs, a later pair winning over an earlier one with
/// the same key.
pub open spec fn pairs_to_map(ps: Seq<(Seq<char>, Seq<char>)>) -> Map<Seq<char>, Seq<char>>
    decreases ps.len(),
{
    if ps.len() == 0 {
        Map::empty()
    } else {
        pairs_to_map(ps.drop_last()).insert(ps.last().0, ps.last().1)
    }
}

/// The keys of a map are exactly the keys of its pairs.
pub proof fn lemma_map_dom(ps: Seq<(Seq<char>, Seq<char>)>)
    ensures
        forall|k: Seq<char>|
            #[trigger] pairs_to_map(ps).dom().contains(k) <==> exists|i: int|
                0 <= i < ps.len() && #[trigger] ps[i].0 == k,
    decreases ps.len(),
{
    if ps.len() > 0 {
        let q = ps.drop_last();
        lemma_map_dom(q);
        assert forall|k: Seq<char>|
            #[trigger] pairs_to_map(ps).dom().contains(k) <==> exists|i: int|
                0 <= i < ps.len() && #[trigger] ps[i].0 == k by {
            if pairs_to_map(ps).dom().contains(k) {
                if k == ps.last().0 {
                    assert(ps[ps.len() - 1].0 == k);
                } else {
                    assert(pairs_to_map(q).dom().contains(k));
                    let i = choose|i: int| 0 <= i < q.len() && #[trigger] q[i].0 == k;
                    assert(q[i] == ps[i]);
                    assert(ps[i].0 == k);
                }
            }
            if exists|i: int| 0 <= i < ps.len() && #[trigger] ps[i].0 == k {
                let i = choose|i: int| 0 <= i < ps.len() && #[trigger] ps[i].0 == k;
                if i < ps.len() - 1 {
                    assert(q[i] == ps[i]);
                    assert(q[i].0 == k);
                    assert(pairs_to_map(q).dom().contains(k));
                }
            }
        }
    }
}

/// Each pair's value is what the map gives for its key.
pub proof fn lemma_map_value(ps: Seq<(Seq<char>, Seq<char>)>, i: int)
    requires
        keys_distinct(ps),
        0 <= i < ps.len(),
    ensures
        pairs_to_map(ps).dom().contains(ps[i].0),
        pairs_to_map(ps)[ps[i].0] == ps[i].1,
    decreases ps.len(),
{
    if i < ps.len() - 1 {
        let q = ps.drop_last();
        assert(keys_distinct(q)) by {
            assert forall|a: int, b: int|
                0 <= a < q.len() && 0 <= b < q.len() && a != b implies #[trigger] q[a].0
                != #[trigger] q[b].0 by {
                assert(q[a] == ps[a] && q[b] == ps[b]);
            }
        }
        lemma_map_value(q, i);
        assert(q[i] == ps[i]);
        assert(ps[i].0 != ps[ps.len() - 1].0);
    }
}

/// With distinct keys, the map has exactly as many keys as there are pairs.
pub proof fn lemma_map_len(ps: Seq<(Seq<char>, Seq<char>)>)
    requires
        keys_distinct(ps),
    ensures
        pairs_to_map(ps).dom().finite(),
        pairs_to_map(ps).dom().len() == ps.len(),
    decreases ps.len(),
{
    if ps.len() > 0 {
        let q = ps.drop_last();
        assert(keys_distinct(q)) by {
            assert forall|a: int, b: int|
                0 <= a < q.len() && 0 <= b < q.len() && a != b implies #[trigger] q[a].0
                != #[trigger] q[b].0 by {
                assert(q[a] == ps[a] && q[b] == ps[b]);
            }
        }
        lemma_map_len(q);
        lemma_map_dom(q);
        if pairs_to_map(q).dom().contains(ps.last().0) {
            let i = choose|i: int| 0 <= i < q.len() && #[trigger] q[i].0 == ps.last().0;
            assert(ps[i].0 == ps[ps.len() - 1].0);
        }
    }
}

/// The map of distinct pairs is fixed by its keys and the pairs' values.
pub proof fn lemma_map_char(ps: Seq<(Seq<char>, Seq<char>)>)
    requires
        keys_distinct(ps),
    ensures
        forall|k: Seq<char>|
            #[trigger] pairs_to_map(ps).dom().contains(k) <==> exists|i: int|
                0 <= i < ps.len() && #[trigger] ps[i].0 == k,
        forall|i: int|
            0 <= i < ps.len() ==> #[trigger] pairs_to_map(ps)[ps[i].0] == ps[i].1,
{
    lemma_map_dom(ps);
    assert forall|i: int| 0 <= i < ps.len() implies #[trigger] pairs_to_map(ps)[ps[i].0]
        == ps[i].1 by {
        lemma_map_value(ps, i);
    }
}

/// Replacing the value of one pair updates the map at that key.
pub proof fn lemma_map_update(ps: Seq<(Seq<char>, Seq<char>)>, i: int, v: Seq<char>)
    requires
        keys_distinct(ps),
        0 <= i < ps.len(),
    ensures
        keys_distinct(ps.update(i, (ps[i].0, v))),
        pairs_to_map(ps.update(i, (ps[i].0, v))) == pairs_to_map(ps).insert(ps[i].0, v),
{
    let qs = ps.update(i, (ps[i].0, v));
    assert(keys_distinct(qs)) by {
        assert forall|a: int, b: int|
            0 <= a < qs.len() && 0 <= b < qs.len() && a != b implies #[trigger] qs[a].0
            != #[trigger] qs[b].0 by {
            assert(qs[a].0 == ps[a].0 && qs[b].0 == ps[b].0);
        }
    }
    lemma_map_char(ps);
    lemma_map_char(qs);
    let m1 = pairs_to_map(qs);
    let m2 = pairs_to_map(ps).insert(ps[i].0, v);
    assert forall|k: Seq<char>| m1.dom().contains(k) <==> m2.dom().contains(k) by {
        if m1.dom().contains(k) {
            let j = choose|j: int| 0 <= j < qs.len() && #[trigger] qs[j].0 == k;
            assert(ps[j].0 == k);
        }
        if m2.dom().contains(k) && k != ps[i].0 {
            let j = choose|j: int| 0 <= j < ps.len() && #[trigger] ps[j].0 == k;
            assert(qs[j].0 == k);
        }
        if k == ps[i].0 {
            assert(qs[i].0 == k);
        }
    }
    assert forall|k: Seq<char>| m1.dom().contains(k) implies m1[k] == m2[k] by {
        let j = choose|j: int| 0 <= j < qs.len() && #[trigger] qs[j].0 == k;
        assert(m1[qs[j].0] == qs[j].1);
        if j != i {
            assert(ps[j].0 == k);
            assert(pairs_to_map(ps)[ps[j].0] == ps[j].1);
        }
    }
    assert(m1 =~= m2);
}

/// Removing one pair removes its key from the map.
pub proof fn lemma_map_remove(ps: Seq<(Seq<char>, Seq<char>)>, i: int)
    requires
        keys_distinct(ps),
        0 <= i < ps.len(),
    ensures
        keys_distinct(ps.remove(i)),
        pairs_to_map(ps.remove(i)) == pairs_to_map(ps).remove(ps[i].0),
{
    let qs = ps.remove(i);
    assert forall|j: int| 0 <= j < qs.len() implies #[trigger] qs[j] == ps[if j < i {
        j
    } else {
        j + 1
    }] by {}
    assert(keys_distinct(qs)) by {
        assert forall|a: int, b: int|
            0 <= a < qs.len() && 0 <= b < qs.len() && a != b implies #[trigger] qs[a].0
            != #[trigger] qs[b].0 by {
            let a1 = if a < i {
                a
            } else {
                a + 1
            };
            let b1 = if b < i {
                b
            } else {
                b + 1
            };
            assert(qs[a] == ps[a1] && qs[b] == ps[b1]);
        }
    }
    lemma_map_char(ps);
    lemma_map_char(qs);
    let m1 = pairs_to_map(qs);
    let m2 = pairs_to_map(ps).remove(ps[i].0);
    assert forall|k: Seq<char>| m1.dom().contains(k) <==> m2.dom().contains(k) by {
        if m1.dom().contains(k) {
            let j = choose|j: int| 0 <= j < qs.len() && #[trigger] qs[j].0 == k;
            let j1 = if j < i {
                j
            } else {
                j + 1
            };
            assert(qs[j] == ps[j1]);
            assert(ps[j1].0 == k);
            assert(k != ps[i].0);
        }
        if m2.dom().contains(k) {
            let j = choose|j: int| 0 <= j < ps.len() && #[trigger] ps[j].0 == k;
            assert(j != i);
            let j1 = if j < i {
                j
            } else {
                j - 1
            };
            assert(qs[j1] == ps[j]);
            assert(qs[j1].0 == k);
        }
    }
    assert forall|k: Seq<char>| m1.dom().contains(k) implies m1[k] == m2[k] by {
        let j = choose|j: int| 0 <= j < qs.len() && #[trigger] qs[j].0 == k;
        let j1 = if j < i {
            j
        } else {
            j + 1
        };
        assert(qs[j] == ps[j1]);
        assert(m1[qs[j].0] == qs[j].1);
        assert(pairs_to_map(ps)[ps[j1].0] == ps[j1].1);
    }
    assert(m1 =~= m2);
}

/// The pair sequence of `entries`.
pub open spec fn entry_views(es: Seq<(String, String)>) -> Seq<(Seq<char>, Seq<char>)> {
    es.map_values(|e: (String, String)| (e.0@, e.1@))
}

/// A string-to-string map that keeps its entries in insertion order.
pub struct StrMap {
    entries: Vec<(String, String)>,
}

impl View for StrMap {
    type V = Map<Seq<char>, Seq<char>>;

    open spec fn view(&self) -> Map<Seq<char>, Seq<char>> {
        pairs_to_map(self.pairs())
    }
}

impl StrMap {
    /// The entries, in order.
    pub closed spec fn pairs(&self) -> Seq<(Seq<char>, Seq<char>)> {
        entry_views(self.entries@)
    }

    /// No key occurs twice.
    pub open spec fn wf(&self) -> bool {
        keys_distinct(self.pairs())
    }

    /// The keys, in order.
    pub open spec fn key_seq(&self) -> Seq<Seq<char>> {
        self.pairs().map_values(|p: (Seq<char>, Seq<char>)| p.0)
    }

    /// The values, in order.
    pub open spec fn value_seq(&self) -> Seq<Seq<char>> {
        self.pairs().map_values(|p: (Seq<char>, Seq<char>)| p.1)
    }

    /// The map's facts that follow from its entries.
    pub proof fn lemma_view(&self)
        requires
            self.wf(),
        ensures
            forall|k: Seq<char>|
                #[trigger] self@.dom().contains(k) <==> exists|i: int|
                    0 <= i < self.pairs().len() && #[trigger] self.pairs()[i].0 == k,
            forall|i: int|
                0 <= i < self.pairs().len() ==> #[trigger] self@[self.pairs()[i].0]
                    == self.pairs()[i].1,
            self@.dom().finite(),
            self@.dom().len() == self.pairs().len(),
    {
        lemma_map_char(self.pairs());
        lemma_map_len(self.pairs());
    }

    /// An empty map.
    pub fn new() -> (m: StrMap)
        ensures
            m.wf(),
            m@ == Map::<Seq<char>, Seq<char>>::empty(),
            m.pairs() == Seq::<(Seq<char>, Seq<char>)>::empty(),
    {
        let m = StrMap { entries: Vec::new() };
        assert(m.pairs() =~= Seq::<(Seq<char>, Seq<char>)>::empty());
        m
    }

    /// The number of entries.
    pub fn len(&self) -> (r: usize)
        ensures
            r == self.pairs().len(),
    {
        self.entries.len()
    }

    /// The key of entry `i`.
    pub fn key_at(&self, i: usize) -> (r: &String)
        requires
            i < self.pairs().len(),
        ensures
            r@ == self.pairs()[i as int].0,
    {
        &self.entries[i].0
    }

    /// The value of entry `i`.
    pub fn value_at(&self, i: usize) -> (r: &String)
        requires
            i < self.pairs().len(),
        ensures
            r@ == self.pairs()[i as int].1,
    {
        &self.entries[i].1
    }

    /// The position of the entry for `k`, if there is one.
    pub fn index_of(&self, k: &str) -> (r: Option<usize>)
        ensures
            match r {
                Some(i) => i < self.pairs().len() && self.pairs()[i as int].0 == k@,
                None => forall|i: int| 0 <= i < self.pairs().len() ==> self.pairs()[i].0 != k@,
            },
    {
        let mut i: usize = 0;
        while i < self.entries.len()
            invariant
                i <= self.entries.len(),
                self.pairs().len() == self.entries.len(),
                forall|j: int| 0 <= j < i ==> self.pairs()[j].0 != k@,
            decreases self.entries.len() - i,
        {
            if str_eq(self.entries[i].0.as_str(), k) {
                return Some(i);
            }
            i = i + 1;
        }
        None
    }

    /// Whether `k` is a key.
    pub fn contains_key(&self, k: &str) -> (r: bool)
        ensures
            r == self@.dom().contains(k@),
    {
        proof {
            lemma_map_dom(self.pairs());
        }
        match self.index_of(k) {
            Some(i) => true,
            None => false,
        }
    }

    /// The value for `k`, if `k` is a key.
    pub fn get(&self, k: &str) -> (r: Option<&String>)
        requires
            self.wf(),
        ensures
            r is None <==> !self@.dom().contains(k@),
            r matches Some(v) ==> self@.dom().contains(k@) && v@ == self@[k@],
    {
        proof {
            self.lemma_view();
        }
        match self.index_of(k) {
            Some(i) => Some(&self.entries[i].1),
            None => None,
        }
    }

    /// Sets the value of `k` to `v`: an existing entry keeps its place, a
    /// new one goes last.
    pub fn insert(&mut self, k: String, v: String)
        requires
            old(self).wf(),
        ensures
            final(self).wf(),
            final(self)@ == old(self)@.insert(k@, v@),
            old(self)@.dom().contains(k@) ==> final(self).pairs().len() == old(self).pairs().len(),
            !old(self)@.dom().contains(k@) ==> final(self).pairs() == old(self).pairs().push(
                (k@, v@),
            ),
    {
        proof {
            self.lemma_view();
        }
        match self.index_of(k.as_str()) {
            Some(i) => {
                let ghost ps = self.pairs();
                proof {
                    lemma_map_update(ps, i as int, v@);
                }
                let _ = self.entries.remove(i);
                self.entries.insert(i, (k, v));
                assert(self.pairs() =~= ps.update(i as int, (ps[i as int].0, v@)));
            },
            None => {
                let ghost ps = self.pairs();
                self.entries.push((k, v));
                assert(self.pairs() =~= ps.push((k@, v@)));
                assert(self.pairs().drop_last() =~= ps);
                assert(keys_distinct(self.pairs())) by {
                    assert forall|a: int, b: int|
                        0 <= a < self.pairs().len() && 0 <= b < self.pairs().len() && a
                            != b implies #[trigger] self.pairs()[a].0
                        != #[trigger] self.pairs()[b].0 by {
                        if a < ps.len() && b < ps.len() {
                            assert(self.pairs()[a] == ps[a] && self.pairs()[b] == ps[b]);
                        } else if a < ps.len() {
                            assert(self.pairs()[a] == ps[a]);
                        } else {
                            assert(self.pairs()[b] == ps[b]);
                        }
                    }
                }
            },
        }
    }

    /// Removes the entry for `k` and returns its value, if there is one.
    pub fn remove(&mut self, k: &str) -> (r: Option<String>)
        requires
            old(self).wf(),
        ensures
            final(self).wf(),
            final(self)@ == old(self)@.remove(k@),
            r is Some <==> old(self)@.dom().contains(k@),
            r matches Some(v) ==> v@ == old(self)@[k@],
    {
        proof {
            self.lemma_view();
        }
        match self.index_of(k) {
            Some(i) => {
                let ghost ps = self.pairs();
                proof {
                    lemma_map_remove(ps, i as int);
                }
                let (_, v) = self.entries.remove(i);
                assert(self.pairs() =~= ps.remove(i as int));
                Some(v)
            },
            None => {
                assert(self@ =~= old(self)@.remove(k@));
                None
            },
        }
    }
}

/// `v` with `from` replaced by `to`.
pub open spec fn swap_value(v: Seq<char>, from: Seq<char>, to: Seq<char>) -> Seq<char> {
    if v == from {
        to
    } else {
        v
    }
}

impl StrMap {
    /// Replaces every value equal to `from` by `to`; returns whether any
    /// value was replaced.
    pub fn replace_values(&mut self, from: &str, to: &str) -> (changed: bool)
        requires
            old(self).wf(),
        ensures
            final(self).wf(),
            final(self)@ == old(self)@.map_values(|v: Seq<char>| swap_value(v, from@, to@)),
            final(self).key_seq() == old(self).key_seq(),
            changed == exists|k: Seq<char>|
                old(self)@.dom().contains(k) && #[trigger] old(self)@[k] == from@,
    {
        let ghost ps = self.pairs();
        let ghost target = ps.map_values(
            |p: (Seq<char>, Seq<char>)| (p.0, swap_value(p.1, from@, to@)),
        );
        assert(target.len() == ps.len());
        let mut changed = false;
        let mut i: usize = 0;
        while i < self.entries.len()
            invariant
                i <= self.entries.len(),
                ps == old(self).pairs(),
                target == ps.map_values(
                    |p: (Seq<char>, Seq<char>)| (p.0, swap_value(p.1, from@, to@)),
                ),
                target.len() == ps.len(),
                self.pairs().len() == ps.len(),
                forall|j: int| 0 <= j < i ==> #[trigger] self.pairs()[j] == target[j],
                forall|j: int| i <= j < ps.len() ==> #[trigger] self.pairs()[j] == ps[j],
                changed == exists|j: int| 0 <= j < i && #[trigger] ps[j].1 == from@,
            decreases self.entries.len() - i,
        {
            let ghost cur = self.pairs();
            assert(cur[i as int] == (self.entries@[i as int].0@, self.entries@[i as int].1@));
            assert(cur[i as int] == ps[i as int]);
            if str_eq(self.entries[i].1.as_str(), from) {
                let (key, _) = self.entries.remove(i);
                self.entries.insert(i, (key, to.to_owned()));
                assert(self.pairs() =~= cur.update(i as int, (cur[i as int].0, to@)));
                assert(ps[i as int].1 == from@);
                changed = true;
            } else {
                assert(ps[i as int].1 != from@);
            }
            assert(self.pairs()[i as int] == target[i as int]);
            i = i + 1;
        }
        assert(self.pairs() =~= target);
        proof {
            lemma_map_char(ps);
            assert(keys_distinct(target)) by {
                assert forall|a: int, b: int|
                    0 <= a < target.len() && 0 <= b < target.len() && a != b implies #[trigger] target[a].0
                    != #[trigger] target[b].0 by {
                    assert(target[a].0 == ps[a].0 && target[b].0 == ps[b].0);
                }
            }
            lemma_map_char(target);
            let m1 = pairs_to_map(target);
            let m2 = pairs_to_map(ps).map_values(|v: Seq<char>| swap_value(v, from@, to@));
            assert forall|k: Seq<char>| m1.dom().contains(k) <==> m2.dom().contains(k) by {
                if m1.dom().contains(k) {
                    let j = choose|j: int| 0 <= j < target.len() && #[trigger] target[j].0 == k;
                    assert(ps[j].0 == k);
                }
                if m2.dom().contains(k) {
                    let j = choose|j: int| 0 <= j < ps.len() && #[trigger] ps[j].0 == k;
                    assert(target[j].0 == k);
                }
            }
            assert forall|k: Seq<char>| m1.dom().contains(k) implies m1[k] == m2[k] by {
                let j = choose|j: int| 0 <= j < target.len() && #[trigger] target[j].0 == k;
                assert(ps[j].0 == k);
                assert(m1[target[j].0] == target[j].1);
                assert(pairs_to_map(ps)[ps[j].0] == ps[j].1);
            }
            assert(m1 =~= m2);
            assert(self.key_seq() =~= old(self).key_seq());
            if changed {
                let j = choose|j: int| 0 <= j < ps.len() && #[trigger] ps[j].1 == from@;
                assert(pairs_to_map(ps)[ps[j].0] == from@);
            }
            if exists|k: Seq<char>| old(self)@.dom().contains(k) && #[trigger] old(self)@[k] == from@ {
                let k = choose|k: Seq<char>| old(self)@.dom().contains(k) && #[trigger] old(self)@[k]
                    == from@;
                let j = choose|j: int| 0 <= j < ps.len() && #[trigger] ps[j].0 == k;
                assert(pairs_to_map(ps)[ps[j].0] == ps[j].1);
                assert(ps[j].1 == from@);
            }
        }
        changed
    }
}

impl StrMap {
    /// A copy of the map with the same entries in the same order.
    pub fn copy(&self) -> (r: StrMap)
        requires
            self.wf(),
        ensures
            r.wf(),
            r@ == self@,
            r.pairs() == self.pairs(),
    {
        let mut entries: Vec<(String, String)> = Vec::new();
        let mut i: usize = 0;
        while i < self.entries.len()
            invariant
                i <= self.entries.len(),
                entry_views(entries@) == self.pairs().take(i as int),
            decreases self.entries.len() - i,
        {
            let k = self.entries[i].0.clone();
            let v = self.entries[i].1.clone();
            assert(self.pairs()[i as int] == (self.entries@[i as int].0@, self.entries@[i as int].1@));
            let ghost prev = entries@;
            entries.push((k, v));
            assert(entries@ == prev.push((k, v)));
            assert(entry_views(entries@) =~= entry_views(prev).push((k@, v@)));
            i = i + 1;
            assert(entry_views(entries@) =~= self.pairs().take(i as int));
        }
        assert(self.pairs().take(i as int) =~= self.pairs());
        StrMap { entries }
    }
}

} // verus!
