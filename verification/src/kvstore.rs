use vstd::prelude::*;

verus! {

use crate::strings::str_eq;

/// An association list from `String` keys to values, with keys unique.
///
/// It stands in for the file stores of a repository — objects, references,
/// staged entries, working files — each a finite map from a path-like name
/// to a content. Its view is that map.
pub struct KvStore<V> {
    pub pairs: Vec<(String, V)>,
}

/// The map that a sequence of key-value pairs denotes; later pairs win.
pub open spec fn map_of<V: View>(ps: Seq<(String, V)>) -> Map<Seq<char>, V::V>
    decreases ps.len(),
{
    if ps.len() == 0 {
        Map::empty()
    } else {
        map_of(ps.drop_last()).insert(ps.last().0@, ps.last().1@)
    }
}

impl<V: View> View for KvStore<V> {
    type V = Map<Seq<char>, V::V>;

    open spec fn view(&self) -> Map<Seq<char>, V::V> {
        map_of(self.pairs@)
    }
}

pub proof fn lemma_map_of_contains<V: View>(ps: Seq<(String, V)>, k: Seq<char>)
    ensures
        map_of(ps).contains_key(k) <==> exists|i: int| 0 <= i < ps.len() && ps[i].0@ == k,
    decreases ps.len(),
{
    if ps.len() > 0 {
        lemma_map_of_contains(ps.drop_last(), k);
        if map_of(ps).contains_key(k) {
            if ps.last().0@ != k {
                let i = choose|i: int| 0 <= i < ps.drop_last().len() && ps.drop_last()[i].0@ == k;
                assert(ps[i].0@ == k);
            } else {
                assert(ps[ps.len() - 1].0@ == k);
            }
        } else {
            assert(forall|i: int| 0 <= i < ps.len() - 1 ==> ps.drop_last()[i] == ps[i]);
        }
    }
}

pub proof fn lemma_map_of_finite<V: View>(ps: Seq<(String, V)>)
    ensures
        map_of(ps).dom().finite(),
        map_of(ps).dom().len() <= ps.len(),
    decreases ps.len(),
{
    if ps.len() > 0 {
        lemma_map_of_finite(ps.drop_last());
    }
}

/// True when no two pairs of `ps` share a key.
pub open spec fn unique_keys<V: View>(ps: Seq<(String, V)>) -> bool {
    forall|i: int, j: int| 0 <= i < j < ps.len() ==> ps[i].0@ != ps[j].0@
}

pub proof fn lemma_map_of_get<V: View>(ps: Seq<(String, V)>, i: int)
    requires
        unique_keys(ps),
        0 <= i < ps.len(),
    ensures
        map_of(ps).contains_key(ps[i].0@),
        map_of(ps)[ps[i].0@] == ps[i].1@,
    decreases ps.len(),
{
    if i < ps.len() - 1 {
        assert(forall|m: int, n: int|
            0 <= m < n < ps.drop_last().len() ==> ps.drop_last()[m].0@ != ps.drop_last()[n].0@);
        lemma_map_of_get(ps.drop_last(), i);
        assert(ps[ps.len() - 1].0@ != ps[i].0@);
    }
}

pub proof fn lemma_map_of_len<V: View>(ps: Seq<(String, V)>)
    requires
        unique_keys(ps),
    ensures
        map_of(ps).dom().finite(),
        map_of(ps).dom().len() == ps.len(),
    decreases ps.len(),
{
    lemma_map_of_finite(ps);
    if ps.len() > 0 {
        let rest = ps.drop_last();
        assert(unique_keys(rest));
        lemma_map_of_len(rest);
        lemma_map_of_contains(rest, ps.last().0@);
        assert(forall|i: int| 0 <= i < rest.len() ==> rest[i] == ps[i]);
        assert(!map_of(rest).contains_key(ps.last().0@));
    }
}

pub proof fn lemma_map_of_update<V: View>(ps: Seq<(String, V)>, i: int, q: (String, V))
    requires
        unique_keys(ps),
        0 <= i < ps.len(),
        q.0@ == ps[i].0@,
    ensures
        map_of(ps.update(i, q)) == map_of(ps).insert(q.0@, q.1@),
        unique_keys(ps.update(i, q)),
    decreases ps.len(),
{
    let ups = ps.update(i, q);
    assert(unique_keys(ups));
    if i == ps.len() - 1 {
        assert(ups.drop_last() =~= ps.drop_last());
        assert(map_of(ps.update(i, q)) =~= map_of(ps).insert(q.0@, q.1@));
    } else {
        assert(ups.drop_last() =~= ps.drop_last().update(i, q));
        assert(unique_keys(ps.drop_last()));
        lemma_map_of_update(ps.drop_last(), i, q);
        assert(ups.last() == ps.last());
        assert(map_of(ups) == map_of(ps.drop_last()).insert(q.0@, q.1@).insert(
            ps.last().0@,
            ps.last().1@,
        ));
        assert(ps.last().0@ != q.0@);
        assert(map_of(ps.drop_last()).insert(q.0@, q.1@).insert(ps.last().0@, ps.last().1@)
            =~= map_of(ps.drop_last()).insert(ps.last().0@, ps.last().1@).insert(q.0@, q.1@));
    }
}

pub proof fn lemma_map_of_remove<V: View>(ps: Seq<(String, V)>, i: int)
    requires
        unique_keys(ps),
        0 <= i < ps.len(),
    ensures
        map_of(ps.remove(i)) == map_of(ps).remove(ps[i].0@),
        unique_keys(ps.remove(i)),
    decreases ps.len(),
{
    let rps = ps.remove(i);
    assert(unique_keys(rps));
    if i == ps.len() - 1 {
        assert(rps =~= ps.drop_last());
        lemma_map_of_contains(ps.drop_last(), ps[i].0@);
        assert(!map_of(ps.drop_last()).contains_key(ps[i].0@));
        assert(map_of(ps.drop_last()) =~= map_of(ps.drop_last()).insert(
            ps[i].0@,
            ps[i].1@,
        ).remove(ps[i].0@));
    } else {
        assert(rps.drop_last() =~= ps.drop_last().remove(i));
        assert(unique_keys(ps.drop_last()));
        lemma_map_of_remove(ps.drop_last(), i);
        assert(rps.last() == ps.last());
        assert(map_of(rps) == map_of(ps.drop_last()).remove(ps[i].0@).insert(
            ps.last().0@,
            ps.last().1@,
        ));
        assert(ps.last().0@ != ps[i].0@);
        assert(map_of(ps.drop_last()).remove(ps[i].0@).insert(ps.last().0@, ps.last().1@)
            =~= map_of(ps.drop_last()).insert(ps.last().0@, ps.last().1@).remove(ps[i].0@));
    }
}

impl<V: View> KvStore<V> {
    /// True when the store's keys are unique, which every operation keeps.
    pub open spec fn wf(&self) -> bool {
        unique_keys(self.pairs@)
    }

    /// The pairs in insertion order; serialization works through this.
    pub open spec fn pairs_seq(&self) -> Seq<(String, V)> {
        self.pairs@
    }

    /// An empty store.
    pub fn new() -> (r: Self)
        ensures
            r.wf(),
            r@ == Map::<Seq<char>, V::V>::empty(),
            r.pairs_seq().len() == 0,
    {
        KvStore { pairs: Vec::new() }
    }

    /// How many pairs the store holds, which is the size of its map.
    pub fn len(&self) -> (n: usize)
        ensures
            n == self.pairs_seq().len(),
            self.wf() ==> n == self@.dom().len(),
    {
        proof {
            if self.wf() {
                lemma_map_of_len(self.pairs@);
            }
        }
        self.pairs.len()
    }

    /// The index of the pair holding `key`, if one does.
    fn find_index(&self, key: &str) -> (r: Option<usize>)
        ensures
            match r {
                Some(i) => i < self.pairs@.len() && self.pairs@[i as int].0@ == key@,
                None => forall|i: int| 0 <= i < self.pairs@.len() ==> self.pairs@[i].0@ != key@,
            },
    {
        let mut i: usize = 0;
        while i < self.pairs.len()
            invariant
                0 <= i <= self.pairs@.len(),
                forall|j: int| 0 <= j < i ==> self.pairs@[j].0@ != key@,
            decreases self.pairs@.len() - i,
        {
            if str_eq(self.pairs[i].0.as_str(), key) {
                return Some(i);
            }
            i += 1;
        }
        None
    }

    /// The value stored under `key`, if any.
    pub fn get(&self, key: &str) -> (r: Option<&V>)
        requires
            self.wf(),
        ensures
            match r {
                Some(v) => self@.contains_key(key@) && v@ == self@[key@],
                None => !self@.contains_key(key@),
            },
    {
        proof {
            lemma_map_of_contains(self.pairs@, key@);
        }
        match self.find_index(key) {
            Some(i) => {
                proof {
                    lemma_map_of_get(self.pairs@, i as int);
                }
                Some(&self.pairs[i].1)
            },
            None => None,
        }
    }

    /// Whether the store holds `key`.
    pub fn contains(&self, key: &str) -> (b: bool)
        requires
            self.wf(),
        ensures
            b == self@.contains_key(key@),
    {
        self.get(key).is_some()
    }

    /// Stores `value` under `key`, replacing what was there.
    pub fn insert(&mut self, key: String, value: V)
        requires
            old(self).wf(),
        ensures
            final(self).wf(),
            final(self)@ == old(self)@.insert(key@, value@),
    {
        let ghost old_pairs = self.pairs@;
        match self.find_index(key.as_str()) {
            Some(i) => {
                proof {
                    lemma_map_of_update(old_pairs, i as int, (key, value));
                }
                self.pairs[i] = (key, value);
            },
            None => {
                self.pairs.push((key, value));
                proof {
                    assert(self.pairs@.drop_last() =~= old_pairs);
                    assert(forall|i: int| 0 <= i < old_pairs.len() ==> self.pairs@[i] == old_pairs[i]);
                }
            },
        }
    }

    /// Drops `key` from the store; a store without it is left as it is.
    pub fn remove(&mut self, key: &str)
        requires
            old(self).wf(),
        ensures
            final(self).wf(),
            final(self)@ == old(self)@.remove(key@),
    {
        let ghost old_pairs = self.pairs@;
        match self.find_index(key) {
            Some(i) => {
                proof {
                    lemma_map_of_remove(old_pairs, i as int);
                }
                self.pairs.remove(i);
            },
            None => {
                proof {
                    lemma_map_of_contains(old_pairs, key@);
                    assert(map_of(old_pairs) =~= map_of(old_pairs).remove(key@));
                }
            },
        }
    }

    /// Empties the store.
    pub fn clear(&mut self)
        ensures
            final(self).wf(),
            final(self)@ == Map::<Seq<char>, V::V>::empty(),
            final(self).pairs_seq().len() == 0,
    {
        self.pairs.clear();
    }

    /// The key of the pair at position `i` of the insertion order.
    pub fn key_at(&self, i: usize) -> (k: &String)
        requires
            i < self.pairs_seq().len(),
        ensures
            k@ == self.pairs_seq()[i as int].0@,
            self.wf() ==> self@.contains_key(k@) && self@[k@] == self.pairs_seq()[i as int].1@,
    {
        proof {
            if self.wf() {
                lemma_map_of_get(self.pairs@, i as int);
            }
        }
        &self.pairs[i].0
    }

    /// The value of the pair at position `i` of the insertion order.
    pub fn val_at(&self, i: usize) -> (v: &V)
        requires
            i < self.pairs_seq().len(),
        ensures
            v == &self.pairs_seq()[i as int].1,
            self.wf() ==> self@.contains_key(self.pairs_seq()[i as int].0@) && self@[self.pairs_seq()[i as int].0@] == v@,
    {
        proof {
            if self.wf() {
                lemma_map_of_get(self.pairs@, i as int);
            }
        }
        &self.pairs[i].1
    }
}

/// Every pair of a well-formed store is in its map.
pub broadcast proof fn lemma_kvstore_pairs_in_map<V: View>(s: &KvStore<V>, i: int)
    requires
        s.wf(),
        0 <= i < s.pairs_seq().len(),
    ensures
        s@.contains_key(#[trigger] s.pairs_seq()[i].0@),
        s@[s.pairs_seq()[i].0@] == s.pairs_seq()[i].1@,
{
    lemma_map_of_get(s.pairs_seq(), i);
}

/// Every key of a well-formed store's map is some pair's key.
pub proof fn lemma_kvstore_map_in_pairs<V: View>(s: &KvStore<V>, k: Seq<char>)
    requires
        s@.contains_key(k),
    ensures
        exists|i: int| 0 <= i < s.pairs_seq().len() && s.pairs_seq()[i].0@ == k,
{
    lemma_map_of_contains(s.pairs_seq(), k);
}

} // verus!
