//! A small map keyed by strings, kept as a vector of distinct keys in
//! first-insertion order.
use vstd::prelude::*;

use crate::text::str_eq;

verus! {

/// The map that a sequence of key/value pairs stands for: later pairs take
/// precedence over earlier ones with the same key.
pub open spec fn pairs_to_map<V>(s: Seq<(Seq<char>, V)>) -> Map<Seq<char>, V>
    decreases s.len(),
{
    if s.len() == 0 {
        Map::empty()
    } else {
        pairs_to_map(s.drop_last()).insert(s.last().0, s.last().1)
    }
}

/// No key occurs twice in `s`.
pub open spec fn distinct_keys<V>(s: Seq<(Seq<char>, V)>) -> bool {
    forall|i: int, j: int| 0 <= i < s.len() && 0 <= j < s.len() && i != j ==> s[i].0 != s[j].0
}

/// Where keys are distinct, the map holds exactly the pairs of the sequence.
pub proof fn lemma_pairs_to_map<V>(s: Seq<(Seq<char>, V)>)
    requires
        distinct_keys(s),
    ensures
        pairs_to_map(s).dom().finite(),
        pairs_to_map(s).dom().len() == s.len(),
        forall|i: int|
            0 <= i < s.len() ==> #[trigger] pairs_to_map(s).contains_key(s[i].0)
                && pairs_to_map(s)[s[i].0] == s[i].1,
        forall|k: Seq<char>|
            #[trigger] pairs_to_map(s).contains_key(k) ==> exists|i: int|
                0 <= i < s.len() && s[i].0 == k,
    decreases s.len(),
{
    if s.len() > 0 {
        let t = s.drop_last();
        assert(distinct_keys(t));
        lemma_pairs_to_map(t);
        assert(!pairs_to_map(t).contains_key(s.last().0)) by {
            if pairs_to_map(t).contains_key(s.last().0) {
                let i = choose|i: int| 0 <= i < t.len() && t[i].0 == s.last().0;
                assert(s[i].0 == s[s.len() - 1].0);
            }
        }
        assert forall|k: Seq<char>| #[trigger] pairs_to_map(s).contains_key(k) implies exists|i: int|
            0 <= i < s.len() && s[i].0 == k by {
            if k != s.last().0 {
                let i = choose|i: int| 0 <= i < t.len() && t[i].0 == k;
                assert(s[i].0 == k);
            } else {
                assert(s[s.len() - 1].0 == k);
            }
        }
        assert forall|i: int| 0 <= i < s.len() implies #[trigger] pairs_to_map(s).contains_key(s[i].0)
            && pairs_to_map(s)[s[i].0] == s[i].1 by {
            if i < s.len() - 1 {
                assert(t[i] == s[i]);
            }
        }
    }
}

/// A sequence with distinct keys stands for the map that holds exactly its
/// pairs.
pub proof fn lemma_map_of_pairs<V>(s: Seq<(Seq<char>, V)>, m: Map<Seq<char>, V>)
    requires
        distinct_keys(s),
        forall|i: int| 0 <= i < s.len() ==> #[trigger] m.contains_key(s[i].0) && m[s[i].0] == s[i].1,
        forall|k: Seq<char>| #[trigger] m.contains_key(k) ==> exists|i: int| 0 <= i < s.len() && s[i].0 == k,
    ensures
        pairs_to_map(s) == m,
{
    lemma_pairs_to_map(s);
    assert forall|k: Seq<char>| #[trigger] pairs_to_map(s).contains_key(k) == m.contains_key(k) by {
        if m.contains_key(k) {
            let i = choose|i: int| 0 <= i < s.len() && s[i].0 == k;
            assert(pairs_to_map(s).contains_key(s[i].0));
        }
        if pairs_to_map(s).contains_key(k) {
            let i = choose|i: int| 0 <= i < s.len() && s[i].0 == k;
            assert(m.contains_key(s[i].0));
        }
    }
    assert forall|k: Seq<char>| #[trigger] pairs_to_map(s).contains_key(k) implies pairs_to_map(s)[k] == m[k] by {
        let i = choose|i: int| 0 <= i < s.len() && s[i].0 == k;
        assert(m.contains_key(s[i].0));
    }
    assert(pairs_to_map(s) =~= m);
}

/// A map from strings to values, kept as a vector of pairs with distinct keys
/// in the order in which keys were first inserted.
pub struct StrMap<V: View> {
    entries: Vec<(String, V)>,
}

impl<V: View> View for StrMap<V> {
    type V = Map<Seq<char>, V::V>;

    closed spec fn view(&self) -> Map<Seq<char>, V::V> {
        pairs_to_map(self.pairs())
    }
}

impl<V: View> StrMap<V> {
    /// The pairs of the map, as views, in insertion order.
    pub closed spec fn pairs(&self) -> Seq<(Seq<char>, V::V)> {
        self.entries@.map_values(|e: (String, V)| (e.0@, e.1@))
    }

    /// The type invariant: no key occurs twice.
    #[verifier::type_invariant]
    pub closed spec fn keys_distinct(&self) -> bool {
        distinct_keys(self.pairs())
    }

    /// The pairs have distinct keys and stand for the map.
    pub proof fn lemma_pairs(&self)
        requires
            self.keys_distinct(),
        ensures
            distinct_keys(self.pairs()),
            self@ == pairs_to_map(self.pairs()),
    {
    }

    /// An empty map.
    pub fn new() -> (m: Self)
        ensures
            m@ == Map::<Seq<char>, V::V>::empty(),
            m.pairs().len() == 0,
    {
        let m = StrMap { entries: Vec::new() };
        assert(m.pairs() =~= Seq::empty());
        m
    }

    /// The number of keys.
    pub fn len(&self) -> (n: usize)
        ensures
            n == self.pairs().len(),
            n == self@.dom().len(),
    {
        proof {
            use_type_invariant(self);
            lemma_pairs_to_map(self.pairs());
        }
        self.entries.len()
    }

    /// Whether the map has no keys.
    pub fn is_empty(&self) -> (b: bool)
        ensures
            b == (self@ == Map::<Seq<char>, V::V>::empty()),
            b == (self.pairs().len() == 0),
    {
        proof {
            use_type_invariant(self);
            lemma_pairs_to_map(self.pairs());
            if self.pairs().len() > 0 {
                assert(self@.contains_key(self.pairs()[0].0));
            } else {
                assert(self@ =~= Map::empty());
            }
        }
        self.entries.len() == 0
    }

    /// The key of the `i`-th pair.
    pub fn key_at(&self, i: usize) -> (k: &String)
        requires
            i < self.pairs().len(),
        ensures
            k@ == self.pairs()[i as int].0,
    {
        &self.entries[i].0
    }

    /// The value of the `i`-th pair.
    pub fn value_at(&self, i: usize) -> (v: &V)
        requires
            i < self.pairs().len(),
        ensures
            v@ == self.pairs()[i as int].1,
    {
        &self.entries[i].1
    }

    /// The position of `key` among the pairs, if it is there.
    pub fn position(&self, key: &str) -> (r: Option<usize>)
        ensures
            match r {
                Some(i) => i < self.pairs().len() && self.pairs()[i as int].0 == key@,
                None => !self@.contains_key(key@),
            },
            r is Some <==> self@.contains_key(key@),
    {
        proof {
            use_type_invariant(self);
            lemma_pairs_to_map(self.pairs());
        }
        let mut i: usize = 0;
        while i < self.entries.len()
            invariant
                i <= self.entries.len(),
                self.pairs().len() == self.entries.len(),
                forall|j: int| 0 <= j < i ==> self.pairs()[j].0 != key@,
                distinct_keys(self.pairs()),
            decreases self.entries.len() - i,
        {
            if str_eq(self.entries[i].0.as_str(), key) {
                proof {
                    lemma_pairs_to_map(self.pairs());
                    assert(self@.contains_key(self.pairs()[i as int].0));
                }
                return Some(i);
            }
            i = i + 1;
        }
        None
    }

    /// The value stored under `key`.
    pub fn get(&self, key: &str) -> (r: Option<&V>)
        ensures
            match r {
                Some(v) => self@.contains_key(key@) && v@ == self@[key@],
                None => !self@.contains_key(key@),
            },
    {
        proof {
            use_type_invariant(self);
            lemma_pairs_to_map(self.pairs());
        }
        match self.position(key) {
            Some(i) => Some(&self.entries[i].1),
            None => None,
        }
    }

    /// Stores `value` under `key`, replacing the value already there; a new
    /// key goes last.
    pub fn insert(&mut self, key: String, value: V)
        ensures
            final(self)@ == old(self)@.insert(key@, value@),
            old(self)@.contains_key(key@) ==> final(self).pairs().len() == old(self).pairs().len(),
            !old(self)@.contains_key(key@) ==> final(self).pairs() == old(self).pairs().push(
                (key@, value@),
            ),
    {
        proof {
            use_type_invariant(&*self);
            lemma_pairs_to_map(self.pairs());
        }
        let ghost old_pairs = self.pairs();
        let ghost kv = (key@, value@);
        match self.position(key.as_str()) {
            Some(i) => {
                let mut entries: Vec<(String, V)> = Vec::new();
                std::mem::swap(&mut entries, &mut self.entries);
                entries[i] = (key, value);
                proof {
                    let s = entries@.map_values(|e: (String, V)| (e.0@, e.1@));
                    assert(s =~= old_pairs.update(i as int, kv));
                    assert forall|a: int, b: int| 0 <= a < s.len() && 0 <= b < s.len() && a != b implies s[a].0 != s[b].0 by {
                        assert(old_pairs[a].0 == s[a].0);
                        assert(old_pairs[b].0 == s[b].0);
                    }
                }
                self.entries = entries;
                proof {
                    assert(self.pairs() =~= old_pairs.update(i as int, kv));
                    let m = pairs_to_map(old_pairs).insert(kv.0, kv.1);
                    let s = self.pairs();
                    assert forall|key: Seq<char>| #[trigger] m.contains_key(key) implies exists|j: int| 0 <= j < s.len() && s[j].0 == key by {
                        if key == kv.0 {
                            assert(s[i as int].0 == key);
                        } else {
                            let j = choose|j: int| 0 <= j < old_pairs.len() && old_pairs[j].0 == key;
                            assert(s[j].0 == key);
                        }
                    }
                    assert forall|j: int| 0 <= j < s.len() implies #[trigger] m.contains_key(s[j].0) && m[s[j].0] == s[j].1 by {
                        if j != i {
                            assert(s[j] == old_pairs[j]);
                        }
                    }
                    lemma_map_of_pairs(s, m);
                }
            },
            None => {
                let mut entries: Vec<(String, V)> = Vec::new();
                std::mem::swap(&mut entries, &mut self.entries);
                entries.push((key, value));
                proof {
                    let s = entries@.map_values(|e: (String, V)| (e.0@, e.1@));
                    assert(s =~= old_pairs.push(kv));
                    assert forall|j: int| 0 <= j < old_pairs.len() implies old_pairs[j].0 != kv.0 by {
                        assert(pairs_to_map(old_pairs).contains_key(old_pairs[j].0));
                    }
                }
                self.entries = entries;
                proof {
                    assert(self.pairs() =~= old_pairs.push(kv));
                    assert(self.pairs().drop_last() =~= old_pairs);
                }
            },
        }
    }

    /// Removes and returns the `i`-th pair.
    pub fn remove_at(&mut self, i: usize) -> (kv: (String, V))
        requires
            i < old(self).pairs().len(),
        ensures
            kv.0@ == old(self).pairs()[i as int].0,
            kv.1@ == old(self).pairs()[i as int].1,
            final(self).pairs() == old(self).pairs().remove(i as int),
            final(self)@ == old(self)@.remove(kv.0@),
    {
        proof {
            use_type_invariant(&*self);
            lemma_pairs_to_map(self.pairs());
        }
        let ghost old_pairs = self.pairs();
        let mut entries: Vec<(String, V)> = Vec::new();
        std::mem::swap(&mut entries, &mut self.entries);
        let kv = entries.remove(i);
        proof {
            let s = entries@.map_values(|e: (String, V)| (e.0@, e.1@));
            assert(s =~= old_pairs.remove(i as int));
            assert forall|a: int, b: int| 0 <= a < s.len() && 0 <= b < s.len() && a != b implies s[a].0 != s[b].0 by {
                let oa = if a < i { a } else { a + 1 };
                let ob = if b < i { b } else { b + 1 };
                assert(s[a] == old_pairs[oa]);
                assert(s[b] == old_pairs[ob]);
            }
        }
        self.entries = entries;
        proof {
            assert(self.pairs() =~= old_pairs.remove(i as int));
            let k = old_pairs[i as int].0;
            assert forall|j: int| 0 <= j < self.pairs().len() implies #[trigger] pairs_to_map(old_pairs).remove(k).contains_key(self.pairs()[j].0)
                && pairs_to_map(old_pairs).remove(k)[self.pairs()[j].0] == self.pairs()[j].1 by {
                if j < i {
                    assert(self.pairs()[j] == old_pairs[j]);
                } else {
                    assert(self.pairs()[j] == old_pairs[j + 1]);
                }
            }
            assert forall|key: Seq<char>| #[trigger] pairs_to_map(old_pairs).remove(k).contains_key(key) implies exists|j: int|
                0 <= j < self.pairs().len() && self.pairs()[j].0 == key by {
                let j = choose|j: int| 0 <= j < old_pairs.len() && old_pairs[j].0 == key;
                if j < i {
                    assert(self.pairs()[j].0 == key);
                } else {
                    assert(self.pairs()[j - 1].0 == key);
                }
            }
            lemma_map_of_pairs(self.pairs(), pairs_to_map(old_pairs).remove(k));
        }
        kv
    }

    /// Puts a pair for a key that is not in the map at position `i`.
    pub fn insert_at(&mut self, i: usize, key: String, value: V)
        requires
            i <= old(self).pairs().len(),
            !old(self)@.contains_key(key@),
        ensures
            final(self).pairs() == old(self).pairs().insert(i as int, (key@, value@)),
            final(self)@ == old(self)@.insert(key@, value@),
    {
        proof {
            use_type_invariant(&*self);
            lemma_pairs_to_map(self.pairs());
        }
        let ghost old_pairs = self.pairs();
        let ghost kv = (key@, value@);
        let mut entries: Vec<(String, V)> = Vec::new();
        std::mem::swap(&mut entries, &mut self.entries);
        entries.insert(i, (key, value));
        proof {
            let s = entries@.map_values(|e: (String, V)| (e.0@, e.1@));
            assert(s =~= old_pairs.insert(i as int, kv));
            assert forall|j: int| 0 <= j < old_pairs.len() implies old_pairs[j].0 != kv.0 by {
                assert(pairs_to_map(old_pairs).contains_key(old_pairs[j].0));
            }
            assert forall|a: int, b: int| 0 <= a < s.len() && 0 <= b < s.len() && a != b implies s[a].0 != s[b].0 by {
                let oa = if a < i { a } else { a - 1 };
                let ob = if b < i { b } else { b - 1 };
                if a != i && b != i {
                    assert(s[a] == old_pairs[oa]);
                    assert(s[b] == old_pairs[ob]);
                } else if a == i {
                    assert(s[b] == old_pairs[ob]);
                } else {
                    assert(s[a] == old_pairs[oa]);
                }
            }
        }
        self.entries = entries;
        proof {
            let s = self.pairs();
            let m = pairs_to_map(old_pairs).insert(kv.0, kv.1);
            assert forall|j: int| 0 <= j < s.len() implies #[trigger] m.contains_key(s[j].0) && m[s[j].0] == s[j].1 by {
                if j < i {
                    assert(s[j] == old_pairs[j]);
                } else if j > i {
                    assert(s[j] == old_pairs[j - 1]);
                }
            }
            assert forall|key: Seq<char>| #[trigger] m.contains_key(key) implies exists|j: int| 0 <= j < s.len() && s[j].0 == key by {
                if key == kv.0 {
                    assert(s[i as int].0 == key);
                } else {
                    let j = choose|j: int| 0 <= j < old_pairs.len() && old_pairs[j].0 == key;
                    if j < i {
                        assert(s[j].0 == key);
                    } else {
                        assert(s[j + 1].0 == key);
                    }
                }
            }
            lemma_map_of_pairs(s, m);
        }
    }
}

} // verus!
