use vstd::prelude::*;
use crate::btset::SetElement;

verus! {

broadcast use Seq::lemma_push_map_commute;

/// A finite map whose keys are told apart by their views: the transition
/// tables of the automata.
#[derive(Debug)]
pub struct Table<K: SetElement, V: View> {
    entries: Vec<(K, V)>,
}

impl<K: SetElement, V: View> View for Table<K, V> {
    type V = Map<K::V, V::V>;

    closed spec fn view(&self) -> Map<K::V, V::V> {
        Map::new(
            |k: K::V| self.keys().contains(k),
            |k: K::V| self.values()[self.keys().index_of(k)],
        )
    }
}

impl<K: SetElement, V: View> Table<K, V> {
    /// The views of the keys, in the order in which the entries are held.
    pub closed spec fn keys(&self) -> Seq<K::V> {
        self.entries@.map_values(|e: (K, V)| e.0@)
    }

    /// The views of the values, in the order of `keys`.
    pub closed spec fn values(&self) -> Seq<V::V> {
        self.entries@.map_values(|e: (K, V)| e.1@)
    }

    #[verifier::type_invariant]
    spec fn distinct_keys(&self) -> bool {
        self.keys().no_duplicates()
    }

    proof fn lemma_lookup(&self, i: int)
        requires
            self.keys().no_duplicates(),
            0 <= i < self.keys().len(),
        ensures
            self@.contains_key(self.keys()[i]),
            self@[self.keys()[i]] == self.values()[i],
    {
        assert(self.keys().contains(self.keys()[i]));
        let j = self.keys().index_of(self.keys()[i]);
        assert(j == i);
    }

    pub fn new() -> (r: Self)
        ensures
            r@ == Map::<K::V, V::V>::empty(),
    {
        let r = Table { entries: Vec::new() };
        assert(r@ =~= Map::<K::V, V::V>::empty());
        r
    }

    fn position(&self, key: &K) -> (r: Option<usize>)
        ensures
            match r {
                Some(i) => i < self.keys().len() && self.keys()[i as int] == key@,
                None => !self.keys().contains(key@),
            },
    {
        let mut i: usize = 0;
        while i < self.entries.len()
            invariant
                i <= self.entries.len(),
                forall|j: int| 0 <= j < i ==> self.keys()[j] != key@,
            decreases self.entries.len() - i,
        {
            if self.entries[i].0.same(key) {
                return Some(i);
            }
            i = i + 1;
        }
        None
    }

    /// Maps `key` to `value`, in place of what `key` was mapped to before.
    pub fn insert(&mut self, key: K, value: V)
        ensures
            final(self)@ == old(self)@.insert(key@, value@),
    {
        proof {
            use_type_invariant(&*self);
        }
        let ghost k = key@;
        let ghost v = value@;
        let mut entries: Vec<(K, V)> = Vec::new();
        std::mem::swap(&mut self.entries, &mut entries);
        let ghost before = entries@;
        let found = self.position_in(&entries, &key);
        if let Some(i) = found {
            entries.remove(i);
            assert(entries@ =~= before.remove(i as int));
        }
        let ghost rest = entries@;
        entries.push((key, value));
        let ghost keys = entries@.map_values(|e: (K, V)| e.0@);
        let ghost values = entries@.map_values(|e: (K, V)| e.1@);
        assert(keys =~= rest.map_values(|e: (K, V)| e.0@).push(k));
        assert(values =~= rest.map_values(|e: (K, V)| e.1@).push(v));
        proof {
            let old_keys = before.map_values(|e: (K, V)| e.0@);
            let rest_keys = rest.map_values(|e: (K, V)| e.0@);
            assert forall|j: int| 0 <= j < rest_keys.len() implies rest_keys[j] != k by {
                if let Some(i) = found {
                    let oj = if j < i { j } else { j + 1 };
                    assert(rest_keys[j] == old_keys[oj]);
                    assert(old_keys[i as int] == k);
                } else {
                    assert(rest_keys[j] == old_keys[j]);
                }
            }
            assert forall|a: int, b: int| 0 <= a < b < keys.len() implies keys[a] != keys[b] by {
                if b < keys.len() - 1 {
                    if let Some(i) = found {
                        let oa = if a < i { a } else { a + 1 };
                        let ob = if b < i { b } else { b + 1 };
                        assert(rest_keys[a] == old_keys[oa]);
                        assert(rest_keys[b] == old_keys[ob]);
                    } else {
                        assert(rest_keys[a] == old_keys[a]);
                    }
                } else {
                    assert(rest_keys[a] == keys[a]);
                }
            }
        }
        self.entries = entries;
        proof {
            let old_keys = old(self).keys();
            let old_values = old(self).values();
            assert forall|q: K::V| #[trigger] final(self)@.contains_key(q) == old(self)@.insert(k, v).contains_key(q)
                && (final(self)@.contains_key(q) ==> final(self)@[q] == old(self)@.insert(k, v)[q]) by {
                if q == k {
                    self.lemma_lookup(keys.len() - 1);
                } else if old_keys.contains(q) {
                    let j = old_keys.index_of(q);
                    old(self).lemma_lookup(j);
                    let nj = match found {
                        Some(i) => if j < i { j } else { j - 1 },
                        None => j,
                    };
                    assert(keys[nj] == q);
                    assert(values[nj] == old_values[j]);
                    self.lemma_lookup(nj);
                } else {
                    if keys.contains(q) {
                        let nj = keys.index_of(q);
                        let oj = match found {
                            Some(i) => if nj < i { nj } else { nj + 1 },
                            None => nj,
                        };
                        assert(old_keys[oj] == q);
                    }
                }
            }
            assert(final(self)@ =~= old(self)@.insert(k, v));
        }
    }

    fn position_in(&self, entries: &Vec<(K, V)>, key: &K) -> (r: Option<usize>)
        ensures
            match r {
                Some(i) => i < entries.len() && entries@[i as int].0@ == key@,
                None => forall|j: int| 0 <= j < entries.len() ==> entries@[j].0@ != key@,
            },
    {
        let mut i: usize = 0;
        while i < entries.len()
            invariant
                i <= entries.len(),
                forall|j: int| 0 <= j < i ==> entries@[j].0@ != key@,
            decreases entries.len() - i,
        {
            if entries[i].0.same(key) {
                return Some(i);
            }
            i = i + 1;
        }
        None
    }

    /// The value that `key` is mapped to, if any.
    pub fn get(&self, key: &K) -> (r: Option<&V>)
        ensures
            match r {
                Some(v) => self@.contains_key(key@) && v@ == self@[key@],
                None => !self@.contains_key(key@),
            },
    {
        proof {
            use_type_invariant(self);
        }
        match self.position(key) {
            Some(i) => {
                proof {
                    self.lemma_lookup(i as int);
                }
                Some(&self.entries[i].1)
            },
            None => None,
        }
    }

    pub fn contains_key(&self, key: &K) -> (r: bool)
        ensures
            r == self@.contains_key(key@),
    {
        self.position(key).is_some()
    }

    /// The entries, each key once.
    pub fn entries(&self) -> (r: &Vec<(K, V)>)
        ensures
            r@.map_values(|e: (K, V)| e.0@) == self.keys(),
            r@.map_values(|e: (K, V)| e.1@) == self.values(),
            self.keys().no_duplicates(),
            self.keys().len() == self.values().len(),
            self@.dom() == self.keys().to_set(),
            forall|i: int|
                0 <= i < self.keys().len() ==> #[trigger] self@[self.keys()[i]] == self.values()[i],
    {
        proof {
            use_type_invariant(self);
            assert(self@.dom() =~= self.keys().to_set());
            assert forall|i: int| 0 <= i < self.keys().len() implies #[trigger] self@[self.keys()[i]]
                == self.values()[i] by {
                self.lemma_lookup(i);
            }
        }
        &self.entries
    }
}

impl<K: SetElement, V: SetElement> Clone for Table<K, V> {
    fn clone(&self) -> (r: Self)
        ensures
            r@ == self@,
    {
        proof {
            use_type_invariant(self);
        }
        let mut entries: Vec<(K, V)> = Vec::new();
        let mut i: usize = 0;
        while i < self.entries.len()
            invariant
                i <= self.entries.len(),
                self.keys().no_duplicates(),
                entries@.map_values(|e: (K, V)| e.0@) == self.keys().subrange(0, i as int),
                entries@.map_values(|e: (K, V)| e.1@) == self.values().subrange(0, i as int),
            decreases self.entries.len() - i,
        {
            entries.push((self.entries[i].0.duplicate(), self.entries[i].1.duplicate()));
            i = i + 1;
            assert(entries@.map_values(|e: (K, V)| e.0@) =~= self.keys().subrange(0, i as int));
            assert(entries@.map_values(|e: (K, V)| e.1@) =~= self.values().subrange(0, i as int));
        }
        assert(self.keys().subrange(0, i as int) =~= self.keys());
        assert(self.values().subrange(0, i as int) =~= self.values());
        let r = Table { entries };
        assert(r@ =~= self@);
        r
    }
}

} // verus!
