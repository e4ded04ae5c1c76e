//! A map keyed by strings, held as an association list with distinct keys.

use vstd::prelude::*;

verus! {

/// A map from strings to values in which every key occurs once.
pub struct StrMap<V> {
    keys: Vec<String>,
    vals: Vec<V>,
}

impl<V> StrMap<V> {
    #[verifier::type_invariant]
    spec fn well_formed(self) -> bool {
        &&& self.keys@.len() == self.vals@.len()
        &&& forall|i: int, j: int|
            0 <= i < self.keys@.len() && 0 <= j < self.keys@.len() && i != j
                ==> #[trigger] self.keys@[i]@ != #[trigger] self.keys@[j]@
    }

    spec fn has_key_at(self, k: Seq<char>, i: int) -> bool {
        0 <= i < self.keys@.len() && self.keys@[i]@ == k
    }

    /// The contents as a mathematical map.
    pub closed spec fn map(self) -> Map<Seq<char>, V> {
        Map::new(
            |k: Seq<char>| exists|i: int| self.has_key_at(k, i),
            |k: Seq<char>| self.vals@[choose|i: int| self.has_key_at(k, i)],
        )
    }

    /// Number of entries.
    pub closed spec fn len(self) -> nat {
        self.keys@.len()
    }

    /// The key of the `i`-th entry in insertion order.
    pub closed spec fn key_at(self, i: int) -> Seq<char> {
        self.keys@[i]@
    }

    /// The value of the `i`-th entry in insertion order.
    pub closed spec fn val_at(self, i: int) -> V {
        self.vals@[i]
    }

    proof fn lemma_index(self, i: int)
        requires
            self.well_formed(),
            0 <= i < self.keys@.len(),
        ensures
            self.map().contains_key(self.keys@[i]@),
            self.map()[self.keys@[i]@] == self.vals@[i],
    {
        let k = self.keys@[i]@;
        assert(self.has_key_at(k, i));
        let j = choose|j: int| self.has_key_at(k, j);
        assert(j == i);
    }

    /// The empty map.
    pub fn new() -> (r: StrMap<V>)
        ensures
            r.map() == Map::<Seq<char>, V>::empty(),
            r.len() == 0,
    {
        let r = StrMap { keys: Vec::new(), vals: Vec::new() };
        assert(r.map() =~= Map::<Seq<char>, V>::empty());
        r
    }

    /// Number of entries.
    pub fn size(&self) -> (r: usize)
        ensures
            r == self.len(),
    {
        self.keys.len()
    }

    /// The `i`-th entry in insertion order.
    pub fn entry(&self, i: usize) -> (r: (&String, &V))
        requires
            i < self.len(),
        ensures
            r.0@ == self.key_at(i as int),
            *r.1 == self.val_at(i as int),
            self.map().contains_key(r.0@),
            self.map()[r.0@] == *r.1,
    {
        proof {
            use_type_invariant(self);
            self.lemma_index(i as int);
        }
        (&self.keys[i], &self.vals[i])
    }

    fn position(&self, key: &str) -> (r: Option<usize>)
        ensures
            match r {
                Some(i) => i < self.keys@.len() && self.keys@[i as int]@ == key@,
                None => forall|i: int| 0 <= i < self.keys@.len() ==> self.keys@[i]@ != key@,
            },
    {
        let k = key.to_owned();
        let mut i: usize = 0;
        while i < self.keys.len()
            invariant
                i <= self.keys@.len(),
                k@ == key@,
                forall|j: int| 0 <= j < i ==> self.keys@[j]@ != key@,
            decreases self.keys@.len() - i,
        {
            if self.keys[i] == k {
                return Some(i);
            }
            i = i + 1;
        }
        None
    }

    /// The value stored under `key`, if any.
    pub fn get(&self, key: &str) -> (r: Option<&V>)
        ensures
            match r {
                Some(v) => self.map().contains_key(key@) && *v == self.map()[key@],
                None => !self.map().contains_key(key@),
            },
    {
        proof {
            use_type_invariant(self);
        }
        match self.position(key) {
            Some(i) => {
                proof {
                    self.lemma_index(i as int);
                }
                Some(&self.vals[i])
            },
            None => {
                assert(!self.map().contains_key(key@));
                None
            },
        }
    }

    /// Removes the entry of `key`, giving back its value.
    pub fn remove(&mut self, key: &str) -> (r: Option<V>)
        ensures
            final(self).map() == old(self).map().remove(key@),
            match r {
                Some(v) => old(self).map().contains_key(key@) && v == old(self).map()[key@],
                None => !old(self).map().contains_key(key@),
            },
    {
        proof {
            use_type_invariant(&*self);
        }
        let ghost old_self = *self;
        match self.position(key) {
            None => {
                assert(self.map() =~= old_self.map().remove(key@));
                None
            },
            Some(i) => {
                proof {
                    old_self.lemma_index(i as int);
                }
                let mut tmp = StrMap { keys: Vec::new(), vals: Vec::new() };
                std::mem::swap(self, &mut tmp);
                let StrMap { keys: mut keys, vals: mut vals } = tmp;
                keys.remove(i);
                let v = vals.remove(i);
                proof {
                    assert forall|a: int, b: int|
                        0 <= a < keys@.len() && 0 <= b < keys@.len() && a != b
                            implies #[trigger] keys@[a]@ != #[trigger] keys@[b]@ by {
                        let a0 = if a < i { a } else { a + 1 };
                        let b0 = if b < i { b } else { b + 1 };
                        assert(keys@[a] == old_self.keys@[a0]);
                        assert(keys@[b] == old_self.keys@[b0]);
                    }
                }
                *self = StrMap { keys, vals };
                proof {
                    let n = self.keys@.len() as int;
                    assert forall|k: Seq<char>| old_self.map().remove(key@).contains_key(k)
                        implies #[trigger] self.map().contains_key(k) by {
                        let j = choose|j: int| old_self.has_key_at(k, j);
                        assert(j != i);
                        let j2 = if j < i { j } else { j - 1 };
                        assert(self.has_key_at(k, j2));
                    }
                    assert forall|k: Seq<char>| #[trigger] self.map().contains_key(k)
                        implies old_self.map().remove(key@).contains_key(k)
                            && self.map()[k] == old_self.map().remove(key@)[k] by {
                        let j = choose|j: int| self.has_key_at(k, j);
                        let j0 = if j < i { j } else { j + 1 };
                        assert(old_self.has_key_at(k, j0));
                        assert(j0 != i as int);
                        self.lemma_index(j);
                        old_self.lemma_index(j0);
                    }
                    assert(self.map() =~= old_self.map().remove(key@));
                }
                Some(v)
            },
        }
    }

    /// Stores `v` under `key`, replacing what was there.
    pub fn insert(&mut self, key: String, v: V)
        ensures
            final(self).map() == old(self).map().insert(key@, v),
    {
        proof {
            use_type_invariant(&*self);
        }
        let ghost old_self = *self;
        let pos = self.position(key.as_str());
        let mut tmp = StrMap { keys: Vec::new(), vals: Vec::new() };
        std::mem::swap(self, &mut tmp);
        let StrMap { keys: mut keys, vals: mut vals } = tmp;
        match pos {
            Some(i) => {
                vals.set(i, v);
                *self = StrMap { keys, vals };
                proof {
                    assert forall|k: Seq<char>| old_self.map().insert(key@, v).contains_key(k)
                        implies #[trigger] self.map().contains_key(k) by {
                        if k != key@ {
                            let j = choose|j: int| old_self.has_key_at(k, j);
                            assert(self.has_key_at(k, j));
                        } else {
                            assert(self.has_key_at(k, i as int));
                        }
                    }
                    assert forall|k: Seq<char>| #[trigger] self.map().contains_key(k)
                        implies old_self.map().insert(key@, v).contains_key(k)
                            && self.map()[k] == old_self.map().insert(key@, v)[k] by {
                        let j = choose|j: int| self.has_key_at(k, j);
                        assert(old_self.has_key_at(k, j));
                        self.lemma_index(j);
                        old_self.lemma_index(j);
                    }
                    assert(self.map() =~= old_self.map().insert(key@, v));
                }
            },
            None => {
                keys.push(key);
                vals.push(v);
                *self = StrMap { keys, vals };
                proof {
                    let n = old_self.keys@.len() as int;
                    assert forall|k: Seq<char>| old_self.map().insert(key@, v).contains_key(k)
                        implies #[trigger] self.map().contains_key(k) by {
                        if k != key@ {
                            let j = choose|j: int| old_self.has_key_at(k, j);
                            assert(self.has_key_at(k, j));
                        } else {
                            assert(self.has_key_at(k, n));
                        }
                    }
                    assert forall|k: Seq<char>| #[trigger] self.map().contains_key(k)
                        implies old_self.map().insert(key@, v).contains_key(k)
                            && self.map()[k] == old_self.map().insert(key@, v)[k] by {
                        let j = choose|j: int| self.has_key_at(k, j);
                        self.lemma_index(j);
                        if j < n {
                            assert(old_self.has_key_at(k, j));
                            old_self.lemma_index(j);
                        }
                    }
                    assert(self.map() =~= old_self.map().insert(key@, v));
                }
            },
        }
    }
}

impl StrMap<crate::value::Value> {
    /// A copy of this map, holding copies of its values.
    pub fn clone_values(&self) -> (r: StrMap<crate::value::Value>)
        ensures
            r.map().dom() == self.map().dom(),
            forall|k: Seq<char>| #[trigger] r.map().contains_key(k) ==> r.map()[k].model() == self.map()[k].model(),
    {
        proof {
            use_type_invariant(self);
        }
        let mut keys: Vec<String> = Vec::new();
        let mut vals: Vec<crate::value::Value> = Vec::new();
        let mut i: usize = 0;
        while i < self.keys.len()
            invariant
                self.well_formed(),
                i <= self.keys@.len(),
                keys@.len() == i,
                vals@.len() == i,
                forall|j: int| 0 <= j < i ==> #[trigger] keys@[j]@ == self.keys@[j]@,
                forall|j: int| 0 <= j < i ==> #[trigger] vals@[j].model() == self.vals@[j].model(),
            decreases self.keys@.len() - i,
        {
            keys.push(self.keys[i].clone());
            vals.push(self.vals[i].clone_value());
            i = i + 1;
        }
        let r = StrMap { keys, vals };
        proof {
            assert forall|k: Seq<char>| self.map().contains_key(k) implies #[trigger] r.map().contains_key(k) by {
                let j = choose|j: int| self.has_key_at(k, j);
                assert(r.has_key_at(k, j));
            }
            assert forall|k: Seq<char>| #[trigger] r.map().contains_key(k) implies self.map().contains_key(k)
                && r.map()[k].model() == self.map()[k].model() by {
                let j = choose|j: int| r.has_key_at(k, j);
                assert(self.has_key_at(k, j));
                r.lemma_index(j);
                self.lemma_index(j);
            }
            assert(r.map().dom() =~= self.map().dom());
        }
        r
    }
}

} // verus!
