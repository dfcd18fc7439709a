//! The in-memory index: a map from keys to what is kept for them, held as a
//! list in which no key occurs twice, in the order in which the keys came.

use vstd::prelude::*;
use vstd::slice::slice_to_vec;

verus! {

/// Whether two byte strings are the same.
pub fn bytes_eq(a: &[u8], b: &[u8]) -> (same: bool)
    ensures
        same == (a@ == b@),
{
    if a.len() != b.len() {
        return false;
    }
    let mut i: usize = 0;
    while i < a.len()
        invariant
            a@.len() == b@.len(),
            i <= a@.len(),
            a@.subrange(0, i as int) == b@.subrange(0, i as int),
        decreases a@.len() - i,
    {
        if a[i] != b[i] {
            assert(a@[i as int] != b@[i as int]);
            return false;
        }
        assert(a@.subrange(0, i + 1) == a@.subrange(0, i as int).push(a@[i as int]));
        assert(b@.subrange(0, i + 1) == b@.subrange(0, i as int).push(b@[i as int]));
        i = i + 1;
    }
    assert(a@ == a@.subrange(0, i as int));
    assert(b@ == b@.subrange(0, i as int));
    true
}

/// A map from keys to values of type `T`.
pub struct Index<T> {
    keys: Vec<Vec<u8>>,
    values: Vec<T>,
}

impl<T: Copy> View for Index<T> {
    type V = Map<Seq<u8>, T>;

    /// The map that the index stands for.
    open spec fn view(&self) -> Map<Seq<u8>, T> {
        Map::new(
            |key: Seq<u8>| self.keys().contains(key),
            |key: Seq<u8>| self.values()[self.keys().index_of(key)],
        )
    }
}

impl<T: Copy> Index<T> {
    /// The keys, in the order in which they came into the index.
    pub closed spec fn keys(&self) -> Seq<Seq<u8>> {
        Seq::new(self.keys@.len(), |i: int| self.keys@[i]@)
    }

    /// The values, each at the place of its key.
    pub closed spec fn values(&self) -> Seq<T> {
        self.values@
    }

    /// Every key has one value, and no key occurs twice.
    pub open spec fn wf(&self) -> bool {
        &&& self.keys().len() == self.values().len()
        &&& self.keys().no_duplicates()
    }

    /// In a well-formed index the key at each place maps to the value at
    /// that place, and every key of the map stands at some place.
    pub proof fn lemma_view(&self)
        requires
            self.wf(),
        ensures
            forall|i: int|
                0 <= i < self.keys().len() ==> self@.contains_key(#[trigger] self.keys()[i])
                    && self@[self.keys()[i]] == self.values()[i],
            forall|key: Seq<u8>| #[trigger]
                self@.contains_key(key) ==> 0 <= self.keys().index_of(key) < self.keys().len()
                    && self.keys()[self.keys().index_of(key)] == key,
            self@.dom().finite(),
            self@.dom().len() == self.keys().len(),
    {
        let keys = self.keys();
        assert forall|i: int| 0 <= i < keys.len() implies self@.contains_key(#[trigger] keys[i])
            && self@[keys[i]] == self.values()[i] by {
            assert(keys.contains(keys[i]));
            let j = keys.index_of(keys[i]);
            assert(keys[j] == keys[i]);
        }
        assert(self@.dom() =~= keys.to_set());
        keys.unique_seq_to_set();
    }

    /// An index without keys.
    pub fn new() -> (index: Self)
        ensures
            index.wf(),
            index@ == Map::<Seq<u8>, T>::empty(),
            index.keys().len() == 0,
    {
        let index = Index { keys: Vec::new(), values: Vec::new() };
        assert(index@ =~= Map::<Seq<u8>, T>::empty());
        index
    }

    /// How many keys the index holds.
    pub fn len(&self) -> (n: usize)
        requires
            self.wf(),
        ensures
            n == self.keys().len(),
    {
        self.keys.len()
    }

    /// The key at place `i`.
    pub fn key_at(&self, i: usize) -> (key: &Vec<u8>)
        requires
            self.wf(),
            i < self.keys().len(),
        ensures
            key@ == self.keys()[i as int],
    {
        &self.keys[i]
    }

    /// The value at place `i`.
    pub fn value_at(&self, i: usize) -> (value: T)
        requires
            self.wf(),
            i < self.keys().len(),
        ensures
            value == self.values()[i as int],
    {
        self.values[i]
    }

    /// The place of `key`, if the index holds it.
    fn position(&self, key: &[u8]) -> (place: Option<usize>)
        requires
            self.wf(),
        ensures
            match place {
                Some(i) => i < self.keys().len() && self.keys()[i as int] == key@,
                None => !self.keys().contains(key@),
            },
    {
        let mut i: usize = 0;
        while i < self.keys.len()
            invariant
                i <= self.keys().len(),
                self.keys().len() == self.keys@.len(),
                forall|j: int| 0 <= j < i ==> self.keys()[j] != key@,
            decreases self.keys().len() - i,
        {
            if bytes_eq(self.keys[i].as_slice(), key) {
                return Some(i);
            }
            i = i + 1;
        }
        None
    }

    /// Whether the index holds `key`.
    pub fn contains_key(&self, key: &[u8]) -> (held: bool)
        requires
            self.wf(),
        ensures
            held == self@.contains_key(key@),
    {
        self.position(key).is_some()
    }

    /// The value kept for `key`, if there is one.
    pub fn get(&self, key: &[u8]) -> (found: Option<T>)
        requires
            self.wf(),
        ensures
            found == (if self@.contains_key(key@) {
                Some(self@[key@])
            } else {
                None
            }),
    {
        proof {
            self.lemma_view();
        }
        match self.position(key) {
            Some(i) => Some(self.values[i]),
            None => None,
        }
    }

    /// Keeps `value` for `key`, in place of what was kept for it before. A
    /// new key goes to the end of the order.
    pub fn insert(&mut self, key: &[u8], value: T)
        requires
            old(self).wf(),
        ensures
            final(self).wf(),
            final(self)@ == old(self)@.insert(key@, value),
            final(self).keys() == (if old(self)@.contains_key(key@) {
                old(self).keys()
            } else {
                old(self).keys().push(key@)
            }),
    {
        proof {
            self.lemma_view();
        }
        match self.position(key) {
            Some(i) => {
                self.values[i] = value;
                assert(self.keys() == old(self).keys());
                proof {
                    self.lemma_view();
                }
                assert(self@ =~= old(self)@.insert(key@, value)) by {
                    assert forall|k: Seq<u8>| self@.contains_key(k) implies #[trigger] self@[k]
                        == old(self)@.insert(key@, value)[k] by {
                        let j = self.keys().index_of(k);
                        if j != i {
                            assert(self.values()[j] == old(self).values()[j]);
                        }
                    }
                }
            },
            None => {
                self.keys.push(slice_to_vec(key));
                self.values.push(value);
                assert(self.keys() =~= old(self).keys().push(key@));
                assert(self.keys().no_duplicates()) by {
                    assert forall|a: int, b: int|
                        0 <= a < self.keys().len() && 0 <= b < self.keys().len() && a
                            != b implies self.keys()[a] != self.keys()[b] by {
                        if a < old(self).keys().len() && b < old(self).keys().len() {
                            assert(old(self).keys()[a] != old(self).keys()[b]);
                        } else if a < old(self).keys().len() {
                            assert(old(self).keys().contains(old(self).keys()[a]));
                        } else {
                            assert(old(self).keys().contains(old(self).keys()[b]));
                        }
                    }
                }
                proof {
                    self.lemma_view();
                }
                assert(self@ =~= old(self)@.insert(key@, value)) by {
                    let last = old(self).keys().len() as int;
                    assert(self.keys()[last] == key@);
                    assert forall|k: Seq<u8>| #[trigger]
                        self@.contains_key(k) <==> old(self)@.insert(key@, value).contains_key(
                            k,
                        ) by {
                        if self@.contains_key(k) {
                            let j = self.keys().index_of(k);
                            if j < last {
                                assert(old(self).keys()[j] == k);
                            }
                        }
                        if old(self)@.contains_key(k) {
                            let j = old(self).keys().index_of(k);
                            assert(self.keys()[j] == k);
                        }
                    }
                    assert forall|k: Seq<u8>| self@.contains_key(k) implies #[trigger] self@[k]
                        == old(self)@.insert(key@, value)[k] by {
                        let j = self.keys().index_of(k);
                        if j < last {
                            assert(old(self).keys()[j] == k);
                            assert(self.values()[j] == old(self).values()[j]);
                        }
                    }
                }
            },
        }
    }

    /// Drops `key` and what was kept for it, and says whether it was there.
    /// The other keys keep their order.
    pub fn remove(&mut self, key: &[u8]) -> (was_held: bool)
        requires
            old(self).wf(),
        ensures
            final(self).wf(),
            was_held == old(self)@.contains_key(key@),
            final(self)@ == old(self)@.remove(key@),
            final(self).keys() == (if was_held {
                old(self).keys().remove(old(self).keys().index_of(key@))
            } else {
                old(self).keys()
            }),
    {
        proof {
            self.lemma_view();
        }
        match self.position(key) {
            Some(i) => {
                self.keys.remove(i);
                self.values.remove(i);
                assert(self.keys() =~= old(self).keys().remove(i as int));
                assert(self.values() =~= old(self).values().remove(i as int));
                assert(self.keys().no_duplicates()) by {
                    assert forall|a: int, b: int|
                        0 <= a < self.keys().len() && 0 <= b < self.keys().len() && a
                            != b implies self.keys()[a] != self.keys()[b] by {
                        let a0 = if a < i { a } else { a + 1 };
                        let b0 = if b < i { b } else { b + 1 };
                        assert(old(self).keys()[a0] != old(self).keys()[b0]);
                    }
                }
                proof {
                    self.lemma_view();
                }
                assert(self@ =~= old(self)@.remove(key@)) by {
                    assert forall|k: Seq<u8>| #[trigger]
                        self@.contains_key(k) <==> old(self)@.remove(key@).contains_key(k) by {
                        if self@.contains_key(k) {
                            let j = self.keys().index_of(k);
                            let j0 = if j < i { j } else { j + 1 };
                            assert(old(self).keys()[j0] == k);
                        }
                        if old(self)@.contains_key(k) && k != key@ {
                            let j0 = old(self).keys().index_of(k);
                            let j = if j0 < i { j0 } else { j0 - 1 };
                            assert(self.keys()[j] == k);
                        }
                    }
                    assert forall|k: Seq<u8>| self@.contains_key(k) implies #[trigger] self@[k]
                        == old(self)@.remove(key@)[k] by {
                        let j = self.keys().index_of(k);
                        let j0 = if j < i { j } else { j + 1 };
                        assert(old(self).keys()[j0] == k);
                        assert(self.values()[j] == old(self).values()[j0]);
                    }
                }
                true
            },
            None => {
                assert(self@ =~= old(self)@.remove(key@));
                false
            },
        }
    }
}

} // verus!
