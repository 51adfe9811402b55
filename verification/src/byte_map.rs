//! A map from byte strings to values that holds its keys in ascending
//! byte-lexicographic order.

use crate::order::{
    compare, lemma_precedes_total, lemma_precedes_transitive, precedes, Rank,
};
use vstd::prelude::*;

verus! {

/// One key with the value stored under it.
struct Slot<V> {
    key: Vec<u8>,
    value: V,
}

/// A map keyed by byte strings, kept sorted by key. No key occurs twice.
pub struct ByteMap<V> {
    slots: Vec<Slot<V>>,
}

/// Whether each element of `keys` comes strictly before all later ones.
pub open spec fn ascending(keys: Seq<Seq<u8>>) -> bool {
    forall|i: int, j: int|
        0 <= i < j < keys.len() ==> precedes(#[trigger] keys[i], #[trigger] keys[j])
}

/// In an ascending sequence a key stands at one position at most.
pub proof fn lemma_ascending_distinct(keys: Seq<Seq<u8>>, i: int, j: int)
    requires
        ascending(keys),
        0 <= i < keys.len(),
        0 <= j < keys.len(),
        keys[i] == keys[j],
    ensures
        i == j,
{
    lemma_precedes_total(keys[i], keys[j]);
    if i < j {
        assert(precedes(keys[i], keys[j]));
    } else if j < i {
        assert(precedes(keys[j], keys[i]));
    }
}

impl<V> ByteMap<V> {
    /// The keys, in the order in which they are held.
    pub closed spec fn keys(&self) -> Seq<Seq<u8>> {
        Seq::new(self.slots@.len(), |i: int| self.slots@[i].key@)
    }

    /// The values, each at the position of its key.
    pub closed spec fn values(&self) -> Seq<V> {
        Seq::new(self.slots@.len(), |i: int| self.slots@[i].value)
    }

    /// The invariant of the map: the keys ascend strictly.
    pub open spec fn wf(&self) -> bool {
        &&& self.keys().len() == self.values().len()
        &&& ascending(self.keys())
    }

    /// The map as a mathematical map.
    pub open spec fn view(&self) -> Map<Seq<u8>, V> {
        Map::new(
            |k: Seq<u8>| self.keys().contains(k),
            |k: Seq<u8>| self.values()[self.keys().index_of(k)],
        )
    }

    /// What is held at a position is what the map holds under that key.
    pub proof fn lemma_at(&self, i: int)
        requires
            self.wf(),
            0 <= i < self.keys().len(),
        ensures
            self@.contains_key(self.keys()[i]),
            self@[self.keys()[i]] == self.values()[i],
    {
        let k = self.keys()[i];
        assert(self.keys().contains(k));
        lemma_ascending_distinct(self.keys(), i, self.keys().index_of(k));
    }

    /// Every key of the map is held at some position.
    pub proof fn lemma_position(&self, k: Seq<u8>) -> (i: int)
        requires
            self.wf(),
            self@.contains_key(k),
        ensures
            0 <= i < self.keys().len(),
            self.keys()[i] == k,
            self@[k] == self.values()[i],
    {
        let i = self.keys().index_of(k);
        self.lemma_at(i);
        i
    }

    /// The number of keys is the number of positions.
    pub proof fn lemma_len(&self)
        requires
            self.wf(),
        ensures
            self@.dom().finite(),
            self@.dom().len() == self.keys().len(),
        decreases self.keys().len(),
    {
        let keys = self.keys();
        assert(self@.dom() =~= keys.to_set());
        vstd::seq_lib::seq_to_set_is_finite(keys);
        assert(keys.no_duplicates()) by {
            assert forall|i: int, j: int|
                0 <= i < keys.len() && 0 <= j < keys.len() && i != j implies keys[i] != keys[j] by {
                if keys[i] == keys[j] {
                    lemma_ascending_distinct(keys, i, j);
                }
            }
        }
        keys.unique_seq_to_set();
    }

    /// The keys are held in ascending order.
    pub proof fn lemma_keys_ascend(&self)
        requires
            self.wf(),
        ensures
            ascending(self.keys()),
    {
    }

    /// An empty map.
    pub fn new() -> (m: Self)
        ensures
            m.wf(),
            m@ == Map::<Seq<u8>, V>::empty(),
            m.keys().len() == 0,
    {
        let m = ByteMap { slots: Vec::new() };
        assert(m@ =~= Map::<Seq<u8>, V>::empty());
        m
    }

    /// The number of keys.
    pub fn len(&self) -> (n: usize)
        ensures
            n == self.keys().len(),
            n == self.values().len(),
            self.wf() ==> n == self@.dom().len(),
    {
        proof {
            if self.wf() {
                self.lemma_len();
            }
        }
        self.slots.len()
    }

    /// Whether the map holds no key.
    pub fn is_empty(&self) -> (b: bool)
        ensures
            b == (self.keys().len() == 0),
            self.wf() ==> b == (self@.dom().len() == 0),
    {
        proof {
            if self.wf() {
                self.lemma_len();
            }
        }
        self.slots.len() == 0
    }

    /// The key at position `i` of the ascending order.
    pub fn key_at(&self, i: usize) -> (k: &Vec<u8>)
        requires
            i < self.keys().len(),
        ensures
            k@ == self.keys()[i as int],
    {
        &self.slots[i].key
    }

    /// The value at position `i` of the ascending order.
    pub fn value_at(&self, i: usize) -> (v: &V)
        requires
            i < self.keys().len(),
        ensures
            *v == self.values()[i as int],
    {
        &self.slots[i].value
    }

    /// The first position whose key does not come before `key`, and whether
    /// the key at that position is `key` itself.
    fn locate(&self, key: &[u8]) -> (r: (usize, bool))
        requires
            self.wf(),
        ensures
            r.0 <= self.keys().len(),
            forall|i: int| 0 <= i < r.0 ==> precedes(#[trigger] self.keys()[i], key@),
            r.1 ==> r.0 < self.keys().len() && self.keys()[r.0 as int] == key@,
            !r.1 ==> forall|i: int|
                r.0 <= i < self.keys().len() ==> precedes(key@, #[trigger] self.keys()[i]),
            r.1 == self@.contains_key(key@),
    {
        let mut lo: usize = 0;
        let mut hi: usize = self.slots.len();
        while lo < hi
            invariant
                self.wf(),
                lo <= hi <= self.keys().len(),
                self.keys().len() == self.slots@.len(),
                forall|i: int| 0 <= i < lo ==> precedes(#[trigger] self.keys()[i], key@),
                forall|i: int|
                    hi <= i < self.keys().len() ==> precedes(key@, #[trigger] self.keys()[i]),
            decreases hi - lo,
        {
            let mid: usize = lo + (hi - lo) / 2;
            let ghost mid_key = self.keys()[mid as int];
            match compare(self.slots[mid].key.as_slice(), key) {
                Rank::Same => {
                    proof {
                        self.lemma_at(mid as int);
                    }
                    return (mid, true);
                },
                Rank::Before => {
                    assert forall|i: int| 0 <= i < mid + 1 implies precedes(
                        #[trigger] self.keys()[i],
                        key@,
                    ) by {
                        if i < mid {
                            assert(precedes(self.keys()[i], self.keys()[mid as int]));
                            lemma_precedes_transitive(self.keys()[i], mid_key, key@);
                        }
                    }
                    lo = mid + 1;
                },
                Rank::After => {
                    assert forall|i: int| mid <= i < self.keys().len() implies precedes(
                        key@,
                        #[trigger] self.keys()[i],
                    ) by {
                        if mid < i {
                            assert(precedes(self.keys()[mid as int], self.keys()[i]));
                            lemma_precedes_transitive(key@, mid_key, self.keys()[i]);
                        }
                    }
                    hi = mid;
                },
            }
        }
        proof {
            if self@.contains_key(key@) {
                let i = self.lemma_position(key@);
                lemma_precedes_total(key@, key@);
                if i < lo {
                    assert(precedes(self.keys()[i], key@));
                } else {
                    assert(precedes(key@, self.keys()[i]));
                }
            }
        }
        (lo, false)
    }

    /// Whether the map holds `key`.
    pub fn contains_key(&self, key: &[u8]) -> (b: bool)
        requires
            self.wf(),
        ensures
            b == self@.contains_key(key@),
    {
        let (_, found) = self.locate(key);
        found
    }

    /// The value stored under `key`, if there is one.
    pub fn get(&self, key: &[u8]) -> (r: Option<&V>)
        requires
            self.wf(),
        ensures
            r == (if self@.contains_key(key@) {
                Some(&self@[key@])
            } else {
                None
            }),
    {
        let (pos, found) = self.locate(key);
        if found {
            proof {
                self.lemma_at(pos as int);
            }
            Some(&self.slots[pos].value)
        } else {
            None
        }
    }

    /// Stores `value` under `key`, in place of what was stored there before.
    pub fn insert(&mut self, key: Vec<u8>, value: V)
        requires
            old(self).wf(),
        ensures
            final(self).wf(),
            final(self)@ == old(self)@.insert(key@, value),
    {
        let (pos, found) = self.locate(key.as_slice());
        let ghost before = *self;
        let ghost k = key@;
        if found {
            self.slots.remove(pos);
        }
        let ghost middle = *self;
        self.slots.insert(pos, Slot { key, value });
        proof {
            let after = *self;
            let shift: int = if found { 1 } else { 0 };
            assert(after.keys().len() == before.keys().len() + 1 - shift);
            assert forall|i: int| 0 <= i < after.keys().len() implies #[trigger] after.keys()[i]
                == (if i < pos {
                before.keys()[i]
            } else if i == pos {
                k
            } else {
                before.keys()[i - 1 + shift]
            }) && after.values()[i] == (if i < pos {
                before.values()[i]
            } else if i == pos {
                value
            } else {
                before.values()[i - 1 + shift]
            }) by {}
            assert forall|i: int| pos + shift <= i < before.keys().len() implies precedes(
                k,
                #[trigger] before.keys()[i],
            ) by {
                if found {
                    assert(precedes(before.keys()[pos as int], before.keys()[i]));
                }
            }
            assert(ascending(after.keys())) by {
                assert forall|i: int, j: int| 0 <= i < j < after.keys().len() implies precedes(
                    #[trigger] after.keys()[i],
                    #[trigger] after.keys()[j],
                ) by {
                    if j < pos {
                        assert(precedes(before.keys()[i], before.keys()[j]));
                    } else if j == pos {
                        assert(precedes(before.keys()[i], k));
                    } else if i < pos {
                        assert(precedes(before.keys()[i], before.keys()[j - 1 + shift]));
                    } else if i == pos {
                        assert(precedes(k, before.keys()[j - 1 + shift]));
                    } else {
                        assert(precedes(
                            before.keys()[i - 1 + shift],
                            before.keys()[j - 1 + shift],
                        ));
                    }
                }
            }
            let target = before@.insert(k, value);
            assert forall|x: Seq<u8>| #[trigger] after@.contains_key(x) implies target.contains_key(
                x,
            ) && after@[x] == target[x] by {
                let j = after.lemma_position(x);
                lemma_precedes_total(k, k);
                if j < pos {
                    before.lemma_at(j);
                } else if j > pos {
                    before.lemma_at(j - 1 + shift);
                    if before.keys()[j - 1 + shift] == k {
                        lemma_precedes_total(k, k);
                    }
                }
            }
            assert forall|x: Seq<u8>| #[trigger] target.contains_key(x) implies after@.contains_key(
                x,
            ) by {
                if x == k {
                    after.lemma_at(pos as int);
                } else {
                    let i = before.lemma_position(x);
                    if i < pos {
                        after.lemma_at(i);
                    } else {
                        after.lemma_at(i + 1 - shift);
                    }
                }
            }
            assert(after@ =~= target);
        }
    }

    /// Takes `key` and its value out of the map and returns the value.
    pub fn remove(&mut self, key: &[u8]) -> (r: Option<V>)
        requires
            old(self).wf(),
        ensures
            final(self).wf(),
            final(self)@ == old(self)@.remove(key@),
            r == (if old(self)@.contains_key(key@) {
                Some(old(self)@[key@])
            } else {
                None
            }),
    {
        let (pos, found) = self.locate(key);
        if !found {
            assert(self@ =~= self@.remove(key@));
            return None;
        }
        let ghost before = *self;
        proof {
            before.lemma_at(pos as int);
        }
        let slot = self.slots.remove(pos);
        proof {
            let after = *self;
            assert forall|i: int| 0 <= i < after.keys().len() implies #[trigger] after.keys()[i]
                == (if i < pos {
                before.keys()[i]
            } else {
                before.keys()[i + 1]
            }) && after.values()[i] == (if i < pos {
                before.values()[i]
            } else {
                before.values()[i + 1]
            }) by {}
            assert(ascending(after.keys())) by {
                assert forall|i: int, j: int| 0 <= i < j < after.keys().len() implies precedes(
                    #[trigger] after.keys()[i],
                    #[trigger] after.keys()[j],
                ) by {
                    let bi = if i < pos { i } else { i + 1 };
                    let bj = if j < pos { j } else { j + 1 };
                    assert(precedes(before.keys()[bi], before.keys()[bj]));
                }
            }
            let target = before@.remove(key@);
            assert forall|x: Seq<u8>| #[trigger] after@.contains_key(x) implies target.contains_key(
                x,
            ) && after@[x] == target[x] by {
                let j = after.lemma_position(x);
                let bj = if j < pos { j } else { j + 1 };
                before.lemma_at(bj);
                if x == key@ {
                    lemma_ascending_distinct(before.keys(), bj, pos as int);
                }
            }
            assert forall|x: Seq<u8>| #[trigger] target.contains_key(x) implies after@.contains_key(
                x,
            ) by {
                let i = before.lemma_position(x);
                if i < pos {
                    after.lemma_at(i);
                } else {
                    after.lemma_at(i - 1);
                }
            }
            assert(after@ =~= target);
        }
        Some(slot.value)
    }

    /// Takes every key out of the map.
    pub fn clear(&mut self)
        ensures
            final(self).wf(),
            final(self)@ == Map::<Seq<u8>, V>::empty(),
            final(self).keys().len() == 0,
    {
        self.slots.clear();
        assert(self@ =~= Map::<Seq<u8>, V>::empty());
    }
}

} // verus!
