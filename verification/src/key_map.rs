//! A map from public keys that is walked in the order of the keys' encodings.

use vstd::prelude::*;
use crate::bytes;
use crate::bytes::precedes;
use crate::secp::PublicKey;

verus! {

/// The keys of a map stand in strictly ascending order.
pub open spec fn ascending(keys: Seq<Seq<u8>>) -> bool {
    forall|i: int, j: int|
        0 <= i < j < keys.len() ==> bytes::lex_less(#[trigger] keys[i], #[trigger] keys[j])
}

/// Ascending keys are determined by which ones they are.
pub proof fn lemma_ascending_unique(keys: Seq<Seq<u8>>, other: Seq<Seq<u8>>)
    requires
        ascending(keys),
        ascending(other),
        forall|key: Seq<u8>| #[trigger] keys.contains(key) <==> other.contains(key),
    ensures
        keys == other,
    decreases keys.len(),
{
    if keys.len() == 0 {
        if other.len() > 0 {
            assert(other.contains(other[0]));
            assert(keys.contains(other[0]));
        }
        assert(keys =~= other);
    } else {
        let n = keys.len() - 1;
        let m = other.len() - 1;
        assert(keys.contains(keys[n]));
        let j = choose|j: int| 0 <= j < other.len() && other[j] == keys[n];
        assert(other.contains(other[m]));
        assert(keys.contains(other[m]));
        let i = choose|i: int| 0 <= i < keys.len() && keys[i] == other[m];
        if j < m {
            assert(bytes::lex_less(other[j], other[m]));
            if i < n {
                bytes::lemma_lex_asymmetric(keys[i], keys[n]);
            } else {
                bytes::lemma_lex_asymmetric(keys[n], keys[n]);
            }
        }
        assert(keys[n] == other[m]);
        let rest = keys.drop_last();
        let other_rest = other.drop_last();
        assert forall|key: Seq<u8>| #[trigger]
            rest.contains(key) <==> other_rest.contains(key) by {
            if rest.contains(key) {
                let k = choose|k: int| 0 <= k < rest.len() && rest[k] == key;
                assert(keys[k] == key);
                assert(keys.contains(key));
                let l = choose|l: int| 0 <= l < other.len() && other[l] == key;
                if l == m {
                    bytes::lemma_lex_asymmetric(keys[k], keys[n]);
                }
                assert(other_rest[l] == key);
            }
            if other_rest.contains(key) {
                let l = choose|l: int| 0 <= l < other_rest.len() && other_rest[l] == key;
                assert(other[l] == key);
                assert(other.contains(key));
                assert(keys.contains(key));
                let k = choose|k: int| 0 <= k < keys.len() && keys[k] == key;
                if k == n {
                    bytes::lemma_lex_asymmetric(other[l], other[m]);
                }
                assert(rest[k] == key);
            }
        }
        lemma_ascending_unique(rest, other_rest);
        assert(keys =~= rest.push(keys[n]));
        assert(other =~= other_rest.push(other[m]));
    }
}

/// A map from public keys to values, ordered by the keys' encodings.
#[derive(Debug, PartialEq, Eq)]
pub struct KeyMap<V> {
    entries: Vec<(PublicKey, V)>,
}

impl<V> View for KeyMap<V> {
    type V = Map<Seq<u8>, V>;

    closed spec fn view(&self) -> Map<Seq<u8>, V> {
        Map::new(
            |key: Seq<u8>| self.keys().contains(key),
            |key: Seq<u8>| self.entries@[self.keys().index_of(key)].1,
        )
    }
}

impl<V> KeyMap<V> {
    /// The keys of the map, in the order in which it is walked.
    pub closed spec fn keys(self) -> Seq<Seq<u8>> {
        self.entries@.map_values(|entry: (PublicKey, V)| entry.0@)
    }

    #[verifier::type_invariant]
    spec fn ordered(self) -> bool {
        ascending(self.keys())
    }

    /// The empty map.
    pub fn new() -> (res: Self)
        ensures
            res@ == Map::<Seq<u8>, V>::empty(),
            res.keys().len() == 0,
    {
        let res = KeyMap { entries: Vec::new() };
        assert(res@ =~= Map::<Seq<u8>, V>::empty());
        res
    }

    /// The number of keys. The keys that the map is walked by are ascending, and are those that it
    /// holds.
    pub fn len(&self) -> (res: usize)
        ensures
            res == self.keys().len(),
            self@.dom().finite(),
            res == self@.dom().len(),
            ascending(self.keys()),
            forall|key: Seq<u8>| self@.contains_key(key) <==> #[trigger] self.keys().contains(key),
    {
        proof {
            use_type_invariant(self);
            let keys = self.keys();
            assert forall|i: int, j: int|
                0 <= i < keys.len() && 0 <= j < keys.len() && i != j implies keys[i]
                != keys[j] by {
                if i < j {
                    bytes::lemma_lex_asymmetric(keys[i], keys[j]);
                } else {
                    bytes::lemma_lex_asymmetric(keys[j], keys[i]);
                }
            }
            keys.unique_seq_to_set();
            assert(self@.dom() =~= keys.to_set());
        }
        self.entries.len()
    }

    /// Whether the map holds no key.
    pub fn is_empty(&self) -> (res: bool)
        ensures
            res == (self.keys().len() == 0),
            res == (self@ == Map::<Seq<u8>, V>::empty()),
    {
        let res = self.entries.len() == 0;
        proof {
            if res {
                assert(self@ =~= Map::<Seq<u8>, V>::empty());
            } else {
                assert(self.keys().contains(self.keys()[0]));
                assert(self@.contains_key(self.keys()[0]));
            }
        }
        res
    }

    /// The key and the value at a position of the walk.
    pub fn at(&self, i: usize) -> (res: (&PublicKey, &V))
        requires
            i < self.keys().len(),
        ensures
            res.0@ == self.keys()[i as int],
            self@.contains_key(res.0@),
            self@[res.0@] == *res.1,
    {
        proof {
            use_type_invariant(self);
            self.lemma_index(i as int);
        }
        let entry = &self.entries[i];
        (&entry.0, &entry.1)
    }

    proof fn lemma_index(self, i: int)
        requires
            self.ordered(),
            0 <= i < self.keys().len(),
        ensures
            self.keys().index_of(self.keys()[i]) == i,
            self@.contains_key(self.keys()[i]),
            self@[self.keys()[i]] == self.entries@[i].1,
    {
        let keys = self.keys();
        assert(keys.contains(keys[i]));
        let j = keys.index_of(keys[i]);
        if i < j {
            bytes::lemma_lex_asymmetric(keys[i], keys[j]);
        } else if j < i {
            bytes::lemma_lex_asymmetric(keys[j], keys[i]);
        }
    }

    /// The position of the first key that does not precede `key`.
    fn position(&self, key: &PublicKey) -> (res: usize)
        ensures
            self.ordered(),
            res <= self.keys().len(),
            forall|i: int| 0 <= i < res ==> bytes::lex_less(#[trigger] self.keys()[i], key@),
            res < self.keys().len() ==> !bytes::lex_less(self.keys()[res as int], key@),
            self@.contains_key(key@) <==> res < self.keys().len() && self.keys()[res as int]
                == key@,
    {
        proof {
            use_type_invariant(self);
        }
        let ghost keys = self.keys();
        let bytes = key.serialize();
        let mut i: usize = 0;
        while i < self.entries.len()
            invariant
                i <= self.entries@.len(),
                keys == self.keys(),
                bytes@ == key@,
                forall|j: int| 0 <= j < i ==> bytes::lex_less(#[trigger] keys[j], key@),
            ensures
                i <= self.entries@.len(),
                forall|j: int| 0 <= j < i ==> bytes::lex_less(#[trigger] keys[j], key@),
                i < self.entries@.len() ==> !bytes::lex_less(keys[i as int], key@),
            decreases self.entries@.len() - i,
        {
            let entry_bytes = self.entries[i].0.serialize();
            if !precedes(&entry_bytes, &bytes) {
                break;
            }
            i += 1;
        }
        proof {
            if self@.contains_key(key@) {
                let j = choose|j: int| 0 <= j < keys.len() && keys[j] == key@;
                if j < i {
                    bytes::lemma_lex_asymmetric(keys[j], key@);
                } else if i < j {
                    assert(bytes::lex_less(keys[i as int], keys[j]));
                }
            }
        }
        i
    }

    /// The value of a key.
    pub fn get(&self, key: &PublicKey) -> (res: Option<&V>)
        ensures
            match res {
                Some(value) => self@.contains_key(key@) && *value == self@[key@],
                None => !self@.contains_key(key@),
            },
    {
        let i = self.position(key);
        if i < self.entries.len() && self.entries[i].0.same(key) {
            proof {
                self.lemma_index(i as int);
            }
            Some(&self.entries[i].1)
        } else {
            None
        }
    }

    /// Sets the value of a key.
    pub fn insert(&mut self, key: PublicKey, value: V)
        ensures
            final(self)@ == old(self)@.insert(key@, value),
    {
        let ghost before = *self;
        let i = self.position(&key);
        let replace = i < self.entries.len() && self.entries[i].0.same(&key);
        let mut entries: Vec<(PublicKey, V)> = Vec::new();
        core::mem::swap(&mut self.entries, &mut entries);
        if replace {
            entries.remove(i);
        }
        entries.insert(i, (key, value));
        proof {
            before.lemma_insert(KeyMap { entries }, i as int, key, value, replace);
        }
        self.entries = entries;
    }

    /// What `insert` puts together is an ordered map, and holds the new value.
    proof fn lemma_insert(
        self,
        map: KeyMap<V>,
        i: int,
        key: PublicKey,
        value: V,
        replace: bool,
    )
        requires
            self.ordered(),
            0 <= i <= self.entries@.len(),
            forall|j: int| 0 <= j < i ==> bytes::lex_less(#[trigger] self.keys()[j], key@),
            i < self.entries@.len() ==> !bytes::lex_less(self.keys()[i], key@),
            replace == (i < self.entries@.len() && self.keys()[i] == key@),
            map.entries@ == (if replace {
                self.entries@.remove(i).insert(i, (key, value))
            } else {
                self.entries@.insert(i, (key, value))
            }),
        ensures
            map.ordered(),
            map@ == self@.insert(key@, value),
    {
        let keys = self.keys();
        let shift: int = if replace {
            0
        } else {
            1
        };
        let new_keys = map.keys();
        assert(forall|j: int| 0 <= j < i ==> new_keys[j] == keys[j]);
        assert(new_keys[i] == key@);
        assert(forall|j: int|
            i < j < new_keys.len() ==> #[trigger] new_keys[j] == keys[j - shift]);
        if i < keys.len() {
            bytes::lemma_lex_total(keys[i], key@);
        }
        assert forall|j: int, k: int| 0 <= j < k < new_keys.len() implies bytes::lex_less(
            #[trigger] new_keys[j],
            #[trigger] new_keys[k],
        ) by {
            if k == i {
                assert(bytes::lex_less(keys[j], key@));
            } else if j == i {
                if k - shift > i {
                    assert(bytes::lex_less(keys[i], keys[k - shift]));
                    if !replace {
                        bytes::lemma_lex_transitive(key@, keys[i], keys[k - shift]);
                    }
                }
            } else {
                let from = if j < i {
                    j
                } else {
                    j - shift
                };
                let to = if k < i {
                    k
                } else {
                    k - shift
                };
                assert(bytes::lex_less(keys[from], keys[to]));
            }
        }
        assert(map.ordered());
        let after = self@.insert(key@, value);
        assert forall|k: Seq<u8>| map@.contains_key(k) <==> after.contains_key(k) by {
            if map@.contains_key(k) {
                let j = choose|j: int| 0 <= j < new_keys.len() && new_keys[j] == k;
                if j < i {
                    assert(keys[j] == k);
                    assert(keys.contains(k));
                } else if j > i {
                    assert(keys[j - shift] == k);
                    assert(keys.contains(k));
                }
            }
            if self@.contains_key(k) && k != key@ {
                let j = choose|j: int| 0 <= j < keys.len() && keys[j] == k;
                if j < i {
                    assert(new_keys[j] == k);
                } else {
                    assert(new_keys[j + shift] == k);
                }
                assert(new_keys.contains(k));
            }
            if k == key@ {
                assert(new_keys.contains(new_keys[i]));
            }
        }
        assert forall|k: Seq<u8>| map@.contains_key(k) implies map@[k] == after[k] by {
            let j = choose|j: int| 0 <= j < new_keys.len() && new_keys[j] == k;
            map.lemma_index(j);
            if j < i {
                self.lemma_index(j);
                bytes::lemma_lex_asymmetric(keys[j], key@);
            } else if j > i {
                self.lemma_index(j - shift);
                bytes::lemma_lex_asymmetric(new_keys[i], new_keys[j]);
            }
        }
        assert(map@ =~= after);
    }
}

impl<V: Copy> Clone for KeyMap<V> {
    /// A map with the same keys and values.
    fn clone(&self) -> (res: Self)
        ensures
            res@ == self@,
            res.keys() == self.keys(),
    {
        proof {
            use_type_invariant(self);
        }
        let mut entries: Vec<(PublicKey, V)> = Vec::new();
        let mut i: usize = 0;
        while i < self.entries.len()
            invariant
                i <= self.entries@.len(),
                entries@ == self.entries@.take(i as int),
            decreases self.entries@.len() - i,
        {
            entries.push(self.entries[i]);
            i += 1;
            assert(self.entries@.take(i as int) =~= self.entries@.take(i - 1).push(
                self.entries@[i - 1],
            ));
        }
        assert(entries@ =~= self.entries@);
        let res = KeyMap { entries };
        assert(res.keys() =~= self.keys());
        assert(res@ =~= self@);
        res
    }
}

} // verus!
