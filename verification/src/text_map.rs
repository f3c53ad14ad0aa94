//! A map keyed by text, held as a list of entries in the order of their
//! keys: every key occurs once, and a walk over the map goes through the
//! keys in lexicographic order.

use crate::text::{
    compare_text, lemma_text_lt_transitive, lemma_text_order_equal, lemma_text_order_flip,
    text_lt, TextOrder,
};
use vstd::prelude::*;

verus! {

/// A map from text to `V`.
#[derive(Debug)]
pub struct TextMap<V> {
    entries: Vec<(String, V)>,
}

/// Each key comes strictly before the keys behind it.
pub open spec fn strictly_ordered(keys: Seq<Seq<char>>) -> bool {
    forall|i: int, j: int| 0 <= i < j < keys.len() ==> text_lt(#[trigger] keys[i], #[trigger] keys[j])
}

/// No text comes strictly before itself.
pub proof fn lemma_text_lt_irreflexive(a: Seq<char>)
    ensures
        !text_lt(a, a),
{
    lemma_text_order_equal(a, a);
}

/// In a strictly ordered list every key stands at one index only.
pub proof fn lemma_ordered_index(keys: Seq<Seq<char>>, i: int)
    requires
        strictly_ordered(keys),
        0 <= i < keys.len(),
    ensures
        keys.contains(keys[i]),
        keys.index_of(keys[i]) == i,
        forall|j: int| 0 <= j < keys.len() && keys[j] == keys[i] ==> j == i,
{
    assert forall|j: int| 0 <= j < keys.len() && keys[j] == keys[i] implies j == i by {
        lemma_text_lt_irreflexive(keys[i]);
        if j < i {
            assert(text_lt(keys[j], keys[i]));
        } else if i < j {
            assert(text_lt(keys[i], keys[j]));
        }
    }
    assert(keys.contains(keys[i]));
}

impl<V> TextMap<V> {
    #[verifier::type_invariant]
    spec fn ordered(self) -> bool {
        forall|i: int, j: int|
            0 <= i < j < self.entries.len() ==> text_lt(
                #[trigger] self.entries[i].0@,
                #[trigger] self.entries[j].0@,
            )
    }

    /// The keys of the map, in their order.
    pub closed spec fn keys(&self) -> Seq<Seq<char>> {
        self.entries@.map_values(|e: (String, V)| e.0@)
    }
}

impl<V: View> View for TextMap<V> {
    type V = Map<Seq<char>, V::V>;

    closed spec fn view(&self) -> Map<Seq<char>, V::V> {
        Map::new(
            |k: Seq<char>| self.keys().contains(k),
            |k: Seq<char>| self.entries[self.keys().index_of(k)].1@,
        )
    }
}

impl<V: View> TextMap<V> {
    /// The keys of the map are the texts that `keys` lists.
    pub proof fn lemma_keys_domain(&self)
        ensures
            forall|k: Seq<char>| self@.contains_key(k) <==> self.keys().contains(k),
    {
    }

    /// What an ordered map holds at the key of its entry `i`: the value of
    /// that entry.
    proof fn lemma_entry(&self, i: int)
        requires
            self.ordered(),
            0 <= i < self.entries.len(),
        ensures
            self@.contains_key(self.entries[i].0@),
            self@[self.entries[i].0@] == self.entries[i].1@,
    {
        assert(strictly_ordered(self.keys()));
        lemma_ordered_index(self.keys(), i);
    }

    /// Creates an empty map.
    pub fn new() -> (m: Self)
        ensures
            m@ == Map::<Seq<char>, V::V>::empty(),
            m.keys().len() == 0,
    {
        let m = TextMap { entries: Vec::new() };
        assert(m@ =~= Map::<Seq<char>, V::V>::empty());
        m
    }

    /// The number of entries: the number of keys of the map. The keys are
    /// strictly ordered: each stands at one index.
    pub fn len(&self) -> (n: usize)
        ensures
            n == self.keys().len(),
            strictly_ordered(self.keys()),
            self@.dom().finite(),
            n == self@.dom().len(),
    {
        proof {
            use_type_invariant(self);
            let keys = self.keys();
            assert(strictly_ordered(keys));
            assert(keys.no_duplicates()) by {
                assert forall|i: int, j: int|
                    0 <= i < keys.len() && 0 <= j < keys.len() && i != j implies keys[i]
                    != keys[j] by {
                    lemma_ordered_index(keys, i);
                }
            }
            assert(keys.to_set() =~= self@.dom());
            keys.unique_seq_to_set();
            vstd::seq_lib::seq_to_set_is_finite(keys);
        }
        self.entries.len()
    }

    /// The key of the entry at `i`.
    pub fn key(&self, i: usize) -> (k: &String)
        requires
            i < self.keys().len(),
        ensures
            k@ == self.keys()[i as int],
            self@.contains_key(k@),
    {
        proof {
            use_type_invariant(self);
            assert(strictly_ordered(self.keys()));
            lemma_ordered_index(self.keys(), i as int);
        }
        &self.entries[i].0
    }

    /// The value of the entry at `i`.
    pub fn value(&self, i: usize) -> (v: &V)
        requires
            i < self.keys().len(),
        ensures
            self@.contains_key(self.keys()[i as int]),
            v@ == self@[self.keys()[i as int]],
    {
        proof {
            use_type_invariant(self);
            assert(strictly_ordered(self.keys()));
            lemma_ordered_index(self.keys(), i as int);
        }
        &self.entries[i].1
    }

    /// The value that `key` maps to, if the map holds the key.
    pub fn get(&self, key: &str) -> (r: Option<&V>)
        ensures
            match r {
                Some(v) => self@.contains_key(key@) && v@ == self@[key@],
                None => !self@.contains_key(key@),
            },
    {
        proof {
            use_type_invariant(self);
            assert(strictly_ordered(self.keys()));
        }
        let mut k: usize = 0;
        while k < self.entries.len()
            invariant
                k <= self.entries.len(),
                strictly_ordered(self.keys()),
                forall|i: int| 0 <= i < k ==> text_lt(#[trigger] self.keys()[i], key@),
            decreases self.entries.len() - k,
        {
            let o = compare_text(self.entries[k].0.as_str(), key);
            if o == TextOrder::Equal {
                proof {
                    lemma_text_order_equal(self.keys()[k as int], key@);
                    lemma_ordered_index(self.keys(), k as int);
                }
                return Some(&self.entries[k].1);
            } else if o == TextOrder::Greater {
                proof {
                    lemma_text_order_flip(self.keys()[k as int], key@);
                    self.lemma_absent(key@, k as int);
                }
                return None;
            }
            k += 1;
        }
        proof {
            self.lemma_absent(key@, k as int);
        }
        None
    }

    /// A key that falls between the entries before `k` and those from `k`
    /// on is no key of the map.
    proof fn lemma_absent(&self, key: Seq<char>, k: int)
        requires
            0 <= k <= self.keys().len(),
            strictly_ordered(self.keys()),
            forall|i: int| 0 <= i < k ==> text_lt(#[trigger] self.keys()[i], key),
            k < self.keys().len() ==> text_lt(key, self.keys()[k]),
        ensures
            !self@.contains_key(key),
    {
        lemma_text_lt_irreflexive(key);
        if self.keys().contains(key) {
            let i = choose|i: int| 0 <= i < self.keys().len() && self.keys()[i] == key;
            if i > k {
                assert(text_lt(self.keys()[k], self.keys()[i]));
                lemma_text_lt_transitive(key, self.keys()[k], self.keys()[i]);
            }
        }
    }

    /// Maps `key` to `value`. An entry that the key had is replaced.
    pub fn insert(&mut self, key: String, value: V)
        ensures
            final(self)@ == old(self)@.insert(key@, value@),
    {
        proof {
            use_type_invariant(&*self);
            assert(strictly_ordered(self.keys()));
        }
        let ghost before = *self;
        let ghost old_keys = self.keys();
        let ghost entry = (key, value);
        let mut entries: Vec<(String, V)> = Vec::new();
        std::mem::swap(&mut self.entries, &mut entries);
        let ghost old_entries = entries@;
        let mut k: usize = 0;
        while k < entries.len() && compare_text(entries[k].0.as_str(), key.as_str())
            == TextOrder::Less
            invariant
                k <= entries.len(),
                forall|i: int| 0 <= i < k ==> text_lt(#[trigger] entries[i].0@, key@),
            decreases entries.len() - k,
        {
            k += 1;
        }
        if k < entries.len() && compare_text(entries[k].0.as_str(), key.as_str())
            == TextOrder::Equal {
            proof {
                lemma_text_order_equal(entries[k as int].0@, key@);
            }
            entries.set(k, (key, value));
            proof {
                assert forall|i: int, j: int| 0 <= i < j < entries.len() implies text_lt(
                    #[trigger] entries[i].0@,
                    #[trigger] entries[j].0@,
                ) by {
                    assert(text_lt(old_entries[i].0@, old_entries[j].0@));
                }
            }
            self.entries = entries;
            proof {
                let target = before@.insert(entry.0@, entry.1@);
                assert(self.keys() =~= old_keys);
                assert(old_keys[k as int] == entry.0@);
                assert forall|x: Seq<char>| self@.contains_key(x) <==> target.contains_key(
                    x,
                ) by {}
                assert forall|x: Seq<char>| #[trigger] self@.contains_key(x) implies self@[x]
                    == target[x] by {
                    let i = choose|i: int| 0 <= i < old_keys.len() && old_keys[i] == x;
                    self.lemma_entry(i);
                    before.lemma_entry(i);
                    if i != k {
                        lemma_ordered_index(old_keys, k as int);
                    }
                }
                assert(self@ =~= target);
            }
        } else {
            proof {
                if k < entries.len() {
                    lemma_text_order_flip(entries[k as int].0@, key@);
                    lemma_text_order_equal(entries[k as int].0@, key@);
                }
            }
            entries.insert(k, (key, value));
            proof {
                assert forall|i: int, j: int| 0 <= i < j < entries.len() implies text_lt(
                    #[trigger] entries[i].0@,
                    #[trigger] entries[j].0@,
                ) by {
                    if j < k {
                        assert(text_lt(old_entries[i].0@, old_entries[j].0@));
                    } else if j == k {
                    } else if i < k {
                        assert(text_lt(old_entries[i].0@, old_entries[j - 1].0@));
                    } else if i == k {
                        if j - 1 > k {
                            assert(text_lt(old_entries[k as int].0@, old_entries[j - 1].0@));
                            lemma_text_lt_transitive(
                                entry.0@,
                                old_entries[k as int].0@,
                                old_entries[j - 1].0@,
                            );
                        }
                    } else {
                        assert(text_lt(old_entries[i - 1].0@, old_entries[j - 1].0@));
                    }
                }
            }
            self.entries = entries;
            proof {
                let new_keys = self.keys();
                assert(new_keys =~= old_keys.insert(k as int, entry.0@));
                assert(strictly_ordered(new_keys));
                assert forall|x: Seq<char>| new_keys.contains(x) <==> (x == entry.0@
                    || old_keys.contains(x)) by {
                    if new_keys.contains(x) {
                        let i = choose|i: int| 0 <= i < new_keys.len() && new_keys[i] == x;
                        if i < k {
                            assert(old_keys[i] == x);
                        } else if i > k {
                            assert(old_keys[i - 1] == x);
                        }
                    }
                    if x == entry.0@ {
                        assert(new_keys[k as int] == x);
                    }
                    if old_keys.contains(x) {
                        let i = choose|i: int| 0 <= i < old_keys.len() && old_keys[i] == x;
                        if i < k {
                            assert(new_keys[i] == x);
                        } else {
                            assert(new_keys[i + 1] == x);
                        }
                    }
                }
                let target = before@.insert(entry.0@, entry.1@);
                assert(new_keys[k as int] == entry.0@);
                assert forall|x: Seq<char>| #[trigger] self@.contains_key(x) implies self@[x]
                    == target[x] by {
                    let i = choose|i: int| 0 <= i < new_keys.len() && new_keys[i] == x;
                    self.lemma_entry(i);
                    lemma_ordered_index(new_keys, i);
                    if i < k {
                        assert(old_keys[i] == x);
                        before.lemma_entry(i);
                    } else if i > k {
                        assert(old_keys[i - 1] == x);
                        before.lemma_entry(i - 1);
                    }
                }
                assert(self@ =~= target);
            }
        }
    }
}

} // verus!
