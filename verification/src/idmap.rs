//! Maps keyed by identifiers, kept in increasing key order.

use vstd::prelude::*;
use crate::ids::{ids_view, strictly_sorted, search_sorted, lemma_sorted_insert, lemma_sorted_remove,
    lemma_sorted_no_duplicates};

verus! {

/// A map from identifiers to values, with keys in strictly increasing `str`
/// order.
#[derive(Debug, Clone, PartialEq, Eq)]
pub struct IdMap<V> {
    keys: Vec<String>,
    vals: Vec<V>,
}

impl<V: View> View for IdMap<V> {
    type V = Map<Seq<char>, V::V>;

    closed spec fn view(&self) -> Map<Seq<char>, V::V> {
        Map::new(
            |k: Seq<char>| ids_view(self.keys@).contains(k),
            |k: Seq<char>| self.vals@[ids_view(self.keys@).index_of(k)]@,
        )
    }
}

impl<T: View> DeepView for IdMap<T> {
    type V = Map<Seq<char>, T::V>;

    open spec fn deep_view(&self) -> Map<Seq<char>, T::V> {
        self@
    }
}

impl<V: View> IdMap<V> {
    /// The keys, in increasing order.
    pub closed spec fn keys_view(&self) -> Seq<Seq<char>> {
        ids_view(self.keys@)
    }

    /// The values, in key order.
    pub closed spec fn vals_view(&self) -> Seq<V::V> {
        self.vals@.map_values(|v: V| v@)
    }

    /// Well-formedness: one value per key, keys strictly increasing.
    pub closed spec fn wf(&self) -> bool {
        &&& self.keys@.len() == self.vals@.len()
        &&& strictly_sorted(ids_view(self.keys@))
    }

    /// How the key and value sequences make up the view.
    pub proof fn lemma_view(&self)
        requires
            self.wf(),
        ensures
            self.keys_view().len() == self.vals_view().len(),
            strictly_sorted(self.keys_view()),
            self@.dom() == self.keys_view().to_set(),
            self@.dom().finite(),
            self@.len() == self.keys_view().len(),
            forall|i: int|
                0 <= i < self.keys_view().len() ==> #[trigger] self@[self.keys_view()[i]]
                    == self.vals_view()[i],
    {
        let ks = self.keys_view();
        lemma_sorted_no_duplicates(ks);
        assert forall|i: int| 0 <= i < ks.len() implies #[trigger] self@[ks[i]] == self.vals_view()[i] by {
            assert(ks.contains(ks[i]));
            let j = ks.index_of(ks[i]);
            assert(0 <= j < ks.len() && ks[j] == ks[i]);
        }
        assert(self@.dom() =~= ks.to_set());
        ks.unique_seq_to_set();
    }

    /// The empty map.
    pub fn new() -> (r: Self)
        ensures
            r.wf(),
            r@ == Map::<Seq<char>, V::V>::empty(),
    {
        let r = IdMap { keys: Vec::new(), vals: Vec::new() };
        assert(ids_view(r.keys@) =~= Seq::<Seq<char>>::empty());
        assert(r@ =~= Map::<Seq<char>, V::V>::empty());
        r
    }

    /// Number of entries.
    pub fn len(&self) -> (n: usize)
        requires
            self.wf(),
        ensures
            n == self@.len(),
    {
        proof {
            self.lemma_view();
        }
        self.keys.len()
    }

    /// The key at position `i`.
    pub fn key_at(&self, i: usize) -> (r: &String)
        requires
            self.wf(),
            i < self@.len(),
        ensures
            r@ == self.keys_view()[i as int],
            self@.contains_key(r@),
    {
        proof {
            self.lemma_view();
            assert(self.keys_view().to_set().contains(self.keys_view()[i as int]));
        }
        &self.keys[i]
    }

    /// The value at position `i`.
    pub fn val_at(&self, i: usize) -> (r: &V)
        requires
            self.wf(),
            i < self@.len(),
        ensures
            r@ == self@[self.keys_view()[i as int]],
    {
        proof {
            self.lemma_view();
        }
        &self.vals[i]
    }

    /// The value under `k`.
    pub fn get(&self, k: &String) -> (r: Option<&V>)
        requires
            self.wf(),
        ensures
            match r {
                Some(v) => self@.contains_key(k@) && v@ == self@[k@],
                None => !self@.contains_key(k@),
            },
    {
        proof {
            self.lemma_view();
        }
        let (found, pos) = search_sorted(&self.keys, k);
        if found {
            Some(&self.vals[pos])
        } else {
            None
        }
    }

    /// True iff `k` has a value.
    pub fn contains_key(&self, k: &String) -> (b: bool)
        requires
            self.wf(),
        ensures
            b == self@.contains_key(k@),
    {
        proof {
            self.lemma_view();
        }
        search_sorted(&self.keys, k).0
    }

    /// Sets the value under `k`, replacing any earlier one.
    pub fn insert(&mut self, k: String, v: V)
        requires
            old(self).wf(),
        ensures
            final(self).wf(),
            final(self)@ == old(self)@.insert(k@, v@),
    {
        proof {
            self.lemma_view();
        }
        let ghost m = self@;
        let ghost ks = self.keys_view();
        let ghost vs = self.vals_view();
        let ghost kv = k@;
        let ghost vv = v@;
        let (found, pos) = search_sorted(&self.keys, &k);
        if found {
            self.vals.set(pos, v);
            proof {
                assert(self.keys_view() == ks);
                assert(self.vals_view() =~= vs.update(pos as int, vv));
                self.lemma_view();
                lemma_sorted_no_duplicates(ks);
                assert forall|x: Seq<char>| #[trigger] self@.contains_key(x) implies m.insert(kv, vv).contains_key(x)
                    && self@[x] == m.insert(kv, vv)[x] by {
                    let i = choose|i: int| 0 <= i < ks.len() && ks[i] == x;
                }
                assert(self@ =~= m.insert(kv, vv));
            }
        } else {
            self.keys.insert(pos, k);
            self.vals.insert(pos, v);
            proof {
                assert(self.keys_view() =~= ks.insert(pos as int, kv));
                assert(self.vals_view() =~= vs.insert(pos as int, vv));
                lemma_sorted_insert(ks, pos as int, kv);
                self.lemma_view();
                let nk = self.keys_view();
                assert forall|x: Seq<char>| #[trigger] self@.contains_key(x) implies m.insert(kv, vv).contains_key(x)
                    && self@[x] == m.insert(kv, vv)[x] by {
                    let i = choose|i: int| 0 <= i < nk.len() && nk[i] == x;
                    if i < pos {
                        assert(ks[i] == x);
                    } else if i > pos {
                        assert(ks[i - 1] == x);
                    }
                }
                assert forall|x: Seq<char>| m.insert(kv, vv).contains_key(x) implies #[trigger] self@.contains_key(x) by {
                    assert(nk.to_set() == ks.to_set().insert(kv));
                }
                assert(self@ =~= m.insert(kv, vv));
            }
        }
    }

    /// Removes the value under `k`; returns whether there was one.
    pub fn remove(&mut self, k: &String) -> (removed: bool)
        requires
            old(self).wf(),
        ensures
            final(self).wf(),
            removed == old(self)@.contains_key(k@),
            final(self)@ == old(self)@.remove(k@),
    {
        proof {
            self.lemma_view();
        }
        let ghost m = self@;
        let ghost ks = self.keys_view();
        let ghost vs = self.vals_view();
        let (found, pos) = search_sorted(&self.keys, k);
        if !found {
            assert(m.remove(k@) =~= m);
            return false;
        }
        self.keys.remove(pos);
        self.vals.remove(pos);
        proof {
            assert(self.keys_view() =~= ks.remove(pos as int));
            assert(self.vals_view() =~= vs.remove(pos as int));
            lemma_sorted_remove(ks, pos as int);
            lemma_sorted_no_duplicates(ks);
            self.lemma_view();
            let nk = self.keys_view();
            assert forall|x: Seq<char>| #[trigger] self@.contains_key(x) implies m.remove(k@).contains_key(x)
                && self@[x] == m.remove(k@)[x] by {
                let i = choose|i: int| 0 <= i < nk.len() && nk[i] == x;
                if i < pos {
                    assert(ks[i] == x);
                } else {
                    assert(ks[i + 1] == x);
                }
            }
            assert forall|x: Seq<char>| m.remove(k@).contains_key(x) implies #[trigger] self@.contains_key(x) by {
                assert(nk.to_set() == ks.to_set().remove(ks[pos as int]));
            }
            assert(self@ =~= m.remove(k@));
        }
        true
    }

    /// Removes every entry.
    pub fn clear(&mut self)
        ensures
            final(self).wf(),
            final(self)@ == Map::<Seq<char>, V::V>::empty(),
    {
        self.keys = Vec::new();
        self.vals = Vec::new();
        assert(ids_view(self.keys@) =~= Seq::<Seq<char>>::empty());
        assert(self@ =~= Map::<Seq<char>, V::V>::empty());
    }
}

} // verus!
