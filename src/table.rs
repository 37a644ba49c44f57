use crate::sum::{lemma_total_insert, lemma_total_remove, lemma_total_update, total};
use vstd::prelude::*;

verus! {

/// A finite map from `u64` keys to `u64` values, held as entries in strictly
/// increasing key order, so that walking it visits keys from smallest up.
pub struct Table {
    entries: Vec<(u64, u64)>,
}

impl View for Table {
    type V = Map<u64, u64>;

    closed spec fn view(&self) -> Map<u64, u64> {
        Map::new(
            |k: u64| exists|i: int| 0 <= i < self.entries@.len() && self.entries@[i].0 == k,
            |k: u64|
                self.entries@[choose|i: int| 0 <= i < self.entries@.len() && self.entries@[i].0 == k].1,
        )
    }
}

impl Table {
    pub closed spec fn wf(&self) -> bool {
        forall|i: int, j: int|
            0 <= i < j < self.entries@.len() ==> self.entries@[i].0 < self.entries@[j].0
    }

    /// The keys, in increasing order.
    pub closed spec fn keys(&self) -> Seq<u64> {
        self.entries@.map_values(|e: (u64, u64)| e.0)
    }

    /// The values, in the order of their keys.
    pub closed spec fn vals(&self) -> Seq<int> {
        self.entries@.map_values(|e: (u64, u64)| e.1 as int)
    }

    pub closed spec fn size(&self) -> nat {
        self.entries@.len()
    }

    /// Sum of the values.
    pub open spec fn mass(&self) -> int {
        total(self.vals())
    }

    /// What a well-formed table's view, keys and values say of each other.
    pub proof fn lemma_table(&self)
        requires
            self.wf(),
        ensures
            self.keys().len() == self.size(),
            self.vals().len() == self.size(),
            forall|i: int, j: int| 0 <= i < j < self.size() ==> self.keys()[i] < self.keys()[j],
            forall|i: int|
                0 <= i < self.size() ==> self@.contains_key(#[trigger] self.keys()[i]) && self@[self.keys()[i]]
                    == self.vals()[i] && 0 <= self.vals()[i] <= u64::MAX,
            forall|k: u64| self@.contains_key(k) <==> self.keys().contains(k),
            self@.dom().finite(),
            self@.dom().len() == self.size(),
    {
        assert forall|i: int| 0 <= i < self.size() implies self@.contains_key(#[trigger] self.keys()[i])
            && self@[self.keys()[i]] == self.vals()[i] && 0 <= self.vals()[i] <= u64::MAX by {
            self.lemma_entry(i);
        }
        self.lemma_keys();
    }

    proof fn lemma_entry(&self, i: int)
        requires
            self.wf(),
            0 <= i < self.size(),
        ensures
            self@.contains_key(self.keys()[i]),
            self@[self.keys()[i]] == self.vals()[i],
    {
        let k = self.entries@[i].0;
        let j = choose|j: int| 0 <= j < self.entries@.len() && self.entries@[j].0 == k;
        assert(0 <= j < self.entries@.len() && self.entries@[j].0 == k);
        assert(j == i);
    }

    proof fn lemma_keys(&self)
        requires
            self.wf(),
        ensures
            forall|k: u64| self@.contains_key(k) <==> self.keys().contains(k),
            self@.dom().finite(),
            self@.dom().len() == self.size(),
    {
        assert forall|k: u64| self@.contains_key(k) <==> self.keys().contains(k) by {
            if self@.contains_key(k) {
                let i = choose|i: int| 0 <= i < self.entries@.len() && self.entries@[i].0 == k;
                assert(self.keys()[i] == k);
            }
            if self.keys().contains(k) {
                let i = choose|i: int| 0 <= i < self.keys().len() && self.keys()[i] == k;
                assert(self.entries@[i].0 == k);
            }
        }
        assert(self@.dom() =~= self.keys().to_set());
        self.keys().unique_seq_to_set();
    }

    pub fn new() -> (r: Table)
        ensures
            r.wf(),
            r@ == Map::<u64, u64>::empty(),
            r.size() == 0,
            r.mass() == 0,
    {
        let r = Table { entries: Vec::new() };
        assert(r@ =~= Map::<u64, u64>::empty());
        r
    }

    pub fn len(&self) -> (r: usize)
        ensures
            r == self.size(),
    {
        self.entries.len()
    }

    pub fn key_at(&self, i: usize) -> (r: u64)
        requires
            i < self.size(),
        ensures
            r == self.keys()[i as int],
    {
        self.entries[i].0
    }

    pub fn value_at(&self, i: usize) -> (r: u64)
        requires
            i < self.size(),
        ensures
            r == self.vals()[i as int],
    {
        self.entries[i].1
    }

    /// Index of the first key that is not below `k`.
    fn position(&self, k: u64) -> (r: usize)
        requires
            self.wf(),
        ensures
            r <= self.size(),
            forall|j: int| 0 <= j < r ==> self.entries@[j].0 < k,
            r < self.size() ==> self.entries@[r as int].0 >= k,
    {
        let mut lo: usize = 0;
        let mut hi: usize = self.entries.len();
        while lo < hi
            invariant
                self.wf(),
                lo <= hi <= self.entries@.len(),
                forall|j: int| 0 <= j < lo ==> self.entries@[j].0 < k,
                forall|j: int| hi <= j < self.entries@.len() ==> self.entries@[j].0 >= k,
            decreases hi - lo,
        {
            let mid = lo + (hi - lo) / 2;
            if self.entries[mid].0 < k {
                lo = mid + 1;
            } else {
                hi = mid;
            }
        }
        lo
    }

    pub fn get(&self, k: u64) -> (r: Option<u64>)
        requires
            self.wf(),
        ensures
            r == (if self@.contains_key(k) { Some(self@[k]) } else { None::<u64> }),
    {
        let i = self.position(k);
        if i < self.entries.len() && self.entries[i].0 == k {
            proof {
                self.lemma_entry(i as int);
            }
            Some(self.entries[i].1)
        } else {
            proof {
                if self@.contains_key(k) {
                    let j = choose|j: int| 0 <= j < self.entries@.len() && self.entries@[j].0 == k;
                    if j >= i {
                        assert(self.entries@[i as int].0 <= self.entries@[j].0);
                    }
                }
            }
            None
        }
    }

    pub fn insert(&mut self, k: u64, v: u64)
        requires
            old(self).wf(),
        ensures
            final(self).wf(),
            final(self)@ == old(self)@.insert(k, v),
            final(self).mass() == old(self).mass() + v - (if old(self)@.contains_key(k) {
                old(self)@[k] as int
            } else {
                0
            }),
    {
        let i = self.position(k);
        let ghost before = *self;
        if i < self.entries.len() && self.entries[i].0 == k {
            proof {
                before.lemma_entry(i as int);
            }
            self.entries.set(i, (k, v));
            proof {
                assert(self.vals() =~= before.vals().update(i as int, v as int));
                lemma_total_update(before.vals(), i as int, v as int);
                assert forall|j: int| 0 <= j < self.entries@.len() && self.entries@[j].0 == k implies j
                    == i by {
                    if j != i {
                        assert(before.entries@[j].0 == k);
                    }
                }
                assert forall|q: u64| #[trigger] self@.contains_key(q) <==> before@.insert(k, v).contains_key(q) by {
                    if self@.contains_key(q) && q != k {
                        let j = choose|j: int| 0 <= j < self.entries@.len() && self.entries@[j].0 == q;
                        assert(before.entries@[j].0 == q);
                    }
                    if before@.contains_key(q) && q != k {
                        let j = choose|j: int| 0 <= j < before.entries@.len() && before.entries@[j].0 == q;
                        assert(self.entries@[j].0 == q);
                    }
                    if q == k {
                        assert(self.entries@[i as int].0 == k);
                    }
                }
                assert forall|q: u64| #[trigger] self@.contains_key(q) implies self@[q] == before@.insert(k, v)[q] by {
                    let j = choose|j: int| 0 <= j < self.entries@.len() && self.entries@[j].0 == q;
                    self.lemma_entry(j);
                    if q != k {
                        before.lemma_entry(j);
                    }
                }
                assert(self@ =~= before@.insert(k, v));
            }
        } else {
            self.entries.insert(i, (k, v));
            proof {
                assert(!before@.contains_key(k)) by {
                    if before@.contains_key(k) {
                        let j = choose|j: int| 0 <= j < before.entries@.len() && before.entries@[j].0 == k;
                        if j >= i {
                            assert(before.entries@[i as int].0 <= before.entries@[j].0);
                        }
                    }
                }
                assert(self.vals() =~= before.vals().insert(i as int, v as int));
                lemma_total_insert(before.vals(), i as int, v as int);
                assert forall|q: u64| #[trigger] self@.contains_key(q) implies before@.insert(k, v).contains_key(q) by {
                    if q != k {
                        let j = choose|j: int| 0 <= j < self.entries@.len() && self.entries@[j].0 == q;
                        assert(j != i);
                        if j < i {
                            assert(before.entries@[j].0 == q);
                        } else {
                            assert(before.entries@[j - 1].0 == q);
                        }
                    }
                }
                assert forall|q: u64| #[trigger] before@.insert(k, v).contains_key(q) implies self@.contains_key(q) by {
                    if q == k {
                        assert(self.entries@[i as int].0 == k);
                    } else {
                        let j = choose|j: int| 0 <= j < before.entries@.len() && before.entries@[j].0 == q;
                        if j < i {
                            assert(self.entries@[j].0 == q);
                        } else {
                            assert(self.entries@[j + 1].0 == q);
                        }
                    }
                }
                assert forall|q: u64| #[trigger] self@.contains_key(q) implies self@[q] == before@.insert(k, v)[q] by {
                    let j = choose|j: int| 0 <= j < self.entries@.len() && self.entries@[j].0 == q;
                    self.lemma_entry(j);
                    if j < i {
                        before.lemma_entry(j);
                    } else if j > i {
                        before.lemma_entry(j - 1);
                    }
                }
                assert(self@ =~= before@.insert(k, v));
            }
        }
    }

    pub fn remove(&mut self, k: u64)
        requires
            old(self).wf(),
        ensures
            final(self).wf(),
            final(self)@ == old(self)@.remove(k),
            final(self).mass() == old(self).mass() - (if old(self)@.contains_key(k) {
                old(self)@[k] as int
            } else {
                0
            }),
    {
        let i = self.position(k);
        let ghost before = *self;
        if i < self.entries.len() && self.entries[i].0 == k {
            proof {
                before.lemma_entry(i as int);
            }
            self.entries.remove(i);
            proof {
                assert(self.vals() =~= before.vals().remove(i as int));
                lemma_total_remove(before.vals(), i as int);
                assert forall|q: u64| #[trigger] self@.contains_key(q) <==> before@.remove(k).contains_key(q) by {
                    if self@.contains_key(q) {
                        let j = choose|j: int| 0 <= j < self.entries@.len() && self.entries@[j].0 == q;
                        if j < i {
                            assert(before.entries@[j].0 == q);
                        } else {
                            assert(before.entries@[j + 1].0 == q);
                        }
                    }
                    if before@.contains_key(q) && q != k {
                        let j = choose|j: int| 0 <= j < before.entries@.len() && before.entries@[j].0 == q;
                        if j < i {
                            assert(self.entries@[j].0 == q);
                        } else {
                            assert(j != i);
                            assert(self.entries@[j - 1].0 == q);
                        }
                    }
                }
                assert forall|q: u64| #[trigger] self@.contains_key(q) implies self@[q] == before@.remove(k)[q] by {
                    let j = choose|j: int| 0 <= j < self.entries@.len() && self.entries@[j].0 == q;
                    self.lemma_entry(j);
                    if j < i {
                        before.lemma_entry(j);
                    } else {
                        before.lemma_entry(j + 1);
                    }
                }
                assert(self@ =~= before@.remove(k));
            }
        } else {
            proof {
                assert(!before@.contains_key(k)) by {
                    if before@.contains_key(k) {
                        let j = choose|j: int| 0 <= j < before.entries@.len() && before.entries@[j].0 == k;
                        if j >= i {
                            assert(before.entries@[i as int].0 <= before.entries@[j].0);
                        }
                    }
                }
                assert(self@ =~= before@.remove(k));
            }
        }
    }
}

} // verus!
