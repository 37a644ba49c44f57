use crate::abstraction::{id_of, valid_id, Abstraction};
use crate::sum::total;
use crate::table::Table;
use vstd::prelude::*;

verus! {

/// Number of times the identity `k` occurs in `s`.
pub open spec fn occurrences(s: Seq<Abstraction>, k: u64) -> nat
    decreases s.len(),
{
    if s.len() == 0 {
        0
    } else {
        occurrences(s.drop_last(), k) + if s.last().spec_id() == k {
            1nat
        } else {
            0nat
        }
    }
}

/// The largest total mass a histogram holds.
pub const MAX_MASS: u64 = 0xFFFF_FFFF;

/// A finite distribution of integer weight over abstractions: how many of a
/// parent observation's children fall into each abstraction. Only
/// abstractions of non-zero weight are held, in increasing identity order.
pub struct Histogram {
    counts: Table,
}

impl View for Histogram {
    type V = Map<u64, u64>;

    closed spec fn view(&self) -> Map<u64, u64> {
        self.counts@
    }
}

impl Histogram {
    pub closed spec fn wf(&self) -> bool {
        &&& self.counts.wf()
        &&& forall|k: u64| #[trigger]
            self.counts@.contains_key(k) ==> self.counts@[k] > 0 && valid_id(k)
        &&& self.counts.mass() <= MAX_MASS
    }

    /// Identities of the support, in increasing order.
    pub closed spec fn ids(&self) -> Seq<u64> {
        self.counts.keys()
    }

    /// Weights of the support, in the order of `ids`.
    pub closed spec fn weights(&self) -> Seq<int> {
        self.counts.vals()
    }

    /// Total mass: the sum of all weights.
    pub closed spec fn spec_mass(&self) -> int {
        self.counts.mass()
    }

    /// Weight of an identity, zero outside the support.
    pub open spec fn count(&self, k: u64) -> int {
        if self@.contains_key(k) {
            self@[k] as int
        } else {
            0
        }
    }

    /// What a well-formed histogram's view, support, weights and mass say of
    /// each other.
    pub proof fn lemma_histogram(&self)
        requires
            self.wf(),
        ensures
            self.ids().len() == self.weights().len(),
            self.ids().len() <= self.spec_mass() <= MAX_MASS,
            self.spec_mass() == total(self.weights()),
            forall|i: int, j: int| 0 <= i < j < self.ids().len() ==> self.ids()[i] < self.ids()[j],
            forall|i: int|
                0 <= i < self.ids().len() ==> self@.contains_key(#[trigger] self.ids()[i])
                    && self@[self.ids()[i]] == self.weights()[i] && 1 <= self.weights()[i]
                    <= self.spec_mass() && valid_id(self.ids()[i]),
            forall|k: u64| self@.contains_key(k) <==> self.ids().contains(k),
            forall|k: u64| #[trigger] self@.contains_key(k) ==> self@[k] > 0 && valid_id(k),
            self@.dom().finite(),
            self@.dom().len() == self.ids().len(),
    {
        self.counts.lemma_table();
        assert forall|i: int| 0 <= i < self.weights().len() implies self.weights()[i] >= 1 by {
            assert(self.counts@.contains_key(self.counts.keys()[i]));
        }
        crate::sum::lemma_total_at_least_len(self.weights());
        crate::sum::lemma_total_bounds(self.weights());
    }

    pub fn new() -> (r: Histogram)
        ensures
            r.wf(),
            r@ == Map::<u64, u64>::empty(),
            r.spec_mass() == 0,
    {
        Histogram { counts: Table::new() }
    }

    /// Total mass.
    pub fn mass(&self) -> (r: u64)
        requires
            self.wf(),
        ensures
            r == self.spec_mass(),
    {
        proof {
            self.lemma_histogram();
            self.counts.lemma_table();
            assert(self.weights().subrange(0, 0) =~= Seq::<int>::empty());
            assert forall|k: int| 0 <= k < self.weights().len() implies self.weights()[k] >= 0 by {
                assert(self@.contains_key(self.ids()[k]));
            }
        }
        let n = self.counts.len();
        let mut sum: u64 = 0;
        let mut i: usize = 0;
        while i < n
            invariant
                self.wf(),
                n == self.ids().len(),
                n == self.weights().len(),
                n == self.counts.size(),
                i <= n,
                sum == total(self.weights().subrange(0, i as int)),
                self.spec_mass() == total(self.weights()),
                self.spec_mass() <= MAX_MASS,
                forall|k: int| 0 <= k < n ==> self.weights()[k] >= 0,
            decreases n - i,
        {
            proof {
                crate::sum::lemma_total_prefix(self.weights(), i as int);
            }
            sum = sum + self.counts.value_at(i);
            i = i + 1;
        }
        proof {
            assert(self.weights().subrange(0, n as int) =~= self.weights());
        }
        sum
    }

    /// Number of abstractions of non-zero weight.
    pub fn len(&self) -> (r: usize)
        requires
            self.wf(),
        ensures
            r == self.ids().len(),
    {
        proof {
            self.counts.lemma_table();
        }
        self.counts.len()
    }

    pub fn is_empty(&self) -> (r: bool)
        requires
            self.wf(),
        ensures
            r <==> self@ == Map::<u64, u64>::empty(),
    {
        proof {
            self.lemma_histogram();
            self.counts.lemma_table();
            if self.ids().len() > 0 {
                assert(self@.contains_key(self.ids()[0]));
                assert(!Map::<u64, u64>::empty().contains_key(self.ids()[0]));
            } else {
                assert forall|k: u64| !self@.contains_key(k) by {
                    if self@.contains_key(k) {
                        assert(self.ids().contains(k));
                    }
                }
                assert(self@ =~= Map::<u64, u64>::empty());
            }
        }
        self.counts.len() == 0
    }

    /// Identity of the `i`th abstraction of the support.
    pub fn id_at(&self, i: usize) -> (r: u64)
        requires
            self.wf(),
            i < self.ids().len(),
        ensures
            r == self.ids()[i as int],
    {
        proof {
            self.counts.lemma_table();
        }
        self.counts.key_at(i)
    }

    /// Weight of the `i`th abstraction of the support.
    pub fn weight_at(&self, i: usize) -> (r: u64)
        requires
            self.wf(),
            i < self.ids().len(),
        ensures
            r == self.weights()[i as int],
    {
        proof {
            self.counts.lemma_table();
        }
        self.counts.value_at(i)
    }

    /// Weight of an abstraction, zero outside the support.
    pub fn weight(&self, a: &Abstraction) -> (r: u64)
        requires
            self.wf(),
        ensures
            r == self.count(a.spec_id()),
    {
        match self.counts.get(a.id()) {
            Some(w) => w,
            None => 0,
        }
    }

    /// Gives `a` the weight `w`; weight zero takes it out of the support.
    pub fn set(&mut self, a: &Abstraction, w: u64)
        requires
            old(self).wf(),
            a.wf(),
            old(self).spec_mass() - old(self).count(a.spec_id()) + w <= MAX_MASS,
        ensures
            final(self).wf(),
            final(self)@ == (if w == 0 {
                old(self)@.remove(a.spec_id())
            } else {
                old(self)@.insert(a.spec_id(), w)
            }),
            final(self).spec_mass() == old(self).spec_mass() - old(self).count(a.spec_id()) + w,
    {
        if w == 0 {
            self.counts.remove(a.id());
        } else {
            self.counts.insert(a.id(), w);
        }
    }

    /// Adds `w` to the weight of the abstraction with identity `k`.
    fn add(&mut self, k: u64, w: u64)
        requires
            old(self).wf(),
            valid_id(k),
            w > 0,
            old(self).spec_mass() + w <= MAX_MASS,
        ensures
            final(self).wf(),
            final(self)@.dom() == old(self)@.dom().insert(k),
            forall|q: u64| #[trigger]
                final(self).count(q) == old(self).count(q) + if q == k {
                    w as int
                } else {
                    0
                },
            final(self).spec_mass() == old(self).spec_mass() + w,
    {
        proof {
            self.lemma_histogram();
        }
        let prior = match self.counts.get(k) {
            Some(v) => v,
            None => 0,
        };
        proof {
            if self@.contains_key(k) {
                assert(self.ids().contains(k));
                let i = choose|i: int| 0 <= i < self.ids().len() && self.ids()[i] == k;
                assert(self.weights()[i] <= self.spec_mass());
            }
        }
        self.counts.insert(k, prior + w);
        proof {
            assert(self@.dom() =~= old(self)@.dom().insert(k));
        }
    }

    /// Adds every weight of `other` into this histogram.
    pub fn absorb(&mut self, other: &Histogram)
        requires
            old(self).wf(),
            other.wf(),
            old(self).spec_mass() + other.spec_mass() <= MAX_MASS,
        ensures
            final(self).wf(),
            final(self).spec_mass() == old(self).spec_mass() + other.spec_mass(),
            final(self)@.dom() == old(self)@.dom().union(other@.dom()),
            forall|k: u64| #[trigger] final(self).count(k) == old(self).count(k) + other.count(k),
    {
        let n = other.len();
        let ghost start = *self;
        let mut i: usize = 0;
        proof {
            other.lemma_histogram();
            assert(other.weights().subrange(0, 0) =~= Seq::<int>::empty());
            assert(total(Seq::<int>::empty()) == 0);
        }
        while i < n
            invariant
                self.wf(),
                other.wf(),
                start.wf(),
                n == other.ids().len(),
                i <= n,
                start.spec_mass() + other.spec_mass() <= MAX_MASS,
                self.spec_mass() == start.spec_mass() + total(other.weights().subrange(0, i as int)),
                forall|k: u64| #[trigger]
                    self.count(k) == start.count(k) + if other.ids().subrange(0, i as int).contains(
                        k,
                    ) {
                        other.count(k)
                    } else {
                        0
                    },
                self@.dom() == start@.dom().union(other.ids().subrange(0, i as int).to_set()),
            decreases n - i,
        {
            proof {
                other.lemma_histogram();
                assert forall|k: int| 0 <= k < n implies other.weights()[k] >= 0 by {
                    assert(other@.contains_key(other.ids()[k]));
                }
                crate::sum::lemma_total_prefix(other.weights(), i as int);
            }
            let k = other.id_at(i);
            let w = other.weight_at(i);
            let ghost before = *self;
            self.add(k, w);
            proof {
                let pre = other.ids().subrange(0, i as int);
                let post = other.ids().subrange(0, i as int + 1);
                assert(post =~= pre.push(k));
                assert(!pre.contains(k)) by {
                    if pre.contains(k) {
                        let j = choose|j: int| 0 <= j < pre.len() && pre[j] == k;
                        assert(other.ids()[j] < other.ids()[i as int]);
                    }
                }
                assert forall|q: u64| #[trigger]
                    self.count(q) == start.count(q) + if post.contains(q) {
                        other.count(q)
                    } else {
                        0
                    } by {
                    if q == k {
                        assert(post[i as int] == k);
                        assert(other@.contains_key(other.ids()[i as int]));
                    } else {
                        assert(before.count(q) == self.count(q));
                        if post.contains(q) {
                            let j = choose|j: int| 0 <= j < post.len() && post[j] == q;
                            assert(pre[j] == q);
                        }
                    }
                }
                assert(post.to_set() =~= pre.to_set().insert(k));
                assert(self@.dom() =~= start@.dom().union(post.to_set()));
            }
            i = i + 1;
        }
        proof {
            other.lemma_histogram();
            assert(other.ids().subrange(0, n as int) =~= other.ids());
            assert(other.weights().subrange(0, n as int) =~= other.weights());
            assert(other.ids().to_set() =~= other@.dom());
        }
    }

    /// A histogram with the same weights.
    pub fn duplicate(&self) -> (r: Histogram)
        requires
            self.wf(),
        ensures
            r.wf(),
            r@ == self@,
            r.spec_mass() == self.spec_mass(),
    {
        let mut r = Histogram::new();
        r.absorb(self);
        proof {
            assert forall|k: u64| r@.contains_key(k) implies r@[k] == self@[k] by {
                assert(r.count(k) == self.count(k));
            }
            assert(r@ =~= self@);
        }
        r
    }

    /// Identities of the support as abstractions, in increasing order.
    pub fn support(&self) -> (r: Vec<Abstraction>)
        requires
            self.wf(),
        ensures
            r@.len() == self.ids().len(),
            forall|i: int| 0 <= i < r@.len() ==> #[trigger] r@[i].spec_id() == self.ids()[i] && r@[i].wf(),
    {
        let n = self.len();
        let mut out: Vec<Abstraction> = Vec::new();
        let mut i: usize = 0;
        while i < n
            invariant
                self.wf(),
                n == self.ids().len(),
                i <= n,
                out@.len() == i,
                forall|j: int| 0 <= j < i ==> #[trigger] out@[j].spec_id() == self.ids()[j] && out@[j].wf(),
            decreases n - i,
        {
            proof {
                self.lemma_histogram();
            }
            let k = self.id_at(i);
            match Abstraction::from_id(k) {
                Some(a) => out.push(a),
                None => {
                    proof {
                        assert(valid_id(self.ids()[i as int]));
                    }
                },
            }
            i = i + 1;
        }
        out
    }

    /// Counts a list of abstractions: each occurrence adds one to its weight.
    pub fn from_abstractions(v: &Vec<Abstraction>) -> (r: Histogram)
        requires
            v@.len() <= MAX_MASS,
            forall|i: int| 0 <= i < v@.len() ==> #[trigger] v@[i].wf(),
        ensures
            r.wf(),
            r.spec_mass() == v@.len(),
            forall|k: u64| #[trigger] r.count(k) == occurrences(v@, k),
    {
        let mut h = Histogram::new();
        let mut i: usize = 0;
        while i < v.len()
            invariant
                h.wf(),
                i <= v@.len(),
                v@.len() <= MAX_MASS,
                forall|i: int| 0 <= i < v@.len() ==> #[trigger] v@[i].wf(),
                h.spec_mass() == i,
                forall|k: u64| #[trigger] h.count(k) == occurrences(v@.subrange(0, i as int), k),
            decreases v@.len() - i,
        {
            let a = v[i];
            proof {
                assert(v@[i as int].wf());
            }
            h.add(a.id(), 1);
            proof {
                assert(v@.subrange(0, i as int + 1).drop_last() =~= v@.subrange(0, i as int));
                assert forall|k: u64| #[trigger] h.count(k) == occurrences(v@.subrange(0, i as int + 1), k) by {
                    assert(occurrences(v@.subrange(0, i as int + 1), k) == occurrences(v@.subrange(0, i as int), k) + if a.spec_id() == k { 1nat } else { 0nat });
                }
            }
            i = i + 1;
        }
        proof {
            assert(v@.subrange(0, v@.len() as int) =~= v@);
        }
        h
    }
}

} // verus!
