use crate::abstraction::Abstraction;
use crate::histogram::Histogram;
use crate::sum::total;
use vstd::prelude::*;

verus! {

/// A histogram read as a probability measure over abstractions: the
/// probability of an abstraction is its weight over the total mass, so
/// every probability is a fraction with the common denominator `mass`.
pub struct Potential {
    hist: Histogram,
}

impl Potential {
    pub closed spec fn wf(&self) -> bool {
        self.hist.wf() && self.hist.spec_mass() > 0
    }

    /// The histogram whose normalisation this is.
    pub closed spec fn base(&self) -> Histogram {
        self.hist
    }

    /// Normalises a histogram of positive mass.
    pub fn from_histogram(h: &Histogram) -> (r: Potential)
        requires
            h.wf(),
            h.spec_mass() > 0,
        ensures
            r.wf(),
            r.base()@ == h@,
            r.base().spec_mass() == h.spec_mass(),
            r.base().ids() == h.ids(),
            r.base().weights() == h.weights(),
    {
        let hist = h.duplicate();
        proof {
            hist.lemma_histogram();
            h.lemma_histogram();
            assert(hist.ids() =~= h.ids()) by {
                hist_same_order(&hist, h);
            }
            assert forall|i: int| 0 <= i < h.weights().len() implies hist.weights()[i] == h.weights()[i] by {
                assert(hist@.contains_key(hist.ids()[i]));
                assert(h@.contains_key(h.ids()[i]));
            }
            assert(hist.weights() =~= h.weights());
        }
        Potential { hist }
    }

    /// The common denominator of all probabilities: the total mass.
    pub fn denominator(&self) -> (r: u64)
        requires
            self.wf(),
        ensures
            r == self.base().spec_mass(),
            r > 0,
    {
        self.hist.mass()
    }

    /// Numerator of the probability of `a`, over `denominator`.
    pub fn density(&self, a: &Abstraction) -> (r: u64)
        requires
            self.wf(),
        ensures
            r == self.base().count(a.spec_id()),
    {
        self.hist.weight(a)
    }

    /// The abstractions of positive probability, in increasing order.
    pub fn support(&self) -> (r: Vec<Abstraction>)
        requires
            self.wf(),
        ensures
            r@.len() == self.base().ids().len(),
            forall|i: int| 0 <= i < r@.len() ==> #[trigger] r@[i].spec_id() == self.base().ids()[i],
    {
        self.hist.support()
    }

    /// Numerators of the probabilities, in the order of `support`. They add
    /// up to the denominator: the probabilities sum to one.
    pub fn values(&self) -> (r: Vec<u64>)
        requires
            self.wf(),
        ensures
            r@.len() == self.base().ids().len(),
            forall|i: int| 0 <= i < r@.len() ==> #[trigger] r@[i] == self.base().weights()[i],
            total(r@.map_values(|v: u64| v as int)) == self.base().spec_mass(),
    {
        let n = self.hist.len();
        let mut out: Vec<u64> = Vec::new();
        let mut i: usize = 0;
        while i < n
            invariant
                self.wf(),
                n == self.hist.ids().len(),
                i <= n,
                out@.len() == i,
                forall|j: int| 0 <= j < i ==> #[trigger] out@[j] == self.hist.weights()[j],
            decreases n - i,
        {
            out.push(self.hist.weight_at(i));
            i = i + 1;
        }
        proof {
            self.hist.lemma_histogram();
            assert(out@.map_values(|v: u64| v as int) =~= self.hist.weights());
        }
        out
    }
}

/// Two well-formed histograms with the same view list the same support.
proof fn hist_same_order(a: &Histogram, b: &Histogram)
    requires
        a.wf(),
        b.wf(),
        a@ == b@,
    ensures
        a.ids() == b.ids(),
{
    a.lemma_histogram();
    b.lemma_histogram();
    let xs = a.ids();
    let ys = b.ids();
    assert forall|i: int| 0 <= i < xs.len() implies xs[i] == ys[i] by {
        // both are the sorted listing of one finite set
        lemma_sorted_rank(xs, ys, i);
    }
    assert(xs =~= ys);
}

/// In two strictly increasing sequences holding the same values, the
/// `i`th elements agree.
proof fn lemma_sorted_rank(xs: Seq<u64>, ys: Seq<u64>, i: int)
    requires
        xs.len() == ys.len(),
        0 <= i < xs.len(),
        forall|a: int, b: int| 0 <= a < b < xs.len() ==> xs[a] < xs[b],
        forall|a: int, b: int| 0 <= a < b < ys.len() ==> ys[a] < ys[b],
        forall|k: u64| xs.contains(k) <==> ys.contains(k),
    ensures
        xs[i] == ys[i],
    decreases i,
{
    if i > 0 {
        lemma_sorted_rank(xs, ys, i - 1);
    }
    assert(xs.contains(xs[i]));
    let j = choose|j: int| 0 <= j < ys.len() && ys[j] == xs[i];
    assert(ys.contains(ys[i]));
    let l = choose|l: int| 0 <= l < xs.len() && xs[l] == ys[i];
    if j < i {
        // ys[j] lies among the first i, which equal xs's first i
        assert forall|t: int| 0 <= t < i implies xs[t] == ys[t] by {
            lemma_sorted_rank(xs, ys, t);
        }
        assert(xs[j] == ys[j]);
    } else if j > i {
        if l < i {
            assert forall|t: int| 0 <= t < i implies xs[t] == ys[t] by {
                lemma_sorted_rank(xs, ys, t);
            }
            assert(ys[l] == xs[l]);
        }
    }
}

} // verus!
