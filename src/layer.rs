use crate::abstraction::{id_of, label, label_of, pair_key, Abstraction, MAX_CENTROIDS};
use crate::histogram::{Histogram, MAX_MASS};
use crate::cards::{least, lemma_represents_least, Observation};
use crate::lookup::{projection, river_encoder, rivers, unencoded, Lookup};
use crate::metric::{Metric, MAX_DISTANCE};
use crate::street::Street;
use crate::sum::{lemma_total_bounds, lemma_total_prefix, total};
use rand::distributions::Distribution;
use rand::Rng;
use vstd::prelude::*;

verus! {

/// Relies on rand's `Rng::gen_range` over `0..n`, which yields a value of
/// the range and panics only on an empty one.
#[verifier::external_body]
fn random_index(n: usize) -> (r: usize)
    requires
        n > 0,
    ensures
        r < n,
{
    rand::thread_rng().gen_range(0..n)
}

/// Relies on rand's `WeightedIndex`: `new` fails only on no items or a zero
/// total, and `sample` yields the index of an item of positive weight.
#[verifier::external_body]
fn weighted_index(weights: &Vec<u128>) -> (r: usize)
    requires
        weights@.len() > 0,
        0 < total(weights@.map_values(|w: u128| w as int)) <= u128::MAX,
    ensures
        r < weights@.len(),
        weights@[r as int] > 0,
{
    let index = rand::distributions::WeightedIndex::new(weights.iter()).expect("positive total weight");
    index.sample(&mut rand::thread_rng())
}

/// Masses of a sequence of histograms.
pub open spec fn masses(hs: Seq<Histogram>) -> Seq<int> {
    hs.map_values(|h: Histogram| h.spec_mass())
}

/// Some point holds the identity in its support.
pub open spec fn in_basis(points: Seq<Histogram>, id: u64) -> bool {
    exists|p: int| 0 <= p < points.len() && #[trigger] points[p]@.contains_key(id)
}

/// The metric knows every pair of identities that the points hold.
pub open spec fn spans(metric: Metric, points: Seq<Histogram>) -> bool {
    forall|a: u64, b: u64|
        #![trigger in_basis(points, a), in_basis(points, b)]
        in_basis(points, a) && in_basis(points, b) ==> metric.knows(a, b)
}

/// The support of `h` lies within what the points hold.
pub open spec fn within(h: Histogram, points: Seq<Histogram>) -> bool {
    forall|id: u64| #[trigger] h@.contains_key(id) ==> in_basis(points, id)
}

/// Weight of identity `k` pooled into centroid `c` by the first `n` points,
/// each point going to the centroid that `to` names for it.
pub open spec fn pooled(points: Seq<Histogram>, to: Seq<(usize, u64)>, c: int, k: u64, n: nat) -> int
    decreases n,
{
    if n == 0 {
        0
    } else {
        pooled(points, to, c, k, (n - 1) as nat) + if to[n - 1].0 == c {
            points[n - 1].count(k)
        } else {
            0
        }
    }
}

/// The encoder after the first `n` isomorphisms are assigned the
/// abstraction of the centroid that `to` names for them.
pub open spec fn assigned(
    street: Street,
    m: Map<u64, u64>,
    isos: Seq<u64>,
    to: Seq<(usize, u64)>,
    n: nat,
) -> Map<u64, u64>
    decreases n,
{
    if n == 0 {
        m
    } else {
        assigned(street, m, isos, to, (n - 1) as nat).insert(
            isos[n - 1],
            id_of(street, label_of(to[n - 1].0 as u64)),
        )
    }
}

proof fn lemma_assigned(street: Street, m: Map<u64, u64>, isos: Seq<u64>, to: Seq<(usize, u64)>, n: nat)
    requires
        n <= isos.len(),
        n <= to.len(),
    ensures
        forall|q: int| 0 <= q < n ==> #[trigger] assigned(street, m, isos, to, n).contains_key(isos[q]),
    decreases n,
{
    if n > 0 {
        lemma_assigned(street, m, isos, to, (n - 1) as nat);
        let prev = assigned(street, m, isos, to, (n - 1) as nat);
        assert forall|q: int| 0 <= q < n implies #[trigger] assigned(street, m, isos, to, n).contains_key(
            isos[q],
        ) by {
            if q < n - 1 {
                assert(prev.contains_key(isos[q]));
            }
        }
    }
}

/// Sum of the squared distances of the first `n` assignments.
pub open spec fn squares(to: Seq<(usize, u64)>, n: nat) -> int
    decreases n,
{
    if n == 0 {
        0
    } else {
        squares(to, (n - 1) as nat) + to[n - 1].1 * to[n - 1].1
    }
}

/// No identity is pooled into centroid `c` by the first `n` points.
pub open spec fn pooled_empty(points: Seq<Histogram>, to: Seq<(usize, u64)>, c: int, n: nat) -> bool {
    forall|k: u64| #[trigger] pooled(points, to, c, k, n) == 0
}

/// The value the encoder holds for `isos[p]` after the first `n`
/// assignments, when no later one of them names the same isomorphism.
proof fn lemma_assigned_last(
    street: Street,
    m: Map<u64, u64>,
    isos: Seq<u64>,
    to: Seq<(usize, u64)>,
    n: nat,
    p: int,
)
    requires
        n <= isos.len(),
        n <= to.len(),
        0 <= p < n,
        forall|q: int| p < q < n ==> isos[q] != isos[p],
    ensures
        assigned(street, m, isos, to, n)[isos[p]] == id_of(street, label_of(to[p].0 as u64)),
    decreases n,
{
    if p < n - 1 {
        lemma_assigned_last(street, m, isos, to, (n - 1) as nat, p);
    }
}

/// Symmetrised distance between centroids `a` and `b`: the mean of the
/// greedy distances both ways, rounded down.
pub open spec fn symmetric(metric: Metric, x: Histogram, y: Histogram) -> int {
    (metric.emd_of(&x, &y) + metric.emd_of(&y, &x)) / 2
}

/// Key of the pair of the `a`th and `b`th learned abstractions of a street.
pub open spec fn centroid_key(street: Street, a: int, b: int) -> u64 {
    pair_key(id_of(street, label_of(a as u64)), id_of(street, label_of(b as u64)))
}

/// Two different pairs of distinct centroid indices below `k` share a key.
pub open spec fn collide(street: Street, k: int) -> bool {
    exists|a: int, b: int, x: int, y: int|
        0 <= b < a < k && 0 <= y < x < k && (a != x || b != y) && #[trigger] centroid_key(street, a, b)
            == #[trigger] centroid_key(street, x, y)
}

/// The pair `(x, y)` comes before `(a, b)` in the order the metric is built.
pub open spec fn earlier(x: int, y: int, a: int, b: int) -> bool {
    0 <= y < x && (x < a || (x == a && y < b))
}

/// After the assignment step every point sits with a nearest centroid: no
/// centroid is nearer, and every centroid of smaller index is farther.
pub proof fn lemma_assignment_is_argmin(layer: &Layer, to: Seq<(usize, u64)>)
    requires
        layer.kmeans@.len() > 0,
        to.len() == layer.points@.len(),
        forall|p: int|
            0 <= p < to.len() ==> #[trigger] to[p].0 == layer.nearest_of(
                layer.points@[p],
                layer.kmeans@.len(),
            ),
    ensures
        forall|p: int, c: int|
            0 <= p < to.len() && 0 <= c < layer.kmeans@.len() ==> layer.gap(
                layer.points@[p],
                to[p].0 as int,
            ) <= #[trigger] layer.gap(layer.points@[p], c),
        forall|p: int, c: int|
            0 <= p < to.len() && 0 <= c < to[p].0 ==> layer.gap(layer.points@[p], to[p].0 as int)
                < #[trigger] layer.gap(layer.points@[p], c),
{
    assert forall|p: int, c: int|
        0 <= p < to.len() && 0 <= c < layer.kmeans@.len() implies layer.gap(
        layer.points@[p],
        to[p].0 as int,
    ) <= #[trigger] layer.gap(layer.points@[p], c) by {
        layer.lemma_nearest_of(layer.points@[p], layer.kmeans@.len());
    }
    assert forall|p: int, c: int|
        0 <= p < to.len() && 0 <= c < to[p].0 implies layer.gap(layer.points@[p], to[p].0 as int)
        < #[trigger] layer.gap(layer.points@[p], c) by {
        layer.lemma_nearest_of(layer.points@[p], layer.kmeans@.len());
    }
}

/// After a round, the encoder sends each isomorphism to the abstraction of
/// the centroid nearest to its point among those the round read, the
/// smaller one on a tie (for the last point that names the isomorphism).
pub proof fn lemma_round_encodes_nearest(l: &Layer, s: Layer, to: Seq<(usize, u64)>, p: int)
    requires
        l.follows(s, to),
        0 <= p < l.points@.len(),
        forall|q: int| p < q < l.points@.len() ==> l.isos@[q] != l.isos@[p],
    ensures
        l.lookup@[l.isos@[p]] == id_of(
            l.street,
            label_of(s.nearest_of(l.points@[p], s.kmeans@.len()) as u64),
        ),
{
    assert(to[p] == to[p]);
    lemma_assigned_last(l.street, s.lookup@, l.isos@, to, to.len(), p);
}

/// After a round with a single centroid, every isomorphism is sent to its
/// abstraction.
pub proof fn lemma_round_single_centroid(l: &Layer, s: Layer, to: Seq<(usize, u64)>, p: int)
    requires
        l.follows(s, to),
        l.kmeans@.len() == 1,
        0 <= p < l.points@.len(),
    ensures
        l.lookup@[l.isos@[p]] == id_of(l.street, label_of(0)),
{
    let last = choose_last(l.isos@, p, l.points@.len() as int);
    assert(to[last] == to[last]);
    lemma_assigned_last(l.street, s.lookup@, l.isos@, to, to.len(), last);
}

/// The last position below `n`, at or after `p`, that holds `isos[p]`.
proof fn choose_last(isos: Seq<u64>, p: int, n: int) -> (q: int)
    requires
        0 <= p < n <= isos.len(),
    ensures
        p <= q < n,
        isos[q] == isos[p],
        forall|r: int| q < r < n ==> isos[r] != isos[q],
    decreases n - p,
{
    if exists|r: int| p < r < n && isos[r] == isos[p] {
        let r = choose|r: int| p < r < n && isos[r] == isos[p];
        choose_last(isos, r, n)
    } else {
        p
    }
}

/// With a single centroid, every point is assigned to it.
pub proof fn lemma_single_centroid(layer: &Layer, h: Histogram)
    requires
        layer.kmeans@.len() == 1,
    ensures
        layer.nearest_of(h, 1) == 0,
{
}

/// Each point of `l` is the projection through `outer` of the observation
/// at its place, and each isomorphism that observation's least identity.
pub open spec fn projects(l: Layer, outer: Map<u64, u64>, obs: Seq<Observation>) -> bool {
    forall|i: int|
        0 <= i < obs.len() ==> #[trigger] projection(outer, &obs[i], l.points@[i]) && least(
            obs[i].pocket@,
            obs[i].public@,
            l.isos@[i] as int,
        )
}

/// `pts` are the projections through `outer` of the observations, in order.
pub open spec fn projected(outer: Map<u64, u64>, obs: Seq<Observation>, pts: Seq<Histogram>) -> bool {
    &&& pts.len() == obs.len()
    &&& forall|i: int| 0 <= i < obs.len() ==> #[trigger] projection(outer, &obs[i], pts[i]) && pts[i].wf()
}

/// What `Layer::new` decides on points `pts` for a street before the River
/// with as many isomorphisms as points.
pub open spec fn verdict(metric: Metric, pts: Seq<Histogram>, r: Result<Layer, LayerError>) -> bool {
    let nonempty = forall|p: int| 0 <= p < pts.len() ==> #[trigger] pts[p]@ != Map::<u64, u64>::empty();
    &&& r == Err::<Layer, LayerError>(LayerError::EmptyPoint) <==> !nonempty
    &&& r == Err::<Layer, LayerError>(LayerError::Overweight) <==> nonempty && total(masses(pts)) > MAX_MASS
    &&& r == Err::<Layer, LayerError>(LayerError::MetricGap) <==> nonempty && total(masses(pts)) <= MAX_MASS
        && !spans(metric, pts)
    &&& r is Ok <==> nonempty && total(masses(pts)) <= MAX_MASS && spans(metric, pts)
    &&& r matches Ok(l) ==> l.points@ == pts
}

/// Each observation's isomorphism and projection through `outer`, unless
/// some observation has a child that `outer` does not encode.
fn project_all(outer: &Lookup, obs: &Vec<Observation>) -> (r: Option<(Vec<u64>, Vec<Histogram>)>)
    requires
    outer.wf(),
    projectable(obs@),
    ensures
    r is None <==> exists|i: int| 0 <= i < obs@.len() && #[trigger] unencoded(outer@, &obs@[i]),
    r matches Some(found) ==> found.0@.len() == obs@.len() && found.1@.len() == obs@.len() && forall|j: int|
        0 <= j < obs@.len() ==> #[trigger] projection(outer@, &obs@[j], found.1@[j]) && found.1@[j].wf()
            && least(obs@[j].pocket@, obs@[j].public@, found.0@[j] as int),
{
    let mut isos: Vec<u64> = Vec::new();
    let mut points: Vec<Histogram> = Vec::new();
    let mut i: usize = 0;
    while i < obs.len()
        invariant
            outer.wf(),
            projectable(obs@),
            i <= obs@.len(),
            isos@.len() == i,
            points@.len() == i,
            forall|j: int|
                0 <= j < i ==> #[trigger] projection(outer@, &obs@[j], points@[j]) && points@[j].wf()
                    && least(obs@[j].pocket@, obs@[j].public@, isos@[j] as int),
            forall|j: int| 0 <= j < i ==> !#[trigger] unencoded(outer@, &obs@[j]),
        decreases obs@.len() - i,
    {
        let o = &obs[i];
        proof {
            assert(obs@[i as int].wf() && obs@[i as int].public@.len() < 5);
        }
        match outer.project(o) {
            Some(h) => {
                let c = o.canonical();
                proof {
                    lemma_represents_least(o, &c);
                }
                let ghost bp = points@;
                let ghost bi = isos@;
                let ghost hh = h;
                isos.push(c.id());
                points.push(h);
                proof {
                    assert(projection(outer@, &obs@[i as int], hh));
                    assert(hh.wf());
                    assert forall|j: int|
                        0 <= j < i + 1 implies #[trigger] projection(outer@, &obs@[j], points@[j])
                        && points@[j].wf() && least(obs@[j].pocket@, obs@[j].public@, isos@[j] as int) by {
                        if j < i {
                            assert(points@[j] == bp[j]);
                            assert(isos@[j] == bi[j]);
                            assert(projection(outer@, &obs@[j], bp[j]));
                        } else {
                            assert(points@[j] == hh);
                        }
                    }
                    assert(!unencoded(outer@, &obs@[i as int]));
                }
            },
            None => {
                proof {
                    assert(unencoded(outer@, &obs@[i as int]));
                }
                return None;
            },
        }
        i = i + 1;
    }
    proof {
        assert(forall|j: int| 0 <= j < obs@.len() ==> !#[trigger] unencoded(outer@, &obs@[j]));
    }
    Some((isos, points))
}

/// The observations are of streets before the River.
pub open spec fn projectable(obs: Seq<Observation>) -> bool {
    forall|i: int| 0 <= i < obs.len() ==> #[trigger] obs[i].wf() && obs[i].public@.len() < 5
}

/// Every seed of `l` after the first, below `k`, was drawn as
/// `Layer::outlier_seed` says.
pub open spec fn seeded_all(l: Layer, k: int) -> bool {
    forall|c: int| 1 <= c < k ==> #[trigger] l.seeded(c)
}

/// The layer of a learned street, with what learning it returned.
pub open spec fn layer_part(r: Result<(Layer, Option<Metric>, Vec<u128>), LayerError>) -> Result<Layer, LayerError> {
    match r {
        Ok(x) => Ok(x.0),
        Err(e) => Err(e),
    }
}

/// Why a layer could not be set up.
#[derive(PartialEq, Eq, Structural, Clone, Copy, Debug)]
pub enum LayerError {
    /// The River is not clustered: its abstractions are equity buckets.
    River,
    /// There are no points to cluster.
    NoPoints,
    /// The isomorphisms and the points differ in number.
    Mismatch,
    /// A point has an empty histogram.
    EmptyPoint,
    /// The points together weigh more than one histogram holds.
    Overweight,
    /// The metric lacks the distance of two abstractions that the points hold.
    MetricGap,
    /// A child of an observation has no abstraction on the next street.
    Unencoded,
}

/// The k-means learner of one street. Each point is the histogram, over the
/// next street's abstractions, of one isomorphism's children; each centroid
/// is the histogram of one abstraction of this street, the `c`th one having
/// index `label(c)`. Distances are greedy earth mover's distances under the
/// next street's metric.
pub struct Layer {
    pub street: Street,
    pub metric: Metric,
    pub isos: Vec<u64>,
    pub points: Vec<Histogram>,
    pub kmeans: Vec<Histogram>,
    pub lookup: Lookup,
}

impl Layer {
    pub open spec fn wf(&self) -> bool {
        &&& self.street != Street::Rive
        &&& self.metric.wf()
        &&& self.lookup.wf()
        &&& self.isos@.len() == self.points@.len()
        &&& self.points@.len() > 0
        &&& forall|p: int|
            0 <= p < self.points@.len() ==> #[trigger] self.points@[p].wf() && self.points@[p]@
                != Map::<u64, u64>::empty()
        &&& total(masses(self.points@)) <= MAX_MASS
        &&& spans(self.metric, self.points@)
        &&& self.kmeans@.len() < MAX_CENTROIDS
        &&& forall|c: int|
            0 <= c < self.kmeans@.len() ==> #[trigger] self.kmeans@[c].wf() && self.kmeans@[c].spec_mass()
                <= total(masses(self.points@)) && within(self.kmeans@[c], self.points@)
    }

    /// A layer for `street` with no centroids yet, after checking what the
    /// clustering relies on: a street before the River, at least one point,
    /// one isomorphism per point, no empty point, a total mass that one
    /// histogram holds, and a metric that knows every two abstractions the
    /// points hold.
    #[verifier::loop_isolation(false)]
    #[verifier::spinoff_prover]
    pub fn new(street: Street, metric: Metric, isos: Vec<u64>, points: Vec<Histogram>) -> (r: Result<
        Layer,
        LayerError,
    >)
        requires
            metric.wf(),
            forall|p: int| 0 <= p < points@.len() ==> #[trigger] points@[p].wf(),
        ensures
            r == Err::<Layer, LayerError>(LayerError::River) <==> street == Street::Rive,
            r == Err::<Layer, LayerError>(LayerError::NoPoints) <==> street != Street::Rive
                && points@.len() == 0,
            r == Err::<Layer, LayerError>(LayerError::Mismatch) <==> street != Street::Rive
                && points@.len() > 0 && isos@.len() != points@.len(),
            r == Err::<Layer, LayerError>(LayerError::EmptyPoint) <==> street != Street::Rive
                && points@.len() > 0 && isos@.len() == points@.len() && exists|p: int|
                0 <= p < points@.len() && #[trigger] points@[p]@ == Map::<u64, u64>::empty(),
            r == Err::<Layer, LayerError>(LayerError::Overweight) <==> street != Street::Rive
                && points@.len() > 0 && isos@.len() == points@.len() && (forall|p: int|
                0 <= p < points@.len() ==> #[trigger] points@[p]@ != Map::<u64, u64>::empty()) && total(
                masses(points@),
            ) > MAX_MASS,
            r == Err::<Layer, LayerError>(LayerError::MetricGap) <==> street != Street::Rive
                && points@.len() > 0 && isos@.len() == points@.len() && (forall|p: int|
                0 <= p < points@.len() ==> #[trigger] points@[p]@ != Map::<u64, u64>::empty()) && total(
                masses(points@),
            ) <= MAX_MASS && !spans(metric, points@),
            r matches Ok(l) ==> l.wf() && l.street == street && l.metric == metric && l.isos == isos
                && l.points == points && l.kmeans@.len() == 0 && l.lookup@ == Map::<u64, u64>::empty(),
            r != Err::<Layer, LayerError>(LayerError::Unencoded),
    {
        if street == Street::Rive {
            return Err(LayerError::River);
        }
        let n = points.len();
        if n == 0 {
            return Err(LayerError::NoPoints);
        }
        if isos.len() != n {
            return Err(LayerError::Mismatch);
        }
        let mut p: usize = 0;
        while p < n
            invariant
                n == points@.len(),
                p <= n,
                forall|q: int| 0 <= q < points@.len() ==> #[trigger] points@[q].wf(),
                forall|q: int| 0 <= q < p ==> #[trigger] points@[q]@ != Map::<u64, u64>::empty(),
            decreases n - p,
        {
            if points[p].is_empty() {
                return Err(LayerError::EmptyPoint);
            }
            p = p + 1;
        }
        let ghost ms = masses(points@);
        proof {
            assert(ms.subrange(0, 0) =~= Seq::<int>::empty());
            assert forall|q: int| 0 <= q < ms.len() implies ms[q] >= 0 by {
                assert(points@[q].wf());
                points@[q].lemma_histogram();
            }
        }
        let mut sum: u64 = 0;
        p = 0;
        while p < n
            invariant
                n == points@.len(),
                ms == masses(points@),
                forall|q: int| 0 <= q < ms.len() ==> ms[q] >= 0,
                p <= n,
                forall|q: int| 0 <= q < points@.len() ==> #[trigger] points@[q].wf(),
                sum == total(ms.subrange(0, p as int)),
                sum <= MAX_MASS,
            decreases n - p,
        {
            let m = points[p].mass();
            proof {
                lemma_total_prefix(ms, p as int);
            }
            if m > MAX_MASS - sum {
                return Err(LayerError::Overweight);
            }
            sum = sum + m;
            p = p + 1;
        }
        proof {
            assert(ms.subrange(0, n as int) =~= ms);
        }
        // every abstraction that some point holds
        let mut basis = Histogram::new();
        p = 0;
        while p < n
            invariant
                n == points@.len(),
                ms == masses(points@),
                forall|q: int| 0 <= q < ms.len() ==> ms[q] >= 0,
                total(ms) <= MAX_MASS,
                p <= n,
                forall|q: int| 0 <= q < points@.len() ==> #[trigger] points@[q].wf(),
                basis.wf(),
                basis.spec_mass() == total(ms.subrange(0, p as int)),
                forall|id: u64|
                    #[trigger] basis@.contains_key(id) <==> exists|q: int|
                        0 <= q < p && #[trigger] points@[q]@.contains_key(id),
            decreases n - p,
        {
            proof {
                lemma_total_prefix(ms, p as int);
            }
            let ghost before = basis@;
            basis.absorb(&points[p]);
            proof {
                assert forall|id: u64| #[trigger] basis@.contains_key(id) <==> exists|q: int|
                    0 <= q < p + 1 && #[trigger] points@[q]@.contains_key(id) by {
                    if basis@.contains_key(id) && !before.contains_key(id) {
                        assert(points@[p as int]@.contains_key(id));
                    }
                    if exists|q: int| 0 <= q < p + 1 && #[trigger] points@[q]@.contains_key(id) {
                        let q = choose|q: int| 0 <= q < p + 1 && #[trigger] points@[q]@.contains_key(id);
                        if q < p {
                            assert(before.contains_key(id));
                        }
                    }
                }
            }
            p = p + 1;
        }
        let support = basis.support();
        proof {
            basis.lemma_histogram();
        }
        let m = support.len();
        let mut i: usize = 0;
        while i < m
            invariant
                metric.wf(),
                basis.wf(),
                m == support@.len(),
                m == basis.ids().len(),
                forall|q: int| 0 <= q < m ==> #[trigger] support@[q].spec_id() == basis.ids()[q] && support@[q].wf(),
                i <= m,
                forall|x: int, y: int|
                    0 <= x < i && 0 <= y < m ==> metric.knows(
                        #[trigger] basis.ids()[x],
                        #[trigger] basis.ids()[y],
                    ),
            decreases m - i,
        {
            let mut j: usize = 0;
            while j < m
                invariant
                    metric.wf(),
                    basis.wf(),
                    m == support@.len(),
                    m == basis.ids().len(),
                    forall|q: int| 0 <= q < m ==> #[trigger] support@[q].spec_id() == basis.ids()[q] && support@[q].wf(),
                    i < m,
                    j <= m,
                    forall|x: int, y: int|
                        0 <= x < i && 0 <= y < m ==> metric.knows(
                            #[trigger] basis.ids()[x],
                            #[trigger] basis.ids()[y],
                        ),
                    forall|y: int| 0 <= y < j ==> metric.knows(basis.ids()[i as int], #[trigger] basis.ids()[y]),
                decreases m - j,
            {
                proof {
                    assert(support@[i as int].wf() && support@[j as int].wf());
                }
                if metric.distance(&support[i], &support[j]).is_err() {
                    proof {
                        let a = basis.ids()[i as int];
                        let b = basis.ids()[j as int];
                        assert(support@[i as int].spec_id() == a);
                        assert(support@[j as int].spec_id() == b);
                        assert(!metric.knows(a, b));
                        assert(basis@.contains_key(a));
                        assert(basis@.contains_key(b));
                        assert(in_basis(points@, a));
                        assert(in_basis(points@, b));
                    }
                    return Err(LayerError::MetricGap);
                }
                proof {
                    assert(support@[i as int].spec_id() == basis.ids()[i as int]);
                    assert(support@[j as int].spec_id() == basis.ids()[j as int]);
                }
                j = j + 1;
            }
            i = i + 1;
        }
        proof {
            assert forall|a: u64, b: u64|
                #![trigger in_basis(points@, a), in_basis(points@, b)]
                in_basis(points@, a) && in_basis(points@, b) implies metric.knows(a, b) by {
                assert(basis@.contains_key(a));
                assert(basis@.contains_key(b));
                assert(basis.ids().contains(a));
                assert(basis.ids().contains(b));
                let x = choose|x: int| 0 <= x < basis.ids().len() && basis.ids()[x] == a;
                let y = choose|y: int| 0 <= y < basis.ids().len() && basis.ids()[y] == b;
                assert(metric.knows(basis.ids()[x], basis.ids()[y]));
            }
        }
        let layer = Layer { street, metric, isos, points, kmeans: Vec::new(), lookup: Lookup::new() };
        proof {
            assert forall|q: int| 0 <= q < layer.points@.len() implies #[trigger] layer.points@[q].wf()
                && layer.points@[q]@ != Map::<u64, u64>::empty() by {
                assert(layer.points@[q].wf());
            }
        }
        Ok(layer)
    }

    /// A layer for `street` whose points are the observations' projections
    /// through `outer`, the next street's encoder: each observation's
    /// isomorphism with the histogram of where its children fall.
    #[verifier::loop_isolation(false)]
    #[verifier::spinoff_prover]
    pub fn from_observations(street: Street, metric: Metric, outer: &Lookup, obs: &Vec<Observation>) -> (r:
        Result<Layer, LayerError>)
        requires
            metric.wf(),
            outer.wf(),
            projectable(obs@),
        ensures
            r matches Ok(l) ==> l.wf() && l.street == street && l.metric == metric,
            r matches Ok(l) ==> l.kmeans@.len() == 0 && l.points@.len() == obs@.len(),
            r matches Ok(l) ==> projects(l, outer@, obs@),
            r == Err::<Layer, LayerError>(LayerError::River) <==> street == Street::Rive,
            r == Err::<Layer, LayerError>(LayerError::NoPoints) <==> street != Street::Rive && obs@.len()
                == 0,
            r == Err::<Layer, LayerError>(LayerError::Unencoded) <==> street != Street::Rive && obs@.len()
                > 0 && exists|i: int| 0 <= i < obs@.len() && #[trigger] unencoded(outer@, &obs@[i]),
            r != Err::<Layer, LayerError>(LayerError::Mismatch),
            street != Street::Rive && obs@.len() > 0 && (forall|i: int|
                0 <= i < obs@.len() ==> !#[trigger] unencoded(outer@, &obs@[i])) ==> exists|pts: Seq<Histogram>|
                #[trigger] projected(outer@, obs@, pts) && verdict(metric, pts, r),
    {
        if street == Street::Rive {
            return Err(LayerError::River);
        }
        if obs.len() == 0 {
            return Err(LayerError::NoPoints);
        }
        let (isos, points) = match project_all(outer, obs) {
            Some(found) => found,
            None => {
                return Err(LayerError::Unencoded);
            },
        };
        let ghost pts = points@;
        let ghost ids = isos@;
        proof {
            assert forall|p: int| 0 <= p < points@.len() implies #[trigger] points@[p].wf() by {
                assert(projection(outer@, &obs@[p], points@[p]));
            }
        }
        let built = Layer::new(street, metric, isos, points);
        proof {
            if built is Ok {
                let l = built->Ok_0;
                assert(l.points@ == pts);
                assert(l.isos@ == ids);
                assert forall|q: int| 0 <= q < obs@.len() implies #[trigger] projection(
                    outer@,
                    &obs@[q],
                    l.points@[q],
                ) && least(obs@[q].pocket@, obs@[q].public@, l.isos@[q] as int) by {
                    assert(projection(outer@, &obs@[q], pts[q]));
                }
            }
            assert(projected(outer@, obs@, pts));
            assert(pts.len() > 0 && ids.len() == pts.len());
            let nonempty = forall|p: int| 0 <= p < pts.len() ==> #[trigger] pts[p]@ != Map::<u64, u64>::empty();
            assert(nonempty <==> !(exists|p: int| 0 <= p < pts.len() && #[trigger] pts[p]@ == Map::<u64, u64>::empty()));
            if built is Err {
                let e = built->Err_0;
                assert(e != LayerError::Unencoded && e != LayerError::River && e != LayerError::NoPoints
                    && e != LayerError::Mismatch);
                assert(e == LayerError::EmptyPoint || e == LayerError::Overweight || e == LayerError::MetricGap);
            }
            assert(verdict(metric, pts, built));
        }
        built
    }

    /// Where learning starts: the River encoder of the given River
    /// observations, each isomorphism sent to its equity bucket, and the
    /// River metric, which measures two buckets by their difference and so
    /// holds no pairs.
    pub fn outer(obs: &Vec<Observation>) -> (r: (Lookup, Metric))
        requires
            rivers(obs@),
        ensures
            river_encoder(obs@, r.0),
            r.1.wf(),
            r.1@ == Map::<u64, u64>::empty(),
    {
        (Lookup::make_river(obs), Metric::new())
    }

    /// Learns one street from the next: projects the street's observations
    /// through `outer`, the next street's encoder, clusters them into `k`
    /// abstractions over `t` rounds under `metric`, the next street's
    /// metric, and returns the layer with its encoder, this street's metric
    /// and the losses.
    pub fn inner(
        street: Street,
        metric: Metric,
        outer: &Lookup,
        obs: &Vec<Observation>,
        k: usize,
        t: usize,
    ) -> (r: Result<(Layer, Option<Metric>, Vec<u128>), LayerError>)
        requires
            metric.wf(),
            outer.wf(),
            projectable(obs@),
            1 <= k < MAX_CENTROIDS,
        ensures
            layer_part(r) == Err::<Layer, LayerError>(LayerError::River) <==> street == Street::Rive,
            layer_part(r) == Err::<Layer, LayerError>(LayerError::NoPoints) <==> street != Street::Rive
                && obs@.len() == 0,
            layer_part(r) == Err::<Layer, LayerError>(LayerError::Unencoded) <==> street != Street::Rive
                && obs@.len() > 0 && exists|i: int| 0 <= i < obs@.len() && #[trigger] unencoded(outer@, &obs@[i]),
            layer_part(r) != Err::<Layer, LayerError>(LayerError::Mismatch),
            street != Street::Rive && obs@.len() > 0 && (forall|i: int|
                0 <= i < obs@.len() ==> !#[trigger] unencoded(outer@, &obs@[i])) ==> exists|pts: Seq<Histogram>|
                #[trigger] projected(outer@, obs@, pts) && verdict(metric, pts, layer_part(r)),
            r matches Ok(x) ==> {
                let l = x.0;
                &&& l.wf()
                &&& l.street == street
                &&& l.metric == metric
                &&& l.kmeans@.len() == k
                &&& projects(l, outer@, obs@)
                &&& x.2@.len() == t
                &&& (t > 0 ==> exists|s: Layer, to: Seq<(usize, u64)>|
                    #[trigger] l.follows(s, to) && x.2@[t - 1] == squares(to, to.len()))
                &&& (x.1 is None <==> collide(street, k as int))
                &&& (x.1 matches Some(m) ==> l.centroid_metric(m))
                &&& exists|start: Layer, snaps: Seq<Layer>, tos: Seq<Seq<(usize, u64)>>|
                    #[trigger] l.ran(start, snaps, tos, x.2@) && start.kmeans@.len() == k && seeded_all(
                        start,
                        k as int,
                    )
            },
    {
        match Layer::from_observations(street, metric, outer, obs) {
            Ok(mut layer) => {
                let ghost start = layer;
                let (inner_metric, losses) = layer.cluster(k, t);
                proof {
                    assert forall|q: int| 0 <= q < obs@.len() implies #[trigger] projection(
                        outer@,
                        &obs@[q],
                        layer.points@[q],
                    ) && least(obs@[q].pocket@, obs@[q].public@, layer.isos@[q] as int) by {
                        assert(projection(outer@, &obs@[q], start.points@[q]));
                    }
                }
                Ok((layer, inner_metric, losses))
            },
            Err(e) => Err(e),
        }
    }

    /// Distance from a histogram to centroid `c`.
    pub open spec fn gap(&self, h: Histogram, c: int) -> int {
        self.metric.emd_of(&h, &self.kmeans@[c])
    }

    /// `to` is what the assignment step gives on this layer's centroids:
    /// each point's nearest centroid, the smaller index on a tie, and the
    /// distance to it.
    pub open spec fn assigns(&self, to: Seq<(usize, u64)>) -> bool {
        &&& to.len() == self.points@.len()
        &&& forall|p: int|
            0 <= p < to.len() ==> #[trigger] to[p] == to[p] && to[p].0 == self.nearest_of(
                self.points@[p],
                self.kmeans@.len(),
            ) && to[p].0 < self.kmeans@.len() && to[p].1 == self.gap(self.points@[p], to[p].0 as int)
    }

    /// Seed `c` was drawn by `sample_outlier` from the layer `s` that held
    /// the seeds before it: if some point lay off every earlier seed, seed
    /// `c` is such a point.
    pub open spec fn outlier_seed(&self, s: Layer, c: int) -> bool {
        &&& s.points == self.points
        &&& s.metric == self.metric
        &&& s.kmeans@ == self.kmeans@.subrange(0, c)
        &&& (exists|p: int|
            0 <= p < self.points@.len() && #[trigger] s.gap(
                self.points@[p],
                s.nearest_of(self.points@[p], c as nat),
            ) > 0) ==> exists|q: int|
            0 <= q < self.points@.len() && self.kmeans@[c]@ == self.points@[q]@ && #[trigger] s.gap(
                self.points@[q],
                s.nearest_of(self.points@[q], c as nat),
            ) > 0
    }

    /// Seed `c` was drawn as `outlier_seed` says, from some earlier layer.
    pub open spec fn seeded(&self, c: int) -> bool {
        exists|s: Layer| #[trigger] self.outlier_seed(s, c)
    }

    /// `self` is what `r.len()` rounds of Lloyd's iteration leave from
    /// `start`: round `j` read the layer `snaps[j]`, the first being
    /// `start`, assigned `tos[j]`, had loss `r[j]`, and left the layer the
    /// next round read, the last round leaving `self`.
    pub open spec fn ran(
        &self,
        start: Layer,
        snaps: Seq<Layer>,
        tos: Seq<Seq<(usize, u64)>>,
        r: Seq<u128>,
    ) -> bool {
        &&& snaps.len() == r.len()
        &&& tos.len() == r.len()
        &&& r.len() > 0 ==> snaps[0] == start
        &&& forall|j: int| 0 <= j < r.len() ==> #[trigger] r[j] == squares(tos[j], tos[j].len())
        &&& forall|j: int| 0 <= j < r.len() - 1 ==> #[trigger] snaps[j + 1].follows(snaps[j], tos[j])
        &&& r.len() > 0 ==> self.follows(snaps[r.len() - 1], tos[r.len() - 1])
    }

    /// `v` is the loss of an assignment step on the points and metric of
    /// this layer, over as many centroids: the sum of the squared distances
    /// from each point to its nearest centroid.
    pub open spec fn round_loss(&self, v: int) -> bool {
        exists|s: Layer, to: Seq<(usize, u64)>|
            #[trigger] s.assigns(to) && s.points == self.points && s.metric == self.metric
                && s.kmeans@.len() == self.kmeans@.len() && v == squares(to, to.len())
    }

    /// `self` is what one round of Lloyd's iteration leaves when it reads
    /// the centroids of `s` and assigns `to`: the encoder records each
    /// point's centroid, and every centroid that some point joined is the
    /// pool of its points.
    pub open spec fn follows(&self, s: Layer, to: Seq<(usize, u64)>) -> bool {
        &&& s.wf()
        &&& s.street == self.street
        &&& s.metric == self.metric
        &&& s.points == self.points
        &&& s.isos == self.isos
        &&& s.kmeans@.len() == self.kmeans@.len()
        &&& s.assigns(to)
        &&& self.lookup@ == assigned(self.street, s.lookup@, self.isos@, to, to.len())
        &&& forall|c: int, k: u64|
            0 <= c < self.kmeans@.len() && !pooled_empty(self.points@, to, c, to.len())
                ==> #[trigger] self.kmeans@[c].count(k) == pooled(self.points@, to, c, k, to.len())
    }

    /// Index, among the first `n` centroids, of the one nearest to `h`; the
    /// smaller index, that is the smaller abstraction, wins a tie.
    pub open spec fn nearest_of(&self, h: Histogram, n: nat) -> int
        decreases n,
    {
        if n <= 1 {
            0
        } else {
            let b = self.nearest_of(h, (n - 1) as nat);
            if self.gap(h, n - 1) < self.gap(h, b) {
                n - 1
            } else {
                b
            }
        }
    }

    pub proof fn lemma_nearest_of(&self, h: Histogram, n: nat)
        requires
            1 <= n <= self.kmeans@.len(),
        ensures
            0 <= self.nearest_of(h, n) < n,
            forall|c: int| 0 <= c < n ==> self.gap(h, self.nearest_of(h, n)) <= #[trigger] self.gap(h, c),
            forall|c: int|
                0 <= c < self.nearest_of(h, n) ==> self.gap(h, self.nearest_of(h, n)) < #[trigger] self.gap(
                    h,
                    c,
                ),
        decreases n,
    {
        if n > 1 {
            self.lemma_nearest_of(h, (n - 1) as nat);
        }
    }

    /// Two histograms within what the points hold are covered by the metric.
    pub proof fn lemma_covers(&self, a: Histogram, b: Histogram)
        requires
            self.wf(),
            a.wf(),
            b.wf(),
            within(a, self.points@),
            within(b, self.points@),
        ensures
            self.metric.covers(&a, &b),
    {
        a.lemma_histogram();
        b.lemma_histogram();
        assert forall|i: int, j: int|
            0 <= i < a.ids().len() && 0 <= j < b.ids().len() implies self.metric.knows(
            #[trigger] a.ids()[i],
            #[trigger] b.ids()[j],
        ) by {
            assert(a@.contains_key(a.ids()[i]));
            assert(b@.contains_key(b.ids()[j]));
            assert(in_basis(self.points@, a.ids()[i]));
            assert(in_basis(self.points@, b.ids()[j]));
        }
    }

    /// A point lies within what the points hold.
    pub proof fn lemma_point_within(&self, p: int)
        requires
            self.wf(),
            0 <= p < self.points@.len(),
        ensures
            within(self.points@[p], self.points@),
    {
        assert forall|id: u64| #[trigger] self.points@[p]@.contains_key(id) implies in_basis(
            self.points@,
            id,
        ) by {
            assert(self.points@[p]@.contains_key(id));
        }
    }

    /// A point weighs no more than all points together.
    pub proof fn lemma_point_mass(&self, p: int)
        requires
            self.wf(),
            0 <= p < self.points@.len(),
        ensures
            self.points@[p].spec_mass() <= total(masses(self.points@)),
            self.points@.len() <= total(masses(self.points@)),
    {
        let ms = masses(self.points@);
        assert forall|q: int| 0 <= q < ms.len() implies ms[q] >= 1 by {
            let h = self.points@[q];
            assert(h.wf());
            h.lemma_histogram();
            if h.ids().len() == 0 {
                assert forall|k: u64| !h@.contains_key(k) by {
                    if h@.contains_key(k) {
                        assert(h.ids().contains(k));
                    }
                }
                assert(h@ =~= Map::<u64, u64>::empty());
            }
        }
        lemma_total_bounds(ms);
        crate::sum::lemma_total_at_least_len(ms);
        assert(ms[p] == self.points@[p].spec_mass());
    }

    /// The centroid nearest to `h`, and the distance to it.
    pub fn nearest(&self, h: &Histogram) -> (r: (usize, u64))
        requires
            self.wf(),
            h.wf(),
            within(*h, self.points@),
            self.kmeans@.len() > 0,
        ensures
            r.0 == self.nearest_of(*h, self.kmeans@.len()),
            r.0 < self.kmeans@.len(),
            r.1 == self.gap(*h, r.0 as int),
            r.1 <= MAX_DISTANCE,
    {
        let k = self.kmeans.len();
        proof {
            assert(self.kmeans@[0].wf());
            self.lemma_covers(*h, self.kmeans@[0]);
        }
        let mut best: usize = 0;
        let mut bd: u64 = self.metric.emd(h, &self.kmeans[0]);
        let mut c: usize = 1;
        while c < k
            invariant
                self.wf(),
                h.wf(),
                within(*h, self.points@),
                k == self.kmeans@.len(),
                1 <= c <= k,
                best < c,
                best == self.nearest_of(*h, c as nat),
                bd == self.gap(*h, best as int),
                bd <= MAX_DISTANCE,
            decreases k - c,
        {
            proof {
                assert(self.kmeans@[c as int].wf());
                self.lemma_covers(*h, self.kmeans@[c as int]);
            }
            let d = self.metric.emd(h, &self.kmeans[c]);
            if d < bd {
                best = c;
                bd = d;
            }
            c = c + 1;
        }
        (best, bd)
    }

    /// For each point in turn, its nearest centroid and the distance to it.
    pub fn get_neighbor(&self) -> (r: Vec<(usize, u64)>)
        requires
            self.wf(),
            self.kmeans@.len() > 0,
        ensures
            r@.len() == self.points@.len(),
            forall|p: int|
                0 <= p < r@.len() ==> #[trigger] r@[p] == r@[p] && r@[p].0 == self.nearest_of(
                    self.points@[p],
                    self.kmeans@.len(),
                ) && r@[p].0 < self.kmeans@.len() && r@[p].1 == self.gap(self.points@[p], r@[p].0 as int)
                    && r@[p].1 <= MAX_DISTANCE,
    {
        let n = self.points.len();
        let mut out: Vec<(usize, u64)> = Vec::new();
        let mut p: usize = 0;
        while p < n
            invariant
                self.wf(),
                self.kmeans@.len() > 0,
                n == self.points@.len(),
                p <= n,
                out@.len() == p,
                forall|q: int|
                    0 <= q < p ==> #[trigger] out@[q] == out@[q] && out@[q].0 == self.nearest_of(
                        self.points@[q],
                        self.kmeans@.len(),
                    ) && out@[q].0 < self.kmeans@.len() && out@[q].1 == self.gap(
                        self.points@[q],
                        out@[q].0 as int,
                    ) && out@[q].1 <= MAX_DISTANCE,
            decreases n - p,
        {
            proof {
                self.lemma_point_within(p as int);
                assert(self.points@[p as int].wf());
            }
            let near = self.nearest(&self.points[p]);
            out.push(near);
            p = p + 1;
        }
        out
    }

    /// Empties every centroid, pools each point into the centroid `to`
    /// names for it, and records that centroid's abstraction for the
    /// point's isomorphism. Returns the sum of the squared distances.
    #[verifier::spinoff_prover]
    pub fn set_neighbor(&mut self, to: &Vec<(usize, u64)>) -> (loss: u128)
        requires
            old(self).wf(),
            to@.len() == old(self).points@.len(),
            forall|p: int|
                0 <= p < to@.len() ==> #[trigger] to@[p].0 < old(self).kmeans@.len() && to@[p].1
                    <= MAX_DISTANCE,
        ensures
            final(self).wf(),
            final(self).street == old(self).street,
            final(self).metric == old(self).metric,
            final(self).isos == old(self).isos,
            final(self).points == old(self).points,
            final(self).kmeans@.len() == old(self).kmeans@.len(),
            forall|c: int, k: u64|
                0 <= c < final(self).kmeans@.len() ==> #[trigger] final(self).kmeans@[c].count(k) == pooled(
                    old(self).points@,
                    to@,
                    c,
                    k,
                    to@.len(),
                ),
            final(self).lookup@ == assigned(
                old(self).street,
                old(self).lookup@,
                old(self).isos@,
                to@,
                to@.len(),
            ),
            loss == squares(to@, to@.len()),
    {
        let k = self.kmeans.len();
        let n = self.points.len();
        let ghost ms = masses(self.points@);
        let ghost lookup0 = self.lookup@;
        let ghost o = *self;
        proof {
            self.lemma_point_mass(0);
        }
        let mut fresh: Vec<Histogram> = Vec::new();
        let mut c: usize = 0;
        while c < k
            invariant
                c <= k,
                fresh@.len() == c,
                forall|j: int|
                    0 <= j < c ==> #[trigger] fresh@[j].wf() && fresh@[j]@ == Map::<u64, u64>::empty()
                        && fresh@[j].spec_mass() == 0,
            decreases k - c,
        {
            fresh.push(Histogram::new());
            c = c + 1;
        }
        proof {
            assert(ms.subrange(0, 0) =~= Seq::<int>::empty());
            assert forall|q: int| 0 <= q < ms.len() implies ms[q] >= 0 by {
                assert(self.points@[q].wf());
                self.points@[q].lemma_histogram();
            }
        }
        proof {
            assert forall|j: int, q: u64| 0 <= j < k implies #[trigger] fresh@[j].count(q) == pooled(
                self.points@,
                to@,
                j,
                q,
                0,
            ) by {
                assert(fresh@[j].wf());
                assert(fresh@[j]@ == Map::<u64, u64>::empty());
            }
        }
        let mut loss: u128 = 0;
        let mut p: usize = 0;
        let ghost mut acc: int = 0;
        while p < n
            invariant
                o.wf(),
                o == *old(self),
                self.lookup.wf(),
                self.street == old(self).street,
                self.metric == old(self).metric,
                self.isos == old(self).isos,
                self.points == old(self).points,
                self.kmeans == old(self).kmeans,
                lookup0 == old(self).lookup@,
                self.lookup@ == assigned(self.street, lookup0, self.isos@, to@, p as nat),
                ms == masses(self.points@),
                forall|q: int| 0 <= q < ms.len() ==> ms[q] >= 0,
                self.points@.len() <= MAX_MASS,
                n == self.points@.len(),
                k == self.kmeans@.len(),
                to@.len() == n,
                forall|q: int| 0 <= q < to@.len() ==> #[trigger] to@[q].0 < k && to@[q].1 <= MAX_DISTANCE,
                p <= n,
                fresh@.len() == k,
                acc == total(ms.subrange(0, p as int)),
                forall|j: int|
                    0 <= j < k ==> #[trigger] fresh@[j].wf() && fresh@[j].spec_mass() <= acc && within(
                        fresh@[j],
                        self.points@,
                    ),
                forall|j: int, q: u64|
                    0 <= j < k ==> #[trigger] fresh@[j].count(q) == pooled(self.points@, to@, j, q, p as nat),
                loss == squares(to@, p as nat),
                squares(to@, p as nat) <= p * MAX_DISTANCE * MAX_DISTANCE,
            decreases n - p,
        {
            let (c, d) = to[p];
            proof {
                assert(to@[p as int].0 < k && to@[p as int].1 <= MAX_DISTANCE);
                lemma_total_prefix(ms, p as int);
                o.lemma_point_within(p as int);
                assert(self.points@[p as int].wf());
                assert(fresh@[c as int].wf());
                assert(d as int * d as int <= MAX_DISTANCE * MAX_DISTANCE) by (nonlinear_arith)
                    requires
                        d <= MAX_DISTANCE,
                ;
                assert((p + 1) * MAX_DISTANCE * MAX_DISTANCE <= MAX_MASS * MAX_DISTANCE * MAX_DISTANCE)
                    by (nonlinear_arith)
                    requires
                        p + 1 <= MAX_MASS,
                ;
            }
            let ghost before = fresh@;
            fresh[c].absorb(&self.points[p]);
            loss = loss + (d as u128) * (d as u128);
            let abs = Abstraction::learned(self.street, label(c as u64));
            self.lookup.assign(&abs, self.isos[p]);
            proof {
                let ghost prev = acc;
                acc = acc + ms[p as int];
                assert forall|j: int|
                    0 <= j < k implies #[trigger] fresh@[j].wf() && fresh@[j].spec_mass() <= acc && within(
                    fresh@[j],
                    self.points@,
                ) by {
                    if j != c {
                        assert(fresh@[j] == before[j]);
                        assert(before[j].wf());
                        assert(before[j].spec_mass() <= prev);
                    } else {
                        assert(ms[p as int] == self.points@[p as int].spec_mass());
                        assert forall|id: u64| #[trigger] fresh@[j]@.contains_key(id) implies in_basis(
                            self.points@,
                            id,
                        ) by {
                            if !before[j]@.contains_key(id) {
                                assert(self.points@[p as int]@.contains_key(id));
                            }
                        }
                    }
                }
                assert forall|j: int, q: u64|
                    0 <= j < k implies #[trigger] fresh@[j].count(q) == pooled(
                    self.points@,
                    to@,
                    j,
                    q,
                    (p + 1) as nat,
                ) by {
                    if j != c {
                        assert(fresh@[j] == before[j]);
                    }
                }
            }
            p = p + 1;
        }
        proof {
            assert(ms.subrange(0, n as int) =~= ms);
        }
        self.kmeans = fresh;
        proof {
            assert forall|j: int| 0 <= j < self.kmeans@.len() implies #[trigger] self.kmeans@[j].wf()
                && self.kmeans@[j].spec_mass() <= total(masses(self.points@)) && within(
                self.kmeans@[j],
                self.points@,
            ) by {
                assert(fresh@[j].wf());
            }
            assert(self.kmeans@.len() < MAX_CENTROIDS);
            assert(self.lookup.wf());
            assert(spans(self.metric, self.points@));
            assert(total(masses(self.points@)) <= MAX_MASS);
        }
        loss
    }

    /// Draws a point for a new centroid, each point with weight the square
    /// of its distance to its nearest centroid; uniformly when every point
    /// sits on a centroid.
    pub fn sample_outlier(&self) -> (r: usize)
        requires
            self.wf(),
            self.kmeans@.len() > 0,
        ensures
            r < self.points@.len(),
            (exists|p: int|
                0 <= p < self.points@.len() && #[trigger] self.gap(
                    self.points@[p],
                    self.nearest_of(self.points@[p], self.kmeans@.len()),
                ) > 0) ==> self.gap(
                self.points@[r as int],
                self.nearest_of(self.points@[r as int], self.kmeans@.len()),
            ) > 0,
    {
        let near = self.get_neighbor();
        let n = near.len();
        proof {
            self.lemma_point_mass(0);
        }
        let mut weights: Vec<u128> = Vec::new();
        let mut sum: u128 = 0;
        let mut p: usize = 0;
        while p < n
            invariant
                self.wf(),
                n == near@.len(),
                n == self.points@.len(),
                n <= MAX_MASS,
                p <= n,
                weights@.len() == p,
                forall|q: int|
                    0 <= q < p ==> #[trigger] weights@[q] == near@[q].1 as int * near@[q].1 as int,
                forall|q: int| 0 <= q < n ==> #[trigger] near@[q].1 <= MAX_DISTANCE,
                sum == total(weights@.map_values(|w: u128| w as int)),
                sum <= p * MAX_DISTANCE * MAX_DISTANCE,
            decreases n - p,
        {
            let d = near[p].1;
            proof {
                assert(near@[p as int].1 <= MAX_DISTANCE);
                assert(d as int * d as int <= MAX_DISTANCE * MAX_DISTANCE) by (nonlinear_arith)
                    requires
                        d <= MAX_DISTANCE,
                ;
                assert((p + 1) * MAX_DISTANCE * MAX_DISTANCE <= MAX_MASS * MAX_DISTANCE * MAX_DISTANCE)
                    by (nonlinear_arith)
                    requires
                        p + 1 <= MAX_MASS,
                ;
            }
            let w = (d as u128) * (d as u128);
            let ghost prior = weights@;
            weights.push(w);
            proof {
                assert(weights@.map_values(|w: u128| w as int).drop_last() =~= prior.map_values(
                    |w: u128| w as int,
                ));
            }
            sum = sum + w;
            p = p + 1;
        }
        let ghost wv = weights@.map_values(|w: u128| w as int);
        if sum == 0 {
            proof {
                assert forall|q: int| 0 <= q < wv.len() implies wv[q] >= 0 by {}
                lemma_total_bounds(wv);
                assert forall|q: int| 0 <= q < n implies #[trigger] self.gap(
                    self.points@[q],
                    self.nearest_of(self.points@[q], self.kmeans@.len()),
                ) == 0 by {
                    assert(near@[q].0 == self.nearest_of(self.points@[q], self.kmeans@.len()));
                    assert(wv[q] == weights@[q]);
                    assert(wv[q] <= total(wv));
                    assert(near@[q].1 as int * near@[q].1 as int == 0 ==> near@[q].1 == 0) by (
                    nonlinear_arith);
                }
            }
            random_index(n)
        } else {
            let r = weighted_index(&weights);
            proof {
                assert(near@[r as int].0 == self.nearest_of(self.points@[r as int], self.kmeans@.len()));
                assert(weights@[r as int] == near@[r as int].1 as int * near@[r as int].1 as int);
                assert(near@[r as int].1 > 0) by {
                    if near@[r as int].1 == 0 {
                        assert(near@[r as int].1 as int * near@[r as int].1 as int == 0);
                    }
                }
            }
            r
        }
    }

    /// Seeds `k` centroids by k-means++: the first is a point drawn
    /// uniformly, each next one a point drawn by `sample_outlier`.
    #[verifier::spinoff_prover]
    pub fn kmeans_initial(&mut self, k: usize)
        requires
            old(self).wf(),
            old(self).kmeans@.len() == 0,
            1 <= k < MAX_CENTROIDS,
        ensures
            final(self).wf(),
            final(self).street == old(self).street,
            final(self).metric == old(self).metric,
            final(self).isos == old(self).isos,
            final(self).points == old(self).points,
            final(self).lookup == old(self).lookup,
            final(self).kmeans@.len() == k,
            forall|c: int|
                0 <= c < k ==> exists|p: int|
                    0 <= p < final(self).points@.len() && #[trigger] final(self).kmeans@[c]@
                        == final(self).points@[p]@,
            forall|c: int| 1 <= c < k ==> #[trigger] final(self).seeded(c),
    {
        let n = self.points.len();
        let ghost mut snaps: Seq<Layer> = seq![*self];
        let first = random_index(n);
        proof {
            assert(self.points@[first as int].wf());
            self.lemma_point_within(first as int);
            self.lemma_point_mass(first as int);
        }
        let seed = self.points[first].duplicate();
        self.kmeans.push(seed);
        proof {
            assert(self.kmeans@[0]@ == self.points@[first as int]@);
        }
        while self.kmeans.len() < k
            invariant
                self.wf(),
                self.street == old(self).street,
                self.metric == old(self).metric,
                self.isos == old(self).isos,
                self.points == old(self).points,
                self.lookup == old(self).lookup,
                n == self.points@.len(),
                1 <= self.kmeans@.len() <= k,
                k < MAX_CENTROIDS,
                forall|c: int|
                    0 <= c < self.kmeans@.len() ==> exists|p: int|
                        0 <= p < n && #[trigger] self.kmeans@[c]@ == self.points@[p]@,
                snaps.len() == self.kmeans@.len(),
                forall|c: int| 1 <= c < self.kmeans@.len() ==> #[trigger] self.outlier_seed(snaps[c], c),
            decreases k - self.kmeans@.len(),
        {
            let ghost s = *self;
            let p = self.sample_outlier();
            proof {
                assert(self.points@[p as int].wf());
                self.lemma_point_within(p as int);
                self.lemma_point_mass(p as int);
            }
            let next = self.points[p].duplicate();
            let ghost g = next;
            let ghost before = self.kmeans@;
            assert forall|c: int| 0 <= c < before.len() implies exists|q: int|
                0 <= q < n && #[trigger] before[c]@ == self.points@[q]@ by {
                assert(self.kmeans@[c]@ == before[c]@);
            }
            self.kmeans.push(next);
            proof {
                assert forall|c: int| 0 <= c < self.kmeans@.len() implies #[trigger] self.kmeans@[c].wf()
                    && self.kmeans@[c].spec_mass() <= total(masses(self.points@)) && within(
                    self.kmeans@[c],
                    self.points@,
                ) by {
                    if c < before.len() {
                        assert(self.kmeans@[c] == before[c]);
                    } else {
                        assert(self.kmeans@[c] == g);
                    }
                }
                assert forall|c: int| 0 <= c < self.kmeans@.len() implies exists|q: int|
                    0 <= q < n && #[trigger] self.kmeans@[c]@ == self.points@[q]@ by {
                    if c < before.len() {
                        assert(self.kmeans@[c] == before[c]);
                        let q = choose|q: int| 0 <= q < n && #[trigger] before[c]@ == self.points@[q]@;
                        assert(self.kmeans@[c]@ == self.points@[q]@);
                    } else {
                        assert(self.kmeans@[c] == g);
                        assert(self.kmeans@[c]@ == self.points@[p as int]@);
                    }
                }
                assert(self.kmeans@.len() < MAX_CENTROIDS);
                assert(self.lookup.wf());
                assert(spans(self.metric, self.points@));
                assert(self.street != Street::Rive);
                assert(self.metric.wf());
                assert(self.isos@.len() == self.points@.len());
                assert(total(masses(self.points@)) <= MAX_MASS);
                assert(forall|p: int|
                    0 <= p < self.points@.len() ==> #[trigger] self.points@[p].wf() && self.points@[p]@
                        != Map::<u64, u64>::empty());
                assert(self.wf());
                let ghost old_snaps = snaps;
                snaps = snaps.push(s);
                assert forall|c: int| 1 <= c < self.kmeans@.len() implies #[trigger] self.outlier_seed(snaps[c], c) by {
                    assert(self.kmeans@.subrange(0, c) =~= if c < before.len() { before.subrange(0, c) } else { before });
                    if c < before.len() {
                        assert(snaps[c] == old_snaps[c]);
                        assert(self.kmeans@[c] == before[c]);
                        assert(s.outlier_seed(old_snaps[c], c));
                    } else {
                        assert(snaps[c] == s);
                        assert(s.kmeans@ == before);
                        assert(self.kmeans@[c]@ == self.points@[p as int]@);
                    }
                }
            }
        }
        proof {
            assert forall|c: int| 1 <= c < k implies #[trigger] self.seeded(c) by {
                assert(self.outlier_seed(snaps[c], c));
            }
        }
    }

    /// Runs `t` rounds of Lloyd's iteration: assign each point to its
    /// nearest centroid, pool the centroids anew, reseed the empty ones.
    /// Returns each round's sum of squared distances.
    #[verifier::spinoff_prover]
    pub fn kmeans_cluster(&mut self, t: usize) -> (r: Vec<u128>)
        requires
            old(self).wf(),
            old(self).kmeans@.len() > 0,
        ensures
            final(self).wf(),
            final(self).street == old(self).street,
            final(self).metric == old(self).metric,
            final(self).isos == old(self).isos,
            final(self).points == old(self).points,
            final(self).kmeans@.len() == old(self).kmeans@.len(),
            r@.len() == t,
            t > 0 ==> forall|p: int|
                0 <= p < final(self).isos@.len() ==> #[trigger] final(self).lookup@.contains_key(
                    final(self).isos@[p],
                ),
            t > 0 ==> forall|c: int|
                0 <= c < final(self).kmeans@.len() ==> #[trigger] final(self).kmeans@[c]@ != Map::<
                    u64,
                    u64,
                >::empty(),
            t > 0 ==> exists|s: Layer, to: Seq<(usize, u64)>|
                #[trigger] final(self).follows(s, to) && r@[t - 1] == squares(to, to.len()),
            forall|i: int| 0 <= i < t ==> #[trigger] final(self).round_loss(r@[i] as int),
            exists|snaps: Seq<Layer>, tos: Seq<Seq<(usize, u64)>>|
                #[trigger] final(self).ran(*old(self), snaps, tos, r@),
    {
        let mut losses: Vec<u128> = Vec::new();
        let mut i: usize = 0;
        let ghost mut snaps: Seq<Layer> = Seq::empty();
        let ghost mut tos: Seq<Seq<(usize, u64)>> = Seq::empty();
        while i < t
            invariant
                self.wf(),
                self.street == old(self).street,
                self.metric == old(self).metric,
                self.isos == old(self).isos,
                self.points == old(self).points,
                self.kmeans@.len() == old(self).kmeans@.len(),
                self.kmeans@.len() > 0,
                i <= t,
                losses@.len() == i,
                i > 0 ==> forall|c: int|
                    0 <= c < self.kmeans@.len() ==> #[trigger] self.kmeans@[c]@ != Map::<u64, u64>::empty(),
                i > 0 ==> forall|p: int|
                    0 <= p < self.isos@.len() ==> #[trigger] self.lookup@.contains_key(self.isos@[p]),
                snaps.len() == i,
                tos.len() == i,
                forall|j: int|
                    0 <= j < i ==> #[trigger] snaps[j].assigns(tos[j]) && snaps[j].points == self.points
                        && snaps[j].metric == self.metric && snaps[j].kmeans@.len() == self.kmeans@.len()
                        && losses@[j] == squares(tos[j], tos[j].len()),
                i > 0 ==> self.follows(snaps[i - 1], tos[i - 1]),
                i > 0 ==> snaps[0] == *old(self),
                i == 0 ==> *self == *old(self),
                forall|j: int| 0 <= j < i - 1 ==> #[trigger] snaps[j + 1].follows(snaps[j], tos[j]),
            decreases t - i,
        {
            let ghost before = *self;
            let near = self.get_neighbor();
            let ghost m0 = self.lookup@;
            let loss = self.set_neighbor(&near);
            proof {
                lemma_assigned(self.street, m0, self.isos@, near@, near@.len());
            }
            let ghost mid = *self;
            self.set_orphaned();
            let ghost prior = losses@;
            losses.push(loss);
            proof {
                assert(before.assigns(near@));
                assert forall|c: int, k: u64|
                    0 <= c < self.kmeans@.len() && !pooled_empty(self.points@, near@, c, near@.len())
                        implies #[trigger] self.kmeans@[c].count(k) == pooled(
                    self.points@,
                    near@,
                    c,
                    k,
                    near@.len(),
                ) by {
                    let w = choose|w: u64| pooled(self.points@, near@, c, w, near@.len()) != 0;
                    assert(mid.kmeans@[c].count(w) == pooled(mid.points@, near@, c, w, near@.len()));
                    assert(mid.kmeans@[c]@.contains_key(w));
                    assert(mid.kmeans@[c]@ != Map::<u64, u64>::empty()) by {
                        assert(!Map::<u64, u64>::empty().contains_key(w));
                    }
                    assert(self.kmeans@[c] == mid.kmeans@[c]);
                }
                assert(self.follows(before, near@));
                let ghost old_snaps = snaps;
                snaps = snaps.push(before);
                assert forall|j: int| 0 <= j < i implies #[trigger] snaps[j + 1].follows(snaps[j], tos[j])
                    by {
                    if j < i - 1 {
                        assert(snaps[j + 1] == old_snaps[j + 1]);
                        assert(old_snaps[j + 1].follows(old_snaps[j], tos[j]));
                    } else {
                        assert(snaps[j + 1] == before);
                    }
                }
                tos = tos.push(near@);
                assert forall|j: int|
                    0 <= j < i + 1 implies #[trigger] snaps[j].assigns(tos[j]) && snaps[j].points
                    == self.points && snaps[j].metric == self.metric && snaps[j].kmeans@.len()
                    == self.kmeans@.len() && losses@[j] == squares(tos[j], tos[j].len()) by {
                    if j < i {
                        assert(losses@[j] == prior[j]);
                    } else {
                        assert(snaps[j] == before);
                        assert(tos[j] == near@);
                        assert(losses@[j] == loss);
                    }
                }
            }
            i = i + 1;
        }
        proof {
            if t > 0 {
                assert(self.follows(snaps[t - 1], tos[t - 1]));
            }
            assert forall|j: int| 0 <= j < t implies #[trigger] self.round_loss(losses@[j] as int) by {
                assert(snaps[j].assigns(tos[j]));
            }
            assert forall|j: int| 0 <= j < t implies #[trigger] losses@[j] == squares(tos[j], tos[j].len()) by {
                assert(snaps[j].assigns(tos[j]));
            }
            assert(self.ran(*old(self), snaps, tos, losses@));
        }
        losses
    }

    /// Learns this street's abstractions: seeds `k` centroids by k-means++,
    /// runs `t` rounds of Lloyd's iteration, and returns this street's
    /// metric between the learned abstractions with each round's loss.
    pub fn cluster(&mut self, k: usize, t: usize) -> (r: (Option<Metric>, Vec<u128>))
        requires
            old(self).wf(),
            old(self).kmeans@.len() == 0,
            1 <= k < MAX_CENTROIDS,
        ensures
            final(self).wf(),
            final(self).street == old(self).street,
            final(self).metric == old(self).metric,
            final(self).isos == old(self).isos,
            final(self).points == old(self).points,
            final(self).kmeans@.len() == k,
            r.1@.len() == t,
            t > 0 ==> exists|s: Layer, to: Seq<(usize, u64)>|
                #[trigger] final(self).follows(s, to) && r.1@[t - 1] == squares(to, to.len()),
            forall|i: int| 0 <= i < t ==> #[trigger] final(self).round_loss(r.1@[i] as int),
            r.0 is None <==> collide(final(self).street, k as int),
            r.0 matches Some(m) ==> final(self).centroid_metric(m),
            exists|start: Layer, snaps: Seq<Layer>, tos: Seq<Seq<(usize, u64)>>|
                #[trigger] final(self).ran(start, snaps, tos, r.1@) && start.kmeans@.len() == k
                    && seeded_all(start, k as int),
    {
        self.kmeans_initial(k);
        let ghost start = *self;
        let losses = self.kmeans_cluster(t);
        let metric = self.inner_metric();
        (metric, losses)
    }

    /// `m` is the metric between the learned abstractions of this layer:
    /// for every two centroids, the mean of the greedy distances both ways
    /// between their histograms, and no other pair.
    pub open spec fn centroid_metric(&self, m: Metric) -> bool {
        &&& m.wf()
        &&& forall|a: int, b: int|
            0 <= b < a < self.kmeans@.len() ==> m@.contains_key(#[trigger] centroid_key(self.street, a, b))
                && m@[centroid_key(self.street, a, b)] == symmetric(
                self.metric,
                self.kmeans@[a],
                self.kmeans@[b],
            )
        &&& forall|key: u64|
            #[trigger] m@.contains_key(key) ==> exists|a: int, b: int|
                0 <= b < a < self.kmeans@.len() && key == #[trigger] centroid_key(self.street, a, b)
    }

    /// The metric between this street's abstractions: for every two
    /// centroids, the mean of the greedy distances both ways between their
    /// histograms, under the pair of their abstractions. Fails when two
    /// pairs of abstractions share a key, which their layout rules out.
    pub fn inner_metric(&self) -> (r: Option<Metric>)
        requires
            self.wf(),
        ensures
            r is None <==> collide(self.street, self.kmeans@.len() as int),
            r matches Some(m) ==> self.centroid_metric(m),
    {
        let k = self.kmeans.len();
        let mut metric = Metric::new();
        let mut a: usize = 0;
        let mut b: usize = 0;
        while a < k
            invariant
                self.wf(),
                k == self.kmeans@.len(),
                a <= k,
                b <= a,
                a == k ==> b == 0,
                metric.wf(),
                forall|x: int, y: int|
                    earlier(x, y, a as int, b as int) ==> metric@.contains_key(
                        #[trigger] centroid_key(self.street, x, y),
                    ) && metric@[centroid_key(self.street, x, y)] == symmetric(
                        self.metric,
                        self.kmeans@[x],
                        self.kmeans@[y],
                    ),
                forall|key: u64|
                    #[trigger] metric@.contains_key(key) ==> exists|x: int, y: int|
                        earlier(x, y, a as int, b as int) && key == #[trigger] centroid_key(self.street, x, y),
                forall|x: int, y: int, u: int, v: int|
                    earlier(x, y, a as int, b as int) && earlier(u, v, a as int, b as int) && (x != u || y
                        != v) ==> #[trigger] centroid_key(self.street, x, y) != #[trigger] centroid_key(
                        self.street,
                        u,
                        v,
                    ),
            decreases k - a, a - b,
        {
            if b == a {
                a = a + 1;
                b = 0;
                proof {
                    assert forall|x: int, y: int| #[trigger]
                        earlier(x, y, a as int, b as int) == earlier(x, y, (a - 1) as int, (a - 1) as int) by {}
                }
            } else {
                let ia = Abstraction::learned(self.street, label(a as u64));
                let ib = Abstraction::learned(self.street, label(b as u64));
                let ghost key = centroid_key(self.street, a as int, b as int);
                if metric.contains(&ia, &ib) {
                    proof {
                        let (x, y) = choose|x: int, y: int|
                            earlier(x, y, a as int, b as int) && key == #[trigger] centroid_key(
                                self.street,
                                x,
                                y,
                            );
                        assert(centroid_key(self.street, a as int, b as int) == centroid_key(self.street, x, y));
                    }
                    return None;
                }
                let x = &self.kmeans[a];
                let y = &self.kmeans[b];
                proof {
                    assert(self.kmeans@[a as int].wf());
                    assert(self.kmeans@[b as int].wf());
                    self.lemma_covers(self.kmeans@[a as int], self.kmeans@[b as int]);
                    self.lemma_covers(self.kmeans@[b as int], self.kmeans@[a as int]);
                }
                let d = (self.metric.emd(x, y) + self.metric.emd(y, x)) / 2;
                let ghost before = metric@;
                metric.set(&ia, &ib, d);
                b = b + 1;
                proof {
                    assert forall|x: int, y: int| earlier(x, y, a as int, b as int) implies metric@.contains_key(
                        #[trigger] centroid_key(self.street, x, y),
                    ) && metric@[centroid_key(self.street, x, y)] == symmetric(
                        self.metric,
                        self.kmeans@[x],
                        self.kmeans@[y],
                    ) by {
                        if x != a || y != b - 1 {
                            assert(earlier(x, y, a as int, (b - 1) as int));
                            assert(before.contains_key(centroid_key(self.street, x, y)));
                        }
                    }
                    assert forall|q: u64| #[trigger] metric@.contains_key(q) implies exists|x: int, y: int|
                        earlier(x, y, a as int, b as int) && q == #[trigger] centroid_key(self.street, x, y) by {
                        if q != key {
                            assert(before.contains_key(q));
                            let (x, y) = choose|x: int, y: int|
                                earlier(x, y, a as int, (b - 1) as int) && q == #[trigger] centroid_key(
                                    self.street,
                                    x,
                                    y,
                                );
                            assert(earlier(x, y, a as int, b as int));
                        } else {
                            assert(earlier(a as int, (b - 1) as int, a as int, b as int));
                        }
                    }
                    assert forall|x: int, y: int, u: int, v: int|
                        earlier(x, y, a as int, b as int) && earlier(u, v, a as int, b as int) && (x != u
                            || y != v) implies #[trigger] centroid_key(self.street, x, y)
                        != #[trigger] centroid_key(self.street, u, v) by {
                        if x == a && y == b - 1 {
                            assert(before.contains_key(centroid_key(self.street, u, v)));
                        } else if u == a && v == b - 1 {
                            assert(before.contains_key(centroid_key(self.street, x, y)));
                        }
                    }
                }
            }
        }
        proof {
            assert forall|x: int, y: int| 0 <= y < x < k implies earlier(x, y, k as int, 0) by {}
            assert(!collide(self.street, k as int)) by {
                if collide(self.street, k as int) {
                    let (x, y, u, v) = choose|x: int, y: int, u: int, v: int|
                        0 <= y < x < k && 0 <= v < u < k && (x != u || y != v) && #[trigger] centroid_key(
                            self.street,
                            x,
                            y,
                        ) == #[trigger] centroid_key(self.street, u, v);
                    assert(earlier(x, y, k as int, 0) && earlier(u, v, k as int, 0));
                }
            }
            assert forall|key: u64| #[trigger] metric@.contains_key(key) implies exists|x: int, y: int|
                0 <= y < x < k && key == #[trigger] centroid_key(self.street, x, y) by {
                let (x, y) = choose|x: int, y: int|
                    earlier(x, y, k as int, 0) && key == #[trigger] centroid_key(self.street, x, y);
            }
        }
        Some(metric)
    }

    /// Gives every centroid left empty one point's histogram, the point
    /// drawn uniformly at random.
    #[verifier::spinoff_prover]
    pub fn set_orphaned(&mut self)
        requires
            old(self).wf(),
        ensures
            final(self).wf(),
            final(self).street == old(self).street,
            final(self).metric == old(self).metric,
            final(self).isos == old(self).isos,
            final(self).points == old(self).points,
            final(self).lookup == old(self).lookup,
            final(self).kmeans@.len() == old(self).kmeans@.len(),
            forall|c: int|
                0 <= c < final(self).kmeans@.len() ==> #[trigger] final(self).kmeans@[c]@ != Map::<
                    u64,
                    u64,
                >::empty(),
            forall|c: int|
                0 <= c < final(self).kmeans@.len() && old(self).kmeans@[c]@ != Map::<u64, u64>::empty()
                    ==> #[trigger] final(self).kmeans@[c] == old(self).kmeans@[c],
            forall|c: int|
                0 <= c < final(self).kmeans@.len() && old(self).kmeans@[c]@ == Map::<u64, u64>::empty()
                    ==> exists|p: int|
                    0 <= p < final(self).points@.len() && #[trigger] final(self).kmeans@[c]@
                        == final(self).points@[p]@,
    {
        let k = self.kmeans.len();
        let n = self.points.len();
        let ghost start = self.kmeans@;
        let mut c: usize = 0;
        while c < k
            invariant
                self.wf(),
                self.street == old(self).street,
                self.metric == old(self).metric,
                self.isos == old(self).isos,
                self.points == old(self).points,
                self.lookup == old(self).lookup,
                start == old(self).kmeans@,
                k == self.kmeans@.len(),
                n == self.points@.len(),
                c <= k,
                forall|j: int| 0 <= j < c ==> #[trigger] self.kmeans@[j]@ != Map::<u64, u64>::empty(),
                forall|j: int|
                    0 <= j < k && (j >= c || start[j]@ != Map::<u64, u64>::empty())
                        ==> #[trigger] self.kmeans@[j] == start[j],
                forall|j: int|
                    0 <= j < c && start[j]@ == Map::<u64, u64>::empty() ==> exists|p: int|
                        0 <= p < n && #[trigger] self.kmeans@[j]@ == self.points@[p]@,
            decreases k - c,
        {
            proof {
                assert(self.kmeans@[c as int].wf());
            }
            if self.kmeans[c].is_empty() {
                let p = random_index(n);
                proof {
                    assert(self.points@[p as int].wf());
                    self.lemma_point_within(p as int);
                    self.lemma_point_mass(p as int);
                }
                let fill = self.points[p].duplicate();
                let ghost g = fill;
                let ghost before = self.kmeans@;
                self.kmeans.set(c, fill);
                proof {
                    assert(self.kmeans@[c as int]@ == self.points@[p as int]@);
                    assert forall|j: int| 0 <= j < k implies #[trigger] self.kmeans@[j].wf()
                        && self.kmeans@[j].spec_mass() <= total(masses(self.points@)) && within(
                        self.kmeans@[j],
                        self.points@,
                    ) by {
                        if j != c {
                            assert(self.kmeans@[j] == before[j]);
                            assert(before[j].wf());
                        } else {
                            assert(self.kmeans@[j] == g);
                        }
                    }
                    assert forall|j: int|
                        0 <= j < c + 1 && start[j]@ == Map::<u64, u64>::empty() implies exists|q: int|
                        0 <= q < n && #[trigger] self.kmeans@[j]@ == self.points@[q]@ by {
                        if j == c {
                            assert(self.kmeans@[j]@ == self.points@[p as int]@);
                        } else {
                            assert(self.kmeans@[j] == before[j]);
                        }
                    }
                    assert(self.points@[p as int]@ != Map::<u64, u64>::empty());
                }
            }
            c = c + 1;
        }
    }
}

} // verus!
