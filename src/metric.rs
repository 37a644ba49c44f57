use crate::abstraction::{
    index_of, lemma_pair_symmetric, pair_key, street_of, valid_id, Abstraction, Pair,
};
use crate::histogram::{Histogram, MAX_MASS};
use crate::street::Street;
use crate::sum::{lemma_total_bounds, lemma_total_scale, lemma_total_update, total};
use crate::table::Table;
use vstd::prelude::*;

verus! {

/// Distance between two adjacent River equity buckets. A distance of one
/// is a millionth, so that adjacent buckets lie one hundredth apart.
pub const EQUITY_STEP: u64 = 10_000;

/// The largest distance a metric holds.
pub const MAX_DISTANCE: u64 = 0xFFFF_FFFF;

/// Why a distance could not be given.
#[derive(PartialEq, Eq, Structural, Clone, Copy, Debug)]
pub enum MetricError {
    /// The two abstractions lie on different streets.
    CrossStreet,
    /// The metric holds no distance for the two abstractions.
    Unknown,
}

/// Where the greedy transport stands: mass each source pile has still to
/// move, room left in each target hole, and the cost paid so far.
pub struct Flow {
    pub demand: Seq<int>,
    pub vacant: Seq<int>,
    pub energy: int,
}

/// A ground metric between the abstractions of one street: the distance of
/// each pair is kept under the pair's key. On the River the distance is the
/// difference of the equity buckets.
pub struct Metric {
    table: Table,
}

impl View for Metric {
    type V = Map<u64, u64>;

    closed spec fn view(&self) -> Map<u64, u64> {
        self.table@
    }
}

impl Metric {
    pub closed spec fn wf(&self) -> bool {
        &&& self.table.wf()
        &&& forall|k: u64| #[trigger] self.table@.contains_key(k) ==> self.table@[k] <= MAX_DISTANCE
    }

    /// The metric gives a distance between the two identities.
    pub open spec fn knows(&self, a: u64, b: u64) -> bool {
        a == b || (street_of(a) == street_of(b) && (street_of(a) == Street::Rive
            || self@.contains_key(pair_key(a, b))))
    }

    /// The distance between two identities, where the metric knows it.
    pub open spec fn dist(&self, a: u64, b: u64) -> int {
        if a == b {
            0
        } else if street_of(a) == Street::Rive && street_of(b) == Street::Rive {
            let d = index_of(a) - index_of(b);
            (if d >= 0 {
                d
            } else {
                -d
            }) * EQUITY_STEP
        } else {
            self@[pair_key(a, b)] as int
        }
    }

    pub fn new() -> (r: Metric)
        ensures
            r.wf(),
            r@ == Map::<u64, u64>::empty(),
    {
        Metric { table: Table::new() }
    }

    /// Records `d` as the distance between `a` and `b`, in either order.
    pub fn set(&mut self, a: &Abstraction, b: &Abstraction, d: u64)
        requires
            old(self).wf(),
            d <= MAX_DISTANCE,
        ensures
            final(self).wf(),
            final(self)@ == old(self)@.insert(pair_key(a.spec_id(), b.spec_id()), d),
    {
        let key = Pair::new(a, b).key();
        self.table.insert(key, d);
    }

    /// The metric holds a distance for the pair of `a` and `b`.
    pub fn contains(&self, a: &Abstraction, b: &Abstraction) -> (r: bool)
        requires
            self.wf(),
        ensures
            r == self@.contains_key(pair_key(a.spec_id(), b.spec_id())),
    {
        let key = Pair::new(a, b).key();
        self.table.get(key).is_some()
    }

    /// Number of pairs held.
    pub fn len(&self) -> (r: usize)
        requires
            self.wf(),
        ensures
            r == self@.dom().len(),
    {
        proof {
            self.table.lemma_table();
        }
        self.table.len()
    }

    /// Pair keys held, in increasing order.
    pub closed spec fn keys(&self) -> Seq<u64> {
        self.table.keys()
    }

    /// The `i`th pair key held, in increasing order, and its distance.
    pub fn entry_at(&self, i: usize) -> (r: (u64, u64))
        requires
            self.wf(),
            i < self@.dom().len(),
        ensures
            r.0 == self.keys()[i as int],
            self@.contains_key(r.0),
            r.1 == self@[r.0],
    {
        proof {
            self.table.lemma_table();
        }
        (self.table.key_at(i), self.table.value_at(i))
    }

    fn dist_of(&self, a: u64, b: u64) -> (r: u64)
        requires
            self.wf(),
            valid_id(a),
            valid_id(b),
            self.knows(a, b),
        ensures
            r == self.dist(a, b),
            r <= MAX_DISTANCE,
    {
        if a == b {
            0
        } else if a / crate::abstraction::BLOCK == 3 && b / crate::abstraction::BLOCK == 3 {
            let i = a % crate::abstraction::BLOCK;
            let j = b % crate::abstraction::BLOCK;
            if i >= j {
                (i - j) * EQUITY_STEP
            } else {
                (j - i) * EQUITY_STEP
            }
        } else {
            match self.table.get(a ^ b) {
                Some(d) => d,
                None => 0,
            }
        }
    }

    /// Distance between two abstractions of one street.
    pub fn distance(&self, a: &Abstraction, b: &Abstraction) -> (r: Result<u64, MetricError>)
        requires
            self.wf(),
            a.wf(),
            b.wf(),
        ensures
            r == (if a.spec_street() != b.spec_street() {
                Err(MetricError::CrossStreet)
            } else if self.knows(a.spec_id(), b.spec_id()) {
                Ok(self.dist(a.spec_id(), b.spec_id()) as u64)
            } else {
                Err(MetricError::Unknown)
            }),
    {
        if a.street() != b.street() {
            return Err(MetricError::CrossStreet);
        }
        let x = a.id();
        let y = b.id();
        if x != y && a.street() != Street::Rive {
            if self.table.get(x ^ y).is_none() {
                return Err(MetricError::Unknown);
            }
        }
        Ok(self.dist_of(x, y))
    }

    /// Index, among the first `n` of `ys`, of the nearest to `x`; the first
    /// one wins a tie.
    pub open spec fn nearest(&self, x: u64, ys: Seq<u64>, n: nat) -> int
        decreases n,
    {
        if n <= 1 {
            0
        } else {
            let b = self.nearest(x, ys, (n - 1) as nat);
            if self.dist(x, ys[n - 1]) < self.dist(x, ys[b]) {
                n - 1
            } else {
                b
            }
        }
    }

    /// Moves what it can of pile `i` into the hole nearest to it.
    pub open spec fn pile(&self, xs: Seq<u64>, ys: Seq<u64>, f: Flow, i: int) -> Flow {
        let j = self.nearest(xs[i], ys, ys.len());
        let moved = if f.demand[i] <= f.vacant[j] {
            f.demand[i]
        } else {
            f.vacant[j]
        };
        Flow {
            demand: f.demand.update(i, f.demand[i] - moved),
            vacant: f.vacant.update(j, f.vacant[j] - moved),
            energy: f.energy + moved * self.dist(xs[i], ys[j]),
        }
    }

    /// One pass over the first `n` piles, in order.
    pub open spec fn sweep(&self, xs: Seq<u64>, ys: Seq<u64>, f: Flow, n: nat) -> Flow
        decreases n,
    {
        if n == 0 {
            f
        } else {
            self.pile(xs, ys, self.sweep(xs, ys, f, (n - 1) as nat), n - 1)
        }
    }

    /// `r` full passes over the piles.
    pub open spec fn rounds(&self, xs: Seq<u64>, ys: Seq<u64>, f: Flow, r: nat) -> Flow
        decreases r,
    {
        if r == 0 {
            f
        } else {
            self.sweep(xs, ys, self.rounds(xs, ys, f, (r - 1) as nat), xs.len())
        }
    }

    /// The starting flow, with mass scaled by the source support size times
    /// the target mass so that it is whole: each source pile holds the
    /// target's mass, each target hole its weight times the source support size.
    pub open spec fn start(src: &Histogram, dst: &Histogram) -> Flow {
        Flow {
            demand: Seq::new(src.ids().len(), |i: int| dst.spec_mass()),
            vacant: dst.weights().map_values(|w: int| w * src.ids().len()),
            energy: 0,
        }
    }

    /// Cost of the greedy transport, in the scaled mass of `start`.
    pub open spec fn greedy_energy(&self, src: &Histogram, dst: &Histogram) -> int {
        self.rounds(src.ids(), dst.ids(), Self::start(src, dst), dst.ids().len()).energy
    }

    /// Greedy earth mover's distance from `src` to `dst`: the source mass
    /// spread evenly over its support, the target mass in proportion to its
    /// weights, rounded down to a whole distance.
    pub open spec fn emd_of(&self, src: &Histogram, dst: &Histogram) -> int {
        if src.ids().len() == 0 || dst.ids().len() == 0 {
            0
        } else {
            self.greedy_energy(src, dst) / (src.ids().len() * dst.spec_mass())
        }
    }

    /// The metric knows every distance from the support of `src` to that of `dst`.
    pub open spec fn covers(&self, src: &Histogram, dst: &Histogram) -> bool {
        forall|i: int, j: int|
            0 <= i < src.ids().len() && 0 <= j < dst.ids().len() ==> self.knows(
                #[trigger] src.ids()[i],
                #[trigger] dst.ids()[j],
            )
    }

    pub proof fn lemma_nearest(&self, x: u64, ys: Seq<u64>, n: nat)
        requires
            1 <= n <= ys.len(),
        ensures
            0 <= self.nearest(x, ys, n) < n,
            forall|k: int|
                0 <= k < n ==> self.dist(x, ys[self.nearest(x, ys, n)]) <= self.dist(x, #[trigger] ys[k]),
            forall|k: int|
                0 <= k < self.nearest(x, ys, n) ==> self.dist(x, ys[self.nearest(x, ys, n)]) < self.dist(
                    x,
                    #[trigger] ys[k],
                ),
        decreases n,
    {
        if n > 1 {
            self.lemma_nearest(x, ys, (n - 1) as nat);
        }
    }

    /// Index and distance of the target hole nearest to `x`.
    fn nearest_hole(&self, x: u64, dst: &Histogram) -> (r: (usize, u64))
        requires
            self.wf(),
            dst.wf(),
            valid_id(x),
            dst.ids().len() > 0,
            forall|j: int| 0 <= j < dst.ids().len() ==> self.knows(x, #[trigger] dst.ids()[j]),
        ensures
            r.0 == self.nearest(x, dst.ids(), dst.ids().len()),
            r.0 < dst.ids().len(),
            r.1 == self.dist(x, dst.ids()[r.0 as int]),
            r.1 <= MAX_DISTANCE,
    {
        proof {
            dst.lemma_histogram();
        }
        let ny = dst.len();
        let mut best: usize = 0;
        let mut bd: u64 = self.dist_of(x, dst.id_at(0));
        let mut j: usize = 1;
        while j < ny
            invariant
                self.wf(),
                dst.wf(),
                valid_id(x),
                ny == dst.ids().len(),
                1 <= j <= ny,
                forall|j: int| 0 <= j < dst.ids().len() ==> self.knows(x, #[trigger] dst.ids()[j]),
                best == self.nearest(x, dst.ids(), j as nat),
                best < j,
                bd == self.dist(x, dst.ids()[best as int]),
                bd <= MAX_DISTANCE,
            decreases ny - j,
        {
            proof {
                dst.lemma_histogram();
            }
            let d = self.dist_of(x, dst.id_at(j));
            if d < bd {
                best = j;
                bd = d;
            }
            j = j + 1;
        }
        (best, bd)
    }

    /// Greedy earth mover's distance from `src` to `dst`. Each source pile
    /// carries an equal share of mass; in each of as many rounds as the
    /// target has abstractions, every pile in turn moves what it can into
    /// its nearest target hole. Not symmetric in its two arguments.
    pub fn emd(&self, src: &Histogram, dst: &Histogram) -> (r: u64)
        requires
            self.wf(),
            src.wf(),
            dst.wf(),
            self.covers(src, dst),
        ensures
            r == self.emd_of(src, dst),
            r <= MAX_DISTANCE,
    {
        proof {
            src.lemma_histogram();
            dst.lemma_histogram();
        }
        let nx = src.len();
        let ny = dst.len();
        if nx == 0 || ny == 0 {
            return 0;
        }
        let t = dst.mass();
        assert(t > 0 && t <= MAX_MASS);
        let ghost xs = src.ids();
        let ghost ys = dst.ids();
        let ghost init = Self::start(src, dst);
        assert(nx as int <= MAX_MASS && t as int <= MAX_MASS);
        assert(nx as int * t as int <= MAX_MASS * MAX_MASS) by (nonlinear_arith)
            requires
                nx as int <= MAX_MASS,
                t as int <= MAX_MASS,
        ;
        // the nearest hole of each pile, which no move changes
        let mut near: Vec<usize> = Vec::new();
        let mut cost: Vec<u64> = Vec::new();
        let mut demand: Vec<u64> = Vec::new();
        let mut i: usize = 0;
        while i < nx
            invariant
                self.wf(),
                src.wf(),
                dst.wf(),
                self.covers(src, dst),
                nx == xs.len(),
                ny == ys.len(),
                ny > 0,
                xs == src.ids(),
                ys == dst.ids(),
                i <= nx,
                near@.len() == i,
                cost@.len() == i,
                demand@.len() == i,
                forall|k: int|
                    0 <= k < i ==> #[trigger] near@[k] == self.nearest(xs[k], ys, ys.len())
                        && near@[k] < ny,
                forall|k: int| 0 <= k < i ==> #[trigger] cost@[k] == self.dist(xs[k], ys[near@[k] as int]),
                forall|k: int| 0 <= k < i ==> #[trigger] cost@[k] <= MAX_DISTANCE,
                forall|k: int| 0 <= k < i ==> #[trigger] demand@[k] == t,
            decreases nx - i,
        {
            proof {
                src.lemma_histogram();
                assert forall|j: int| 0 <= j < ys.len() implies self.knows(xs[i as int], #[trigger] ys[j]) by {
                    assert(self.knows(src.ids()[i as int], dst.ids()[j]));
                }
            }
            let (j, d) = self.nearest_hole(src.id_at(i), dst);
            near.push(j);
            cost.push(d);
            demand.push(t);
            i = i + 1;
        }
        let mut vacant: Vec<u64> = Vec::new();
        let mut j: usize = 0;
        while j < ny
            invariant
                dst.wf(),
                ny == ys.len(),
                ys == dst.ids(),
                t == dst.spec_mass(),
                nx as int * t as int <= MAX_MASS * MAX_MASS,
                j <= ny,
                vacant@.len() == j,
                forall|k: int| 0 <= k < j ==> #[trigger] vacant@[k] == dst.weights()[k] * nx,
            decreases ny - j,
        {
            proof {
                dst.lemma_histogram();
                assert(dst@.contains_key(dst.ids()[j as int]));
                let w = dst.weights()[j as int];
                assert(w * nx <= t * nx) by (nonlinear_arith)
                    requires
                        w <= t,
                        nx >= 0,
                ;
            }
            let w = dst.weight_at(j);
            vacant.push(w * (nx as u64));
            j = j + 1;
        }
        proof {
            assert(demand@.map_values(|v: u64| v as int) =~= init.demand);
            assert(vacant@.map_values(|v: u64| v as int) =~= init.vacant);
            lemma_total_scale(dst.weights(), nx as int);
        }
        let mut energy: u128 = 0;
        let mut r: usize = 0;
        while r < ny
            invariant
                self.wf(),
                nx == xs.len(),
                ny == ys.len(),
                nx > 0,
                xs == src.ids(),
                ys == dst.ids(),
                r <= ny,
                near@.len() == nx,
                cost@.len() == nx,
                demand@.len() == nx,
                vacant@.len() == ny,
                forall|k: int|
                    0 <= k < nx ==> #[trigger] near@[k] == self.nearest(xs[k], ys, ys.len())
                        && near@[k] < ny,
                forall|k: int| 0 <= k < nx ==> #[trigger] cost@[k] == self.dist(xs[k], ys[near@[k] as int]),
                forall|k: int| 0 <= k < nx ==> #[trigger] cost@[k] <= MAX_DISTANCE,
                forall|k: int| 0 <= k < nx ==> #[trigger] demand@[k] <= t,
                0 < t <= MAX_MASS,
                nx as int * t as int <= MAX_MASS * MAX_MASS,
                demand@.map_values(|v: u64| v as int) == self.rounds(xs, ys, init, r as nat).demand,
                vacant@.map_values(|v: u64| v as int) == self.rounds(xs, ys, init, r as nat).vacant,
                energy == self.rounds(xs, ys, init, r as nat).energy,
                energy + total(vacant@.map_values(|v: u64| v as int)) * MAX_DISTANCE <= nx * t
                    * MAX_DISTANCE,
            decreases ny - r,
        {
            let ghost base = self.rounds(xs, ys, init, r as nat);
            let mut i: usize = 0;
            while i < nx
                invariant
                    self.wf(),
                    nx == xs.len(),
                    ny == ys.len(),
                    xs == src.ids(),
                    ys == dst.ids(),
                    i <= nx,
                    near@.len() == nx,
                    cost@.len() == nx,
                    demand@.len() == nx,
                    vacant@.len() == ny,
                    forall|k: int|
                        0 <= k < nx ==> #[trigger] near@[k] == self.nearest(xs[k], ys, ys.len())
                            && near@[k] < ny,
                    forall|k: int|
                        0 <= k < nx ==> #[trigger] cost@[k] == self.dist(xs[k], ys[near@[k] as int]),
                    forall|k: int| 0 <= k < nx ==> #[trigger] cost@[k] <= MAX_DISTANCE,
                    forall|k: int| 0 <= k < nx ==> #[trigger] demand@[k] <= t,
                    t <= MAX_MASS,
                    nx as int * t as int <= MAX_MASS * MAX_MASS,
                    demand@.map_values(|v: u64| v as int) == self.sweep(xs, ys, base, i as nat).demand,
                    vacant@.map_values(|v: u64| v as int) == self.sweep(xs, ys, base, i as nat).vacant,
                    energy == self.sweep(xs, ys, base, i as nat).energy,
                    energy + total(vacant@.map_values(|v: u64| v as int)) * MAX_DISTANCE <= nx * t
                        * MAX_DISTANCE,
                decreases nx - i,
            {
                let ghost before = self.sweep(xs, ys, base, i as nat);
                let ghost vs = vacant@.map_values(|v: u64| v as int);
                let h = near[i];
                let d = cost[i];
                let want = demand[i];
                let room = vacant[h];
                let moved = if want <= room {
                    want
                } else {
                    room
                };
                proof {
                    assert(before.demand[i as int] == want);
                    assert(before.vacant[h as int] == room);
                    assert forall|k: int| 0 <= k < vs.len() implies vs[k] >= 0 by {}
                    lemma_total_bounds(vs);
                    assert(moved as int * d as int <= moved as int * MAX_DISTANCE) by (nonlinear_arith)
                        requires
                            d <= MAX_DISTANCE,
                    ;
                    lemma_total_update(vs, h as int, room - moved);
                    assert(energy + moved as int * d as int <= nx * t * MAX_DISTANCE) by (nonlinear_arith)
                        requires
                            energy + total(vs) * MAX_DISTANCE <= nx * t * MAX_DISTANCE,
                            moved <= room,
                            room == vs[h as int],
                            vs[h as int] <= total(vs),
                            moved as int * d as int <= moved as int * MAX_DISTANCE,
                    ;
                    assert(nx * t * MAX_DISTANCE <= MAX_MASS * MAX_MASS * MAX_DISTANCE) by (nonlinear_arith)
                        requires
                            nx as int * t as int <= MAX_MASS * MAX_MASS,
                    ;
                }
                let ghost e0 = energy as int;
                energy = energy + (moved as u128) * (d as u128);
                demand.set(i, want - moved);
                vacant.set(h, room - moved);
                proof {
                    let after = self.sweep(xs, ys, base, (i + 1) as nat);
                    assert(after == self.pile(xs, ys, before, i as int));
                    assert(demand@.map_values(|v: u64| v as int) =~= after.demand);
                    assert(vacant@.map_values(|v: u64| v as int) =~= after.vacant);
                    assert(vacant@.map_values(|v: u64| v as int) =~= vs.update(h as int, room - moved));
                    let vn = vacant@.map_values(|v: u64| v as int);
                    assert(total(vn) == total(vs) - moved);
                    assert(energy + total(vn) * MAX_DISTANCE <= nx * t * MAX_DISTANCE) by (nonlinear_arith)
                        requires
                            e0 + total(vs) * MAX_DISTANCE <= nx * t * MAX_DISTANCE,
                            energy == e0 + moved as int * d as int,
                            total(vn) == total(vs) - moved,
                            moved as int * d as int <= moved as int * MAX_DISTANCE,
                    ;
                }
                i = i + 1;
            }
            r = r + 1;
        }
        proof {
            assert(energy <= nx * t * MAX_DISTANCE) by {
                let vs = vacant@.map_values(|v: u64| v as int);
                assert forall|k: int| 0 <= k < vs.len() implies vs[k] >= 0 by {}
                lemma_total_bounds(vs);
            }
            assert(energy as int / (nx as int * t as int) <= MAX_DISTANCE) by (nonlinear_arith)
                requires
                    energy <= nx * t * MAX_DISTANCE,
                    nx > 0,
                    t > 0,
            ;
        }
        let den: u128 = (nx as u128) * (t as u128);
        assert(den > 0) by (nonlinear_arith)
            requires
                den == nx as int * t as int,
                nx > 0,
                t > 0,
        ;
        (energy / den) as u64
    }
}

/// The distance between two abstractions does not depend on their order,
/// and is never negative.
pub proof fn lemma_distance_symmetric(m: &Metric, a: u64, b: u64)
    ensures
        m.knows(a, b) == m.knows(b, a),
        m.dist(a, b) == m.dist(b, a),
        m.dist(a, b) >= 0,
{
    lemma_pair_symmetric(a, b);
}

proof fn lemma_sweep_free(m: &Metric, xs: Seq<u64>, ys: Seq<u64>, f: Flow, n: nat)
    requires
        n <= xs.len(),
        forall|i: int| 0 <= i < n ==> m.dist(xs[i], ys[m.nearest(xs[i], ys, ys.len())]) == 0,
    ensures
        m.sweep(xs, ys, f, n).energy == f.energy,
    decreases n,
{
    if n > 0 {
        lemma_sweep_free(m, xs, ys, f, (n - 1) as nat);
        let g = m.sweep(xs, ys, f, (n - 1) as nat);
        let i = n - 1;
        let j = m.nearest(xs[i], ys, ys.len());
        let moved = if g.demand[i] <= g.vacant[j] {
            g.demand[i]
        } else {
            g.vacant[j]
        };
        assert(moved * m.dist(xs[i], ys[j]) == 0) by (nonlinear_arith)
            requires
                m.dist(xs[i], ys[j]) == 0,
        ;
    }
}

proof fn lemma_rounds_free(m: &Metric, xs: Seq<u64>, ys: Seq<u64>, f: Flow, r: nat)
    requires
        forall|i: int|
            0 <= i < xs.len() ==> m.dist(xs[i], ys[m.nearest(xs[i], ys, ys.len())]) == 0,
    ensures
        m.rounds(xs, ys, f, r).energy == f.energy,
    decreases r,
{
    if r > 0 {
        lemma_rounds_free(m, xs, ys, f, (r - 1) as nat);
        lemma_sweep_free(m, xs, ys, m.rounds(xs, ys, f, (r - 1) as nat), xs.len());
    }
}

/// The greedy distance from a histogram to itself is zero.
pub proof fn lemma_emd_self(m: &Metric, h: &Histogram)
    requires
        h.wf(),
    ensures
        m.emd_of(h, h) == 0,
{
    h.lemma_histogram();
    let xs = h.ids();
    if xs.len() > 0 {
        assert forall|i: int| 0 <= i < xs.len() implies m.dist(
            xs[i],
            xs[m.nearest(xs[i], xs, xs.len())],
        ) == 0 by {
            m.lemma_nearest(xs[i], xs, xs.len());
            let j = m.nearest(xs[i], xs, xs.len());
            lemma_distance_symmetric(m, xs[i], xs[j]);
            assert(m.dist(xs[i], xs[j]) <= m.dist(xs[i], xs[i]));
        }
        lemma_rounds_free(m, xs, xs, Metric::start(h, h), xs.len());
        assert(xs.len() * h.spec_mass() > 0) by (nonlinear_arith)
            requires
                xs.len() > 0,
                h.spec_mass() >= xs.len(),
        ;
    }
}

/// From one abstraction to one abstraction, the greedy distance is the
/// ground distance between the two.
pub proof fn lemma_emd_single(m: &Metric, src: &Histogram, dst: &Histogram)
    requires
        src.wf(),
        dst.wf(),
        src.ids().len() == 1,
        dst.ids().len() == 1,
        m.knows(src.ids()[0], dst.ids()[0]),
    ensures
        m.emd_of(src, dst) == m.dist(src.ids()[0], dst.ids()[0]),
{
    src.lemma_histogram();
    dst.lemma_histogram();
    let xs = src.ids();
    let ys = dst.ids();
    let t = dst.spec_mass();
    let w = dst.weights();
    assert(w.drop_last().len() == 0);
    assert(total(w.drop_last()) == 0);
    assert(t == w[0]);
    let init = Metric::start(src, dst);
    assert(init.demand[0] == t);
    assert(init.vacant[0] == t);
    let f = m.rounds(xs, ys, init, 1);
    assert(m.rounds(xs, ys, init, 0) == init);
    assert(m.sweep(xs, ys, init, 0) == init);
    assert(m.nearest(xs[0], ys, 1) == 0);
    assert(f == m.pile(xs, ys, init, 0));
    let d = m.dist(xs[0], ys[0]);
    assert(f.energy == t * d);
    assert((t * d) / (1 * t) == d) by (nonlinear_arith)
        requires
            t > 0,
    ;
}

} // verus!
