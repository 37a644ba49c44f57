use rand::Rng;
use robopoker::abstraction::Abstraction;
use robopoker::histogram::Histogram;
use robopoker::metric::Metric;
use robopoker::street::Street;

/// A random histogram over learned Turn abstractions, with a metric that
/// knows every pair of them.
fn random_case(rng: &mut impl Rng) -> (Metric, Histogram, Histogram) {
    let n: u64 = rng.gen_range(1..9);
    let basis: Vec<Abstraction> = (0..n).map(|i| Abstraction::learned(Street::Turn, 1 << i)).collect();
    let mut metric = Metric::new();
    for a in &basis {
        for b in &basis {
            if a.id() > b.id() {
                metric.set(a, b, rng.gen_range(1..1_000_000));
            }
        }
    }
    let mut hs = Vec::new();
    for _ in 0..2 {
        let mut h = Histogram::new();
        for a in &basis {
            if rng.gen_bool(0.7) {
                h.set(a, rng.gen_range(1..20));
            }
        }
        if h.is_empty() {
            h.set(&basis[0], 1);
        }
        hs.push(h);
    }
    let q = hs.pop().unwrap();
    let p = hs.pop().unwrap();
    (metric, p, q)
}

#[test]
fn random_distances_symmetric() {
    let mut rng = rand::thread_rng();
    for _ in 0..50 {
        let (m, p, _) = random_case(&mut rng);
        for a in p.support() {
            for b in p.support() {
                assert_eq!(m.distance(&a, &b), m.distance(&b, &a));
            }
        }
    }
}

#[test]
fn random_emd_self_zero_and_bounded() {
    let mut rng = rand::thread_rng();
    for _ in 0..50 {
        let (m, p, q) = random_case(&mut rng);
        assert_eq!(m.emd(&p, &p), 0);
        assert_eq!(m.emd(&q, &q), 0);
        // no unit of mass travels farther than the farthest pair
        let far = p
            .support()
            .iter()
            .flat_map(|a| q.support().into_iter().map(move |b| (*a, b)))
            .map(|(a, b)| m.distance(&a, &b).unwrap())
            .max()
            .unwrap();
        assert!(m.emd(&p, &q) <= far);
    }
}
