use robopoker::abstraction::Abstraction;
use robopoker::histogram::Histogram;
use robopoker::metric::{Metric, MetricError};
use robopoker::street::Street;

fn river(bucket: u64) -> Abstraction {
    Abstraction::equity(bucket)
}

fn histogram(entries: &[(Abstraction, u64)]) -> Histogram {
    let mut h = Histogram::new();
    for (a, w) in entries {
        h.set(a, *w);
    }
    h
}

#[test]
fn distance_is_symmetric() {
    let a = Abstraction::learned(Street::Turn, 4);
    let b = Abstraction::learned(Street::Turn, 9);
    let mut m = Metric::new();
    m.set(&a, &b, 1234);
    assert_eq!(m.distance(&a, &b), Ok(1234));
    assert_eq!(m.distance(&b, &a), Ok(1234));
    assert_eq!(m.distance(&a, &a), Ok(0));
}

#[test]
fn distance_errors() {
    let a = Abstraction::learned(Street::Turn, 4);
    let b = Abstraction::learned(Street::Turn, 5);
    let f = Abstraction::learned(Street::Flop, 4);
    let m = Metric::new();
    assert_eq!(m.distance(&a, &f), Err(MetricError::CrossStreet));
    assert_eq!(m.distance(&a, &b), Err(MetricError::Unknown));
}

#[test]
fn river_equity_distance() {
    let m = Metric::new();
    let hi = Abstraction::from_equity(9, 10);
    let lo = Abstraction::from_equity(1, 10);
    assert_eq!(hi.index(), 90);
    assert_eq!(lo.index(), 10);
    // 0.8 in millionths
    assert_eq!(m.distance(&hi, &lo), Ok(800_000));
    assert_eq!(m.distance(&lo, &hi), Ok(800_000));
}

#[test]
fn emd_of_histogram_with_itself_is_zero() {
    let m = Metric::new();
    let h = histogram(&[(river(3), 5), (river(40), 1), (river(77), 2)]);
    assert_eq!(m.emd(&h, &h), 0);
}

#[test]
fn emd_single_points() {
    let m = Metric::new();
    let x = histogram(&[(river(20), 3)]);
    let y = histogram(&[(river(65), 7)]);
    assert_eq!(m.emd(&x, &x), 0);
    assert_eq!(m.emd(&x, &y), 450_000);
    assert_eq!(m.emd(&y, &x), 450_000);

    let a = Abstraction::learned(Street::Flop, 1);
    let b = Abstraction::learned(Street::Flop, 2);
    let mut learned = Metric::new();
    learned.set(&a, &b, 31_337);
    let p = histogram(&[(a, 2)]);
    let q = histogram(&[(b, 9)]);
    assert_eq!(learned.emd(&p, &q), 31_337);
}

#[test]
fn emd_is_asymmetric() {
    let m = Metric::new();
    let two = histogram(&[(river(0), 1), (river(10), 1)]);
    let one = histogram(&[(river(0), 1)]);
    // half the source mass travels ten buckets
    assert_eq!(m.emd(&two, &one), 50_000);
    // the one pile fills its own hole and the rest stays put
    assert_eq!(m.emd(&one, &two), 0);
}

#[test]
fn emd_spreads_source_evenly() {
    let m = Metric::new();
    let src = histogram(&[(river(0), 9), (river(100), 1)]);
    let dst = histogram(&[(river(50), 4)]);
    // each pile carries half, each travels fifty buckets
    assert_eq!(m.emd(&src, &dst), 500_000);
}
