use robopoker::abstraction::{label, Abstraction, Pair};
use robopoker::histogram::Histogram;
use robopoker::layer::{Layer, LayerError};
use robopoker::metric::Metric;
use robopoker::street::Street;

fn point(buckets: &[u64]) -> Histogram {
    let v: Vec<Abstraction> = buckets.iter().map(|b| Abstraction::equity(*b)).collect();
    Histogram::from_abstractions(&v)
}

fn turn_layer(points: Vec<Histogram>) -> Layer {
    let isos: Vec<u64> = (0..points.len() as u64).map(|i| 100 + i).collect();
    Layer::new(Street::Turn, Metric::new(), isos, points).expect("valid layer")
}

#[test]
fn layer_new_errors() {
    let pts = || vec![point(&[1, 2])];
    assert_eq!(
        Layer::new(Street::Rive, Metric::new(), vec![1], pts()).err(),
        Some(LayerError::River)
    );
    assert_eq!(
        Layer::new(Street::Turn, Metric::new(), vec![], vec![]).err(),
        Some(LayerError::NoPoints)
    );
    assert_eq!(
        Layer::new(Street::Turn, Metric::new(), vec![1, 2], pts()).err(),
        Some(LayerError::Mismatch)
    );
    assert_eq!(
        Layer::new(Street::Turn, Metric::new(), vec![1, 2], vec![point(&[3]), Histogram::new()]).err(),
        Some(LayerError::EmptyPoint)
    );
    // two learned Flop abstractions with no distance between them
    let a = Abstraction::learned(Street::Flop, 0);
    let b = Abstraction::learned(Street::Flop, 1);
    let gap = vec![Histogram::from_abstractions(&vec![a, b])];
    assert_eq!(
        Layer::new(Street::Pref, Metric::new(), vec![1], gap).err(),
        Some(LayerError::MetricGap)
    );
    let mut m = Metric::new();
    m.set(&a, &b, 10);
    let ok = vec![Histogram::from_abstractions(&vec![a, b])];
    assert!(Layer::new(Street::Pref, m, vec![1], ok).is_ok());
}

#[test]
fn single_centroid_takes_every_point() {
    let mut layer = turn_layer(vec![point(&[0, 0]), point(&[50]), point(&[100, 90])]);
    layer.kmeans_initial(1);
    assert_eq!(layer.kmeans.len(), 1);
    let near = layer.get_neighbor();
    assert!(near.iter().all(|(c, _)| *c == 0));
    let losses = layer.kmeans_cluster(2);
    assert_eq!(losses.len(), 2);
    for iso in 100..103u64 {
        assert_eq!(layer.lookup.get(iso), Some(Abstraction::learned(Street::Turn, label(0))));
    }
}

#[test]
fn assignment_picks_nearest_centroid() {
    let mut layer = turn_layer(vec![point(&[0]), point(&[10]), point(&[95]), point(&[100])]);
    layer.kmeans = vec![point(&[100]), point(&[0])];
    let near = layer.get_neighbor();
    assert_eq!(near, vec![(1, 0), (1, 100_000), (0, 50_000), (0, 0)]);
    let loss = layer.set_neighbor(&near);
    assert_eq!(loss, 100_000u128 * 100_000 + 50_000u128 * 50_000);
    assert_eq!(layer.kmeans[0].mass(), 2);
    assert_eq!(layer.kmeans[1].mass(), 2);
    assert_eq!(layer.lookup.get(100), Some(Abstraction::learned(Street::Turn, label(1))));
    assert_eq!(layer.lookup.get(103), Some(Abstraction::learned(Street::Turn, label(0))));
}

#[test]
fn equidistant_goes_to_smaller_abstraction() {
    let mut layer = turn_layer(vec![point(&[50])]);
    layer.kmeans = vec![point(&[40]), point(&[60])];
    assert_eq!(layer.get_neighbor(), vec![(0, 100_000)]);
}

#[test]
fn orphans_are_reseeded_and_loss_drops() {
    let mut layer = turn_layer(vec![point(&[0]), point(&[100])]);
    // every centroid starts on the first point, so all points pick centroid 0
    layer.kmeans = vec![point(&[0]), point(&[0])];
    let first = layer.kmeans_cluster(1);
    assert_eq!(first, vec![1_000_000u128 * 1_000_000]);
    assert!(layer.kmeans.iter().all(|c| !c.is_empty()));
    let second = layer.kmeans_cluster(1);
    assert!(second[0] < first[0]);
}

#[test]
fn inner_metric_is_symmetrised() {
    let mut layer = turn_layer(vec![point(&[0]), point(&[100])]);
    let left = point(&[0, 10]);
    let right = point(&[100]);
    layer.kmeans = vec![left, right];
    let m = layer.inner_metric().expect("no two pairs share a key");
    assert_eq!(m.len(), 1);
    let a = Abstraction::learned(Street::Turn, label(0));
    let b = Abstraction::learned(Street::Turn, label(1));
    let outer = Metric::new();
    let there = outer.emd(&layer.kmeans[0], &layer.kmeans[1]);
    let back = outer.emd(&layer.kmeans[1], &layer.kmeans[0]);
    // from {0, 10}: halves travel 100 and 90 buckets; back: the hole at 10
    // takes half of the pile at 100 and the rest stays put
    assert_eq!(there, 950_000);
    assert_eq!(back, 450_000);
    assert_eq!(m.distance(&a, &b), Ok((there + back) / 2));
    assert_eq!(m.distance(&b, &a), Ok(700_000));
    assert_eq!(Pair::new(&a, &b).key(), Pair::new(&b, &a).key());
}

#[test]
fn seeding_picks_points() {
    let mut layer = turn_layer(vec![point(&[0]), point(&[30]), point(&[60]), point(&[90])]);
    layer.kmeans_initial(3);
    assert_eq!(layer.kmeans.len(), 3);
    // k-means++ never picks a point already on a centroid while others are off
    let ids: Vec<u64> = layer.kmeans.iter().map(|c| c.support()[0].index()).collect();
    for i in 0..ids.len() {
        for j in 0..i {
            assert_ne!(ids[i], ids[j]);
        }
    }
}

#[test]
fn labels_keep_pair_keys_apart() {
    let n = 64u64;
    let ids: Vec<u64> = (0..n).map(|c| Abstraction::learned(Street::Flop, label(c)).id()).collect();
    let mut keys = std::collections::BTreeSet::new();
    for a in 0..n as usize {
        for b in 0..a {
            assert!(keys.insert(ids[a] ^ ids[b]), "two pairs share a key");
        }
    }
    assert_eq!(label(0), 0);
    assert_eq!(label(1), (1 << 20) + 1);
    assert_eq!(label(2) >> 20, 2);
}

#[test]
fn metric_for_many_centroids() {
    let pts: Vec<Histogram> = (0..6u64).map(|b| point(&[b * 20])).collect();
    let mut layer = turn_layer(pts);
    layer.kmeans = (0..6u64).map(|b| point(&[b * 20])).collect();
    let m = layer.inner_metric().expect("no two pairs share a key");
    assert_eq!(m.len(), 15);
    for a in 0..6u64 {
        for b in 0..a {
            let x = Abstraction::learned(Street::Turn, label(a));
            let y = Abstraction::learned(Street::Turn, label(b));
            assert_eq!(m.distance(&x, &y), Ok((a - b) * 200_000));
        }
    }
}
