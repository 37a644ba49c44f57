use robopoker::abstraction::Abstraction;
use robopoker::cards::Observation;
use robopoker::lookup::Lookup;
use robopoker::metric::Metric;
use robopoker::street::Street;

fn card(s: &str) -> u8 {
    let b = s.as_bytes();
    let rank = "23456789TJQKA".find(b[0] as char).unwrap() as u8;
    let suit = "cdhs".find(b[1] as char).unwrap() as u8;
    rank * 4 + suit
}

fn cards(s: &str) -> Vec<u8> {
    (0..s.len() / 2).map(|i| card(&s[2 * i..2 * i + 2])).collect()
}

fn obs(pocket: &str, public: &str) -> Observation {
    Observation::new(cards(pocket), cards(public)).expect("valid observation")
}

#[test]
fn observation_checks_cards() {
    assert!(Observation::new(vec![0, 1], vec![]).is_some());
    assert!(Observation::new(vec![0], vec![]).is_none());
    assert!(Observation::new(vec![0, 52], vec![]).is_none());
    assert!(Observation::new(vec![0, 1], vec![2, 3]).is_none());
    assert_eq!(obs("AsKs", "2c3c4c5c").street(), Street::Turn);
    assert_eq!(obs("AsKs", "").street(), Street::Pref);
}

#[test]
fn canonical_is_idempotent() {
    for (p, b) in [("Kd8s", "6dJsAc2h"), ("AsAh", ""), ("7c2d", "7h7s2c"), ("9h8h", "ThJh2c3d")] {
        let o = obs(p, b);
        let c = o.canonical();
        let cc = c.canonical();
        assert_eq!(cc.id(), c.id());
        assert!(c.id() <= o.id());
    }
}

#[test]
fn suit_renaming_shares_isomorphism() {
    let a = obs("AsKs", "2s7h9d").canonical().id();
    let b = obs("AhKh", "2h7c9s").canonical().id();
    let c = obs("AsKh", "2s7h9d").canonical().id();
    assert_eq!(a, b);
    assert_ne!(a, c);
    // the order of the cards does not matter
    assert_eq!(obs("KsAs", "9d7h2s").canonical().id(), a);
}

#[test]
fn encode_of_canonical_matches() {
    let pre = Lookup::make_preflop();
    for p in ["AsAh", "7c2d", "KdQd", "Th9c"] {
        let o = obs(p, "");
        let c = o.canonical();
        assert!(pre.lookup(&o).is_some());
        assert_eq!(pre.lookup(&c), pre.lookup(&o));
    }
}

#[test]
fn preflop_has_169_classes() {
    let pre = Lookup::make_preflop();
    assert_eq!(pre.len(), 169);
    let mut counts = std::collections::BTreeMap::new();
    for x in 0..52u8 {
        for y in 0..x {
            let a = pre.lookup(&Observation::new(vec![x, y], vec![]).unwrap()).unwrap();
            assert_eq!(a.street(), Street::Pref);
            *counts.entry(a.id()).or_insert(0) += 1;
        }
    }
    assert_eq!(counts.len(), 169);
    let class = |p: &str| counts[&pre.lookup(&obs(p, "")).unwrap().id()];
    assert_eq!(class("AsAh"), 6);
    assert_eq!(class("AsKs"), 4);
    assert_eq!(class("AsKh"), 12);
}

#[test]
fn persistence() {
    let lookup = Lookup::make_preflop();
    let loaded = Lookup::load(&lookup.save()).expect("round trip");
    assert_eq!(loaded.len(), lookup.len());
    for i in 0..lookup.len() {
        assert_eq!(loaded.iso_at(i), lookup.iso_at(i));
        assert_eq!(loaded.abs_at(i), lookup.abs_at(i));
    }
}

#[test]
fn river_self_distance() {
    let h = obs("Kd8s", "6dJsAc2h9c");
    let mut river = Lookup::new();
    river.assign(&Abstraction::from_equity(61, 100), h.canonical().id());
    let a = river.lookup(&h).expect("encoded");
    assert_eq!(Metric::new().distance(&a, &a), Ok(0));
}

#[test]
fn children_per_street() {
    assert_eq!(obs("AsKs", "2c3c4c5c").children().len(), Street::Turn.n_children() as usize);
    assert_eq!(obs("AsKs", "2c3c4c").children().len(), Street::Flop.n_children() as usize);
    let flops = obs("AsKs", "").children();
    assert_eq!(flops.len(), Street::Pref.n_children() as usize);
    assert!(flops.iter().all(|k| k.street() == Street::Flop && k.pocket == cards("AsKs")));
    let turn = obs("9h8h", "ThJh2c3d");
    for kid in turn.children() {
        assert_eq!(kid.street(), Street::Rive);
        assert_eq!(&kid.public[..4], &turn.public[..]);
        assert!(!turn.public.contains(&kid.public[4]) && !turn.pocket.contains(&kid.public[4]));
    }
}

#[test]
fn projection_counts_children() {
    let turn = obs("9h8h", "ThJh2c3d");
    let mut river = Lookup::new();
    for kid in turn.children() {
        let bucket = (kid.public[4] / 4) as u64 * 8;
        river.assign(&Abstraction::equity(bucket), kid.canonical().id());
    }
    let h = river.project(&turn).expect("every river encoded");
    assert_eq!(h.mass(), 46);
    // no ace has been seen: all four can come
    assert_eq!(h.weight(&Abstraction::equity(96)), 4);
    // the ten is on the board in hearts; three tens remain
    assert_eq!(h.weight(&Abstraction::equity(64)), 3);
    let other = obs("2c2d", "ThJh9c3d");
    assert!(Lookup::new().project(&other).is_none());
}

#[test]
fn layer_from_observations() {
    let turns = vec![obs("9h8h", "ThJh2c3d"), obs("AsAd", "2c7h9dKs")];
    let mut river = Lookup::new();
    for t in &turns {
        for kid in t.children() {
            let bucket = (kid.public[4] / 4) as u64 * 8;
            river.assign(&Abstraction::equity(bucket), kid.canonical().id());
        }
    }
    let layer = robopoker::layer::Layer::from_observations(Street::Turn, Metric::new(), &river, &turns)
        .expect("layer");
    assert_eq!(layer.points.len(), 2);
    assert!(layer.points.iter().all(|p| p.mass() == 46));
    assert_eq!(layer.isos[0], turns[0].canonical().id());
}
