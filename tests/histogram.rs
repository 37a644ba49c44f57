use robopoker::abstraction::Abstraction;
use robopoker::histogram::Histogram;
use robopoker::potential::Potential;
use robopoker::street::Street;

#[test]
fn set_and_weight() {
    let a = Abstraction::learned(Street::Flop, 3);
    let b = Abstraction::learned(Street::Flop, 1);
    let mut h = Histogram::new();
    assert!(h.is_empty());
    h.set(&a, 4);
    h.set(&b, 2);
    assert_eq!(h.weight(&a), 4);
    assert_eq!(h.weight(&b), 2);
    assert_eq!(h.mass(), 6);
    assert_eq!(h.len(), 2);
    let support = h.support();
    assert_eq!(support, vec![b, a]);
    h.set(&a, 0);
    assert_eq!(h.weight(&a), 0);
    assert_eq!(h.mass(), 2);
    assert_eq!(h.support(), vec![b]);
}

#[test]
fn counts_abstractions() {
    let a = Abstraction::equity(7);
    let b = Abstraction::equity(93);
    let h = Histogram::from_abstractions(&vec![a, b, a, a]);
    assert_eq!(h.weight(&a), 3);
    assert_eq!(h.weight(&b), 1);
    assert_eq!(h.mass(), 4);
}

#[test]
fn absorb_adds_weights() {
    let a = Abstraction::equity(7);
    let b = Abstraction::equity(93);
    let c = Abstraction::equity(50);
    let mut h = Histogram::from_abstractions(&vec![a, b]);
    let g = Histogram::from_abstractions(&vec![b, c, c]);
    h.absorb(&g);
    assert_eq!(h.weight(&a), 1);
    assert_eq!(h.weight(&b), 2);
    assert_eq!(h.weight(&c), 2);
    assert_eq!(h.mass(), 5);
}

#[test]
fn abstraction_identity_keeps_street() {
    for (street, index) in [(Street::Pref, 0u64), (Street::Flop, 12), (Street::Turn, 999)] {
        let a = Abstraction::learned(street, index);
        assert_eq!(a.street(), street);
        assert_eq!(a.index(), index);
        assert_eq!(Abstraction::from_id(a.id()), Some(a));
    }
    let r = Abstraction::equity(100);
    assert_eq!(r.street(), Street::Rive);
    assert_eq!(Abstraction::from_id(r.id() + 1), None);
    assert_eq!(Abstraction::from_id(u64::MAX), None);
}

#[test]
fn potential_sums_to_one() {
    let a = Abstraction::equity(7);
    let b = Abstraction::equity(93);
    let h = Histogram::from_abstractions(&vec![a, b, a]);
    let p = Potential::from_histogram(&h);
    assert_eq!(p.denominator(), 3);
    assert_eq!(p.density(&a), 2);
    assert_eq!(p.density(&b), 1);
    let values = p.values();
    assert_eq!(values, vec![2, 1]);
    assert_eq!(values.iter().sum::<u64>(), p.denominator());
}

#[test]
fn streets_in_order() {
    assert_eq!(Street::Pref.next(), Some(Street::Flop));
    assert_eq!(Street::Rive.next(), None);
    assert_eq!(Street::Flop.prev(), Some(Street::Pref));
    assert_eq!(Street::Pref.prev(), None);
    assert_eq!(Street::Turn.n_children(), 46);
}
