use robopoker::abstraction::Abstraction;
use robopoker::cards::Observation;
use robopoker::evaluation::{river_abstraction, river_equity, score_five, strength, Evaluator, LazyEvaluator};
use robopoker::layer::{Layer, LayerError};
use robopoker::lookup::Lookup;
use robopoker::metric::Metric;
use robopoker::street::Street;

fn cards(s: &str) -> Vec<u8> {
    (0..s.len() / 2)
        .map(|i| {
            let b = s[2 * i..2 * i + 2].as_bytes();
            let rank = "23456789TJQKA".find(b[0] as char).unwrap() as u8;
            let suit = "cdhs".find(b[1] as char).unwrap() as u8;
            rank * 4 + suit
        })
        .collect()
}

fn obs(pocket: &str, public: &str) -> Observation {
    Observation::new(cards(pocket), cards(public)).expect("valid observation")
}

#[test]
fn five_card_categories_in_order() {
    let ladder = [
        "AsKsQsJsTs", // straight flush
        "9c9d9h9s2c", // four of a kind
        "3c3d3hKsKd", // full house
        "2h5h9hJhKh", // flush
        "Tc9d8h7s6c", // straight
        "QcQdQh4s2c", // three of a kind
        "JcJd4h4s2c", // two pair
        "AcAd9h7s2c", // one pair
        "AcQd9h7s2c", // high card
    ];
    let scores: Vec<u64> = ladder.iter().map(|h| score_five(&cards(h))).collect();
    for w in scores.windows(2) {
        assert!(w[0] > w[1]);
    }
    assert_eq!(scores[0] >> 52, 8);
    assert_eq!(scores[8] >> 52, 0);
}

#[test]
fn ties_and_kickers() {
    // the wheel is the lowest straight
    assert!(score_five(&cards("5c4d3h2sAc")) < score_five(&cards("6c5d4h3s2c")));
    // suits do not matter
    assert_eq!(score_five(&cards("AcKd9h7s2c")), score_five(&cards("AhKs9c7d2d")));
    // the kicker decides between equal pairs
    assert!(score_five(&cards("AcAd9h7s3c")) > score_five(&cards("AhAs9c7d2d")));
    // the higher pair decides before the kickers
    assert!(score_five(&cards("KcKd3h4s2c")) > score_five(&cards("QhQsAcJdTd")));
}

#[test]
fn seven_card_strength_is_best_five() {
    let seven = cards("AsKsQsJsTs2c3d");
    assert_eq!(strength(&seven), score_five(&cards("AsKsQsJsTs")));
    assert_eq!(LazyEvaluator::strength(&seven), strength(&seven));
    let two_pair = cards("JcJd4h4s2c2dAc");
    assert_eq!(strength(&two_pair), score_five(&cards("JcJd4h4sAc")));
}

#[test]
fn royal_flush_wins_every_showdown() {
    let o = obs("AsKs", "QsJsTs2c3d");
    assert_eq!(river_equity(&o), (2 * 990, 990));
    assert_eq!(river_abstraction(&o), Some(Abstraction::equity(100)));
}

#[test]
fn board_plays_for_both() {
    // a royal flush on the board: every showdown ties
    let o = obs("2c3d", "AsKsQsJsTs");
    assert_eq!(river_equity(&o), (990, 990));
    assert_eq!(river_abstraction(&o), Some(Abstraction::equity(50)));
}

#[test]
fn river_self_distance_through_encoder() {
    let h = obs("Kd8s", "6dJsAc2h9c");
    let river = Lookup::make_river(&vec![h.clone_cards()]);
    let a = river.lookup(&h).expect("encoded");
    assert_eq!(a.street(), Street::Rive);
    assert_eq!(Metric::new().distance(&a, &a), Ok(0));
}

trait CloneCards {
    fn clone_cards(&self) -> Observation;
}

impl CloneCards for Observation {
    fn clone_cards(&self) -> Observation {
        Observation::new(self.pocket.clone(), self.public.clone()).unwrap()
    }
}

/// Where a Turn observation's Rivers fall among the equity buckets.
fn equity_histogram(turn: &Observation) -> robopoker::histogram::Histogram {
    let rivers = turn.children();
    let encoder = Lookup::make_river(&rivers);
    encoder.project(turn).expect("every river encoded")
}

#[test]
fn is_equity_emd_zero() {
    let metric = Metric::new();
    let h = equity_histogram(&obs("Kd8s", "6dJsAc2h"));
    assert_eq!(h.mass(), 46);
    assert!(metric.emd(&h, &h) == 0);
}

#[test]
fn is_equity_emd_positive() {
    let metric = Metric::new();
    let h1 = equity_histogram(&obs("AsAh", "2c7d9hKs"));
    let h2 = equity_histogram(&obs("3c2d", "Th8s5c4d"));
    let d12 = metric.emd(&h1, &h2);
    let d21 = metric.emd(&h2, &h1);
    assert!(d12 > 0);
    assert!(d21 > 0);
}

#[test]
fn learns_turn_from_river() {
    let turns = vec![obs("AsAh", "2c7d9hKs"), obs("3c2d", "Th8s5c4d"), obs("9h8h", "ThJh2c3d")];
    let mut rivers = Vec::new();
    for t in &turns {
        rivers.extend(t.children());
    }
    let (encoder, metric) = Layer::outer(&rivers);
    let (layer, inner, losses) = Layer::inner(Street::Turn, metric, &encoder, &turns, 2, 3).expect("layer");
    assert_eq!(layer.kmeans.len(), 2);
    assert_eq!(losses.len(), 3);
    let inner = inner.expect("keys apart");
    assert_eq!(inner.len(), 1);
    for t in &turns {
        let a = layer.lookup.get(t.canonical().id()).expect("encoded");
        assert_eq!(a.street(), Street::Turn);
    }
    let (_, metric) = Layer::outer(&rivers);
    assert_eq!(
        Layer::inner(Street::Turn, metric, &Lookup::new(), &turns, 2, 3).err(),
        Some(LayerError::Unencoded)
    );
}
