use robopoker::abstraction::Abstraction;
use robopoker::encoding::Encoding;
use robopoker::lookup::Lookup;
use robopoker::street::Street;

fn sample() -> Lookup {
    let mut l = Lookup::new();
    l.assign(&Abstraction::learned(Street::Pref, 2), 0x0102_0304_0506_0708);
    l.assign(&Abstraction::learned(Street::Pref, 0), 5);
    l.assign(&Abstraction::learned(Street::Pref, 1), 77);
    l
}

#[test]
fn save_writes_binary_copy() {
    let bytes = sample().save();
    assert_eq!(bytes.len(), 19 + 3 * 26 + 2);
    assert_eq!(&bytes[..11], b"PGCOPY\n\xFF\r\n\0");
    assert_eq!(&bytes[11..19], &[0u8; 8]);
    // first row: isomorphism 5, Preflop abstraction 0
    assert_eq!(&bytes[19..25], &[0, 2, 0, 0, 0, 8]);
    assert_eq!(&bytes[25..33], &5i64.to_be_bytes());
    assert_eq!(&bytes[33..37], &[0, 0, 0, 8]);
    assert_eq!(&bytes[37..45], &0i64.to_be_bytes());
    // last row: the largest isomorphism
    assert_eq!(&bytes[77..85], &0x0102_0304_0506_0708i64.to_be_bytes());
    assert_eq!(&bytes[bytes.len() - 2..], &[0xFF, 0xFF]);
}

#[test]
fn load_reads_back_what_save_wrote() {
    let saved = sample();
    let loaded = Lookup::load(&saved.save()).expect("well-formed stream");
    assert_eq!(loaded.len(), saved.len());
    for i in 0..saved.len() {
        assert_eq!(loaded.iso_at(i), saved.iso_at(i));
        assert_eq!(loaded.abs_at(i), saved.abs_at(i));
    }
    assert_eq!(loaded.get(77), Some(Abstraction::learned(Street::Pref, 1)));
    assert_eq!(loaded.get(78), None);
}

#[test]
fn load_rejects_cut_row_and_bad_abstraction() {
    let bytes = sample().save();
    assert!(Lookup::load(&bytes[..19 + 20].to_vec()).is_none());
    let mut bad = bytes.clone();
    // the first row's abstraction gets an identity with no street
    bad[37] = 0xFF;
    assert!(Lookup::load(&bad).is_none());
    // a stream with only the header, or less, is empty
    assert_eq!(Lookup::load(&bytes[..19].to_vec()).map(|l| l.len()), Some(0));
    assert_eq!(Lookup::load(&vec![1, 2, 3]).map(|l| l.len()), Some(0));
}

#[test]
fn future_counts_children() {
    let mut l = Lookup::new();
    let hi = Abstraction::equity(80);
    let lo = Abstraction::equity(20);
    l.assign(&hi, 10);
    l.assign(&lo, 11);
    l.assign(&hi, 12);
    let h = l.future(&vec![10, 11, 12, 12]).expect("all children known");
    assert_eq!(h.weight(&hi), 3);
    assert_eq!(h.weight(&lo), 1);
    assert_eq!(h.mass(), 4);
    assert!(l.future(&vec![10, 13]).is_none());
}

#[test]
fn encoding_joins_streets() {
    let mut e = Encoding::new();
    let mut flop = Lookup::new();
    flop.assign(&Abstraction::learned(Street::Flop, 3), 1);
    let mut river = Lookup::new();
    river.assign(&Abstraction::equity(42), 2);
    e.extend(&flop);
    e.extend(&river);
    assert_eq!(e.abstraction(1), Some(Abstraction::learned(Street::Flop, 3)));
    assert_eq!(e.abstraction(2), Some(Abstraction::equity(42)));
    assert_eq!(e.abstraction(3), None);
}
