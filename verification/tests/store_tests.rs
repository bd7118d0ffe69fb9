use pile::blob_digest;
use pile::GetError;
use pile::InsertError;
use pile::LoadError;
use pile::Pile;
use pile::ValidationState;

const MIB: usize = 1 << 20;

fn fresh(max: usize) -> Pile {
    Pile::load(Vec::new(), max).unwrap()
}

#[test]
fn empty_open() {
    let mut pile = fresh(MIB);
    assert_eq!(pile.content().len(), 0);
    let any_digest = [7u8; 32];
    let r = pile.get(&any_digest).unwrap();
    assert!(r.is_none());
}

#[test]
fn single_insert_get() {
    let mut pile = fresh(MIB);
    let b = vec![0x61u8, 0x62, 0x63];
    let h = pile.insert(&b).unwrap();
    assert_eq!(h, blob_digest(&b));
    let got = pile.get(&h).unwrap().unwrap();
    assert_eq!(got, b);
    assert_eq!(pile.content().len(), 128);
}

#[test]
fn empty_blob_occupies_one_record() {
    let mut pile = fresh(MIB);
    let b: Vec<u8> = Vec::new();
    let h = pile.insert(&b).unwrap();
    assert_eq!(pile.content().len(), 128);
    let got = pile.get(&h).unwrap().unwrap();
    assert!(got.is_empty());
}

#[test]
fn reload_round_trip() {
    let mut pile = fresh(MIB);
    let b1 = vec![0x00u8];
    let b2 = vec![0x01u8; 65];
    let b3: Vec<u8> = Vec::new();
    let h1 = pile.insert(&b1).unwrap();
    let h2 = pile.insert(&b2).unwrap();
    let h3 = pile.insert(&b3).unwrap();
    let stored = pile.content().clone();
    drop(pile);
    let mut again = Pile::load(stored, MIB).unwrap();
    assert_eq!(again.get(&h1).unwrap().unwrap(), b1);
    assert_eq!(again.get(&h2).unwrap().unwrap(), b2);
    assert_eq!(again.get(&h3).unwrap().unwrap(), b3);
}

#[test]
fn reload_leaves_entries_unvalidated() {
    let mut pile = fresh(MIB);
    let b = vec![9u8, 8, 7];
    let h = pile.insert(&b).unwrap();
    assert_eq!(pile.entry_state(&h), Some(ValidationState::Validated));
    let stored = pile.content().clone();
    let mut again = Pile::load(stored, MIB).unwrap();
    assert_eq!(again.entry_state(&h), Some(ValidationState::Unvalidated));
    again.get(&h).unwrap();
    assert_eq!(again.entry_state(&h), Some(ValidationState::Validated));
}

#[test]
fn lazy_validation_good() {
    let mut pile = fresh(MIB);
    let b = vec![1u8, 2, 3, 4, 5];
    let h = blob_digest(&b);
    let stored = pile.insert_unvalidated(h, &b).unwrap();
    assert_eq!(stored, b);
    assert_eq!(pile.entry_state(&h), Some(ValidationState::Unvalidated));
    let got = pile.get(&h).unwrap().unwrap();
    assert_eq!(got, b);
    assert_eq!(pile.entry_state(&h), Some(ValidationState::Validated));
    let got2 = pile.get(&h).unwrap().unwrap();
    assert_eq!(got2, b);
}

#[test]
fn lazy_validation_bad_poisons() {
    let mut pile = fresh(MIB);
    let b = vec![1u8, 2, 3];
    let h_wrong = [0u8; 32];
    assert_ne!(blob_digest(&b), h_wrong);
    pile.insert_unvalidated(h_wrong, &b).unwrap();
    match pile.get(&h_wrong) {
        Err(GetError::ValidationError(bad)) => assert_eq!(bad, b),
        other => panic!("expected a validation failure, got {:?}", other),
    }
    assert_eq!(pile.entry_state(&h_wrong), Some(ValidationState::Invalid));
    match pile.get(&h_wrong) {
        Err(GetError::ValidationError(bad)) => assert_eq!(bad, b),
        other => panic!("expected a validation failure, got {:?}", other),
    }
    assert_eq!(pile.entry_state(&h_wrong), Some(ValidationState::Invalid));
}

#[test]
fn size_bound() {
    let mut pile = fresh(256);
    let b1 = vec![0xaau8; 120];
    let h1 = pile.insert(&b1).unwrap();
    assert_eq!(pile.content().len(), 192);
    let b2 = vec![0xbbu8];
    match pile.insert(&b2) {
        Err(InsertError::PileTooLarge) => {}
        other => panic!("expected the size bound to refuse, got {:?}", other),
    }
    assert_eq!(pile.content().len(), 192);
    assert_eq!(pile.get(&h1).unwrap().unwrap(), b1);
}

#[test]
fn content_addressing_same_blob_same_digest() {
    let mut pile = fresh(MIB);
    let b = vec![42u8; 10];
    let h1 = pile.insert(&b).unwrap();
    let h2 = pile.insert(&b).unwrap();
    assert_eq!(h1, h2);
    assert_eq!(pile.get(&h1).unwrap().unwrap(), b);
    assert_eq!(pile.content().len(), 2 * 128);
}

#[test]
fn corrupt_magic_fails_load() {
    let mut pile = fresh(MIB);
    pile.insert(&vec![5u8, 6, 7]).unwrap();
    let mut stored = pile.content().clone();
    stored[0] = 0;
    match Pile::load(stored, MIB) {
        Err(LoadError::MagicMarkerError) => {}
        other => panic!("expected a magic marker failure, got {:?}", other.map(|_| ())),
    }
}

#[test]
fn odd_length_fails_load() {
    let mut pile = fresh(MIB);
    pile.insert(&vec![5u8, 6, 7]).unwrap();
    let mut stored = pile.content().clone();
    stored.truncate(63);
    match Pile::load(stored, MIB) {
        Err(LoadError::FileLengthError) => {}
        other => panic!("expected a length failure, got {:?}", other.map(|_| ())),
    }
}

#[test]
fn truncated_payload_fails_load() {
    let mut pile = fresh(MIB);
    pile.insert(&vec![3u8; 65]).unwrap();
    let mut stored = pile.content().clone();
    assert_eq!(stored.len(), 192);
    stored.truncate(128);
    match Pile::load(stored, MIB) {
        Err(LoadError::UnexpectedEndOfFile) => {}
        other => panic!("expected an end-of-file failure, got {:?}", other.map(|_| ())),
    }
}

#[test]
fn oversized_file_fails_load() {
    match Pile::load(vec![0u8; 128], 64) {
        Err(LoadError::PileTooLarge) => {}
        other => panic!("expected the size bound to refuse, got {:?}", other.map(|_| ())),
    }
}

#[test]
fn insert_validated_round_trip() {
    let mut pile = fresh(MIB);
    let b = vec![0x10u8, 0x20, 0x30];
    let h = blob_digest(&b);
    let stored = pile.insert_validated(h, &b).unwrap();
    assert_eq!(stored, b);
    assert_eq!(pile.entry_state(&h), Some(ValidationState::Validated));
    assert_eq!(pile.get(&h).unwrap().unwrap(), b);
}

#[test]
fn batch_insert_reports_each_result() {
    let mut pile = fresh(320);
    let items = vec![vec![1u8; 10], vec![2u8; 100], vec![3u8; 10]];
    let rs = pile.insert_each(&items);
    assert_eq!(rs.len(), 3);
    assert!(rs[0].is_ok());
    // The first two framed records fill the 320-byte bound exactly; the third does not fit.
    assert!(rs[1].is_ok());
    assert!(matches!(rs[2], Err(InsertError::PileTooLarge)));
    assert_eq!(pile.content().len(), 320);
    let h = blob_digest(&items[0]);
    assert_eq!(pile.get(&h).unwrap().unwrap(), items[0]);
}

#[test]
fn batch_extend_drops_failures() {
    let mut pile = fresh(128);
    let items = vec![vec![7u8; 1], vec![8u8; 200]];
    pile.extend_blobs(&items);
    assert_eq!(pile.content().len(), 128);
    let h = blob_digest(&items[0]);
    assert_eq!(pile.get(&h).unwrap().unwrap(), items[0]);
}

#[test]
fn batch_unvalidated_pairs() {
    let mut pile = fresh(MIB);
    let good = vec![0x55u8; 4];
    let bad = vec![0x66u8; 4];
    let good_h = blob_digest(&good);
    let bad_h = [1u8; 32];
    let items = vec![(good_h, good.clone()), (bad_h, bad.clone())];
    let rs = pile.insert_each_unvalidated(&items);
    assert!(rs.iter().all(|r| r.is_ok()));
    assert_eq!(pile.entry_state(&good_h), Some(ValidationState::Unvalidated));
    assert_eq!(pile.get(&good_h).unwrap().unwrap(), good);
    assert!(matches!(pile.get(&bad_h), Err(GetError::ValidationError(_))));
}

#[test]
fn digest_matches_known_vector() {
    // BLAKE3 of the empty input.
    let expected: [u8; 32] = [
        0xaf, 0x13, 0x49, 0xb9, 0xf5, 0xf9, 0xa1, 0xa6, 0xa0, 0x40, 0x4d, 0xea, 0x36, 0xdc,
        0xc9, 0x49, 0x9b, 0xcb, 0x25, 0xc9, 0xad, 0xc1, 0x12, 0xb7, 0xcc, 0x9a, 0x93, 0xca,
        0xe4, 0x1f, 0x32, 0x62,
    ];
    assert_eq!(blob_digest(&[]), expected);
    // The digest is not the input handed back.
    let zeros = vec![0u8; 32];
    let h = blob_digest(&zeros);
    assert_ne!(h.to_vec(), zeros);
}

#[test]
fn last_writer_wins_on_reload() {
    let mut pile = fresh(MIB);
    let b = vec![0x42u8; 8];
    let h = pile.insert(&b).unwrap();
    pile.insert(&b).unwrap();
    let stored = pile.content().clone();
    let mut again = Pile::load(stored, MIB).unwrap();
    assert_eq!(again.get(&h).unwrap().unwrap(), b);
}
