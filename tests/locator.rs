use gzip::locator::Locator;
use std::collections::HashSet;

#[test]
fn test_hash() {
    let mut hashes = Vec::new();
    let mut locator = Locator::new();
    for b in 0..15 {
        hashes.push(locator.slide_hash(b));
    }
    for b in 0..15 {
        let hash = locator.slide_hash(b);
        if b > 2 {
            assert_eq!(hash, hashes[b as usize]);
        }
    }
    assert_eq!(HashSet::<usize>::from_iter(hashes.into_iter()).len(), 15);
}

#[test]
fn locate_returns_latest_positions_first() {
    let mut locator = Locator::new();
    locator.register(7, 0);
    locator.register(9, 1);
    locator.register(7, 2);
    locator.register(7, 5);
    assert_eq!(locator.locate(7, 30), vec![5, 2, 0]);
    assert_eq!(locator.locate(7, 2), vec![5, 2]);
    assert_eq!(locator.locate(9, 30), vec![1]);
    assert!(locator.locate(3, 30).is_empty());
}
