use mini_lsm::fused_iterator::FusedIterator;
use mini_lsm::iterator::{IterError, MemTableIterator, StorageIterator};
use mini_lsm::key::Key;

fn run(raw: &[&str], fail_at: Option<usize>) -> MemTableIterator {
    let keys: Vec<Key> = raw.iter().map(|k| Key::new(k.as_bytes().to_vec(), 0)).collect();
    let values: Vec<Vec<u8>> = raw.iter().map(|k| k.to_uppercase().into_bytes()).collect();
    match fail_at {
        Some(p) => MemTableIterator::with_failure(keys, values, p),
        None => MemTableIterator::new(keys, values),
    }
}

#[test]
fn fused_stays_broken_after_failure() {
    let mut it = FusedIterator::new(run(&["a", "b", "c"], Some(1)));
    assert!(it.is_valid());
    assert!(it.next().is_ok());
    assert_eq!(it.key().raw, b"b".to_vec());
    assert!(matches!(it.next(), Err(IterError::Source(1))));
    for _ in 0..5 {
        assert!(!it.is_valid());
        assert!(matches!(it.next(), Err(IterError::Invalid)));
    }
}

#[test]
fn fused_next_past_end_does_nothing() {
    let mut it = FusedIterator::new(run(&["a"], None));
    assert_eq!(it.value(), b"A");
    assert!(it.next().is_ok());
    assert!(!it.is_valid());
    assert!(it.next().is_ok());
    assert!(it.next().is_ok());
    assert!(!it.is_valid());
}

#[test]
fn fused_passes_entries_through() {
    let mut it = FusedIterator::new(run(&["a", "b"], None));
    let mut seen = Vec::new();
    while it.is_valid() {
        seen.push((it.key().raw.clone(), it.value().to_vec()));
        it.next().unwrap();
    }
    assert_eq!(seen, vec![(b"a".to_vec(), b"A".to_vec()), (b"b".to_vec(), b"B".to_vec())]);
}

#[test]
fn fused_over_empty_is_invalid() {
    let mut it = FusedIterator::new(run(&[], None));
    assert!(!it.is_valid());
    assert!(it.next().is_ok());
}
