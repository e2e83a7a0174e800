use mini_lsm::iterator::{IterError, MemTableIterator, StorageIterator};
use mini_lsm::key::Key;
use mini_lsm::lsm_iterator::LsmIterator;
use mini_lsm::merge_iterator::MergeIterator;

fn source(entries: &[(&str, u64, &str)]) -> MemTableIterator {
    let keys = entries.iter().map(|e| Key::new(e.0.as_bytes().to_vec(), e.1)).collect();
    let values = entries.iter().map(|e| e.2.as_bytes().to_vec()).collect();
    MemTableIterator::new(keys, values)
}

fn lsm(sources: Vec<MemTableIterator>) -> LsmIterator {
    LsmIterator::new(MergeIterator::create(sources.into_iter().map(Box::new).collect())).unwrap()
}

fn drain(it: &mut LsmIterator) -> Vec<(String, String)> {
    let mut out = Vec::new();
    while it.is_valid() {
        assert!(!it.value().is_empty());
        out.push((
            String::from_utf8(it.key().to_vec()).unwrap(),
            String::from_utf8(it.value().to_vec()).unwrap(),
        ));
        it.next().unwrap();
    }
    out
}

fn pairs(v: &[(&str, &str)]) -> Vec<(String, String)> {
    v.iter().map(|e| (e.0.to_string(), e.1.to_string())).collect()
}

#[test]
fn lsm_hides_deleted_key() {
    let mut it = lsm(vec![source(&[("a", 0, "")]), source(&[("a", 0, "old")])]);
    assert!(!it.is_valid());
    assert!(drain(&mut it).is_empty());
}

#[test]
fn lsm_collapses_repeated_user_key() {
    let mut it = lsm(vec![source(&[("k", 1, "v1"), ("k", 2, "v2")])]);
    assert_eq!(drain(&mut it), pairs(&[("k", "v1")]));
    assert!(!it.is_valid());
}

#[test]
fn lsm_collapse_then_continues() {
    let mut it = lsm(vec![source(&[("k", 1, "v1"), ("k", 2, "v2"), ("m", 0, "w")])]);
    assert_eq!(drain(&mut it), pairs(&[("k", "v1"), ("m", "w")]));
}

#[test]
fn lsm_skips_tombstones_everywhere() {
    let s0 = source(&[("a", 0, ""), ("c", 0, "3"), ("d", 0, "")]);
    let s1 = source(&[("a", 0, "old"), ("b", 0, ""), ("d", 0, "old"), ("e", 0, "5")]);
    let mut it = lsm(vec![s0, s1]);
    assert_eq!(drain(&mut it), pairs(&[("c", "3"), ("e", "5")]));
}

#[test]
fn lsm_newer_value_wins() {
    let s0 = source(&[("a", 0, "1"), ("c", 0, "3")]);
    let s1 = source(&[("a", 0, "x"), ("b", 0, "2")]);
    let mut it = lsm(vec![s0, s1]);
    assert_eq!(drain(&mut it), pairs(&[("a", "1"), ("b", "2"), ("c", "3")]));
}

#[test]
fn lsm_over_nothing_is_invalid() {
    let it = lsm(vec![]);
    assert!(!it.is_valid());
}

#[test]
fn lsm_key_strips_disambiguator() {
    let it = lsm(vec![source(&[("user", 42, "v")])]);
    assert_eq!(it.key(), b"user");
}

#[test]
fn lsm_new_reports_failed_tombstone_skip() {
    let keys = vec![Key::new(b"a".to_vec(), 0), Key::new(b"b".to_vec(), 0)];
    let values = vec![Vec::new(), b"2".to_vec()];
    let failing = MemTableIterator::with_failure(keys, values, 0);
    let r = LsmIterator::new(MergeIterator::create(vec![Box::new(failing)]));
    assert!(matches!(r, Err(IterError::Source(0))));
}

#[test]
fn lsm_skip_tombstones_twice_changes_nothing() {
    let mut it = lsm(vec![source(&[("a", 0, ""), ("b", 0, "2"), ("c", 0, "3")])]);
    assert_eq!(it.key(), b"b");
    assert!(it.skip_tombstones().is_ok());
    assert_eq!(it.key(), b"b");
    assert_eq!(drain(&mut it), pairs(&[("b", "2"), ("c", "3")]));
}

#[test]
fn lsm_next_reports_inner_failure() {
    let keys = vec![Key::new(b"a".to_vec(), 0), Key::new(b"b".to_vec(), 0)];
    let values = vec![b"1".to_vec(), b"2".to_vec()];
    let failing = MemTableIterator::with_failure(keys, values, 0);
    let mut it = LsmIterator::new(MergeIterator::create(vec![Box::new(failing)])).unwrap();
    assert_eq!(it.key(), b"a");
    assert!(matches!(it.next(), Err(IterError::Source(0))));
}
