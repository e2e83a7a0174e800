use mini_lsm::iterator::{IterError, MemTableIterator, StorageIterator};
use mini_lsm::key::Key;
use mini_lsm::merge_iterator::MergeIterator;

fn source(entries: &[(&str, u64, &str)]) -> MemTableIterator {
    let keys = entries.iter().map(|e| Key::new(e.0.as_bytes().to_vec(), e.1)).collect();
    let values = entries.iter().map(|e| e.2.as_bytes().to_vec()).collect();
    MemTableIterator::new(keys, values)
}

fn boxed(v: Vec<MemTableIterator>) -> Vec<Box<MemTableIterator>> {
    v.into_iter().map(Box::new).collect()
}

fn drain<I: StorageIterator>(it: &mut I) -> Vec<(String, u64, String)> {
    let mut out = Vec::new();
    while it.is_valid() {
        let k = it.key();
        out.push((
            String::from_utf8(k.raw.clone()).unwrap(),
            k.ts,
            String::from_utf8(it.value().to_vec()).unwrap(),
        ));
        it.next().unwrap();
    }
    out
}

fn triples(v: &[(&str, u64, &str)]) -> Vec<(String, u64, String)> {
    v.iter().map(|e| (e.0.to_string(), e.1, e.2.to_string())).collect()
}

#[test]
fn merge_prefers_smaller_index() {
    let s0 = source(&[("a", 0, "1"), ("c", 0, "3")]);
    let s1 = source(&[("a", 0, "x"), ("b", 0, "2")]);
    let mut m = MergeIterator::create(boxed(vec![s0, s1]));
    assert_eq!(drain(&mut m), triples(&[("a", 0, "1"), ("b", 0, "2"), ("c", 0, "3")]));
    assert!(!m.is_valid());
}

#[test]
fn merge_priority_holds_for_later_key() {
    let s0 = source(&[("b", 0, "new")]);
    let s1 = source(&[("a", 0, "1"), ("b", 0, "old"), ("c", 0, "3")]);
    let mut m = MergeIterator::create(boxed(vec![s0, s1]));
    assert_eq!(
        drain(&mut m),
        triples(&[("a", 0, "1"), ("b", 0, "new"), ("c", 0, "3")])
    );
}

#[test]
fn merge_counts_distinct_keys() {
    let s0 = source(&[("a", 0, "0a"), ("d", 0, "0d"), ("f", 0, "0f")]);
    let s1 = source(&[("a", 0, "1a"), ("b", 0, "1b"), ("f", 0, "1f")]);
    let s2 = source(&[("b", 0, "2b"), ("c", 0, "2c"), ("f", 0, "2f"), ("g", 0, "2g")]);
    let mut m = MergeIterator::create(boxed(vec![s0, s1, s2]));
    let out = drain(&mut m);
    // 3 + 3 + 4 entries, with "a" once and "b" once and "f" twice repeated.
    assert_eq!(out.len(), 10 - 4);
    for w in out.windows(2) {
        assert!(w[0].0 < w[1].0);
    }
    assert_eq!(
        out,
        triples(&[
            ("a", 0, "0a"),
            ("b", 0, "1b"),
            ("c", 0, "2c"),
            ("d", 0, "0d"),
            ("f", 0, "0f"),
            ("g", 0, "2g"),
        ])
    );
    assert!(!m.is_valid());
}

#[test]
fn merge_of_nothing_is_invalid() {
    let m: MergeIterator<MemTableIterator> = MergeIterator::create(boxed(vec![]));
    assert!(!m.is_valid());
    let m = MergeIterator::create(boxed(vec![source(&[]), source(&[])]));
    assert!(!m.is_valid());
}

#[test]
fn merge_ignores_empty_sources() {
    let mut m = MergeIterator::create(boxed(vec![source(&[]), source(&[("a", 0, "1")]), source(&[])]));
    assert_eq!(drain(&mut m), triples(&[("a", 0, "1")]));
}

#[test]
fn merge_orders_disambiguators_apart() {
    let s0 = source(&[("k", 2, "second")]);
    let s1 = source(&[("k", 1, "first"), ("k", 2, "shadowed")]);
    let mut m = MergeIterator::create(boxed(vec![s0, s1]));
    assert_eq!(drain(&mut m), triples(&[("k", 1, "first"), ("k", 2, "second")]));
}

#[test]
fn merge_orders_prefix_first() {
    let s0 = source(&[("ab", 0, "2")]);
    let s1 = source(&[("a", 0, "1"), ("b", 0, "3")]);
    let mut m = MergeIterator::create(boxed(vec![s0, s1]));
    assert_eq!(drain(&mut m), triples(&[("a", 0, "1"), ("ab", 0, "2"), ("b", 0, "3")]));
}

#[test]
fn merge_reports_source_failure() {
    let keys = vec![Key::new(b"a".to_vec(), 0), Key::new(b"b".to_vec(), 0)];
    let values = vec![b"1".to_vec(), b"2".to_vec()];
    let failing = MemTableIterator::with_failure(keys, values, 1);
    let mut m = MergeIterator::create(boxed(vec![failing, source(&[("c", 0, "3")])]));
    assert!(m.next().is_ok());
    assert_eq!(m.key().raw, b"b".to_vec());
    assert!(matches!(m.next(), Err(IterError::Source(1))));
}

#[test]
fn merge_reports_failure_while_dropping_stale_entry() {
    let keys = vec![Key::new(b"a".to_vec(), 0), Key::new(b"b".to_vec(), 0)];
    let values = vec![b"old".to_vec(), b"2".to_vec()];
    let failing = MemTableIterator::with_failure(keys, values, 0);
    let mut m = MergeIterator::create(boxed(vec![source(&[("a", 0, "new")]), failing]));
    assert_eq!(m.value(), b"new");
    assert!(matches!(m.next(), Err(IterError::Source(0))));
}
