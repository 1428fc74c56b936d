use buildscale::hashes::{BuildscaleFileHashed, BuildscaleFileHashes};

#[test]
fn insert_replaces_and_returns_previous() {
    let mut h = BuildscaleFileHashes::new();
    assert!(h.insert(BuildscaleFileHashed::new("a.ts".to_string(), 1)).is_none());
    let prev = h.insert(BuildscaleFileHashed::new("a.ts".to_string(), 2)).unwrap();
    assert_eq!(prev.1, 1);
    assert_eq!(h.len(), 1);
    assert_eq!(h.get("a.ts").unwrap().1, 2);
    assert!(h.get("b.ts").is_none());
}

#[test]
fn from_records_later_wins() {
    let h = BuildscaleFileHashes::from_records(vec![
        BuildscaleFileHashed::new("a.ts".to_string(), 1),
        BuildscaleFileHashed::new("b.ts".to_string(), 2),
        BuildscaleFileHashed::new("a.ts".to_string(), 3),
    ]);
    assert_eq!(h.len(), 2);
    assert_eq!(h.get("a.ts").unwrap().1, 3);
    assert_eq!(h.get("b.ts").unwrap().1, 2);
}

#[test]
fn records_lists_each_once() {
    let h = BuildscaleFileHashes::from_records(vec![
        BuildscaleFileHashed::new("x".to_string(), 7),
        BuildscaleFileHashed::new("y".to_string(), 8),
    ]);
    let mut r: Vec<(String, i64)> = h.records().into_iter().map(|x| (x.0, x.1)).collect();
    r.sort();
    assert_eq!(r, vec![("x".to_string(), 7), ("y".to_string(), 8)]);
}

#[test]
fn duplicate_keeps_record() {
    let a = BuildscaleFileHashed::new("p".to_string(), -5);
    let b = a.duplicate();
    assert_eq!(a, b);
}
