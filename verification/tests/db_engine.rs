use ycsb::db::{get_key_indices, ColumnRegistry, StdBTreeMapMutex, StdBTreeMapRwLock};

fn pair(name: &str, bytes: &[u8]) -> (String, Vec<u8>) {
    (name.to_string(), bytes.to_vec())
}

#[test]
fn registry_assigns_distinct_indices_in_order() {
    let mut reg = ColumnRegistry::new();
    let values = vec![
        pair("alpha", b"1"),
        pair("beta", b"2"),
        pair("gamma", b"3"),
        pair("delta", b"4"),
        pair("epsilon", b"5"),
    ];
    let (idxs, bound) = get_key_indices(&mut reg, &values);
    assert_eq!(idxs, vec![0, 1, 2, 3, 4]);
    assert_eq!(bound, 5);
    assert_eq!(reg.len(), 5);

    let mut sorted = idxs.clone();
    sorted.sort();
    sorted.dedup();
    assert_eq!(sorted.len(), 5);

    // repeated and already-known names take their existing slots; only
    // never-seen names get fresh consecutive indices, in first-seen order
    let more = vec![
        pair("gamma", b"1"),
        pair("zeta", b"2"),
        pair("gamma", b"3"),
        pair("eta", b"4"),
    ];
    let (idxs2, bound2) = get_key_indices(&mut reg, &more);
    assert_eq!(idxs2, vec![2, 5, 2, 6]);
    assert_eq!(bound2, 7);
    assert_eq!(reg.len(), 7);
}

#[test]
fn registry_repeated_lookup_returns_same_index() {
    let mut reg = ColumnRegistry::new();
    let values = vec![pair("alpha", b"1"), pair("beta", b"2")];
    let (first, _) = get_key_indices(&mut reg, &values);
    let (second, _) = get_key_indices(&mut reg, &values);
    assert_eq!(first, second);
    assert_eq!(reg.len(), 2);
    assert_eq!(reg.lookup(&"alpha".to_string()), Some(0));
    assert_eq!(reg.lookup(&"beta".to_string()), Some(1));
    assert_eq!(reg.lookup(&"missing".to_string()), None);
    assert_eq!(reg.name_of(0).as_str(), "alpha");
    assert_eq!(reg.name_of(1).as_str(), "beta");
}

#[test]
fn engine_insert_never_fails() {
    let mut engine = StdBTreeMapMutex::new();
    let r = engine.insert("usertable", "k1".to_string(), vec![pair("f0", b"aa")]);
    assert!(r.is_ok());
}

#[test]
fn engine_insert_duplicate_key_merges() {
    let mut engine = StdBTreeMapMutex::new();
    engine
        .insert(
            "usertable",
            "k1".to_string(),
            vec![pair("f0", b"aa"), pair("f1", b"bb")],
        )
        .unwrap();
    engine
        .insert(
            "usertable",
            "k1".to_string(),
            vec![pair("f1", b"cc"), pair("f2", b"dd")],
        )
        .unwrap();

    assert_eq!(engine.db.len(), 1);
    let row = engine.db.get(&"k1".to_string()).unwrap();
    assert_eq!(row.len(), 3);
    assert_eq!(row[0], Some(b"aa".to_vec()));
    assert_eq!(row[1], Some(b"cc".to_vec()));
    assert_eq!(row[2], Some(b"dd".to_vec()));
}

#[test]
fn engine_disjoint_keys_keep_both_rows() {
    let mut engine = StdBTreeMapMutex::new();
    engine
        .insert("usertable", "k1".to_string(), vec![pair("f0", b"aa")])
        .unwrap();
    engine
        .insert("usertable", "k2".to_string(), vec![pair("f0", b"bb")])
        .unwrap();
    assert_eq!(engine.db.len(), 2);
    assert_eq!(engine.db.get(&"k1".to_string()).unwrap()[0], Some(b"aa".to_vec()));
    assert_eq!(engine.db.get(&"k2".to_string()).unwrap()[0], Some(b"bb".to_vec()));
}

#[test]
fn engine_variants_identical_contents() {
    let mut m = StdBTreeMapMutex::new();
    let mut r = StdBTreeMapRwLock::new();
    let batches = vec![
        ("k1", vec![pair("f0", b"aa"), pair("f1", b"bb")]),
        ("k2", vec![pair("f1", b"cc")]),
        ("k1", vec![pair("f2", b"dd")]),
    ];
    for (k, vs) in &batches {
        m.insert("usertable", k.to_string(), vs.clone()).unwrap();
        r.insert("usertable", k.to_string(), vs.clone()).unwrap();
    }
    assert_eq!(m.db.len(), r.db.len());
    for k in ["k1", "k2"] {
        let a = m.db.get(&k.to_string()).unwrap();
        let b = r.db.get(&k.to_string()).unwrap();
        assert_eq!(a, b);
    }
    let row = m.db.get(&"k1".to_string()).unwrap();
    assert_eq!(row.len(), 3);
    assert_eq!(row[0], Some(b"aa".to_vec()));
    assert_eq!(row[1], Some(b"bb".to_vec()));
    assert_eq!(row[2], Some(b"dd".to_vec()));
}

#[test]
fn table_keeps_keys_sorted() {
    let mut engine = StdBTreeMapMutex::new();
    for k in ["mango", "apple", "zebra", "kiwi", "banana"] {
        engine
            .insert("usertable", k.to_string(), vec![pair("f0", b"x")])
            .unwrap();
    }
    assert_eq!(engine.db.len(), 5);
    let keys: Vec<&str> = (0..5).map(|i| engine.db.key_at(i).as_str()).collect();
    assert_eq!(keys, vec!["apple", "banana", "kiwi", "mango", "zebra"]);

    // a duplicate-key insert merges in place and leaves the order alone
    engine
        .insert("usertable", "kiwi".to_string(), vec![pair("f1", b"y")])
        .unwrap();
    assert_eq!(engine.db.len(), 5);
    let keys: Vec<&str> = (0..5).map(|i| engine.db.key_at(i).as_str()).collect();
    assert_eq!(keys, vec!["apple", "banana", "kiwi", "mango", "zebra"]);
}

#[test]
fn engine_insert_empty_record() {
    let mut engine = StdBTreeMapMutex::new();
    engine.insert("usertable", "k1".to_string(), vec![]).unwrap();
    assert_eq!(engine.db.len(), 1);
    assert_eq!(engine.columns.len(), 0);
    let row = engine.db.get(&"k1".to_string()).unwrap();
    assert!(row.is_empty());
}

#[test]
fn registry_shared_across_keys() {
    let mut engine = StdBTreeMapMutex::new();
    engine
        .insert("usertable", "k1".to_string(), vec![pair("f0", b"aa")])
        .unwrap();
    engine
        .insert("usertable", "k2".to_string(), vec![pair("f0", b"bb"), pair("f1", b"cc")])
        .unwrap();
    assert_eq!(engine.columns.len(), 2);
    assert_eq!(engine.columns.lookup(&"f0".to_string()), Some(0));
    assert_eq!(engine.columns.lookup(&"f1".to_string()), Some(1));
}
