use student_store::store::StudentStore;

#[test]
fn test_add_get_round_trip() {
    let mut s = StudentStore::new();
    let k = s.add("alice", 20, "A");
    assert_eq!(k, 1);
    let rec = s.get_by_id(k).expect("added record must be found");
    assert_eq!(rec.id, 1);
    assert_eq!(rec.name, "alice");
    assert_eq!(rec.age, 20);
    assert_eq!(rec.class_name, "A");
}

#[test]
fn test_remove_is_final_and_ids_not_reused() {
    let mut s = StudentStore::new();
    let k = s.add("alice", 20, "A");
    assert!(s.remove(k));
    assert!(s.get_by_id(k).is_none());
    assert!(!s.remove(k));
    // no later allocation hands the retired identifier out again
    let k2 = s.add("bob", 21, "B");
    assert_ne!(k2, k);
    assert_eq!(k2, 2);
    let k3 = s.add("carol", 22, "C");
    assert_ne!(k3, k);
    assert_eq!(k3, 3);
}

#[test]
fn test_modify_rename_relocates() {
    let mut s = StudentStore::new();
    let k = s.add("alice", 20, "A");
    assert!(s.modify(k, "alicia", 21, "B"));
    let old_name_hits = s.search_by_name_exact("alice");
    assert!(old_name_hits.is_empty());
    let new_name_hits = s.search_by_name_exact("alicia");
    assert_eq!(new_name_hits.len(), 1);
    assert_eq!(new_name_hits[0].id, k);
    assert_eq!(new_name_hits[0].age, 21);
    assert_eq!(new_name_hits[0].class_name, "B");
}

#[test]
fn test_modify_unknown_id() {
    let mut s = StudentStore::new();
    assert!(!s.modify(7, "nobody", 1, "X"));
    assert!(s.list_by_id().is_empty());
}

#[test]
fn test_search_unknown_name_is_empty() {
    let mut s = StudentStore::new();
    s.add("alice", 20, "A");
    let rows = s.search_by_name_exact("nonexistent");
    assert!(rows.is_empty());
}

#[test]
fn test_search_shared_name_ascending_ids() {
    let mut s = StudentStore::new();
    let a = s.add("dup", 20, "A");
    let b = s.add("other", 30, "B");
    let c = s.add("dup", 25, "C");
    let rows = s.search_by_name_exact("dup");
    assert_eq!(rows.len(), 2);
    assert_eq!(rows[0].id, a);
    assert_eq!(rows[1].id, c);
    let _ = b;
}

#[test]
fn test_list_is_idempotent() {
    let mut s = StudentStore::new();
    s.add("alice", 20, "A");
    s.add("bob", 21, "B");
    let first = s.list_by_id();
    let second = s.list_by_id();
    assert_eq!(first.len(), second.len());
    for (x, y) in first.iter().zip(second.iter()) {
        assert_eq!(x.id, y.id);
        assert_eq!(x.name, y.name);
        assert_eq!(x.age, y.age);
        assert_eq!(x.class_name, y.class_name);
    }
}

#[test]
fn test_list_ascending_after_mutations() {
    let mut s = StudentStore::new();
    let a = s.add("alice", 20, "A");
    let b = s.add("bob", 21, "B");
    let c = s.add("carol", 22, "C");
    assert!(s.remove(b));
    let rows = s.list_by_id();
    assert_eq!(rows.len(), 2);
    assert_eq!(rows[0].id, a);
    assert_eq!(rows[1].id, c);
}

#[test]
fn test_index_sizes_agree() {
    // the invariant of the store made observable: primary store, identifier
    // index and name-bucket sizes all count the same records
    let mut s = StudentStore::new();
    s.add("alice", 20, "A");
    s.add("bob", 21, "B");
    s.add("alice", 22, "C");
    let d = s.add("dora", 23, "D");
    s.remove(d);
    s.modify(2, "alice", 21, "B");
    let n = s.by_id.len();
    assert_eq!(n, 3);
    assert_eq!(s.ids.len(), n);
    let bucket_total: usize = s.name_index.iter().map(|b| b.ids.len()).sum();
    assert_eq!(bucket_total, n);
    // every bucket is non-empty: the emptied ones are pruned
    assert!(s.name_index.iter().all(|b| !b.ids.is_empty()));
    assert_eq!(s.name_index.len(), 1);
    assert_eq!(s.name_index[0].name, "alice");
}

#[test]
fn test_remove_name_index_direct() {
    let mut s = StudentStore::new();
    let a = s.add("dup", 20, "A");
    let b = s.add("dup", 21, "B");
    s.remove_name_index("dup", a);
    assert_eq!(s.name_index.len(), 1);
    assert_eq!(s.name_index[0].ids, vec![b]);
    // records themselves are untouched by the index helper
    assert_eq!(s.by_id.len(), 2);
}

#[test]
fn test_remove_name_index_prunes_bucket() {
    let mut s = StudentStore::new();
    let k = s.add("solo", 20, "A");
    assert!(s.remove(k));
    assert!(s.name_index.is_empty());
    assert!(s.ids.is_empty());
    assert!(s.by_id.is_empty());
}
