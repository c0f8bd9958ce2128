use student_store::query::order_students;
use student_store::query::SortDirection;
use student_store::query::SortField;
use student_store::store::StudentStore;

#[test]
fn test_tie_break_follows_direction() {
    // equal ages: ascending sorts by ascending id, and descending reverses
    // the tie-break together with the whole comparator
    let mut s = StudentStore::new();
    let a = s.add("alice", 20, "A");
    let b = s.add("bob", 20, "B");
    assert_eq!((a, b), (1, 2));

    let asc = order_students(&s, SortField::Age, SortDirection::Asc);
    assert_eq!(asc.len(), 2);
    assert_eq!(asc[0].id, 1);
    assert_eq!(asc[0].name, "alice");
    assert_eq!(asc[1].id, 2);
    assert_eq!(asc[1].name, "bob");

    let desc = order_students(&s, SortField::Age, SortDirection::Desc);
    assert_eq!(desc.len(), 2);
    assert_eq!(desc[0].id, 2);
    assert_eq!(desc[0].name, "bob");
    assert_eq!(desc[1].id, 1);
    assert_eq!(desc[1].name, "alice");
}

#[test]
fn test_order_by_name_asc() {
    let mut s = StudentStore::new();
    s.add("carol", 20, "A");
    s.add("alice", 21, "B");
    s.add("bob", 22, "C");
    let rows = order_students(&s, SortField::Name, SortDirection::Asc);
    let names: Vec<&str> = rows.iter().map(|r| r.name.as_str()).collect();
    assert_eq!(names, ["alice", "bob", "carol"]);
}

#[test]
fn test_order_by_name_desc() {
    let mut s = StudentStore::new();
    s.add("carol", 20, "A");
    s.add("alice", 21, "B");
    s.add("bob", 22, "C");
    let rows = order_students(&s, SortField::Name, SortDirection::Desc);
    let names: Vec<&str> = rows.iter().map(|r| r.name.as_str()).collect();
    assert_eq!(names, ["carol", "bob", "alice"]);
}

#[test]
fn test_order_by_id_desc() {
    let mut s = StudentStore::new();
    s.add("alice", 20, "A");
    s.add("bob", 21, "B");
    s.add("carol", 22, "C");
    let rows = order_students(&s, SortField::Id, SortDirection::Desc);
    let ids: Vec<u32> = rows.iter().map(|r| r.id).collect();
    assert_eq!(ids, [3, 2, 1]);
}

#[test]
fn test_order_by_class_groups_ties_by_id() {
    let mut s = StudentStore::new();
    s.add("alice", 20, "B");
    s.add("bob", 21, "A");
    s.add("carol", 22, "B");
    let rows = order_students(&s, SortField::Class, SortDirection::Asc);
    let ids: Vec<u32> = rows.iter().map(|r| r.id).collect();
    assert_eq!(ids, [2, 1, 3]);
    let rows = order_students(&s, SortField::Class, SortDirection::Desc);
    let ids: Vec<u32> = rows.iter().map(|r| r.id).collect();
    assert_eq!(ids, [3, 1, 2]);
}

#[test]
fn test_order_empty_store() {
    let s = StudentStore::new();
    let rows = order_students(&s, SortField::Age, SortDirection::Asc);
    assert!(rows.is_empty());
}
