use student_store::commands::handle_command;
use student_store::commands::parse_age;
use student_store::commands::parse_id;
use student_store::commands::parse_sort_direction;
use student_store::commands::parse_sort_field;
use student_store::commands::InvalidKind;
use student_store::commands::Reply;
use student_store::commands::UsageKind;
use student_store::query::SortDirection;
use student_store::query::SortField;
use student_store::store::StudentStore;

fn toks(words: &[&str]) -> Vec<String> {
    words.iter().map(|w| w.to_string()).collect()
}

#[test]
fn test_parse_id_and_age() {
    assert_eq!(parse_id("12"), Some(12));
    assert_eq!(parse_id("x"), None);
    assert_eq!(parse_age("20"), Some(20));
    assert_eq!(parse_age("300"), None);
}

#[test]
fn test_parse_sort_field_words() {
    assert_eq!(parse_sort_field("id"), Some(SortField::Id));
    assert_eq!(parse_sort_field("name"), Some(SortField::Name));
    assert_eq!(parse_sort_field("age"), Some(SortField::Age));
    assert_eq!(parse_sort_field("class"), Some(SortField::Class));
    assert_eq!(parse_sort_field("height"), None);
}

#[test]
fn test_parse_sort_direction_words() {
    assert_eq!(parse_sort_direction("asc"), Some(SortDirection::Asc));
    assert_eq!(parse_sort_direction("desc"), Some(SortDirection::Desc));
    assert_eq!(parse_sort_direction("up"), None);
}

#[test]
fn test_command_add_and_list() {
    let mut s = StudentStore::new();
    let (keep, reply) = handle_command(&toks(&["add", "alice", "20", "A"]), &mut s);
    assert!(keep);
    assert!(matches!(reply, Reply::Added(1)));
    let (keep, reply) = handle_command(&toks(&["list"]), &mut s);
    assert!(keep);
    match reply {
        Reply::Rows(rows) => {
            assert_eq!(rows.len(), 1);
            assert_eq!(rows[0].name, "alice");
        },
        other => panic!("unexpected reply: {:?}", other),
    }
}

#[test]
fn test_command_remove_and_not_found() {
    let mut s = StudentStore::new();
    handle_command(&toks(&["add", "alice", "20", "A"]), &mut s);
    let (_, reply) = handle_command(&toks(&["remove", "1"]), &mut s);
    assert!(matches!(reply, Reply::Removed(1)));
    let (_, reply) = handle_command(&toks(&["remove", "1"]), &mut s);
    assert!(matches!(reply, Reply::NotFound(1)));
}

#[test]
fn test_command_modify() {
    let mut s = StudentStore::new();
    handle_command(&toks(&["add", "alice", "20", "A"]), &mut s);
    let (_, reply) = handle_command(&toks(&["mod", "1", "alicia", "21", "B"]), &mut s);
    assert!(matches!(reply, Reply::Modified(1)));
    let (_, reply) = handle_command(&toks(&["search", "name", "alicia"]), &mut s);
    match reply {
        Reply::Rows(rows) => {
            assert_eq!(rows.len(), 1);
            assert_eq!(rows[0].age, 21);
        },
        other => panic!("unexpected reply: {:?}", other),
    }
    let (_, reply) = handle_command(&toks(&["mod", "9", "x", "1", "Y"]), &mut s);
    assert!(matches!(reply, Reply::NotFound(9)));
}

#[test]
fn test_command_search_id() {
    let mut s = StudentStore::new();
    handle_command(&toks(&["add", "alice", "20", "A"]), &mut s);
    let (_, reply) = handle_command(&toks(&["search", "id", "1"]), &mut s);
    match reply {
        Reply::Rows(rows) => {
            assert_eq!(rows.len(), 1);
            assert_eq!(rows[0].id, 1);
        },
        other => panic!("unexpected reply: {:?}", other),
    }
    let (_, reply) = handle_command(&toks(&["search", "id", "5"]), &mut s);
    match reply {
        Reply::Rows(rows) => assert!(rows.is_empty()),
        other => panic!("unexpected reply: {:?}", other),
    }
}

#[test]
fn test_command_order_descending_ties() {
    let mut s = StudentStore::new();
    handle_command(&toks(&["add", "alice", "20", "A"]), &mut s);
    handle_command(&toks(&["add", "bob", "20", "B"]), &mut s);
    let (_, reply) = handle_command(&toks(&["order", "age", "desc"]), &mut s);
    match reply {
        Reply::Rows(rows) => {
            let ids: Vec<u32> = rows.iter().map(|r| r.id).collect();
            assert_eq!(ids, [2, 1]);
        },
        other => panic!("unexpected reply: {:?}", other),
    }
}

#[test]
fn test_command_usage_and_invalid() {
    let mut s = StudentStore::new();
    let (_, reply) = handle_command(&toks(&["add", "alice", "20"]), &mut s);
    assert!(matches!(reply, Reply::Usage(UsageKind::Add)));
    let (_, reply) = handle_command(&toks(&["add", "alice", "abc", "A"]), &mut s);
    assert!(matches!(reply, Reply::Invalid(InvalidKind::Age, _)));
    let (_, reply) = handle_command(&toks(&["remove", "xyz"]), &mut s);
    assert!(matches!(reply, Reply::Invalid(InvalidKind::Id, _)));
    let (_, reply) = handle_command(&toks(&["order", "height", "asc"]), &mut s);
    assert!(matches!(reply, Reply::Invalid(InvalidKind::Field, _)));
    let (_, reply) = handle_command(&toks(&["order", "age", "sideways"]), &mut s);
    assert!(matches!(reply, Reply::Invalid(InvalidKind::Direction, _)));
    let (_, reply) = handle_command(&toks(&["search"]), &mut s);
    assert!(matches!(reply, Reply::Usage(UsageKind::Search)));
    let (_, reply) = handle_command(&toks(&["search", "name", "a", "b"]), &mut s);
    assert!(matches!(reply, Reply::Usage(UsageKind::SearchName)));
    let (_, reply) = handle_command(&toks(&["list", "extra"]), &mut s);
    assert!(matches!(reply, Reply::Usage(UsageKind::List)));
}

#[test]
fn test_command_more_usage_shapes() {
    let mut s = StudentStore::new();
    let (_, reply) = handle_command(&toks(&["remove"]), &mut s);
    assert!(matches!(reply, Reply::Usage(UsageKind::Remove)));
    let (_, reply) = handle_command(&toks(&["mod", "1", "a", "2"]), &mut s);
    assert!(matches!(reply, Reply::Usage(UsageKind::Modify)));
    let (_, reply) = handle_command(&toks(&["order", "age"]), &mut s);
    assert!(matches!(reply, Reply::Usage(UsageKind::Order)));
    let (_, reply) = handle_command(&toks(&["search", "id", "1", "2"]), &mut s);
    assert!(matches!(reply, Reply::Usage(UsageKind::SearchId)));
    let (_, reply) = handle_command(&toks(&["search", "id", "x"]), &mut s);
    assert!(matches!(reply, Reply::Invalid(InvalidKind::Id, _)));
    let (_, reply) = handle_command(&toks(&["search", "height", "x"]), &mut s);
    assert!(matches!(reply, Reply::Usage(UsageKind::Search)));
    let (_, reply) = handle_command(&toks(&["mod", "x", "a", "2", "B"]), &mut s);
    assert!(matches!(reply, Reply::Invalid(InvalidKind::Id, _)));
    let (_, reply) = handle_command(&toks(&["mod", "1", "a", "abc", "B"]), &mut s);
    assert!(matches!(reply, Reply::Invalid(InvalidKind::Age, _)));
}

#[test]
fn test_command_session_words() {
    let mut s = StudentStore::new();
    let (keep, reply) = handle_command(&toks(&[]), &mut s);
    assert!(keep);
    assert!(matches!(reply, Reply::NoInput));
    let (keep, reply) = handle_command(&toks(&["help"]), &mut s);
    assert!(keep);
    assert!(matches!(reply, Reply::Help));
    let (keep, reply) = handle_command(&toks(&["frobnicate"]), &mut s);
    assert!(keep);
    assert!(matches!(reply, Reply::Unknown));
    let (keep, reply) = handle_command(&toks(&["quit"]), &mut s);
    assert!(!keep);
    assert!(matches!(reply, Reply::Bye));
    let (keep, _) = handle_command(&toks(&["exit"]), &mut s);
    assert!(!keep);
}
