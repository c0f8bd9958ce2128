use student_store::text::append_world;
use student_store::text::borrow_len;
use student_store::text::choose_owned;
use student_store::text::pick_first;
use student_store::text::pick_first_elided;
use student_store::text::same_line;
use student_store::text::str_eq;
use student_store::text::str_lt;
use student_store::text::two_lines_pick_x;

#[test]
fn test_str_eq_cases() {
    assert!(str_eq("", ""));
    assert!(str_eq("abc", "abc"));
    assert!(!str_eq("abc", "abd"));
    assert!(!str_eq("abc", "ab"));
    assert!(str_eq("héllo", "héllo"));
}

#[test]
fn test_str_lt_is_lexicographic() {
    assert!(str_lt("", "a"));
    assert!(!str_lt("a", ""));
    assert!(str_lt("abc", "abd"));
    assert!(str_lt("ab", "abc"));
    assert!(!str_lt("abc", "abc"));
    assert!(str_lt("Zoo", "apple"));
    assert_eq!(str_lt("alice", "bob"), "alice" < "bob");
}

#[test]
fn test_borrow_len_counts_bytes() {
    assert_eq!(borrow_len("hello"), 5);
    assert_eq!(borrow_len(""), 0);
    assert_eq!(borrow_len("héllo"), "héllo".len());
}

#[test]
fn test_append_world() {
    let mut s = String::from("hello");
    append_world(&mut s);
    assert_eq!(s, "hello, world");
}

#[test]
fn test_choose_owned_prefers_longer() {
    assert_eq!(choose_owned("alpha", "beta-long"), "beta-long");
    assert_eq!(choose_owned("same1", "same2"), "same1");
}

#[test]
fn test_pickers_return_first() {
    assert_eq!(pick_first("alpha", "beta"), "alpha");
    assert_eq!(pick_first_elided("alpha"), "alpha");
    assert_eq!(same_line("beta"), "beta");
    assert_eq!(two_lines_pick_x("x", "y"), "x");
}
