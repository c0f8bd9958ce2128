use student_store::client::Client;
use student_store::list::SinglyList;
use student_store::runner::calc_total_timeout;
use student_store::runner::classify;
use student_store::runner::maybe_timeout;
use student_store::runner::u64_to_string;
use student_store::runner::Mode;
use student_store::runner::RetryPolicy;
use student_store::runner::RunMode;
use student_store::runner::TaskRunner;

#[test]
fn test_classify_bands() {
    assert_eq!(classify(95), "A");
    assert_eq!(classify(90), "A");
    assert_eq!(classify(100), "A");
    assert_eq!(classify(89), "B");
    assert_eq!(classify(75), "B");
    assert_eq!(classify(74), "C");
    assert_eq!(classify(60), "C");
    assert_eq!(classify(59), "D");
    assert_eq!(classify(101), "D");
    assert_eq!(classify(-5), "D");
}

#[test]
fn test_maybe_timeout() {
    assert_eq!(maybe_timeout(&Mode::Fast), Some(200));
    assert_eq!(maybe_timeout(&Mode::Safe), None);
}

#[test]
fn test_mode_text() {
    assert_eq!(Mode::Fast.text(), "fast");
    assert_eq!(Mode::Safe.text(), "safe");
}

#[test]
fn test_task_runner_new() {
    let runner = TaskRunner::new("parser", Mode::Fast);
    assert_eq!(runner.name, "parser");
    assert_eq!(runner.mode, Mode::Fast);
}

#[test]
fn test_u64_to_string_exact() {
    assert_eq!(u64_to_string(0), "0");
    assert_eq!(u64_to_string(7), "7");
    assert_eq!(u64_to_string(30), "30");
    assert_eq!(u64_to_string(1234567890), "1234567890");
    assert_eq!(u64_to_string(u64::MAX), "18446744073709551615");
}

#[test]
fn test_retry_policy_describe() {
    let policy = RetryPolicy::new(4, 30);
    assert_eq!(policy.describe(RunMode::Fast), "mode=fast, max_retry=4, backoff_ms=30");
    assert_eq!(policy.describe(RunMode::SafeMode), "mode=safe, max_retry=4, backoff_ms=30");
}

#[test]
fn test_calc_total_timeout() {
    let policy = RetryPolicy::new(4, 30);
    assert_eq!(calc_total_timeout(&policy), 370);
}

#[test]
fn test_client_addr() {
    let c = Client::new("127.0.0.1:8080");
    assert_eq!(c.addr(), "127.0.0.1:8080");
}

#[test]
fn test_singly_list_stack_order() {
    let mut list = SinglyList::new();
    list.push_front(10);
    list.push_front(20);
    list.push_front(30);
    assert_eq!(list.pop_front(), Some(30));
    assert_eq!(list.pop_front(), Some(20));
    assert_eq!(list.pop_front(), Some(10));
    assert_eq!(list.pop_front(), None);
}
