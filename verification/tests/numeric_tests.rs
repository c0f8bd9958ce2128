use student_store::numeric::clamp;
use student_store::numeric::sum;
use student_store::numeric::sum_baseline;

#[test]
fn test_clamp_low() {
    assert_eq!(clamp(-1, 0, 10), 0);
}

#[test]
fn test_clamp_mid() {
    assert_eq!(clamp(5, 0, 10), 5);
}

#[test]
fn test_clamp_high() {
    assert_eq!(clamp(15, 0, 10), 10);
}

#[test]
fn test_add() {
    assert_eq!(student_store::numeric::add(3, 5), 8);
    assert_eq!(student_store::numeric::add(-3, 5), 2);
}

#[test]
fn test_sum_closed_interval() {
    assert_eq!(sum(1, 100), 5050);
    assert_eq!(sum(5, 5), 5);
    assert_eq!(sum(3, 2), 0);
    assert_eq!(sum(-3, 3), 0);
}

#[test]
fn test_sum_baseline_small() {
    let data: Vec<u64> = (0..200_000).collect();
    assert_eq!(sum_baseline(&data), 199_999 * 200_000 / 2);
    assert_eq!(sum_baseline(&[]), 0);
    assert_eq!(sum_baseline(&[7, 11]), 18);
}
