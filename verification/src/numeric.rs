//! Small arithmetic routines: addition, clamping and range/slice summation.

use vstd::prelude::*;

verus! {

/// Sum of the integers in the closed interval `[start, end]`; zero when the
/// interval is empty.
pub open spec fn range_sum(start: int, end: int) -> int
    decreases end - start + 1
{
    if start > end {
        0
    } else {
        range_sum(start, end - 1) + end
    }
}

/// The closed form of `range_sum`: the interval `[a, b]` of consecutive
/// integers sums to `(a + b) * (b - a + 1) / 2`.
pub proof fn lemma_range_sum_closed_form(a: int, b: int)
    requires
        a <= b + 1,
    ensures
        range_sum(a, b) == (a + b) * (b - a + 1) / 2,
    decreases b - a + 1,
{
    if a > b {
        assert((a + b) * (b - a + 1) == 0) by (nonlinear_arith)
            requires b - a + 1 == 0;
    } else {
        lemma_range_sum_closed_form(a, b - 1);
        assert((a + (b - 1)) * ((b - 1) - a + 1) / 2 + b == (a + b) * (b - a + 1) / 2)
            by (nonlinear_arith);
    }
}

/// `range_sum` never exceeds `(b - a + 1) * m` in magnitude when every term
/// lies within `[-m, m]`.
pub proof fn lemma_range_sum_abs_bound(a: int, b: int, m: int)
    requires
        a <= b + 1,
        -m <= a,
        b <= m,
        0 <= m,
    ensures
        -((b - a + 1) * m) <= range_sum(a, b) <= (b - a + 1) * m,
    decreases b - a + 1,
{
    if a > b {
        assert((b - a + 1) * m == 0) by (nonlinear_arith)
            requires b - a + 1 == 0;
    } else {
        lemma_range_sum_abs_bound(a, b - 1, m);
        assert(-m <= b <= m);
        assert(((b - 1) - a + 1) * m + m == (b - a + 1) * m) by (nonlinear_arith);
    }
}

/// Sum of the closed interval `[start, end]`, or zero when `start > end`.
pub fn sum(start: i32, end: i32) -> (total: i32)
    requires
        i32::MIN <= range_sum(start as int, end as int) <= i32::MAX,
    ensures
        total == range_sum(start as int, end as int),
        start as int <= end as int + 1 ==> total == (start + end) * (end - start + 1) / 2,
{
    proof {
        if start as int <= end as int + 1 {
            lemma_range_sum_closed_form(start as int, end as int);
        }
    }
    let mut total: i128 = 0;
    let mut i: i64 = start as i64;
    while i <= end as i64
        invariant
            start as int <= i <= end as int + 1 || (start as int > end as int && i == start as int),
            total == range_sum(start as int, i - 1),
            i32::MIN <= start as int <= i32::MAX,
            i32::MIN <= end as int <= i32::MAX,
        decreases end as int + 1 - i,
    {
        proof {
            lemma_range_sum_abs_bound(start as int, i - 1, 0x8000_0000);
        }
        total = total + i as i128;
        i = i + 1;
    }
    total as i32
}

/// Sum of every element of the slice.
pub open spec fn seq_sum(s: Seq<u64>) -> int
    decreases s.len(),
{
    if s.len() == 0 {
        0
    } else {
        seq_sum(s.drop_last()) + s.last()
    }
}

/// A sum of unsigned numbers is never negative.
pub proof fn lemma_seq_sum_nonneg(s: Seq<u64>)
    ensures
        0 <= seq_sum(s),
    decreases s.len(),
{
    if s.len() > 0 {
        lemma_seq_sum_nonneg(s.drop_last());
    }
}

/// A prefix of a slice of non-negative numbers never sums to more than the
/// whole slice.
pub proof fn lemma_seq_sum_prefix_le(s: Seq<u64>, i: int)
    requires
        0 <= i <= s.len(),
    ensures
        0 <= seq_sum(s.subrange(0, i)) <= seq_sum(s),
    decreases s.len() - i,
{
    lemma_seq_sum_nonneg(s.subrange(0, i));
    if i == s.len() {
        assert(s.subrange(0, i) =~= s);
    } else {
        assert(s.subrange(0, i + 1).drop_last() =~= s.subrange(0, i));
        assert(seq_sum(s.subrange(0, i + 1)) == seq_sum(s.subrange(0, i)) + s[i]);
        lemma_seq_sum_prefix_le(s, i + 1);
    }
}

/// Straight-line summation of a slice.
pub fn sum_baseline(data: &[u64]) -> (total: u64)
    requires
        seq_sum(data@) <= u64::MAX,
    ensures
        total == seq_sum(data@),
{
    let mut total: u64 = 0;
    let n: usize = data.len();
    let mut i: usize = 0;
    while i < n
        invariant
            0 <= i <= n == data@.len(),
            total == seq_sum(data@.subrange(0, i as int)),
            seq_sum(data@) <= u64::MAX,
        decreases n - i,
    {
        proof {
            lemma_seq_sum_prefix_le(data@, i + 1);
            assert(data@.subrange(0, i + 1).drop_last() =~= data@.subrange(0, i as int));
        }
        total = total + data[i];
        i = i + 1;
    }
    proof {
        assert(data@.subrange(0, n as int) =~= data@);
    }
    total
}

pub fn add(a: i32, b: i32) -> (r: i32)
    requires
        i32::MIN <= a + b <= i32::MAX,
    ensures
        r == a + b,
{
    a + b
}

/// Clamp `v` into the closed interval `[low, high]`.
pub fn clamp(v: i32, low: i32, high: i32) -> (r: i32)
    ensures
        r == if v < low { low } else if v > high { high } else { v },
{
    if v < low {
        low
    } else if v > high {
        high
    } else {
        v
    }
}

} // verus!
