//! Decimal parsing and validation: unsigned and signed integers from text,
//! with the exact grammar stated as spec functions, plus the small
//! validation chains built on them.

use vstd::prelude::*;
use vstd::string::StrSliceExecFns;

verus! {

/// `c` is a decimal digit.
pub open spec fn is_digit(c: char) -> bool {
    48 <= (c as u32) <= 57
}

/// The numeric value of a digit.
pub open spec fn digit_val(c: char) -> int {
    (c as u32) - 48
}

/// Every character is a decimal digit.
pub open spec fn all_digits(s: Seq<char>) -> bool {
    forall|i: int| 0 <= i < s.len() ==> is_digit(#[trigger] s[i])
}

/// The number a digit string denotes, most significant digit first.
pub open spec fn digits_val(s: Seq<char>) -> int
    decreases s.len(),
{
    if s.len() == 0 {
        0
    } else {
        digits_val(s.drop_last()) * 10 + digit_val(s.last())
    }
}

/// A digit string denotes a non-negative number.
pub proof fn lemma_digits_val_nonneg(s: Seq<char>)
    requires
        all_digits(s),
    ensures
        digits_val(s) >= 0,
    decreases s.len(),
{
    if s.len() > 0 {
        assert(all_digits(s.drop_last())) by {
            assert forall|i: int| 0 <= i < s.len() - 1 implies is_digit(
                #[trigger] s.drop_last()[i],
            ) by {
                assert(s.drop_last()[i] == s[i]);
            }
        }
        lemma_digits_val_nonneg(s.drop_last());
    }
}

/// Extending a digit string never shrinks its value.
pub proof fn lemma_digits_val_prefix(s: Seq<char>, k: int)
    requires
        all_digits(s),
        0 <= k <= s.len(),
    ensures
        digits_val(s.take(k)) <= digits_val(s),
    decreases s.len() - k,
{
    if k == s.len() {
        assert(s.take(k) =~= s);
    } else {
        assert(s.take(k + 1).drop_last() =~= s.take(k));
        assert(s.take(k + 1).last() == s[k]);
        assert(all_digits(s.take(k))) by {
            assert forall|i: int| 0 <= i < k implies is_digit(#[trigger] s.take(k)[i]) by {
                assert(s.take(k)[i] == s[i]);
            }
        }
        lemma_digits_val_nonneg(s.take(k));
        assert(digits_val(s.take(k + 1)) == digits_val(s.take(k)) * 10 + digit_val(s[k]));
        assert(digits_val(s.take(k)) * 10 >= digits_val(s.take(k)));
        lemma_digits_val_prefix(s, k + 1);
    }
}

/// The digits of an unsigned decimal string: an optional leading `+` is
/// dropped.
pub open spec fn unsigned_body(s: Seq<char>) -> Seq<char> {
    if s.len() > 0 && s[0] == '+' {
        s.drop_first()
    } else {
        s
    }
}

/// `s` is a decimal string some `u32` parses from: an optional `+`, then at
/// least one digit, denoting a value in range.
pub open spec fn valid_u32_str(s: Seq<char>) -> bool {
    &&& unsigned_body(s).len() > 0
    &&& all_digits(unsigned_body(s))
    &&& digits_val(unsigned_body(s)) <= u32::MAX
}

/// The value an unsigned decimal string denotes.
pub open spec fn parsed_u32(s: Seq<char>) -> int {
    digits_val(unsigned_body(s))
}

/// `s` is a decimal string some `u8` parses from.
pub open spec fn valid_u8_str(s: Seq<char>) -> bool {
    &&& unsigned_body(s).len() > 0
    &&& all_digits(unsigned_body(s))
    &&& digits_val(unsigned_body(s)) <= u8::MAX
}

/// Parse an unsigned 32-bit decimal: an optional `+`, then digits.
pub fn parse_u32(s: &str) -> (r: Option<u32>)
    ensures
        valid_u32_str(s@) ==> r == Some(parsed_u32(s@) as u32),
        !valid_u32_str(s@) ==> r is None,
{
    let len: usize = s.unicode_len();
    let start: usize = if len > 0 && s.get_char(0) == '+' {
        1
    } else {
        0
    };
    let ghost b = unsigned_body(s@);
    proof {
        assert(b =~= s@.skip(start as int));
    }
    if start == len {
        return None;
    }
    let mut acc: u64 = 0;
    let mut i: usize = start;
    while i < len
        invariant
            start <= i <= len == s@.len(),
            b == unsigned_body(s@),
            b == s@.skip(start as int),
            b.len() == len - start,
            forall|j: int| 0 <= j < i - start ==> is_digit(#[trigger] b[j]),
            acc <= u32::MAX,
            acc == digits_val(b.take(i - start)),
        decreases len - i,
    {
        let c = s.get_char(i);
        let u: u32 = c as u32;
        proof {
            assert(b[i - start] == s@[i as int]);
        }
        if u < 48 || u > 57 {
            proof {
                assert(!is_digit(b[i - start]));
            }
            return None;
        }
        proof {
            assert(b.take(i - start + 1).drop_last() =~= b.take(i - start));
            assert(b.take(i - start + 1).last() == b[i - start]);
        }
        acc = acc * 10 + (u - 48) as u64;
        if acc > 0xffff_ffff {
            proof {
                assert(acc == digits_val(b.take(i - start + 1)));
                if all_digits(b) {
                    lemma_digits_val_prefix(b, i - start + 1);
                    assert(digits_val(b) > u32::MAX);
                }
            }
            return None;
        }
        i = i + 1;
    }
    proof {
        assert(b.take(len - start) =~= b);
        assert(all_digits(b));
    }
    Some(acc as u32)
}

/// Parse an unsigned 8-bit decimal: an optional `+`, then digits.
pub fn parse_u8(s: &str) -> (r: Option<u8>)
    ensures
        valid_u8_str(s@) ==> r == Some(digits_val(unsigned_body(s@)) as u8),
        !valid_u8_str(s@) ==> r is None,
{
    let wide = parse_u32(s);
    proof {
        if valid_u8_str(s@) {
            lemma_digits_val_nonneg(unsigned_body(s@));
            assert(valid_u32_str(s@));
        }
        if !valid_u8_str(s@) && valid_u32_str(s@) {
            assert(digits_val(unsigned_body(s@)) > u8::MAX);
        }
    }
    match wide {
        Some(v) => if v <= 255 {
            Some(v as u8)
        } else {
            None
        },
        None => None,
    }
}

/// Errors of the parse-and-validate chain.
#[derive(Clone, Copy, Debug, PartialEq, Eq, Structural)]
pub enum AppError {
    /// The text is not a decimal number an `i32` parses from.
    Parse,
    /// The value is not strictly positive.
    NonPositive(i32),
    /// The value is odd.
    Odd(i32),
}

/// The digits of a signed decimal string: an optional leading `+` or `-` is
/// dropped.
pub open spec fn signed_body(s: Seq<char>) -> Seq<char> {
    if s.len() > 0 && (s[0] == '+' || s[0] == '-') {
        s.drop_first()
    } else {
        s
    }
}

/// The string denotes a negated number.
pub open spec fn is_negative(s: Seq<char>) -> bool {
    s.len() > 0 && s[0] == '-'
}

/// The signed value a decimal string denotes.
pub open spec fn parsed_i32(s: Seq<char>) -> int {
    if is_negative(s) {
        -digits_val(signed_body(s))
    } else {
        digits_val(signed_body(s))
    }
}

/// `s` is a decimal string some `i32` parses from.
pub open spec fn valid_i32_str(s: Seq<char>) -> bool {
    &&& signed_body(s).len() > 0
    &&& all_digits(signed_body(s))
    &&& i32::MIN <= parsed_i32(s) <= i32::MAX
}

/// Parse a signed 32-bit decimal: an optional `+` or `-`, then digits.
pub fn parse_i32(raw: &str) -> (r: Result<i32, AppError>)
    ensures
        valid_i32_str(raw@) ==> r == Ok::<i32, AppError>(parsed_i32(raw@) as i32),
        !valid_i32_str(raw@) ==> r == Err::<i32, AppError>(AppError::Parse),
{
    let len: usize = raw.unicode_len();
    let mut neg = false;
    let mut start: usize = 0;
    if len > 0 {
        let c0 = raw.get_char(0);
        if c0 == '+' {
            start = 1;
        } else if c0 == '-' {
            start = 1;
            neg = true;
        }
    }
    let ghost b = signed_body(raw@);
    proof {
        assert(b =~= raw@.skip(start as int));
        assert(neg == is_negative(raw@));
    }
    if start == len {
        return Err(AppError::Parse);
    }
    let mut acc: u64 = 0;
    let mut i: usize = start;
    while i < len
        invariant
            start <= i <= len == raw@.len(),
            b == signed_body(raw@),
            neg == is_negative(raw@),
            b == raw@.skip(start as int),
            b.len() == len - start,
            forall|j: int| 0 <= j < i - start ==> is_digit(#[trigger] b[j]),
            acc <= 0x8000_0000,
            acc == digits_val(b.take(i - start)),
        decreases len - i,
    {
        let c = raw.get_char(i);
        let u: u32 = c as u32;
        proof {
            assert(b[i - start] == raw@[i as int]);
        }
        if u < 48 || u > 57 {
            proof {
                assert(!is_digit(b[i - start]));
            }
            return Err(AppError::Parse);
        }
        proof {
            assert(b.take(i - start + 1).drop_last() =~= b.take(i - start));
            assert(b.take(i - start + 1).last() == b[i - start]);
        }
        acc = acc * 10 + (u - 48) as u64;
        if acc > 0x8000_0000 {
            proof {
                assert(acc == digits_val(b.take(i - start + 1)));
                if all_digits(b) {
                    lemma_digits_val_prefix(b, i - start + 1);
                    assert(digits_val(b) > 0x8000_0000);
                }
            }
            return Err(AppError::Parse);
        }
        i = i + 1;
    }
    proof {
        assert(b.take(len - start) =~= b);
        assert(all_digits(b));
    }
    if neg {
        let wide: i64 = -(acc as i64);
        if wide < -0x8000_0000i64 {
            return Err(AppError::Parse);
        }
        Ok(wide as i32)
    } else {
        if acc > 0x7fff_ffff {
            return Err(AppError::Parse);
        }
        Ok(acc as i32)
    }
}

/// Accept a strictly positive value, reject the rest.
pub fn require_positive(n: i32) -> (r: Result<i32, AppError>)
    ensures
        n > 0 ==> r == Ok::<i32, AppError>(n),
        n <= 0 ==> r == Err::<i32, AppError>(AppError::NonPositive(n)),
{
    if n > 0 {
        Ok(n)
    } else {
        Err(AppError::NonPositive(n))
    }
}

/// Accept an even value, reject the rest.
pub fn require_even(n: i32) -> (r: Result<i32, AppError>)
    ensures
        n % 2 == 0 ==> r == Ok::<i32, AppError>(n),
        n % 2 != 0 ==> r == Err::<i32, AppError>(AppError::Odd(n)),
{
    if n % 2 == 0 {
        Ok(n)
    } else {
        Err(AppError::Odd(n))
    }
}

/// Parse, require a positive even value, and double it. The first failed
/// stage decides the error.
pub fn parse_validate_and_double(raw: &str) -> (r: Result<i32, AppError>)
    requires
        (valid_i32_str(raw@) && parsed_i32(raw@) > 0 && parsed_i32(raw@) % 2 == 0) ==> 2
            * parsed_i32(raw@) <= i32::MAX,
    ensures
        !valid_i32_str(raw@) ==> r == Err::<i32, AppError>(AppError::Parse),
        valid_i32_str(raw@) && parsed_i32(raw@) <= 0 ==> r == Err::<i32, AppError>(
            AppError::NonPositive(parsed_i32(raw@) as i32),
        ),
        valid_i32_str(raw@) && parsed_i32(raw@) > 0 && parsed_i32(raw@) % 2 != 0 ==> r
            == Err::<i32, AppError>(AppError::Odd(parsed_i32(raw@) as i32)),
        valid_i32_str(raw@) && parsed_i32(raw@) > 0 && parsed_i32(raw@) % 2 == 0 ==> r
            == Ok::<i32, AppError>((2 * parsed_i32(raw@)) as i32),
{
    let n = match parse_i32(raw) {
        Ok(v) => v,
        Err(e) => {
            return Err(e);
        },
    };
    let n = match require_positive(n) {
        Ok(v) => v,
        Err(e) => {
            return Err(e);
        },
    };
    let n = match require_even(n) {
        Ok(v) => v,
        Err(e) => {
            return Err(e);
        },
    };
    Ok(n * 2)
}

/// Errors of port parsing.
#[derive(Clone, Copy, Debug, PartialEq, Eq, Structural)]
pub enum DomainError {
    /// The text is not a decimal number an `i32` parses from.
    Parse,
    /// The value is outside `1..=65535`.
    OutOfRange(i32),
}

/// Parse a TCP port: a signed decimal in `1..=65535`.
pub fn parse_port(raw: &str) -> (r: Result<u16, DomainError>)
    ensures
        !valid_i32_str(raw@) ==> r == Err::<u16, DomainError>(DomainError::Parse),
        valid_i32_str(raw@) && 1 <= parsed_i32(raw@) <= 65535 ==> r == Ok::<u16, DomainError>(
            parsed_i32(raw@) as u16,
        ),
        valid_i32_str(raw@) && !(1 <= parsed_i32(raw@) <= 65535) ==> r == Err::<u16, DomainError>(
            DomainError::OutOfRange(parsed_i32(raw@) as i32),
        ),
{
    let n = match parse_i32(raw) {
        Ok(v) => v,
        Err(_) => {
            return Err(DomainError::Parse);
        },
    };
    if 1 <= n && n <= 65535 {
        Ok(n as u16)
    } else {
        Err(DomainError::OutOfRange(n))
    }
}

} // verus!
