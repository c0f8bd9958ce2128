use student_store::parse::parse_i32;
use student_store::parse::parse_port;
use student_store::parse::parse_u32;
use student_store::parse::parse_u8;
use student_store::parse::parse_validate_and_double;
use student_store::parse::require_even;
use student_store::parse::require_positive;
use student_store::parse::AppError;
use student_store::parse::DomainError;

#[test]
fn test_parse_u32_basic() {
    assert_eq!(parse_u32("0"), Some(0));
    assert_eq!(parse_u32("42"), Some(42));
    assert_eq!(parse_u32("+42"), Some(42));
    assert_eq!(parse_u32("007"), Some(7));
    assert_eq!(parse_u32("4294967295"), Some(u32::MAX));
    assert_eq!(parse_u32("4294967296"), None);
    assert_eq!(parse_u32("99999999999999999999"), None);
    assert_eq!(parse_u32(""), None);
    assert_eq!(parse_u32("+"), None);
    assert_eq!(parse_u32("-1"), None);
    assert_eq!(parse_u32("1x"), None);
}

#[test]
fn test_parse_u8_basic() {
    assert_eq!(parse_u8("0"), Some(0));
    assert_eq!(parse_u8("255"), Some(255));
    assert_eq!(parse_u8("256"), None);
    assert_eq!(parse_u8("twenty"), None);
}

#[test]
fn test_parse_i32_basic() {
    assert_eq!(parse_i32("21"), Ok(21));
    assert_eq!(parse_i32("-4"), Ok(-4));
    assert_eq!(parse_i32("+5"), Ok(5));
    assert_eq!(parse_i32("2147483647"), Ok(i32::MAX));
    assert_eq!(parse_i32("-2147483648"), Ok(i32::MIN));
    assert_eq!(parse_i32("2147483648"), Err(AppError::Parse));
    assert_eq!(parse_i32("-2147483649"), Err(AppError::Parse));
    assert_eq!(parse_i32("x"), Err(AppError::Parse));
    assert_eq!(parse_i32(""), Err(AppError::Parse));
    assert_eq!(parse_i32("-"), Err(AppError::Parse));
}

#[test]
fn test_require_positive_and_even() {
    assert_eq!(require_positive(3), Ok(3));
    assert_eq!(require_positive(0), Err(AppError::NonPositive(0)));
    assert_eq!(require_positive(-2), Err(AppError::NonPositive(-2)));
    assert_eq!(require_even(4), Ok(4));
    assert_eq!(require_even(3), Err(AppError::Odd(3)));
    assert_eq!(require_even(-3), Err(AppError::Odd(-3)));
}

#[test]
fn test_parse_validate_and_double_chain() {
    assert_eq!(parse_validate_and_double("8"), Ok(16));
    assert_eq!(parse_validate_and_double("21"), Err(AppError::Odd(21)));
    assert_eq!(parse_validate_and_double("-4"), Err(AppError::NonPositive(-4)));
    assert_eq!(parse_validate_and_double("x"), Err(AppError::Parse));
}

#[test]
fn test_parse_port_cases() {
    assert_eq!(parse_port("8080"), Ok(8080));
    assert_eq!(parse_port("1"), Ok(1));
    assert_eq!(parse_port("65535"), Ok(65535));
    assert_eq!(parse_port("0"), Err(DomainError::OutOfRange(0)));
    assert_eq!(parse_port("65536"), Err(DomainError::OutOfRange(65536)));
    assert_eq!(parse_port("-1"), Err(DomainError::OutOfRange(-1)));
    assert_eq!(parse_port("abc"), Err(DomainError::Parse));
}
