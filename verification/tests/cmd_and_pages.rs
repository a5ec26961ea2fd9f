//! The argument parser, the error taxonomy and the page-size defaults.

use sliced::cmd::parse_i64;
use sliced::error::SlicedError;
use sliced::page_size;
use sliced::stream::StreamError;

#[test]
fn test_get() {
    #[allow(unused_variables)]
    let page_size = page_size::get();
}

#[test]
fn test_get_granularity() {
    #[allow(unused_variables)]
    let granularity = page_size::get_granularity();
}

#[test]
fn parse_i64_accepts_well_formed_decimals() {
    assert_eq!(parse_i64("0").unwrap(), 0);
    assert_eq!(parse_i64("42").unwrap(), 42);
    assert_eq!(parse_i64("007").unwrap(), 7);
    assert_eq!(parse_i64("+15").unwrap(), 15);
    assert_eq!(parse_i64("-1").unwrap(), -1);
    assert_eq!(parse_i64("9223372036854775807").unwrap(), i64::MAX);
    assert_eq!(parse_i64("-9223372036854775808").unwrap(), i64::MIN);
}

#[test]
fn parse_i64_rejects_malformed_or_out_of_range() {
    for bad in [
        "",
        "-",
        "+",
        "12a",
        "a12",
        "1.5",
        " 1",
        "9223372036854775808",
        "-9223372036854775809",
        "99999999999999999999999",
    ] {
        match parse_i64(bad) {
            Err(SlicedError::ParseInt(text)) => assert_eq!(text, bad),
            other => panic!("expected a parse error for {:?}, got {:?}", bad, other),
        }
    }
}

#[test]
fn error_kinds_describe_themselves() {
    assert_eq!(StreamError::WouldBlock.describe(), "would block");
    assert_eq!(StreamError::Overflow.describe(), "overflow");
    assert_eq!(StreamError::OutOfMemory.describe(), "out of memory");
    assert_eq!(StreamError::BadInput.describe(), "bad input");
    assert_eq!(StreamError::Exists.describe(), "exists");
    assert_eq!(StreamError::NotExists.describe(), "not exists");
    let generic = SlicedError::generic(String::from("boom"));
    assert_eq!(generic.describe(), "error");
    match generic {
        SlicedError::Generic(g) => assert_eq!(g.message, "boom"),
        _ => panic!("expected the generic variant"),
    }
}
