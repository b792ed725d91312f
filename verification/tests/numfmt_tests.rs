use chat_core::datetime::{DateTimeSql, DateTimeSqlError, MAX_TIMESTAMP, MIN_TIMESTAMP};
use chat_core::numfmt::{i64_to_string, parse_i64, u64_to_string};

#[test]
fn renders_unsigned_decimals() {
    assert_eq!(u64_to_string(0).as_str(), "0");
    assert_eq!(u64_to_string(7).as_str(), "7");
    assert_eq!(u64_to_string(10).as_str(), "10");
    assert_eq!(u64_to_string(90210).as_str(), "90210");
    assert_eq!(u64_to_string(u64::MAX).as_str(), "18446744073709551615");
}

#[test]
fn renders_signed_decimals() {
    assert_eq!(i64_to_string(0).as_str(), "0");
    assert_eq!(i64_to_string(42).as_str(), "42");
    assert_eq!(i64_to_string(-1).as_str(), "-1");
    assert_eq!(i64_to_string(-90210).as_str(), "-90210");
    assert_eq!(i64_to_string(i64::MAX).as_str(), "9223372036854775807");
    assert_eq!(i64_to_string(i64::MIN).as_str(), "-9223372036854775808");
}

#[test]
fn parses_exactly_like_std() {
    let cases = [
        "", "0", "7", "42", "007", "+5", "-0", "-42", "12a", "a12", " 12", "12 ", "+", "-",
        "--4", "+-4", "9223372036854775807", "9223372036854775808", "-9223372036854775808",
        "-9223372036854775809", "99999999999999999999999999", "-99999999999999999999999999",
        "General", "Error", "+0009",
    ];
    for s in cases {
        assert_eq!(parse_i64(s), s.parse::<i64>().ok(), "case {:?}", s);
    }
}

#[test]
fn calendar_range_constants_match_the_library() {
    assert_eq!(chrono::DateTime::<chrono::Utc>::MAX_UTC.timestamp(), MAX_TIMESTAMP);
    assert_eq!(chrono::DateTime::<chrono::Utc>::MIN_UTC.timestamp(), MIN_TIMESTAMP);
}

#[test]
fn timestamps_validate_at_the_boundaries() {
    assert_eq!(DateTimeSql::new(0), Some(DateTimeSql(0)));
    assert_eq!(DateTimeSql::new(MAX_TIMESTAMP), Some(DateTimeSql(MAX_TIMESTAMP)));
    assert_eq!(DateTimeSql::new(MAX_TIMESTAMP + 1), None);
    assert_eq!(DateTimeSql::new(MIN_TIMESTAMP), Some(DateTimeSql(MIN_TIMESTAMP)));
    assert_eq!(DateTimeSql::new(MIN_TIMESTAMP - 1), None);
    assert_eq!(DateTimeSql::parse(1431648000), Some(1431648000));
    assert_eq!(DateTimeSql::parse(i64::MAX), None);
}

#[test]
fn date_error_reports_its_timestamp() {
    assert_eq!(DateTimeSqlError(5).message().as_str(), "DateTimeSqlError(5)");
    assert_eq!(DateTimeSqlError(-33).message().as_str(), "DateTimeSqlError(-33)");
}
