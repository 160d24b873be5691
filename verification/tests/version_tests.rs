use nur::text::{i64_to_string, spaces, u32_to_string, u64_to_string};
use nur::version::{current_file_version, ParseVersionError, Version};

#[test]
fn parse_simple_version() {
    assert_eq!(Version::parse("1.0"), Ok(Version { major: 1, minor: 0 }));
    assert_eq!(Version::parse("0.1"), Ok(Version { major: 0, minor: 1 }));
    assert_eq!(Version::parse("12.345"), Ok(Version { major: 12, minor: 345 }));
}

#[test]
fn parse_missing_dot() {
    assert_eq!(Version::parse("10"), Err(ParseVersionError::MissingDot));
    assert_eq!(Version::parse(""), Err(ParseVersionError::MissingDot));
}

#[test]
fn parse_invalid_number() {
    assert_eq!(Version::parse("a.b"), Err(ParseVersionError::InvalidNumber));
    assert_eq!(Version::parse("1."), Err(ParseVersionError::InvalidNumber));
    assert_eq!(Version::parse(".1"), Err(ParseVersionError::InvalidNumber));
    assert_eq!(Version::parse("1.2.3"), Err(ParseVersionError::InvalidNumber));
    assert_eq!(Version::parse("1. 2"), Err(ParseVersionError::InvalidNumber));
}

#[test]
fn parse_accepts_a_leading_plus() {
    // `u32` parsing accepts one leading `+` per number.
    assert_eq!(Version::parse("+1.2"), Ok(Version { major: 1, minor: 2 }));
    assert_eq!(Version::parse("1.+2"), Ok(Version { major: 1, minor: 2 }));
    assert_eq!(Version::parse("++1.0"), Err(ParseVersionError::InvalidNumber));
    assert_eq!(Version::parse("+.0"), Err(ParseVersionError::InvalidNumber));
    assert_eq!(Version::parse("-1.0"), Err(ParseVersionError::InvalidNumber));
}

#[test]
fn parse_u32_bounds() {
    assert_eq!(
        Version::parse("4294967295.0"),
        Ok(Version { major: 4294967295, minor: 0 })
    );
    assert_eq!(
        Version::parse("4294967296.0"),
        Err(ParseVersionError::InvalidNumber)
    );
}

#[test]
fn render_version() {
    assert_eq!(Version { major: 0, minor: 1 }.render(), "0.1");
    assert_eq!(Version { major: 12, minor: 345 }.render(), "12.345");
}

#[test]
fn current_version_is_zero_one() {
    assert_eq!(current_file_version(), Version { major: 0, minor: 1 });
}

#[test]
fn decimal_rendering() {
    assert_eq!(u64_to_string(0), "0");
    assert_eq!(u64_to_string(1234567890123), "1234567890123");
    assert_eq!(u32_to_string(42), "42");
    assert_eq!(i64_to_string(-5), "-5");
    assert_eq!(i64_to_string(0), "0");
    assert_eq!(i64_to_string(i64::MIN), "-9223372036854775808");
}

#[test]
fn spaces_run() {
    assert_eq!(spaces(0), "");
    assert_eq!(spaces(4), "    ");
}
