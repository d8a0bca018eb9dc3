use version_bump::SemanticVersion;
use version_bump::VersionError;
use version_bump::format_version;
use version_bump::parse_version;

fn v(major: u64, minor: u64, patch: u64) -> SemanticVersion {
    SemanticVersion { major, minor, patch }
}

#[test]
fn parse_simple_triple() {
    assert_eq!(parse_version("1.2.3").unwrap(), v(1, 2, 3));
}

#[test]
fn parse_zeros() {
    assert_eq!(parse_version("0.0.0").unwrap(), v(0, 0, 0));
}

#[test]
fn parse_multi_digit_components() {
    assert_eq!(parse_version("10.200.3001").unwrap(), v(10, 200, 3001));
}

#[test]
fn parse_accepts_leading_zeros() {
    assert_eq!(parse_version("01.002.3").unwrap(), v(1, 2, 3));
}

#[test]
fn parse_largest_u64_component() {
    assert_eq!(
        parse_version("18446744073709551615.0.0").unwrap(),
        v(18446744073709551615, 0, 0)
    );
}

#[test]
fn parse_component_too_large() {
    assert_eq!(
        parse_version("18446744073709551616.0.0").unwrap_err(),
        VersionError::InvalidVersionFormat
    );
}

#[test]
fn parse_rejects_word() {
    assert_eq!(
        parse_version("bogus").unwrap_err(),
        VersionError::InvalidVersionFormat
    );
}

#[test]
fn parse_rejects_empty() {
    assert_eq!(
        parse_version("").unwrap_err(),
        VersionError::InvalidVersionFormat
    );
}

#[test]
fn parse_rejects_two_segments() {
    assert_eq!(
        parse_version("1.2").unwrap_err(),
        VersionError::InvalidVersionFormat
    );
}

#[test]
fn parse_rejects_four_segments() {
    assert_eq!(
        parse_version("1.2.3.4").unwrap_err(),
        VersionError::InvalidVersionFormat
    );
}

#[test]
fn parse_rejects_empty_segment() {
    assert_eq!(
        parse_version("1..3").unwrap_err(),
        VersionError::InvalidVersionFormat
    );
    assert_eq!(
        parse_version(".2.3").unwrap_err(),
        VersionError::InvalidVersionFormat
    );
    assert_eq!(
        parse_version("1.2.").unwrap_err(),
        VersionError::InvalidVersionFormat
    );
}

#[test]
fn parse_rejects_non_digits() {
    assert_eq!(
        parse_version("a.b.c").unwrap_err(),
        VersionError::InvalidVersionFormat
    );
    assert_eq!(
        parse_version("1.2.3-beta").unwrap_err(),
        VersionError::InvalidVersionFormat
    );
    assert_eq!(
        parse_version(" 1.2.3").unwrap_err(),
        VersionError::InvalidVersionFormat
    );
}

#[test]
fn format_simple_triple() {
    assert_eq!(format_version(&v(1, 2, 3)), "1.2.3");
}

#[test]
fn format_zero() {
    assert_eq!(format_version(&v(0, 0, 0)), "0.0.0");
}

#[test]
fn format_multi_digit() {
    assert_eq!(format_version(&v(10, 200, 3001)), "10.200.3001");
}

#[test]
fn format_largest_u64() {
    assert_eq!(
        format_version(&v(18446744073709551615, 7, 0)),
        "18446744073709551615.7.0"
    );
}

#[test]
fn round_trip_parse_of_format() {
    let cases = [
        v(0, 0, 0),
        v(1, 2, 3),
        v(99, 0, 1),
        v(10, 200, 3001),
        v(18446744073709551615, 0, 18446744073709551615),
    ];
    for version in cases {
        assert_eq!(parse_version(&format_version(&version)).unwrap(), version);
    }
}
