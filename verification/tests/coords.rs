use manifester::RunError;
use manifester::coords::parse_coordinate;
use manifester::coords::round_micro_to_milli;

#[test]
fn parse_plain_decimal() {
    assert_eq!(parse_coordinate("135.7681").unwrap(), 135_768_100);
}

#[test]
fn parse_integer_only() {
    assert_eq!(parse_coordinate("35").unwrap(), 35_000_000);
}

#[test]
fn parse_signed_values() {
    assert_eq!(parse_coordinate("-0.5").unwrap(), -500_000);
    assert_eq!(parse_coordinate("+13.75").unwrap(), 13_750_000);
}

#[test]
fn parse_fraction_only_and_trailing_point() {
    assert_eq!(parse_coordinate(".5").unwrap(), 500_000);
    assert_eq!(parse_coordinate("1.").unwrap(), 1_000_000);
}

#[test]
fn parse_truncates_past_six_decimals() {
    assert_eq!(parse_coordinate("13.1234567").unwrap(), 13_123_456);
}

#[test]
fn parse_rejects_garbage() {
    assert_eq!(parse_coordinate("abc").unwrap_err(), RunError::LookupTransportError);
    assert_eq!(parse_coordinate("").unwrap_err(), RunError::LookupTransportError);
    assert_eq!(parse_coordinate(".").unwrap_err(), RunError::LookupTransportError);
    assert_eq!(parse_coordinate("1e5").unwrap_err(), RunError::LookupTransportError);
    assert_eq!(parse_coordinate("1.2.3").unwrap_err(), RunError::LookupTransportError);
    assert_eq!(parse_coordinate("-").unwrap_err(), RunError::LookupTransportError);
}

#[test]
fn parse_rejects_out_of_range_integer_part() {
    assert_eq!(
        parse_coordinate("9999999999999.0").unwrap_err(),
        RunError::LookupTransportError
    );
}

#[test]
fn round_to_millidegrees_exact() {
    assert_eq!(round_micro_to_milli(135_768_100), 135_768);
    assert_eq!(round_micro_to_milli(0), 0);
}

#[test]
fn round_to_millidegrees_nearest_ties_away() {
    assert_eq!(round_micro_to_milli(499), 0);
    assert_eq!(round_micro_to_milli(500), 1);
    assert_eq!(round_micro_to_milli(1_499), 1);
    assert_eq!(round_micro_to_milli(1_500), 2);
    assert_eq!(round_micro_to_milli(-499), 0);
    assert_eq!(round_micro_to_milli(-500), -1);
    assert_eq!(round_micro_to_milli(-1_500), -2);
}
