use evse_occupancy::parse::{parse_coordinate_micro, parse_coordinates, parse_power_milli};

#[test]
fn power_integer_numeral() {
    assert_eq!(parse_power_milli("7"), Some(7000));
    assert_eq!(parse_power_milli("22"), Some(22000));
    assert_eq!(parse_power_milli("007"), Some(7000));
}

#[test]
fn power_fractional_numeral() {
    assert_eq!(parse_power_milli("22.5"), Some(22500));
    assert_eq!(parse_power_milli("0.6"), Some(600));
    assert_eq!(parse_power_milli("1.2345"), Some(1234));
}

#[test]
fn power_rejects_malformed() {
    assert_eq!(parse_power_milli("bogus"), None);
    assert_eq!(parse_power_milli(""), None);
    assert_eq!(parse_power_milli("7.5.2"), None);
    assert_eq!(parse_power_milli("7."), None);
    assert_eq!(parse_power_milli(".5"), None);
    assert_eq!(parse_power_milli("-7"), None);
    assert_eq!(parse_power_milli("7 "), None);
}

#[test]
fn power_rejects_overflow() {
    assert_eq!(parse_power_milli("99999999999999999999999999"), None);
}

#[test]
fn coordinate_numerals() {
    assert_eq!(parse_coordinate_micro("46.947"), Some(46_947_000));
    assert_eq!(parse_coordinate_micro("-7.5"), Some(-7_500_000));
    assert_eq!(parse_coordinate_micro("8"), Some(8_000_000));
    assert_eq!(parse_coordinate_micro("-"), None);
    assert_eq!(parse_coordinate_micro("--7"), None);
}

#[test]
fn coordinates_two_tokens() {
    assert_eq!(parse_coordinates("8.55 47.36"), Some((8_550_000, 47_360_000)));
    assert_eq!(parse_coordinates("-8.5 47"), Some((-8_500_000, 47_000_000)));
}

#[test]
fn coordinates_extra_tokens_ignored() {
    assert_eq!(parse_coordinates("8.55 47.36 550.0"), Some((8_550_000, 47_360_000)));
}

#[test]
fn coordinates_malformed() {
    assert_eq!(parse_coordinates("8.55"), None);
    assert_eq!(parse_coordinates("a b"), None);
    assert_eq!(parse_coordinates("8.55  47.36"), None);
    assert_eq!(parse_coordinates(""), None);
}
