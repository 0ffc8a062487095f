//! Amounts of data: reading them, rounding them, and writing them.

use artools::amounts::{amount_of, parse_amount, AmountFault};
use artools::ardisk::{format_size, parse_threshold};
use artools::arfind::{parse_size, parse_size_bytes};
use artools::decimal::{div_half_even, round_to_double, to_decimal};

#[test]
fn bytes_unit() {
    assert_eq!(parse_size_bytes("500B").unwrap(), 500);
}

#[test]
fn kilobytes_unit() {
    assert_eq!(parse_size_bytes("1KB").unwrap(), 1024);
}

#[test]
fn megabytes_unit() {
    assert_eq!(parse_size_bytes("10MB").unwrap(), 10 * 1024 * 1024);
}

#[test]
fn gigabytes_unit() {
    assert_eq!(parse_size_bytes("2GB").unwrap(), 2 * 1024 * 1024 * 1024);
}

#[test]
fn terabytes_unit() {
    assert_eq!(parse_size_bytes("1TB").unwrap(), 1024_u64.pow(4));
}

#[test]
fn case_insensitive_unit() {
    assert_eq!(parse_size_bytes("10mb").unwrap(), 10 * 1024 * 1024);
    assert_eq!(parse_size_bytes("10Mb").unwrap(), 10 * 1024 * 1024);
}

#[test]
fn fractional_value() {
    assert_eq!(parse_size_bytes("0.5GB").unwrap(), 512 * 1024 * 1024);
}

#[test]
fn missing_unit_returns_error() {
    assert!(parse_size_bytes("1024").is_err());
}

#[test]
fn unknown_unit_returns_error() {
    assert!(parse_size_bytes("10PB").is_err());
}

#[test]
fn non_numeric_returns_error() {
    assert!(parse_size_bytes("tenMB").is_err());
}

#[test]
fn plus_prefix_sets_min_only() {
    let f = parse_size("+100MB").unwrap();
    assert_eq!(f.min, Some(100 * 1024 * 1024));
    assert_eq!(f.max, None);
}

#[test]
fn minus_prefix_sets_max_only() {
    let f = parse_size("-1KB").unwrap();
    assert_eq!(f.min, None);
    assert_eq!(f.max, Some(1024));
}

#[test]
fn no_prefix_means_greater_than() {
    let f = parse_size("10MB").unwrap();
    let bytes = 10 * 1024 * 1024u64;
    assert_eq!(f.min, Some(bytes));
    assert_eq!(f.max, None);
}

#[test]
fn invalid_size_returns_error() {
    assert!(parse_size("+badMB").is_err());
    assert!(parse_size("10XB").is_err());
    assert!(parse_size("").is_err());
}

#[test]
fn parse_bytes() {
    assert_eq!(parse_threshold("500B").unwrap(), 500);
}

#[test]
fn parse_kilobytes() {
    assert_eq!(parse_threshold("1KB").unwrap(), 1024);
}

#[test]
fn parse_megabytes() {
    assert_eq!(parse_threshold("10MB").unwrap(), 10 * 1024 * 1024);
}

#[test]
fn parse_gigabytes() {
    assert_eq!(parse_threshold("2GB").unwrap(), 2 * 1024 * 1024 * 1024);
}

#[test]
fn parse_terabytes() {
    assert_eq!(parse_threshold("1TB").unwrap(), 1024_u64.pow(4));
}

#[test]
fn parse_case_insensitive() {
    assert_eq!(parse_threshold("10mb").unwrap(), 10 * 1024 * 1024);
    assert_eq!(parse_threshold("10Mb").unwrap(), 10 * 1024 * 1024);
    assert_eq!(parse_threshold("10MB").unwrap(), 10 * 1024 * 1024);
}

#[test]
fn parse_fractional_value() {
    assert_eq!(parse_threshold("0.5GB").unwrap(), 512 * 1024 * 1024);
}

#[test]
fn parse_trims_whitespace() {
    assert_eq!(parse_threshold("  10MB  ").unwrap(), 10 * 1024 * 1024);
}

#[test]
fn parse_missing_suffix_returns_error() {
    assert!(parse_threshold("1024").is_err());
}

#[test]
fn parse_unknown_unit_returns_error() {
    assert!(parse_threshold("10PB").is_err());
}

#[test]
fn parse_non_numeric_value_returns_error() {
    assert!(parse_threshold("tenMB").is_err());
}

#[test]
fn parse_negative_value_returns_error() {
    assert!(parse_threshold("-10MB").is_err());
}

#[test]
fn parse_empty_string_returns_error() {
    assert!(parse_threshold("").is_err());
}

#[test]
fn format_size_bytes() {
    let s = format_size(512);
    assert!(s.contains("512") && s.contains('B'));
}

#[test]
fn format_size_kilobytes() {
    let s = format_size(2048);
    assert!(s.contains("KB"), "expected KB, got: {}", s);
}

#[test]
fn format_size_megabytes() {
    let s = format_size(3 * 1024 * 1024);
    assert!(s.contains("MB"), "expected MB, got: {}", s);
}

#[test]
fn format_size_gigabytes() {
    let s = format_size(2 * 1024 * 1024 * 1024);
    assert!(s.contains("GB"), "expected GB, got: {}", s);
}

#[test]
fn format_size_terabytes() {
    let s = format_size(2 * 1024 * 1024 * 1024 * 1024);
    assert!(s.contains("TB"), "expected TB, got: {}", s);
}

#[test]
fn format_size_zero() {
    let s = format_size(0);
    assert!(s.contains('B'));
}

#[test]
fn sizes_are_written_with_two_decimals() {
    for n in [
        0u64,
        1,
        1023,
        1024,
        1029,
        1536,
        1_000_000,
        1_048_575,
        1_048_576,
        123_456_789,
        1_073_741_823,
        1_073_741_824,
        5_497_558_138_880,
        9_007_199_254_740_993,
        u64::MAX / 3,
        u64::MAX,
    ] {
        let b = n as f64;
        let expected = if n >= 1 << 40 {
            format!("{:.2} TB", b / (1u64 << 40) as f64)
        } else if n >= 1 << 30 {
            format!("{:.2} GB", b / (1u64 << 30) as f64)
        } else if n >= 1 << 20 {
            format!("{:.2} MB", b / (1u64 << 20) as f64)
        } else if n >= 1 << 10 {
            format!("{:.2} KB", b / 1024.0)
        } else {
            format!("{} B", n)
        };
        assert_eq!(format_size(n), expected);
    }
}

#[test]
fn numbers_are_written_in_decimal() {
    assert_eq!(to_decimal(0), "0");
    assert_eq!(to_decimal(7), "7");
    assert_eq!(to_decimal(10), "10");
    assert_eq!(to_decimal(u64::MAX as u128), "18446744073709551615");
    assert_eq!(to_decimal(u128::MAX), u128::MAX.to_string());
}

#[test]
fn halves_are_rounded_to_even() {
    assert_eq!(div_half_even(5, 2), 2);
    assert_eq!(div_half_even(7, 2), 4);
    assert_eq!(div_half_even(7, 3), 2);
    assert_eq!(div_half_even(8, 3), 3);
}

#[test]
fn small_numbers_are_doubles_and_large_ones_are_rounded() {
    assert_eq!(round_to_double(9_007_199_254_740_992), 9_007_199_254_740_992);
    for n in [
        9_007_199_254_740_993u64,
        9_007_199_254_740_995,
        u64::MAX,
        u64::MAX - 1024,
        u64::MAX - 1025,
    ] {
        assert_eq!(round_to_double(n), n as f64 as u128);
    }
}

#[test]
fn amounts_agree_with_double_arithmetic() {
    for number in [
        "0",
        "1",
        "1.5",
        "0.1",
        "0.3",
        ".5",
        "5.",
        "+2",
        "-0",
        "-0.0",
        "3.999999999999999999",
        "1.0000000000000002",
        "123456789.987654321",
        "9007199254740993",
        "18446744073709551615",
        "99999999999999999999999",
        "0.00000000000000000000000000000000000001",
        "16777215.9999999999",
    ] {
        for (unit, factor) in [
            ("B", 1u64),
            ("KB", 1 << 10),
            ("MB", 1 << 20),
            ("GB", 1 << 30),
            ("TB", 1 << 40),
        ] {
            let value: f64 = number.parse().unwrap();
            let expected = (value * factor as f64) as u64;
            assert_eq!(
                amount_of(number, unit).unwrap(),
                expected,
                "{}{}",
                number,
                unit
            );
        }
    }
}

#[test]
fn each_fault_of_an_amount_is_told() {
    assert!(matches!(parse_amount(""), Err(AmountFault::MissingUnit)));
    assert!(matches!(parse_amount("12"), Err(AmountFault::MissingUnit)));
    assert!(matches!(parse_amount("1.2.3KB"), Err(AmountFault::BadNumber(_))));
    assert!(matches!(parse_amount("KB"), Err(AmountFault::BadNumber(_))));
    assert!(matches!(parse_amount("-1KB"), Err(AmountFault::Negative)));
    assert!(matches!(parse_amount("1XB"), Err(AmountFault::UnknownUnit(_))));
    assert!(matches!(parse_amount("1 KB"), Err(AmountFault::BadNumber(_))));
    assert!(matches!(parse_amount("1e3KB"), Err(AmountFault::UnknownUnit(_))));
    assert_eq!(parse_amount("1kB").unwrap(), 1024);
}

#[test]
fn what_is_wrong_with_a_size_is_told_in_words() {
    assert_eq!(
        parse_size_bytes("1024").unwrap_err(),
        "Missing unit in '1024'. Use B, KB, MB, GB, or TB."
    );
    assert_eq!(
        parse_threshold("1024").unwrap_err(),
        "Missing unit suffix in '1024'. Use B, KB, MB, GB, or TB."
    );
}

#[test]
fn prefixed_sizes_are_trimmed() {
    let f = parse_size("  +1KB  ").unwrap();
    assert_eq!(f.min, Some(1024));
    assert_eq!(f.max, None);
}
