use subwash::number::decimal_text;
use subwash::number::padded_text;
use subwash::number::parse_i64;
use subwash::number::parse_u64;

#[test]
fn numbers_are_written_in_decimal() {
    for n in [0, 1, 9, 10, 99, 100, 1_000_000_007, u64::MAX] {
        assert_eq!(decimal_text(n), n.to_string());
        assert_eq!(parse_u64(&decimal_text(n)), Some(n));
    }
}

#[test]
fn short_numbers_are_padded() {
    assert_eq!(padded_text(7, 2), "07");
    assert_eq!(padded_text(7, 4), "0007");
    assert_eq!(padded_text(12345, 4), "12345");
    assert_eq!(padded_text(0, 0), "0");
}

#[test]
fn reading_agrees_with_std() {
    let texts = vec![
        "", "+", "-", "0", "-0", "+0", "00", "007", "+7", "-7", "--7", "+-7", "7 ", " 7", "7_0",
        "1e3", "0x10", "٣", "18446744073709551615", "18446744073709551616",
        "99999999999999999999999", "000000000000000000000000000001", "9223372036854775807",
        "9223372036854775808", "-9223372036854775808", "-9223372036854775809", "+9223372036854775807",
        "1844674407370955161500000000000000000000000",
    ];
    for text in texts {
        assert_eq!(parse_u64(text), text.parse::<u64>().ok());
        assert_eq!(parse_i64(text), text.parse::<i64>().ok());
    }
}
