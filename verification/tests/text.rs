use khel::ratio::Ratio;
use khel::text::{
    chars_of, extend_number, is_all_digits, parse_decimal, parse_natural, power_of_ten,
    split_chars, subrange, NumberError,
};

fn ratio(num: i64, den: i64) -> Ratio {
    Ratio::new(num, den).unwrap()
}

fn decimal(s: &str) -> Result<Ratio, NumberError> {
    parse_decimal(&chars_of(s))
}

fn natural(s: &str, limit: u64) -> Result<u64, NumberError> {
    parse_natural(&chars_of(s), limit)
}

fn pieces(s: &str, sep: char) -> Vec<String> {
    split_chars(&chars_of(s), sep).iter().map(|p| p.iter().collect()).collect()
}

#[test]
fn chars_and_subranges() {
    assert_eq!(chars_of("a=ß;"), vec!['a', '=', 'ß', ';']);
    assert_eq!(chars_of(""), Vec::<char>::new());
    let chars = chars_of("hello");
    assert_eq!(subrange(&chars, 1, 4), vec!['e', 'l', 'l']);
    assert_eq!(subrange(&chars, 2, 2), Vec::<char>::new());
    assert_eq!(subrange(&chars, 0, 5), chars);
}

#[test]
fn split_keeps_empty_pieces() {
    assert_eq!(pieces("", ','), vec![""]);
    assert_eq!(pieces("a", ','), vec!["a"]);
    assert_eq!(pieces("a,b", ','), vec!["a", "b"]);
    assert_eq!(pieces("a,,b", ','), vec!["a", "", "b"]);
    assert_eq!(pieces(",a,", ','), vec!["", "a", ""]);
    assert_eq!(pieces(",", ','), vec!["", ""]);
    assert_eq!(pieces("a-s+d-f:4=8@0", '@'), vec!["a-s+d-f:4=8", "0"]);
}

#[test]
fn split_then_join_is_the_text() {
    for text in ["", "a", "a,b,,c", ",,", "no separator"] {
        let joined = pieces(text, ',').join(",");
        assert_eq!(joined, text);
        assert!(pieces(text, ',').iter().all(|p| !p.contains(',')));
    }
}

#[test]
fn decimal_values() {
    assert_eq!(decimal("144"), Ok(ratio(144, 1)));
    assert_eq!(decimal("0.0"), Ok(ratio(0, 1)));
    assert_eq!(decimal("32.0"), Ok(ratio(32, 1)));
    assert_eq!(decimal("1.5"), Ok(ratio(3, 2)));
    assert_eq!(decimal("-1.5"), Ok(ratio(-3, 2)));
    assert_eq!(decimal("+1.5"), Ok(ratio(3, 2)));
    assert_eq!(decimal("0.125"), Ok(ratio(1, 8)));
    assert_eq!(decimal(".5"), Ok(ratio(1, 2)));
    assert_eq!(decimal("5."), Ok(ratio(5, 1)));
    assert_eq!(decimal("-0"), Ok(ratio(0, 1)));
    assert_eq!(decimal("007"), Ok(ratio(7, 1)));
    assert_eq!(decimal("0.33333"), Ok(ratio(33333, 100000)));
    assert_eq!(decimal("9223372036854775807"), Ok(ratio(i64::MAX, 1)));
    assert_eq!(decimal("-9223372036854775807"), Ok(ratio(-i64::MAX, 1)));
    assert_eq!(
        decimal("0.000000000000000001"),
        Ok(ratio(1, 1_000_000_000_000_000_000))
    );
}

#[test]
fn decimal_malformed() {
    for text in [
        "", ".", "+", "-", "+.", "1.2.3", "abc", "1 ", " 1", "--1", "1-", "inf", "NaN", "1,5", "٣",
        "e", "e5", ".e5", "1e", "1e+", "1e-", "1e1.5", "1e5e5", "1ee5", "1e 5", "1e++5", "1x5",
    ] {
        assert_eq!(decimal(text), Err(NumberError::Malformed), "{:?}", text);
    }
}

#[test]
fn decimal_values_with_exponents() {
    assert_eq!(decimal("1e3"), Ok(ratio(1000, 1)));
    assert_eq!(decimal("1.2e2"), Ok(ratio(120, 1)));
    assert_eq!(decimal("1.2E2"), Ok(ratio(120, 1)));
    assert_eq!(decimal("1.2e+2"), Ok(ratio(120, 1)));
    assert_eq!(decimal("1.25e1"), Ok(ratio(25, 2)));
    assert_eq!(decimal("-1.25e1"), Ok(ratio(-25, 2)));
    assert_eq!(decimal("1e-2"), Ok(ratio(1, 100)));
    assert_eq!(decimal("125e-3"), Ok(ratio(1, 8)));
    assert_eq!(decimal("1.5e0"), Ok(ratio(3, 2)));
    assert_eq!(decimal("1.5e-0"), Ok(ratio(3, 2)));
    assert_eq!(decimal("1.5e0002"), Ok(ratio(150, 1)));
    assert_eq!(decimal(".5e1"), Ok(ratio(5, 1)));
    assert_eq!(decimal("5.e1"), Ok(ratio(50, 1)));
    assert_eq!(decimal("0e5"), Ok(ratio(0, 1)));
    assert_eq!(decimal("1e18"), Ok(ratio(1_000_000_000_000_000_000, 1)));
    assert_eq!(decimal("1e-18"), Ok(ratio(1, 1_000_000_000_000_000_000)));
    assert_eq!(decimal("9.223372036854775807e18"), Ok(ratio(i64::MAX, 1)));
    assert_eq!(decimal("0.00000000000000000001e20"), Ok(ratio(1, 1)));
    assert_eq!(decimal("100000000000000000000e-20"), Err(NumberError::OutOfRange));
}

#[test]
fn decimal_exponents_out_of_range() {
    assert_eq!(decimal("1e19"), Err(NumberError::OutOfRange));
    assert_eq!(decimal("10e18"), Err(NumberError::OutOfRange));
    assert_eq!(decimal("9.223372036854775808e18"), Err(NumberError::OutOfRange));
    assert_eq!(decimal("1e-19"), Err(NumberError::OutOfRange));
    assert_eq!(decimal("0.1e-18"), Err(NumberError::OutOfRange));
    assert_eq!(decimal("0e19"), Err(NumberError::OutOfRange));
    assert_eq!(decimal("1e99999999999999999999999999999999999999"), Err(NumberError::OutOfRange));
    assert_eq!(decimal("1e-99999999999999999999999999999999999999"), Err(NumberError::OutOfRange));
    // what is malformed is malformed, whatever its size
    assert_eq!(decimal("1e99999999999999999999999999999999999999x"), Err(NumberError::Malformed));
}

#[test]
fn decimal_out_of_range() {
    assert_eq!(decimal("9223372036854775808"), Err(NumberError::OutOfRange));
    assert_eq!(decimal("-9223372036854775808"), Err(NumberError::OutOfRange));
    assert_eq!(decimal("0.0000000000000000001"), Err(NumberError::OutOfRange));
    assert_eq!(decimal("1.0000000000000000000"), Err(NumberError::OutOfRange));
    assert_eq!(decimal("922337203685477580.8"), Err(NumberError::OutOfRange));
    assert_eq!(
        decimal("123456789012345678901234567890"),
        Err(NumberError::OutOfRange)
    );
    // what is malformed is malformed, however long
    assert_eq!(
        decimal("123456789012345678901234567890x"),
        Err(NumberError::Malformed)
    );
}

#[test]
fn natural_values() {
    assert_eq!(natural("0", 255), Ok(0));
    assert_eq!(natural("255", 255), Ok(255));
    assert_eq!(natural("+7", 255), Ok(7));
    assert_eq!(natural("007", 255), Ok(7));
    assert_eq!(natural("4294967295", 0xffff_ffff), Ok(4294967295));
    assert_eq!(natural("18446744073709551615", u64::MAX), Ok(u64::MAX));
}

#[test]
fn natural_errors() {
    assert_eq!(natural("256", 255), Err(NumberError::OutOfRange));
    assert_eq!(natural("4294967296", 0xffff_ffff), Err(NumberError::OutOfRange));
    assert_eq!(natural("18446744073709551616", u64::MAX), Err(NumberError::OutOfRange));
    for text in ["", "+", "-1", "1.0", "a", "1a", " 1", "++1"] {
        assert_eq!(natural(text, 255), Err(NumberError::Malformed), "{:?}", text);
    }
}

#[test]
fn digits() {
    assert!(is_all_digits(&chars_of("0123456789")));
    assert!(is_all_digits(&chars_of("")));
    assert!(!is_all_digits(&chars_of("12a")));
    assert!(!is_all_digits(&chars_of("/")));
    assert!(!is_all_digits(&chars_of(":")));
    assert_eq!(extend_number(12, &chars_of("34"), 2000), Some(1234));
    assert_eq!(extend_number(12, &chars_of("34"), 1234), Some(1234));
    assert_eq!(extend_number(12, &chars_of("34"), 1233), None);
    assert_eq!(extend_number(12, &chars_of(""), 12), Some(12));
}

#[test]
fn powers_of_ten() {
    assert_eq!(power_of_ten(0), 1);
    assert_eq!(power_of_ten(1), 10);
    assert_eq!(power_of_ten(5), 100000);
    assert_eq!(power_of_ten(18), 1_000_000_000_000_000_000);
}
