use interpolation::token::{parse_none_encoding, InvalidNumber};

fn fixed(x: f64) -> i64 {
    (x * 1_000_000.0).round() as i64
}

fn read(text: &str) -> Result<Option<i64>, InvalidNumber> {
    parse_none_encoding(&String::from(text), &String::from("nan"))
}

#[test]
fn test_parse_none_encoding() {
    let none_encoding = String::from("foo");
    let mut from = String::from("foo");
    assert_eq!(parse_none_encoding(&from, &none_encoding), Ok(None));

    from = String::from("0.1");
    assert_eq!(parse_none_encoding(&from, &none_encoding), Ok(Some(fixed(0.1_f64))));

    from = String::from("2");
    assert_eq!(parse_none_encoding(&from, &none_encoding), Ok(Some(fixed(2.0))));
}

#[test]
#[should_panic]
fn test_parse_none_encoding_panics() {
    let none_encoding = String::from("foo");
    let from = String::from("something else");
    parse_none_encoding(&from, &none_encoding).unwrap();
}

#[test]
fn reads_signs_and_fractions() {
    assert_eq!(read("-1.5"), Ok(Some(-1_500_000)));
    assert_eq!(read("+3"), Ok(Some(3_000_000)));
    assert_eq!(read(".5"), Ok(Some(500_000)));
    assert_eq!(read("5."), Ok(Some(5_000_000)));
    assert_eq!(read("007.250"), Ok(Some(7_250_000)));
    assert_eq!(read("nan"), Ok(None));
}

#[test]
fn rounds_on_the_seventh_fraction_digit() {
    assert_eq!(read("1.2345675"), Ok(Some(1_234_568)));
    assert_eq!(read("1.23456749"), Ok(Some(1_234_567)));
    assert_eq!(read("-0.0000005"), Ok(Some(-1)));
}

#[test]
fn refuses_what_is_no_number() {
    assert_eq!(read(""), Err(InvalidNumber));
    assert_eq!(read("."), Err(InvalidNumber));
    assert_eq!(read("-"), Err(InvalidNumber));
    assert_eq!(read("1e3"), Err(InvalidNumber));
    assert_eq!(read("1.2.3"), Err(InvalidNumber));
    assert_eq!(read("BAD"), Err(InvalidNumber));
    assert_eq!(read("NaN"), Err(InvalidNumber));
}

#[test]
fn value_range_is_that_of_i64() {
    assert_eq!(read("9223372036854.775807"), Ok(Some(i64::MAX)));
    assert_eq!(read("-9223372036854.775808"), Ok(Some(i64::MIN)));
    assert_eq!(read("9223372036854.775808"), Err(InvalidNumber));
    assert_eq!(read("99999999999999999999"), Err(InvalidNumber));
}
