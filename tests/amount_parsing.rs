use portfolio::amount::{format_amount, parse_value};

#[test]
fn main_portfolio_value_is_positive() {
    let value = "-1";
    match parse_value(value) {
        Ok(_) => panic!("Negative values should return an error"),
        Err(_) => assert!(true),
    };
}

#[test]
fn main_portfolio_value_matches_input() {
    let value = "1.23";
    let val: f64 = 1.23;
    let res = match parse_value(value) {
        Ok(num) => num as f64 / 100.0,
        Err(why) => panic!("{:?} 1.23 should parse", why),
    };
    assert_eq!(res, val, "Returns incorrect value");
}

#[test]
fn main_portfolio_value_is_rounded_to_cents() {
    let value = "1.234";
    let val: f64 = 1.23;
    let res = match parse_value(value) {
        Ok(num) => num as f64 / 100.0,
        Err(why) => panic!("{:?}", why),
    };
    assert_eq!(res, val, "Result should round to two decimal places");
}

#[test]
fn main_portfolio_value_fails_to_parse_letters() {
    let value = "abc";
    assert!(parse_value(value).is_err());
}

#[test]
fn utils_portfolio_value_is_positive() {
    let value = "-1";
    match parse_value(value) {
        Ok(_) => panic!("Negative values should return an error"),
        Err(_) => assert!(true),
    };
}

#[test]
fn utils_portfolio_value_matches_input() {
    let value = "1.23";
    let val: f64 = 1.23;
    let res = match parse_value(value) {
        Ok(num) => num as f64 / 100.0,
        Err(why) => panic!("{:?} 1.23 should parse", why),
    };
    assert_eq!(res, val, "Returns incorrect value");
}

#[test]
fn utils_portfolio_value_is_rounded_to_cents() {
    let value = "1.234";
    let val: f64 = 1.23;
    let res = match parse_value(value) {
        Ok(num) => num as f64 / 100.0,
        Err(why) => panic!("{:?}", why),
    };
    assert_eq!(res, val, "Result should round to two decimal places");
}

#[test]
fn utils_portfolio_value_fails_to_parse_letters() {
    let value = "abc";
    assert!(parse_value(value).is_err());
}

#[test]
fn parse_value_in_cents() {
    assert_eq!(parse_value("1.234"), Ok(123));
    assert_eq!(parse_value("1.23"), Ok(123));
    assert_eq!(parse_value("1.235"), Ok(124));
    assert_eq!(parse_value("  42\n"), Ok(4200));
    assert_eq!(parse_value("+7.5"), Ok(750));
    assert_eq!(parse_value(".5"), Ok(50));
    assert_eq!(parse_value("3."), Ok(300));
    assert_eq!(parse_value("0.999"), Ok(100));
    assert_eq!(parse_value("92233720368547758.07"), Ok(i64::MAX));
}

#[test]
fn parse_value_refusals() {
    let message = "Input must be a positive number";
    assert_eq!(parse_value("-1"), Err(message));
    assert_eq!(parse_value("abc"), Err(message));
    assert_eq!(parse_value(""), Err(message));
    assert_eq!(parse_value("   "), Err(message));
    assert_eq!(parse_value("0"), Err(message));
    assert_eq!(parse_value("0.000"), Err(message));
    assert_eq!(parse_value("."), Err(message));
    assert_eq!(parse_value("1.2.3"), Err(message));
    assert_eq!(parse_value("12a"), Err(message));
    assert_eq!(parse_value("1 2"), Err(message));
    assert_eq!(parse_value("92233720368547758.08"), Err(message));
    assert_eq!(parse_value("100000000000000000000"), Err(message));
}

#[test]
fn format_amount_groups_thousands() {
    assert_eq!(format_amount(123456789), "1,234,567.89");
    assert_eq!(format_amount(100000), "1,000.00");
    assert_eq!(format_amount(99999), "999.99");
    assert_eq!(format_amount(5), "0.05");
    assert_eq!(format_amount(0), "0.00");
    assert_eq!(format_amount(-50), "-0.50");
    assert_eq!(format_amount(-123456), "-1,234.56");
    assert_eq!(format_amount(i64::MIN), "-92,233,720,368,547,758.08");
}

#[test]
fn parse_value_with_exponent() {
    let message = "Input must be a positive number";
    assert_eq!(parse_value("1e2"), Ok(10000));
    assert_eq!(parse_value("1E2"), Ok(10000));
    assert_eq!(parse_value("1.5e1"), Ok(1500));
    assert_eq!(parse_value("1.e3"), Ok(100000));
    assert_eq!(parse_value(".25e+1"), Ok(250));
    assert_eq!(parse_value("123e-2"), Ok(123));
    assert_eq!(parse_value("1.2345e1"), Ok(1235));
    assert_eq!(parse_value("5e-3"), Ok(1));
    assert_eq!(parse_value("4e-3"), Ok(0));
    assert_eq!(parse_value("0.00001e3"), Ok(1));
    assert_eq!(parse_value("9.2233720368547758e16"), Ok(9223372036854775800));
    assert_eq!(parse_value("1e17"), Err(message));
    assert_eq!(parse_value("1e99999999999999999999999999999"), Err(message));
    assert_eq!(parse_value("1e"), Err(message));
    assert_eq!(parse_value("1e+"), Err(message));
    assert_eq!(parse_value("e5"), Err(message));
    assert_eq!(parse_value(".e5"), Err(message));
    assert_eq!(parse_value("1e5x"), Err(message));
    assert_eq!(parse_value("0e5"), Err(message));
    assert_eq!(parse_value("inf"), Err(message));
    assert_eq!(parse_value("NaN"), Err(message));
}

#[test]
fn parse_value_trims_unicode_whitespace() {
    assert_eq!(parse_value("5\u{0C}"), Ok(500));
    assert_eq!(parse_value("\u{A0}5"), Ok(500));
    assert_eq!(parse_value("\u{3000}\t7.1\u{2029}"), Ok(710));
    for code in 0u32..=0x10FFFF {
        if let Some(c) = char::from_u32(code) {
            let text = format!("{}5{}", c, c);
            if c.is_whitespace() {
                assert_eq!(parse_value(&text), Ok(500), "{:?}", c);
            } else if !c.is_ascii_digit() && c != '+' && c != '.' && c != 'e' && c != 'E' {
                assert!(parse_value(&text).is_err(), "{:?}", c);
            }
        }
    }
}
