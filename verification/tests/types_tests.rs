use my_csv_parser::types::{Centicents, ParseError};

#[test]
fn test_centicents_conversion() {
    assert_eq!(
        Centicents::try_from("1.2345".to_string()).unwrap(),
        Centicents(12345)
    );
    assert_eq!(
        Centicents::try_from("1.234".to_string()).unwrap(),
        Centicents(12340)
    );
    assert_eq!(
        Centicents::try_from("1.23".to_string()).unwrap(),
        Centicents(12300)
    );
    assert_eq!(
        Centicents::try_from("1.2".to_string()).unwrap(),
        Centicents(12000)
    );
    assert_eq!(
        Centicents::try_from("1".to_string()).unwrap(),
        Centicents(10000)
    );
    assert_eq!(
        Centicents::try_from("1.".to_string()).unwrap(),
        Centicents(10000)
    );
    assert_eq!(
        Centicents::try_from("1.0".to_string()).unwrap(),
        Centicents(10000)
    );
    assert_eq!(
        Centicents::try_from("1.00".to_string()).unwrap(),
        Centicents(10000)
    );
    assert_eq!(
        Centicents::try_from("1.000".to_string()).unwrap(),
        Centicents(10000)
    );
    assert_eq!(
        Centicents::try_from("1.0000".to_string()).unwrap(),
        Centicents(10000)
    );
    assert_eq!(
        Centicents::try_from("1.00000".to_string()).unwrap(),
        Centicents(10000)
    );
    assert_eq!(
        Centicents::try_from("1.000000".to_string()).unwrap(),
        Centicents(10000)
    );
    assert_eq!(
        Centicents::try_from("1.0000000".to_string()).unwrap(),
        Centicents(10000)
    );
    assert_eq!(
        Centicents::try_from("2.0001".to_string()).unwrap(),
        Centicents(20001)
    );
    assert_eq!(
        Centicents::try_from("0.0001".to_string()).unwrap(),
        Centicents(1)
    );
    assert_eq!(
        Centicents::try_from("0.08".to_string()).unwrap(),
        Centicents(800)
    );
    assert_eq!(
        Centicents::try_from("0015".to_string()).unwrap(),
        Centicents(150000)
    );
    assert_eq!(
        Centicents::try_from("521321.0001".to_string()).unwrap(),
        Centicents(5213210001)
    );
}

#[test]
fn err_centicents_conversion() {
    assert!(Centicents::try_from(".234".to_string()).is_err());
    assert!(Centicents::try_from("5.234.555".to_string()).is_err());
    assert!(Centicents::try_from("awbawd".to_string()).is_err());
}

#[test]
fn parse_error_variants() {
    assert_eq!(
        Centicents::try_from("".to_string()),
        Err(ParseError::EmptyInput)
    );
    assert_eq!(
        Centicents::try_from("   ".to_string()),
        Err(ParseError::EmptyInput)
    );
    assert_eq!(
        Centicents::try_from("5.234.555".to_string()),
        Err(ParseError::MultipleDecimalPoints)
    );
    assert_eq!(
        Centicents::try_from(".234".to_string()),
        Err(ParseError::MissingWholePart)
    );
    assert_eq!(
        Centicents::try_from("awbawd".to_string()),
        Err(ParseError::InvalidDigit)
    );
    assert_eq!(
        Centicents::try_from("1.2x45".to_string()),
        Err(ParseError::InvalidDigit)
    );
    assert_eq!(
        Centicents::try_from("-5".to_string()),
        Err(ParseError::InvalidDigit)
    );
    assert_eq!(
        Centicents::try_from("99999999999999999999".to_string()),
        Err(ParseError::InvalidDigit)
    );
    assert_eq!(
        Centicents::try_from("922337203685477.5808".to_string()),
        Err(ParseError::InvalidDigit)
    );
}

#[test]
fn parse_truncates_beyond_fourth_digit() {
    assert_eq!(
        Centicents::try_from("1.00009".to_string()).unwrap(),
        Centicents::try_from("1.0000".to_string()).unwrap()
    );
    // Characters after the fourth fractional digit are discarded unread.
    assert_eq!(
        Centicents::try_from("1.2345999".to_string()).unwrap(),
        Centicents(12345)
    );
}

#[test]
fn parse_extremes() {
    assert_eq!(
        Centicents::try_from("922337203685477.5807".to_string()).unwrap(),
        Centicents(i64::MAX)
    );
    assert_eq!(
        Centicents::try_from("0".to_string()).unwrap(),
        Centicents(0)
    );
    assert_eq!(
        Centicents::try_from("0.".to_string()).unwrap(),
        Centicents(0)
    );
}

#[test]
fn format_renders_exact_decimals() {
    assert_eq!(Centicents(105001).format(), "10.5001");
    assert_eq!(Centicents(0).format(), "0");
    assert_eq!(Centicents(10000).format(), "1");
    assert_eq!(Centicents(800).format(), "0.08");
    assert_eq!(Centicents(1).format(), "0.0001");
    assert_eq!(Centicents(12000).format(), "1.2");
    assert_eq!(Centicents(15000).format(), "1.5");
    assert_eq!(Centicents(5213210001).format(), "521321.0001");
    assert_eq!(Centicents(-105001).format(), "-10.5001");
    assert_eq!(Centicents(-1).format(), "-0.0001");
    assert_eq!(Centicents(i64::MAX).format(), "922337203685477.5807");
    assert_eq!(Centicents(i64::MIN).format(), "-922337203685477.5808");
}

#[test]
fn format_parse_round_trip() {
    for text in ["10.5001", "0", "1.5", "300.1234", "0.08", "1.2", "750"] {
        let parsed = Centicents::try_from(text.to_string()).unwrap();
        let rendered = parsed.format();
        assert_eq!(Centicents::try_from(rendered).unwrap(), parsed);
    }
}

#[test]
fn add_then_sub_is_identity() {
    let amount = Centicents::try_from("10.5001".to_string()).unwrap();
    let mut balance = Centicents(123456);
    balance.add_assign(amount);
    assert_eq!(balance, Centicents(123456 + 105001));
    let back = balance.sub(amount);
    assert_eq!(back, Centicents(123456));
}
