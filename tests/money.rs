use budgetbeast::money::{cents_to_full, parse_amount, AmountError};

#[test]
fn entered_amount_round_trips() {
    let cents = parse_amount("12.50").unwrap();
    assert_eq!(cents, 1250);
    assert_eq!(cents_to_full(cents), "12.50");
}

#[test]
fn comma_and_one_fraction_digit() {
    assert_eq!(parse_amount("12,5"), Ok(1250));
    assert_eq!(parse_amount("12.5"), Ok(1250));
    assert_eq!(cents_to_full(parse_amount("12.5").unwrap()), "12.50");
}

#[test]
fn whole_and_negative_amounts() {
    assert_eq!(parse_amount("300"), Ok(30000));
    assert_eq!(parse_amount("-3"), Ok(-300));
    assert_eq!(parse_amount("0.07"), Ok(7));
    assert_eq!(parse_amount("-0.05"), Ok(-5));
}

#[test]
fn malformed_amounts() {
    assert_eq!(parse_amount(""), Err(AmountError::Malformed));
    assert_eq!(parse_amount("abc"), Err(AmountError::Malformed));
    assert_eq!(parse_amount("1.234"), Err(AmountError::Malformed));
    assert_eq!(parse_amount("12."), Err(AmountError::Malformed));
    assert_eq!(parse_amount(".5"), Err(AmountError::Malformed));
    assert_eq!(parse_amount("-"), Err(AmountError::Malformed));
    assert_eq!(parse_amount("1.2.3"), Err(AmountError::Malformed));
}

#[test]
fn amounts_out_of_range() {
    assert_eq!(parse_amount("92233720368547758.07"), Ok(i64::MAX));
    assert_eq!(parse_amount("92233720368547758.08"), Err(AmountError::OutOfRange));
    assert_eq!(parse_amount("-92233720368547758.08"), Ok(i64::MIN));
    assert_eq!(parse_amount("-92233720368547758.09"), Err(AmountError::OutOfRange));
    assert_eq!(parse_amount("100000000000000000000000"), Err(AmountError::OutOfRange));
}

#[test]
fn formatting_minor_units() {
    assert_eq!(cents_to_full(0), "0.00");
    assert_eq!(cents_to_full(-5), "-0.05");
    assert_eq!(cents_to_full(100), "1.00");
    assert_eq!(cents_to_full(123456), "1234.56");
    assert_eq!(cents_to_full(i64::MAX), "92233720368547758.07");
    assert_eq!(cents_to_full(i64::MIN), "-92233720368547758.08");
}

#[test]
fn formatted_amounts_read_back() {
    for c in [0i64, 1, -1, 99, 1250, -98765, i64::MAX, i64::MIN] {
        assert_eq!(parse_amount(&cents_to_full(c)), Ok(c));
    }
}

#[test]
fn unrounded_and_signed_forms_are_refused() {
    assert_eq!(parse_amount("12.345"), Err(AmountError::Malformed));
    assert_eq!(parse_amount("+5"), Err(AmountError::Malformed));
    assert_eq!(parse_amount("5."), Err(AmountError::Malformed));
}
