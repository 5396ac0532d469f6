use wasm_rain::parse::{parse_height, parse_landscape, NumberError, ParseError};

#[test]
fn whole_numbers_are_thousands() {
    assert_eq!(parse_height("0"), Ok(0));
    assert_eq!(parse_height("2"), Ok(2000));
    assert_eq!(parse_height("007"), Ok(7000));
    assert_eq!(parse_height("+3"), Ok(3000));
    assert_eq!(parse_height("-4"), Ok(-4000));
}

#[test]
fn decimal_places_count_up_to_the_third() {
    assert_eq!(parse_height("1.5"), Ok(1500));
    assert_eq!(parse_height("1.05"), Ok(1050));
    assert_eq!(parse_height("1.005"), Ok(1005));
    assert_eq!(parse_height("0.123"), Ok(123));
    assert_eq!(parse_height("-0.25"), Ok(-250));
}

#[test]
fn heights_are_read_to_the_nearest_thousandth() {
    assert_eq!(parse_height("1.2344"), Ok(1234));
    assert_eq!(parse_height("1.2346"), Ok(1235));
    assert_eq!(parse_height("1.9999"), Ok(2000));
    assert_eq!(parse_height("0.0009"), Ok(1));
    assert_eq!(parse_height("0.0004"), Ok(0));
    assert_eq!(parse_height("0.00049999999999999999999999"), Ok(0));
    assert_eq!(parse_height("-1.9999"), Ok(-2000));
    assert_eq!(parse_height("-1.2344"), Ok(-1234));
}

#[test]
fn halves_go_away_from_zero() {
    assert_eq!(parse_height("1.2345"), Ok(1235));
    assert_eq!(parse_height("0.0005"), Ok(1));
    assert_eq!(parse_height("0.0015"), Ok(2));
    assert_eq!(parse_height("-0.0005"), Ok(-1));
    assert_eq!(parse_height("-1.2345"), Ok(-1235));
    assert_eq!(parse_height("0.00050000000000000000000000"), Ok(1));
}

#[test]
fn a_point_may_lead_or_trail() {
    assert_eq!(parse_height(".5"), Ok(500));
    assert_eq!(parse_height("5."), Ok(5000));
    assert_eq!(parse_height("-.5"), Ok(-500));
    assert_eq!(parse_height("+5."), Ok(5000));
}

#[test]
fn negative_zero_is_zero() {
    assert_eq!(parse_height("-0"), Ok(0));
    assert_eq!(parse_height("-0.0"), Ok(0));
}

#[test]
fn empty_token_is_reported_as_empty() {
    assert_eq!(parse_height(""), Err(NumberError::Empty));
}

#[test]
fn what_is_not_a_number_is_invalid() {
    for token in ["a", "+", "-", ".", "+.", "1.2.3", "1a", "a1", "1 ", "--1", "+-1", "1-", "1,0"] {
        assert_eq!(parse_height(token), Err(NumberError::Invalid), "{:?}", token);
    }
}

#[test]
fn exponents_scale_by_powers_of_ten() {
    assert_eq!(parse_height("1e3"), Ok(1_000_000));
    assert_eq!(parse_height("1E3"), Ok(1_000_000));
    assert_eq!(parse_height("1e+3"), Ok(1_000_000));
    assert_eq!(parse_height("1e0"), Ok(1000));
    assert_eq!(parse_height("1e-0"), Ok(1000));
    assert_eq!(parse_height("1.5e1"), Ok(15_000));
    assert_eq!(parse_height("2.5E-1"), Ok(250));
    assert_eq!(parse_height(".5e1"), Ok(5000));
    assert_eq!(parse_height("5.e1"), Ok(50_000));
    assert_eq!(parse_height("-1e3"), Ok(-1_000_000));
    assert_eq!(parse_height("+12.5e-1"), Ok(1250));
    assert_eq!(parse_height("1e003"), Ok(1_000_000));
}

#[test]
fn small_exponents_round_to_the_nearest_thousandth() {
    assert_eq!(parse_height("1e-3"), Ok(1));
    assert_eq!(parse_height("1e-4"), Ok(0));
    assert_eq!(parse_height("4e-4"), Ok(0));
    assert_eq!(parse_height("5e-4"), Ok(1));
    assert_eq!(parse_height("49e-5"), Ok(0));
    assert_eq!(parse_height("123456789e-9"), Ok(123));
    assert_eq!(parse_height("1234567e-6"), Ok(1235));
    assert_eq!(parse_height("-15e-4"), Ok(-2));
    assert_eq!(parse_height("0.000000000000000000001e21"), Ok(1000));
}

#[test]
fn exponents_of_any_size() {
    assert_eq!(parse_height("0e999999999999999999999999999999999999999999"), Ok(0));
    assert_eq!(parse_height("0.000e-999999999999999999999999999999999999999"), Ok(0));
    assert_eq!(parse_height("1e-99999999999999999999999999999999999999999"), Ok(0));
    assert_eq!(parse_height("9e-18446744073709551616"), Ok(0));
    assert_eq!(
        parse_height("1e99999999999999999999999999999999999999999"),
        Err(NumberError::OutOfRange)
    );
    assert_eq!(parse_height("1e18446744073709551616"), Err(NumberError::OutOfRange));
}

#[test]
fn exponents_up_to_the_largest_height() {
    assert_eq!(parse_height("1e15"), Ok(1_000_000_000_000_000_000));
    assert_eq!(parse_height("9e15"), Ok(9_000_000_000_000_000_000));
    assert_eq!(parse_height("-9e15"), Ok(-9_000_000_000_000_000_000));
    assert_eq!(parse_height("9223372036854775807e-3"), Ok(i64::MAX));
    assert_eq!(parse_height("-9223372036854775808e-3"), Ok(i64::MIN));
    assert_eq!(parse_height("0.000009e21"), Ok(9_000_000_000_000_000_000));
    assert_eq!(parse_height("1e16"), Err(NumberError::OutOfRange));
    assert_eq!(parse_height("-1e16"), Err(NumberError::OutOfRange));
    assert_eq!(parse_height("9223372036854775808e-3"), Err(NumberError::OutOfRange));
    assert_eq!(parse_height("0.1e40"), Err(NumberError::OutOfRange));
    assert_eq!(parse_height("1e18"), Err(NumberError::OutOfRange));
    assert_eq!(parse_height("1e19"), Err(NumberError::OutOfRange));
    assert_eq!(parse_height("1e20"), Err(NumberError::OutOfRange));
}

#[test]
fn exponents_written_wrongly_are_invalid() {
    for token in ["1e", "1e+", "1e-", "e5", "E", "1e5e3", "1e5.0", "1e 5", ".e1", "+e1", "1ee1", "1e++1", "1e1x", "1.e", "1x1"] {
        assert_eq!(parse_height(token), Err(NumberError::Invalid), "{:?}", token);
    }
}

#[test]
fn names_of_no_finite_number_have_a_cause_of_their_own() {
    for token in [
        "inf", "INF", "Inf", "iNf", "infinity", "Infinity", "INFINITY", "nan", "NaN", "NAN",
        "+inf", "-inf", "+infinity", "-Infinity", "+nan", "-NaN",
    ] {
        assert_eq!(parse_height(token), Err(NumberError::NotFinite), "{:?}", token);
    }
}

#[test]
fn what_only_looks_like_such_a_name_is_invalid() {
    for token in ["in", "infi", "infinit", "infinityy", "na", "nano", "infx", "++inf", "inf ", "1inf", "0x10"] {
        assert_eq!(parse_height(token), Err(NumberError::Invalid), "{:?}", token);
    }
}

#[test]
fn landscape_with_exponents() {
    assert_eq!(parse_landscape("1e3"), Ok(vec![1_000_000]));
    assert_eq!(parse_landscape("1e1,2.5e-1 3E0"), Ok(vec![10_000, 250, 3000]));
}

#[test]
fn landscape_with_a_name_of_no_finite_number() {
    let error = parse_landscape("1,inf,x").unwrap_err();
    assert_eq!(error, ParseError { token: "inf".to_string(), cause: NumberError::NotFinite });
    assert_eq!(error.message(), "Cannot parse 'inf' as number: not a finite number");
    let error = parse_landscape("-NaN").unwrap_err();
    assert_eq!(error.message(), "Cannot parse '-NaN' as number: not a finite number");
}

#[test]
fn digits_of_other_scripts_are_invalid() {
    assert_eq!(parse_height("\u{0663}"), Err(NumberError::Invalid));
    assert_eq!(parse_height("1\u{00bd}"), Err(NumberError::Invalid));
}

#[test]
fn the_largest_and_smallest_heights() {
    assert_eq!(parse_height("9223372036854775.807"), Ok(i64::MAX));
    assert_eq!(parse_height("-9223372036854775.808"), Ok(i64::MIN));
    assert_eq!(parse_height("9223372036854775.8074"), Ok(i64::MAX));
    assert_eq!(parse_height("-9223372036854775.8084"), Ok(i64::MIN));
}

#[test]
fn beyond_the_largest_is_out_of_range() {
    assert_eq!(parse_height("9223372036854775.808"), Err(NumberError::OutOfRange));
    assert_eq!(parse_height("-9223372036854775.809"), Err(NumberError::OutOfRange));
    assert_eq!(parse_height("9223372036854775.8075"), Err(NumberError::OutOfRange));
    assert_eq!(parse_height("-9223372036854775.8085"), Err(NumberError::OutOfRange));
    assert_eq!(parse_height("9223372036854776"), Err(NumberError::OutOfRange));
    assert_eq!(parse_height("18446744073709551616"), Err(NumberError::OutOfRange));
    assert_eq!(
        parse_height("100000000000000000000000000000000000000000000000000000000000"),
        Err(NumberError::OutOfRange)
    );
}

#[test]
fn long_runs_of_zeros_do_no_harm() {
    assert_eq!(
        parse_height("000000000000000000000000000000000000000000000000000000000001.5"),
        Ok(1500)
    );
    assert_eq!(
        parse_height("1.500000000000000000000000000000000000000000000000000000000000"),
        Ok(1500)
    );
}

#[test]
fn malformed_before_out_of_range() {
    assert_eq!(parse_height("99999999999999999999999x"), Err(NumberError::Invalid));
    assert_eq!(parse_height("99999999999999999999999.x"), Err(NumberError::Invalid));
}

#[test]
fn landscape_separated_by_commas() {
    assert_eq!(parse_landscape("2,1,3"), Ok(vec![2000, 1000, 3000]));
}

#[test]
fn landscape_separated_by_spaces() {
    assert_eq!(parse_landscape("3 1 6 4 8 9"), Ok(vec![3000, 1000, 6000, 4000, 8000, 9000]));
}

#[test]
fn landscape_separated_by_both() {
    assert_eq!(parse_landscape("1.5,2 0.25"), Ok(vec![1500, 2000, 250]));
}

#[test]
fn landscape_of_one_segment() {
    assert_eq!(parse_landscape("7"), Ok(vec![7000]));
}

#[test]
fn malformed_input() {
    let error = parse_landscape("a,b").unwrap_err();
    assert_eq!(error, ParseError { token: "a".to_string(), cause: NumberError::Invalid });
    assert_eq!(error.message(), "Cannot parse 'a' as number: invalid float literal");
}

#[test]
fn the_first_bad_token_is_reported() {
    let error = parse_landscape("1,2,x,y").unwrap_err();
    assert_eq!(error.token, "x");
    assert_eq!(error.message(), "Cannot parse 'x' as number: invalid float literal");
}

#[test]
fn empty_input_is_one_empty_token() {
    let error = parse_landscape("").unwrap_err();
    assert_eq!(error, ParseError { token: String::new(), cause: NumberError::Empty });
    assert_eq!(error.message(), "Cannot parse '' as number: cannot parse float from empty string");
}

#[test]
fn two_delimiters_in_a_row_hold_an_empty_token() {
    let error = parse_landscape("1, 2").unwrap_err();
    assert_eq!(error, ParseError { token: String::new(), cause: NumberError::Empty });
}

#[test]
fn delimiters_at_the_ends_hold_empty_tokens() {
    assert_eq!(parse_landscape(",1").unwrap_err().cause, NumberError::Empty);
    assert_eq!(parse_landscape("1,").unwrap_err().cause, NumberError::Empty);
    assert_eq!(parse_landscape(" ").unwrap_err().cause, NumberError::Empty);
}

#[test]
fn other_white_space_is_no_delimiter() {
    let error = parse_landscape("1\t2").unwrap_err();
    assert_eq!(error.token, "1\t2");
    assert_eq!(error.cause, NumberError::Invalid);
}

#[test]
fn tokens_outside_ascii_are_reported_whole() {
    let error = parse_landscape("1,z\u{00e9}ro,\u{4e09}").unwrap_err();
    assert_eq!(error.token, "z\u{00e9}ro");
    assert_eq!(error.message(), "Cannot parse 'z\u{00e9}ro' as number: invalid float literal");
    let error = parse_landscape("\u{4e09},1").unwrap_err();
    assert_eq!(error.token, "\u{4e09}");
}

#[test]
fn out_of_range_token_is_reported() {
    let error = parse_landscape("1,99999999999999999999").unwrap_err();
    assert_eq!(error.cause, NumberError::OutOfRange);
    assert_eq!(
        error.message(),
        "Cannot parse '99999999999999999999' as number: number out of range"
    );
}

#[test]
fn causes_in_words() {
    assert_eq!(NumberError::Empty.cause(), "cannot parse float from empty string");
    assert_eq!(NumberError::Invalid.cause(), "invalid float literal");
    assert_eq!(NumberError::NotFinite.cause(), "not a finite number");
    assert_eq!(NumberError::OutOfRange.cause(), "number out of range");
}
