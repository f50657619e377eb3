use cutr::selector::{parse_pos, parse_positive_int, ParseError};

#[test]
fn single_index_is_zero_based() {
    assert_eq!(parse_pos("7").unwrap(), vec![6]);
    assert_eq!(parse_pos("1").unwrap(), vec![0]);
}

#[test]
fn range_expands_ascending_inclusive() {
    assert_eq!(parse_pos("2-4").unwrap(), vec![1, 2, 3]);
    assert_eq!(parse_pos("1-2").unwrap(), vec![0, 1]);
}

#[test]
fn mixed_expression_concatenates_in_order() {
    assert_eq!(parse_pos("1,3-5,8").unwrap(), vec![0, 2, 3, 4, 7]);
}

#[test]
fn duplicates_and_order_are_preserved() {
    assert_eq!(parse_pos("3,1,3").unwrap(), vec![2, 0, 2]);
    assert_eq!(parse_pos("2,1-3").unwrap(), vec![1, 0, 1, 2]);
}

#[test]
fn zero_index_is_illegal() {
    match parse_pos("0") {
        Err(ParseError::IllegalValue(tok)) => assert_eq!(tok, "0"),
        other => panic!("expected IllegalValue, got {:?}", other),
    }
}

#[test]
fn inverted_range_is_rejected_with_bounds() {
    match parse_pos("5-3") {
        Err(ParseError::InvertedRange(lo, hi)) => {
            assert_eq!(lo, 5);
            assert_eq!(hi, 3);
        },
        other => panic!("expected InvertedRange, got {:?}", other),
    }
    assert!(parse_pos("3-3").is_err());
}

#[test]
fn bare_dash_is_an_illegal_range() {
    match parse_pos("-") {
        Err(ParseError::IllegalRange(tok)) => assert_eq!(tok, "-"),
        other => panic!("expected IllegalRange, got {:?}", other),
    }
}

#[test]
fn empty_expression_is_illegal() {
    match parse_pos("") {
        Err(ParseError::IllegalValue(tok)) => assert_eq!(tok, ""),
        other => panic!("expected IllegalValue, got {:?}", other),
    }
}

#[test]
fn open_ended_ranges_are_illegal() {
    match parse_pos("1-") {
        Err(ParseError::IllegalRange(tok)) => assert_eq!(tok, "1-"),
        other => panic!("expected IllegalRange, got {:?}", other),
    }
    match parse_pos("-5") {
        Err(ParseError::IllegalRange(tok)) => assert_eq!(tok, "-5"),
        other => panic!("expected IllegalRange, got {:?}", other),
    }
    match parse_pos("0-3") {
        Err(ParseError::IllegalRange(tok)) => assert_eq!(tok, "0-3"),
        other => panic!("expected IllegalRange, got {:?}", other),
    }
}

#[test]
fn garbage_tokens_are_illegal_values() {
    match parse_pos("a") {
        Err(ParseError::IllegalValue(tok)) => assert_eq!(tok, "a"),
        other => panic!("expected IllegalValue, got {:?}", other),
    }
    match parse_pos("1,a-b") {
        Err(ParseError::IllegalValue(tok)) => assert_eq!(tok, "a-b"),
        other => panic!("expected IllegalValue, got {:?}", other),
    }
    assert!(parse_pos("1-2-3").is_err());
    assert!(parse_pos(" ").is_err());
    assert!(parse_pos("+1").is_err());
}

#[test]
fn first_offending_token_wins() {
    match parse_pos("1,0,5-3") {
        Err(ParseError::IllegalValue(tok)) => assert_eq!(tok, "0"),
        other => panic!("expected IllegalValue for the first bad token, got {:?}", other),
    }
}

#[test]
fn oversized_numbers_do_not_fit() {
    assert!(parse_pos("99999999999999999999999999").is_err());
    match parse_pos("1-99999999999999999999999999") {
        Err(ParseError::IllegalRange(tok)) => assert_eq!(tok, "1-99999999999999999999999999"),
        other => panic!("expected IllegalRange, got {:?}", other),
    }
}

#[test]
fn positive_int_parses_digits() {
    assert_eq!(parse_positive_int("3").unwrap(), 3);
    assert_eq!(parse_positive_int("10").unwrap(), 10);
    assert_eq!(parse_positive_int("foo").unwrap_err(), "foo");
    assert_eq!(parse_positive_int("0").unwrap_err(), "0");
    assert_eq!(parse_positive_int("").unwrap_err(), "");
    assert_eq!(parse_positive_int("-1").unwrap_err(), "-1");
}

#[test]
fn positive_int_takes_one_leading_plus() {
    assert_eq!(parse_positive_int("+3").unwrap(), 3);
    assert_eq!(parse_positive_int("+10").unwrap(), 10);
    assert_eq!(parse_positive_int("+").unwrap_err(), "+");
    assert_eq!(parse_positive_int("++3").unwrap_err(), "++3");
    assert_eq!(parse_positive_int("+0").unwrap_err(), "+0");
    assert_eq!(parse_positive_int("3+").unwrap_err(), "3+");
}
