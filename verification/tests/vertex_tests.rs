use ledger::vertex::Vertex;

#[test]
fn try_from_string_success() {
    let input = "0 1 2";

    let result = Vertex::from_str(input, 1).expect("shouldn't fail");
    assert_eq!(Vertex { left: Some(0), right: None, timestamp: 2 }, result);
}

#[test]
fn try_from_sting_negative_integer() {
    let input = "0 1 -2";

    let err = Vertex::from_str(input, 1).expect_err("parsing error");
    assert!(err.message().contains("unable to parse the timestamp"), "{}", err.message())
}

#[test]
fn try_from_string_not_enough_items() {
    let input = "0 1";
    let err = Vertex::from_str(input, 2).expect_err("parsing error");
    assert!(err.message().contains("the row has too few items"), "{}", err.message())
}

#[test]
fn try_from_string_too_many_items() {
    let input = "0 1 1 1 1 1 1";
    let err = Vertex::from_str(input, 2).expect_err("parsing error");
    assert!(err.message().contains("the row has too many items"), "{}", err.message())
}

#[test]
fn try_from_string_str_as_id_right() {
    let input = "0 abc 0";
    let err = Vertex::from_str(input, 2).expect_err("parsing error");
    assert!(err.message().contains("unable to parse the right ID"), "{}", err.message())
}

#[test]
fn try_from_string_str_as_id_left() {
    let input = "abc 0 0";
    let err = Vertex::from_str(input, 2).expect_err("parsing error");
    assert!(err.message().contains("unable to parse the left ID"), "{}", err.message())
}

#[test]
fn try_from_string_empty_line() {
    let input = "";
    let err = Vertex::from_str(input, 2).expect_err("parsing error");
    assert!(err.message().contains("the row has too few items"), "{}", err.message())
}

#[test]
fn self_reference_left_becomes_no_edge() {
    let result = Vertex::from_str("1 2 3", 1).expect("shouldn't fail");
    assert_eq!(Vertex { left: None, right: Some(2), timestamp: 3 }, result);
}

#[test]
fn self_reference_right_becomes_no_edge() {
    let result = Vertex::from_str("2 1 3", 1).expect("shouldn't fail");
    assert_eq!(Vertex { left: Some(2), right: None, timestamp: 3 }, result);
}

#[test]
fn timestamp_over_u32_range_is_rejected() {
    let err = Vertex::from_str("0 1 4294967296", 1).expect_err("parsing error");
    assert!(err.message().contains("unable to parse the timestamp"), "{}", err.message())
}

#[test]
fn mixed_whitespace_separates_tokens() {
    let result = Vertex::from_str("\t7 \t  0  5 ", 1).expect("shouldn't fail");
    assert_eq!(Vertex { left: Some(7), right: Some(0), timestamp: 5 }, result);
}

#[test]
fn leading_zeros_are_plain_digits() {
    let result = Vertex::from_str("007 0 009", 1).expect("shouldn't fail");
    assert_eq!(Vertex { left: Some(7), right: Some(0), timestamp: 9 }, result);
}
