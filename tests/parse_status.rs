use osmptparser::parse_status::{ParseError, ParseStatus};

#[test]
fn status_constructors_carry_code_and_text() {
    let s = ParseStatus::new(102, "Joined");
    assert_eq!(s.code, 102);
    assert_eq!(s.detail, "Joined");
    let ok = ParseStatus::ok();
    assert_eq!(ok.code, 0);
    assert_eq!(ok.detail, "");
    assert_eq!(ParseStatus::sorted().detail, "Sorted");
    assert_eq!(ParseStatus::joined_sorted().code, 103);
    assert_eq!(ParseStatus::joined_sorted().detail, "Joined Sorted");
    assert_eq!(ParseStatus::broken().code, 501);
    assert_eq!(ParseStatus::broken().detail, "Broken");
}

#[test]
fn parse_error_is_a_value() {
    let e = ParseError;
    assert_eq!(format!("{:?}", e), "ParseError");
}
