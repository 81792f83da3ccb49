use validate_geodsolve::line::{split_fields, LineError, TestCase};

fn bytes(fields: &[&str]) -> Vec<Vec<u8>> {
    fields.iter().map(|f| f.as_bytes().to_vec()).collect()
}

#[test]
fn split_on_single_spaces() {
    assert_eq!(split_fields(b"12.5 -3 7"), bytes(&["12.5", "-3", "7"]));
}

#[test]
fn split_keeps_empty_fields() {
    assert_eq!(split_fields(b""), bytes(&[""]));
    assert_eq!(split_fields(b"a  b"), bytes(&["a", "", "b"]));
    assert_eq!(split_fields(b" a "), bytes(&["", "a", ""]));
}

#[test]
fn test_case_with_area() {
    let case = TestCase::parse(b"0 0 90 0 1 90 111319.49 1.0 111319.49 0").unwrap();
    assert_eq!(case.len(), 10);
    assert_eq!(case.field(6), &b"111319.49".to_vec());
    assert_eq!(case.field(9), &b"0".to_vec());
}

#[test]
fn test_case_without_area() {
    let case = TestCase::parse(b"0 0 90 0 1 90 111319.49 1.0 111319.49").unwrap();
    assert_eq!(case.len(), 9);
}

#[test]
fn test_case_with_too_few_fields() {
    let r = TestCase::parse(b"0 0 90 0 1 90 111319.49 1.0");
    assert_eq!(r.unwrap_err(), LineError::FieldCount { found: 8 });
}

#[test]
fn test_case_with_too_many_fields() {
    let r = TestCase::parse(b"0 0 90 0 1 90 111319.49 1.0 111319.49 0 7");
    assert_eq!(r.unwrap_err(), LineError::FieldCount { found: 11 });
}

#[test]
fn test_case_with_empty_field() {
    let r = TestCase::parse(b"0  90 0 1 90 111319.49 1.0 111319.49 0");
    assert_eq!(r.unwrap_err(), LineError::EmptyField { position: 1 });
}

#[test]
fn empty_line_is_no_test_case() {
    assert_eq!(TestCase::parse(b"").unwrap_err(), LineError::FieldCount { found: 1 });
}
