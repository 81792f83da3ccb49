use validate_geodsolve::calculation::{Calculation, Channel};
use validate_geodsolve::line::{LineError, TestCase};

const EQUATOR_STEP: &[u8] = b"0 0 90 0 1 90 111319.49 1.0 111319.49 0";

fn texts(values: &[Vec<u8>]) -> Vec<String> {
    values.iter().map(|v| String::from_utf8(v.clone()).unwrap()).collect()
}

#[test]
fn direct_forward_request() {
    let case = TestCase::parse(EQUATOR_STEP).unwrap();
    let r = Calculation::DirectP1ToP2.encode_request(&case);
    assert_eq!(r, b"0 0 90 111319.49\n".to_vec());
}

#[test]
fn direct_reverse_request_negates_distance() {
    let case = TestCase::parse(EQUATOR_STEP).unwrap();
    let r = Calculation::DirectP2ToP1.encode_request(&case);
    assert_eq!(r, b"0 1 90 -111319.49\n".to_vec());
}

#[test]
fn inverse_request() {
    let case = TestCase::parse(EQUATOR_STEP).unwrap();
    let r = Calculation::Inverse.encode_request(&case);
    assert_eq!(r, b"0 0 0 1\n".to_vec());
}

#[test]
fn negating_a_signed_distance() {
    let case = TestCase::parse(b"1 2 3 4 5 6 -70.5 8 9").unwrap();
    assert_eq!(Calculation::DirectP2ToP1.encode_request(&case), b"4 5 6 70.5\n".to_vec());
    let case = TestCase::parse(b"1 2 3 4 5 6 +70.5 8 9").unwrap();
    assert_eq!(Calculation::DirectP2ToP1.encode_request(&case), b"4 5 6 -70.5\n".to_vec());
}

#[test]
fn expected_values_of_each_calculation() {
    let case = TestCase::parse(EQUATOR_STEP).unwrap();
    assert_eq!(
        texts(&Calculation::DirectP1ToP2.expected_values(&case)),
        vec!["0", "1", "90", "111319.49"]
    );
    assert_eq!(
        texts(&Calculation::DirectP2ToP1.expected_values(&case)),
        vec!["0", "0", "90", "-111319.49"]
    );
    assert_eq!(texts(&Calculation::Inverse.expected_values(&case)), vec!["111319.49"]);
}

#[test]
fn channels() {
    assert_eq!(Calculation::DirectP1ToP2.channel(), Channel::Direct);
    assert_eq!(Calculation::DirectP2ToP1.channel(), Channel::Direct);
    assert_eq!(Calculation::Inverse.channel(), Channel::Inverse);
}

#[test]
fn direct_response_with_reduced_length() {
    let line = b"0 0 90 0 1 90 111319.49 1.0 111319.4 1 1 0";
    let v = Calculation::DirectP1ToP2.decode_response(line).unwrap();
    assert_eq!(texts(&v), vec!["0", "1", "90", "111319.4"]);
}

#[test]
fn direct_response_without_reduced_length() {
    let v = Calculation::DirectP2ToP1.decode_response(b"0 1 90 0 0 90").unwrap();
    assert_eq!(texts(&v), vec!["0", "0", "90"]);
}

#[test]
fn short_direct_response_is_refused() {
    let r = Calculation::DirectP1ToP2.decode_response(b"0 1 90 0 0");
    assert_eq!(r.unwrap_err(), LineError::FieldCount { found: 5 });
}

#[test]
fn inverse_response_distance() {
    let v = Calculation::Inverse.decode_response(b"0 0 90 0 1 90 111319.4907932 1.0").unwrap();
    assert_eq!(texts(&v), vec!["111319.4907932"]);
}

#[test]
fn inverse_response_needs_the_distance() {
    let r = Calculation::Inverse.decode_response(b"0 0 90 0 1 90");
    assert_eq!(r.unwrap_err(), LineError::FieldCount { found: 6 });
    let r = Calculation::Inverse.decode_response(b"0 0 90 0 1 90 ");
    assert_eq!(r.unwrap_err(), LineError::EmptyField { position: 6 });
}
