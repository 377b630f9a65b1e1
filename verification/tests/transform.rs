use wasm_boundary::envelope::TransformError;
use wasm_boundary::models::{InputModel, Process};
use wasm_boundary::transform_message;

#[test]
fn process_increments() {
    assert_eq!(InputModel { foo: 41 }.process(), InputModel { foo: 42 });
    assert_eq!(InputModel { foo: -1 }.process(), InputModel { foo: 0 });
}

#[test]
fn process_wraps_at_width_limit() {
    assert_eq!(InputModel { foo: i32::MAX }.process(), InputModel { foo: i32::MIN });
}

#[test]
fn transform_scenario_increment() {
    // Host writes {"foo":5}; the bytes it reads back are {"foo":6}.
    let out = transform_message(b"{\"foo\":5}").unwrap();
    assert_eq!(out, b"{\"foo\":6}".to_vec());
}

#[test]
fn transform_scenario_negative() {
    // Plain integer arithmetic, no special-casing of negative values.
    let out = transform_message(b"{\"foo\":-1}").unwrap();
    assert_eq!(out, b"{\"foo\":0}".to_vec());
}

#[test]
fn transform_scenario_width_boundary() {
    // Documented overflow policy: incrementing the largest representable
    // value wraps to the smallest.
    let out = transform_message(b"{\"foo\":2147483647}").unwrap();
    assert_eq!(out, b"{\"foo\":-2147483648}".to_vec());
}

#[test]
fn transform_deterministic() {
    // Byte-identical input in a fresh buffer yields byte-identical output.
    let input = b"{\"foo\": 7 }";
    let copy = input.to_vec();
    let first = transform_message(input).unwrap();
    let second = transform_message(&copy).unwrap();
    assert_eq!(first, second);
}

#[test]
fn transform_rejects_invalid_utf8() {
    // A failed call is reported as a failure, never as garbage pointer data.
    assert_eq!(transform_message(&[0xff, 0xfe]), Err(TransformError::MalformedPayload));
}

#[test]
fn transform_accepts_whitespace() {
    let out = transform_message(b" { \"foo\" : 41 }\t").unwrap();
    assert_eq!(out, b"{\"foo\":42}".to_vec());
}

#[test]
fn transform_rejects_bad_schema() {
    assert_eq!(transform_message(b"{\"foo\":true}"), Err(TransformError::MalformedPayload));
    assert_eq!(transform_message(b"not json"), Err(TransformError::MalformedPayload));
}
