use wasm_boundary::envelope::{parse_input, serialize_output, TransformError};
use wasm_boundary::models::InputModel;

#[test]
fn parse_plain() {
    assert_eq!(parse_input(b"{\"foo\":5}"), Ok(InputModel { foo: 5 }));
}

#[test]
fn parse_with_whitespace() {
    assert_eq!(parse_input(b"  { \"foo\" :\t-42 }\r\n"), Ok(InputModel { foo: -42 }));
}

#[test]
fn parse_zero_and_negative_zero() {
    assert_eq!(parse_input(b"{\"foo\":0}"), Ok(InputModel { foo: 0 }));
    assert_eq!(parse_input(b"{\"foo\":-0}"), Ok(InputModel { foo: 0 }));
}

#[test]
fn parse_extremes() {
    assert_eq!(parse_input(b"{\"foo\":2147483647}"), Ok(InputModel { foo: i32::MAX }));
    assert_eq!(parse_input(b"{\"foo\":-2147483648}"), Ok(InputModel { foo: i32::MIN }));
}

#[test]
fn parse_rejects_out_of_range() {
    assert_eq!(parse_input(b"{\"foo\":2147483648}"), Err(TransformError::MalformedPayload));
    assert_eq!(parse_input(b"{\"foo\":-2147483649}"), Err(TransformError::MalformedPayload));
    assert_eq!(
        parse_input(b"{\"foo\":99999999999999999999}"),
        Err(TransformError::MalformedPayload)
    );
    assert_eq!(parse_input(b"{\"foo\":9999999999}"), Err(TransformError::MalformedPayload));
    assert_eq!(parse_input(b"{\"foo\":-9999999999}"), Err(TransformError::MalformedPayload));
}

#[test]
fn parse_rejects_bad_shape() {
    assert_eq!(parse_input(b""), Err(TransformError::MalformedPayload));
    assert_eq!(parse_input(b"{}"), Err(TransformError::MalformedPayload));
    assert_eq!(parse_input(b"{\"foo\":}"), Err(TransformError::MalformedPayload));
    assert_eq!(parse_input(b"{\"foo\" 5}"), Err(TransformError::MalformedPayload));
    assert_eq!(parse_input(b"{\"bar\":5}"), Err(TransformError::MalformedPayload));
    assert_eq!(parse_input(b"[1]"), Err(TransformError::MalformedPayload));
    assert_eq!(parse_input(b"{\"foo\":5}x"), Err(TransformError::MalformedPayload));
    assert_eq!(parse_input(b"{\"foo\":5"), Err(TransformError::MalformedPayload));
}

#[test]
fn parse_rejects_leading_zero_and_sign() {
    assert_eq!(parse_input(b"{\"foo\":01}"), Err(TransformError::MalformedPayload));
    assert_eq!(parse_input(b"{\"foo\":-01}"), Err(TransformError::MalformedPayload));
    assert_eq!(parse_input(b"{\"foo\":+5}"), Err(TransformError::MalformedPayload));
    assert_eq!(parse_input(b"{\"foo\":--5}"), Err(TransformError::MalformedPayload));
}

#[test]
fn parse_rejects_invalid_utf8() {
    // Bytes that are not valid UTF-8 cannot spell the all-ASCII grammar.
    assert_eq!(parse_input(&[0xff, 0xfe, 0x80]), Err(TransformError::MalformedPayload));
    assert_eq!(
        parse_input(&[0x7b, 0x22, 0x66, 0x6f, 0x6f, 0x22, 0x3a, 0xc3, 0x28, 0x7d]),
        Err(TransformError::MalformedPayload)
    );
}

#[test]
fn serialize_known_values() {
    assert_eq!(serialize_output(&InputModel { foo: 6 }), b"{\"foo\":6}".to_vec());
    assert_eq!(serialize_output(&InputModel { foo: 0 }), b"{\"foo\":0}".to_vec());
    assert_eq!(serialize_output(&InputModel { foo: -17 }), b"{\"foo\":-17}".to_vec());
    assert_eq!(
        serialize_output(&InputModel { foo: i32::MIN }),
        b"{\"foo\":-2147483648}".to_vec()
    );
    assert_eq!(
        serialize_output(&InputModel { foo: i32::MAX }),
        b"{\"foo\":2147483647}".to_vec()
    );
}

#[test]
fn envelope_round_trip_samples() {
    let samples: [i32; 9] = [0, 1, -1, 9, 10, -10, 123456, i32::MAX, i32::MIN];
    for foo in samples {
        let m = InputModel { foo };
        let bytes = serialize_output(&m);
        assert_eq!(parse_input(&bytes), Ok(m));
    }
}
