use wasm_boundary::codec::{cantor_pairing, cantor_unpairing};

#[test]
fn pairing_known_values() {
    assert_eq!(cantor_pairing(0, 0), 0);
    assert_eq!(cantor_pairing(1, 0), 1);
    assert_eq!(cantor_pairing(0, 1), 2);
    assert_eq!(cantor_pairing(2, 0), 3);
    assert_eq!(cantor_pairing(3, 4), 32);
    assert_eq!(cantor_pairing(47, 32), (79 * 80) / 2 + 32);
}

#[test]
fn pairing_round_trip_small() {
    for a in 0..40i32 {
        for l in 0..40i32 {
            let z = cantor_pairing(a, l);
            assert_eq!(cantor_unpairing(z), (a as i64, l as i64));
        }
    }
}

#[test]
fn pairing_round_trip_large() {
    let samples: [(i32, i32); 6] = [
        (0, i32::MAX),
        (i32::MAX, 0),
        (i32::MAX, i32::MAX),
        (65536, 4096),
        (1, i32::MAX - 1),
        (123456789, 987654321),
    ];
    for (a, l) in samples {
        let z = cantor_pairing(a, l);
        assert!(z >= 0);
        assert_eq!(cantor_unpairing(z), (a as i64, l as i64));
    }
}

#[test]
fn pairing_width_boundary() {
    // The largest encodable pair of 32-bit inputs still fits the 64-bit
    // scalar with room to spare: nothing is truncated at the width limit.
    let z = cantor_pairing(i32::MAX, i32::MAX);
    assert_eq!(z, 9223372032559808512);
    assert!(z < i64::MAX);
}

#[test]
fn unpairing_is_total_at_scalar_max() {
    // Decoding is defined on every non-negative scalar, including the last.
    let (a, l) = cantor_unpairing(i64::MAX);
    assert_eq!((a, l), (2147483648, 2147483647));
    // The decoded pair re-encodes to the scalar: (a+l)(a+l+1)/2 + l,
    // halving the even factor first so the product stays in range.
    let s = a + l;
    let tri = if s % 2 == 0 { (s / 2) * (s + 1) } else { s * ((s + 1) / 2) };
    assert_eq!(tri + l, i64::MAX);
}

#[test]
fn unpairing_zero() {
    assert_eq!(cantor_unpairing(0), (0, 0));
}
