use crdts::{from_binary, to_binary, DecodeError, Dot, VClock};

fn clock_of(dots: &[(u64, u64)]) -> VClock {
    let mut c = VClock::new();
    for &(a, n) in dots {
        c.apply(Dot::new(a, n));
    }
    c
}

#[test]
fn round_trip_reconstructs_the_clock() {
    let c = clock_of(&[(1, 2), (7, 40), (u64::MAX, u64::MAX)]);
    let bytes = to_binary(&c);
    assert_eq!(from_binary(bytes), Ok(c));
}

#[test]
fn round_trip_of_the_empty_clock() {
    let c = VClock::new();
    let bytes = to_binary(&c);
    assert_eq!(bytes.len(), 0);
    assert_eq!(from_binary(bytes), Ok(c));
}

#[test]
fn encoding_is_deterministic_in_apply_order() {
    let a = clock_of(&[(3, 1), (1, 5), (2, 2)]);
    let b = clock_of(&[(2, 2), (3, 1), (1, 5)]);
    assert_eq!(to_binary(&a), to_binary(&b));
}

#[test]
fn encoding_is_little_endian_pairs() {
    let c = clock_of(&[(1, 258)]);
    let bytes = to_binary(&c);
    let mut expected = vec![1u8, 0, 0, 0, 0, 0, 0, 0];
    expected.extend_from_slice(&[2, 1, 0, 0, 0, 0, 0, 0]);
    assert_eq!(bytes, expected);
}

#[test]
fn truncated_input_is_rejected() {
    let bytes = vec![0u8; 5];
    assert_eq!(from_binary(bytes), Err(DecodeError::Truncated));
    let mut long = to_binary(&clock_of(&[(1, 1)]));
    long.pop();
    assert_eq!(from_binary(long), Err(DecodeError::Truncated));
}

#[test]
fn zero_counter_is_rejected() {
    // one dot: actor 0, counter 0
    let bytes = vec![0u8; 16];
    assert_eq!(from_binary(bytes), Err(DecodeError::ZeroCounter));
}

#[test]
fn out_of_order_actors_are_rejected() {
    // two dots with descending actors 2, 1; counters 1 each
    let mut bytes = vec![2u8, 0, 0, 0, 0, 0, 0, 0, 1, 0, 0, 0, 0, 0, 0, 0];
    bytes.extend_from_slice(&[1, 0, 0, 0, 0, 0, 0, 0, 1, 0, 0, 0, 0, 0, 0, 0]);
    assert_eq!(from_binary(bytes), Err(DecodeError::OutOfOrder));
}
