use std::collections::VecDeque;

use lfsr::{Lfsr, LfsrError};

fn keyed(taps: Vec<u8>, key: Vec<u8>) -> Lfsr {
    let mut l = Lfsr::new(taps).unwrap();
    l.set_key(VecDeque::from(key)).unwrap();
    l
}

fn drain(l: &mut Lfsr, n: usize) -> Vec<u8> {
    (0..n).map(|_| l.clock().unwrap()).collect()
}

#[test]
fn known_vector_first_clock() {
    // Polynomial x^7 + x^5 + x^2 + 1: taps 7, 5, 2 become indices 6, 4, 1.
    // Key [0,1,1,0,0,0,1]: feedback = 1^0^1 = 0, output = old back bit = 1.
    let mut l = keyed(vec![7, 5, 2], vec![0, 1, 1, 0, 0, 0, 1]);
    assert_eq!(l.clock(), Ok(1));
}

#[test]
fn known_vector_stream() {
    let mut l = keyed(vec![7, 5, 2], vec![0, 1, 1, 0, 0, 0, 1]);
    assert_eq!(drain(&mut l, 10), vec![1, 0, 0, 0, 1, 1, 0, 0, 0, 1]);
}

#[test]
fn determinism() {
    let mut a = keyed(vec![7, 5, 2], vec![0, 1, 1, 0, 0, 0, 1]);
    let mut b = keyed(vec![7, 5, 2], vec![0, 1, 1, 0, 0, 0, 1]);
    assert_eq!(drain(&mut a, 50), drain(&mut b, 50));
}

#[test]
fn length_invariance() {
    let mut l = keyed(vec![7, 5, 2], vec![0, 1, 1, 0, 0, 0, 1]);
    assert_eq!(l.state_len(), 7);
    for _ in 0..40 {
        l.clock().unwrap();
        assert_eq!(l.state_len(), 7);
    }
}

#[test]
fn parity_of_each_clock() {
    // Taps 2, 1 watch both cells of a two-bit register: from [1,1] the
    // feedback is 1^1 = 0, and each later feedback is the XOR of the two
    // current bits, never their arithmetic sum.
    let mut l = keyed(vec![2, 1], vec![1, 1]);
    assert_eq!(drain(&mut l, 6), vec![1, 1, 0, 1, 1, 0]);
}

#[test]
fn duplicate_taps_cancel() {
    // A duplicated tap XORs the same bit twice, so it drops out of the
    // feedback: the register only shifts zeroes in.
    let mut l = keyed(vec![2, 2], vec![1, 1]);
    assert_eq!(drain(&mut l, 4), vec![1, 1, 0, 0]);
}

#[test]
fn empty_tap_set() {
    // With no taps the feedback is the empty XOR, 0.
    let mut l = keyed(vec![], vec![1, 0]);
    assert_eq!(drain(&mut l, 4), vec![0, 1, 0, 0]);
}

#[test]
fn unkeyed_clock_fails() {
    let mut l = Lfsr::new(vec![7, 5, 2]).unwrap();
    assert_eq!(l.clock(), Err(LfsrError::UnkeyedClock));
    assert_eq!(l.state_len(), 0);
    // The failure leaves the engine usable: loading a key recovers it.
    l.set_key(VecDeque::from(vec![0, 1, 1, 0, 0, 0, 1])).unwrap();
    assert_eq!(l.clock(), Ok(1));
}

#[test]
fn short_state_clock_fails() {
    // A three-bit key cannot satisfy tap 7 (index 6).
    let mut l = keyed(vec![7, 5, 2], vec![1, 0, 1]);
    assert_eq!(l.clock(), Err(LfsrError::UnkeyedClock));
    // The failed clock applied no partial shift.
    assert_eq!(l.state_len(), 3);
    l.set_key(VecDeque::from(vec![0, 1, 1, 0, 0, 0, 1])).unwrap();
    assert_eq!(l.clock(), Ok(1));
}

#[test]
fn reload_replaces_state() {
    let mut l = keyed(vec![3, 2], vec![1, 0, 1, 1]);
    drain(&mut l, 3);
    // A second key of a different length replaces the state wholesale.
    l.set_key(VecDeque::from(vec![1, 1, 1])).unwrap();
    assert_eq!(l.state_len(), 3);
    let mut fresh = keyed(vec![3, 2], vec![1, 1, 1]);
    assert_eq!(drain(&mut l, 10), drain(&mut fresh, 10));
}

#[test]
fn clone_preserves_run() {
    let mut a = keyed(vec![7, 5, 2], vec![0, 1, 1, 0, 0, 0, 1]);
    drain(&mut a, 5);
    let mut b = a.clone();
    assert_eq!(drain(&mut a, 30), drain(&mut b, 30));
}

#[test]
fn zero_tap_rejected() {
    assert_eq!(Lfsr::new(vec![3, 0, 2]).unwrap_err(), LfsrError::ZeroTap);
}

#[test]
fn invalid_bit_rejected() {
    let mut l = keyed(vec![2, 1], vec![1, 1]);
    assert_eq!(
        l.set_key(VecDeque::from(vec![1, 2, 0])),
        Err(LfsrError::InvalidBit)
    );
    // The rejected key left the prior state in place.
    assert_eq!(l.state_len(), 2);
    assert_eq!(drain(&mut l, 6), vec![1, 1, 0, 1, 1, 0]);
}

#[test]
fn maximal_length_period() {
    // x^3 + x^2 + 1 is primitive, so a three-bit register with a non-zero
    // key runs through all 2^3 - 1 non-zero states before repeating.
    let mut l = keyed(vec![3, 2], vec![1, 0, 0]);
    let out = drain(&mut l, 21);
    for i in 0..14 {
        assert_eq!(out[i], out[i + 7]);
    }
    // The period is exactly 7: the one proper divisor, 1, is ruled out
    // because the first seven bits are not all equal.
    assert!(out[..7].iter().any(|&b| b == 0));
    assert!(out[..7].iter().any(|&b| b == 1));
}
