use stupid_ec::double_and_add::{positive_double_and_add, possibly_negative_double_and_add};
use stupid_ec::modular::{mod_pow, ModularAdd, ModularMul};

#[test]
fn test_scale() {
    let a: u64 = 10;
    let state = ModularAdd { modulus: u64::MAX };
    for i in 0..1024u64 {
        assert_eq!(a * i, positive_double_and_add(&state, a, i));
    }
}

#[test]
fn test_pow() {
    let a: u64 = 10;
    let state = ModularMul { modulus: u64::MAX };
    for i in 0..10u32 {
        assert_eq!(a.pow(i), positive_double_and_add(&state, a, i as u64));
    }
}

#[test]
fn signed_exponent_inverts_first() {
    let state = ModularAdd { modulus: 101 };
    // The additive inverse of 7 modulo 101 is 94; -3 * 7 == 3 * 94 == 80 (mod 101).
    let r = possibly_negative_double_and_add(&state, 7, |x: u64| (101 - x) % 101, -3);
    assert_eq!(r, 80);
    let r = possibly_negative_double_and_add(&state, 7, |x: u64| (101 - x) % 101, 5);
    assert_eq!(r, 35);
    let r = possibly_negative_double_and_add(&state, 7, |x: u64| (101 - x) % 101, 0);
    assert_eq!(r, 0);
}

#[test]
fn modular_power() {
    assert_eq!(mod_pow(2, 10, 1000), 24);
    assert_eq!(mod_pow(3, 0, 7), 1);
    assert_eq!(mod_pow(4998, 2, 4999), 1);
    assert_eq!(mod_pow(123456789, 987654321, 1_000_000_007), 652541198);
}
