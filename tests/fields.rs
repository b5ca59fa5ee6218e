use rand::SeedableRng;
use stupid_ec::fields::{PrimeField, PrimeField4999};
use stupid_ec::primes::miller_rabin_with_randomness;

#[test]
fn modulo_is_prime() {
    let mut rng = rand_chacha::ChaCha20Rng::seed_from_u64(42);
    assert!(miller_rabin_with_randomness(&mut rng, PrimeField4999::characteristic(), 1000).is_prime());
}

#[test]
fn every_nonzero_element_has_an_inverse() {
    assert!(PrimeField4999::zero().invert().is_none());
    for v in 1..4999u64 {
        let e = PrimeField4999::new(v);
        let inv = e.invert().unwrap();
        assert_eq!(e.mul(&inv), PrimeField4999::one());
    }
}

#[test]
fn obvious_things() {
    assert!(PrimeField4999::zero().is_zero());
    assert!(PrimeField4999::one().is_one());
    assert!(!PrimeField4999::zero().is_one());
    assert!(!PrimeField4999::one().is_zero());
    assert!(PrimeField4999::zero() != PrimeField4999::one());
    assert!(PrimeField4999::characteristic() >= 2);
    assert_eq!(PrimeField4999::integer_embed(0), PrimeField4999::zero());
    assert_eq!(PrimeField4999::integer_embed(1), PrimeField4999::one());
    assert_eq!(PrimeField4999::integer_embed(-1).el, 4998);
    assert_eq!(PrimeField4999::integer_embed(10000).el, 2);
    assert_eq!(PrimeField4999::new(5001).el, 2);
}

#[test]
fn arithmetic_identities() {
    let mut rng = rand_chacha::ChaCha20Rng::seed_from_u64(42);
    for _ in 0..1000 {
        let a = PrimeField4999::random(&mut rng);
        let b = PrimeField4999::random(&mut rng);
        let c = PrimeField4999::random(&mut rng);
        assert_eq!(a, PrimeField4999::zero().add(&a));
        assert_eq!(a.sub(&a), PrimeField4999::zero());
        assert_eq!(a.add(&b), b.add(&a));
        assert_eq!(a.mul(&b), b.mul(&a));
        assert_eq!(a.mul(&b.add(&c)), a.mul(&b).add(&a.mul(&c)));
        assert_eq!(a.add(&a.neg()), PrimeField4999::zero());
        let nz = PrimeField4999::random_non_zero(&mut rng);
        assert!(!nz.is_zero());
        assert_eq!(nz.mul(&PrimeField4999::one()), nz);
    }
}

#[test]
fn scale_and_powers() {
    let a = PrimeField4999::new(25);
    assert_eq!(PrimeField4999::one().scale(12).el, 12);
    assert_eq!(a.scale(3).el, 75);
    assert_eq!(a.scale(-1).el, 4974);
    assert_eq!(a.scale(400).el, 10000 % 4999);
    assert_eq!(a.square().el, 625);
    assert_eq!(a.positive_pow(3).el, 15625 % 4999);
    assert_eq!(a.pow(3).el, 15625 % 4999);
    assert_eq!(a.pow(0), PrimeField4999::one());
    let inv = a.invert().unwrap();
    assert_eq!(a.pow(-1), inv);
    assert_eq!(a.pow(-2).mul(&a.square()), PrimeField4999::one());
    assert_eq!(a.positive_pow(4998), PrimeField4999::one());
    assert_eq!(PrimeField4999::zero().pow(5), PrimeField4999::zero());
    assert_eq!(PrimeField4999::zero().pow(0), PrimeField4999::one());
    assert_eq!(PrimeField4999::zero().positive_pow(0), PrimeField4999::one());
    assert_eq!(PrimeField4999::zero().pow(-3), PrimeField4999::zero());
}

#[test]
fn composite_modulus_inverses() {
    type Z10 = PrimeField<10>;
    assert!(Z10::new(4).invert().is_none());
    assert_eq!(Z10::new(3).invert().unwrap().el, 7);
}
