use rand::SeedableRng;
use stupid_ec::primes::{
    deterministic_miller_rabin, miller_rabin, miller_rabin_step, miller_rabin_with_randomness,
    rewrite_n, MillerRabinResult,
};

const PRIMES_BELOW_1000: [u64; 168] = [
    2, 3, 5, 7, 11, 13, 17, 19, 23, 29, 31, 37, 41, 43, 47, 53, 59, 61, 67, 71, 73, 79, 83, 89, 97,
    101, 103, 107, 109, 113, 127, 131, 137, 139, 149, 151, 157, 163, 167, 173, 179, 181, 191, 193,
    197, 199, 211, 223, 227, 229, 233, 239, 241, 251, 257, 263, 269, 271, 277, 281, 283, 293, 307,
    311, 313, 317, 331, 337, 347, 349, 353, 359, 367, 373, 379, 383, 389, 397, 401, 409, 419, 421,
    431, 433, 439, 443, 449, 457, 461, 463, 467, 479, 487, 491, 499, 503, 509, 521, 523, 541, 547,
    557, 563, 569, 571, 577, 587, 593, 599, 601, 607, 613, 617, 619, 631, 641, 643, 647, 653, 659,
    661, 673, 677, 683, 691, 701, 709, 719, 727, 733, 739, 743, 751, 757, 761, 769, 773, 787, 797,
    809, 811, 821, 823, 827, 829, 839, 853, 857, 859, 863, 877, 881, 883, 887, 907, 911, 919, 929,
    937, 941, 947, 953, 967, 971, 977, 983, 991, 997,
];

#[test]
fn representation_tests() {
    assert_eq!((2, 1), rewrite_n(4 + 1));
    assert_eq!((5, 1), rewrite_n(32 + 1));
    assert_eq!((5, 17), rewrite_n(32 * 17 + 1));
}

#[test]
fn rewrite_seventeen() {
    assert_eq!((4, 1), rewrite_n(17));
    assert_eq!((1, 2499), rewrite_n(4999));
}

#[test]
fn primality_tests() {
    const ROUNDS: usize = 1000;
    let mut rng = rand_chacha::ChaCha20Rng::seed_from_u64(42);
    assert_eq!(miller_rabin_with_randomness(&mut rng, 0, ROUNDS), MillerRabinResult::Zero);
    assert_eq!(miller_rabin_with_randomness(&mut rng, 1, ROUNDS), MillerRabinResult::One);
    assert_eq!(miller_rabin_with_randomness(&mut rng, 4, ROUNDS), MillerRabinResult::CompositeEven);
    for i in PRIMES_BELOW_1000 {
        assert!(miller_rabin_with_randomness(&mut rng, i, ROUNDS).is_prime(), "Failure on {}", i);
    }
}

#[test]
fn deterministic_verdicts() {
    assert_eq!(deterministic_miller_rabin(0), MillerRabinResult::Zero);
    assert_eq!(deterministic_miller_rabin(1), MillerRabinResult::One);
    assert_eq!(deterministic_miller_rabin(2), MillerRabinResult::CertainPrime);
    assert_eq!(deterministic_miller_rabin(4), MillerRabinResult::CompositeEven);
    for i in PRIMES_BELOW_1000 {
        let r = deterministic_miller_rabin(i);
        assert!(!r.is_composite(), "Failure on {}", i);
        assert_eq!(r, MillerRabinResult::CertainPrime);
    }
    for n in 3..1000u64 {
        let expected = PRIMES_BELOW_1000.contains(&n);
        assert_eq!(deterministic_miller_rabin(n).is_prime(), expected, "n = {}", n);
    }
}

#[test]
fn composite_witnesses() {
    // 9 = 3 * 3: witness 2 gives 2^1 = 2 and 2^2 = 4, never 1 or 8.
    assert_eq!(miller_rabin_step(9, 2), MillerRabinResult::CompositeWitness(2));
    // 561 is a Carmichael number, but Miller-Rabin catches it with witness 2.
    assert_eq!(miller_rabin_step(561, 2), MillerRabinResult::CompositeWitness(2));
    assert_eq!(deterministic_miller_rabin(561), MillerRabinResult::CompositeWitness(2));
    // 2047 = 23 * 89 is a strong pseudoprime to base 2.
    assert_eq!(miller_rabin_step(2047, 2), MillerRabinResult::PossiblePrime);
    assert_eq!(deterministic_miller_rabin(2047), MillerRabinResult::CompositeWitness(3));
    assert_eq!(miller_rabin_step(4999, 2), MillerRabinResult::PossiblePrime);
    assert_eq!(miller_rabin_step(10, 3), MillerRabinResult::CompositeEven);
    // The witness n - 1 is always inconclusive.
    assert_eq!(miller_rabin_step(561, 560), MillerRabinResult::PossiblePrime);
}

#[test]
fn randomized_rounds() {
    let mut rng = rand_chacha::ChaCha20Rng::seed_from_u64(7);
    assert_eq!(miller_rabin_with_randomness(&mut rng, 1_000_000_007, 20), MillerRabinResult::PossiblePrime);
    match miller_rabin_with_randomness(&mut rng, 1_000_000_011, 20) {
        MillerRabinResult::CompositeWitness(a) => assert!(2 <= a && a < 1_000_000_011),
        other => panic!("unexpected {:?}", other),
    }
    // Rounds covering every witness switch to the exhaustive sweep.
    assert_eq!(miller_rabin_with_randomness(&mut rng, 7, 4), MillerRabinResult::CertainPrime);
    assert_eq!(miller_rabin_with_randomness(&mut rng, 3, 0), MillerRabinResult::CertainPrime);
    assert!(miller_rabin(4999, 10).is_prime());
    assert!(miller_rabin(4997, 10).is_composite());
}
