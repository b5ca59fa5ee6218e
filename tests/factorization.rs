use rand::{Rng, SeedableRng};
use stupid_ec::primes::MillerRabinResult;
use stupid_ec::factorization::{
    factor_step, pollard_rho_factorisation, FactorStep, pollard_rho_from, pollard_rho_single_factor,
    pollard_rho_single_factor_repeat, trial_factorization, Factorization, PollardRhoParameters,
};

#[test]
fn test_trial_factorization() {
    let mut rng = rand_chacha::ChaCha20Rng::seed_from_u64(42);
    for i in 1..100u64 {
        let fact = trial_factorization(i);
        assert_eq!(i, fact.n());
    }

    const ROUNDS: usize = 1000;
    for _ in 0..ROUNDS {
        let num: u64 = rng.gen_range(2..1000000u64);
        let fact = trial_factorization(num);
        assert_eq!(fact.n(), num);
    }
}

#[test]
fn trial_factorization_entries() {
    assert_eq!(trial_factorization(1).to_vec(), vec![]);
    assert_eq!(trial_factorization(360).to_vec(), vec![(2, 3), (3, 2), (5, 1)]);
    assert_eq!(trial_factorization(4999).to_vec(), vec![(4999, 1)]);
    assert_eq!(trial_factorization(1 << 40).to_vec(), vec![(2, 40)]);
}

#[test]
fn test_pollard_rho_single_factor() {
    let mut rng = rand_chacha::ChaCha20Rng::seed_from_u64(42);
    const ROUNDS: usize = 1000;
    for _ in 0..ROUNDS {
        let num: u64 = rng.gen_range(2..1000000u64);
        if num <= 2 {
            continue;
        }
        let factor = pollard_rho_single_factor(&mut rng, num);
        if let Some(fact) = factor {
            assert!(num % fact == 0);
            assert!(1 < fact && fact < num);
        }
    }
}

#[test]
fn pollard_rho_known_walk() {
    // x -> x^2 + 1 from 2 modulo 8051 = 83 * 97 meets 97 at the third step.
    assert_eq!(pollard_rho_from(8051, 2, 1), Some(97));
    // A prime modulus only ever yields gcd 1 or the modulus itself.
    assert_eq!(pollard_rho_from(4999, 2, 1), None);
}

#[test]
fn pollard_rho_repeat_finds_factor() {
    let mut rng = rand_chacha::ChaCha20Rng::seed_from_u64(1);
    let f = pollard_rho_single_factor_repeat(&mut rng, 10403, 100).unwrap();
    assert!(f == 101 || f == 103);
    assert_eq!(pollard_rho_single_factor_repeat(&mut rng, 10403, 0), None);
}

#[test]
fn test_pollard_rho_factorisation() {
    let mut rng = rand_chacha::ChaCha20Rng::seed_from_u64(42);
    let params = PollardRhoParameters {
        trial_bound: 1024,
        rho_rounds: 2048,
        miller_rabin_rounds: 1000,
    };

    const ROUNDS: usize = 10;
    for _ in 0..ROUNDS {
        let num: u64 = rng.gen_range(1000000u64..10000000u64);
        let factor = pollard_rho_factorisation(&mut rng, params.clone(), num);
        if let Some(fact) = factor {
            assert_eq!(fact.n(), num);
        }
    }
}

#[test]
fn pollard_rho_factorises_9998() {
    let mut rng = rand_chacha::ChaCha20Rng::seed_from_u64(42);
    let params = PollardRhoParameters {
        trial_bound: 1024,
        rho_rounds: 2048,
        miller_rabin_rounds: 1000,
    };
    let fact = pollard_rho_factorisation(&mut rng, params, 9998).unwrap();
    assert_eq!(fact.to_vec(), vec![(2, 1), (4999, 1)]);
    assert_eq!(fact.n(), 9998);
}

#[test]
fn factorization_new_and_merge() {
    let f = Factorization::new(vec![(5, 2), (1, 7), (2, 3)]);
    assert_eq!(f.to_vec(), vec![(2, 3), (5, 2)]);
    assert_eq!(f.n(), 200);
    let g = Factorization::new(vec![(3, 1), (5, 1)]);
    let m = f.merge(g);
    assert_eq!(m.to_vec(), vec![(2, 3), (3, 1), (5, 3)]);
    assert_eq!(m.n(), 3000);
    assert_eq!(Factorization::new(vec![]).n(), 1);
}

#[test]
fn orchestrator_edge_cases() {
    let mut rng = rand_chacha::ChaCha20Rng::seed_from_u64(3);
    let params = PollardRhoParameters { trial_bound: 0, rho_rounds: 64, miller_rabin_rounds: 20 };
    assert_eq!(pollard_rho_factorisation(&mut rng, params.clone(), 1).unwrap().to_vec(), vec![]);
    assert_eq!(pollard_rho_factorisation(&mut rng, params.clone(), 4999).unwrap().to_vec(), vec![(4999, 1)]);
    // Every part that rho splits off is factored in turn. Rho cannot split 4,
    // so small parts go to trial division.
    let params = PollardRhoParameters { trial_bound: 16, rho_rounds: 64, miller_rabin_rounds: 20 };
    let f = pollard_rho_factorisation(&mut rng, params.clone(), 1_000_036_000_099).unwrap();
    assert_eq!(f.to_vec(), vec![(1_000_003, 1), (1_000_033, 1)]);
    let f = pollard_rho_factorisation(&mut rng, params.clone(), 2 * 2 * 3 * 1009 * 1009).unwrap();
    assert_eq!(f.to_vec(), vec![(2, 2), (3, 1), (1009, 2)]);
    let no_budget = PollardRhoParameters { trial_bound: 0, rho_rounds: 0, miller_rabin_rounds: 20 };
    assert!(pollard_rho_factorisation(&mut rng, no_budget, 1009 * 1013).is_none());
}

#[test]
fn factor_step_cases() {
    match factor_step(4999, &MillerRabinResult::PossiblePrime, None, 1024) {
        FactorStep::Done(f) => assert_eq!(f.to_vec(), vec![(4999, 1)]),
        other => panic!("unexpected {:?}", other),
    }
    match factor_step(360, &MillerRabinResult::CompositeEven, None, 1024) {
        FactorStep::Done(f) => assert_eq!(f.to_vec(), vec![(2, 3), (3, 2), (5, 1)]),
        other => panic!("unexpected {:?}", other),
    }
    match factor_step(10403, &MillerRabinResult::CompositeWitness(2), Some(101), 1024) {
        FactorStep::Split(g, h) => assert_eq!((g, h), (101, 103)),
        other => panic!("unexpected {:?}", other),
    }
    assert!(matches!(
        factor_step(10403, &MillerRabinResult::CompositeWitness(2), None, 1024),
        FactorStep::Failed
    ));
}

#[test]
fn generator_untouched_without_draws() {
    let mut rng = rand_chacha::ChaCha20Rng::seed_from_u64(5);
    let fresh = rand_chacha::ChaCha20Rng::seed_from_u64(5);
    assert_eq!(pollard_rho_single_factor_repeat(&mut rng, 10403, 0), None);
    assert_eq!(rng, fresh);
    stupid_ec::primes::miller_rabin_with_randomness(&mut rng, 10, 3);
    stupid_ec::primes::miller_rabin_with_randomness(&mut rng, 7, 4);
    assert_eq!(rng, fresh);
}
