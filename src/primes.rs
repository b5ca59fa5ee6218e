//! Miller–Rabin primality testing, per witness, exhaustive and randomized.
use vstd::prelude::*;
use vstd::arithmetic::div_mod::{lemma_fundamental_div_mod, lemma_mul_mod_noop_general};
use vstd::arithmetic::power::{lemma_pow_adds, pow};
use crate::arith::is_prime;
use crate::modular::mod_pow;
use crate::random::sample_range;

verus! {

/// `m == 2^s * d` with `d` odd, as `(s, d)`; zero gives `(0, 0)`.
pub open spec fn two_adic(m: nat) -> (nat, nat)
    decreases m,
{
    if m == 0 || m % 2 == 1 {
        (0, m)
    } else {
        let (s, d) = two_adic(m / 2);
        (s + 1, d)
    }
}

pub proof fn lemma_two_adic(m: nat)
    requires
        m > 0,
    ensures
        m == pow(2, two_adic(m).0) * two_adic(m).1,
        two_adic(m).1 % 2 == 1,
    decreases m,
{
    reveal(pow);
    if m % 2 == 0 {
        lemma_two_adic(m / 2);
        let (s, d) = two_adic(m / 2);
        assert(pow(2, s + 1) == 2 * pow(2, s));
        assert(m == 2 * (m / 2));
        vstd::arithmetic::mul::lemma_mul_is_associative(2, pow(2, s), d as int);
    }
}

/// Squaring `a^d` fewer than `k` times reaches `n - 1` modulo `n`.
pub open spec fn reaches_minus_one(a: nat, d: nat, n: nat, k: nat) -> bool
    decreases k,
{
    k > 0 && (reaches_minus_one(a, d, n, (k - 1) as nat) || pow(
        a as int,
        (pow(2, (k - 1) as nat) * d) as nat,
    ) % (n as int) == n - 1)
}

/// `a` does not show the odd `n > 2` composite: with `n - 1 == 2^s * d`,
/// `a^d == 1`, or `a^(2^r * d) == n - 1` for some `r < s`, modulo `n`.
pub open spec fn passes(n: nat, a: nat) -> bool {
    let (s, d) = two_adic((n - 1) as nat);
    pow(a as int, d) % (n as int) == 1 || reaches_minus_one(a, d, n, s)
}

/// The outcome of a primality test.
#[derive(Debug, Clone, PartialEq, Eq, Structural)]
pub enum MillerRabinResult {
    CertainPrime,
    PossiblePrime,
    CompositeWitness(u64),
    CompositeEven,
    Zero,
    One,
}

impl MillerRabinResult {
    pub open spec fn spec_is_composite(self) -> bool {
        !(self is PossiblePrime || self is CertainPrime)
    }

    /// Not shown composite.
    pub fn is_prime(&self) -> (r: bool)
        ensures
            r == !self.spec_is_composite(),
    {
        !self.is_composite()
    }

    pub fn is_composite(&self) -> (r: bool)
        ensures
            r == self.spec_is_composite(),
    {
        match self {
            MillerRabinResult::PossiblePrime | MillerRabinResult::CertainPrime => false,
            _ => true,
        }
    }
}

/// The verdict that needs no witness: for zero, one, two and even numbers.
pub open spec fn trivial_verdict(n: nat) -> Option<MillerRabinResult> {
    if n == 0 {
        Some(MillerRabinResult::Zero)
    } else if n == 1 {
        Some(MillerRabinResult::One)
    } else if n == 2 {
        Some(MillerRabinResult::CertainPrime)
    } else if n % 2 == 0 {
        Some(MillerRabinResult::CompositeEven)
    } else {
        None
    }
}

/// Every witness from `a` up to `n - 1` in turn: the first that fails, or a
/// certain prime.
pub open spec fn sweep(n: nat, a: nat) -> MillerRabinResult
    decreases n - a,
{
    if a >= n {
        MillerRabinResult::CertainPrime
    } else if !passes(n, a) {
        MillerRabinResult::CompositeWitness(a as u64)
    } else {
        sweep(n, a + 1)
    }
}

/// The exhaustive verdict on `n`.
pub open spec fn deterministic_verdict(n: nat) -> MillerRabinResult {
    match trivial_verdict(n) {
        Some(v) => v,
        None => sweep(n, 2),
    }
}

/// `(s, d)` with `n - 1 == 2^s * d` and `d` odd.
pub fn rewrite_n(n: u64) -> (r: (usize, u64))
    requires
        n % 2 == 1,
        n > 1,
    ensures
        (r.0 as nat, r.1 as nat) == two_adic((n - 1) as nat),
        n - 1 == pow(2, r.0 as nat) * r.1,
        r.1 % 2 == 1,
{
    let mut d: u64 = n - 1;
    let mut s: u64 = 0;
    proof {
        reveal(pow);
    }
    while d % 2 == 0
        invariant
            d > 0,
            s < 64,
            two_adic((n - 1) as nat) == ((s + two_adic(d as nat).0) as nat, two_adic(d as nat).1),
            pow(2, s as nat) * d == n - 1,
        decreases d,
    {
        proof {
            reveal(pow);
            assert(pow(2, (s + 1) as nat) == 2 * pow(2, s as nat));
            vstd::arithmetic::mul::lemma_mul_is_associative(2, pow(2, s as nat), (d / 2) as int);
            if s + 1 >= 64 {
                vstd::arithmetic::power::lemma_pow_increases(2, 64, (s + 1) as nat);
                vstd::arithmetic::power2::lemma2_to64();
                vstd::arithmetic::power2::lemma_pow2(64);
                assert(pow(2, s as nat) * d >= pow(2, (s + 1) as nat)) by (nonlinear_arith)
                    requires
                        d >= 2,
                        pow(2, (s + 1) as nat) == 2 * pow(2, s as nat),
                        pow(2, s as nat) >= 0,
                ;
            }
        }
        proof {
            assert(pow(2, (s + 1) as nat) * (d / 2) == n - 1) by (nonlinear_arith)
                requires
                    pow(2, (s + 1) as nat) == 2 * pow(2, s as nat),
                    pow(2, s as nat) * d == n - 1,
                    d % 2 == 0,
            ;
        }
        d = d / 2;
        s = s + 1;
    }
    proof {
        lemma_two_adic(d as nat);
    }
    (s as usize, d)
}

struct InnerRabinState {
    n: u64,
    n_1: u64,
    s: usize,
    d: u64,
}

impl InnerRabinState {
    spec fn wf(&self) -> bool {
        &&& self.n > 2
        &&& self.n % 2 == 1
        &&& self.n_1 == self.n - 1
        &&& (self.s as nat, self.d as nat) == two_adic((self.n - 1) as nat)
    }

    fn new(n: u64) -> (r: Self)
        requires
            n > 2,
            n % 2 == 1,
        ensures
            r.wf(),
            r.n == n,
    {
        let (s, d) = rewrite_n(n);
        InnerRabinState { n, n_1: n - 1, s, d }
    }
}

fn state_setup(n: u64) -> (r: Result<InnerRabinState, MillerRabinResult>)
    ensures
        match r {
            Ok(state) => trivial_verdict(n as nat) is None && state.wf() && state.n == n,
            Err(v) => trivial_verdict(n as nat) == Some(v),
        },
{
    if n == 0 {
        return Err(MillerRabinResult::Zero);
    }
    if n == 1 {
        return Err(MillerRabinResult::One);
    }
    if n == 2 {
        return Err(MillerRabinResult::CertainPrime);
    }
    if n % 2 == 0 {
        return Err(MillerRabinResult::CompositeEven);
    }
    Ok(InnerRabinState::new(n))
}

/// `(x mod n)^2 mod n` is the next term of the squaring chain.
proof fn lemma_square_step(a: nat, e: nat, n: int, x: int)
    requires
        n > 0,
        x == pow(a as int, e) % n,
    ensures
        (x * x) % n == pow(a as int, 2 * e) % n,
{
    lemma_pow_adds(a as int, e, e);
    assert(e + e == 2 * e);
    lemma_mul_mod_noop_general(pow(a as int, e), pow(a as int, e), n);
}

fn inner_miller_rabin_step(state: &InnerRabinState, a: u64) -> (r: MillerRabinResult)
    requires
        state.wf(),
    ensures
        r == if passes(state.n as nat, a as nat) {
            MillerRabinResult::PossiblePrime
        } else {
            MillerRabinResult::CompositeWitness(a)
        },
{
    let n = state.n;
    let ghost (gn, ga, gd) = (n as nat, a as nat, state.d as nat);
    let mut x = mod_pow(a, state.d, n);
    proof {
        reveal(pow);
        assert(pow(2, 0) * gd == gd);
        reveal_with_fuel(reaches_minus_one, 2);
    }
    proof {
        lemma_two_adic((gn - 1) as nat);
        if state.s == 0 {
            reveal(pow);
        }
        assert(state.s >= 1);
    }
    if x == state.n_1 || x == 1 {
        proof {
            if x == state.n_1 {
                assert(reaches_minus_one(ga, gd, gn, 1));
                lemma_reaches_mono(ga, gd, gn, 1, state.s as nat);
            }
        }
        return MillerRabinResult::PossiblePrime;
    }
    let mut i: usize = 1;
    while i < state.s
        invariant
            state.wf(),
            n == state.n,
            gn == n,
            ga == a,
            gd == state.d,
            1 <= i <= state.s,
            x == pow(ga as int, (pow(2, (i - 1) as nat) * gd) as nat) % (gn as int),
            pow(ga as int, gd) % (gn as int) != 1,
            !reaches_minus_one(ga, gd, gn, i as nat),
        decreases state.s - i,
    {
        let ghost e = (pow(2, (i - 1) as nat) * gd) as nat;
        proof {
            reveal(pow);
            assert(pow(2, i as nat) == 2 * pow(2, (i - 1) as nat));
            vstd::arithmetic::mul::lemma_mul_is_associative(2, pow(2, (i - 1) as nat), gd as int);
            lemma_square_step(ga, e, gn as int, x as int);
            vstd::arithmetic::power::lemma_pow_positive(2, (i - 1) as nat);
            assert(2 * e == pow(2, i as nat) * gd) by (nonlinear_arith)
                requires
                    e == pow(2, (i - 1) as nat) * gd,
                    pow(2, i as nat) == 2 * pow(2, (i - 1) as nat),
            ;
            assert(((i + 1) - 1) as nat == i as nat);
            assert(x as u128 * x as u128 <= u64::MAX as u128 * u64::MAX as u128)
                by (nonlinear_arith)
                requires
                    x <= u64::MAX,
            ;
        }
        x = ((x as u128 * x as u128) % (n as u128)) as u64;
        assert(x == pow(ga as int, (pow(2, i as nat) * gd) as nat) % (gn as int));
        if x == state.n_1 {
            proof {
                assert(((i + 1) - 1) as nat == i as nat);
                assert(reaches_minus_one(ga, gd, gn, (i + 1) as nat));
                lemma_reaches_mono(ga, gd, gn, (i + 1) as nat, state.s as nat);
            }
            return MillerRabinResult::PossiblePrime;
        }
        i = i + 1;
    }
    MillerRabinResult::CompositeWitness(a)
}

/// One Miller–Rabin round on `n` with witness `a`; only a composite verdict
/// is certain.
pub fn miller_rabin_step(n: u64, a: u64) -> (r: MillerRabinResult)
    ensures
        r == match trivial_verdict(n as nat) {
            Some(v) => v,
            None => if passes(n as nat, a as nat) {
                MillerRabinResult::PossiblePrime
            } else {
                MillerRabinResult::CompositeWitness(a)
            },
        },
{
    match state_setup(n) {
        Err(res) => res,
        Ok(state) => inner_miller_rabin_step(&state, a),
    }
}

fn deterministic_miller_rabin_inner(state: &InnerRabinState) -> (r: MillerRabinResult)
    requires
        state.wf(),
    ensures
        r == sweep(state.n as nat, 2),
{
    let mut a: u64 = 2;
    while a < state.n
        invariant
            state.wf(),
            2 <= a <= state.n,
            sweep(state.n as nat, 2) == sweep(state.n as nat, a as nat),
        decreases state.n - a,
    {
        let partial_res = inner_miller_rabin_step(state, a);
        if partial_res.is_composite() {
            return partial_res;
        }
        a = a + 1;
    }
    MillerRabinResult::CertainPrime
}

/// Every witness in `[2, n)` in turn: a certain verdict either way.
pub fn deterministic_miller_rabin(n: u64) -> (r: MillerRabinResult)
    ensures
        r == deterministic_verdict(n as nat),
        r == MillerRabinResult::CertainPrime <==> is_prime(n as nat),
{
    proof {
        lemma_certain_prime(n as nat);
        if is_prime(n as nat) {
            lemma_prime_not_composite(n as nat);
        }
    }
    match state_setup(n) {
        Err(res) => res,
        Ok(state) => deterministic_miller_rabin_inner(&state),
    }
}

/// Up to `rounds` witnesses drawn from `[2, n)`; where `rounds` would cover
/// that whole range, every witness is tried instead.
pub fn miller_rabin_with_randomness(
    rng: &mut rand_chacha::ChaCha20Rng,
    n: u64,
    rounds: usize,
) -> (r: MillerRabinResult)
    ensures
        trivial_verdict(n as nat) matches Some(v) ==> r == v,
        trivial_verdict(n as nat) is None && rounds >= n - 3 ==> r == sweep(n as nat, 2),
        trivial_verdict(n as nat) is None && rounds < n - 3 ==> match r {
            MillerRabinResult::PossiblePrime => true,
            MillerRabinResult::CompositeWitness(a) => 2 <= a < n && !passes(n as nat, a as nat),
            _ => false,
        },
        r == MillerRabinResult::CertainPrime ==> is_prime(n as nat),
        is_prime(n as nat) ==> !r.spec_is_composite(),
        trivial_verdict(n as nat) is Some || rounds >= n - 3 ==> *final(rng) == *old(rng),
{
    proof {
        lemma_certain_prime(n as nat);
        if is_prime(n as nat) {
            lemma_prime_not_composite(n as nat);
        }
    }
    let state = match state_setup(n) {
        Err(res) => {
            return res;
        },
        Ok(state) => state,
    };
    if rounds as u64 >= state.n - 3 {
        return deterministic_miller_rabin_inner(&state);
    }
    let mut i: usize = 0;
    while i < rounds
        invariant
            state.wf(),
            state.n == n,
            rounds < n - 3,
            is_prime(n as nat) ==> forall|b: nat| 2 <= b < n ==> passes(n as nat, b),
        decreases rounds - i,
    {
        let a = sample_range(rng, 2, state.n);
        let partial_res = inner_miller_rabin_step(&state, a);
        if partial_res.is_composite() {
            return partial_res;
        }
        i = i + 1;
    }
    MillerRabinResult::PossiblePrime
}

/// Miller–Rabin with `rounds` witnesses drawn from an entropy-seeded generator.
pub fn miller_rabin(n: u64, rounds: usize) -> (r: MillerRabinResult)
    ensures
        trivial_verdict(n as nat) matches Some(v) ==> r == v,
        trivial_verdict(n as nat) is None && rounds >= n - 3 ==> r == sweep(n as nat, 2),
        trivial_verdict(n as nat) is None && rounds < n - 3 ==> match r {
            MillerRabinResult::PossiblePrime => true,
            MillerRabinResult::CompositeWitness(a) => 2 <= a < n && !passes(n as nat, a as nat),
            _ => false,
        },
        r == MillerRabinResult::CertainPrime ==> is_prime(n as nat),
        r matches MillerRabinResult::CompositeWitness(a) ==> !passes(n as nat, a as nat),
        is_prime(n as nat) ==> !r.spec_is_composite(),
{
    proof {
        if trivial_verdict(n as nat) is None && sweep(n as nat, 2) is CompositeWitness {
            lemma_sweep_witness(n as nat, 2);
        }
    }
    let mut rng = crate::random::entropy_rng();
    miller_rabin_with_randomness(&mut rng, n, rounds)
}

/// Any proper divisor `a` of `n` fails as a witness: every power of `a` taken
/// modulo `n` stays a multiple of `a`, which neither `1` nor `n - 1` is.
proof fn lemma_divisor_fails(n: nat, a: nat, e: nat)
    requires
        n > 2,
        2 <= a < n,
        n % a == 0,
        e >= 1,
    ensures
        pow(a as int, e) % (n as int) != 1,
        pow(a as int, e) % (n as int) != n - 1,
{
    reveal(pow);
    let pw = pow(a as int, e);
    let x = pw % (n as int);
    let k1 = pow(a as int, (e - 1) as nat);
    assert(pw == a * k1);
    let k2 = (n / a) as int;
    lemma_fundamental_div_mod(n as int, a as int);
    lemma_fundamental_div_mod(pw, n as int);
    let q = pw / (n as int);
    assert(x == a * (k1 - k2 * q)) by (nonlinear_arith)
        requires
            pw == a * k1,
            n == a * k2,
            pw == n * q + x,
    ;
    let m = k1 - k2 * q;
    if x == 1 {
        assert(false) by (nonlinear_arith)
            requires
                a * m == 1,
                a >= 2,
        ;
    }
    if x == n - 1 {
        assert(a * (k2 - m) == 1) by (nonlinear_arith)
            requires
                a * m == n - 1,
                n == a * k2,
        ;
        assert(false) by (nonlinear_arith)
            requires
                a * (k2 - m) == 1,
                a >= 2,
        ;
    }
}

proof fn lemma_divisor_not_reached(n: nat, a: nat, d: nat, k: nat)
    requires
        n > 2,
        2 <= a < n,
        n % a == 0,
        d >= 1,
    ensures
        !reaches_minus_one(a, d, n, k),
    decreases k,
{
    if k > 0 {
        lemma_divisor_not_reached(n, a, d, (k - 1) as nat);
        vstd::arithmetic::power::lemma_pow_positive(2, (k - 1) as nat);
        assert(pow(2, (k - 1) as nat) * d >= 1) by (nonlinear_arith)
            requires
                pow(2, (k - 1) as nat) > 0,
                d >= 1,
        ;
        lemma_divisor_fails(n, a, (pow(2, (k - 1) as nat) * d) as nat);
    }
}

proof fn lemma_reaches_mono(a: nat, d: nat, n: nat, k: nat, l: nat)
    requires
        k <= l,
        reaches_minus_one(a, d, n, k),
    ensures
        reaches_minus_one(a, d, n, l),
    decreases l - k,
{
    if k < l {
        lemma_reaches_mono(a, d, n, k, (l - 1) as nat);
    }
}

/// A witness that `sweep` reports fails.
proof fn lemma_sweep_witness(n: nat, a: nat)
    requires
        n <= u64::MAX,
        sweep(n, a) matches MillerRabinResult::CompositeWitness(_),
    ensures
        sweep(n, a) matches MillerRabinResult::CompositeWitness(w) && a <= w < n && !passes(
            n,
            w as nat,
        ),
    decreases n - a,
{
    if a < n && passes(n, a) {
        lemma_sweep_witness(n, a + 1);
    }
}

/// On a prime the sweep finds no failing witness.
pub proof fn lemma_prime_sweep(n: nat, a: nat)
    requires
        is_prime(n),
        n > 2,
        n <= u64::MAX,
        2 <= a,
    ensures
        sweep(n, a) == MillerRabinResult::CertainPrime,
    decreases n - a,
{
    if a < n {
        crate::fermat::lemma_prime_passes(n, a);
        lemma_prime_sweep(n, a + 1);
    }
}

/// Miller–Rabin never shows a prime composite.
pub proof fn lemma_prime_not_composite(n: nat)
    requires
        is_prime(n),
        n <= u64::MAX,
    ensures
        trivial_verdict(n) is None ==> sweep(n, 2) == MillerRabinResult::CertainPrime,
        trivial_verdict(n) is None ==> forall|a: nat| 2 <= a < n ==> passes(n, a),
        trivial_verdict(n) matches Some(v) ==> v == MillerRabinResult::CertainPrime,
{
    if n > 2 && n % 2 == 0 {
        assert(n % 2 != 0);
    }
    if trivial_verdict(n) is None {
        lemma_prime_sweep(n, 2);
        assert forall|a: nat| 2 <= a < n implies passes(n, a) by {
            crate::fermat::lemma_prime_passes(n, a);
        }
    }
}

/// The exhaustive sweep is never merely probable.
pub proof fn lemma_sweep_never_possible(n: nat, a: nat)
    ensures
        !(sweep(n, a) is PossiblePrime),
    decreases n - a,
{
    if a < n && passes(n, a) {
        lemma_sweep_never_possible(n, a + 1);
    }
}

/// Where every witness in `[a, n)` passes, `sweep` certifies.
proof fn lemma_sweep_all_pass(n: nat, a: nat)
    requires
        sweep(n, a) == MillerRabinResult::CertainPrime,
    ensures
        forall|b: nat| a <= b < n ==> passes(n, b),
    decreases n - a,
{
    if a < n {
        lemma_sweep_all_pass(n, a + 1);
    }
}

/// An exhaustive sweep that finds no failing witness proves `n` prime: a
/// composite `n` has a proper divisor, and that divisor fails.
pub proof fn lemma_certain_prime(n: nat)
    ensures
        deterministic_verdict(n) == MillerRabinResult::CertainPrime ==> is_prime(n),
        trivial_verdict(n) is None && sweep(n, 2) == MillerRabinResult::CertainPrime ==> is_prime(
            n,
        ),
{
    if trivial_verdict(n) is None && sweep(n, 2) == MillerRabinResult::CertainPrime {
        lemma_sweep_all_pass(n, 2);
        if !is_prime(n) {
            let a = choose|a: nat| 2 <= a < n && #[trigger] (n % a) == 0;
            let (s, d) = two_adic((n - 1) as nat);
            lemma_two_adic((n - 1) as nat);
            lemma_divisor_fails(n, a, d);
            lemma_divisor_not_reached(n, a, d, s);
            assert(passes(n, a));
        }
    }
    if deterministic_verdict(n) == MillerRabinResult::CertainPrime && trivial_verdict(n) is Some {
        assert(n == 2);
        assert forall|d: nat| 2 <= d < n implies #[trigger] (n % d) != 0 by {}
    }
}

} // verus!
