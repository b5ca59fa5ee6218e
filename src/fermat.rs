//! Fermat's little theorem, and from it: no prime has a failing
//! Miller–Rabin witness.
use vstd::prelude::*;
use vstd::arithmetic::div_mod::lemma_small_mod;
use vstd::arithmetic::power::{lemma_pow_adds, pow};
use crate::arith::is_prime;
use crate::fields::{cong, lemma_cong_ops, lemma_cong_reduce, lemma_no_zero_divisors, reduce};
use crate::primes::{lemma_two_adic, passes, reaches_minus_one, two_adic};

verus! {

/// The binomial coefficient, by Pascal's rule.
pub open spec fn binom(n: nat, k: nat) -> nat
    decreases n,
{
    if k == 0 {
        1
    } else if n == 0 {
        0
    } else {
        binom((n - 1) as nat, (k - 1) as nat) + binom((n - 1) as nat, k)
    }
}

proof fn lemma_binom_high(n: nat, k: nat)
    requires
        k > n,
    ensures
        binom(n, k) == 0,
    decreases n,
{
    if n > 0 {
        lemma_binom_high((n - 1) as nat, (k - 1) as nat);
        lemma_binom_high((n - 1) as nat, k);
    }
}

proof fn lemma_binom_top(n: nat)
    ensures
        binom(n, n) == 1,
    decreases n,
{
    if n > 0 {
        lemma_binom_top((n - 1) as nat);
        lemma_binom_high((n - 1) as nat, n);
    }
}

/// `k C(n, k) == n C(n - 1, k - 1)`.
proof fn lemma_absorption(n: nat, k: nat)
    requires
        n >= 1,
        k >= 1,
    ensures
        k * binom(n, k) == n * binom((n - 1) as nat, (k - 1) as nat),
    decreases n,
{
    let (n1, k1) = ((n - 1) as nat, (k - 1) as nat);
    // C(n, k) == C(n-1, k-1) + C(n-1, k)
    assert(binom(n, k) == binom(n1, k1) + binom(n1, k));
    if n1 == 0 {
        lemma_binom_high(0, k);
        if k1 > 0 {
            lemma_binom_high(0, k1);
        }
        assert(k * binom(n, k) == k * (binom(n1, k1) + binom(n1, k))) by (nonlinear_arith)
            requires
                binom(n, k) == binom(n1, k1) + binom(n1, k),
        ;
        if k1 > 0 {
            assert(k * binom(n, k) == 0) by (nonlinear_arith)
                requires
                    binom(n, k) == 0,
            ;
        }
    } else {
        // k C(n-1, k) == (n-1) C(n-2, k-1)
        lemma_absorption(n1, k);
        let n2 = (n1 - 1) as nat;
        if k1 == 0 {
            assert(binom(n1, k1) == 1);
            assert(binom(n, k) == 1 + binom(n1, 1));
            assert(k * binom(n, k) == n * binom(n1, k1)) by (nonlinear_arith)
                requires
                    k == 1,
                    binom(n, k) == 1 + binom(n1, 1),
                    1 * binom(n1, 1) == n1 * binom(n2, 0),
                    binom(n2, 0) == 1,
                    binom(n1, k1) == 1,
                    n == n1 + 1,
            ;
        } else {
            // (k-1) C(n-1, k-1) == (n-1) C(n-2, k-2)
            lemma_absorption(n1, k1);
            let k2 = (k1 - 1) as nat;
            assert(binom(n1, k1) == binom(n2, k2) + binom(n2, k1));
            assert(k * binom(n, k) == n * binom(n1, k1)) by (nonlinear_arith)
                requires
                    binom(n, k) == binom(n1, k1) + binom(n1, k),
                    k * binom(n1, k) == n1 * binom(n2, k1),
                    k1 * binom(n1, k1) == n1 * binom(n2, k2),
                    binom(n1, k1) == binom(n2, k2) + binom(n2, k1),
                    k == k1 + 1,
                    n == n1 + 1,
            ;
        }
    }
}

/// `sum_{k < m} C(n, k) x^k`.
pub open spec fn binom_sum(n: nat, x: int, m: nat) -> int
    decreases m,
{
    if m == 0 {
        0
    } else {
        binom_sum(n, x, (m - 1) as nat) + binom(n, (m - 1) as nat) * pow(x, (m - 1) as nat)
    }
}

proof fn lemma_binom_sum_one(n: nat, x: int)
    ensures
        binom_sum(n, x, 1) == 1,
{
    reveal(pow);
    assert(pow(x, 0) == 1);
    assert(binom(n, 0) == 1);
    assert(binom_sum(n, x, 0) == 0);
    assert(binom_sum(n, x, 1) == 0 + 1 * 1);
}

/// Pascal's rule, summed: the row `n + 1` from the row `n`.
proof fn lemma_binom_sum_step(n: nat, x: int, m: nat)
    requires
        m >= 1,
    ensures
        binom_sum(n + 1, x, m) == x * binom_sum(n, x, (m - 1) as nat) + binom_sum(n, x, m),
    decreases m,
{
    reveal(pow);
    if m == 1 {
        lemma_binom_sum_one(n + 1, x);
        lemma_binom_sum_one(n, x);
    } else {
        let m1 = (m - 1) as nat;
        let m2 = (m - 2) as nat;
        lemma_binom_sum_step(n, x, m1);
        assert(binom(n + 1, m1) == binom(n, m2) + binom(n, m1));
        assert(pow(x, m1) == x * pow(x, m2));
        assert(binom_sum(n + 1, x, m) == x * binom_sum(n, x, m1) + binom_sum(n, x, m))
            by (nonlinear_arith)
            requires
                binom_sum(n + 1, x, m) == binom_sum(n + 1, x, m1) + binom(n + 1, m1) * pow(x, m1),
                binom_sum(n + 1, x, m1) == x * binom_sum(n, x, m2) + binom_sum(n, x, m1),
                binom_sum(n, x, m1) == binom_sum(n, x, m2) + binom(n, m2) * pow(x, m2),
                binom_sum(n, x, m) == binom_sum(n, x, m1) + binom(n, m1) * pow(x, m1),
                binom(n + 1, m1) == binom(n, m2) + binom(n, m1),
                pow(x, m1) == x * pow(x, m2),
        ;
    }
}

/// The binomial theorem for `(x + 1)^n`.
proof fn lemma_binomial(n: nat, x: int)
    ensures
        pow(x + 1, n) == binom_sum(n, x, n + 1),
    decreases n,
{
    reveal(pow);
    if n == 0 {
        lemma_binom_sum_one(0, x);
    } else {
        let n1 = (n - 1) as nat;
        lemma_binomial(n1, x);
        lemma_binom_sum_step(n1, x, n + 1);
        lemma_binom_high(n1, n);
        assert(binom_sum(n1, x, n + 1) == binom_sum(n1, x, n));
        assert(pow(x + 1, n) == (x + 1) * pow(x + 1, n1));
        assert(pow(x + 1, n) == binom_sum(n, x, n + 1)) by (nonlinear_arith)
            requires
                pow(x + 1, n) == (x + 1) * pow(x + 1, n1),
                pow(x + 1, n1) == binom_sum(n1, x, n),
                binom_sum(n, x, n + 1) == x * binom_sum(n1, x, n) + binom_sum(n1, x, n + 1),
                binom_sum(n1, x, n + 1) == binom_sum(n1, x, n),
        ;
    }
}

/// A prime divides the inner binomial coefficients of its row.
proof fn lemma_prime_divides_binom(p: u64, k: nat)
    requires
        is_prime(p as nat),
        0 < k < p,
    ensures
        reduce(binom(p as nat, k) as int, p) == 0,
{
    lemma_absorption(p as nat, k);
    let c = binom(p as nat, k) as int;
    let q = binom((p - 1) as nat, (k - 1) as nat) as int;
    vstd::arithmetic::div_mod::lemma_mod_multiples_basic(q, p as int);
    assert(k * c == q * p) by (nonlinear_arith)
        requires
            k * c == p * q,
    ;
    lemma_small_mod(k, p as nat);
    if reduce(c, p) != 0 {
        lemma_no_zero_divisors(k as int, c, p);
    }
}

/// Modulo a prime `p`, `(x + 1)^p == x^p + 1`.
proof fn lemma_freshman(p: u64, x: int)
    requires
        is_prime(p as nat),
    ensures
        cong(pow(x + 1, p as nat), pow(x, p as nat) + 1, p),
{
    lemma_binomial(p as nat, x);
    // the terms of index 1 .. p - 1 vanish
    lemma_inner_terms(p, x, p as nat);
    lemma_binom_top(p as nat);
    assert(binom_sum(p as nat, x, (p + 1) as nat) == binom_sum(p as nat, x, p as nat) + pow(x, p as nat));
    lemma_cong_ops(binom_sum(p as nat, x, p as nat), 1, pow(x, p as nat), pow(x, p as nat), p);
}

proof fn lemma_inner_terms(p: u64, x: int, m: nat)
    requires
        is_prime(p as nat),
        1 <= m <= p,
    ensures
        cong(binom_sum(p as nat, x, m), 1, p),
    decreases m,
{
    reveal(pow);
    if m == 1 {
        lemma_binom_sum_one(p as nat, x);
    } else {
        let m1 = (m - 1) as nat;
        lemma_inner_terms(p, x, m1);
        lemma_prime_divides_binom(p, m1);
        let c = binom(p as nat, m1) as int;
        lemma_cong_reduce(c, p);
        lemma_small_mod(0, p as nat);
        lemma_cong_ops(c, 0, pow(x, m1), pow(x, m1), p);
        assert(0 * pow(x, m1) == 0);
        lemma_cong_ops(binom_sum(p as nat, x, m1), 1, c * pow(x, m1), 0, p);
    }
}

/// Fermat's little theorem: `a^p == a` modulo a prime `p`.
pub proof fn lemma_fermat(p: u64, a: nat)
    requires
        is_prime(p as nat),
    ensures
        cong(pow(a as int, p as nat), a as int, p),
    decreases a,
{
    if a == 0 {
        vstd::arithmetic::power::lemma0_pow(p as nat);
    } else {
        let a1 = (a - 1) as nat;
        lemma_fermat(p, a1);
        lemma_freshman(p, a1 as int);
        lemma_cong_ops(pow(a1 as int, p as nat), a1 as int, 1, 1, p);
    }
}

/// `a^(p - 1) == 1` modulo a prime `p` that does not divide `a`.
pub proof fn lemma_fermat_unit(p: u64, a: nat)
    requires
        is_prime(p as nat),
        reduce(a as int, p) != 0,
    ensures
        cong(pow(a as int, (p - 1) as nat), 1, p),
{
    lemma_fermat(p, a);
    reveal(pow);
    let t = pow(a as int, (p - 1) as nat);
    assert(pow(a as int, p as nat) == a * t);
    // a (t - 1) == 0
    lemma_cong_ops(a * t, a as int, a as int, a as int, p);
    assert(a * t - a == a * (t - 1)) by (nonlinear_arith);
    lemma_small_mod(0, p as nat);
    assert(cong(a * (t - 1), 0, p));
    lemma_cong_reduce(0, p);
    if reduce(t - 1, p) != 0 {
        lemma_no_zero_divisors(a as int, t - 1, p);
    }
    lemma_cong_ops(t - 1, 0, 1, 1, p);
}

/// A square root of one modulo a prime is one or minus one.
proof fn lemma_square_root_of_one(p: u64, y: int)
    requires
        is_prime(p as nat),
        cong(y * y, 1, p),
    ensures
        cong(y, 1, p) || reduce(y, p) == p - 1,
{
    lemma_cong_ops(y * y, 1, 1, 1, p);
    assert((y - 1) * (y + 1) == y * y - 1) by (nonlinear_arith);
    lemma_small_mod(0, p as nat);
    if reduce(y - 1, p) != 0 && reduce(y + 1, p) != 0 {
        lemma_no_zero_divisors(y - 1, y + 1, p);
    }
    if reduce(y - 1, p) == 0 {
        lemma_cong_ops(y - 1, 0, 1, 1, p);
    } else {
        // y + 1 == 0, so y == -1 == p - 1
        lemma_cong_ops(y + 1, 0, 1, 1, p);
        vstd::arithmetic::div_mod::lemma_fundamental_div_mod_converse(-1, p as int, -1, p - 1);
    }
}

/// Where `a^(2^r d) == 1` but `a^d != 1`, some earlier square reached `-1`.
proof fn lemma_chain(p: u64, a: nat, d: nat, r: nat)
    requires
        is_prime(p as nat),
        cong(pow(a as int, (pow(2, r) * d) as nat), 1, p),
        pow(a as int, d) % (p as int) != 1,
    ensures
        reaches_minus_one(a, d, p as nat, r),
    decreases r,
{
    reveal(pow);
    lemma_small_mod(1, p as nat);
    if r == 0 {
        assert(pow(2, 0) * d == d);
    } else {
        let r1 = (r - 1) as nat;
        vstd::arithmetic::power::lemma_pow_positive(2, r1);
        let e = (pow(2, r1) * d) as nat;
        let y = pow(a as int, e);
        lemma_pow_adds(a as int, e, e);
        assert(pow(2, r) * d == e + e) by (nonlinear_arith)
            requires
                pow(2, r) == 2 * pow(2, r1),
                e == pow(2, r1) * d,
        ;
        assert(y * y == pow(a as int, (pow(2, r) * d) as nat));
        lemma_square_root_of_one(p, y);
        if reduce(y, p) == p - 1 {
            assert(reaches_minus_one(a, d, p as nat, r));
        } else {
            lemma_chain(p, a, d, r1);
        }
    }
}

/// No witness shows a prime composite.
pub proof fn lemma_prime_passes(n: nat, a: nat)
    requires
        is_prime(n),
        n > 2,
        n <= u64::MAX,
        2 <= a < n,
    ensures
        passes(n, a),
{
    let p = n as u64;
    let (s, d) = two_adic((n - 1) as nat);
    lemma_two_adic((n - 1) as nat);
    lemma_small_mod(a, n);
    lemma_fermat_unit(p, a);
    if pow(a as int, d) % (n as int) != 1 {
        lemma_chain(p, a, d, s);
    }
}

} // verus!
