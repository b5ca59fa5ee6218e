//! Mathematical definitions shared by the whole library.
use vstd::prelude::*;

verus! {

/// The greatest common divisor, by Euclid's recursion.
pub open spec fn gcd(a: nat, b: nat) -> nat
    decreases b,
{
    if b == 0 {
        a
    } else {
        gcd(b, a % b)
    }
}

/// `d` divides `x`.
pub open spec fn divides(d: int, x: int) -> bool {
    exists|k: int| #[trigger] (k * d) == x
}

/// `n` is a prime number.
pub open spec fn is_prime(n: nat) -> bool {
    n >= 2 && forall|d: nat| 2 <= d < n ==> #[trigger] (n % d) != 0
}

/// `gcd` does not depend on the order of its arguments.
pub proof fn lemma_gcd_comm(a: nat, b: nat)
    ensures
        gcd(a, b) == gcd(b, a),
    decreases a + b,
{
    reveal_with_fuel(gcd, 2);
    if a == 0 || b == 0 {
    } else if a < b {
        assert(a % b == a) by { vstd::arithmetic::div_mod::lemma_small_mod(a, b); }
    } else if b < a {
        assert(b % a == b) by { vstd::arithmetic::div_mod::lemma_small_mod(b, a); }
    } else {
    }
}

/// The greatest common divisor divides both of its arguments.
pub proof fn lemma_gcd_divides(a: nat, b: nat)
    ensures
        divides(gcd(a, b) as int, a as int),
        divides(gcd(a, b) as int, b as int),
    decreases b,
{
    if b == 0 {
        assert(0 * (gcd(a, b) as int) == b as int);
        assert(1 * (gcd(a, b) as int) == a as int);
    } else {
        let g = gcd(a, b) as int;
        lemma_gcd_divides(b, a % b);
        let k1 = choose|k: int| #[trigger] (k * g) == b as int;
        let k2 = choose|k: int| #[trigger] (k * g) == (a % b) as int;
        let q = (a / b) as int;
        assert(a as int == q * (b as int) + (a % b) as int) by {
            vstd::arithmetic::div_mod::lemma_fundamental_div_mod(a as int, b as int);
        }
        assert((q * k1 + k2) * g == a as int) by (nonlinear_arith)
            requires
                k1 * g == b as int,
                k2 * g == (a % b) as int,
                a as int == q * (b as int) + (a % b) as int,
        ;
    }
}

/// Bézout's identity: integers `x`, `y` with `a x + b y == gcd(a, b)`.
pub proof fn lemma_bezout(a: nat, b: nat) -> (r: (int, int))
    ensures
        a * r.0 + b * r.1 == gcd(a, b),
    decreases b,
{
    if b == 0 {
        (1, 0)
    } else {
        let (x, y) = lemma_bezout(b, a % b);
        let q = (a / b) as int;
        vstd::arithmetic::div_mod::lemma_fundamental_div_mod(a as int, b as int);
        assert(a * y + b * (x - q * y) == gcd(a, b)) by (nonlinear_arith)
            requires
                b * x + (a % b) * y == gcd(b, a % b),
                gcd(a, b) == gcd(b, a % b),
                a == b * q + a % b,
        ;
        (y, x - q * y)
    }
}

/// A prime is prime to every number strictly between zero and itself.
pub proof fn lemma_prime_coprime(v: nat, p: nat)
    requires
        is_prime(p),
        0 < v < p,
    ensures
        gcd(v, p) == 1,
{
    let g = gcd(v, p);
    lemma_gcd_divides(v, p);
    let k1 = choose|k: int| #[trigger] (k * (g as int)) == v as int;
    let k2 = choose|k: int| #[trigger] (k * (g as int)) == p as int;
    if g == 0 {
        assert(k1 * 0 == 0);
    }
    assert(g <= v) by (nonlinear_arith)
        requires
            k1 * g == v,
            v > 0,
            g > 0,
    ;
    if g >= 2 {
        vstd::arithmetic::div_mod::lemma_mod_multiples_basic(k2, g as int);
        assert(p % g == 0);
    }
}

/// A number with no divisor in `[2, k]`, where `(k + 1)^2 > n`, is prime.
pub proof fn lemma_prime_by_small_divisors(n: nat, k: nat)
    requires
        n >= 2,
        (k + 1) * (k + 1) > n,
        forall|d: nat| 2 <= d <= k ==> #[trigger] (n % d) != 0,
    ensures
        is_prime(n),
{
    assert forall|d: nat| 2 <= d < n implies #[trigger] (n % d) != 0 by {
        if n % d == 0 && d > k {
            let e = n / d;
            vstd::arithmetic::div_mod::lemma_fundamental_div_mod(n as int, d as int);
            assert(n == d * e);
            assert(2 <= e <= k) by (nonlinear_arith)
                requires
                    n == d * e,
                    d >= k + 1,
                    d < n,
                    (k + 1) * (k + 1) > n,
                    e >= 0,
            ;
            vstd::arithmetic::div_mod::lemma_mod_multiples_basic(d as int, e as int);
            vstd::arithmetic::mul::lemma_mul_is_commutative(d as int, e as int);
            assert(n % e == 0);
        }
    }
}

/// The modulus 4999 of the library's standard field is prime.
pub proof fn lemma_4999_is_prime()
    ensures
        is_prime(4999),
{
    assert forall|d: nat| 2 <= d <= 70 implies #[trigger] (4999nat % d) != 0 by {
        if d == 2 {
        } else if d == 3 {
        } else if d == 4 {
        } else if d == 5 {
        } else if d == 6 {
        } else if d == 7 {
        } else if d == 8 {
        } else if d == 9 {
        } else if d == 10 {
        } else if d == 11 {
        } else if d == 12 {
        } else if d == 13 {
        } else if d == 14 {
        } else if d == 15 {
        } else if d == 16 {
        } else if d == 17 {
        } else if d == 18 {
        } else if d == 19 {
        } else if d == 20 {
        } else if d == 21 {
        } else if d == 22 {
        } else if d == 23 {
        } else if d == 24 {
        } else if d == 25 {
        } else if d == 26 {
        } else if d == 27 {
        } else if d == 28 {
        } else if d == 29 {
        } else if d == 30 {
        } else if d == 31 {
        } else if d == 32 {
        } else if d == 33 {
        } else if d == 34 {
        } else if d == 35 {
        } else if d == 36 {
        } else if d == 37 {
        } else if d == 38 {
        } else if d == 39 {
        } else if d == 40 {
        } else if d == 41 {
        } else if d == 42 {
        } else if d == 43 {
        } else if d == 44 {
        } else if d == 45 {
        } else if d == 46 {
        } else if d == 47 {
        } else if d == 48 {
        } else if d == 49 {
        } else if d == 50 {
        } else if d == 51 {
        } else if d == 52 {
        } else if d == 53 {
        } else if d == 54 {
        } else if d == 55 {
        } else if d == 56 {
        } else if d == 57 {
        } else if d == 58 {
        } else if d == 59 {
        } else if d == 60 {
        } else if d == 61 {
        } else if d == 62 {
        } else if d == 63 {
        } else if d == 64 {
        } else if d == 65 {
        } else if d == 66 {
        } else if d == 67 {
        } else if d == 68 {
        } else if d == 69 {
        } else if d == 70 {
        }
    }
    assert((70nat + 1) * (70nat + 1) == 5041) by (nonlinear_arith);
    lemma_prime_by_small_divisors(4999, 70);
}

} // verus!
