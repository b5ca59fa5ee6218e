//! Integers modulo `P`: each element holds its canonical representative in
//! `[0, P)`. For a prime `P` this is the field `GF(P)`.
use vstd::prelude::*;
use vstd::arithmetic::div_mod::{
    lemma_add_mod_noop, lemma_fundamental_div_mod_converse, lemma_mul_mod_noop_general,
    lemma_small_mod,
};
use vstd::arithmetic::power::{lemma_pow_distributes, lemma_pow_mod_noop, pow};
use crate::arith::{gcd, is_prime, lemma_gcd_comm};
use crate::double_and_add::{
    lemma_power_valid, positive_double_and_add, possibly_negative_double_and_add, power, Monoid,
};
use crate::gcd::egcd;
use crate::random::sample_range;

verus! {

/// An element of the integers modulo `P`; `el` is its representative.
#[derive(Clone, Copy, Debug)]
pub struct PrimeField<const P: u64> {
    pub el: u64,
}

/// The field with 4999 elements.
pub type PrimeField4999 = PrimeField<4999>;

impl<const P: u64> PartialEq for PrimeField<P> {
    fn eq(&self, o: &Self) -> (r: bool) {
        self.el == o.el
    }
}

impl<const P: u64> vstd::std_specs::cmp::PartialEqSpecImpl for PrimeField<P> {
    open spec fn obeys_eq_spec() -> bool {
        true
    }

    open spec fn eq_spec(&self, o: &Self) -> bool {
        self.el == o.el
    }
}

impl<const P: u64> Eq for PrimeField<P> {

}

/// `x mod P` as a canonical representative.
pub open spec fn reduce(x: int, p: u64) -> int {
    x % (p as int)
}

/// `y` is an inverse of `x` modulo `p`.
pub open spec fn is_inverse(x: int, y: int, p: u64) -> bool {
    (x * y) % (p as int) == 1
}

/// The inverse of `x` modulo `p`, where there is one.
pub open spec fn inverse(x: int, p: u64) -> int {
    choose|y: int| 0 <= y < p && is_inverse(x, y, p)
}

/// An inverse modulo `p` is unique among the representatives.
pub proof fn lemma_inverse_unique(x: int, y: int, p: u64)
    requires
        p > 1,
        0 <= y < p,
        is_inverse(x, y, p),
    ensures
        inverse(x, p) == y,
{
    let z = inverse(x, p);
    assert(0 <= z < p && is_inverse(x, z, p));
    let m = p as int;
    // y == y * (x * z) == (y * x) * z == z, modulo p
    lemma_mul_mod_noop_general(y, x * z, m);
    lemma_mul_mod_noop_general(x * y, z, m);
    vstd::arithmetic::mul::lemma_mul_is_associative(y, x, z);
    vstd::arithmetic::mul::lemma_mul_is_commutative(y, x);
    lemma_small_mod(y as nat, p as nat);
    lemma_small_mod(z as nat, p as nat);
    assert(y * 1 == y && 1 * z == z);
}

/// `x` and `y` are congruent modulo `p`.
pub open spec fn cong(x: int, y: int, p: u64) -> bool {
    reduce(x, p) == reduce(y, p)
}

/// Congruence is kept by sums, differences and products.
pub proof fn lemma_cong_ops(x: int, xx: int, y: int, yy: int, p: u64)
    requires
        p > 0,
        cong(x, xx, p),
        cong(y, yy, p),
    ensures
        cong(x + y, xx + yy, p),
        cong(x - y, xx - yy, p),
        cong(x * y, xx * yy, p),
        cong(-x, -xx, p),
{
    let m = p as int;
    lemma_add_mod_noop(x, y, m);
    lemma_add_mod_noop(xx, yy, m);
    vstd::arithmetic::div_mod::lemma_sub_mod_noop(x, y, m);
    vstd::arithmetic::div_mod::lemma_sub_mod_noop(xx, yy, m);
    vstd::arithmetic::div_mod::lemma_sub_mod_noop(0, x, m);
    vstd::arithmetic::div_mod::lemma_sub_mod_noop(0, xx, m);
    lemma_mul_mod_noop_general(x, y, m);
    lemma_mul_mod_noop_general(xx, yy, m);
    lemma_small_mod(0, p as nat);
}

/// A representative is congruent to the number it represents.
pub proof fn lemma_cong_reduce(x: int, p: u64)
    requires
        p > 0,
    ensures
        cong(reduce(x, p), x, p),
        0 <= reduce(x, p) < p,
{
    vstd::arithmetic::div_mod::lemma_mod_twice(x, p as int);
    vstd::arithmetic::div_mod::lemma_mod_bound(x, p as int);
}

/// Where `gcd(x mod p, p) == 1`, `x` has an inverse modulo `p`.
pub proof fn lemma_inverse_exists(x: int, p: u64)
    requires
        p > 1,
        gcd(reduce(x, p) as nat, p as nat) == 1,
    ensures
        0 <= inverse(x, p) < p,
        is_inverse(x, inverse(x, p), p),
{
    let m = p as int;
    lemma_cong_reduce(x, p);
    let (u, v) = crate::arith::lemma_bezout(reduce(x, p) as nat, p as nat);
    // (x mod p) u == 1 - p v
    lemma_mul_mod_noop_general(x, u, m);
    lemma_mul_mod_noop_general(x, u % m, m);
    vstd::arithmetic::div_mod::lemma_mod_multiples_vanish(-v, 1, m);
    assert(reduce(x, p) * u == 1 + (-v) * m) by (nonlinear_arith)
        requires
            reduce(x, p) * u + m * v == 1,
    ;
    lemma_small_mod(1, p as nat);
    vstd::arithmetic::div_mod::lemma_mod_bound(u, m);
    assert(0 <= u % m < m && is_inverse(x, u % m, p));
}

/// Modulo a prime, a product of non-zero factors is non-zero.
pub proof fn lemma_no_zero_divisors(a: int, b: int, p: u64)
    requires
        is_prime(p as nat),
        reduce(a, p) != 0,
        reduce(b, p) != 0,
    ensures
        reduce(a * b, p) != 0,
{
    lemma_cong_reduce(a, p);
    crate::arith::lemma_prime_coprime(reduce(a, p) as nat, p as nat);
    lemma_inverse_exists(a, p);
    let ai = inverse(a, p);
    lemma_small_mod(1, p as nat);
    lemma_small_mod(0, p as nat);
    if reduce(a * b, p) == 0 {
        lemma_cong_ops(ai, ai, a * b, 0, p);
        lemma_cong_ops(a * ai, 1, b, b, p);
        assert(ai * (a * b) == (a * ai) * b) by (nonlinear_arith);
        assert(cong(b, 0, p));
    }
}

/// In a prime field every non-zero element is prime to the modulus, so
/// `invert` finds its inverse: `e * invert(e) == one`.
pub proof fn lemma_nonzero_invertible<const P: u64>(e: PrimeField<P>)
    requires
        is_prime(P as nat),
        e.wf(),
        e.val() != 0,
    ensures
        gcd(e.el as nat, P as nat) == 1,
        0 <= inverse(e.val(), P) < P,
        is_inverse(e.val(), inverse(e.val(), P), P),
{
    crate::arith::lemma_prime_coprime(e.el as nat, P as nat);
    lemma_small_mod(e.el as nat, P as nat);
    lemma_inverse_exists(e.val(), P);
}

/// In the field with 4999 elements every non-zero element has an inverse:
/// `e * invert(e) == one`.
pub proof fn lemma_field4999_inverse(e: PrimeField4999)
    requires
        e.wf(),
        e.val() != 0,
    ensures
        gcd(e.el as nat, 4999) == 1,
        0 <= inverse(e.val(), 4999) < 4999,
        is_inverse(e.val(), inverse(e.val(), 4999), 4999),
{
    crate::arith::lemma_4999_is_prime();
    lemma_nonzero_invertible(e);
}

impl<const P: u64> PrimeField<P> {
    /// A usable modulus and a canonical representative.
    pub open spec fn wf(self) -> bool {
        1 < P && self.el < P
    }

    pub open spec fn val(self) -> int {
        self.el as int
    }

    /// The element of representative `v mod P`.
    pub open spec fn of(v: int) -> Self {
        PrimeField { el: reduce(v, P) as u64 }
    }

    /// The class of `el` modulo `P`.
    pub fn new(el: u64) -> (r: Self)
        requires
            1 < P,
        ensures
            r.wf(),
            r.val() == reduce(el as int, P),
    {
        PrimeField { el: el % P }
    }

    pub fn zero() -> (r: Self)
        requires
            1 < P,
        ensures
            r.wf(),
            r.val() == 0,
    {
        PrimeField { el: 0 }
    }

    pub fn one() -> (r: Self)
        requires
            1 < P,
        ensures
            r.wf(),
            r.val() == 1,
    {
        PrimeField { el: 1 }
    }

    pub fn is_zero(&self) -> (r: bool)
        ensures
            r == (self.val() == 0),
    {
        self.el == 0
    }

    pub fn is_one(&self) -> (r: bool)
        ensures
            r == (self.val() == 1),
    {
        self.el == 1
    }

    /// The modulus.
    pub fn characteristic() -> (r: u64)
        ensures
            r == P,
    {
        P
    }

    pub fn add(&self, rhs: &Self) -> (r: Self)
        requires
            self.wf(),
            rhs.wf(),
        ensures
            r.wf(),
            r.val() == reduce(self.val() + rhs.val(), P),
    {
        PrimeField { el: ((self.el as u128 + rhs.el as u128) % (P as u128)) as u64 }
    }

    /// The additive inverse; zero stays zero.
    pub fn neg(&self) -> (r: Self)
        requires
            self.wf(),
        ensures
            r.wf(),
            r.val() == reduce(-self.val(), P),
    {
        if self.el == 0 {
            proof {
                lemma_small_mod(0, P as nat);
            }
            return Self::zero();
        }
        proof {
            lemma_fundamental_div_mod_converse(-self.val(), P as int, -1, P - self.val());
        }
        PrimeField { el: P - self.el }
    }

    pub fn sub(&self, rhs: &Self) -> (r: Self)
        requires
            self.wf(),
            rhs.wf(),
        ensures
            r.wf(),
            r.val() == reduce(self.val() - rhs.val(), P),
    {
        let n = rhs.neg();
        proof {
            lemma_add_mod_noop(self.val() as int, -rhs.val(), P as int);
            lemma_small_mod(self.el as nat, P as nat);
        }
        self.add(&n)
    }

    pub fn mul(&self, rhs: &Self) -> (r: Self)
        requires
            self.wf(),
            rhs.wf(),
        ensures
            r.wf(),
            r.val() == reduce(self.val() * rhs.val(), P),
    {
        proof {
            assert(self.el as u128 * rhs.el as u128 <= u64::MAX as u128 * u64::MAX as u128)
                by (nonlinear_arith)
                requires
                    self.el <= u64::MAX,
                    rhs.el <= u64::MAX,
            ;
        }
        PrimeField { el: ((self.el as u128 * rhs.el as u128) % (P as u128)) as u64 }
    }

    /// The multiplicative inverse, found by extended Euclid against `P`;
    /// `None` exactly when there is none (zero, or a factor shared with `P`).
    pub fn invert(&self) -> (r: Option<Self>)
        requires
            self.wf(),
        ensures
            r.is_some() <==> gcd(self.el as nat, P as nat) == 1,
            r matches Some(y) ==> y.wf() && is_inverse(self.val(), y.val(), P) && y.val() == inverse(
                self.val(),
                P,
            ),
    {
        let res = egcd(self.el, P);
        proof {
            lemma_gcd_comm(self.el as nat, P as nat);
        }
        if res.d != 1 {
            return None;
        }
        let ghost a = self.el as int;
        let ghost p = P as int;
        if res.negative {
            // -a * a_coeff + P * n_coeff == 1
            let y = Self::new(res.a_coeff).neg();
            proof {
                let c = res.a_coeff as int;
                lemma_mul_mod_noop_general(a, -c, p);
                lemma_mul_mod_noop_general(a, c, p);
                assert((a * (-c)) % p == 1) by {
                    assert(a * (-c) == 1 + (-res.n_coeff) * p) by (nonlinear_arith)
                        requires
                            -a * c + p * res.n_coeff == 1,
                    ;
                    vstd::arithmetic::div_mod::lemma_mod_multiples_vanish(-res.n_coeff, 1, p);
                    lemma_small_mod(1, p as nat);
                }
                assert(reduce(-(c % p), P) == reduce(-c, P)) by {
                    vstd::arithmetic::div_mod::lemma_sub_mod_noop(0, c, p);
                    lemma_small_mod(0, p as nat);
                }
                assert((a * (-c % p)) % p == 1);
                lemma_inverse_unique(a, y.val(), P);
            }
            Some(y)
        } else {
            // a * a_coeff - P * n_coeff == 1
            let y = Self::new(res.a_coeff);
            proof {
                let c = res.a_coeff as int;
                lemma_mul_mod_noop_general(a, c, p);
                assert((a * c) % p == 1) by {
                    assert(a * c == 1 + res.n_coeff * p) by (nonlinear_arith)
                        requires
                            a * c - p * res.n_coeff == 1,
                    ;
                    vstd::arithmetic::div_mod::lemma_mod_multiples_vanish(res.n_coeff as int, 1, p);
                    lemma_small_mod(1, p as nat);
                }
                lemma_inverse_unique(a, y.val(), P);
            }
            Some(y)
        }
    }

    /// `i` copies of `self` added together (for negative `i`, of its negative).
    pub fn scale(&self, i: i64) -> (r: Self)
        requires
            self.wf(),
        ensures
            r.wf(),
            r.val() == reduce(i * self.val(), P),
    {
        let m = FieldAdd::<P>;
        let negation = |x: PrimeField<P>| -> (y: PrimeField<P>)
            requires
                x.wf(),
            ensures
                y.wf(),
                y.val() == reduce(-x.val(), P),
            { x.neg() };
        let r = possibly_negative_double_and_add(&m, *self, negation, i);
        proof {
            if i >= 0 {
                lemma_scale_val(*self, i as nat);
            } else {
                let y = choose|y: PrimeField<P>|
                    negation.ensures((*self,), y) && r == power(m, y, (-i) as nat);
                lemma_scale_val(y, (-i) as nat);
                lemma_power_valid(m, y, (-i) as nat);
                lemma_mul_mod_noop_general(-i, -self.val(), P as int);
                assert((-i) * (-self.val()) == i * self.val()) by (nonlinear_arith);
            }
            lemma_power_valid(m, *self, if i >= 0 { i as nat } else { 0 });
        }
        r
    }

    /// `self` to a non-negative power; exponent 0 gives one.
    pub fn positive_pow(&self, e: u64) -> (r: Self)
        requires
            self.wf(),
        ensures
            r.wf(),
            r.val() == reduce(pow(self.val(), e as nat), P),
    {
        let m = FieldMul::<P>;
        let r = positive_double_and_add(&m, *self, e);
        proof {
            lemma_pow_val(*self, e as nat);
            lemma_power_valid(m, *self, e as nat);
        }
        r
    }

    pub fn square(&self) -> (r: Self)
        requires
            self.wf(),
        ensures
            r.wf(),
            r.val() == reduce(self.val() * self.val(), P),
    {
        let r = self.positive_pow(2);
        proof {
            reveal_with_fuel(pow, 3);
            assert(pow(self.val(), 2) == self.val() * self.val());
            lemma_small_mod(0, P as nat);
        }
        r
    }

    /// `self` to a signed power; a negative one inverts first. Exponent 0
    /// gives one; zero, which has no inverse, stays zero under a negative one.
    pub fn pow(&self, i: i64) -> (r: Self)
        requires
            self.wf(),
            i < 0 && self.val() != 0 ==> gcd(self.el as nat, P as nat) == 1,
        ensures
            r.wf(),
            i >= 0 ==> r.val() == reduce(pow(self.val(), i as nat), P),
            i < 0 && self.val() == 0 ==> r.val() == 0,
            i < 0 && self.val() != 0 ==> is_inverse(pow(self.val(), (-i) as nat), r.val(), P),
    {
        if self.is_zero() && i != 0 {
            proof {
                if i > 0 {
                    vstd::arithmetic::power::lemma0_pow(i as nat);
                }
                lemma_small_mod(0, P as nat);
            }
            return Self::zero();
        }
        let m = FieldMul::<P>;
        let inversion = |x: PrimeField<P>| -> (y: PrimeField<P>)
            requires
                x.wf(),
                gcd(x.el as nat, P as nat) == 1,
            ensures
                y.wf(),
                is_inverse(x.val(), y.val(), P),
            { x.invert().unwrap() };
        let r = possibly_negative_double_and_add(&m, *self, inversion, i);
        proof {
            if i >= 0 {
                lemma_pow_val(*self, i as nat);
                lemma_power_valid(m, *self, i as nat);
            } else {
                let k = (-i) as nat;
                let y = choose|y: PrimeField<P>|
                    inversion.ensures((*self,), y) && r == power(m, y, k);
                lemma_pow_val(y, k);
                lemma_power_valid(m, y, k);
                let (a, b, p) = (self.val(), y.val(), P as int);
                lemma_mul_mod_noop_general(pow(a, k), pow(b, k), p);
                lemma_pow_distributes(a, b, k);
                lemma_pow_mod_noop(a * b, k, p);
                vstd::arithmetic::power::lemma1_pow(k);
                lemma_small_mod(1, p as nat);
            }
        }
        r
    }

    /// The image of the integer `i`: `i` copies of one.
    pub fn integer_embed(i: i64) -> (r: Self)
        requires
            1 < P,
        ensures
            r.wf(),
            r.val() == reduce(i as int, P),
    {
        Self::one().scale(i)
    }

    /// A uniformly drawn element.
    pub fn random(rng: &mut rand_chacha::ChaCha20Rng) -> (r: Self)
        requires
            1 < P,
        ensures
            r.wf(),
    {
        PrimeField { el: sample_range(rng, 0, P) }
    }

    /// A uniformly drawn non-zero element.
    pub fn random_non_zero(rng: &mut rand_chacha::ChaCha20Rng) -> (r: Self)
        requires
            1 < P,
        ensures
            r.wf(),
            r.val() != 0,
    {
        PrimeField { el: sample_range(rng, 1, P) }
    }
}

/// Addition modulo `P`, as a monoid.
pub struct FieldAdd<const P: u64>;

/// Multiplication modulo `P`, as a monoid.
pub struct FieldMul<const P: u64>;

impl<const P: u64> Monoid for FieldAdd<P> {
    type Elem = PrimeField<P>;

    open spec fn valid(&self, x: PrimeField<P>) -> bool {
        x.wf()
    }

    open spec fn op_spec(&self, x: PrimeField<P>, y: PrimeField<P>) -> PrimeField<P> {
        PrimeField::of(x.val() + y.val())
    }

    open spec fn identity_spec(&self) -> PrimeField<P> {
        PrimeField { el: 0 }
    }

    fn op(&self, x: PrimeField<P>, y: PrimeField<P>) -> (r: PrimeField<P>) {
        x.add(&y)
    }

    fn identity(&self) -> (r: PrimeField<P>) {
        PrimeField { el: 0 }
    }

    proof fn lemma_closed(&self, x: PrimeField<P>, y: PrimeField<P>) {
    }

    proof fn lemma_identity(&self, x: PrimeField<P>) {
        lemma_small_mod(x.el as nat, P as nat);
    }

    proof fn lemma_associative(&self, x: PrimeField<P>, y: PrimeField<P>, z: PrimeField<P>) {
        let p = P as int;
        lemma_add_mod_noop(x.val() + y.val(), z.val(), p);
        lemma_add_mod_noop(x.val(), y.val() + z.val(), p);
        lemma_small_mod(x.el as nat, P as nat);
        lemma_small_mod(z.el as nat, P as nat);
        assert(x.val() + y.val() + z.val() == x.val() + (y.val() + z.val()));
    }
}

impl<const P: u64> Monoid for FieldMul<P> {
    type Elem = PrimeField<P>;

    open spec fn valid(&self, x: PrimeField<P>) -> bool {
        x.wf()
    }

    open spec fn op_spec(&self, x: PrimeField<P>, y: PrimeField<P>) -> PrimeField<P> {
        PrimeField::of(x.val() * y.val())
    }

    open spec fn identity_spec(&self) -> PrimeField<P> {
        PrimeField { el: 1 }
    }

    fn op(&self, x: PrimeField<P>, y: PrimeField<P>) -> (r: PrimeField<P>) {
        x.mul(&y)
    }

    fn identity(&self) -> (r: PrimeField<P>) {
        PrimeField { el: 1 }
    }

    proof fn lemma_closed(&self, x: PrimeField<P>, y: PrimeField<P>) {
    }

    proof fn lemma_identity(&self, x: PrimeField<P>) {
        lemma_small_mod(x.el as nat, P as nat);
        assert(1 * x.val() == x.val() && x.val() * 1 == x.val());
    }

    proof fn lemma_associative(&self, x: PrimeField<P>, y: PrimeField<P>, z: PrimeField<P>) {
        let p = P as int;
        lemma_mul_mod_noop_general(x.val() * y.val(), z.val(), p);
        lemma_mul_mod_noop_general(x.val(), y.val() * z.val(), p);
        vstd::arithmetic::mul::lemma_mul_is_associative(x.val(), y.val(), z.val());
    }
}

/// Repeated addition computes the integer multiple.
proof fn lemma_scale_val<const P: u64>(b: PrimeField<P>, k: nat)
    requires
        b.wf(),
    ensures
        power(FieldAdd::<P>, b, k).val() == reduce(k * b.val(), P),
    decreases k,
{
    let p = P as int;
    if k == 0 {
        lemma_small_mod(0, P as nat);
    } else {
        lemma_scale_val(b, (k - 1) as nat);
        lemma_add_mod_noop((k - 1) * b.val(), b.val(), p);
        lemma_small_mod(b.el as nat, P as nat);
        assert((k - 1) * b.val() + b.val() == k * b.val()) by (nonlinear_arith);
    }
}

/// Repeated multiplication computes the integer power.
proof fn lemma_pow_val<const P: u64>(b: PrimeField<P>, k: nat)
    requires
        b.wf(),
    ensures
        power(FieldMul::<P>, b, k).val() == reduce(pow(b.val(), k), P),
    decreases k,
{
    let p = P as int;
    reveal(pow);
    if k == 0 {
        lemma_small_mod(1, P as nat);
    } else {
        lemma_pow_val(b, (k - 1) as nat);
        lemma_mul_mod_noop_general(pow(b.val(), (k - 1) as nat), b.val(), p);
        assert(pow(b.val(), (k - 1) as nat) * b.val() == pow(b.val(), k)) by {
            reveal(pow);
            vstd::arithmetic::mul::lemma_mul_is_commutative(pow(b.val(), (k - 1) as nat), b.val());
        }
    }
}

} // verus!
