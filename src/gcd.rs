//! Extended Euclid: the gcd of two naturals with Bézout coefficients.
use vstd::prelude::*;
use crate::arith::{gcd, lemma_gcd_comm};

verus! {

/// The gcd `d` of two naturals, ordered as `a <= n`, with non-negative
/// coefficients whose signs `negative` fixes:
/// `negative` means `-a * a_coeff + n * n_coeff == d`,
/// otherwise `a * a_coeff - n * n_coeff == d`.
#[derive(Debug)]
pub struct GCDResult {
    pub d: u64,
    /// Coefficient of the smaller input.
    pub a_coeff: u64,
    /// Coefficient of the larger input.
    pub n_coeff: u64,
    pub negative: bool,
}

impl GCDResult {

    /// The Bézout identity of the result for the inputs `a <= n`.
    pub open spec fn bezout(&self, a: int, n: int) -> bool {
        if self.negative {
            -a * self.a_coeff + n * self.n_coeff == self.d as int
        } else {
            a * self.a_coeff - n * self.n_coeff == self.d as int
        }
    }
}

pub open spec fn smaller(a: u64, b: u64) -> u64 {
    if a <= b {
        a
    } else {
        b
    }
}

pub open spec fn larger(a: u64, b: u64) -> u64 {
    if a <= b {
        b
    } else {
        a
    }
}

/// Extended gcd of `a` and `b`, in either order: the smaller one is the `a`
/// of the result.
pub fn egcd(a: u64, b: u64) -> (r: GCDResult)
    ensures
        r.d == gcd(a as nat, b as nat),
        if a <= b {
            r.bezout(a as int, b as int)
        } else {
            r.bezout(b as int, a as int)
        },
        smaller(a, b) == 0 ==> r.d == larger(a, b) && r.a_coeff == 0 && r.n_coeff == 1 && r.negative,
        smaller(a, b) > 0 && larger(a, b) % smaller(a, b) == 0 ==> r.d == smaller(a, b) && r.a_coeff
            == 1 && r.n_coeff == 0 && !r.negative,
{
    if a <= b {
        egcd_impl(a, b)
    } else {
        proof {
            lemma_gcd_comm(a as nat, b as nat);
        }
        egcd_impl(b, a)
    }
}

fn egcd_impl(a: u64, n: u64) -> (r: GCDResult)
    requires
        a <= n,
    ensures
        r.d == gcd(a as nat, n as nat),
        r.bezout(a as int, n as int),
        a == 0 ==> r.d == n && r.a_coeff == 0 && r.n_coeff == 1 && r.negative,
        a > 0 && n % a == 0 ==> r.d == a && r.a_coeff == 1 && r.n_coeff == 0 && !r.negative,
{
    proof {
        lemma_gcd_comm(a as nat, n as nat);
        reveal_with_fuel(gcd, 2);
    }
    if a == 0 {
        return GCDResult { d: n, a_coeff: 0, n_coeff: 1, negative: true };
    }
    if n % a == 0 {
        return GCDResult { d: a, a_coeff: 1, n_coeff: 0, negative: false };
    }
    proof {
        if a == n {
            vstd::arithmetic::div_mod::lemma_mod_self_0(a as int);
        }
    }
    egcd_typical(a, n)
}

/// Euclid's algorithm on `(n, a)`; the coefficients follow the continuant
/// recurrence `c[i+1] = c[i-1] + q[i] * c[i]`, two terms at a time.
pub(crate) fn egcd_typical(a: u64, n: u64) -> (r: GCDResult)
    requires
        0 < a < n,
        n % a != 0,
    ensures
        r.d == gcd(a as nat, n as nat),
        r.bezout(a as int, n as int),
{
    proof {
        lemma_gcd_comm(a as nat, n as nat);
    }
    let mut r_prev: u64 = n;
    let mut r_cur: u64 = a;
    let mut u_prev: u64 = 0;
    let mut u_cur: u64 = 1;
    let mut v_prev: u64 = 1;
    let mut v_cur: u64 = 0;
    let mut neg_prev: bool = true;
    while r_cur != 0
        invariant
            gcd(r_prev as nat, r_cur as nat) == gcd(a as nat, n as nat),
            u_cur * r_prev + u_prev * r_cur == n,
            v_cur * r_prev + v_prev * r_cur == a,
            neg_prev ==> -a * u_prev + n * v_prev == r_prev,
            neg_prev ==> a * u_cur - n * v_cur == r_cur,
            !neg_prev ==> a * u_prev - n * v_prev == r_prev,
            !neg_prev ==> -a * u_cur + n * v_cur == r_cur,
        decreases r_cur,
    {
        let q = r_prev / r_cur;
        let r_next = r_prev % r_cur;
        proof {
            let (rp, rc, rn, qi) = (r_prev as int, r_cur as int, r_next as int, q as int);
            assert(rp == rc * qi + rn) by {
                vstd::arithmetic::div_mod::lemma_fundamental_div_mod(rp, rc);
            }
            assert((u_prev + qi * u_cur) * rc + u_cur * rn == n) by (nonlinear_arith)
                requires
                    u_cur * rp + u_prev * rc == n,
                    rp == qi * rc + rn,
            ;
            assert((v_prev + qi * v_cur) * rc + v_cur * rn == a) by (nonlinear_arith)
                requires
                    v_cur * rp + v_prev * rc == a,
                    rp == qi * rc + rn,
            ;
            assert(u_prev + qi * u_cur <= n) by (nonlinear_arith)
                requires
                    (u_prev + qi * u_cur) * rc + u_cur * rn == n,
                    rc >= 1,
                    rn >= 0,
                    u_cur >= 0,
                    u_prev + qi * u_cur >= 0,
            ;
            assert(v_prev + qi * v_cur <= a) by (nonlinear_arith)
                requires
                    (v_prev + qi * v_cur) * rc + v_cur * rn == a,
                    rc >= 1,
                    rn >= 0,
                    v_cur >= 0,
                    v_prev + qi * v_cur >= 0,
            ;
            assert(0 <= qi * u_cur && 0 <= qi * v_cur) by (nonlinear_arith)
                requires
                    qi >= 0,
                    u_cur >= 0,
                    v_cur >= 0,
            ;
            assert(neg_prev ==> -a * (u_prev + qi * u_cur) + n * (v_prev + qi * v_cur) == rn)
                by (nonlinear_arith)
                requires
                    neg_prev ==> -a * u_prev + n * v_prev == rp,
                    neg_prev ==> a * u_cur - n * v_cur == rc,
                    rp == qi * rc + rn,
            ;
            assert(!neg_prev ==> a * (u_prev + qi * u_cur) - n * (v_prev + qi * v_cur) == rn)
                by (nonlinear_arith)
                requires
                    !neg_prev ==> a * u_prev - n * v_prev == rp,
                    !neg_prev ==> -a * u_cur + n * v_cur == rc,
                    rp == qi * rc + rn,
            ;
        }
        let u_next = u_prev + q * u_cur;
        let v_next = v_prev + q * v_cur;
        r_prev = r_cur;
        r_cur = r_next;
        u_prev = u_cur;
        u_cur = u_next;
        v_prev = v_cur;
        v_cur = v_next;
        neg_prev = !neg_prev;
    }
    GCDResult { d: r_prev, a_coeff: u_prev, n_coeff: v_prev, negative: neg_prev }
}

/// Extended gcd of `a < n`, with `a` the smaller input of the result.
pub fn extended_gcd(a: u64, n: u64) -> (r: GCDResult)
    requires
        a < n,
    ensures
        r.d == gcd(a as nat, n as nat),
        r.bezout(a as int, n as int),
        a == 0 ==> r.d == n && r.a_coeff == 0 && r.n_coeff == 1 && r.negative,
        a > 0 && n % a == 0 ==> r.d == a && r.a_coeff == 1 && r.n_coeff == 0 && !r.negative,
{
    egcd_impl(a, n)
}

} // verus!
