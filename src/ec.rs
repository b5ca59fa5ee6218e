//! Elliptic curves in general Weierstrass form
//! `y^2 + a1 x y + a3 y = x^3 + a2 x^2 + a4 x + a6` over the integers
//! modulo `P`, with Silverman's derived quantities.
use vstd::prelude::*;
use vstd::arithmetic::div_mod::{
    lemma_add_mod_noop, lemma_mul_mod_noop_general, lemma_small_mod, lemma_sub_mod_noop,
};
use crate::arith::{gcd, is_prime};
use crate::fields::{
    cong, inverse, lemma_cong_ops, lemma_cong_reduce, lemma_inverse_exists,
    lemma_no_zero_divisors, lemma_nonzero_invertible, reduce, PrimeField,
};

verus! {

/// `reduce` may be applied to the operands of a product, sum or difference.
pub proof fn lemma_reduce_ops(x: int, y: int, p: u64)
    requires
        p > 0,
    ensures
        reduce(reduce(x, p) * reduce(y, p), p) == reduce(x * y, p),
        reduce(x * reduce(y, p), p) == reduce(x * y, p),
        reduce(reduce(x, p) * y, p) == reduce(x * y, p),
        reduce(reduce(x, p) + reduce(y, p), p) == reduce(x + y, p),
        reduce(reduce(x, p) - reduce(y, p), p) == reduce(x - y, p),
        reduce(-reduce(x, p), p) == reduce(-x, p),
{
    let m = p as int;
    lemma_mul_mod_noop_general(x, y, m);
    lemma_add_mod_noop(x, y, m);
    lemma_sub_mod_noop(x, y, m);
    lemma_sub_mod_noop(0, x, m);
    lemma_small_mod(0, p as nat);
}

/// An affine point `(x, y)`, or the point at infinity.
#[derive(Debug)]
pub enum Point<F> {
    Point((F, F)),
    Infinity,
}

/// The curve `y^2 + a_1 x y + a_3 y = x^3 + a_2 x^2 + a_4 x + a_6`.
#[derive(Debug, Clone, Copy)]
pub struct GeneralForm<const P: u64> {
    pub a_1: PrimeField<P>,
    pub a_2: PrimeField<P>,
    pub a_3: PrimeField<P>,
    pub a_4: PrimeField<P>,
    pub a_6: PrimeField<P>,
}

impl<const P: u64> GeneralForm<P> {
    pub open spec fn wf(&self) -> bool {
        &&& self.a_1.wf()
        &&& self.a_2.wf()
        &&& self.a_3.wf()
        &&& self.a_4.wf()
        &&& self.a_6.wf()
    }

    pub open spec fn b2_spec(&self) -> int {
        let (a1, a2) = (self.a_1.val(), self.a_2.val());
        reduce(a1 * a1 + 4 * a2, P)
    }

    pub open spec fn b4_spec(&self) -> int {
        let (a1, a3, a4) = (self.a_1.val(), self.a_3.val(), self.a_4.val());
        reduce(2 * a4 + a1 * a3, P)
    }

    pub open spec fn b6_spec(&self) -> int {
        let (a3, a6) = (self.a_3.val(), self.a_6.val());
        reduce(a3 * a3 + 4 * a6, P)
    }

    pub open spec fn b8_spec(&self) -> int {
        let (a1, a2, a3, a4, a6) = (
            self.a_1.val(),
            self.a_2.val(),
            self.a_3.val(),
            self.a_4.val(),
            self.a_6.val(),
        );
        reduce(a1 * a1 * a6 + 4 * (a2 * a6) - a1 * a3 * a4 + a2 * (a3 * a3) - a4 * a4, P)
    }

    pub open spec fn c4_spec(&self) -> int {
        let (b2, b4) = (self.b2_spec(), self.b4_spec());
        reduce(b2 * b2 - 24 * b4, P)
    }

    pub open spec fn disc_spec(&self) -> int {
        let (b2, b4, b6, b8) = (self.b2_spec(), self.b4_spec(), self.b6_spec(), self.b8_spec());
        reduce(-(b2 * b2 * b8) - 8 * (b4 * b4 * b4) - 27 * (b6 * b6) + 9 * (b2 * b4 * b6), P)
    }

    /// `c4^3 / discriminant`.
    pub open spec fn j_spec(&self) -> int {
        let c4 = self.c4_spec();
        reduce(c4 * c4 * c4 * inverse(self.disc_spec(), P), P)
    }

    /// `(x, y)` satisfies the curve's equation.
    pub open spec fn on_curve_spec(&self, x: int, y: int) -> bool {
        let (a1, a2, a3, a4, a6) = (
            self.a_1.val(),
            self.a_2.val(),
            self.a_3.val(),
            self.a_4.val(),
            self.a_6.val(),
        );
        reduce(y * y + a1 * x * y + a3 * y, P) == reduce(x * x * x + a2 * (x * x) + a4 * x + a6, P)
    }

    /// The curve of coefficients `(a_1, a_2, a_3, a_4, a_6)`.
    pub fn new(
        a_1: PrimeField<P>,
        a_2: PrimeField<P>,
        a_3: PrimeField<P>,
        a_4: PrimeField<P>,
        a_6: PrimeField<P>,
    ) -> (r: Self)
        ensures
            r == (GeneralForm { a_1, a_2, a_3, a_4, a_6 }),
    {
        GeneralForm { a_1, a_2, a_3, a_4, a_6 }
    }

    fn b_2(&self) -> (r: PrimeField<P>)
        requires
            self.wf(),
        ensures
            r.wf(),
            r.val() == self.b2_spec(),
    {
        let r = self.a_1.square().add(&self.a_2.scale(4));
        proof {
            let (a1, a2) = (self.a_1.val(), self.a_2.val());
            lemma_reduce_ops(a1 * a1, 4 * a2, P);
        }
        r
    }

    fn b_4(&self) -> (r: PrimeField<P>)
        requires
            self.wf(),
        ensures
            r.wf(),
            r.val() == self.b4_spec(),
    {
        let r = self.a_4.scale(2).add(&self.a_1.mul(&self.a_3));
        proof {
            let (a1, a3, a4) = (self.a_1.val(), self.a_3.val(), self.a_4.val());
            lemma_reduce_ops(2 * a4, a1 * a3, P);
        }
        r
    }

    fn b_6(&self) -> (r: PrimeField<P>)
        requires
            self.wf(),
        ensures
            r.wf(),
            r.val() == self.b6_spec(),
    {
        let r = self.a_3.square().add(&self.a_6.scale(4));
        proof {
            let (a3, a6) = (self.a_3.val(), self.a_6.val());
            lemma_reduce_ops(a3 * a3, 4 * a6, P);
        }
        r
    }

    fn b_8(&self) -> (r: PrimeField<P>)
        requires
            self.wf(),
        ensures
            r.wf(),
            r.val() == self.b8_spec(),
    {
        let (a1, a2, a3, a4, a6) = (self.a_1, self.a_2, self.a_3, self.a_4, self.a_6);
        let t1 = a1.square().mul(&a6);
        let t2 = a2.mul(&a6).scale(4);
        let t3 = a1.mul(&a3).mul(&a4);
        let t4 = a2.mul(&a3.square());
        let t5 = a4.square();
        let r = t1.add(&t2).sub(&t3).add(&t4).sub(&t5);
        proof {
            let (x1, x2, x3, x4, x6) = (a1.val(), a2.val(), a3.val(), a4.val(), a6.val());
            lemma_small_mod(x6 as nat, P as nat);
            lemma_small_mod(x4 as nat, P as nat);
            lemma_small_mod(x2 as nat, P as nat);
            lemma_reduce_ops(x1 * x1, x6, P);
            lemma_reduce_ops(4, x2 * x6, P);
            lemma_reduce_ops(x1 * x3, x4, P);
            lemma_reduce_ops(x2, x3 * x3, P);
            let (e1, e2, e3, e4, e5) = (x1 * x1 * x6, 4 * (x2 * x6), x1 * x3 * x4, x2 * (x3 * x3), x4 * x4);
            lemma_reduce_ops(e1, e2, P);
            lemma_reduce_ops(e1 + e2, e3, P);
            lemma_reduce_ops(e1 + e2 - e3, e4, P);
            lemma_reduce_ops(e1 + e2 - e3 + e4, e5, P);
        }
        r
    }

    fn c_4(&self) -> (r: PrimeField<P>)
        requires
            self.wf(),
        ensures
            r.wf(),
            r.val() == self.c4_spec(),
    {
        let b2 = self.b_2();
        let b4 = self.b_4();
        let r = b2.square().sub(&b4.scale(24));
        proof {
            lemma_reduce_ops(b2.val() * b2.val(), 24 * b4.val(), P);
        }
        r
    }

    /// The point lies on the curve; the point at infinity always does.
    pub fn is_on_curve(&self, p: &Point<PrimeField<P>>) -> (r: bool)
        requires
            self.wf(),
            p matches Point::Point((x, y)) ==> x.wf() && y.wf(),
        ensures
            r == match p {
                Point::Infinity => true,
                Point::Point((x, y)) => self.on_curve_spec(x.val(), y.val()),
            },
    {
        match p {
            Point::Infinity => true,
            Point::Point((x, y)) => {
                let (a1, a2, a3, a4, a6) = (self.a_1, self.a_2, self.a_3, self.a_4, self.a_6);
                let x2 = x.square();
                let lhs = y.square().add(&a1.mul(x).mul(y)).add(&a3.mul(y));
                let rhs = x2.mul(x).add(&a2.mul(&x2)).add(&a4.mul(x)).add(&a6);
                proof {
                    let (xv, yv) = (x.val(), y.val());
                    let (x1, x2v, x3, x4, x6) = (a1.val(), a2.val(), a3.val(), a4.val(), a6.val());
                    lemma_small_mod(xv as nat, P as nat);
                    lemma_small_mod(yv as nat, P as nat);
                    lemma_small_mod(x6 as nat, P as nat);
                    lemma_reduce_ops(x1 * xv, yv, P);
                    lemma_reduce_ops(yv * yv, x1 * xv * yv, P);
                    lemma_reduce_ops(yv * yv + x1 * xv * yv, x3 * yv, P);
                    lemma_reduce_ops(xv * xv, xv, P);
                    lemma_reduce_ops(x2v, xv * xv, P);
                    lemma_reduce_ops(xv * xv * xv, x2v * (xv * xv), P);
                    lemma_reduce_ops(xv * xv * xv + x2v * (xv * xv), x4 * xv, P);
                    lemma_reduce_ops(xv * xv * xv + x2v * (xv * xv) + x4 * xv, x6, P);
                }
                lhs.el == rhs.el
            },
        }
    }

    pub fn discriminant(&self) -> (r: PrimeField<P>)
        requires
            self.wf(),
        ensures
            r.wf(),
            r.val() == self.disc_spec(),
    {
        let b2 = self.b_2();
        let b4 = self.b_4();
        let b6 = self.b_6();
        let b8 = self.b_8();
        let d1 = b2.square().mul(&b8).neg();
        let d2 = b4.square().mul(&b4).scale(8);
        let d3 = b6.square().scale(27);
        let d4 = b2.mul(&b4).mul(&b6).scale(9);
        let r = d1.sub(&d2).sub(&d3).add(&d4);
        proof {
            let (x2, x4, x6, x8) = (b2.val(), b4.val(), b6.val(), b8.val());
            lemma_small_mod(x8 as nat, P as nat);
            lemma_small_mod(x4 as nat, P as nat);
            lemma_small_mod(x6 as nat, P as nat);
            lemma_reduce_ops(x2 * x2, x8, P);
            lemma_reduce_ops(x2 * x2 * x8, 0, P);
            lemma_reduce_ops(x4 * x4, x4, P);
            lemma_reduce_ops(8, x4 * x4 * x4, P);
            lemma_reduce_ops(27, x6 * x6, P);
            lemma_reduce_ops(x2 * x4, x6, P);
            lemma_reduce_ops(9, x2 * x4 * x6, P);
            let (e1, e2, e3, e4) = (-(x2 * x2 * x8), 8 * (x4 * x4 * x4), 27 * (x6 * x6), 9 * (x2 * x4 * x6));
            lemma_reduce_ops(e1, e2, P);
            lemma_reduce_ops(e1 - e2, e3, P);
            lemma_reduce_ops(e1 - e2 - e3, e4, P);
        }
        r
    }

    /// Singular with a node: zero discriminant, non-zero `c4`.
    pub fn has_node(&self) -> (r: bool)
        requires
            self.wf(),
        ensures
            r == (self.disc_spec() == 0 && self.c4_spec() != 0),
    {
        self.discriminant().is_zero() && !self.c_4().is_zero()
    }

    /// Singular with a cusp: zero discriminant and zero `c4`.
    pub fn has_cusp(&self) -> (r: bool)
        requires
            self.wf(),
        ensures
            r == (self.disc_spec() == 0 && self.c4_spec() == 0),
    {
        self.discriminant().is_zero() && self.c_4().is_zero()
    }

    /// `c4^3 / discriminant`; a singular curve has none.
    pub fn j_invariant(&self) -> (r: PrimeField<P>)
        requires
            self.wf(),
            gcd(self.disc_spec() as nat, P as nat) == 1,
        ensures
            r.wf(),
            r.val() == self.j_spec(),
    {
        let c4 = self.c_4();
        let disc = self.discriminant();
        let cube = c4.square().mul(&c4);
        let inv = disc.invert().unwrap();
        let r = cube.mul(&inv);
        proof {
            let c = c4.val();
            lemma_small_mod(c as nat, P as nat);
            lemma_reduce_ops(c * c, c, P);
            lemma_small_mod(inv.val() as nat, P as nat);
            lemma_reduce_ops(c * c * c, inv.val(), P);
        }
        r
    }

    /// The curve that `from_j_invariant` builds for `j`.
    pub open spec fn from_j_spec(j: PrimeField<P>) -> Self {
        if j.val() == 0 {
            GeneralForm {
                a_1: PrimeField::of(0),
                a_2: PrimeField::of(0),
                a_3: PrimeField::of(1),
                a_4: PrimeField::of(0),
                a_6: PrimeField::of(0),
            }
        } else if j.val() == reduce(1728, P) {
            GeneralForm {
                a_1: PrimeField::of(0),
                a_2: PrimeField::of(0),
                a_3: PrimeField::of(0),
                a_4: PrimeField::of(1),
                a_6: PrimeField::of(0),
            }
        } else {
            let t = inverse(reduce(j.val() - 1728, P), P);
            GeneralForm {
                a_1: PrimeField::of(1),
                a_2: PrimeField::of(0),
                a_3: PrimeField::of(0),
                a_4: PrimeField::of(-36 * t),
                a_6: PrimeField::of(-t),
            }
        }
    }

    /// A curve of j-invariant `j`: `y^2 + y = x^3` for `j = 0`,
    /// `y^2 = x^3 + x` for `j = 1728`, otherwise
    /// `y^2 + x y = x^3 - 36 t x - t` with `t = 1 / (j - 1728)`.
    pub fn from_j_invariant(j: PrimeField<P>) -> (r: Self)
        requires
            is_prime(P as nat),
            j.wf(),
        ensures
            r.wf(),
            r == Self::from_j_spec(j),
    {
        proof {
            lemma_small_mod(0, P as nat);
            lemma_small_mod(1, P as nat);
        }
        if j.is_zero() {
            return GeneralForm {
                a_1: PrimeField::zero(),
                a_2: PrimeField::zero(),
                a_3: PrimeField::one(),
                a_4: PrimeField::zero(),
                a_6: PrimeField::zero(),
            };
        }
        let e1728 = PrimeField::integer_embed(1728);
        if j == e1728 {
            return GeneralForm {
                a_1: PrimeField::zero(),
                a_2: PrimeField::zero(),
                a_3: PrimeField::zero(),
                a_4: PrimeField::one(),
                a_6: PrimeField::zero(),
            };
        }
        let diff = j.sub(&e1728);
        proof {
            lemma_small_mod(j.val() as nat, P as nat);
            lemma_reduce_ops(j.val(), 1728, P);
            if diff.val() == 0 {
                // j - 1728 == 0 (mod P) puts j at 1728.
                vstd::arithmetic::div_mod::lemma_mod_sub_multiples_vanish(j.val() - 1728, P as int);
                assert(reduce(j.val() - reduce(1728, P), P) == 0);
                assert(false) by {
                    let m = P as int;
                    let e = reduce(1728, P);
                    assert(0 <= e < m);
                    assert(-m < j.val() - e < m);
                    if j.val() - e > 0 {
                        lemma_small_mod((j.val() - e) as nat, P as nat);
                    } else if j.val() - e < 0 {
                        vstd::arithmetic::div_mod::lemma_fundamental_div_mod_converse(
                            j.val() - e,
                            m,
                            -1,
                            j.val() - e + m,
                        );
                    }
                }
            }
            lemma_nonzero_invertible(diff);
        }
        let t = diff.invert().unwrap();
        let a_4 = t.scale(-36);
        let a_6 = t.neg();
        GeneralForm { a_1: PrimeField::one(), a_2: PrimeField::zero(), a_3: PrimeField::zero(), a_4, a_6 }
    }

    /// The reflection of a point through the line `y = -(a_1 x + a_3) / 2`:
    /// `(x, y)` goes to `(x, -y - a_1 x - a_3)`; infinity stays put.
    pub fn negate(&self, p: &Point<PrimeField<P>>) -> (r: Point<PrimeField<P>>)
        requires
            self.wf(),
            p matches Point::Point((x, y)) ==> x.wf() && y.wf(),
        ensures
            match p {
                Point::Infinity => r is Infinity,
                Point::Point((x, y)) => r == Point::Point(
                    (*x, PrimeField::<P>::of(-y.val() - self.a_1.val() * x.val() - self.a_3.val())),
                ),
            },
    {
        match p {
            Point::Infinity => Point::Infinity,
            Point::Point((x, y)) => {
                let ny = y.neg().sub(&self.a_1.mul(x)).sub(&self.a_3);
                proof {
                    let (xv, yv, a1, a3) = (x.val(), y.val(), self.a_1.val(), self.a_3.val());
                    lemma_small_mod(yv as nat, P as nat);
                    lemma_small_mod(a3 as nat, P as nat);
                    lemma_reduce_ops(-yv, a1 * xv, P);
                    lemma_reduce_ops(-yv - a1 * xv, a3, P);
                    lemma_reduce_ops(yv, 0, P);
                }
                Point::Point((*x, ny))
            },
        }
    }
}

/// The curve built from `j` has j-invariant `j`, for every `j` other than
/// `0` and `1728`; its discriminant is invertible, as `j_invariant` needs.
pub proof fn lemma_j_invariant_round_trip<const P: u64>(j: PrimeField<P>)
    requires
        is_prime(P as nat),
        j.wf(),
        j.val() != 0,
        j.val() != reduce(1728, P),
    ensures
        gcd(GeneralForm::from_j_spec(j).disc_spec() as nat, P as nat) == 1,
        GeneralForm::from_j_spec(j).j_spec() == j.val(),
{
    let p = P;
    let jv = j.val();
    lemma_small_mod(0, p as nat);
    lemma_small_mod(1, p as nat);
    lemma_small_mod(jv as nat, p as nat);
    // d = j - 1728 is non-zero, with inverse t
    let d = reduce(jv - 1728, p);
    lemma_cong_reduce(jv - 1728, p);
    lemma_cong_reduce(1728, p);
    if d == 0 {
        lemma_cong_ops(jv - 1728, 0, 1728, 1728, p);
        assert(cong(jv, 1728, p));
    }
    crate::arith::lemma_prime_coprime(d as nat, p as nat);
    lemma_small_mod(d as nat, p as nat);
    lemma_inverse_exists(d, p);
    let t = inverse(d, p);
    assert(cong(d * t, 1, p));
    if t == 0 {
        assert(d * 0 == 0);
    }
    lemma_small_mod(t as nat, p as nat);
    let e = GeneralForm::<P>::from_j_spec(j);
    let (a4, a6) = (e.a_4.val(), e.a_6.val());
    lemma_cong_reduce(-36 * t, p);
    lemma_cong_reduce(-t, p);
    assert(e.a_1.val() == 1 && e.a_2.val() == 0 && e.a_3.val() == 0);
    assert(cong(a4, -36 * t, p) && cong(a6, -t, p));
    // the derived quantities, up to congruence
    let u = 1 + 1728 * t;
    let (bb4, bb6, bb8) = (-72 * t, -4 * t, -t - 1296 * (t * t));
    let (b2, b4, b6, b8) = (e.b2_spec(), e.b4_spec(), e.b6_spec(), e.b8_spec());
    assert(e.a_1.val() * e.a_1.val() + 4 * e.a_2.val() == 1);
    assert(b2 == 1);
    lemma_cong_ops(2, 2, a4, -36 * t, p);
    lemma_cong_reduce(2 * a4, p);
    assert(2 * e.a_4.val() + e.a_1.val() * e.a_3.val() == 2 * a4) by (nonlinear_arith)
        requires
            e.a_3.val() == 0,
            a4 == e.a_4.val(),
    ;
    assert(b4 == reduce(2 * a4, p));
    assert(cong(b4, bb4, p));
    lemma_cong_ops(4, 4, a6, -t, p);
    lemma_cong_reduce(4 * a6, p);
    assert(e.a_3.val() * e.a_3.val() + 4 * e.a_6.val() == 4 * a6) by (nonlinear_arith)
        requires
            e.a_3.val() == 0,
            a6 == e.a_6.val(),
    ;
    assert(b6 == reduce(4 * a6, p));
    assert(cong(b6, bb6, p));
    lemma_cong_ops(a4, -36 * t, a4, -36 * t, p);
    lemma_cong_ops(a6, -t, a4 * a4, (-36 * t) * (-36 * t), p);
    assert((-36 * t) * (-36 * t) == 1296 * (t * t)) by (nonlinear_arith);
    lemma_cong_reduce(a6 - a4 * a4, p);
    assert(e.a_1.val() * e.a_1.val() * e.a_6.val() + 4 * (e.a_2.val() * e.a_6.val()) - e.a_1.val()
        * e.a_3.val() * e.a_4.val() + e.a_2.val() * (e.a_3.val() * e.a_3.val()) - e.a_4.val()
        * e.a_4.val() == a6 - a4 * a4) by (nonlinear_arith)
        requires
            e.a_1.val() == 1,
            e.a_2.val() == 0,
            e.a_3.val() == 0,
            a4 == e.a_4.val(),
            a6 == e.a_6.val(),
    ;
    assert(b8 == reduce(a6 - a4 * a4, p));
    assert(cong(b8, bb8, p));
    let c4 = e.c4_spec();
    lemma_cong_ops(24, 24, b4, bb4, p);
    lemma_cong_ops(1, 1, 24 * b4, 24 * bb4, p);
    lemma_cong_reduce(1 - 24 * b4, p);
    assert(c4 == reduce(1 - 24 * b4, p));
    assert(cong(c4, u, p));
    // the discriminant is t u^2
    let disc = e.disc_spec();
    lemma_cong_ops(b4, bb4, b4, bb4, p);
    lemma_cong_ops(b4 * b4, bb4 * bb4, b4, bb4, p);
    lemma_cong_ops(8, 8, b4 * b4 * b4, bb4 * bb4 * bb4, p);
    lemma_cong_ops(b6, bb6, b6, bb6, p);
    lemma_cong_ops(27, 27, b6 * b6, bb6 * bb6, p);
    lemma_cong_ops(b4, bb4, b6, bb6, p);
    lemma_cong_ops(9, 9, b4 * b6, bb4 * bb6, p);
    let (f1, f2, f3, f4) = (-(b2 * b2 * b8), 8 * (b4 * b4 * b4), 27 * (b6 * b6), 9 * (b2 * b4 * b6));
    let (g1, g2, g3, g4) = (-bb8, 8 * (bb4 * bb4 * bb4), 27 * (bb6 * bb6), 9 * (bb4 * bb6));
    lemma_cong_ops(b8, bb8, 0, 0, p);
    assert(f1 == -b8 && f4 == 9 * (b4 * b6));
    lemma_cong_ops(f1, g1, f2, g2, p);
    lemma_cong_ops(f1 - f2, g1 - g2, f3, g3, p);
    lemma_cong_ops(f1 - f2 - f3, g1 - g2 - g3, f4, g4, p);
    lemma_cong_reduce(f1 - f2 - f3 + f4, p);
    assert(g1 - g2 - g3 + g4 == t * (u * u)) by (nonlinear_arith)
        requires
            g1 == -bb8,
            g2 == 8 * (bb4 * bb4 * bb4),
            g3 == 27 * (bb6 * bb6),
            g4 == 9 * (bb4 * bb6),
            bb4 == -72 * t,
            bb6 == -4 * t,
            bb8 == -t - 1296 * (t * t),
            u == 1 + 1728 * t,
    ;
    assert(cong(disc, t * (u * u), p));
    // u is non-zero: d u == d + 1728 d t == j
    lemma_cong_ops(1728, 1728, d * t, 1, p);
    lemma_cong_ops(d, jv - 1728, 1728 * (d * t), 1728, p);
    assert(d * u == d + 1728 * (d * t)) by (nonlinear_arith)
        requires
            u == 1 + 1728 * t,
    ;
    assert(cong(d * u, jv, p));
    if reduce(u, p) == 0 {
        lemma_cong_ops(d, d, u, 0, p);
        assert(d * 0 == 0);
    }
    lemma_no_zero_divisors(u, u, p);
    lemma_no_zero_divisors(t, u * u, p);
    lemma_cong_reduce(disc, p);
    lemma_small_mod(disc as nat, p as nat);
    crate::arith::lemma_prime_coprime(disc as nat, p as nat);
    // j_spec == c4^3 / disc == u^3 / (t u^2) == u d == j
    lemma_inverse_exists(disc, p);
    let w = inverse(disc, p);
    lemma_cong_ops(w, w, disc, t * (u * u), p);
    assert(cong(w * (t * (u * u)), 1, p));
    lemma_cong_ops(c4, u, c4, u, p);
    lemma_cong_ops(c4 * c4, u * u, c4, u, p);
    lemma_cong_ops(c4 * c4 * c4, u * u * u, w, w, p);
    let x = e.j_spec();
    lemma_cong_reduce(c4 * c4 * c4 * w, p);
    assert(cong(x, u * u * u * w, p));
    lemma_cong_ops(u * u * u * w, u * u * u * w, d * t, 1, p);
    assert(u * u * u * w * (d * t) == (u * d) * (w * (t * (u * u)))) by (nonlinear_arith);
    lemma_cong_ops(u * d, u * d, w * (t * (u * u)), 1, p);
    assert(u * d == d * u) by (nonlinear_arith);
    assert(cong(x, jv, p));
    lemma_cong_reduce(c4 * c4 * c4 * w, p);
    lemma_small_mod(x as nat, p as nat);
}

} // verus!
