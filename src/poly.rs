//! Dense polynomials over the integers modulo `P`: coefficient lists in
//! ascending degree, with trailing zeros stripped.
use vstd::prelude::*;
use vstd::arithmetic::div_mod::{lemma_add_mod_noop, lemma_mul_mod_noop_general, lemma_small_mod};
use vstd::arithmetic::power::pow;
use crate::arith::gcd;
use crate::fields::{reduce, PrimeField};

verus! {

/// Coefficient `i`, zero outside the list.
pub open spec fn coef(s: Seq<int>, i: int) -> int {
    if 0 <= i < s.len() {
        s[i]
    } else {
        0
    }
}

/// The list without its trailing zeros.
pub open spec fn strip(s: Seq<int>) -> Seq<int>
    decreases s.len(),
{
    if s.len() > 0 && s.last() == 0 {
        strip(s.drop_last())
    } else {
        s
    }
}

/// No trailing zero: the empty list is the zero polynomial.
pub open spec fn canonical(s: Seq<int>) -> bool {
    s.len() == 0 || s.last() != 0
}

/// Canonical, with every coefficient a representative modulo `p`.
pub open spec fn poly_wf(s: Seq<int>, p: u64) -> bool {
    &&& 1 < p
    &&& canonical(s)
    &&& forall|i: int| 0 <= i < s.len() ==> 0 <= #[trigger] s[i] < p
}

/// The representatives of a list of field elements.
pub open spec fn vals<const P: u64>(v: Seq<PrimeField<P>>) -> Seq<int> {
    v.map_values(|c: PrimeField<P>| c.val())
}

/// Coefficientwise sum.
pub open spec fn add_spec(a: Seq<int>, b: Seq<int>, p: u64) -> Seq<int> {
    strip(
        Seq::new(
            if a.len() >= b.len() {
                a.len()
            } else {
                b.len()
            },
            |i: int| reduce(coef(a, i) + coef(b, i), p),
        ),
    )
}

/// `sum_{i < m} a_i * b_(k - i)`.
pub open spec fn conv_upto(a: Seq<int>, b: Seq<int>, k: int, m: int) -> int
    decreases m,
{
    if m <= 0 {
        0
    } else {
        conv_upto(a, b, k, m - 1) + coef(a, m - 1) * coef(b, k - (m - 1))
    }
}

/// Coefficient `k` of the product, over the integers.
pub open spec fn conv(a: Seq<int>, b: Seq<int>, k: int) -> int {
    conv_upto(a, b, k, a.len() as int)
}

/// The product.
pub open spec fn mul_spec(a: Seq<int>, b: Seq<int>, p: u64) -> Seq<int> {
    strip(Seq::new(a.len() + b.len(), |k: int| reduce(conv(a, b, k), p)))
}

/// `sum_i a_i * x^i`, over the integers.
pub open spec fn eval_spec(a: Seq<int>, x: int) -> int
    decreases a.len(),
{
    if a.len() == 0 {
        0
    } else {
        eval_spec(a.drop_last(), x) + a.last() * pow(x, (a.len() - 1) as nat)
    }
}

proof fn lemma_strip(s: Seq<int>)
    ensures
        canonical(strip(s)),
        strip(s).len() <= s.len(),
        forall|i: int| #[trigger] coef(strip(s), i) == coef(s, i),
        forall|i: int| 0 <= i < strip(s).len() ==> strip(s)[i] == s[i],
    decreases s.len(),
{
    if s.len() > 0 && s.last() == 0 {
        lemma_strip(s.drop_last());
        assert forall|i: int| #[trigger] coef(strip(s), i) == coef(s, i) by {
            assert(coef(strip(s.drop_last()), i) == coef(s.drop_last(), i));
        }
        assert forall|i: int| 0 <= i < strip(s).len() implies strip(s)[i] == s[i] by {
            assert(strip(s.drop_last())[i] == s.drop_last()[i]);
        }
    }
}

proof fn lemma_strip_canonical(s: Seq<int>)
    requires
        canonical(s),
    ensures
        strip(s) == s,
{
}

/// Two canonical lists with the same coefficients are equal.
proof fn lemma_canonical_ext(a: Seq<int>, b: Seq<int>)
    requires
        canonical(a),
        canonical(b),
        forall|i: int| #[trigger] coef(a, i) == coef(b, i),
    ensures
        a == b,
{
    if a.len() < b.len() {
        assert(coef(a, b.len() - 1) == coef(b, b.len() - 1));
    } else if b.len() < a.len() {
        assert(coef(a, a.len() - 1) == coef(b, a.len() - 1));
    } else {
        assert forall|i: int| 0 <= i < a.len() implies a[i] == b[i] by {
            assert(coef(a, i) == coef(b, i));
        }
        assert(a =~= b);
    }
}

/// A polynomial over the integers modulo `P`, coefficients in ascending
/// degree, without trailing zeros.
#[derive(Debug, Clone)]
pub struct DensePolynomial<const P: u64> {
    coeff: Vec<PrimeField<P>>,
}

impl<const P: u64> View for DensePolynomial<P> {
    type V = Seq<int>;

    closed spec fn view(&self) -> Seq<int> {
        vals(self.coeff@)
    }
}

impl<const P: u64> DensePolynomial<P> {
    pub open spec fn wf(&self) -> bool {
        poly_wf(self@, P)
    }

    spec fn inner_wf(&self) -> bool {
        &&& 1 < P
        &&& canonical(self@)
        &&& forall|i: int| 0 <= i < self.coeff.len() ==> (#[trigger] self.coeff@[i]).wf()
    }

    proof fn lemma_wf(&self)
        ensures
            self@.len() == self.coeff@.len(),
            forall|i: int| 0 <= i < self.coeff.len() ==> self@[i] == (#[trigger] self.coeff@[i]).val(),
            self.wf() <==> self.inner_wf(),
    {
        assert forall|i: int| 0 <= i < self.coeff.len() implies self@[i] == (
        #[trigger] self.coeff@[i]).val() by {}
        if self.wf() {
            assert forall|i: int| 0 <= i < self.coeff.len() implies (
            #[trigger] self.coeff@[i]).wf() by {
                assert(0 <= self@[i] < P);
            }
        }
        if self.inner_wf() {
            assert forall|i: int| 0 <= i < self@.len() implies 0 <= #[trigger] self@[i] < P by {
                assert(self.coeff@[i].wf());
            }
        }
    }

    /// The polynomial with coefficients `it`, in ascending degree.
    pub fn new(it: Vec<PrimeField<P>>) -> (r: Self)
        requires
            1 < P,
            forall|i: int| 0 <= i < it.len() ==> (#[trigger] it@[i]).wf(),
        ensures
            r.wf(),
            r@ == strip(vals(it@)),
    {
        let mut coeff = it;
        let ghost orig = vals(coeff@);
        while coeff.len() > 0 && coeff[coeff.len() - 1].is_zero()
            invariant
                strip(orig) == strip(vals(coeff@)),
                forall|i: int| 0 <= i < coeff.len() ==> (#[trigger] coeff@[i]).wf(),
            decreases coeff.len(),
        {
            let ghost before = coeff@;
            coeff.pop();
            proof {
                assert(vals(before).drop_last() =~= vals(coeff@));
            }
        }
        let r = DensePolynomial { coeff };
        proof {
            lemma_strip(vals(r.coeff@));
            lemma_strip_canonical(vals(r.coeff@));
            assert(r.inner_wf());
            r.lemma_wf();
        }
        r
    }

    /// The zero polynomial.
    pub fn zero() -> (r: Self)
        requires
            1 < P,
        ensures
            r.wf(),
            r@ == Seq::<int>::empty(),
    {
        let r = DensePolynomial { coeff: Vec::new() };
        proof {
            assert(r@ =~= Seq::<int>::empty());
        }
        r
    }

    /// The degree; `None` for the zero polynomial.
    pub fn degree(&self) -> (r: Option<usize>)
        ensures
            r == if self@.len() == 0 {
                None
            } else {
                Some((self@.len() - 1) as usize)
            },
    {
        proof {
            assert(self@.len() == self.coeff@.len());
        }
        if self.coeff.len() == 0 {
            None
        } else {
            Some(self.coeff.len() - 1)
        }
    }

    pub fn is_zero(&self) -> (r: bool)
        ensures
            r == (self@.len() == 0),
    {
        self.degree().is_none()
    }

    /// Coefficient `pos`; zero beyond the degree.
    pub fn coeff(&self, pos: usize) -> (r: PrimeField<P>)
        requires
            self.wf(),
        ensures
            r.wf(),
            r.val() == coef(self@, pos as int),
    {
        proof {
            self.lemma_wf();
        }
        if pos < self.coeff.len() {
            self.coeff[pos]
        } else {
            PrimeField::zero()
        }
    }

    /// The leading coefficient; zero for the zero polynomial.
    pub fn leading(&self) -> (r: PrimeField<P>)
        requires
            self.wf(),
        ensures
            r.wf(),
            r.val() == if self@.len() == 0 {
                0
            } else {
                self@.last()
            },
    {
        match self.degree() {
            Some(d) => {
                proof {
                    self.lemma_wf();
                    assert(coef(self@, d as int) == self@.last());
                }
                self.coeff(d)
            },
            None => PrimeField::zero(),
        }
    }

    pub fn add(&self, other: &DensePolynomial<P>) -> (r: Self)
        requires
            self.wf(),
            other.wf(),
        ensures
            r.wf(),
            r@ == add_spec(self@, other@, P),
    {
        proof {
            self.lemma_wf();
            other.lemma_wf();
        }
        let len = if self.coeff.len() >= other.coeff.len() {
            self.coeff.len()
        } else {
            other.coeff.len()
        };
        let ghost target = Seq::new(len as nat, |i: int| reduce(coef(self@, i) + coef(other@, i), P));
        let mut v: Vec<PrimeField<P>> = Vec::new();
        let mut i: usize = 0;
        while i < len
            invariant
                self.wf(),
                other.wf(),
                i <= len,
                v.len() == i,
                target == Seq::new(len as nat, |i: int| reduce(coef(self@, i) + coef(other@, i), P)),
                forall|k: int| 0 <= k < i ==> (#[trigger] v@[k]).wf() && v@[k].val() == target[k],
            decreases len - i,
        {
            let c = self.coeff(i).add(&other.coeff(i));
            v.push(c);
            i = i + 1;
        }
        proof {
            assert(vals(v@) =~= target);
        }
        Self::new(v)
    }

    /// The additive inverse, coefficient by coefficient.
    pub fn negate(&self) -> (r: Self)
        requires
            self.wf(),
        ensures
            r.wf(),
            r@ == strip(Seq::new(self@.len(), |i: int| reduce(-self@[i], P))),
    {
        proof {
            self.lemma_wf();
        }
        let ghost target = Seq::new(self@.len(), |i: int| reduce(-self@[i], P));
        let mut v: Vec<PrimeField<P>> = Vec::new();
        let mut i: usize = 0;
        while i < self.coeff.len()
            invariant
                self.wf(),
                self@.len() == self.coeff.len(),
                target == Seq::new(self@.len(), |i: int| reduce(-self@[i], P)),
                i <= self.coeff.len(),
                v.len() == i,
                forall|k: int| 0 <= k < self.coeff.len() ==> self@[k] == (#[trigger] self.coeff@[k]).val(),
                forall|k: int| 0 <= k < i ==> (#[trigger] v@[k]).wf() && v@[k].val() == target[k],
            decreases self.coeff.len() - i,
        {
            proof {
                assert(self.coeff@[i as int].wf()) by {
                    self.lemma_wf();
                }
            }
            v.push(self.coeff[i].neg());
            i = i + 1;
        }
        proof {
            assert(vals(v@) =~= target);
        }
        Self::new(v)
    }

    /// Multiplication by `x^d`: `d` zero coefficients in front.
    pub fn shift(&self, d: usize) -> (r: Self)
        requires
            self.wf(),
            d + self@.len() <= usize::MAX,
        ensures
            r.wf(),
            r@ == if self@.len() == 0 {
                self@
            } else {
                Seq::new(d as nat, |i: int| 0int) + self@
            },
    {
        proof {
            self.lemma_wf();
        }
        let mut v: Vec<PrimeField<P>> = Vec::new();
        let mut i: usize = 0;
        while i < d
            invariant
                1 < P,
                i <= d,
                v.len() == i,
                forall|k: int| 0 <= k < i ==> (#[trigger] v@[k]).wf() && v@[k].val() == 0,
            decreases d - i,
        {
            v.push(PrimeField::zero());
            i = i + 1;
        }
        let mut j: usize = 0;
        while j < self.coeff.len()
            invariant
                self.wf(),
                self@.len() == self.coeff.len(),
                forall|k: int| 0 <= k < self.coeff.len() ==> self@[k] == (#[trigger] self.coeff@[k]).val(),
                forall|k: int| 0 <= k < self.coeff.len() ==> (#[trigger] self.coeff@[k]).wf(),
                d + self.coeff.len() <= usize::MAX,
                j <= self.coeff.len(),
                v.len() == d + j,
                forall|k: int| 0 <= k < d ==> (#[trigger] v@[k]).wf() && v@[k].val() == 0,
                forall|k: int| d <= k < d + j ==> (#[trigger] v@[k]).wf() && v@[k].val() == self@[k - d],
            decreases self.coeff.len() - j,
        {
            v.push(self.coeff[j]);
            j = j + 1;
        }
        let ghost joined = Seq::new(d as nat, |i: int| 0int) + self@;
        proof {
            assert(vals(v@) =~= joined);
            lemma_strip(joined);
            if self@.len() == 0 {
                assert forall|i: int| #[trigger] coef(strip(joined), i) == coef(self@, i) by {
                    assert(coef(strip(joined), i) == coef(joined, i));
                }
                lemma_canonical_ext(strip(joined), self@);
            } else {
                assert(joined.last() == self@.last());
                lemma_strip_canonical(joined);
            }
        }
        Self::new(v)
    }

    /// The value at `x`, by Horner's rule from the top coefficient down.
    pub fn evaluate(&self, x: PrimeField<P>) -> (r: PrimeField<P>)
        requires
            self.wf(),
            x.wf(),
        ensures
            r.wf(),
            r.val() == reduce(eval_spec(self@, x.val()), P),
    {
        proof {
            self.lemma_wf();
        }
        if self.coeff.len() == 0 {
            proof {
                lemma_small_mod(0, P as nat);
            }
            return PrimeField::zero();
        }
        let n = self.coeff.len() - 1;
        let mut b = self.coeff(n);
        let mut i: usize = 1;
        proof {
            let tail = self@.subrange(n as int, n + 1);
            assert(tail.drop_last() =~= Seq::<int>::empty());
            vstd::arithmetic::power::lemma_pow0(x.val());
            lemma_small_mod(self@[n as int] as nat, P as nat);
            reveal_with_fuel(eval_spec, 2);
        }
        while i <= n
            invariant
                self.wf(),
                x.wf(),
                n + 1 == self@.len(),
                n < usize::MAX,
                1 <= i <= n + 1,
                b.wf(),
                b.val() == reduce(eval_spec(self@.subrange(n + 1 - i, n + 1), x.val()), P),
            decreases n + 1 - i,
        {
            let ghost k = n - i;
            let ghost s = self@.subrange(k, n + 1);
            proof {
                lemma_eval_first(s, x.val());
                assert(s.drop_first() =~= self@.subrange(n + 1 - i, n + 1));
                let e = eval_spec(s.drop_first(), x.val());
                let p = P as int;
                lemma_mul_mod_noop_general(e, x.val(), p);
                lemma_add_mod_noop(self@[k], e * x.val(), p);
                lemma_small_mod(self@[k] as nat, P as nat);
                lemma_small_mod((((e % p) * x.val()) % p) as nat, P as nat);
                vstd::arithmetic::mul::lemma_mul_is_commutative(e, x.val());
            }
            b = self.coeff(n - i).add(&b.mul(&x));
            i = i + 1;
        }
        proof {
            assert(self@.subrange(0, n + 1) =~= self@);
        }
        b
    }

    /// The product, by full convolution.
    pub fn mult(&self, other: &DensePolynomial<P>) -> (r: Self)
        requires
            self.wf(),
            other.wf(),
            self@.len() + other@.len() <= usize::MAX,
        ensures
            r.wf(),
            r@ == mul_spec(self@, other@, P),
    {
        proof {
            self.lemma_wf();
            other.lemma_wf();
        }
        let la = self.coeff.len();
        let lb = other.coeff.len();
        let ghost (a, b) = (self@, other@);
        let total = la + lb;
        let mut res: Vec<PrimeField<P>> = Vec::new();
        let mut z: usize = 0;
        while z < total
            invariant
                1 < P,
                total == la + lb,
                z <= la + lb,
                res.len() == z,
                forall|k: int| 0 <= k < z ==> (#[trigger] res@[k]).wf() && res@[k].val() == 0,
            decreases total - z,
        {
            res.push(PrimeField::zero());
            z = z + 1;
        }
        proof {
            lemma_small_mod(0, P as nat);
        }
        let mut i: usize = 0;
        while i < la
            invariant
                self.wf(),
                other.wf(),
                a == self@,
                b == other@,
                la == a.len(),
                lb == b.len(),
                la + lb <= usize::MAX,
                i <= la,
                res.len() == la + lb,
                forall|k: int|
                    0 <= k < la + lb ==> (#[trigger] res@[k]).wf() && res@[k].val() == reduce(
                        conv_upto(a, b, k, i as int),
                        P,
                    ),
            decreases la - i,
        {
            let ai = self.coeff(i);
            let mut j: usize = 0;
            while j < lb
                invariant
                    self.wf(),
                    other.wf(),
                    a == self@,
                    b == other@,
                    la == a.len(),
                    lb == b.len(),
                    la + lb <= usize::MAX,
                    i < la,
                    j <= lb,
                    ai.wf(),
                    ai.val() == coef(a, i as int),
                    res.len() == la + lb,
                    forall|k: int|
                        0 <= k < la + lb ==> (#[trigger] res@[k]).wf() && res@[k].val() == reduce(
                            conv_upto(a, b, k, i as int) + if i <= k < i + j {
                                coef(a, i as int) * coef(b, k - i)
                            } else {
                                0
                            },
                            P,
                        ),
                decreases lb - j,
            {
                let bj = other.coeff(j);
                let t = ai.mul(&bj);
                let cur = res[i + j];
                let nv = cur.add(&t);
                proof {
                    let k = (i + j) as int;
                    let sum = conv_upto(a, b, k, i as int);
                    lemma_add_mod_noop(sum, coef(a, i as int) * coef(b, j as int), P as int);
                    lemma_small_mod(0, P as nat);
                    assert(k - i == j);
                }
                res.set(i + j, nv);
                j = j + 1;
            }
            proof {
                assert forall|k: int| 0 <= k < la + lb implies (#[trigger] res@[k]).wf() && res@[k].val()
                    == reduce(conv_upto(a, b, k, i + 1), P) by {
                    assert(conv_upto(a, b, k, i + 1) == conv_upto(a, b, k, i as int) + coef(a, i as int)
                        * coef(b, k - i));
                    if !(i <= k < i + lb) {
                        assert(coef(b, k - i) == 0);
                    }
                }
            }
            i = i + 1;
        }
        proof {
            assert(vals(res@) =~= Seq::new(a.len() + b.len(), |k: int| reduce(conv(a, b, k), P)));
        }
        Self::new(res)
    }

    /// A copy of the coefficient vector.
    fn coefficients(&self) -> (r: Vec<PrimeField<P>>)
        requires
            self.wf(),
        ensures
            vals(r@) == self@,
            forall|i: int| 0 <= i < r.len() ==> (#[trigger] r@[i]).wf(),
    {
        proof {
            self.lemma_wf();
        }
        let mut r: Vec<PrimeField<P>> = Vec::new();
        let mut i: usize = 0;
        while i < self.coeff.len()
            invariant
                self.wf(),
                self@.len() == self.coeff.len(),
                forall|k: int| 0 <= k < self.coeff.len() ==> self@[k] == (#[trigger] self.coeff@[k]).val(),
                forall|k: int| 0 <= k < self.coeff.len() ==> (#[trigger] self.coeff@[k]).wf(),
                i <= self.coeff.len(),
                r.len() == i,
                forall|k: int| 0 <= k < i ==> (#[trigger] r@[k]) == self.coeff@[k],
            decreases self.coeff.len() - i,
        {
            r.push(self.coeff[i]);
            i = i + 1;
        }
        proof {
            assert(vals(r@) =~= self@);
        }
        r
    }

    /// Euclidean division: `(quotient, remainder)` with
    /// `self == divisor * quotient + remainder` and the remainder of lower
    /// degree than the divisor. The divisor's leading coefficient must be
    /// invertible, as every non-zero element of a prime field is.
    pub fn div_quotient_rem(&self, divisor: &DensePolynomial<P>) -> (r: (Self, Self))
        requires
            self.wf(),
            divisor.wf(),
            divisor@.len() > 0,
            gcd(divisor@.last() as nat, P as nat) == 1,
        ensures
            r.0.wf(),
            r.1.wf(),
            self@ == add_spec(mul_spec(divisor@, r.0@, P), r.1@, P),
            r.1@.len() < divisor@.len(),
    {
        proof {
            self.lemma_wf();
            divisor.lemma_wf();
        }
        let ghost a = self@;
        let ghost d = divisor@;
        let n = self.coeff.len();
        let m = divisor.coeff.len();
        if n < m {
            let q = Self::zero();
            let rem = Self::new(self.coefficients());
            proof {
                lemma_strip_canonical(a);
                lemma_mul_coef(d, q@, P);
                lemma_add_coef(mul_spec(d, q@, P), a, P);
                lemma_add_spec_canonical(mul_spec(d, q@, P), a, P);
                assert forall|t: int| #[trigger] coef(a, t) == coef(add_spec(mul_spec(d, q@, P), a, P), t) by {
                    if t >= 0 {
                        lemma_conv_coef(d, q@, Seq::<int>::empty(), t, d.len() as int);
                        lemma_conv_zero(d, t, d.len() as int);
                        lemma_small_mod(0, P as nat);
                        lemma_small_mod(coef(a, t) as nat, P as nat);
                    }
                }
                lemma_canonical_ext(a, add_spec(mul_spec(d, q@, P), a, P));
            }
            return (q, rem);
        }
        let lead = divisor.leading();
        let inv = match lead.invert() {
            Some(y) => y,
            None => {
                return (Self::zero(), Self::zero());
            },
        };
        let mut r = self.coefficients();
        let qlen = n - m + 1;
        let mut q: Vec<PrimeField<P>> = Vec::new();
        let mut z: usize = 0;
        while z < qlen
            invariant
                1 < P,
                z <= qlen,
                q.len() == z,
                forall|k: int| 0 <= k < z ==> (#[trigger] q@[k]).wf() && q@[k].val() == 0,
            decreases qlen - z,
        {
            q.push(PrimeField::zero());
            z = z + 1;
        }
        proof {
            lemma_small_mod(0, P as nat);
            assert forall|t: int| 0 <= t < n implies reduce(#[trigger] vals(r@)[t] + conv(d, vals(q@), t), P)
                == a[t] by {
                lemma_conv_coef(d, vals(q@), Seq::<int>::empty(), t, d.len() as int);
                lemma_conv_zero(d, t, d.len() as int);
                lemma_small_mod(a[t] as nat, P as nat);
            }
        }
        let mut k: usize = qlen;
        while k > 0
            invariant
                self.wf(),
                divisor.wf(),
                a == self@,
                d == divisor@,
                n == a.len(),
                m == d.len(),
                1 <= m <= n,
                qlen == n - m + 1,
                k <= qlen,
                lead.wf(),
                lead.val() == d.last(),
                inv.wf(),
                crate::fields::is_inverse(lead.val(), inv.val(), P),
                r.len() == n,
                q.len() == qlen,
                forall|i: int| 0 <= i < n ==> (#[trigger] r@[i]).wf(),
                forall|i: int| 0 <= i < qlen ==> (#[trigger] q@[i]).wf(),
                forall|t: int| 0 <= t < n ==> reduce(#[trigger] vals(r@)[t] + conv(d, vals(q@), t), P) == a[t],
                forall|t: int| k + m - 1 <= t < n ==> (#[trigger] r@[t]).val() == 0,
                forall|i: int| 0 <= i < k ==> (#[trigger] q@[i]).val() == 0,
            decreases k,
        {
            k = k - 1;
            let top = r[k + m - 1];
            let c = top.mul(&inv);
            let ghost q_old = vals(q@);
            q.set(k, c);
            proof {
                assert(vals(q@) =~= q_old.update(k as int, c.val()));
                assert forall|t: int| 0 <= t < n implies reduce(#[trigger] vals(r@)[t] + conv(d, vals(q@), t)
                    - if k <= t < k + m { coef(d, t - k) * c.val() } else { 0 }, P) == a[t] by {
                    lemma_conv_update(d, q_old, k as int, c.val(), t, d.len() as int);
                }
            }
            let mut j: usize = 0;
            while j < m
                invariant
                    self.wf(),
                    divisor.wf(),
                    a == self@,
                    d == divisor@,
                    n == a.len(),
                    m == d.len(),
                    1 <= m <= n,
                    qlen == n - m + 1,
                    k < qlen,
                    j <= m,
                    c.wf(),
                    top.wf(),
                    c.val() == reduce(top.val() * inv.val(), P),
                    lead.val() == d.last(),
                    inv.wf(),
                    crate::fields::is_inverse(lead.val(), inv.val(), P),
                    r.len() == n,
                    q.len() == qlen,
                    forall|i: int| 0 <= i < n ==> (#[trigger] r@[i]).wf(),
                    j < m ==> r@[k + m - 1] == top,
                    j == m ==> r@[k + m - 1].val() == 0,
                    forall|t: int| 0 <= t < n ==> reduce(#[trigger] vals(r@)[t] + conv(d, vals(q@), t)
                        - if k + j <= t < k + m { coef(d, t - k) * c.val() } else { 0 }, P) == a[t],
                    forall|t: int| k + m <= t < n ==> (#[trigger] r@[t]).val() == 0,
                decreases m - j,
            {
                let dj = divisor.coeff(j);
                let old_v = r[k + j];
                let nv = old_v.sub(&c.mul(&dj));
                let ghost rv = vals(r@);
                proof {
                    let t0 = (k + j) as int;
                    let p = P as int;
                    let cv = conv(d, vals(q@), t0);
                    let prod = c.val() * dj.val();
                    assert(t0 - k == j);
                    vstd::arithmetic::div_mod::lemma_sub_mod_noop(old_v.val() as int, prod, p);
                    lemma_small_mod(old_v.val() as nat, P as nat);
                    lemma_add_mod_noop(old_v.val() - prod, cv, p);
                    lemma_add_mod_noop(nv.val() as int, cv, p);
                    lemma_small_mod(nv.val() as nat, P as nat);
                    assert(reduce(nv.val() + cv, P) == reduce(old_v.val() + cv - prod, P));
                    if j + 1 == m {
                        // The new top coefficient cancels.
                        assert(dj.val() == d.last());
                        let tv = top.val() as int;
                        lemma_mul_mod_noop_general(tv * inv.val(), dj.val() as int, p);
                        vstd::arithmetic::mul::lemma_mul_is_associative(tv, inv.val() as int, dj.val() as int);
                        vstd::arithmetic::mul::lemma_mul_is_commutative(inv.val() as int, dj.val() as int);
                        lemma_mul_mod_noop_general(tv, dj.val() * inv.val(), p);
                        lemma_small_mod(tv as nat, P as nat);
                        assert(prod % p == tv);
                        assert(old_v == top);
                        lemma_small_mod(0, P as nat);
                        assert(nv.val() == 0);
                    }
                }
                let ghost cv0 = c.val();
                proof {
                    assert forall|t: int| 0 <= t < n implies reduce(#[trigger] rv[t] + conv(d, vals(q@), t)
                        - if k + j <= t < k + m { coef(d, t - k) * cv0 } else { 0 }, P) == a[t] by {}
                    assert(dj.val() == coef(d, j as int));
                }
                r.set(k + j, nv);
                proof {
                    assert(vals(r@) =~= rv.update((k + j) as int, nv.val()));
                    assert forall|t: int| 0 <= t < n implies reduce(#[trigger] vals(r@)[t] + conv(d, vals(q@), t)
                        - if k + (j + 1) <= t < k + m { coef(d, t - k) * cv0 } else { 0 }, P) == a[t] by {
                        if t == k + j {
                            assert(vals(r@)[t] == nv.val());
                            assert(t - k == j as int);
                            vstd::arithmetic::mul::lemma_mul_is_commutative(coef(d, t - k), cv0);
                            assert(coef(d, t - k) * cv0 == cv0 * dj.val());
                            assert(reduce(rv[t] + conv(d, vals(q@), t) - coef(d, t - k) * cv0, P) == a[t]);
                        } else {
                            assert(vals(r@)[t] == rv[t]);
                        }
                    }
                }
                j = j + 1;
            }
            proof {
                assert forall|t: int| k + m - 1 <= t < n implies (#[trigger] r@[t]).val() == 0 by {}
                assert forall|t: int| 0 <= t < n implies reduce(#[trigger] vals(r@)[t] + conv(d, vals(q@), t), P)
                    == a[t] by {
                    assert(reduce(vals(r@)[t] + conv(d, vals(q@), t) - 0, P) == a[t]);
                }
            }
        }
        let quotient = Self::new(q);
        let mut low: Vec<PrimeField<P>> = Vec::new();
        let mut i: usize = 0;
        while i < m - 1
            invariant
                i <= m - 1,
                m <= n,
                r.len() == n,
                low.len() == i,
                forall|t: int| 0 <= t < n ==> (#[trigger] r@[t]).wf(),
                forall|t: int| 0 <= t < i ==> (#[trigger] low@[t]) == r@[t],
            decreases m - 1 - i,
        {
            low.push(r[i]);
            i = i + 1;
        }
        let remainder = Self::new(low);
        proof {
            let rv = vals(r@);
            let qv = vals(q@);
            let lv = vals(low@);
            lemma_strip(qv);
            lemma_strip(lv);
            lemma_mul_coef(d, quotient@, P);
            lemma_add_coef(mul_spec(d, quotient@, P), remainder@, P);
            lemma_add_spec_canonical(mul_spec(d, quotient@, P), remainder@, P);
            lemma_strip_canonical(a);
            assert forall|t: int| #[trigger] coef(a, t) == coef(add_spec(mul_spec(d, quotient@, P), remainder@, P), t) by {
                if t >= 0 {
                    let p = P as int;
                    lemma_conv_coef(d, quotient@, qv, t, d.len() as int);
                    assert(coef(remainder@, t) == coef(lv, t));
                    assert(coef(lv, t) == coef(rv, t)) by {
                        if t < m - 1 {
                            assert(lv[t] == rv[t]);
                        } else if t < n {
                            assert(r@[t].val() == 0);
                        }
                    }
                    lemma_add_mod_noop(conv(d, qv, t), coef(rv, t), p);
                    lemma_small_mod(coef(rv, t) as nat, P as nat);
                    if t < n {
                        assert(reduce(rv[t] + conv(d, qv, t), P) == a[t]);
                    } else {
                        lemma_conv_high(d, qv, t, d.len() as int);
                        lemma_small_mod(0, P as nat);
                    }
                }
            }
            lemma_canonical_ext(a, add_spec(mul_spec(d, quotient@, P), remainder@, P));
        }
        (quotient, remainder)
    }

    /// The polynomial whose coefficients are the images of the integers `it`.
    pub fn new_integers(it: Vec<i64>) -> (r: Self)
        requires
            1 < P,
        ensures
            r.wf(),
            r@ == strip(Seq::new(it.len() as nat, |i: int| reduce(it[i] as int, P))),
    {
        let mut v: Vec<PrimeField<P>> = Vec::new();
        let mut i: usize = 0;
        while i < it.len()
            invariant
                1 < P,
                i <= it.len(),
                v.len() == i,
                forall|k: int| 0 <= k < i ==> (#[trigger] v@[k]).wf() && v@[k].val() == reduce(it[k] as int, P),
            decreases it.len() - i,
        {
            v.push(PrimeField::integer_embed(it[i]));
            i = i + 1;
        }
        proof {
            assert(vals(v@) =~= Seq::new(it.len() as nat, |i: int| reduce(it[i] as int, P)));
        }
        Self::new(v)
    }

    /// The polynomial with the given `(degree, coefficient)` pairs; a degree
    /// listed twice takes its last coefficient, and missing degrees are zero.
    pub fn new_degree_list(degree_list: Vec<(usize, PrimeField<P>)>) -> (r: Self)
        requires
            1 < P,
            forall|i: int| 0 <= i < degree_list.len() ==> (#[trigger] degree_list@[i]).1.wf(),
            forall|i: int| 0 <= i < degree_list.len() ==> (#[trigger] degree_list@[i]).0 < usize::MAX,
        ensures
            r.wf(),
            forall|i: int| #[trigger] coef(r@, i) == listed_coef(pairs(degree_list@), i),
    {
        let ghost list = pairs(degree_list@);
        let mut max_deg: usize = 0;
        let mut any: bool = false;
        let mut i: usize = 0;
        while i < degree_list.len()
            invariant
                i <= degree_list.len(),
                max_deg < usize::MAX,
                list == pairs(degree_list@),
                forall|k: int| 0 <= k < degree_list.len() ==> (#[trigger] degree_list@[k]).0 < usize::MAX,
                forall|k: int| 0 <= k < i && degree_list@[k].1.val() != 0 ==> any && #[trigger] degree_list@[k].0 <= max_deg,
            decreases degree_list.len() - i,
        {
            let (k, v) = degree_list[i];
            if !v.is_zero() && (!any || k > max_deg) {
                max_deg = k;
                any = true;
            }
            i = i + 1;
        }
        proof {
            assert forall|k: int| 0 <= k < list.len() && (#[trigger] list[k]).1 != 0 implies any && list[k].0
                <= max_deg by {
                assert(list[k] == (degree_list@[k].0, degree_list@[k].1.val()));
            }
            lemma_listed_high(list, max_deg as int, any);
        }
        if !any {
            let r = Self::zero();
            proof {
                assert forall|i: int| #[trigger] coef(r@, i) == listed_coef(list, i) by {}
            }
            return r;
        }
        let mut backing: Vec<PrimeField<P>> = Vec::new();
        let mut z: usize = 0;
        while z <= max_deg
            invariant
                1 < P,
                max_deg < usize::MAX,
                z <= max_deg + 1,
                backing.len() == z,
                forall|k: int| 0 <= k < z ==> (#[trigger] backing@[k]).wf() && backing@[k].val() == 0,
            decreases max_deg + 1 - z,
        {
            backing.push(PrimeField::zero());
            z = z + 1;
        }
        let mut j: usize = 0;
        while j < degree_list.len()
            invariant
                1 < P,
                j <= degree_list.len(),
                list == pairs(degree_list@),
                forall|k: int| 0 <= k < degree_list.len() ==> (#[trigger] degree_list@[k]).1.wf(),
                backing.len() == max_deg + 1,
                forall|k: int| 0 <= k <= max_deg ==> (#[trigger] backing@[k]).wf() && backing@[k].val()
                    == listed_coef(list.subrange(0, j as int), k),
            decreases degree_list.len() - j,
        {
            let (k, v) = degree_list[j];
            proof {
                assert(list.subrange(0, j + 1).drop_last() =~= list.subrange(0, j as int));
            }
            if k <= max_deg {
                backing.set(k, v);
            }
            proof {
                assert forall|t: int| 0 <= t <= max_deg implies (#[trigger] backing@[t]).wf() && backing@[t].val()
                    == listed_coef(list.subrange(0, j + 1), t) by {
                    assert(list.subrange(0, j + 1).last() == list[j as int]);
                }
            }
            j = j + 1;
        }
        proof {
            assert(list.subrange(0, j as int) =~= list);
        }
        let r = Self::new(backing);
        proof {
            lemma_strip(vals(backing@));
            assert forall|i: int| #[trigger] coef(r@, i) == listed_coef(list, i) by {
                assert(coef(r@, i) == coef(vals(backing@), i));
                if 0 <= i <= max_deg {
                    assert(backing@[i].val() == listed_coef(list, i));
                }
            }
        }
        r
    }

    /// As `new_degree_list`, with integer coefficients.
    pub fn new_degree_list_integers(degree_list: Vec<(usize, i64)>) -> (r: Self)
        requires
            1 < P,
            forall|i: int| 0 <= i < degree_list.len() ==> (#[trigger] degree_list@[i]).0 < usize::MAX,
        ensures
            r.wf(),
            forall|i: int| #[trigger] coef(r@, i) == listed_coef(
                Seq::new(degree_list.len() as nat, |k: int| (degree_list@[k].0, reduce(degree_list@[k].1 as int, P))),
                i,
            ),
    {
        let mut v: Vec<(usize, PrimeField<P>)> = Vec::new();
        let mut i: usize = 0;
        while i < degree_list.len()
            invariant
                1 < P,
                i <= degree_list.len(),
                v.len() == i,
                forall|k: int| 0 <= k < degree_list.len() ==> (#[trigger] degree_list@[k]).0 < usize::MAX,
                forall|k: int| 0 <= k < i ==> (#[trigger] v@[k]).1.wf() && v@[k].0 == degree_list@[k].0
                    && v@[k].1.val() == reduce(degree_list@[k].1 as int, P),
            decreases degree_list.len() - i,
        {
            let (k, c) = degree_list[i];
            v.push((k, PrimeField::integer_embed(c)));
            i = i + 1;
        }
        proof {
            assert(pairs(v@) =~= Seq::new(degree_list.len() as nat, |k: int| (degree_list@[k].0, reduce(degree_list@[k].1 as int, P))));
        }
        Self::new_degree_list(v)
    }

    /// Human-readable text: non-zero terms from the highest degree down,
    /// joined by ` + `; degree 1 is written ` x`, higher degrees ` x^k`,
    /// and a coefficient 1 is left out except in degree 0. Zero is `0`.
    pub fn render(&self) -> (r: String)
        requires
            self.wf(),
        ensures
            r@ == ascii_text(rendered(self@)),
    {
        proof {
            self.lemma_wf();
        }
        let mut out: Vec<u8> = Vec::new();
        if self.coeff.len() == 0 {
            push_decimal(&mut out, 0);
            proof {
                assert(out@ =~= rendered(self@));
            }
            return ascii_string(&out);
        }
        let n = self.coeff.len() - 1;
        push_term(&mut out, self.coeff[n].el, n);
        let mut k: usize = n;
        proof {
            assert(out@ =~= term(self@[n as int] as nat, n as nat));
        }
        while k > 0
            invariant
                self.wf(),
                n + 1 == self@.len(),
                forall|i: int| 0 <= i < self.coeff.len() ==> self@[i] == (#[trigger] self.coeff@[i]).val(),
                k <= n,
                out@ + rest(self@, k as nat) == rendered(self@),
                forall|i: int| 0 <= i < out@.len() ==> out@[i] < 128,
            decreases k,
        {
            k = k - 1;
            let c = self.coeff[k].el;
            let ghost before = out@;
            if c != 0 {
                out.push(32u8);
                out.push(43u8);
                out.push(32u8);
                push_term(&mut out, c, k);
                proof {
                    assert(out@ =~= before + (seq![32u8, 43u8, 32u8] + term(c as nat, k as nat)));
                }
            }
            proof {
                assert(rest(self@, (k + 1) as nat) == (if self@[k as int] != 0 {
                    seq![32u8, 43u8, 32u8] + term(self@[k as int] as nat, k as nat)
                } else {
                    Seq::<u8>::empty()
                }) + rest(self@, k as nat));
                assert(out@ + rest(self@, k as nat) =~= before + rest(self@, (k + 1) as nat));
            }
        }
        proof {
            assert(out@ =~= out@ + rest(self@, 0));
        }
        ascii_string(&out)
    }
}

/// Horner's step: `a_0 + x * (a_1 + a_2 x + ...)`.
proof fn lemma_eval_first(s: Seq<int>, x: int)
    requires
        s.len() > 0,
    ensures
        eval_spec(s, x) == s[0] + x * eval_spec(s.drop_first(), x),
    decreases s.len(),
{
    reveal(pow);
    if s.len() == 1 {
        assert(s.drop_last() =~= Seq::<int>::empty());
        assert(s.drop_first() =~= Seq::<int>::empty());
    } else {
        let dl = s.drop_last();
        lemma_eval_first(dl, x);
        assert(dl.drop_first() =~= s.drop_first().drop_last());
        assert(s.drop_first().last() == s.last());
        let k = (s.len() - 2) as nat;
        assert(pow(x, k + 1) == x * pow(x, k));
        assert(x * (eval_spec(dl.drop_first(), x) + s.last() * pow(x, k)) == x * eval_spec(
            dl.drop_first(),
            x,
        ) + s.last() * (x * pow(x, k))) by (nonlinear_arith);
        assert((s.len() - 1) as nat == k + 1);
    }
}

/// Terms past the end of `a` add nothing.
proof fn lemma_conv_past(a: Seq<int>, b: Seq<int>, k: int, m: int)
    requires
        m >= a.len(),
    ensures
        conv_upto(a, b, k, m) == conv(a, b, k),
    decreases m,
{
    if m > a.len() {
        lemma_conv_past(a, b, k, m - 1);
    }
}

/// Coefficients beyond both degrees vanish.
proof fn lemma_conv_high(a: Seq<int>, b: Seq<int>, k: int, m: int)
    requires
        m <= a.len(),
        k >= a.len() + b.len() - 1,
    ensures
        conv_upto(a, b, k, m) == 0,
    decreases m,
{
    if m > 0 {
        lemma_conv_high(a, b, k, m - 1);
    }
}

/// Only the coefficients of the factors matter.
proof fn lemma_conv_coef(a: Seq<int>, b1: Seq<int>, b2: Seq<int>, k: int, m: int)
    requires
        forall|i: int| #[trigger] coef(b1, i) == coef(b2, i),
    ensures
        conv_upto(a, b1, k, m) == conv_upto(a, b2, k, m),
    decreases m,
{
    if m > 0 {
        lemma_conv_coef(a, b1, b2, k, m - 1);
        assert(coef(b1, k - (m - 1)) == coef(b2, k - (m - 1)));
    }
}

/// Setting a zero coefficient `j` of the second factor to `c`.
proof fn lemma_conv_update(a: Seq<int>, b: Seq<int>, j: int, c: int, k: int, m: int)
    requires
        0 <= j < b.len(),
        b[j] == 0,
    ensures
        conv_upto(a, b.update(j, c), k, m) == conv_upto(a, b, k, m) + if 0 <= k - j < m {
            coef(a, k - j) * c
        } else {
            0
        },
    decreases m,
{
    if m > 0 {
        lemma_conv_update(a, b, j, c, k, m - 1);
        assert(coef(b.update(j, c), k - (m - 1)) == if k - (m - 1) == j {
            c
        } else {
            coef(b, k - (m - 1))
        });
    }
}

proof fn lemma_mul_coef(a: Seq<int>, b: Seq<int>, p: u64)
    requires
        p > 0,
    ensures
        forall|t: int| t >= 0 ==> #[trigger] coef(mul_spec(a, b, p), t) == reduce(conv(a, b, t), p),
{
    let full = Seq::new(a.len() + b.len(), |k: int| reduce(conv(a, b, k), p));
    lemma_strip(full);
    assert forall|t: int| t >= 0 implies #[trigger] coef(mul_spec(a, b, p), t) == reduce(
        conv(a, b, t),
        p,
    ) by {
        assert(coef(strip(full), t) == coef(full, t));
        if t >= full.len() {
            lemma_conv_high(a, b, t, a.len() as int);
            lemma_small_mod(0, p as nat);
        }
    }
}

proof fn lemma_add_coef(x: Seq<int>, y: Seq<int>, p: u64)
    requires
        p > 0,
    ensures
        forall|t: int| t >= 0 ==> #[trigger] coef(add_spec(x, y, p), t) == reduce(coef(x, t) + coef(y, t), p),
{
    let full = Seq::new(
        if x.len() >= y.len() {
            x.len()
        } else {
            y.len()
        },
        |i: int| reduce(coef(x, i) + coef(y, i), p),
    );
    lemma_strip(full);
    assert forall|t: int| t >= 0 implies #[trigger] coef(add_spec(x, y, p), t) == reduce(
        coef(x, t) + coef(y, t),
        p,
    ) by {
        assert(coef(strip(full), t) == coef(full, t));
        if t >= full.len() {
            lemma_small_mod(0, p as nat);
        }
    }
}

/// A second factor with no non-zero coefficient contributes nothing.
proof fn lemma_conv_zero(a: Seq<int>, k: int, m: int)
    ensures
        conv_upto(a, Seq::<int>::empty(), k, m) == 0,
    decreases m,
{
    if m > 0 {
        lemma_conv_zero(a, k, m - 1);
    }
}

proof fn lemma_add_spec_canonical(x: Seq<int>, y: Seq<int>, p: u64)
    ensures
        canonical(add_spec(x, y, p)),
{
    lemma_strip(
        Seq::new(
            if x.len() >= y.len() {
                x.len()
            } else {
                y.len()
            },
            |i: int| reduce(coef(x, i) + coef(y, i), p),
        ),
    );
}

/// `(degree, representative)` pairs of a degree list.
pub open spec fn pairs<const P: u64>(v: Seq<(usize, PrimeField<P>)>) -> Seq<(usize, int)> {
    v.map_values(|e: (usize, PrimeField<P>)| (e.0, e.1.val()))
}

/// Coefficient `i` of a degree list: the last pair of degree `i`, else zero.
pub open spec fn listed_coef(list: Seq<(usize, int)>, i: int) -> int
    decreases list.len(),
{
    if list.len() == 0 {
        0
    } else if list.last().0 == i {
        list.last().1
    } else {
        listed_coef(list.drop_last(), i)
    }
}

/// Past the largest degree with a non-zero coefficient every coefficient is zero.
proof fn lemma_listed_high(list: Seq<(usize, int)>, max_deg: int, any: bool)
    requires
        forall|k: int| 0 <= k < list.len() && (#[trigger] list[k]).1 != 0 ==> any && list[k].0 <= max_deg,
    ensures
        forall|i: int| (i < 0 || !any || i > max_deg) ==> #[trigger] listed_coef(list, i) == 0,
    decreases list.len(),
{
    if list.len() > 0 {
        let dl = list.drop_last();
        assert forall|k: int| 0 <= k < dl.len() && (#[trigger] dl[k]).1 != 0 implies any && dl[k].0 <= max_deg by {
            assert(dl[k] == list[k]);
            assert(list[k].1 != 0 ==> any && list[k].0 <= max_deg);
        }
        lemma_listed_high(dl, max_deg, any);
        assert forall|i: int| (i < 0 || !any || i > max_deg) implies #[trigger] listed_coef(list, i) == 0 by {
            let last = list.len() - 1;
            assert(list.last() == list[last]);
            assert(list[last].1 != 0 ==> any && list[last].0 <= max_deg);
            if list[last].0 as int != i {
                assert(listed_coef(dl, i) == 0);
            }
        }
    }
}

impl<const P: u64> PartialEq for DensePolynomial<P> {
    fn eq(&self, o: &Self) -> (r: bool) {
        if self.coeff.len() != o.coeff.len() {
            proof {
                assert(self@.len() != o@.len());
            }
            return false;
        }
        let mut i: usize = 0;
        while i < self.coeff.len()
            invariant
                self.coeff.len() == o.coeff.len(),
                i <= self.coeff.len(),
                forall|k: int| 0 <= k < i ==> (#[trigger] self.coeff@[k]).el == o.coeff@[k].el,
            decreases self.coeff.len() - i,
        {
            if self.coeff[i].el != o.coeff[i].el {
                proof {
                    assert(self@[i as int] != o@[i as int]);
                }
                return false;
            }
            i = i + 1;
        }
        proof {
            assert(self@ =~= o@);
        }
        true
    }
}

impl<const P: u64> vstd::std_specs::cmp::PartialEqSpecImpl for DensePolynomial<P> {
    open spec fn obeys_eq_spec() -> bool {
        true
    }

    open spec fn eq_spec(&self, o: &Self) -> bool {
        self@ == o@
    }
}

/// The decimal digits of `n`, in ASCII.
pub open spec fn decimal(n: nat) -> Seq<u8>
    decreases n,
{
    if n < 10 {
        seq![(n + 48) as u8]
    } else {
        decimal(n / 10).push((n % 10 + 48) as u8)
    }
}

/// One term `c x^i`, as `render` writes it.
pub open spec fn term(c: nat, i: nat) -> Seq<u8> {
    (if c != 1 || i == 0 {
        decimal(c)
    } else {
        Seq::<u8>::empty()
    }) + if i == 0 {
        Seq::<u8>::empty()
    } else if i == 1 {
        seq![32u8, 120u8]
    } else {
        seq![32u8, 120u8, 94u8] + decimal(i)
    }
}

/// The terms of degree below `k`, highest first, each after ` + `.
pub open spec fn rest(s: Seq<int>, k: nat) -> Seq<u8>
    decreases k,
{
    if k == 0 {
        Seq::<u8>::empty()
    } else {
        (if s[k - 1] != 0 {
            seq![32u8, 43u8, 32u8] + term(s[k - 1] as nat, (k - 1) as nat)
        } else {
            Seq::<u8>::empty()
        }) + rest(s, (k - 1) as nat)
    }
}

/// The text of a polynomial: `0`, or the leading term and the rest.
pub open spec fn rendered(s: Seq<int>) -> Seq<u8> {
    if s.len() == 0 {
        decimal(0)
    } else {
        term(s.last() as nat, (s.len() - 1) as nat) + rest(s, (s.len() - 1) as nat)
    }
}

/// ASCII bytes as characters.
pub open spec fn ascii_text(b: Seq<u8>) -> Seq<char> {
    b.map_values(|c: u8| c as char)
}

proof fn lemma_decimal_ascii(n: nat)
    ensures
        forall|i: int| 0 <= i < decimal(n).len() ==> #[trigger] decimal(n)[i] < 128,
    decreases n,
{
    if n >= 10 {
        lemma_decimal_ascii(n / 10);
        let prev = decimal(n / 10);
        assert(n % 10 < 10);
        assert forall|i: int| 0 <= i < decimal(n).len() implies #[trigger] decimal(n)[i] < 128 by {
            if i < prev.len() {
                assert(decimal(n)[i] == prev[i]);
            }
        }
    }
}

/// Appends the decimal digits of `n`.
fn push_decimal(out: &mut Vec<u8>, n: u64)
    requires
        forall|i: int| 0 <= i < old(out)@.len() ==> old(out)@[i] < 128,
    ensures
        final(out)@ == old(out)@ + decimal(n as nat),
        forall|i: int| 0 <= i < final(out)@.len() ==> final(out)@[i] < 128,
    decreases n,
{
    let ghost start = out@;
    if n >= 10 {
        push_decimal(out, n / 10);
    }
    out.push((n % 10) as u8 + 48);
    proof {
        lemma_decimal_ascii(n as nat);
        if n >= 10 {
            assert(out@ =~= start + decimal(n as nat));
        } else {
            assert(out@ =~= start + decimal(n as nat));
        }
    }
}

/// Appends one term `c x^i`.
fn push_term(out: &mut Vec<u8>, c: u64, i: usize)
    requires
        forall|k: int| 0 <= k < old(out)@.len() ==> old(out)@[k] < 128,
    ensures
        final(out)@ == old(out)@ + term(c as nat, i as nat),
        forall|k: int| 0 <= k < final(out)@.len() ==> final(out)@[k] < 128,
{
    let ghost start = out@;
    if c != 1 || i == 0 {
        push_decimal(out, c);
    }
    let ghost mid = out@;
    if i == 1 {
        out.push(32u8);
        out.push(120u8);
    } else if i > 1 {
        out.push(32u8);
        out.push(120u8);
        out.push(94u8);
        push_decimal(out, i as u64);
    }
    proof {
        assert(out@ =~= start + term(c as nat, i as nat));
    }
}

/// Relies on `String::from_utf8`: ASCII bytes are valid UTF-8, one
/// character each, so the conversion succeeds and keeps them in order.
#[verifier::external_body]
fn ascii_string(bytes: &Vec<u8>) -> (r: String)
    requires
        forall|i: int| 0 <= i < bytes@.len() ==> bytes@[i] < 128,
    ensures
        r@ == ascii_text(bytes@),
{
    match String::from_utf8(bytes.clone()) {
        Ok(s) => s,
        Err(_) => String::new(),
    }
}

} // verus!
