//! Binary double-and-add over any monoid, with a signed variant that first
//! inverts the base.
use vstd::prelude::*;

verus! {

/// A set with an associative operation and an identity. `valid` marks the
/// elements the laws hold for.
pub trait Monoid {
    type Elem: Copy;

    spec fn valid(&self, x: Self::Elem) -> bool;

    spec fn op_spec(&self, x: Self::Elem, y: Self::Elem) -> Self::Elem;

    spec fn identity_spec(&self) -> Self::Elem;

    fn op(&self, x: Self::Elem, y: Self::Elem) -> (r: Self::Elem)
        requires
            self.valid(x),
            self.valid(y),
        ensures
            r == self.op_spec(x, y),
    ;

    fn identity(&self) -> (r: Self::Elem)
        ensures
            r == self.identity_spec(),
    ;

    proof fn lemma_closed(&self, x: Self::Elem, y: Self::Elem)
        requires
            self.valid(x),
            self.valid(y),
        ensures
            self.valid(self.op_spec(x, y)),
    ;

    proof fn lemma_identity(&self, x: Self::Elem)
        requires
            self.valid(x),
        ensures
            self.valid(self.identity_spec()),
            self.op_spec(self.identity_spec(), x) == x,
            self.op_spec(x, self.identity_spec()) == x,
    ;

    proof fn lemma_associative(&self, x: Self::Elem, y: Self::Elem, z: Self::Elem)
        requires
            self.valid(x),
            self.valid(y),
            self.valid(z),
        ensures
            self.op_spec(self.op_spec(x, y), z) == self.op_spec(x, self.op_spec(y, z)),
    ;
}

/// The operation folded over `k` copies of `b`.
pub open spec fn power<M: Monoid>(m: M, b: M::Elem, k: nat) -> M::Elem
    decreases k,
{
    if k == 0 {
        m.identity_spec()
    } else {
        m.op_spec(power(m, b, (k - 1) as nat), b)
    }
}

pub proof fn lemma_power_valid<M: Monoid>(m: M, b: M::Elem, k: nat)
    requires
        m.valid(b),
    ensures
        m.valid(power(m, b, k)),
    decreases k,
{
    m.lemma_identity(b);
    if k > 0 {
        lemma_power_valid(m, b, (k - 1) as nat);
        m.lemma_closed(power(m, b, (k - 1) as nat), b);
    }
}

/// `b^(i+j) == b^i * b^j`.
pub proof fn lemma_power_add<M: Monoid>(m: M, b: M::Elem, i: nat, j: nat)
    requires
        m.valid(b),
    ensures
        power(m, b, i + j) == m.op_spec(power(m, b, i), power(m, b, j)),
    decreases j,
{
    lemma_power_valid(m, b, i);
    m.lemma_identity(power(m, b, i));
    if j > 0 {
        lemma_power_add(m, b, i, (j - 1) as nat);
        lemma_power_valid(m, b, (j - 1) as nat);
        m.lemma_associative(power(m, b, i), power(m, b, (j - 1) as nat), b);
        assert(i + j - 1 == i + (j - 1));
    }
}

/// `(b*b)^k == b^(2k)`.
pub proof fn lemma_power_double<M: Monoid>(m: M, b: M::Elem, k: nat)
    requires
        m.valid(b),
    ensures
        power(m, m.op_spec(b, b), k) == power(m, b, 2 * k),
    decreases k,
{
    m.lemma_identity(b);
    if k > 0 {
        lemma_power_double(m, b, (k - 1) as nat);
        lemma_power_add(m, b, (2 * (k - 1)) as nat, 2);
        reveal_with_fuel(power, 3);
        assert(2 * k == 2 * (k - 1) + 2);
    }
}

/// `b^1 == b`.
pub proof fn lemma_power_one<M: Monoid>(m: M, b: M::Elem)
    requires
        m.valid(b),
    ensures
        power(m, b, 1) == b,
{
    m.lemma_identity(b);
    reveal_with_fuel(power, 2);
}

/// The monoid operation folded over `exponent` copies of `base`, in
/// `O(log exponent)` operations; exponent `0` gives the identity at once.
pub fn positive_double_and_add<M: Monoid>(m: &M, base: M::Elem, exponent: u64) -> (r: M::Elem)
    requires
        m.valid(base),
    ensures
        r == power(*m, base, exponent as nat),
{
    if exponent == 0 {
        return m.identity();
    }
    let ghost target = power(*m, base, exponent as nat);
    let mut e: u64 = exponent;
    let mut b = base;
    while e % 2 == 0
        invariant
            e > 0,
            m.valid(b),
            power(*m, b, e as nat) == target,
        decreases e,
    {
        proof {
            lemma_power_double(*m, b, (e / 2) as nat);
            m.lemma_closed(b, b);
        }
        b = m.op(b, b);
        e = e / 2;
    }
    if e == 1 {
        proof {
            lemma_power_one(*m, b);
        }
        return b;
    }
    let mut acc = b;
    proof {
        lemma_power_add(*m, b, 1, (e - 1) as nat);
        lemma_power_one(*m, b);
    }
    while e > 1
        invariant
            e >= 1,
            m.valid(b),
            m.valid(acc),
            m.op_spec(acc, power(*m, b, (e - e % 2) as nat)) == target,
        decreases e,
    {
        let ghost (acc0, b0, e0) = (acc, b, e);
        proof {
            lemma_power_double(*m, b0, (e0 / 2) as nat);
            assert((e0 - e0 % 2) as nat == 2 * ((e0 / 2) as nat));
            m.lemma_closed(b0, b0);
        }
        e = e / 2;
        b = m.op(b, b);
        if e % 2 == 1 {
            proof {
                lemma_power_add(*m, b, 1, (e - 1) as nat);
                lemma_power_one(*m, b);
                lemma_power_valid(*m, b, (e - 1) as nat);
                m.lemma_associative(acc, b, power(*m, b, (e - 1) as nat));
                m.lemma_closed(acc, b);
            }
            acc = m.op(acc, b);
        }
    }
    proof {
        m.lemma_identity(acc);
    }
    acc
}

/// As `positive_double_and_add`, for a signed exponent: a negative one first
/// replaces the base by `inversion(base)` and takes the exponent's magnitude.
pub fn possibly_negative_double_and_add<M: Monoid, F: FnOnce(M::Elem) -> M::Elem>(
    m: &M,
    base: M::Elem,
    inversion: F,
    exponent: i64,
) -> (r: M::Elem)
    requires
        m.valid(base),
        exponent < 0 ==> inversion.requires((base,)),
        forall|y: M::Elem| inversion.ensures((base,), y) ==> m.valid(y),
    ensures
        exponent >= 0 ==> r == power(*m, base, exponent as nat),
        exponent < 0 ==> exists|y: M::Elem|
            inversion.ensures((base,), y) && r == power(*m, y, (-exponent) as nat),
{
    if exponent == 0 {
        return m.identity();
    }
    if exponent < 0 {
        let inverse = inversion(base);
        let magnitude: u64 = (-(exponent + 1)) as u64 + 1;
        return positive_double_and_add(m, inverse, magnitude);
    }
    positive_double_and_add(m, base, exponent as u64)
}

} // verus!
