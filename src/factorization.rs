//! Factorizations as sorted divisor/multiplicity lists; trial division,
//! Pollard's rho, and an orchestrator that combines them.
use vstd::prelude::*;
use vstd::arithmetic::div_mod::{lemma_fundamental_div_mod, lemma_small_mod};
use vstd::arithmetic::power::pow;
use crate::arith::{gcd, is_prime, lemma_gcd_divides};
use crate::primes::{miller_rabin_with_randomness, MillerRabinResult};
use crate::random::sample_range;

verus! {

/// `p^m` for an entry `(p, m)`.
pub open spec fn entry_power(e: (u64, u32)) -> int {
    pow(e.0 as int, e.1 as nat)
}

/// The number a list of entries stands for.
pub open spec fn product(s: Seq<(u64, u32)>) -> int
    decreases s.len(),
{
    if s.len() == 0 {
        1
    } else {
        product(s.drop_last()) * entry_power(s.last())
    }
}

/// The total multiplicity of `p` in a list of entries.
pub open spec fn mult(s: Seq<(u64, u32)>, p: u64) -> int
    decreases s.len(),
{
    if s.len() == 0 {
        0
    } else {
        mult(s.drop_last(), p) + if s.last().0 == p {
            s.last().1 as int
        } else {
            0
        }
    }
}

/// Divisors at least 2, strictly increasing.
pub open spec fn sorted_divisors(s: Seq<(u64, u32)>) -> bool {
    &&& forall|i: int| 0 <= i < s.len() ==> #[trigger] s[i].0 >= 2
    &&& forall|i: int, j: int| 0 <= i < j < s.len() ==> #[trigger] s[i].0 < #[trigger] s[j].0
}

proof fn lemma_split(a: Seq<(u64, u32)>, b: Seq<(u64, u32)>)
    ensures
        product(a + b) == product(a) * product(b),
        forall|p: u64| #[trigger] mult(a + b, p) == mult(a, p) + mult(b, p),
    decreases b.len(),
{
    if b.len() == 0 {
        assert(a + b =~= a);
        assert forall|p: u64| #[trigger] mult(a + b, p) == mult(a, p) + mult(b, p) by {}
    } else {
        lemma_split(a, b.drop_last());
        assert((a + b).drop_last() =~= a + b.drop_last());
        assert((a + b).last() == b.last());
        assert forall|p: u64| #[trigger] mult(a + b, p) == mult(a, p) + mult(b, p) by {
            assert(mult(a + b.drop_last(), p) == mult(a, p) + mult(b.drop_last(), p));
        }
        vstd::arithmetic::mul::lemma_mul_is_associative(
            product(a),
            product(b.drop_last()),
            entry_power(b.last()),
        );
    }
}

proof fn lemma_single(x: (u64, u32))
    ensures
        product(seq![x]) == entry_power(x),
        forall|p: u64| #[trigger] mult(seq![x], p) == if x.0 == p { x.1 as int } else { 0 },
{
    assert(seq![x].drop_last() =~= Seq::<(u64, u32)>::empty());
    reveal_with_fuel(product, 2);
    reveal_with_fuel(mult, 2);
}

/// Replacing or inserting the entry at `i`, in terms of the pieces around it.
proof fn lemma_pieces(s: Seq<(u64, u32)>, i: int, x: (u64, u32))
    requires
        0 <= i <= s.len(),
    ensures
        product(s.insert(i, x)) == product(s) * entry_power(x),
        forall|p: u64| #[trigger] mult(s.insert(i, x), p) == mult(s, p) + if x.0 == p {
            x.1 as int
        } else {
            0
        },
        i < s.len() ==> product(s.update(i, x)) * entry_power(s[i]) == product(s) * entry_power(
            x,
        ),
        i < s.len() ==> forall|p: u64| #[trigger] mult(s.update(i, x), p) + if s[i].0 == p {
            s[i].1 as int
        } else {
            0
        } == mult(s, p) + if x.0 == p {
            x.1 as int
        } else {
            0
        },
{
    let pre = s.subrange(0, i);
    let post = s.subrange(i, s.len() as int);
    assert(s =~= pre + post);
    assert(s.insert(i, x) =~= (pre + seq![x]) + post);
    lemma_split(pre, post);
    lemma_split(pre + seq![x], post);
    lemma_split(pre, seq![x]);
    lemma_single(x);
    vstd::arithmetic::mul::lemma_mul_is_associative(product(pre), entry_power(x), product(post));
    vstd::arithmetic::mul::lemma_mul_is_associative(product(pre), product(post), entry_power(x));
    vstd::arithmetic::mul::lemma_mul_is_commutative(entry_power(x), product(post));
    if i < s.len() {
        let post1 = s.subrange(i + 1, s.len() as int);
        assert(post =~= seq![s[i]] + post1);
        assert(s.update(i, x) =~= (pre + seq![x]) + post1);
        lemma_split(seq![s[i]], post1);
        lemma_split(pre + seq![x], post1);
        lemma_single(s[i]);
        let (a, b, c, d) = (product(pre), product(post1), entry_power(x), entry_power(s[i]));
        assert((a * c) * b * d == a * (d * b) * c) by (nonlinear_arith);
    }
}

proof fn lemma_mult_absent(s: Seq<(u64, u32)>, p: u64)
    requires
        forall|i: int| 0 <= i < s.len() ==> #[trigger] s[i].0 != p,
    ensures
        mult(s, p) == 0,
    decreases s.len(),
{
    if s.len() > 0 {
        lemma_mult_absent(s.drop_last(), p);
    }
}

proof fn lemma_mult_at(s: Seq<(u64, u32)>, i: int)
    requires
        sorted_divisors(s),
        0 <= i < s.len(),
    ensures
        mult(s, s[i].0) == s[i].1,
{
    let pre = s.subrange(0, i);
    let post = s.subrange(i + 1, s.len() as int);
    assert(s =~= (pre + seq![s[i]]) + post);
    lemma_split(pre + seq![s[i]], post);
    lemma_split(pre, seq![s[i]]);
    lemma_single(s[i]);
    assert forall|k: int| 0 <= k < pre.len() implies #[trigger] pre[k].0 != s[i].0 by {
        assert(s[k].0 < s[i].0);
    }
    assert forall|k: int| 0 <= k < post.len() implies #[trigger] post[k].0 != s[i].0 by {
        assert(s[i].0 < s[i + 1 + k].0);
    }
    lemma_mult_absent(pre, s[i].0);
    lemma_mult_absent(post, s[i].0);
}

proof fn lemma_product_positive(s: Seq<(u64, u32)>)
    requires
        forall|i: int| 0 <= i < s.len() ==> #[trigger] s[i].0 >= 1,
    ensures
        product(s) >= 1,
    decreases s.len(),
{
    if s.len() > 0 {
        lemma_product_positive(s.drop_last());
        vstd::arithmetic::power::lemma_pow_positive(s.last().0 as int, s.last().1 as nat);
        assert(entry_power(s.last()) >= 1);
        assert(product(s.drop_last()) * entry_power(s.last()) >= 1) by (nonlinear_arith)
            requires
                product(s.drop_last()) >= 1,
                entry_power(s.last()) >= 1,
        ;
    }
}

/// A number as prime divisors (never 0 or 1, no repeats) with multiplicities;
/// the product of `divisor^multiplicity` is the number.
#[derive(Debug, Clone)]
pub struct Factorization {
    map: Vec<(u64, u32)>,
}

impl Factorization {
    /// The entries, by increasing divisor.
    pub closed spec fn entries(&self) -> Seq<(u64, u32)> {
        self.map@
    }

    /// Sorted divisors at least 2, each with a positive multiplicity.
    pub open spec fn wf(&self) -> bool {
        &&& sorted_divisors(self.entries())
        &&& forall|i: int| 0 <= i < self.entries().len() ==> #[trigger] self.entries()[i].1 >= 1
    }

    /// The number this factorization stands for.
    pub open spec fn value(&self) -> int {
        product(self.entries())
    }

    /// The multiplicity of `p` (zero where it is absent).
    pub open spec fn multiplicity(&self, p: u64) -> int {
        mult(self.entries(), p)
    }

    /// The empty factorization, of one.
    pub fn empty() -> (r: Self)
        ensures
            r.wf(),
            r.entries() == Seq::<(u64, u32)>::empty(),
            r.value() == 1,
    {
        Factorization { map: Vec::new() }
    }

    /// The entries as a vector, by increasing divisor.
    pub fn to_vec(&self) -> (r: Vec<(u64, u32)>)
        ensures
            r@ == self.entries(),
    {
        let mut r: Vec<(u64, u32)> = Vec::new();
        let mut i: usize = 0;
        while i < self.map.len()
            invariant
                i <= self.map.len(),
                r@ == self.map@.subrange(0, i as int),
            decreases self.map.len() - i,
        {
            r.push(self.map[i]);
            i = i + 1;
            assert(r@ =~= self.map@.subrange(0, i as int));
        }
        assert(self.map@.subrange(0, i as int) =~= self.map@);
        r
    }

    /// Adds `m` to the multiplicity of `p`, inserting it where it is absent.
    fn add_entry(&mut self, p: u64, m: u32)
        requires
            old(self).wf(),
            p >= 2,
            m >= 1,
            old(self).multiplicity(p) + m <= u32::MAX,
        ensures
            final(self).wf(),
            final(self).value() == old(self).value() * pow(p as int, m as nat),
            forall|q: u64| #[trigger] final(self).multiplicity(q) == old(self).multiplicity(q) + if q == p {
                m as int
            } else {
                0
            },
    {
        let ghost s = self.map@;
        let mut i: usize = 0;
        while i < self.map.len() && self.map[i].0 < p
            invariant
                self.map@ == s,
                sorted_divisors(s),
                i <= s.len(),
                forall|k: int| 0 <= k < i ==> #[trigger] s[k].0 < p,
            decreases s.len() - i,
        {
            i = i + 1;
        }
        if i < self.map.len() && self.map[i].0 == p {
            let old_m = self.map[i].1;
            proof {
                lemma_mult_at(s, i as int);
                lemma_pieces(s, i as int, (p, (old_m + m) as u32));
                vstd::arithmetic::power::lemma_pow_adds(p as int, old_m as nat, m as nat);
                let (a, b, c) = (product(s.update(i as int, (p, (old_m + m) as u32))),
                    pow(p as int, old_m as nat), pow(p as int, m as nat));
                vstd::arithmetic::power::lemma_pow_positive(p as int, old_m as nat);
                vstd::arithmetic::mul::lemma_mul_is_associative(product(s), b, c);
                assert(a * b == product(s) * (b * c));
                assert(a * b == (product(s) * c) * b) by (nonlinear_arith)
                    requires a * b == product(s) * (b * c);
                vstd::arithmetic::mul::lemma_mul_equality_converse(b, a, product(s) * c);
                assert(a == product(s) * c) by (nonlinear_arith)
                    requires a * b == (product(s) * c) * b, b > 0;
            }
            self.map.set(i, (p, old_m + m));
        } else {
            proof {
                lemma_pieces(s, i as int, (p, m));
            }
            self.map.insert(i, (p, m));
            proof {
                let t = self.map@;
                assert forall|k: int| 0 <= k < t.len() implies t[k] == if k < i {
                    s[k]
                } else if k == i {
                    (p, m)
                } else {
                    s[k - 1]
                } by {}
                assert forall|a: int, b: int| 0 <= a < b < t.len() implies #[trigger] t[a].0
                    < #[trigger] t[b].0 by {
                    if b < i {
                    } else if b == i {
                    } else if a < i {
                        assert(s[a].0 < p);
                        assert(i < s.len() ==> p < s[i as int].0);
                        if b - 1 > i {
                            assert(s[i as int].0 < s[b - 1].0);
                        }
                    } else if a == i {
                        if b - 1 > i {
                            assert(s[i as int].0 < s[b - 1].0);
                        }
                    } else {
                        assert(s[a - 1].0 < s[b - 1].0);
                    }
                }
            }
        }
    }

    /// A factorization from `(divisor, multiplicity)` pairs; divisor 1 is
    /// dropped.
    pub fn new(v: Vec<(u64, u32)>) -> (r: Self)
        requires
            forall|i: int| 0 <= i < v.len() ==> #[trigger] v[i].0 != 0,
            forall|i: int| 0 <= i < v.len() ==> #[trigger] v[i].1 >= 1,
            forall|i: int, j: int|
                0 <= i < j < v.len() && #[trigger] v[i].0 == #[trigger] v[j].0 ==> v[i].0 == 1,
        ensures
            r.wf(),
            r.value() == product(v@),
            r.multiplicity(1) == 0,
            forall|p: u64| p != 1 ==> #[trigger] r.multiplicity(p) == mult(v@, p),
    {
        let mut r = Self::empty();
        let mut i: usize = 0;
        while i < v.len()
            invariant
                0 <= i <= v.len(),
                forall|k: int| 0 <= k < v.len() ==> #[trigger] v[k].0 != 0,
                forall|k: int| 0 <= k < v.len() ==> #[trigger] v[k].1 >= 1,
                forall|a: int, b: int|
                    0 <= a < b < v.len() && #[trigger] v[a].0 == #[trigger] v[b].0 ==> v[a].0 == 1,
                r.wf(),
                r.value() == product(v@.subrange(0, i as int)),
                r.multiplicity(1) == 0,
                forall|p: u64| p != 1 ==> #[trigger] r.multiplicity(p) == mult(v@.subrange(0, i as int), p),
            decreases v.len() - i,
        {
            let (p, m) = v[i];
            let ghost pre = v@.subrange(0, i as int);
            proof {
                assert(v@.subrange(0, i + 1) =~= pre.push((p, m)));
                assert(pre.push((p, m)).drop_last() =~= pre);
                assert(product(pre.push((p, m))) == product(pre) * entry_power((p, m)));
                assert forall|q: u64| #[trigger] mult(pre.push((p, m)), q) == mult(pre, q) + if p == q {
                    m as int
                } else {
                    0
                } by {}
            }
            if p != 1 {
                proof {
                    assert forall|k: int| 0 <= k < pre.len() implies #[trigger] pre[k].0 != p by {
                        assert(v[k].0 != v[i as int].0 || v[k].0 == 1);
                    }
                    lemma_mult_absent(pre, p);
                }
                r.add_entry(p, m);
            } else {
                proof {
                    vstd::arithmetic::power::lemma1_pow(m as nat);
                    assert(product(pre.push((p, m))) == product(pre));
                }
            }
            i = i + 1;
        }
        proof {
            assert(v@.subrange(0, i as int) =~= v@);
        }
        r
    }

    /// The number this factorization stands for.
    pub fn n(&self) -> (r: u64)
        requires
            self.wf(),
            self.value() <= u64::MAX,
        ensures
            r == self.value(),
    {
        let ghost s = self.map@;
        let mut acc: u64 = 1;
        let mut i: usize = 0;
        while i < self.map.len()
            invariant
                s == self.map@,
                sorted_divisors(s),
                product(s) <= u64::MAX,
                i <= s.len(),
                acc == product(s.subrange(0, i as int)),
            decreases s.len() - i,
        {
            let (p, m) = self.map[i];
            let ghost pre = s.subrange(0, i as int);
            let ghost rest = s.subrange(i + 1, s.len() as int);
            proof {
                assert(s =~= (pre + seq![(p, m)]) + rest);
                lemma_split(pre + seq![(p, m)], rest);
                lemma_split(pre, seq![(p, m)]);
                lemma_single((p, m));
                assert forall|k: int| 0 <= k < rest.len() implies #[trigger] rest[k].0 >= 1 by {
                    assert(s[i + 1 + k].0 >= 2);
                }
                assert forall|k: int| 0 <= k < pre.len() implies #[trigger] pre[k].0 >= 1 by {
                    assert(s[k].0 >= 2);
                }
                lemma_product_positive(rest);
                lemma_product_positive(pre);
                vstd::arithmetic::power::lemma_pow_positive(p as int, m as nat);
                vstd::arithmetic::power::lemma_pow0(p as int);
                assert(product(pre) * entry_power((p, m)) <= product(s)) by (nonlinear_arith)
                    requires
                        product(s) == product(pre) * entry_power((p, m)) * product(rest),
                        product(rest) >= 1,
                        product(pre) >= 1,
                        entry_power((p, m)) >= 1,
                ;
            }
            let mut j: u32 = 0;
            while j < m
                invariant
                    s == self.map@,
                    p >= 2,
                    j <= m,
                    product(pre) >= 1,
                    product(pre) * pow(p as int, m as nat) <= u64::MAX,
                    acc == product(pre) * pow(p as int, j as nat),
                decreases m - j,
            {
                proof {
                    reveal(pow);
                    vstd::arithmetic::power::lemma_pow_increases(p as nat, (j + 1) as nat, m as nat);
                    assert(pow(p as int, (j + 1) as nat) == p * pow(p as int, j as nat));
                    assert(product(pre) * pow(p as int, (j + 1) as nat) <= product(pre) * pow(
                        p as int,
                        m as nat,
                    )) by (nonlinear_arith)
                        requires
                            pow(p as int, (j + 1) as nat) <= pow(p as int, m as nat),
                            product(pre) >= 1,
                    ;
                    assert(acc * p == product(pre) * pow(p as int, (j + 1) as nat)) by (nonlinear_arith)
                        requires
                            acc == product(pre) * pow(p as int, j as nat),
                            pow(p as int, (j + 1) as nat) == p * pow(p as int, j as nat),
                    ;
                }
                acc = acc * p;
                j = j + 1;
            }
            proof {
                assert(s.subrange(0, i + 1) =~= pre.push((p, m)));
                assert(pre.push((p, m)).drop_last() =~= pre);
            }
            i = i + 1;
        }
        proof {
            assert(s.subrange(0, i as int) =~= s);
        }
        acc
    }

    /// The factorization of the product: multiplicities of shared divisors
    /// add up.
    pub fn merge(self, fact: Factorization) -> (r: Self)
        requires
            self.wf(),
            fact.wf(),
            forall|p: u64| #[trigger] self.multiplicity(p) + fact.multiplicity(p) <= u32::MAX,
        ensures
            r.wf(),
            r.value() == self.value() * fact.value(),
            forall|p: u64| #[trigger] r.multiplicity(p) == self.multiplicity(p) + fact.multiplicity(p),
    {
        let ghost t = fact.map@;
        let mut r = self;
        let mut i: usize = 0;
        while i < fact.map.len()
            invariant
                t == fact.map@,
                fact.wf(),
                i <= t.len(),
                r.wf(),
                forall|p: u64| #[trigger] self.multiplicity(p) + fact.multiplicity(p) <= u32::MAX,
                r.value() == self.value() * product(t.subrange(0, i as int)),
                forall|p: u64| #[trigger] r.multiplicity(p) == self.multiplicity(p) + mult(t.subrange(0, i as int), p),
            decreases t.len() - i,
        {
            let (p, m) = fact.map[i];
            let ghost pre = t.subrange(0, i as int);
            proof {
                assert(t.subrange(0, i + 1) =~= pre.push((p, m)));
                assert(pre.push((p, m)).drop_last() =~= pre);
                assert forall|k: int| 0 <= k < pre.len() implies #[trigger] pre[k].0 != p by {
                    assert(t[k].0 < t[i as int].0);
                }
                lemma_mult_absent(pre, p);
                lemma_mult_at(t, i as int);
                assert(self.multiplicity(p) + fact.multiplicity(p) <= u32::MAX);
                vstd::arithmetic::mul::lemma_mul_is_associative(self.value(), product(pre), pow(p as int, m as nat));
            }
            r.add_entry(p, m);
            i = i + 1;
        }
        proof {
            assert(t.subrange(0, i as int) =~= t);
        }
        r
    }
}

/// `c` divides `b` and `b` divides `a`, so `c` divides `a`.
proof fn lemma_mod_trans(a: nat, b: nat, c: nat)
    requires
        b > 0,
        c > 0,
        a % b == 0,
        b % c == 0,
    ensures
        a % c == 0,
{
    lemma_fundamental_div_mod(a as int, b as int);
    lemma_fundamental_div_mod(b as int, c as int);
    let (k, j) = ((a / b) as int, (b / c) as int);
    assert(a == c * (j * k)) by (nonlinear_arith)
        requires
            a == b * k,
            b == c * j,
    ;
    vstd::arithmetic::div_mod::lemma_mod_multiples_basic(j * k, c as int);
    vstd::arithmetic::mul::lemma_mul_is_commutative(c as int, j * k);
}

/// `2^64` bounds every power of two below `u64::MAX + 1`.
proof fn lemma_pow2_bound(k: nat)
    requires
        pow(2, k) <= u64::MAX,
    ensures
        k < 64,
{
    if k >= 64 {
        vstd::arithmetic::power::lemma_pow_increases(2, 64, k);
        vstd::arithmetic::power2::lemma2_to64();
        vstd::arithmetic::power2::lemma_pow2(64);
    }
}

/// Divides out candidates 2, 3, 4, ... in turn until nothing is left; every
/// divisor found this way is prime.
pub fn trial_factorization(n: u64) -> (r: Factorization)
    requires
        n >= 1,
    ensures
        r.wf(),
        r.value() == n,
        forall|i: int| 0 <= i < r.entries().len() ==> is_prime(#[trigger] r.entries()[i].0 as nat),
        forall|i: int| 0 <= i < r.entries().len() ==> #[trigger] r.entries()[i].1 >= 1,
        forall|p: u64| #[trigger] r.multiplicity(p) > 0 ==> is_prime(p as nat),
        forall|p: u64| #[trigger] r.multiplicity(p) < 64,
{
    let mut r = Factorization::empty();
    if n == 1 {
        return r;
    }
    let mut cur: u64 = n;
    let mut s: u64 = 2;
    let ghost mut count: nat = 0;
    proof {
        reveal(pow);
        assert forall|p: u64| #[trigger] r.multiplicity(p) == 0 by {
            lemma_mult_absent(r.entries(), p);
        }
    }
    while cur != 1
        invariant
            cur >= 1,
            s >= 2,
            cur > 1 ==> s <= cur,
            r.wf(),
            r.value() * cur == n,
            forall|q: nat| 2 <= q < s ==> #[trigger] (cur as nat % q) != 0,
            forall|i: int| 0 <= i < r.entries().len() ==> #[trigger] r.entries()[i].1 >= 1,
            forall|p: u64| #[trigger] r.multiplicity(p) > 0 ==> is_prime(p as nat),
            forall|p: u64| #[trigger] r.multiplicity(p) <= count,
            cur * pow(2, count) <= n,
        decreases cur, cur - s,
    {
        if cur % s == 0 {
            proof {
                assert forall|q: nat| 2 <= q < s implies #[trigger] (s as nat % q) != 0 by {
                    if s as nat % q == 0 {
                        lemma_mod_trans(cur as nat, s as nat, q);
                    }
                }
                assert(is_prime(s as nat));
                reveal(pow);
                assert(pow(2, count + 1) == 2 * pow(2, count));
                lemma_fundamental_div_mod(cur as int, s as int);
                vstd::arithmetic::power::lemma_pow_positive(2, count);
                assert(cur / s >= 1) by (nonlinear_arith)
                    requires
                        cur == s * (cur / s),
                        cur >= 1,
                        cur / s >= 0,
                ;
                assert((cur / s) * pow(2, count + 1) <= cur * pow(2, count)) by (nonlinear_arith)
                    requires
                        pow(2, count + 1) == 2 * pow(2, count),
                        pow(2, count) > 0,
                        s >= 2,
                        cur == s * (cur / s),
                        cur / s >= 1,
                {
                    assert(2 * (cur / s) <= cur);
                }
                assert(pow(2, count + 1) <= (cur / s) * pow(2, count + 1)) by (nonlinear_arith)
                    requires
                        cur / s >= 1,
                        pow(2, count) > 0,
                        pow(2, count + 1) == 2 * pow(2, count),
                ;
                lemma_pow2_bound(count + 1);
                lemma_fundamental_div_mod(cur as int, s as int);
            }
            let ghost old_r = r;
            r.add_entry(s, 1);
            proof {
                vstd::arithmetic::power::lemma_pow1(s as int);
                assert(cur / s < cur) by (nonlinear_arith)
                    requires
                        cur == s * (cur / s),
                        cur >= 1,
                        s >= 2,
                ;
                assert(r.value() * (cur / s) == n) by (nonlinear_arith)
                    requires
                        r.value() == old_r.value() * s,
                        old_r.value() * cur == n,
                        cur == s * (cur / s),
                {
                    vstd::arithmetic::mul::lemma_mul_is_associative(old_r.value(), s as int, (cur / s) as int);
                }
                assert forall|q: nat| 2 <= q < s implies #[trigger] ((cur / s) as nat % q) != 0 by {
                    if (cur / s) as nat % q == 0 {
                        vstd::arithmetic::div_mod::lemma_mod_multiples_basic(s as int, (cur / s) as int);
                        vstd::arithmetic::mul::lemma_mul_is_commutative(s as int, (cur / s) as int);
                        lemma_mod_trans(cur as nat, (cur / s) as nat, q);
                    }
                }
                if cur / s > 1 && cur / s < s {
                    vstd::arithmetic::div_mod::lemma_mod_self_0((cur / s) as int);
                    assert(((cur / s) as nat % ((cur / s) as nat)) == 0);
                }
                vstd::arithmetic::power::lemma_pow1(s as int);
            }
            cur = cur / s;
            proof {
                count = count + 1;
            }
        } else {
            proof {
                if cur == s {
                    vstd::arithmetic::div_mod::lemma_mod_self_0(cur as int);
                }
                assert(s < cur);
            }
            s = s + 1;
        }
    }
    proof {
        assert forall|i: int| 0 <= i < r.entries().len() implies is_prime(#[trigger] r.entries()[i].0 as nat) by {
            lemma_mult_at(r.entries(), i);
            assert(r.multiplicity(r.entries()[i].0) > 0);
        }
        assert forall|p: u64| #[trigger] r.multiplicity(p) < 64 by {
            lemma_pow2_bound(count);
        }
    }
    r
}

/// Relies on `num::Integer::gcd` for `u64` (Stein's algorithm): the greatest
/// common divisor, with `gcd(0, b) == b`.
#[verifier::external_body]
fn gcd_u64(a: u64, b: u64) -> (r: u64)
    ensures
        r == gcd(a as nat, b as nat),
{
    num::Integer::gcd(&a, &b)
}

/// One step of the rho iteration, `x -> x^2 + b mod n`.
pub open spec fn rho_map(x: nat, b: nat, n: nat) -> nat {
    (x * x + b) % n
}

/// The rho sequence from `s` after `k` steps.
pub open spec fn rho_iter(s: nat, b: nat, n: nat, k: nat) -> nat
    decreases k,
{
    if k == 0 {
        s
    } else {
        rho_map(rho_iter(s, b, n, (k - 1) as nat), b, n)
    }
}

pub open spec fn abs_diff(x: nat, y: nat) -> nat {
    if x >= y {
        (x - y) as nat
    } else {
        (y - x) as nat
    }
}

/// Floyd's search from step `k` for at most `fuel` steps: the first
/// `gcd(|x_k - x_2k|, n)` other than 1, kept where it is a proper divisor.
pub open spec fn rho_search(n: nat, s: nat, b: nat, k: nat, fuel: nat) -> Option<u64>
    decreases fuel,
{
    if fuel == 0 {
        None
    } else {
        let g = gcd(abs_diff(rho_iter(s, b, n, k), rho_iter(s, b, n, 2 * k)), n);
        if g != 1 {
            if g >= n {
                None
            } else {
                Some(g as u64)
            }
        } else {
            rho_search(n, s, b, k + 1, (fuel - 1) as nat)
        }
    }
}

proof fn lemma_rho_search_divides(n: nat, s: nat, b: nat, k: nat, fuel: nat)
    requires
        0 < n <= u64::MAX,
    ensures
        rho_search(n, s, b, k, fuel) matches Some(g) ==> 1 < g < n && n % (g as nat) == 0,
    decreases fuel,
{
    if fuel > 0 {
        let g = gcd(abs_diff(rho_iter(s, b, n, k), rho_iter(s, b, n, 2 * k)), n);
        lemma_rho_search_divides(n, s, b, k + 1, (fuel - 1) as nat);
        if g != 1 && g < n {
            lemma_gcd_divides(abs_diff(rho_iter(s, b, n, k), rho_iter(s, b, n, 2 * k)), n);
            let q = choose|q: int| #[trigger] (q * (g as int)) == n as int;
            if g == 0 {
                assert(q * 0 == 0);
            }
            vstd::arithmetic::div_mod::lemma_mod_multiples_basic(q, g as int);
            assert((g as u64) as nat == g);
        }
    }
}

fn rho_step(x: u64, b: u64, n: u64) -> (r: u64)
    requires
        n > 0,
    ensures
        r == rho_map(x as nat, b as nat, n as nat),
{
    proof {
        assert(x as u128 * x as u128 <= u64::MAX as u128 * u64::MAX as u128) by (nonlinear_arith)
            requires
                x <= u64::MAX,
        ;
    }
    ((x as u128 * x as u128 + b as u128) % (n as u128)) as u64
}

/// Pollard's rho from start `start` and shift `shift`: Floyd's two-speed
/// walk for at most `n` steps, until `gcd(|x_k - x_2k|, n)` is no longer 1.
/// A gcd of `n` itself gives no factor.
pub fn pollard_rho_from(n: u64, start: u64, shift: u64) -> (r: Option<u64>)
    requires
        n > 1,
    ensures
        r == rho_search(n as nat, start as nat, shift as nat, 1, n as nat),
        r matches Some(g) ==> 1 < g < n && n % g == 0,
{
    proof {
        lemma_rho_search_divides(n as nat, start as nat, shift as nat, 1, n as nat);
    }
    let ghost (gn, gs, gb) = (n as nat, start as nat, shift as nat);
    let mut a = start;
    let mut b = start;
    let mut k: u64 = 0;
    while k < n
        invariant
            gn == n,
            gs == start,
            gb == shift,
            n > 1,
            k <= n,
            a == rho_iter(gs, gb, gn, k as nat),
            b == rho_iter(gs, gb, gn, 2 * k as nat),
            rho_search(gn, gs, gb, 1, gn) == rho_search(gn, gs, gb, (k + 1) as nat, (n - k) as nat),
        decreases n - k,
    {
        a = rho_step(a, shift, n);
        let fb = rho_step(b, shift, n);
        b = rho_step(fb, shift, n);
        k = k + 1;
        proof {
            assert(2 * k as nat == ((2 * (k - 1) + 1) + 1) as nat);
            assert(rho_iter(gs, gb, gn, (2 * (k - 1) + 1) as nat) == fb);
        }
        let diff = if a >= b { a - b } else { b - a };
        let g = gcd_u64(diff, n);
        if g != 1 {
            if g >= n {
                return None;
            } else {
                proof {
                    assert(rho_search(gn, gs, gb, 1, gn) == Some(g));
                    lemma_rho_search_divides(gn, gs, gb, 1, gn);
                    assert(1 < g < n && n as nat % g as nat == 0);
                }
                return Some(g);
            }
        }
    }
    None
}

/// One attempt of Pollard's rho with a random start in `[0, n)` and a random
/// shift in `[1, n - 2]`.
pub fn pollard_rho_single_factor(rng: &mut rand_chacha::ChaCha20Rng, n: u64) -> (r: Option<u64>)
    requires
        n > 2,
    ensures
        exists|s: nat, b: nat| s < n && 1 <= b <= n - 2 && r == rho_search(n as nat, s, b, 1, n as nat),
        r matches Some(g) ==> 1 < g < n && n % g == 0,
{
    let start = sample_range(rng, 0, n);
    let shift = sample_range(rng, 1, n - 1);
    pollard_rho_from(n, start, shift)
}

/// Up to `rounds` attempts of Pollard's rho; the first factor found.
pub fn pollard_rho_single_factor_repeat(
    rng: &mut rand_chacha::ChaCha20Rng,
    n: u64,
    rounds: usize,
) -> (r: Option<u64>)
    requires
        n > 2,
    ensures
        r matches Some(g) ==> 1 < g < n && n % g == 0,
        r matches Some(g) ==> exists|s: nat, b: nat|
            s < n && 1 <= b <= n - 2 && rho_search(n as nat, s, b, 1, n as nat) == Some(g),
        rounds == 0 ==> r is None && *final(rng) == *old(rng),
{
    let mut i: usize = 0;
    while i < rounds
        invariant
            n > 2,
            rounds == 0 ==> *rng == *old(rng),
        decreases rounds - i,
    {
        let partial = pollard_rho_single_factor(rng, n);
        if partial.is_some() {
            return partial;
        }
        i = i + 1;
    }
    None
}

/// How the orchestrator works: numbers below `trial_bound` go to trial
/// division; `rho_rounds` attempts of Pollard's rho per factor;
/// `miller_rabin_rounds` witnesses per primality test.
#[derive(Debug, Clone)]
pub struct PollardRhoParameters {
    pub trial_bound: u64,
    pub rho_rounds: usize,
    pub miller_rabin_rounds: usize,
}

/// The factorization of one divisor with multiplicity one.
fn single(p: u64) -> (r: Factorization)
    requires
        p >= 2,
    ensures
        r.wf(),
        r.value() == p,
        forall|q: u64| #[trigger] r.multiplicity(q) == if q == p { 1int } else { 0 },
{
    let v = vec![(p, 1u32)];
    proof {
        assert(v@ =~= seq![(p, 1u32)]);
    }
    let r = Factorization::new(v);
    proof {
        lemma_single((p, 1));
        vstd::arithmetic::power::lemma_pow1(p as int);
        assert(r.multiplicity(1) == 0);
    }
    r
}

/// A factorization whose only divisor is `n`, once, is `{n: 1}`.
proof fn lemma_entries_single(s: Seq<(u64, u32)>, n: u64)
    requires
        sorted_divisors(s),
        forall|i: int| 0 <= i < s.len() ==> #[trigger] s[i].1 >= 1,
        forall|q: u64| #[trigger] mult(s, q) == if q == n { 1int } else { 0 },
    ensures
        s == seq![(n, 1u32)],
{
    assert forall|i: int| 0 <= i < s.len() implies #[trigger] s[i] == (n, 1u32) by {
        lemma_mult_at(s, i);
        assert(mult(s, s[i].0) == s[i].1);
    }
    if s.len() == 0 {
        assert(mult(s, n) == 1);
    }
    if s.len() >= 2 {
        assert(s[0].0 < s[1].0);
    }
    assert(s =~= seq![(n, 1u32)]);
}

/// A number with positive multiplicity is one of the divisors.
proof fn lemma_mult_present(s: Seq<(u64, u32)>, p: u64)
    requires
        mult(s, p) > 0,
    ensures
        exists|i: int| 0 <= i < s.len() && #[trigger] s[i].0 == p,
{
    if !(exists|i: int| 0 <= i < s.len() && #[trigger] s[i].0 == p) {
        lemma_mult_absent(s, p);
    }
}

/// What one number still to be factored turns into.
#[derive(Debug)]
pub enum FactorStep {
    /// Factored completely.
    Done(Factorization),
    /// Split into two parts, both still to be factored.
    Split(u64, u64),
    /// Pollard's rho found no factor within its budget.
    Failed,
}

/// One step of the orchestrator on `m >= 2`, given the Miller–Rabin verdict
/// on `m` and, where rho was run, what it returned: a number not shown
/// composite is taken as prime; a composite below the trial bound (or at
/// most 2) is trial-divided; any other is split at rho's factor, and fails
/// where rho found none.
pub fn factor_step(m: u64, verdict: &MillerRabinResult, split: Option<u64>, trial_bound: u64) -> (r:
    FactorStep)
    requires
        m >= 2,
        split matches Some(g) ==> 1 < g < m && m % g == 0,
    ensures
        !verdict.spec_is_composite() ==> (r matches FactorStep::Done(f) && f.wf() && f.entries()
            == seq![(m, 1u32)]),
        verdict.spec_is_composite() && (m < trial_bound || m <= 2) ==> (r matches FactorStep::Done(f)
            && f.wf() && f.value() == m && forall|i: int|
            0 <= i < f.entries().len() ==> is_prime(#[trigger] f.entries()[i].0 as nat)),
        verdict.spec_is_composite() && m >= trial_bound && m > 2 ==> match split {
            Some(g) => r == FactorStep::Split(g, m / g),
            None => r is Failed,
        },
{
    if verdict.is_prime() {
        let v = vec![(m, 1u32)];
        proof {
            assert(v@ =~= seq![(m, 1u32)]);
        }
        let f = Factorization::new(v);
        proof {
            assert forall|q: u64| #[trigger] mult(f.entries(), q) == if q == m { 1int } else { 0 } by {
                lemma_single((m, 1u32));
                if q == 1 {
                    assert(f.multiplicity(1) == 0);
                } else {
                    assert(f.multiplicity(q) == mult(v@, q));
                }
            }
            lemma_entries_single(f.entries(), m);
        }
        FactorStep::Done(f)
    } else if m < trial_bound || m <= 2 {
        FactorStep::Done(trial_factorization(m))
    } else {
        match split {
            Some(g) => FactorStep::Split(g, m / g),
            None => FactorStep::Failed,
        }
    }
}

/// A divisor that the orchestrator may report: a prime, or an odd number on
/// which `rounds` random Miller–Rabin witnesses (fewer than the whole range)
/// found no proof of compositeness.
pub open spec fn accepted_divisor(k: nat, rounds: nat) -> bool {
    is_prime(k) || (k % 2 == 1 && rounds + 3 < k)
}

/// The product of the numbers still to be factored.
pub open spec fn pending_product(s: Seq<u64>) -> int
    decreases s.len(),
{
    if s.len() == 0 {
        1
    } else {
        pending_product(s.drop_last()) * s.last()
    }
}

/// `sum (2 m - 1)` over the numbers still to be factored: splitting `g h`
/// into `g` and `h` lowers it.
pub open spec fn pending_weight(s: Seq<u64>) -> nat
    decreases s.len(),
{
    if s.len() == 0 {
        0
    } else {
        pending_weight(s.drop_last()) + if s.last() == 0 {
            0
        } else {
            (2 * s.last() - 1) as nat
        }
    }
}

proof fn lemma_pending_positive(s: Seq<u64>)
    requires
        forall|i: int| 0 <= i < s.len() ==> #[trigger] s[i] >= 1,
    ensures
        pending_product(s) >= 1,
    decreases s.len(),
{
    if s.len() > 0 {
        lemma_pending_positive(s.drop_last());
        assert(pending_product(s.drop_last()) * s.last() >= 1) by (nonlinear_arith)
            requires
                pending_product(s.drop_last()) >= 1,
                s.last() >= 1,
        ;
    }
}

/// `k^m >= 2^m` for `k >= 2`.
proof fn lemma_pow_base(k: int, m: nat)
    requires
        k >= 2,
    ensures
        pow(k, m) >= pow(2, m),
        pow(2, m) >= 1,
    decreases m,
{
    reveal(pow);
    if m > 0 {
        lemma_pow_base(k, (m - 1) as nat);
        assert(k * pow(k, (m - 1) as nat) >= 2 * pow(2, (m - 1) as nat)) by (nonlinear_arith)
            requires
                k >= 2,
                pow(k, (m - 1) as nat) >= pow(2, (m - 1) as nat),
                pow(2, (m - 1) as nat) >= 1,
        ;
    }
}

proof fn lemma_product_positive_wf(f: Factorization)
    requires
        f.wf(),
    ensures
        f.value() >= 1,
{
    assert forall|k: int| 0 <= k < f.entries().len() implies #[trigger] f.entries()[k].0 >= 1 by {
        assert(f.entries()[k].0 >= 2);
    }
    lemma_product_positive(f.entries());
}

/// Where the number fits a `u64`, every multiplicity is below 64.
proof fn lemma_mult_bound(s: Seq<(u64, u32)>, p: u64)
    requires
        sorted_divisors(s),
        product(s) <= u64::MAX,
    ensures
        mult(s, p) < 64,
{
    if exists|i: int| 0 <= i < s.len() && #[trigger] s[i].0 == p {
        let i = choose|i: int| 0 <= i < s.len() && #[trigger] s[i].0 == p;
        lemma_mult_at(s, i);
        let pre = s.subrange(0, i);
        let post = s.subrange(i + 1, s.len() as int);
        assert(s =~= (pre + seq![s[i]]) + post);
        lemma_split(pre + seq![s[i]], post);
        lemma_split(pre, seq![s[i]]);
        lemma_single(s[i]);
        assert forall|k: int| 0 <= k < pre.len() implies #[trigger] pre[k].0 >= 1 by {
            assert(s[k].0 >= 2);
        }
        assert forall|k: int| 0 <= k < post.len() implies #[trigger] post[k].0 >= 1 by {
            assert(s[i + 1 + k].0 >= 2);
        }
        lemma_product_positive(pre);
        lemma_product_positive(post);
        lemma_pow_base(p as int, s[i].1 as nat);
        assert(pow(2, s[i].1 as nat) <= product(s)) by (nonlinear_arith)
            requires
                product(s) == product(pre) * entry_power(s[i]) * product(post),
                product(pre) >= 1,
                product(post) >= 1,
                entry_power(s[i]) >= pow(2, s[i].1 as nat),
                pow(2, s[i].1 as nat) >= 1,
        ;
        lemma_pow2_bound(s[i].1 as nat);
    } else {
        lemma_mult_absent(s, p);
    }
}

/// Factors `n`. Each number still to be factored is taken as prime where
/// Miller–Rabin does not show it composite; otherwise it is trial-divided
/// where it lies below the trial bound; otherwise Pollard's rho splits it in
/// two and both parts are factored in turn. `None` where the rho budget for
/// some part runs out. Every reported divisor is prime, or an odd number that
/// the random Miller–Rabin rounds did not show composite.
pub fn pollard_rho_factorisation(
    rng: &mut rand_chacha::ChaCha20Rng,
    params: PollardRhoParameters,
    n: u64,
) -> (r: Option<Factorization>)
    requires
        n >= 1,
    ensures
        r matches Some(f) ==> f.wf() && f.value() == n && forall|i: int|
            0 <= i < f.entries().len() ==> accepted_divisor(
                #[trigger] f.entries()[i].0 as nat,
                params.miller_rabin_rounds as nat,
            ),
        n == 1 ==> (r matches Some(f) && f.entries() == Seq::<(u64, u32)>::empty()),
        is_prime(n as nat) ==> (r matches Some(f) && f.entries() == seq![(n, 1u32)]),
        n < params.trial_bound ==> r is Some,
        r is None ==> n >= params.trial_bound && n > 2 && !is_prime(n as nat),
{
    let ghost rounds = params.miller_rabin_rounds as nat;
    let mut acc = Factorization::empty();
    if n == 1 {
        return Some(acc);
    }
    let mut stack: Vec<u64> = Vec::new();
    stack.push(n);
    proof {
        assert(stack@.drop_last() =~= Seq::<u64>::empty());
        assert(pending_product(stack@) == pending_product(Seq::<u64>::empty()) * n);
        assert forall|p: u64| #[trigger] acc.multiplicity(p) == 0 by {
            lemma_mult_absent(acc.entries(), p);
        }
    }
    while stack.len() > 0
        invariant
            acc.wf(),
            acc.value() * pending_product(stack@) == n,
            forall|i: int| 0 <= i < stack.len() ==> 1 <= #[trigger] stack@[i] <= n,
            forall|p: u64| #[trigger] acc.multiplicity(p) > 0 ==> accepted_divisor(p as nat, rounds),
            rounds == params.miller_rabin_rounds,
            is_prime(n as nat) ==> (stack@ == seq![n] && acc.entries().len() == 0) || (stack@.len() == 0
                && acc.entries() == seq![(n, 1u32)]),
        decreases pending_weight(stack@),
    {
        let ghost before = stack@;
        let ghost acc0 = acc;
        let m = stack.pop().unwrap();
        let ghost rest = stack@;
        proof {
            assert(rest =~= before.drop_last());
            assert(pending_weight(before) == pending_weight(rest) + (2 * m - 1));
            assert forall|i: int| 0 <= i < rest.len() implies 1 <= #[trigger] rest[i] <= n by {
                assert(rest[i] == before[i]);
            }
            lemma_pending_positive(rest);
            assert(acc.value() * pending_product(rest) * m == n) by (nonlinear_arith)
                requires
                    acc.value() * (pending_product(rest) * m) == n,
            ;
            lemma_product_positive_wf(acc);
            assert(acc.value() <= n) by (nonlinear_arith)
                requires
                    acc.value() * pending_product(rest) * m == n,
                    pending_product(rest) >= 1,
                    m >= 1,
                    acc.value() >= 1,
            ;
            assert forall|p: u64| #[trigger] acc.multiplicity(p) < 64 by {
                lemma_mult_bound(acc.entries(), p);
            }
        }
        if m != 1 {
            let verdict = miller_rabin_with_randomness(rng, m, params.miller_rabin_rounds);
            proof {
                if is_prime(n as nat) {
                    assert(before == seq![n]);
                    assert(m == n);
                }
            }
            let split = if verdict.is_composite() && m >= params.trial_bound && m > 2 {
                pollard_rho_single_factor_repeat(rng, m, params.rho_rounds)
            } else {
                None
            };
            match factor_step(m, &verdict, split, params.trial_bound) {
                FactorStep::Done(f) => {
                    let ghost f0 = f;
                    proof {
                        if !verdict.spec_is_composite() {
                            lemma_single((m, 1u32));
                            vstd::arithmetic::power::lemma_pow1(m as int);
                        }
                        assert(f0.value() == m);
                        assert forall|p: u64| #[trigger] f0.multiplicity(p) < 64 by {
                            lemma_mult_bound(f0.entries(), p);
                        }
                    }
                    acc = acc.merge(f);
                    proof {
                        if !verdict.spec_is_composite() {
                            crate::primes::lemma_sweep_never_possible(m as nat, 2);
                            assert(accepted_divisor(m as nat, rounds));
                            lemma_single((m, 1u32));
                            assert forall|q: u64| #[trigger] f0.multiplicity(q) == if q == m {
                                1int
                            } else {
                                0
                            } by {
                                assert(f0.multiplicity(q) == mult(seq![(m, 1u32)], q));
                            }
                            if is_prime(n as nat) {
                                assert(rest.len() == 0 && m == n);
                                assert forall|q: u64| #[trigger] mult(acc.entries(), q) == if q == n {
                                    1int
                                } else {
                                    0
                                } by {
                                    lemma_mult_absent(acc0.entries(), q);
                                    assert(acc.multiplicity(q) == acc0.multiplicity(q) + f0.multiplicity(q));
                                }
                                lemma_entries_single(acc.entries(), n);
                            }
                        }
                        assert forall|p: u64| #[trigger] acc.multiplicity(p) > 0 implies accepted_divisor(
                            p as nat,
                            rounds,
                        ) by {
                            assert(acc.multiplicity(p) == acc0.multiplicity(p) + f0.multiplicity(p));
                            if acc0.multiplicity(p) > 0 {
                                assert(accepted_divisor(p as nat, rounds));
                            } else {
                                assert(f0.multiplicity(p) > 0);
                                if verdict.spec_is_composite() {
                                    lemma_mult_present(f0.entries(), p);
                                    let i = choose|i: int| 0 <= i < f0.entries().len() && #[trigger] f0.entries()[i].0 == p;
                                    assert(is_prime(f0.entries()[i].0 as nat));
                                    assert(accepted_divisor(p as nat, rounds));
                                } else {
                                    assert(f0.multiplicity(p) == if p == m { 1int } else { 0 });
                                    assert(p == m);
                                }
                            }
                        }
                        assert(stack@ == rest);
                        assert(acc.value() * pending_product(stack@) == n) by (nonlinear_arith)
                            requires
                                acc.value() == acc0.value() * m,
                                acc0.value() * pending_product(rest) * m == n,
                                stack@ == rest,
                        ;
                    }
                },
                FactorStep::Split(g, h) => {
                    proof {
                        lemma_fundamental_div_mod(m as int, g as int);
                        assert(m == g * h);
                        assert(h >= 2 && h < m && g * h == m) by (nonlinear_arith)
                            requires
                                m == g * h,
                                g >= 2,
                                g < m,
                                m >= 1,
                                h >= 0,
                        ;
                        assert(2 * g - 1 + (2 * h - 1) < 2 * m - 1) by (nonlinear_arith)
                            requires
                                m == g * h,
                                g >= 2,
                                h >= 2,
                        ;
                    }
                    stack.push(g);
                    stack.push(h);
                    proof {
                        assert(stack@.drop_last() =~= rest.push(g));
                        assert(rest.push(g).drop_last() =~= rest);
                        let mid = rest.push(g);
                        assert(stack@.last() == h && mid.last() == g);
                        assert(pending_product(mid) == pending_product(rest) * g);
                        assert(pending_product(stack@) == pending_product(mid) * h);
                        assert(pending_product(stack@) == pending_product(rest) * g * h);
                        assert(pending_weight(mid) == pending_weight(rest) + (2 * g - 1));
                        assert(pending_weight(stack@) == pending_weight(mid) + (2 * h - 1));
                        assert(pending_weight(stack@) == pending_weight(rest) + (2 * g - 1) + (2 * h
                            - 1));
                        assert(acc.value() * pending_product(stack@) == n) by (nonlinear_arith)
                            requires
                                pending_product(stack@) == pending_product(rest) * g * h,
                                g * h == m,
                                acc.value() * pending_product(rest) * m == n,
                        ;
                        assert forall|i: int| 0 <= i < stack.len() implies 1 <= #[trigger] stack@[i]
                            <= n by {
                            if i < rest.len() {
                                assert(stack@[i] == rest[i]);
                            }
                        }
                    }
                },
                FactorStep::Failed => {
                    return None;
                },
            }
        } else {
            proof {
                assert(acc.value() * pending_product(stack@) == n) by (nonlinear_arith)
                    requires
                        acc.value() * pending_product(rest) * m == n,
                        m == 1,
                        stack@ == rest,
                ;
            }
        }
    }
    proof {
        assert forall|i: int| 0 <= i < acc.entries().len() implies accepted_divisor(
            #[trigger] acc.entries()[i].0 as nat,
            rounds,
        ) by {
            lemma_mult_at(acc.entries(), i);
            assert(acc.multiplicity(acc.entries()[i].0) > 0);
        }
        assert(stack@ =~= Seq::<u64>::empty());
    }
    Some(acc)
}

} // verus!
