//! Addition and multiplication modulo a run-time modulus, as monoids over
//! `u64` representatives, and modular exponentiation built on them.
use vstd::prelude::*;
use vstd::arithmetic::div_mod::{lemma_add_mod_noop, lemma_mul_mod_noop_general, lemma_small_mod};
use vstd::arithmetic::power::pow;
use crate::double_and_add::{positive_double_and_add, power, Monoid};

verus! {

/// Addition modulo `modulus`, on representatives in `[0, modulus)`.
#[derive(Clone, Copy, Debug)]
pub struct ModularAdd {
    pub modulus: u64,
}

/// Multiplication modulo `modulus`, on representatives in `[0, modulus)`.
#[derive(Clone, Copy, Debug)]
pub struct ModularMul {
    pub modulus: u64,
}

impl Monoid for ModularAdd {
    type Elem = u64;

    open spec fn valid(&self, x: u64) -> bool {
        x < self.modulus
    }

    open spec fn op_spec(&self, x: u64, y: u64) -> u64 {
        ((x + y) % (self.modulus as int)) as u64
    }

    open spec fn identity_spec(&self) -> u64 {
        0
    }

    fn op(&self, x: u64, y: u64) -> (r: u64) {
        ((x as u128 + y as u128) % (self.modulus as u128)) as u64
    }

    fn identity(&self) -> (r: u64) {
        0
    }

    proof fn lemma_closed(&self, x: u64, y: u64) {
    }

    proof fn lemma_identity(&self, x: u64) {
        lemma_small_mod(x as nat, self.modulus as nat);
    }

    proof fn lemma_associative(&self, x: u64, y: u64, z: u64) {
        let m = self.modulus as int;
        lemma_add_mod_noop(x + y, z as int, m);
        lemma_add_mod_noop(x as int, y + z, m);
        lemma_small_mod(x as nat, m as nat);
        lemma_small_mod(z as nat, m as nat);
    }
}

impl Monoid for ModularMul {
    type Elem = u64;

    open spec fn valid(&self, x: u64) -> bool {
        1 < self.modulus && x < self.modulus
    }

    open spec fn op_spec(&self, x: u64, y: u64) -> u64 {
        ((x * y) % (self.modulus as int)) as u64
    }

    open spec fn identity_spec(&self) -> u64 {
        1
    }

    fn op(&self, x: u64, y: u64) -> (r: u64) {
        proof {
            assert(x as u128 * y as u128 <= u64::MAX as u128 * u64::MAX as u128)
                by (nonlinear_arith)
                requires
                    x <= u64::MAX,
                    y <= u64::MAX,
            ;
        }
        ((x as u128 * y as u128) % (self.modulus as u128)) as u64
    }

    fn identity(&self) -> (r: u64) {
        1
    }

    proof fn lemma_closed(&self, x: u64, y: u64) {
    }

    proof fn lemma_identity(&self, x: u64) {
        lemma_small_mod(x as nat, self.modulus as nat);
    }

    proof fn lemma_associative(&self, x: u64, y: u64, z: u64) {
        let m = self.modulus as int;
        lemma_mul_mod_noop_general(x * y, z as int, m);
        lemma_mul_mod_noop_general(x as int, y * z, m);
        vstd::arithmetic::mul::lemma_mul_is_associative(x as int, y as int, z as int);
    }
}

/// Repeated modular multiplication computes the power modulo `m`.
pub proof fn lemma_modular_power(m: ModularMul, b: u64, k: nat)
    requires
        m.valid(b),
    ensures
        power(m, b, k) == pow(b as int, k) % (m.modulus as int),
    decreases k,
{
    let p = m.modulus as int;
    reveal(pow);
    if k == 0 {
        lemma_small_mod(1, p as nat);
    } else {
        lemma_modular_power(m, b, (k - 1) as nat);
        crate::double_and_add::lemma_power_valid(m, b, (k - 1) as nat);
        lemma_mul_mod_noop_general(pow(b as int, (k - 1) as nat), b as int, p);
        vstd::arithmetic::mul::lemma_mul_is_commutative(pow(b as int, (k - 1) as nat), b as int);
    }
}

/// `a^e mod n` by double-and-add.
pub fn mod_pow(a: u64, e: u64, n: u64) -> (r: u64)
    requires
        n > 1,
    ensures
        r == pow(a as int, e as nat) % (n as int),
{
    let m = ModularMul { modulus: n };
    let b = a % n;
    let r = positive_double_and_add(&m, b, e);
    proof {
        lemma_modular_power(m, b, e as nat);
        vstd::arithmetic::power::lemma_pow_mod_noop(a as int, e as nat, n as int);
    }
    r
}

} // verus!
