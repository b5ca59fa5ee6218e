//! Exact number-theoretic algebra: extended Euclid, generic fast
//! exponentiation, Miller–Rabin primality, integer factorization, prime
//! fields, dense polynomials and Weierstrass curves.
pub mod arith;
pub mod gcd;
pub mod double_and_add;
pub mod modular;
pub mod random;
pub mod fields;
pub mod primes;
pub mod fermat;
pub mod factorization;
pub mod poly;
pub mod ec;
pub mod preconditions;
