//! Solutions of the quadratic congruence `x^2 == b (mod m)` over
//! arbitrary-precision integers, for prime and power-of-two moduli: modular
//! exponentiation, the Legendre symbol by Euler's criterion, a structural
//! enumeration for powers of two, and Tonelli-Shanks for odd primes, each
//! verified against the integer model of `num_bigint::BigInt` given in `big`.
use vstd::prelude::*;

pub mod big;
pub mod pow_two;
pub mod primes;
pub mod solve;

pub use crate::pow_two::solve_mod_power_of_two;
pub use crate::solve::{legendre_symbol, mod_exp, solve_quadratic_congruence};

verus! {

/// A value `y` is a square root of `b` modulo `m` when `y * y` and `b` fall in
/// the same residue class mod `m`.
pub open spec fn is_sqrt_mod(y: int, b: int, m: int) -> bool {
    (y * y) % m == b % m
}

} // verus!
