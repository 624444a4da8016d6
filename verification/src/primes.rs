//! Elementary facts about prime moduli.
//!
//! The solver's success promise on the odd-modulus path rests on two facts
//! proved here: a prime has no zero divisors (by Euclidean descent on the
//! smaller factor), and hence the only square roots of 1 mod a prime are 1
//! and `p - 1`.
use vstd::prelude::*;
use vstd::arithmetic::div_mod::{
    lemma_mod_bound, lemma_small_mod, lemma_fundamental_div_mod, lemma_mod_multiples_basic,
};

verus! {

/// Primality, stated by trial division: no divisor in `[2, p)`.
pub open spec fn is_prime(p: int) -> bool {
    p >= 2 && forall|d: int| 2 <= d < p ==> #[trigger] (p % d) != 0
}

/// A prime has no zero divisors: a product of two values from `[1, p)` never
/// vanishes mod `p`. Proved by descent: replacing the smaller factor `a` by
/// `p mod a` keeps the product a multiple of `p` and shrinks the factor.
pub proof fn lemma_prime_no_zero_divisors(p: int, a: int, b: int)
    requires
        is_prime(p),
        1 <= a < p,
        1 <= b < p,
    ensures
        (a * b) % p != 0,
    decreases a,
{
    if (a * b) % p == 0 {
        if a == 1 {
            lemma_small_mod(b as nat, p as nat);
            assert(false);
        } else {
            let r = p % a;
            lemma_mod_bound(p, a);
            assert(r != 0);
            lemma_fundamental_div_mod(p, a);
            lemma_fundamental_div_mod(a * b, p);
            let qa = p / a;
            let kk = (a * b) / p;
            assert(r * b == p * (b - qa * kk)) by (nonlinear_arith)
                requires
                    r == p - a * qa,
                    a * b == p * kk,
            ;
            lemma_mod_multiples_basic(b - qa * kk, p);
            assert((r * b) % p == 0);
            lemma_prime_no_zero_divisors(p, r, b);
            assert(false);
        }
    }
}

/// Mod an odd prime, 1 has exactly the two square roots 1 and `p - 1`.
pub proof fn lemma_sqrt_of_one_mod_prime(p: int, x: int)
    requires
        is_prime(p),
        p >= 3,
        0 <= x < p,
        (x * x) % p == 1,
        x != 1,
    ensures
        x == p - 1,
{
    if x == 0 {
        assert((0int) * (0int) == 0);
        lemma_small_mod(0, p as nat);
        assert(false);
    }
    if x < p - 1 {
        lemma_fundamental_div_mod(x * x, p);
        let kk = (x * x) / p;
        assert((x - 1) * (x + 1) == kk * p) by (nonlinear_arith)
            requires
                x * x == p * kk + 1,
        ;
        lemma_mod_multiples_basic(kk, p);
        assert(((x - 1) * (x + 1)) % p == 0);
        lemma_prime_no_zero_divisors(p, x - 1, x + 1);
        assert(false);
    }
}

} // verus!
