//! Solving the quadratic congruence `x^2 == b (mod m)`.
//!
//! All residues are kept in the Euclidean convention: every reduction is by
//! `mod_floor`, so intermediate values lie in `[0, m)` and contracts are
//! stated with the verifier's `%`, whose result is non-negative for a
//! positive divisor.
use vstd::prelude::*;
use vstd::arithmetic::power::{
    pow, lemma_pow0, lemma_pow1, lemma_pow_adds, lemma_pow_multiplies, lemma_pow_mod_noop,
    lemma_square_is_pow2, lemma_pow_positive, lemma_pow_distributes,
};
use vstd::arithmetic::div_mod::{
    lemma_mod_bound, lemma_small_mod, lemma_fundamental_div_mod, lemma_mul_mod_noop_left,
    lemma_mul_mod_noop_right, lemma_mul_mod_noop, lemma_mod_multiples_vanish, lemma_mod_self_0,
    lemma_div_multiples_vanish,
};
use crate::primes::{is_prime, lemma_sqrt_of_one_mod_prime};
use vstd::arithmetic::power2::is_pow2;
use crate::pow_two::{pow_two_outcome, solve_mod_power_of_two};
use vstd::arithmetic::mul::lemma_mul_is_associative;
use num_bigint::BigInt;
use crate::is_sqrt_mod;
use crate::big::{
    int_of, from_i64_big, clone_big, add_big, sub_big, mul_big, div_trunc_big, mod_floor_big,
    eq_big, lt_big, is_even_big,
};

verus! {

/// Euler's criterion as this library computes it: the canonical residue of
/// `a^((p-1)/2)` mod `p`, with the residue `p - 1` mapped to `-1`.
pub open spec fn legendre_sym(a: int, p: int) -> int {
    let ls = pow(a, (((p - 1) / 2) as nat)) % p;
    if ls == p - 1 {
        -1
    } else {
        ls
    }
}

/// The shape of a successful answer on the odd-modulus path: two roots, the
/// second being the first reflected at `m`, both squaring to `b` mod `m`.
pub open spec fn root_pair_outcome(b: int, m: int, sols: Seq<BigInt>) -> bool {
    &&& sols.len() == 2
    &&& 0 <= int_of(sols[0]) < m
    &&& int_of(sols[1]) == m - int_of(sols[0])
    &&& is_sqrt_mod(int_of(sols[0]), b, m)
    &&& is_sqrt_mod(int_of(sols[1]), b, m)
}

/// Some value below `p` carries Legendre symbol `-1`. Every odd prime has
/// one (half of the nonzero residues do), but proving that needs the hard
/// direction of Euler's criterion, which this library does not attempt; the
/// fact is taken as a hypothesis where the success promise relies on it.
pub open spec fn has_non_residue(p: int) -> bool {
    exists|z: int| 2 <= z < p && #[trigger] legendre_sym(z, p) == -1
}

/// What the odd-modulus path returns: no solutions whenever `b` is not a
/// quadratic residue by the Legendre pre-check; any returned solutions are a
/// valid root pair found under a passing pre-check; and on a prime modulus
/// with a non-residue below it, a passing pre-check guarantees solutions.
pub open spec fn prime_outcome(b: int, p: int, res: Option<Vec<BigInt>>) -> bool {
    &&& legendre_sym(b, p) != 1 ==> res is None
    &&& res matches Some(sols) ==> legendre_sym(b, p) == 1 && root_pair_outcome(b, p, sols@)
    &&& is_prime(p) && has_non_residue(p) && legendre_sym(b, p) == 1 ==> res is Some
}

/// Multiplying two powers of the same reduced base: the residue of
/// `pow(x, e) mod m`, squared and reduced, is the residue of `pow(x, 2 * e)`.
proof fn lemma_square_of_reduced_pow(x: int, e: nat, m: int)
    requires
        m >= 1,
    ensures
        ((pow(x, e) % m) * (pow(x, e) % m)) % m == pow(x, (e + e) as nat) % m,
{
    lemma_mul_mod_noop(pow(x, e), pow(x, e), m);
    lemma_pow_adds(x, e, e);
}

/// Raising a reduced power to a further power reduces to one power of the
/// base: `(pow(x, e1) mod m)^e2 mod m == pow(x, e1 * e2) mod m`.
proof fn lemma_pow_of_reduced_pow(x: int, e1: nat, e2: nat, m: int)
    requires
        m >= 1,
    ensures
        pow(pow(x, e1) % m, e2) % m == pow(x, e1 * e2) % m,
{
    lemma_pow_mod_noop(pow(x, e1), e2, m);
    lemma_pow_multiplies(x, e1, e2);
}

/// `p - 1` squares to 1 mod `p`.
proof fn lemma_minus_one_squares_to_one(p: int)
    requires
        p >= 2,
    ensures
        ((p - 1) * (p - 1)) % p == 1,
{
    assert((p - 1) * (p - 1) == p * (p - 2) + 1) by (nonlinear_arith);
    lemma_mod_multiples_vanish(p - 2, 1, p);
    lemma_small_mod(1, p as nat);
}

/// Powers of `p - 1` alternate between 1 and `p - 1` mod `p`, by the parity
/// of the exponent.
proof fn lemma_pow_minus_one_mod(p: int, e: nat)
    requires
        p >= 2,
    ensures
        pow(p - 1, e) % p == if e % 2 == 0 {
            1int
        } else {
            p - 1
        },
    decreases e,
{
    lemma_small_mod(1, p as nat);
    if e == 0 {
        lemma_pow0(p - 1);
    } else {
        lemma_pow_minus_one_mod(p, (e - 1) as nat);
        lemma_pow1(p - 1);
        lemma_pow_adds(p - 1, 1, (e - 1) as nat);
        assert(pow(p - 1, e) == (p - 1) * pow(p - 1, (e - 1) as nat));
        lemma_mul_mod_noop(p - 1, pow(p - 1, (e - 1) as nat), p);
        lemma_small_mod((p - 1) as nat, p as nat);
        if (e - 1) % 2 == 0 {
            assert(((p - 1) * 1) % p == p - 1);
        } else {
            lemma_minus_one_squares_to_one(p);
        }
    }
}

/// Every prime congruent to 3 mod 4 has `p - 1` as a quadratic non-residue:
/// there the half exponent `(p - 1) / 2` is odd, so Euler's criterion on
/// `p - 1` lands on `-1`. For such moduli the solver's success promise
/// therefore needs no separate non-residue hypothesis.
pub proof fn lemma_non_residue_exists_3_mod_4(p: int)
    requires
        is_prime(p),
        p % 4 == 3,
    ensures
        has_non_residue(p),
{
    let h = (p - 1) / 2;
    lemma_fundamental_div_mod(p, 4);
    lemma_fundamental_div_mod(p - 1, 2);
    assert(h % 2 == 1);
    lemma_pow_minus_one_mod(p, h as nat);
    assert(legendre_sym(p - 1, p) == -1);
}

/// Binary (square-and-multiply) modular exponentiation.
///
/// For a positive exponent the result is the canonical residue of
/// `base^exp` mod `modulus`; a zero exponent yields the bare `1`, unreduced,
/// exactly as the accumulator starts.
pub fn mod_exp(base: &BigInt, exp: &BigInt, modulus: &BigInt) -> (r: BigInt)
    requires
        int_of(*modulus) >= 1,
        int_of(*exp) >= 0,
    ensures
        int_of(*exp) == 0 ==> int_of(r) == 1,
        int_of(*exp) >= 1 ==> int_of(r) == pow(int_of(*base), int_of(*exp) as nat) % int_of(
            *modulus,
        ),
        int_of(*exp) >= 1 ==> 0 <= int_of(r) < int_of(*modulus),
{
    let zero = from_i64_big(0);
    let two = from_i64_big(2);
    let mut result = from_i64_big(1);
    let mut b = mod_floor_big(base, modulus);
    let mut e = clone_big(exp);
    let ghost b0: int = int_of(*base);
    let ghost e0: nat = int_of(*exp) as nat;
    let ghost mm: int = int_of(*modulus);
    proof {
        lemma_pow_mod_noop(b0, e0, mm);
        lemma_mod_bound(b0, mm);
    }
    while lt_big(&zero, &e)
        invariant
            int_of(zero) == 0,
            int_of(two) == 2,
            mm == int_of(*modulus),
            mm >= 1,
            int_of(e) >= 0,
            0 <= int_of(b) < mm,
            int_of(result) >= 0,
            int_of(result) == 1 || int_of(result) < mm,
            (int_of(result) * pow(int_of(b), int_of(e) as nat)) % mm == pow(b0, e0) % mm,
            e0 == 0 ==> int_of(e) == 0 && int_of(result) == 1,
            int_of(e) == 0 && e0 >= 1 ==> int_of(result) < mm,
        decreases int_of(e),
    {
        let ghost e_old: int = int_of(e);
        let ghost b_old: int = int_of(b);
        let ghost res_old: int = int_of(result);
        let odd = !is_even_big(&e);
        if odd {
            let prod = mul_big(&result, &b);
            result = mod_floor_big(&prod, modulus);
        }
        e = div_trunc_big(&e, &two);
        b = mod_floor_big(&mul_big(&b, &b), modulus);
        proof {
            let e_new = int_of(e);
            let b_new = int_of(b);
            let res_new = int_of(result);
            lemma_fundamental_div_mod(e_old, 2);
            lemma_mod_bound(b_old * b_old, mm);
            // pow of the re-squared base, reduced, agrees with pow of the old base
            lemma_pow_mod_noop(b_old * b_old, e_new as nat, mm);
            lemma_square_is_pow2(b_old);
            lemma_pow_multiplies(b_old, 2, e_new as nat);
            assert(pow(b_new, e_new as nat) % mm == pow(b_old, (2 * e_new) as nat) % mm);
            lemma_mul_mod_noop_right(res_new, pow(b_new, e_new as nat), mm);
            lemma_mul_mod_noop_right(res_new, pow(b_old, (2 * e_new) as nat), mm);
            assert((res_new * pow(b_new, e_new as nat)) % mm == (res_new * pow(
                b_old,
                (2 * e_new) as nat,
            )) % mm);
            if e_old % 2 == 1 {
                lemma_mod_bound(res_old * b_old, mm);
                lemma_mul_mod_noop_left(res_old * b_old, pow(b_old, (2 * e_new) as nat), mm);
                lemma_mul_is_associative(res_old, b_old, pow(b_old, (2 * e_new) as nat));
                lemma_pow1(b_old);
                lemma_pow_adds(b_old, 1, (2 * e_new) as nat);
                assert(b_old * pow(b_old, (2 * e_new) as nat) == pow(b_old, e_old as nat));
                assert((res_new * pow(b_new, e_new as nat)) % mm == (res_old * pow(
                    b_old,
                    e_old as nat,
                )) % mm);
            } else {
                assert(2 * e_new == e_old);
            }
        }
    }
    proof {
        assert(int_of(e) == 0);
        lemma_pow0(int_of(b));
        assert((int_of(result) * 1) % mm == pow(b0, e0) % mm);
        if e0 >= 1 {
            lemma_small_mod(int_of(result) as nat, mm as nat);
            lemma_mod_bound(pow(b0, e0), mm);
        }
    }
    result
}

/// Legendre symbol of `a` with respect to an odd prime `p`, by Euler's
/// criterion. Primality of `p` is assumed, never checked: on a composite
/// odd `p` the function still returns `legendre_sym(a, p)`, which then
/// carries no quadratic-residue meaning.
pub fn legendre_symbol(a: &BigInt, p: &BigInt) -> (r: BigInt)
    requires
        int_of(*p) >= 3,
        int_of(*p) % 2 == 1,
    ensures
        int_of(r) == legendre_sym(int_of(*a), int_of(*p)),
{
    let one = from_i64_big(1);
    let two = from_i64_big(2);
    let pm1 = sub_big(p, &one);
    let e = div_trunc_big(&pm1, &two);
    proof {
        lemma_fundamental_div_mod(int_of(*p) - 1, 2);
    }
    let ls = mod_exp(a, &e, p);
    if eq_big(&ls, &pm1) {
        from_i64_big(-1)
    } else {
        ls
    }
}

/// `2^e` for a non-negative exponent, by repeated doubling.
fn two_pow_big(e: &BigInt) -> (r: BigInt)
    requires
        int_of(*e) >= 0,
    ensures
        int_of(r) == pow(2, int_of(*e) as nat),
        int_of(r) >= 1,
{
    let one = from_i64_big(1);
    let two = from_i64_big(2);
    let mut cnt = from_i64_big(0);
    let mut acc = from_i64_big(1);
    proof {
        lemma_pow0(2);
    }
    while lt_big(&cnt, e)
        invariant
            int_of(one) == 1,
            int_of(two) == 2,
            0 <= int_of(cnt) <= int_of(*e),
            int_of(acc) == pow(2, int_of(cnt) as nat),
            int_of(acc) >= 1,
        decreases int_of(*e) - int_of(cnt),
    {
        let ghost c_old: int = int_of(cnt);
        acc = mul_big(&acc, &two);
        cnt = add_big(&cnt, &one);
        proof {
            lemma_pow1(2);
            lemma_pow_adds(2, c_old as nat, 1);
        }
    }
    acc
}

/// Least quadratic non-residue of an odd modulus, by linear search from 2.
/// The search is capped at `m`: a non-residue below `m` exists for every odd
/// prime `m >= 3`, so on the intended inputs the cap is never reached; on
/// other inputs the cap turns an endless search into an explicit `None`.
fn find_non_residue(m: &BigInt) -> (res: Option<BigInt>)
    requires
        int_of(*m) >= 3,
        int_of(*m) % 2 == 1,
    ensures
        res matches Some(z) ==> legendre_sym(int_of(z), int_of(*m)) == -1 && 2 <= int_of(z) < int_of(
            *m,
        ),
        has_non_residue(int_of(*m)) ==> res is Some,
{
    let ghost mm: int = int_of(*m);
    let one = from_i64_big(1);
    let neg_one = from_i64_big(-1);
    let mut z = from_i64_big(2);
    while lt_big(&z, m)
        invariant
            int_of(one) == 1,
            int_of(neg_one) == -1,
            int_of(z) >= 2,
            mm == int_of(*m),
            mm >= 3,
            mm % 2 == 1,
            forall|w: int| 2 <= w < int_of(z) ==> #[trigger] legendre_sym(w, mm) != -1,
        decreases int_of(*m) - int_of(z),
    {
        let lsz = legendre_symbol(&z, m);
        if eq_big(&lsz, &neg_one) {
            return Some(z);
        }
        z = add_big(&z, &one);
    }
    proof {
        if has_non_residue(mm) {
            let z0 = choose|z0: int| 2 <= z0 < mm && #[trigger] legendre_sym(z0, mm) == -1;
            assert(legendre_sym(z0, mm) != -1);
            assert(false);
        }
    }
    None
}

/// Square roots of `b` modulo an odd modulus `m`, assumed prime, by the
/// Tonelli-Shanks algorithm behind a Legendre pre-check.
///
/// The two bounded searches that the algorithm leaves open-ended (the
/// non-residue hunt and the working-exponent loop) fail explicitly with
/// `None` when exhausted; on a genuine odd prime with `legendre_sym == 1`
/// neither ever is: on a prime modulus that has a non-residue below it, a
/// passing pre-check guarantees the two roots come back, and that promise is
/// part of the contract.
fn solve_mod_odd_prime(b: &BigInt, m: &BigInt) -> (res: Option<Vec<BigInt>>)
    requires
        int_of(*m) >= 3,
        int_of(*m) % 2 == 1,
    ensures
        prime_outcome(int_of(*b), int_of(*m), res),
{
    let ghost bb: int = int_of(*b);
    let ghost mm: int = int_of(*m);
    let zero = from_i64_big(0);
    let one = from_i64_big(1);
    let two = from_i64_big(2);

    let ls = legendre_symbol(b, m);
    if !eq_big(&ls, &one) {
        return None;
    }

    // Factor m - 1 as q * 2^s with q odd.
    let mut q = sub_big(m, &one);
    let mut s = from_i64_big(0);
    proof {
        lemma_pow0(2);
    }
    while is_even_big(&q)
        invariant
            int_of(one) == 1,
            int_of(two) == 2,
            mm == int_of(*m),
            mm >= 3,
            int_of(q) >= 1,
            int_of(s) >= 0,
            int_of(q) * pow(2, int_of(s) as nat) == mm - 1,
        decreases int_of(q),
    {
        let ghost q_old: int = int_of(q);
        let ghost s_old: int = int_of(s);
        q = div_trunc_big(&q, &two);
        s = add_big(&s, &one);
        proof {
            lemma_fundamental_div_mod(q_old, 2);
            lemma_pow1(2);
            lemma_pow_adds(2, s_old as nat, 1);
            assert(int_of(q) * pow(2, int_of(s) as nat) == q_old * pow(2, s_old as nat))
                by (nonlinear_arith)
                requires
                    q_old == 2 * int_of(q),
                    pow(2, int_of(s) as nat) == 2 * pow(2, s_old as nat),
            ;
        }
    }

    // The factored exponent is positive: m - 1 is even while q is odd.
    proof {
        if int_of(s) == 0 {
            lemma_pow0(2);
            assert(false);
        }
    }

    let z = match find_non_residue(m) {
        Some(z) => z,
        None => {
            return None;
        },
    };

    let mut c = mod_exp(&z, &q, m);
    let qp1 = add_big(&q, &one);
    let e_r = div_trunc_big(&qp1, &two);
    let mut r = mod_exp(b, &e_r, m);
    let mut t = mod_exp(b, &q, m);
    let mut ms = clone_big(&s);
    proof {
        let qq = int_of(q);
        let e1 = int_of(e_r);
        lemma_fundamental_div_mod(qq + 1, 2);
        assert(2 * e1 == qq + 1);
        // r * r is congruent to b * t modulo m
        lemma_mul_mod_noop(pow(bb, e1 as nat), pow(bb, e1 as nat), mm);
        lemma_pow_adds(bb, e1 as nat, e1 as nat);
        lemma_mul_mod_noop_right(bb, pow(bb, qq as nat), mm);
        lemma_pow1(bb);
        lemma_pow_adds(bb, 1, qq as nat);
        assert((int_of(r) * int_of(r)) % mm == (bb * int_of(t)) % mm);
        // the half exponent (m - 1) / 2 splits as q * 2^(s - 1)
        let ss = int_of(s);
        let half = pow(2, (ss - 1) as nat);
        lemma_pow_positive(2, (ss - 1) as nat);
        lemma_pow1(2);
        lemma_pow_adds(2, 1, (ss - 1) as nat);
        assert(mm - 1 == 2 * (qq * half)) by (nonlinear_arith)
            requires
                qq * pow(2, ss as nat) == mm - 1,
                pow(2, ss as nat) == 2 * half,
        ;
        lemma_div_multiples_vanish(qq * half, 2);
        assert((mm - 1) / 2 == qq * half);
        // the raw Euler residues of b and of z, restated over q and s
        assert(pow(bb, (((mm - 1) / 2) as nat)) % mm == 1);
        lemma_mod_bound(pow(int_of(z), (((mm - 1) / 2) as nat)), mm);
        assert(pow(int_of(z), (((mm - 1) / 2) as nat)) % mm == mm - 1);
        lemma_pow_of_reduced_pow(bb, qq as nat, half as nat, mm);
        assert(pow(int_of(t), half as nat) % mm == 1);
        lemma_pow_of_reduced_pow(int_of(z), qq as nat, half as nat, mm);
        assert(pow(int_of(c), half as nat) % mm == mm - 1);
    }

    let ghost prime: bool = is_prime(mm);

    while !eq_big(&t, &one)
        invariant
            int_of(zero) == 0,
            int_of(one) == 1,
            int_of(two) == 2,
            mm == int_of(*m),
            bb == int_of(*b),
            mm >= 3,
            mm % 2 == 1,
            prime == is_prime(mm),
            int_of(ms) >= 0,
            0 <= int_of(r) < mm,
            0 <= int_of(t) < mm,
            0 <= int_of(c) < mm,
            (int_of(r) * int_of(r)) % mm == (bb * int_of(t)) % mm,
            prime ==> int_of(ms) >= 1,
            prime ==> pow(int_of(t), pow(2, (int_of(ms) - 1) as nat) as nat) % mm == 1,
            prime ==> pow(int_of(c), pow(2, (int_of(ms) - 1) as nat) as nat) % mm == mm - 1,
        decreases int_of(ms),
    {
        if eq_big(&ms, &zero) {
            // The working exponent is exhausted; this is unreachable on a
            // prime modulus, as the invariant keeps it positive there.
            return None;
        }
        let ghost tv: int = int_of(t);
        let ghost cv: int = int_of(c);
        let ghost msv: int = int_of(ms);
        let mut t2i = clone_big(&t);
        let mut i = from_i64_big(0);
        let mut j = from_i64_big(1);
        let mut found = false;
        proof {
            lemma_pow0(2);
            lemma_pow1(tv);
            lemma_small_mod(tv as nat, mm as nat);
            assert(int_of(t2i) == pow(tv, pow(2, 0) as nat) % mm);
        }
        while !found && lt_big(&j, &ms)
            invariant
                int_of(one) == 1,
                mm == int_of(*m),
                mm >= 3,
                int_of(ms) >= 1,
                tv == int_of(t),
                0 <= tv < mm,
                1 <= int_of(j) <= int_of(ms),
                found ==> 1 <= int_of(i) < int_of(ms),
                !found ==> int_of(i) == 0,
                !found ==> int_of(t2i) == pow(tv, pow(2, (int_of(j) - 1) as nat) as nat) % mm,
                !found ==> forall|jj: int|
                    1 <= jj < int_of(j) ==> pow(tv, #[trigger] pow(2, jj as nat) as nat) % mm != 1,
                found ==> pow(tv, pow(2, int_of(i) as nat) as nat) % mm == 1,
                found ==> forall|jj: int|
                    1 <= jj < int_of(i) ==> pow(tv, #[trigger] pow(2, jj as nat) as nat) % mm != 1,
            decreases int_of(ms) - int_of(j),
        {
            let ghost jv: int = int_of(j);
            t2i = mod_floor_big(&mul_big(&t2i, &t2i), m);
            proof {
                let e_prev = pow(2, (jv - 1) as nat);
                lemma_pow_positive(2, (jv - 1) as nat);
                lemma_square_of_reduced_pow(tv, e_prev as nat, mm);
                lemma_pow1(2);
                lemma_pow_adds(2, 1, (jv - 1) as nat);
                assert(int_of(t2i) == pow(tv, pow(2, jv as nat) as nat) % mm);
            }
            if eq_big(&t2i, &one) {
                i = clone_big(&j);
                found = true;
            }
            j = add_big(&j, &one);
        }

        proof {
            // On a prime modulus the search always lands: the invariant puts
            // an exponent that sends t to 1 inside the scanned range.
            if prime && !found {
                lemma_pow_positive(2, (msv - 1) as nat);
                if msv == 1 {
                    lemma_pow0(2);
                    lemma_pow1(tv);
                    lemma_small_mod(tv as nat, mm as nat);
                    assert(false);
                } else {
                    assert(pow(tv, pow(2, (msv - 1) as nat) as nat) % mm != 1);
                    assert(false);
                }
            }
        }

        let ghost r_old: int = int_of(r);
        let ghost t_old: int = int_of(t);
        let ghost iv: int = int_of(i);
        let expo = sub_big(&sub_big(&ms, &i), &one);
        let p2 = two_pow_big(&expo);
        let bexp = mod_exp(&c, &p2, m);
        let ghost bx: int = int_of(bexp);
        r = mod_floor_big(&mul_big(&r, &bexp), m);
        c = mod_floor_big(&mul_big(&bexp, &bexp), m);
        t = mod_floor_big(&mul_big(&t, &c), m);
        ms = clone_big(&i);
        proof {
            let r_new = int_of(r);
            let c_new = int_of(c);
            let t_new = int_of(t);
            lemma_mod_bound(r_old * bx, mm);
            lemma_mod_bound(bx * bx, mm);
            lemma_mod_bound(t_old * c_new, mm);
            // r_new^2 == (r_old * bx)^2 mod m
            lemma_mul_mod_noop(r_old * bx, r_old * bx, mm);
            assert((r_old * bx) * (r_old * bx) == (r_old * r_old) * (bx * bx))
                by (nonlinear_arith);
            lemma_mul_mod_noop_left(r_old * r_old, bx * bx, mm);
            lemma_mul_mod_noop_left(bb * t_old, bx * bx, mm);
            assert((r_new * r_new) % mm == ((bb * t_old) * (bx * bx)) % mm);
            // b * t_new folds to the same product
            lemma_mul_mod_noop_right(bb, t_old * c_new, mm);
            lemma_mul_is_associative(bb, t_old, c_new);
            lemma_mul_mod_noop_right(bb * t_old, bx * bx, mm);
            assert((bb * t_new) % mm == ((bb * t_old) * (bx * bx)) % mm);
            if prime {
                // bx is c to the power 2^(msv - iv - 1), reduced
                let e_gap = pow(2, (msv - iv - 1) as nat);
                lemma_pow_positive(2, (msv - iv - 1) as nat);
                assert(bx == pow(cv, e_gap as nat) % mm);
                // c_new is c to the power 2^(msv - iv), reduced
                lemma_square_of_reduced_pow(cv, e_gap as nat, mm);
                lemma_pow1(2);
                lemma_pow_adds(2, 1, (msv - iv - 1) as nat);
                assert(c_new == pow(cv, pow(2, (msv - iv) as nat) as nat) % mm);
                // its 2^(iv - 1) power collapses to c^(2^(msv - 1)), which is -1
                lemma_pow_positive(2, (msv - iv) as nat);
                lemma_pow_positive(2, (iv - 1) as nat);
                lemma_pow_of_reduced_pow(
                    cv,
                    pow(2, (msv - iv) as nat) as nat,
                    pow(2, (iv - 1) as nat) as nat,
                    mm,
                );
                lemma_pow_adds(2, (msv - iv) as nat, (iv - 1) as nat);
                assert(pow(c_new, pow(2, (iv - 1) as nat) as nat) % mm == mm - 1);
                // t to the power 2^(iv - 1), reduced, is a square root of 1
                let x = pow(tv, pow(2, (iv - 1) as nat) as nat) % mm;
                lemma_mod_bound(pow(tv, pow(2, (iv - 1) as nat) as nat), mm);
                lemma_square_of_reduced_pow(tv, pow(2, (iv - 1) as nat) as nat, mm);
                lemma_pow_adds(2, 1, (iv - 1) as nat);
                assert((x * x) % mm == pow(tv, pow(2, iv as nat) as nat) % mm);
                lemma_small_mod(1, mm as nat);
                // x is not 1: at iv == 1 it is t itself, and below iv the
                // scanned exponents all failed
                if iv == 1 {
                    lemma_pow0(2);
                    lemma_pow1(tv);
                    lemma_small_mod(tv as nat, mm as nat);
                    assert(x != 1);
                } else {
                    assert(pow(tv, pow(2, (iv - 1) as nat) as nat) % mm != 1);
                    assert(x != 1);
                }
                lemma_sqrt_of_one_mod_prime(mm, x);
                // t_new to the power 2^(iv - 1) is x * (-1) * ... == 1
                lemma_pow_mod_noop(t_old * c_new, pow(2, (iv - 1) as nat) as nat, mm);
                lemma_pow_distributes(t_old, c_new, pow(2, (iv - 1) as nat) as nat);
                lemma_mul_mod_noop(
                    pow(t_old, pow(2, (iv - 1) as nat) as nat),
                    pow(c_new, pow(2, (iv - 1) as nat) as nat),
                    mm,
                );
                lemma_minus_one_squares_to_one(mm);
                assert(pow(t_new, pow(2, (iv - 1) as nat) as nat) % mm == 1);
            }
        }
    }

    // t == 1, so r squares to b mod m; the reflected root follows.
    let ghost rr: int = int_of(r);
    let r2 = sub_big(m, &r);
    let mut sols: Vec<BigInt> = Vec::new();
    sols.push(r);
    sols.push(r2);
    proof {
        lemma_mod_multiples_vanish(mm - 2 * rr, rr * rr, mm);
        assert((mm - rr) * (mm - rr) == mm * (mm - 2 * rr) + rr * rr) by (nonlinear_arith);
        assert(is_sqrt_mod(mm - rr, bb, mm));
    }
    Some(sols)
}

/// Solutions of `x^2 == b (mod m)`, dispatching on the parity of `m`: an even
/// modulus must be a power of two and goes to the structural enumeration; an
/// odd modulus is assumed prime and goes to Tonelli-Shanks behind the
/// Legendre pre-check.
pub fn solve_quadratic_congruence(b: &BigInt, m: &BigInt) -> (res: Option<Vec<BigInt>>)
    requires
        int_of(*m) >= 1,
        int_of(*m) % 2 == 0 ==> is_pow2(int_of(*m)),
        int_of(*m) % 2 == 1 ==> int_of(*m) >= 3,
    ensures
        int_of(*m) % 2 == 0 ==> pow_two_outcome(int_of(*b), int_of(*m), res),
        int_of(*m) % 2 == 1 ==> prime_outcome(int_of(*b), int_of(*m), res),
{
    if is_even_big(m) {
        solve_mod_power_of_two(b, m)
    } else {
        solve_mod_odd_prime(b, m)
    }
}

/// Every root the odd-modulus path hands back squares to `b` mod `p`: if the
/// solver answered `Some`, each listed value satisfies the congruence.
pub proof fn lemma_returned_roots_satisfy_congruence(b: int, p: int, res: Option<Vec<BigInt>>)
    requires
        prime_outcome(b, p, res),
        res is Some,
    ensures
        forall|j: int|
            0 <= j < res->Some_0@.len() ==> is_sqrt_mod(int_of(#[trigger] res->Some_0@[j]), b, p),
{
    let sols = res->Some_0@;
    assert(is_sqrt_mod(int_of(sols[0]), b, p));
    assert(is_sqrt_mod(int_of(sols[1]), b, p));
}

/// When `b` is a quadratic non-residue of `p` by the Legendre pre-check
/// (symbol `-1`), the odd-modulus path reports no solutions.
pub proof fn lemma_non_residue_has_no_solutions(b: int, p: int, res: Option<Vec<BigInt>>)
    requires
        prime_outcome(b, p, res),
        legendre_sym(b, p) == -1,
    ensures
        res is None,
{
}

/// On a prime modulus that has a non-residue below it, the odd-modulus path
/// returns solutions exactly when the Legendre pre-check passes.
pub proof fn lemma_solvable_iff_residue(b: int, p: int, res: Option<Vec<BigInt>>)
    requires
        prime_outcome(b, p, res),
        is_prime(p),
        has_non_residue(p),
    ensures
        res is Some <==> legendre_sym(b, p) == 1,
{
}

/// The pair `{r, m - r}` holds two distinct values unless `2 * r` is a
/// multiple of `m`; with it, each root returned on the odd-modulus path is
/// accompanied by a genuinely different second root whenever `2 * r` does not
/// vanish mod `m`.
pub proof fn lemma_root_pair_distinct(r: int, m: int)
    requires
        m >= 1,
    ensures
        r == m - r ==> (2 * r) % m == 0,
{
    if r == m - r {
        assert(2 * r == m);
        lemma_mod_self_0(m);
    }
}

} // verus!
