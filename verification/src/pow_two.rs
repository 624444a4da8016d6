//! The power-of-two path of the solver.
//!
//! For `m = 2` the single root `b mod 2` is returned. For a larger power of
//! two and odd `b` the routine starts from the pair `{1, m - 1}` and keeps
//! perturbing every known value by the next power of two, collecting what is
//! new; that process is proved to end with exactly the odd residues mod `m`.
//! For `m` in `{4, 8}` every odd residue squares to 1 mod `m`, so there the
//! result is the full set of square roots of unity; for larger `m` the
//! collection is strictly wider than the roots of unity. Even `b` with
//! `m > 2` is left unhandled.
use vstd::prelude::*;
use vstd::arithmetic::power::{
    pow, lemma_pow0, lemma_pow1, lemma_pow_adds, lemma_pow_increases,
    lemma_pow_increases_converse, lemma_pow_strictly_increases_converse,
};
use vstd::arithmetic::power2::{is_pow2, is_pow2_equiv};
use vstd::arithmetic::div_mod::{
    lemma_mod_bound, lemma_small_mod, lemma_mod_multiples_vanish,
};
use num_bigint::BigInt;
use crate::is_sqrt_mod;
use crate::big::{
    int_of, from_i64_big, clone_big, add_big, sub_big, mul_big, mod_floor_big, eq_big, lt_big,
    is_even_big,
};

verus! {

/// Some entry of `s` holds the integer `y`.
pub open spec fn mem_val(s: Seq<BigInt>, y: int) -> bool {
    exists|j: int| 0 <= j < s.len() && int_of(#[trigger] s[j]) == y
}

/// `sols` lists each odd residue mod `m` exactly once and nothing else.
pub open spec fn all_odd_residues(m: int, sols: Seq<BigInt>) -> bool {
    &&& forall|j: int|
        0 <= j < sols.len() ==> 0 <= int_of(#[trigger] sols[j]) < m && int_of(sols[j]) % 2 == 1
    &&& forall|y: int| 0 <= y < m && y % 2 == 1 ==> #[trigger] mem_val(sols, y)
    &&& forall|j1: int, j2: int|
        0 <= j1 < j2 < sols.len() ==> int_of(#[trigger] sols[j1]) != int_of(#[trigger] sols[j2])
}

/// What the power-of-two path returns, case by case.
pub open spec fn pow_two_outcome(b: int, m: int, res: Option<Vec<BigInt>>) -> bool {
    &&& m == 2 ==> (res matches Some(sols) && sols@.len() == 1 && int_of(sols@[0]) == b % 2)
    &&& m > 2 && b % 2 == 0 ==> res is None
    &&& m > 2 && b % 2 == 1 ==> (res matches Some(sols) && all_odd_residues(m, sols@)
        && sols@.len() >= 2 && int_of(sols@[0]) == 1 && int_of(sols@[1]) == m - 1 && ((m == 4
        || m == 8) ==> forall|j: int|
        0 <= j < sols@.len() ==> is_sqrt_mod(int_of(#[trigger] sols@[j]), 1, m)))
}

/// Every odd residue of 4 or of 8 squares to 1; these are the two
/// power-of-two moduli above 2 whose odd residues are all roots of unity.
pub proof fn lemma_odd_square_small_pow2(y: int, m: int)
    requires
        m == 4 || m == 8,
        0 <= y < m,
        y % 2 == 1,
    ensures
        is_sqrt_mod(y, 1, m),
{
    assert(y == 1 || y == 3 || y == 5 || y == 7);
    assert(((1int) * (1int)) % m == (1int) % m);
    assert(((3int) * (3int)) % m == (1int) % m);
    if m == 8 {
        assert(((5int) * (5int)) % m == (1int) % m);
        assert(((7int) * (7int)) % m == (1int) % m);
    }
}

/// A pushed sequence keeps every held value and gains the pushed one.
proof fn lemma_mem_val_push(s: Seq<BigInt>, v: BigInt)
    ensures
        forall|y: int| mem_val(s, y) ==> #[trigger] mem_val(s.push(v), y),
        mem_val(s.push(v), int_of(v)),
{
    assert forall|y: int| mem_val(s, y) implies #[trigger] mem_val(s.push(v), y) by {
        let j = choose|j: int| 0 <= j < s.len() && int_of(#[trigger] s[j]) == y;
        assert(s.push(v)[j] == s[j]);
    }
    assert(s.push(v)[s.len() as int] == v);
}

/// Whether some entry of `v` holds the same integer as `x`, by linear scan.
fn contains_val(v: &Vec<BigInt>, x: &BigInt) -> (r: bool)
    ensures
        r == mem_val(v@, int_of(*x)),
{
    let mut idx: usize = 0;
    while idx < v.len()
        invariant
            idx <= v@.len(),
            forall|j: int| 0 <= j < idx ==> int_of(#[trigger] v@[j]) != int_of(*x),
        decreases v@.len() - idx,
    {
        if eq_big(&v[idx], x) {
            assert(mem_val(v@, int_of(*x)));
            return true;
        }
        idx += 1;
    }
    false
}

/// Square roots modulo a power of two, by structural enumeration.
///
/// For `m == 2` the answer is the single root `b mod 2`. For `m > 2` and odd
/// `b` the returned list holds each odd residue mod `m` exactly once: the
/// perturbation scheme enumerates the square roots of 1 only for `m` of 4 or
/// 8, and for larger `m` floods the whole odd residue class. Even `b` with
/// `m > 2` is not handled and yields `None`.
pub fn solve_mod_power_of_two(b: &BigInt, m: &BigInt) -> (res: Option<Vec<BigInt>>)
    requires
        int_of(*m) >= 2,
        is_pow2(int_of(*m)),
    ensures
        pow_two_outcome(int_of(*b), int_of(*m), res),
{
    let ghost bb: int = int_of(*b);
    let ghost mm: int = int_of(*m);
    let one = from_i64_big(1);
    let two = from_i64_big(2);

    if eq_big(m, &two) {
        let r0 = mod_floor_big(b, m);
        let mut sols: Vec<BigInt> = Vec::new();
        sols.push(r0);
        return Some(sols);
    }

    let ghost k: nat = {
        is_pow2_equiv(mm);
        choose|i: nat| pow(2, i) == mm
    };
    proof {
        lemma_pow0(2);
        lemma_pow1(2);
        if k < 2 {
            assert(pow(2, k) == mm);
            assert(false);
        }
        // mm is even, being a power of two above 1
        lemma_pow_adds(2, 1, (k - 1) as nat);
        assert(mm == 2 * pow(2, (k - 1) as nat));
        lemma_mod_multiples_vanish(pow(2, (k - 1) as nat), 0, 2);
    }

    if is_even_big(b) {
        return None;
    }

    let mm1 = sub_big(m, &one);
    let mut sols: Vec<BigInt> = Vec::new();
    sols.push(clone_big(&one));
    sols.push(mm1);
    let mut step = clone_big(&two);
    let ghost mut gi: nat = 1;
    proof {
        assert(int_of(sols@[0]) == 1);
        assert(int_of(sols@[1]) == mm - 1);
        assert(mem_val(sols@, 1));
        assert(mem_val(sols@, mm - 1));
    }

    while !lt_big(m, &step)
        invariant
            int_of(one) == 1,
            int_of(two) == 2,
            mm == int_of(*m),
            pow(2, k) == mm,
            k >= 2,
            mm >= 4,
            mm % 2 == 0,
            1 <= gi <= k + 1,
            int_of(step) == pow(2, gi),
            2 <= int_of(step) <= 2 * mm,
            sols@.len() >= 2,
            int_of(sols@[0]) == 1,
            int_of(sols@[1]) == mm - 1,
            forall|j: int|
                0 <= j < sols@.len() ==> 0 <= int_of(#[trigger] sols@[j]) < mm && int_of(
                    sols@[j],
                ) % 2 == 1,
            forall|j: int|
                0 <= j < sols@.len() ==> (int_of(#[trigger] sols@[j]) < pow(2, gi) || int_of(
                    sols@[j],
                ) == mm - 1),
            forall|j1: int, j2: int|
                0 <= j1 < j2 < sols@.len() ==> int_of(#[trigger] sols@[j1]) != int_of(
                    #[trigger] sols@[j2],
                ),
            forall|y: int|
                0 <= y < mm && y % 2 == 1 && (y < pow(2, gi) || y == mm - 1)
                    ==> #[trigger] mem_val(sols@, y),
        decreases 2 * mm - int_of(step),
    {
        let ghost pre: Seq<BigInt> = sols@;
        let ghost st: int = int_of(step);
        proof {
            // the step, a power of two above 1, is at least 2 and even
            lemma_pow1(2);
            lemma_pow_increases(2, 1, gi);
            assert(st >= 2);
            lemma_pow_adds(2, 1, (gi - 1) as nat);
            assert(st == 2 * pow(2, (gi - 1) as nat));
            lemma_mod_multiples_vanish(pow(2, (gi - 1) as nat), 0, 2);
            assert(st % 2 == 0);
            lemma_pow_increases_converse(2, gi, k);
            assert(gi <= k);
            // the doubled step for the bound on fresh values
            lemma_pow_adds(2, gi, 1);
            assert(pow(2, gi + 1) == 2 * st);
        }
        let snap: usize = sols.len();
        let mut idx: usize = 0;
        while idx < snap
            invariant
                int_of(one) == 1,
                int_of(two) == 2,
                mm == int_of(*m),
                pow(2, k) == mm,
                k >= 2,
                mm >= 4,
                mm % 2 == 0,
                1 <= gi <= k,
                st == int_of(step),
                st == pow(2, gi),
                st % 2 == 0,
                2 <= st <= mm,
                pow(2, gi + 1) == 2 * st,
                idx <= snap,
                snap == pre.len(),
                snap <= sols@.len(),
                sols@.len() >= 2,
                int_of(sols@[0]) == 1,
                int_of(sols@[1]) == mm - 1,
                forall|j: int| 0 <= j < pre.len() ==> #[trigger] sols@[j] == pre[j],
                forall|j: int|
                    0 <= j < pre.len() ==> (int_of(#[trigger] pre[j]) < st || int_of(pre[j]) == mm
                        - 1),
                forall|j: int|
                    0 <= j < sols@.len() ==> 0 <= int_of(#[trigger] sols@[j]) < mm && int_of(
                        sols@[j],
                    ) % 2 == 1,
                forall|j: int|
                    0 <= j < sols@.len() ==> (int_of(#[trigger] sols@[j]) < pow(2, gi + 1)
                        || int_of(sols@[j]) == mm - 1),
                forall|j1: int, j2: int|
                    0 <= j1 < j2 < sols@.len() ==> int_of(#[trigger] sols@[j1]) != int_of(
                        #[trigger] sols@[j2],
                    ),
                forall|y: int| mem_val(pre, y) ==> #[trigger] mem_val(sols@, y),
                forall|j: int|
                    0 <= j < idx ==> #[trigger] mem_val(sols@, (int_of(pre[j]) + st) % mm),
            decreases snap - idx,
        {
            let sum = add_big(&sols[idx], &step);
            let cand = mod_floor_big(&sum, m);
            let ghost x: int = int_of(pre[idx as int]);
            let ghost cv: int = int_of(cand);
            proof {
                assert(cv == (x + st) % mm);
                lemma_mod_bound(x + st, mm);
                if x == mm - 1 {
                    // wraps to step - 1
                    lemma_mod_multiples_vanish(1, st - 1, mm);
                    lemma_small_mod((st - 1) as nat, mm as nat);
                    assert(cv == st - 1);
                } else {
                    assert(x < st);
                    if gi < k {
                        // no wrap: the sum stays under m
                        lemma_pow_increases(2, gi + 1, k);
                        assert(x + st < 2 * st);
                        assert(2 * st <= mm);
                        lemma_small_mod((x + st) as nat, mm as nat);
                        assert(cv == x + st);
                    } else {
                        // the step equals m and perturbation returns x itself
                        assert(st == mm);
                        lemma_mod_multiples_vanish(1, x, mm);
                        lemma_small_mod(x as nat, mm as nat);
                        assert(cv == x);
                    }
                }
            }
            let is_new = !contains_val(&sols, &cand);
            if is_new {
                let ghost before: Seq<BigInt> = sols@;
                sols.push(cand);
                proof {
                    lemma_mem_val_push(before, cand);
                    if x < st && gi == k {
                        // cand would equal the entry it came from; it cannot be new
                        assert(mem_val(before, x));
                        assert(false);
                    }
                    assert(0 <= cv < mm && cv % 2 == 1);
                    assert(cv < pow(2, gi + 1) || cv == mm - 1);
                    assert forall|j1: int, j2: int| 0 <= j1 < j2 < sols@.len() implies int_of(
                        sols@[j1],
                    ) != int_of(sols@[j2]) by {
                        if j2 == sols@.len() - 1 {
                            assert(!mem_val(before, cv));
                            assert(int_of(before[j1]) != cv);
                        }
                    }
                }
            }
            proof {
                lemma_mem_val_push(sols@, cand);
            }
            idx += 1;
            proof {
                assert(mem_val(sols@, cv));
                assert forall|j: int| 0 <= j < idx implies #[trigger] mem_val(
                    sols@,
                    (int_of(pre[j]) + st) % mm,
                ) by {}
            }
        }
        step = mul_big(&step, &two);
        proof {
            gi = gi + 1;
            assert(int_of(step) == pow(2, gi));
            // coverage for the enlarged bound
            assert forall|y: int|
                0 <= y < mm && y % 2 == 1 && (y < pow(2, gi) || y == mm - 1) implies #[trigger] mem_val(
                sols@,
                y,
            ) by {
                if y < pow(2, (gi - 1) as nat) || y == mm - 1 {
                    assert(mem_val(pre, y));
                } else {
                    assert(pow(2, (gi - 1) as nat) <= y < pow(2, gi));
                    let x = y - st;
                    assert(0 <= x < st);
                    assert(x % 2 == 1);
                    assert(mem_val(pre, x));
                    let j = choose|j: int| 0 <= j < pre.len() && int_of(#[trigger] pre[j]) == x;
                    assert(mem_val(sols@, (int_of(pre[j]) + st) % mm));
                    assert(y < mm);
                    lemma_small_mod(y as nat, mm as nat);
                    assert((x + st) % mm == y);
                }
            }
        }
    }

    proof {
        // the loop left with the step past m, so every odd residue is covered
        assert(mm < pow(2, gi));
        lemma_pow_strictly_increases_converse(2, k, gi);
        assert(gi == k + 1);
        assert forall|y: int| 0 <= y < mm && y % 2 == 1 implies #[trigger] mem_val(sols@, y) by {
            assert(y < pow(2, gi) || y == mm - 1);
        }
        assert(all_odd_residues(mm, sols@));
        if mm == 4 || mm == 8 {
            assert forall|j: int| 0 <= j < sols@.len() implies is_sqrt_mod(
                int_of(#[trigger] sols@[j]),
                1,
                mm,
            ) by {
                lemma_odd_square_small_pow2(int_of(sols@[j]), mm);
            }
        }
    }
    Some(sols)
}

} // verus!
