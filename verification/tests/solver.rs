use num_bigint::BigInt;
use quadratic_congruence::{
    legendre_symbol, mod_exp, solve_mod_power_of_two, solve_quadratic_congruence,
};

fn bi(n: i64) -> BigInt {
    BigInt::from(n)
}

#[test]
fn mod_exp_small_values() {
    // 3^5 = 243 = 34 * 7 + 5
    assert_eq!(mod_exp(&bi(3), &bi(5), &bi(7)), bi(5));
    // 10^6 mod 13 = 1
    assert_eq!(mod_exp(&bi(10), &bi(6), &bi(13)), bi(1));
    // 2^2 mod 5 = 4
    assert_eq!(mod_exp(&bi(2), &bi(2), &bi(5)), bi(4));
}

#[test]
fn mod_exp_zero_exponent_gives_bare_one() {
    assert_eq!(mod_exp(&bi(5), &bi(0), &bi(7)), bi(1));
}

#[test]
fn mod_exp_negative_base_is_reduced_first() {
    // -3 is congruent to 10 mod 13, and 10^2 mod 13 = 9
    assert_eq!(mod_exp(&bi(-3), &bi(2), &bi(13)), bi(9));
}

#[test]
fn legendre_of_residue_is_one() {
    assert_eq!(legendre_symbol(&bi(10), &bi(13)), bi(1));
}

#[test]
fn legendre_of_non_residue_is_minus_one() {
    assert_eq!(legendre_symbol(&bi(2), &bi(5)), bi(-1));
}

#[test]
fn legendre_of_multiple_of_modulus_is_zero() {
    assert_eq!(legendre_symbol(&bi(13), &bi(13)), bi(0));
    assert_eq!(legendre_symbol(&bi(0), &bi(7)), bi(0));
}

#[test]
fn solve_residue_mod_13() {
    // 6^2 = 36 = 2 * 13 + 10, so the roots of 10 mod 13 are 6 and 7
    let sols = solve_quadratic_congruence(&bi(10), &bi(13)).expect("10 is a residue mod 13");
    assert_eq!(sols.len(), 2);
    let m = bi(13);
    let b = bi(10);
    for r in &sols {
        assert_eq!((r * r) % &m, b.clone());
    }
    assert_eq!(&sols[0] + &sols[1], m);
    assert!(sols.contains(&bi(6)));
    assert!(sols.contains(&bi(7)));
}

#[test]
fn solve_residue_mod_7() {
    // 3^2 = 9 = 7 + 2, so the roots of 2 mod 7 are 3 and 4
    let sols = solve_quadratic_congruence(&bi(2), &bi(7)).expect("2 is a residue mod 7");
    let mut sorted = sols.clone();
    sorted.sort();
    assert_eq!(sorted, vec![bi(3), bi(4)]);
}

#[test]
fn solve_non_residue_mod_5_has_no_solutions() {
    assert!(solve_quadratic_congruence(&bi(2), &bi(5)).is_none());
}

#[test]
fn solve_negative_residue_uses_canonical_class() {
    // -3 is congruent to 10 mod 13; the same two roots come back
    let sols = solve_quadratic_congruence(&bi(-3), &bi(13)).expect("-3 is a residue mod 13");
    let m = bi(13);
    for r in &sols {
        assert_eq!((r * r) % &m, bi(10));
    }
}

#[test]
fn solve_mod_two_returns_parity() {
    assert_eq!(solve_quadratic_congruence(&bi(5), &bi(2)), Some(vec![bi(1)]));
    assert_eq!(solve_quadratic_congruence(&bi(4), &bi(2)), Some(vec![bi(0)]));
}

#[test]
fn solve_mod_four_gives_both_roots_of_unity() {
    let mut sols = solve_quadratic_congruence(&bi(1), &bi(4)).expect("odd b is handled");
    sols.sort();
    assert_eq!(sols, vec![bi(1), bi(3)]);
    for r in &sols {
        assert_eq!((r * r) % bi(4), bi(1));
    }
}

#[test]
fn solve_mod_eight_gives_all_four_roots_of_unity() {
    let mut sols = solve_quadratic_congruence(&bi(3), &bi(8)).expect("odd b is handled");
    sols.sort();
    assert_eq!(sols, vec![bi(1), bi(3), bi(5), bi(7)]);
    for r in &sols {
        assert_eq!((r * r) % bi(8), bi(1));
    }
}

#[test]
fn solve_mod_sixteen_floods_the_odd_residues() {
    // From 16 on, the perturbation scheme returns every odd residue, not
    // only the four square roots of unity.
    let mut sols = solve_quadratic_congruence(&bi(1), &bi(16)).expect("odd b is handled");
    sols.sort();
    let odds: Vec<BigInt> = (0..16).filter(|n| n % 2 == 1).map(BigInt::from).collect();
    assert_eq!(sols, odds);
}

#[test]
fn solve_even_b_mod_power_of_two_unhandled() {
    assert!(solve_quadratic_congruence(&bi(2), &bi(8)).is_none());
    assert!(solve_mod_power_of_two(&bi(6), &bi(16)).is_none());
}

#[test]
fn solve_composite_large_modulus_rejected() {
    // A large modulus that looks prime but is composite: Euler's criterion
    // on (b, m) yields a residue that is neither 1 nor m - 1, the Legendre
    // pre-check therefore fails, and the solver reports no solutions.
    let b: BigInt = "543134014563836383927251243637".parse().unwrap();
    let m: BigInt = "13637321383345479764947409042367153".parse().unwrap();
    let ls = legendre_symbol(&b, &m);
    assert_ne!(ls, BigInt::from(1));
    assert!(solve_quadratic_congruence(&b, &m).is_none());
}

#[test]
fn solve_large_prime_scenario() {
    // A genuinely prime modulus of the same magnitude: m is prime and
    // b = 4 has the obvious root 2, so exactly two roots summing to m
    // must come back, each squaring to b.
    let b: BigInt = BigInt::from(4);
    let m: BigInt = "13637321383345479764947409042367161".parse().unwrap();
    let sols = solve_quadratic_congruence(&b, &m).expect("4 is a residue");
    assert_eq!(sols.len(), 2);
    assert_eq!(&sols[0] + &sols[1], m.clone());
    assert_ne!(sols[0], sols[1]);
    for r in &sols {
        assert_eq!((r * r) % &m, b.clone());
    }
    assert!(sols.contains(&BigInt::from(2)));
}
