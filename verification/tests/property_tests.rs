use prime_subgroup::factors;
use prime_subgroup::generate_candidate;
use prime_subgroup::find_generator;
use prime_subgroup::is_factor;
use prime_subgroup::is_generator;
use prime_subgroup::is_prime;
use prime_subgroup::mod_exp;
use prime_subgroup::mul_mod;
use prime_subgroup::multiplicative_subgroup;
use prime_subgroup::NotFactorError;
use prime_subgroup::NotPrimeError;
use prime_subgroup::SubgroupError;

#[test]
fn composites_are_rejected() {
    // every base in the sampled range exposes these composites, so the
    // verdict does not depend on which witnesses were drawn
    for c in [0u64, 1, 4, 6, 8, 9, 10, 15] {
        assert_eq!(is_prime(c, 5), false, "{c} accepted as prime");
    }
}

#[test]
fn small_primes_are_accepted() {
    assert_eq!(is_prime(2, 5), true);
    assert_eq!(is_prime(3, 5), true);
    assert_eq!(is_prime(5, 5), true);
}

#[test]
fn divisor_lists_are_sorted_and_complete() {
    for k in 1u64..=60 {
        let ds = factors(k);
        assert_eq!(ds[0], 1);
        assert_eq!(*ds.last().unwrap(), k);
        for w in ds.windows(2) {
            assert!(w[0] < w[1]);
        }
        for d in 1..=k {
            assert_eq!(ds.contains(&d), k % d == 0);
        }
    }
}

#[test]
fn non_generators_are_rejected() {
    // 2 has order 3 modulo 7; 3 has order 5 modulo 11
    assert_eq!(is_generator(7, 2), false);
    assert_eq!(is_generator(11, 3), false);
    assert_eq!(is_generator(7, 1), false);
}

#[test]
fn mod_exp_exact_values() {
    assert_eq!(mod_exp(2, 10, 1000), 24);
    assert_eq!(mod_exp(5, 0, 7), 1);
    assert_eq!(mod_exp(0, 0, 2), 1);
    assert_eq!(mod_exp(10, 5, 1), 0);
    assert_eq!(mod_exp(3, 4, 5), 1);
}

#[test]
fn wide_products_do_not_wrap() {
    // u64::MAX - 1 is congruent to -1 modulo u64::MAX, so its square reduces
    // to 1: only a double-width intermediate gets this right
    let m = u64::MAX;
    assert_eq!(mul_mod(m - 1, m - 1, m), 1);
    assert_eq!(mod_exp(m - 1, 2, m), 1);
    assert_eq!(mod_exp(m - 1, 3, m), m - 1);
}

#[test]
fn divisibility_with_signs() {
    assert!(is_factor(3, 12));
    assert!(!is_factor(5, 12));
    assert!(is_factor(-3, 12));
    assert!(is_factor(3, -12));
    assert!(is_factor(-3, -12));
    assert!(is_factor(-1, i32::MIN));
    assert!(is_factor(i32::MIN, i32::MIN));
    assert!(!is_factor(i32::MIN, i32::MIN + 1));
}

#[test]
fn candidates_stay_in_range() {
    for _ in 0..100 {
        let c = generate_candidate(7);
        assert!((2..=5).contains(&c));
    }
}

#[test]
fn found_generators_generate() {
    for p in [7u64, 11, 13, 101] {
        let g = find_generator(p).unwrap();
        assert!((2..=p - 2).contains(&g));
        assert!(is_generator(p, g));
    }
}

#[test]
fn cube_roots_of_unity_mod_seven() {
    let v = multiplicative_subgroup(7, 3).unwrap();
    assert_eq!(v, vec![1, 2, 4]);
}

#[test]
fn quintic_roots_of_unity_mod_eleven() {
    let v = multiplicative_subgroup(11, 5).unwrap();
    assert_eq!(v, vec![1, 3, 4, 5, 9]);
}

#[test]
fn quartic_roots_of_unity_mod_thirteen() {
    let v = multiplicative_subgroup(13, 4).unwrap();
    assert_eq!(v, vec![1, 5, 8, 12]);
}

#[test]
fn non_factor_order_is_refused() {
    assert!(matches!(
        multiplicative_subgroup(7, 4),
        Err(SubgroupError::NotFactor(_))
    ));
    assert!(matches!(
        multiplicative_subgroup(11, 3),
        Err(SubgroupError::NotFactor(_))
    ));
}

#[test]
fn composite_modulus_is_refused() {
    assert!(matches!(
        multiplicative_subgroup(9, 3),
        Err(SubgroupError::NotPrime(_))
    ));
    assert!(matches!(
        multiplicative_subgroup(15, 2),
        Err(SubgroupError::NotPrime(_))
    ));
    assert!(matches!(
        multiplicative_subgroup(1, 1),
        Err(SubgroupError::NotPrime(_))
    ));
}

#[test]
fn elements_are_nth_roots_of_unity() {
    for (p, n) in [(7u64, 3u64), (11, 5), (13, 4), (31, 6)] {
        let v = multiplicative_subgroup(p, n).unwrap();
        assert_eq!(v.len() as u64, n);
        assert_eq!(v[0], 1);
        for &e in &v {
            assert_eq!(mod_exp(e, n, p), 1);
        }
        // the group order is exactly n: every proper divisor m of n leaves
        // some element whose m-th power is not 1
        for m in 1..n {
            if n % m == 0 {
                assert!(v.iter().any(|&e| mod_exp(e, m, p) != 1));
            }
        }
    }
}

#[test]
fn subgroups_are_closed_under_multiplication() {
    for (p, n) in [(7u64, 3u64), (11, 5), (13, 4), (31, 6)] {
        let v = multiplicative_subgroup(p, n).unwrap();
        for &x in &v {
            for &y in &v {
                assert!(v.contains(&mul_mod(x, y, p)));
            }
        }
    }
}

#[test]
fn subgroup_is_exactly_the_roots_of_unity() {
    // the returned set is all of { x in [1, p) : x^n == 1 mod p }, not just
    // some subset of it
    for (p, n) in [(7u64, 3u64), (11, 5), (13, 4), (31, 6)] {
        let v = multiplicative_subgroup(p, n).unwrap();
        for x in 1..p {
            assert_eq!(v.contains(&x), mod_exp(x, n, p) == 1);
        }
    }
}

#[test]
fn error_descriptions() {
    assert_eq!(NotPrimeError.description(), "p is not prime");
    assert_eq!(NotFactorError.description(), "n is not a factor of p-1");
}
