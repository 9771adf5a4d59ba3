use prime_subgroup::factors;
use prime_subgroup::is_generator;
use prime_subgroup::is_prime;
use prime_subgroup::multiplicative_subgroup;

#[test]
fn test_factors() {
    assert_eq!(factors(12), vec![1, 2, 3, 4, 6, 12]);
    assert_eq!(factors(15), vec![1, 3, 5, 15]);
    assert_eq!(factors(17), vec![1, 17]);
    assert_eq!(factors(24), vec![1, 2, 3, 4, 6, 8, 12, 24]);
    assert_eq!(factors(6), vec![1, 2, 3, 6]);
}

#[test]
fn test_is_generator() {
    assert_eq!(is_generator(7, 3), true);
    assert_eq!(is_generator(11, 2), true);
    assert_eq!(is_generator(13, 2), true);
    assert_eq!(is_generator(17, 3), true);
    assert_eq!(is_generator(19, 2), true);
    assert_eq!(is_generator(23, 5), true);
    assert_eq!(is_generator(29, 2), true);
    assert_eq!(is_generator(31, 3), true);
    assert_eq!(is_generator(37, 2), true);
    assert_eq!(is_generator(41, 6), true);
    assert_eq!(is_generator(43, 3), true);
    assert_eq!(is_generator(47, 5), true);
    assert_eq!(is_generator(53, 2), true);
    assert_eq!(is_generator(59, 2), true);
    assert_eq!(is_generator(61, 2), true);
    assert_eq!(is_generator(67, 2), true);
    assert_eq!(is_generator(71, 7), true);
    assert_eq!(is_generator(73, 5), true);
    assert_eq!(is_generator(79, 3), true);
    assert_eq!(is_generator(83, 2), true);
    assert_eq!(is_generator(89, 3), true);
    assert_eq!(is_generator(97, 5), true);
    assert_eq!(is_generator(101, 2), true);
    assert_eq!(is_generator(103, 5), true);
    assert_eq!(is_generator(107, 2), true);
    assert_eq!(is_generator(109, 6), true);
    assert_eq!(is_generator(113, 3), true);
    assert_eq!(is_generator(127, 3), true);
}

#[test]
fn test_is_prime() {
    assert_eq!(is_prime(7, 5), true);
    assert_eq!(is_prime(11, 5), true);
    assert_eq!(is_prime(13, 5), true);
    assert_eq!(is_prime(17, 5), true);
    assert_eq!(is_prime(19, 5), true);
    assert_eq!(is_prime(23, 5), true);
    assert_eq!(is_prime(29, 5), true);
    assert_eq!(is_prime(31, 5), true);
    assert_eq!(is_prime(37, 5), true);
    assert_eq!(is_prime(41, 5), true);
    assert_eq!(is_prime(43, 5), true);
    assert_eq!(is_prime(47, 5), true);
    assert_eq!(is_prime(53, 5), true);
    assert_eq!(is_prime(59, 5), true);
    assert_eq!(is_prime(61, 5), true);
    assert_eq!(is_prime(67, 5), true);
    assert_eq!(is_prime(71, 5), true);
    assert_eq!(is_prime(73, 5), true);
    assert_eq!(is_prime(79, 5), true);
    assert_eq!(is_prime(83, 5), true);
    assert_eq!(is_prime(89, 5), true);
    assert_eq!(is_prime(97, 5), true);
    assert_eq!(is_prime(101, 5), true);
    assert_eq!(is_prime(103, 5), true);
}

#[test]
fn test_multiplicative_subgroup() {
    assert_eq!(multiplicative_subgroup(7, 3).unwrap(), vec![1, 2, 4]);
}
