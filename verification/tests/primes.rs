use prime_bench::primes::{count_primes, isprime, isqrt, BOUND};

fn has_proper_divisor(n: i32) -> bool {
    let mut d = 2;
    while d < n {
        if n % d == 0 {
            return true;
        }
        d += 1;
    }
    false
}

#[test]
fn zero_is_not_prime() {
    assert!(!isprime(0));
}

#[test]
fn one_is_not_prime() {
    assert!(!isprime(1));
}

#[test]
fn two_is_prime() {
    assert!(isprime(2));
}

#[test]
fn three_is_prime() {
    assert!(isprime(3));
}

#[test]
fn four_is_not_prime() {
    assert!(!isprime(4));
}

#[test]
fn seventeen_is_prime() {
    assert!(isprime(17));
}

#[test]
fn twenty_five_is_not_prime() {
    assert!(!isprime(25));
}

#[test]
fn negative_numbers_are_not_prime() {
    assert!(!isprime(-1));
    assert!(!isprime(-2));
    assert!(!isprime(-17));
    assert!(!isprime(i32::MIN));
}

#[test]
fn repeated_calls_agree() {
    for n in [0, 1, 2, 3, 4, 17, 25, 97, 7919, 7921, 4_999_999] {
        let first = isprime(n);
        let second = isprime(n);
        assert_eq!(first, second, "n = {}", n);
    }
}

#[test]
fn agrees_with_exhaustive_division_below_five_thousand() {
    for n in 0..5000 {
        assert_eq!(isprime(n), n >= 2 && !has_proper_divisor(n), "n = {}", n);
    }
}

#[test]
fn squares_of_primes_are_rejected() {
    for p in [2, 3, 5, 7, 11, 13, 101, 2237, 46337] {
        assert!(isprime(p), "p = {}", p);
        assert!(!isprime(p * p), "p = {}", p);
    }
}

#[test]
fn products_of_neighbouring_primes_are_rejected() {
    assert!(!isprime(2 * 3));
    assert!(!isprime(3 * 5));
    assert!(!isprime(5 * 7));
    assert!(!isprime(11 * 13));
    assert!(!isprime(2221 * 2237));
    assert!(!isprime(46327 * 46337));
}

#[test]
fn largest_inputs() {
    assert!(isprime(i32::MAX));
    assert!(!isprime(i32::MAX - 1));
    assert!(!isprime(2_147_395_600));
    assert!(isprime(2_147_483_629));
}

#[test]
fn isqrt_is_the_floor_of_the_root() {
    assert_eq!(isqrt(0), 0);
    assert_eq!(isqrt(1), 1);
    assert_eq!(isqrt(2), 1);
    assert_eq!(isqrt(3), 1);
    assert_eq!(isqrt(4), 2);
    assert_eq!(isqrt(8), 2);
    assert_eq!(isqrt(9), 3);
    assert_eq!(isqrt(15), 3);
    assert_eq!(isqrt(16), 4);
    assert_eq!(isqrt(24), 4);
    assert_eq!(isqrt(25), 5);
    assert_eq!(isqrt(4_999_999), 2236);
    assert_eq!(isqrt(2_147_395_599), 46339);
    assert_eq!(isqrt(2_147_395_600), 46340);
    assert_eq!(isqrt(i32::MAX), 46340);
}

#[test]
fn isqrt_brackets_every_small_number() {
    for n in 0..100_000i64 {
        let r = isqrt(n as i32) as i64;
        assert!(r * r <= n && n < (r + 1) * (r + 1), "n = {}", n);
    }
}

#[test]
fn count_below_ten_is_four() {
    assert_eq!(count_primes(10), 4);
}

#[test]
fn count_with_nothing_to_examine_is_zero() {
    assert_eq!(count_primes(i32::MIN), 0);
    assert_eq!(count_primes(-5), 0);
    assert_eq!(count_primes(0), 0);
    assert_eq!(count_primes(1), 0);
    assert_eq!(count_primes(2), 0);
}

#[test]
fn count_steps_up_at_each_prime() {
    assert_eq!(count_primes(3), 1);
    assert_eq!(count_primes(4), 2);
    assert_eq!(count_primes(5), 2);
    assert_eq!(count_primes(6), 3);
    assert_eq!(count_primes(7), 3);
    assert_eq!(count_primes(8), 4);
    assert_eq!(count_primes(11), 4);
    assert_eq!(count_primes(12), 5);
}

#[test]
fn count_matches_known_values() {
    assert_eq!(count_primes(100), 25);
    assert_eq!(count_primes(1_000), 168);
    assert_eq!(count_primes(10_000), 1_229);
    assert_eq!(count_primes(100_000), 9_592);
}

#[test]
fn count_matches_the_predicate() {
    let mut expected = 0;
    for bound in 0..2000 {
        assert_eq!(count_primes(bound), expected, "bound = {}", bound);
        if isprime(bound) {
            expected += 1;
        }
    }
}

#[test]
fn standard_bound_is_five_million() {
    assert_eq!(BOUND, 5_000_000);
}

#[test]
fn count_below_standard_bound() {
    assert_eq!(count_primes(BOUND), 348_513);
}
