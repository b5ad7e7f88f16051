//! Primality by trial division.

use vstd::prelude::*;

verus! {

/// The exclusive upper limit of the standard run.
pub const BOUND: i32 = 5_000_000;

/// `r` is the floor of the square root of `n`.
pub open spec fn is_floor_sqrt(n: int, r: int) -> bool {
    0 <= r && r * r <= n < (r + 1) * (r + 1)
}

/// Squaring is monotone on the naturals.
proof fn lemma_square_monotone(a: int, b: int)
    requires
        0 <= a <= b,
    ensures
        a * a <= b * b,
{
    assert(a * a <= b * b) by (nonlinear_arith)
        requires
            0 <= a <= b,
    ;
}

/// Floor of the square root, by bisection on integers.
///
/// The result is exact: no rounding takes place, so callers need no margin
/// to make up for an underestimate.
pub fn isqrt(n: i32) -> (r: i32)
    requires
        n >= 0,
    ensures
        is_floor_sqrt(n as int, r as int),
        r <= 46340,
{
    let mut lo: i32 = 0;
    let mut hi: i32 = 46341;
    assert(46341 * 46341 > i32::MAX) by (nonlinear_arith);
    while hi - lo > 1
        invariant
            0 <= lo < hi <= 46341,
            lo * lo <= n < hi * hi,
        decreases hi - lo,
    {
        let mid: i32 = lo + (hi - lo) / 2;
        proof {
            lemma_square_monotone(mid as int, 46340);
            assert(46340 * 46340 == 2147395600) by (nonlinear_arith);
        }
        if mid * mid <= n {
            lo = mid;
        } else {
            hi = mid;
        }
    }
    lo
}

/// `d` divides `n` without remainder.
pub open spec fn divides(d: int, n: int) -> bool {
    d != 0 && n % d == 0
}

/// `n` is prime: at least 2, and divisible by no integer strictly between 1
/// and itself.
pub open spec fn is_prime(n: int) -> bool {
    n >= 2 && forall|d: int| 2 <= d < n ==> !#[trigger] divides(d, n)
}

/// A proper divisor above the square root has its cofactor at or below it.
proof fn lemma_cofactor(n: int, d: int, r: int)
    requires
        is_floor_sqrt(n, r),
        r < d < n,
        divides(d, n),
    ensures
        2 <= n / d <= r,
        divides(n / d, n),
{
    let q = n / d;
    vstd::arithmetic::div_mod::lemma_fundamental_div_mod(n, d);
    assert(n == d * q);
    assert(q >= 2) by (nonlinear_arith)
        requires
            n == d * q,
            0 < d < n,
    ;
    assert(q <= r) by (nonlinear_arith)
        requires
            n == d * q,
            0 <= r < d,
            n < (r + 1) * (r + 1),
            q >= 2,
    ;
    assert(n % q == 0) by (nonlinear_arith)
        requires
            n == d * q,
            q >= 2,
    ;
}

/// Trial division may stop once every candidate up to the square root has
/// failed: a number with no divisor in `[2, tried)` is prime as soon as
/// `tried` passes its square root or reaches the number itself.
proof fn lemma_trial_division_complete(n: int, r: int, tried: int)
    requires
        n >= 2,
        is_floor_sqrt(n, r),
        tried > r || tried >= n,
        forall|d: int| 2 <= d < tried && d < n ==> !#[trigger] divides(d, n),
    ensures
        is_prime(n),
{
    assert forall|d: int| 2 <= d < n implies !#[trigger] divides(d, n) by {
        if d >= tried && divides(d, n) {
            lemma_cofactor(n, d, r);
            assert(!divides(n / d, n));
        }
    }
}

/// Decides whether `n` is prime.
///
/// Candidate divisors run from 2 up to one past the floor of the square
/// root of `n`, and always stay strictly below `n`. The extra candidate past
/// the root is a margin that costs one division; the bound below `n` is what
/// keeps 2 from being tested against itself and rejected. Numbers below 2,
/// the negative ones included, are not prime.
pub fn isprime(n: i32) -> (prime: bool)
    ensures
        prime == is_prime(n as int),
{
    if n < 2 {
        return false;
    }
    let root: i32 = isqrt(n);
    let last: i32 = root + 1;
    let mut i: i32 = 2;
    while i <= last && i < n
        invariant
            n >= 2,
            2 <= i <= last + 1,
            last == root + 1,
            is_floor_sqrt(n as int, root as int),
            root <= 46340,
            forall|d: int| 2 <= d < i && d < n ==> !#[trigger] divides(d, n as int),
        decreases last + 1 - i,
    {
        if n % i == 0 {
            assert(divides(i as int, n as int));
            return false;
        }
        i = i + 1;
    }
    proof {
        lemma_trial_division_complete(n as int, root as int, i as int);
    }
    true
}

/// The predicate is a function of its argument: whatever two calls on the
/// same number return, they return the same.
pub proof fn lemma_isprime_deterministic(n: i32, first: bool, second: bool)
    requires
        first == is_prime(n as int),
        second == is_prime(n as int),
    ensures
        first == second,
{
}

/// The primes strictly below `bound`.
pub open spec fn primes_below(bound: int) -> Set<int> {
    Set::new(|p: int| p < bound && is_prime(p))
}

/// Step of the induction below: with the set below `bound` known to be
/// finite, the set below `bound + 1` has one element more exactly when
/// `bound` is prime.
proof fn lemma_step_of_finite(bound: int)
    requires
        primes_below(bound).finite(),
    ensures
        primes_below(bound + 1).finite(),
        primes_below(bound + 1).len() == primes_below(bound).len() + if is_prime(bound) {
            1nat
        } else {
            0nat
        },
{
    if is_prime(bound) {
        assert(primes_below(bound + 1) =~= primes_below(bound).insert(bound));
    } else {
        assert(primes_below(bound + 1) =~= primes_below(bound));
    }
}

/// There are finitely many primes below any bound: none below 2, and above
/// that fewer than there are integers in `[2, bound)`.
pub proof fn lemma_primes_below_bounded(bound: int)
    ensures
        primes_below(bound).finite(),
        bound <= 2 ==> primes_below(bound).len() == 0,
        bound >= 2 ==> primes_below(bound).len() <= bound - 2,
    decreases bound,
{
    if bound <= 2 {
        assert(primes_below(bound) =~= Set::<int>::empty());
    } else {
        lemma_primes_below_bounded(bound - 1);
        lemma_step_of_finite(bound - 1);
    }
}

/// Moving the bound up by one raises the count by one exactly when the old
/// bound is prime, and leaves it unchanged otherwise.
pub proof fn lemma_primes_below_step(bound: int)
    ensures
        primes_below(bound + 1).len() == primes_below(bound).len() + if is_prime(bound) {
            1nat
        } else {
            0nat
        },
{
    lemma_primes_below_bounded(bound);
    lemma_step_of_finite(bound);
}

/// Counts the primes among the integers from 1 up to, and not including,
/// `bound`. A bound of 1 or less leaves nothing to examine and gives 0.
pub fn count_primes(bound: i32) -> (count: i32)
    ensures
        count == primes_below(bound as int).len(),
{
    proof {
        lemma_primes_below_bounded(1);
        lemma_primes_below_bounded(bound as int);
    }
    if bound <= 1 {
        return 0;
    }
    let mut count: i32 = 0;
    let mut i: i32 = 1;
    while i < bound
        invariant
            1 <= i <= bound,
            0 <= count < i,
            count == primes_below(i as int).len(),
        decreases bound - i,
    {
        proof {
            lemma_primes_below_step(i as int);
        }
        if isprime(i) {
            count = count + 1;
        }
        i = i + 1;
    }
    count
}

} // verus!
