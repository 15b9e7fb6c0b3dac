//! Divisibility and primality over the natural numbers, and the ascending
//! sequence of primes below a bound. Everything here is specification and
//! proof; the executable enumerators state their contracts in these terms.

use vstd::arithmetic::div_mod::{lemma_fundamental_div_mod, lemma_mod_multiples_basic};
use vstd::prelude::*;

verus! {

/// `d` divides `n`: `d` is positive and `n` leaves no remainder on division by `d`.
pub open spec fn divides(d: nat, n: nat) -> bool {
    d > 0 && n % d == 0
}

/// `n` is prime: at least two, and no number strictly between one and `n` divides it.
pub open spec fn is_prime(n: nat) -> bool {
    &&& n >= 2
    &&& forall|d: nat| 2 <= d < n ==> !#[trigger] divides(d, n)
}

/// The primes strictly below `bound`, in ascending order.
pub open spec fn primes_below(bound: nat) -> Seq<nat>
    decreases bound,
{
    if bound == 0 {
        Seq::empty()
    } else {
        let candidate = (bound - 1) as nat;
        if is_prime(candidate) {
            primes_below(candidate).push(candidate)
        } else {
            primes_below(candidate)
        }
    }
}

/// The sum of the elements of `s`.
pub open spec fn seq_sum(s: Seq<nat>) -> nat
    decreases s.len(),
{
    if s.len() == 0 {
        0
    } else {
        seq_sum(s.drop_last()) + s.last()
    }
}

/// `s` is strictly ascending, holds only primes below `bound`, and holds every one of them.
pub open spec fn is_ascending_prime_list(s: Seq<nat>, bound: nat) -> bool {
    &&& forall|i: int, j: int| 0 <= i < j < s.len() ==> s[i] < s[j]
    &&& forall|i: int| 0 <= i < s.len() ==> is_prime(#[trigger] s[i]) && s[i] < bound
    &&& forall|p: nat| is_prime(p) && p < bound ==> s.contains(p)
}

/// The least natural number whose square is at least `n`.
pub open spec fn ceil_sqrt(n: nat) -> nat
    decreases n,
{
    if n == 0 {
        0
    } else {
        let below = ceil_sqrt((n - 1) as nat);
        if below * below >= n {
            below
        } else {
            below + 1
        }
    }
}

/// `r` is the least natural number whose square is at least `n`.
pub open spec fn is_ceil_sqrt(r: nat, n: nat) -> bool {
    &&& r * r >= n
    &&& r == 0 || (r - 1) * (r - 1) < n
}

/// A positive number divides each of its multiples.
pub proof fn lemma_divides_multiple(d: nat, k: nat)
    requires
        d > 0,
    ensures
        divides(d, d * k),
        divides(d, k * d),
{
    lemma_mod_multiples_basic(k as int, d as int);
    assert(d * k == k * d) by (nonlinear_arith);
}

/// A number that `d` divides is `d` times its quotient by `d`.
pub proof fn lemma_divides_quotient(d: nat, n: nat)
    requires
        divides(d, n),
    ensures
        n == d * (n / d),
{
    lemma_fundamental_div_mod(n as int, d as int);
}

/// Divisibility is transitive.
pub proof fn lemma_divides_transitive(a: nat, b: nat, c: nat)
    requires
        divides(a, b),
        divides(b, c),
    ensures
        divides(a, c),
{
    lemma_divides_quotient(a, b);
    lemma_divides_quotient(b, c);
    let k = b / a;
    let j = c / b;
    assert(c == a * (k * j)) by (nonlinear_arith)
        requires
            b == a * k,
            c == b * j,
    ;
    lemma_divides_multiple(a, k * j);
}

/// A divisor of a positive number is no larger than that number.
pub proof fn lemma_divisor_at_most(d: nat, n: nat)
    requires
        divides(d, n),
        n > 0,
    ensures
        d <= n,
{
    lemma_divides_quotient(d, n);
    let q = n / d;
    assert(d <= n) by (nonlinear_arith)
        requires
            n == d * q,
            n > 0,
            d > 0,
            q >= 0,
    ;
}

/// Every number from two up has a prime divisor.
pub proof fn lemma_prime_divisor(n: nat) -> (p: nat)
    requires
        n >= 2,
    ensures
        is_prime(p),
        divides(p, n),
        p <= n,
    decreases n,
{
    if is_prime(n) {
        assert(n == n * 1) by (nonlinear_arith);
        lemma_divides_multiple(n, 1);
        n
    } else {
        let d = choose|d: nat| 2 <= d < n && divides(d, n);
        let p = lemma_prime_divisor(d);
        lemma_divides_transitive(p, d, n);
        p
    }
}

/// A composite number has a prime divisor whose square does not exceed it.
pub proof fn lemma_small_prime_divisor(n: nat) -> (p: nat)
    requires
        n >= 2,
        !is_prime(n),
    ensures
        is_prime(p),
        divides(p, n),
        p * p <= n,
{
    let d = choose|d: nat| 2 <= d < n && divides(d, n);
    lemma_divides_quotient(d, n);
    let e = n / d;
    assert(e >= 2) by (nonlinear_arith)
        requires
            n == d * e,
            2 <= d < n,
            e >= 0,
    ;
    lemma_divides_multiple(e, d);
    let m = if d <= e {
        d
    } else {
        e
    };
    assert(m * m <= n) by (nonlinear_arith)
        requires
            n == d * e,
            m == d || m == e,
            m <= d,
            m <= e,
            m >= 2,
    ;
    let p = lemma_prime_divisor(m);
    lemma_divides_transitive(p, m, n);
    assert(p * p <= m * m) by (nonlinear_arith)
        requires
            p <= m,
    ;
    p
}

/// A number from two up with no divisor `d` such that `2 <= d` and `d * d <= n` is prime.
pub proof fn lemma_prime_by_small_divisors(n: nat)
    requires
        n >= 2,
        forall|d: nat| 2 <= d && d * d <= n ==> !#[trigger] divides(d, n),
    ensures
        is_prime(n),
{
    if !is_prime(n) {
        let p = lemma_small_prime_divisor(n);
        assert(divides(p, n));
    }
}

/// `primes_below(bound)` is strictly ascending, holds only primes below
/// `bound`, and holds every one of them.
pub proof fn lemma_primes_below_characterized(bound: nat)
    ensures
        is_ascending_prime_list(primes_below(bound), bound),
    decreases bound,
{
    if bound > 0 {
        let candidate = (bound - 1) as nat;
        let shorter = primes_below(candidate);
        lemma_primes_below_characterized(candidate);
        if is_prime(candidate) {
            let longer = shorter.push(candidate);
            assert(primes_below(bound) == longer);
            assert forall|p: nat| is_prime(p) && p < bound implies longer.contains(p) by {
                if p == candidate {
                    assert(longer[shorter.len() as int] == p);
                } else {
                    let i = choose|i: int| 0 <= i < shorter.len() && shorter[i] == p;
                    assert(longer[i] == p);
                }
            }
        }
    }
}

/// Only one sequence is strictly ascending and holds exactly the primes below `bound`.
pub proof fn lemma_ascending_prime_list_unique(s: Seq<nat>, bound: nat)
    requires
        is_ascending_prime_list(s, bound),
    ensures
        s == primes_below(bound),
    decreases bound,
{
    if bound == 0 {
        if s.len() > 0 {
            assert(is_prime(s[0]));
        }
        assert(s =~= primes_below(bound));
    } else {
        let candidate = (bound - 1) as nat;
        if is_prime(candidate) {
            assert(s.contains(candidate));
            let i = choose|i: int| 0 <= i < s.len() && s[i] == candidate;
            if i < s.len() - 1 {
                assert(is_prime(s[s.len() - 1]));
                assert(s[i] < s[s.len() - 1]);
            }
            let rest = s.drop_last();
            assert forall|p: nat| is_prime(p) && p < candidate implies rest.contains(p) by {
                assert(s.contains(p));
                let k = choose|k: int| 0 <= k < s.len() && s[k] == p;
                assert(rest[k] == p);
            }
            assert forall|k: int| 0 <= k < rest.len() implies is_prime(#[trigger] rest[k])
                && rest[k] < candidate by {
                assert(is_prime(s[k]));
                assert(s[k] < s[s.len() - 1]);
            }
            lemma_ascending_prime_list_unique(rest, candidate);
            assert(s =~= rest.push(candidate));
        } else {
            assert forall|k: int| 0 <= k < s.len() implies is_prime(#[trigger] s[k]) && s[k]
                < candidate by {
                assert(is_prime(s[k]));
            }
            lemma_ascending_prime_list_unique(s, candidate);
        }
    }
}

/// `ceil_sqrt(n)` is the least number whose square is at least `n`, and it is at most `n`.
pub proof fn lemma_ceil_sqrt(n: nat)
    ensures
        is_ceil_sqrt(ceil_sqrt(n), n),
        ceil_sqrt(n) <= n,
    decreases n,
{
    if n > 0 {
        lemma_ceil_sqrt((n - 1) as nat);
        let below = ceil_sqrt((n - 1) as nat);
        if below * below < n {
            assert((below + 1) * (below + 1) >= n) by (nonlinear_arith)
                requires
                    below * below >= n - 1,
            ;
            assert(below + 1 <= n) by (nonlinear_arith)
                requires
                    below * below < n,
                    below <= n - 1,
            ;
        } else {
            assert(below >= 1) by (nonlinear_arith)
                requires
                    below * below >= n,
                    n > 0,
            ;
        }
    }
}

/// At most one number is the least whose square is at least `n`.
pub proof fn lemma_ceil_sqrt_unique(r: nat, n: nat)
    requires
        is_ceil_sqrt(r, n),
    ensures
        r == ceil_sqrt(n),
{
    lemma_ceil_sqrt(n);
    let c = ceil_sqrt(n);
    if r < c {
        assert(r * r <= (c - 1) * (c - 1)) by (nonlinear_arith)
            requires
                r <= c - 1,
        ;
    }
    if c < r {
        assert(c * c <= (r - 1) * (r - 1)) by (nonlinear_arith)
            requires
                c <= r - 1,
        ;
    }
}

/// The primes below a smaller bound are a prefix of the primes below a larger one.
pub proof fn lemma_primes_below_prefix(low: nat, high: nat)
    requires
        low <= high,
    ensures
        primes_below(low).len() <= primes_below(high).len(),
        primes_below(high).take(primes_below(low).len() as int) == primes_below(low),
    decreases high - low,
{
    if low < high {
        let candidate = (high - 1) as nat;
        lemma_primes_below_prefix(low, candidate);
        let k = primes_below(low).len() as int;
        assert(primes_below(high).take(k) =~= primes_below(candidate).take(k));
    } else {
        assert(primes_below(high).take(primes_below(low).len() as int) =~= primes_below(low));
    }
}

/// Where no prime lies in `low..high`, both bounds have the same primes below them.
pub proof fn lemma_primes_below_gap(low: nat, high: nat)
    requires
        low <= high,
        forall|p: nat| low <= p < high ==> !#[trigger] is_prime(p),
    ensures
        primes_below(high) == primes_below(low),
    decreases high - low,
{
    if low < high {
        lemma_primes_below_gap(low, (high - 1) as nat);
    }
}

/// The sum of a sequence extended by one element.
pub proof fn lemma_seq_sum_push(s: Seq<nat>, x: nat)
    ensures
        seq_sum(s.push(x)) == seq_sum(s) + x,
{
    assert(s.push(x).drop_last() =~= s);
}

/// The numbers below `bound` that pass `test`, in ascending order.
pub open spec fn numbers_below(test: spec_fn(nat) -> bool, bound: nat) -> Seq<nat>
    decreases bound,
{
    if bound == 0 {
        Seq::empty()
    } else {
        let candidate = (bound - 1) as nat;
        if test(candidate) {
            numbers_below(test, candidate).push(candidate)
        } else {
            numbers_below(test, candidate)
        }
    }
}

/// `s` is strictly ascending and holds exactly the numbers below `bound` that pass `test`.
pub open spec fn is_ascending_list_of(s: Seq<nat>, test: spec_fn(nat) -> bool, bound: nat) -> bool {
    &&& forall|i: int, j: int| 0 <= i < j < s.len() ==> s[i] < s[j]
    &&& forall|i: int| 0 <= i < s.len() ==> test(#[trigger] s[i]) && s[i] < bound
    &&& forall|x: nat| #[trigger] test(x) && x < bound ==> s.contains(x)
}

/// Only one sequence is strictly ascending and holds exactly the numbers
/// below `bound` that pass `test`.
pub proof fn lemma_ascending_list_unique(s: Seq<nat>, test: spec_fn(nat) -> bool, bound: nat)
    requires
        is_ascending_list_of(s, test, bound),
    ensures
        s == numbers_below(test, bound),
    decreases bound,
{
    if bound == 0 {
        if s.len() > 0 {
            assert(test(s[0]));
        }
        assert(s =~= numbers_below(test, bound));
    } else {
        let candidate = (bound - 1) as nat;
        if test(candidate) {
            assert(s.contains(candidate));
            let i = choose|i: int| 0 <= i < s.len() && s[i] == candidate;
            if i < s.len() - 1 {
                assert(test(s[s.len() - 1]));
                assert(s[i] < s[s.len() - 1]);
            }
            let rest = s.drop_last();
            assert forall|x: nat| #[trigger] test(x) && x < candidate implies rest.contains(x) by {
                assert(s.contains(x));
                let k = choose|k: int| 0 <= k < s.len() && s[k] == x;
                assert(rest[k] == x);
            }
            assert forall|k: int| 0 <= k < rest.len() implies test(#[trigger] rest[k]) && rest[k]
                < candidate by {
                assert(test(s[k]));
                assert(s[k] < s[s.len() - 1]);
            }
            lemma_ascending_list_unique(rest, test, candidate);
            assert(s =~= rest.push(candidate));
        } else {
            assert forall|k: int| 0 <= k < s.len() implies test(#[trigger] s[k]) && s[k]
                < candidate by {
                assert(test(s[k]));
            }
            lemma_ascending_list_unique(s, test, candidate);
        }
    }
}

/// Where no number in `low..high` passes the test, both bounds have the same numbers below them.
pub proof fn lemma_numbers_below_gap(test: spec_fn(nat) -> bool, low: nat, high: nat)
    requires
        low <= high,
        forall|x: nat| low <= x < high ==> !#[trigger] test(x),
    ensures
        numbers_below(test, high) == numbers_below(test, low),
    decreases high - low,
{
    if low < high {
        lemma_numbers_below_gap(test, low, (high - 1) as nat);
    }
}

/// From three on, the least number whose square is at least `n` is below `n`.
pub proof fn lemma_ceil_sqrt_below(n: nat)
    requires
        n >= 3,
    ensures
        ceil_sqrt(n) < n,
{
    lemma_ceil_sqrt(n);
    let r = ceil_sqrt(n);
    assert(r < n) by (nonlinear_arith)
        requires
            n >= 3,
            r == 0 || (r - 1) * (r - 1) < n,
    ;
}

} // verus!
