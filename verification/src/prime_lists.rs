//! Lists of primes held in machine integers: the predicates in which the
//! enumerators state what they hold and return, and the lemmas that connect
//! trial division and sieving to primality.

use crate::number_theory::{
    divides, is_prime, lemma_ascending_prime_list_unique, lemma_divides_multiple,
    lemma_divides_quotient, lemma_divides_transitive, lemma_prime_by_small_divisors,
    lemma_primes_below_characterized, lemma_primes_below_gap, lemma_primes_below_prefix,
    lemma_small_prime_divisor, primes_below,
};
use vstd::arithmetic::div_mod::lemma_fundamental_div_mod_converse_mod;
use vstd::prelude::*;
use vstd::seq_lib::lemma_multiset_commutative;

verus! {

/// The elements of `s` as natural numbers.
pub open spec fn nats(s: Seq<u64>) -> Seq<nat> {
    Seq::new(s.len(), |i: int| s[i] as nat)
}

/// No element of `s` is zero.
pub open spec fn all_nonzero(s: Seq<u64>) -> bool {
    forall|i: int| 0 <= i < s.len() ==> #[trigger] s[i] != 0
}

/// No element of `divisors` divides `candidate`.
pub open spec fn no_divisor_in(candidate: nat, divisors: Seq<u64>) -> bool {
    forall|i: int| 0 <= i < divisors.len() ==> !divides(#[trigger] divisors[i] as nat, candidate)
}

/// `s` is not empty and lists, in ascending order, exactly the primes up to its last element.
pub open spec fn is_prime_prefix(s: Seq<u64>) -> bool {
    &&& s.len() >= 1
    &&& nats(s) == primes_below((s.last() + 1) as nat)
}

/// `p` is the least number from the last element of `s` up that no element of `s` divides.
pub open spec fn is_next_candidate(s: Seq<u64>, p: u64) -> bool {
    &&& s.len() >= 1
    &&& s.last() <= p
    &&& no_divisor_in(p as nat, s)
    &&& forall|c: u64| s.last() <= c < p ==> !#[trigger] no_divisor_in(c as nat, s)
}

/// No number from the last element of `s` up to the largest `u64` is free of divisors in `s`.
pub open spec fn has_no_candidate(s: Seq<u64>) -> bool {
    &&& s.len() >= 1
    &&& forall|c: u64| s.last() <= c ==> !#[trigger] no_divisor_in(c as nat, s)
}

/// `p` is the least prime above `after`.
pub open spec fn is_next_prime(after: nat, p: nat) -> bool {
    &&& is_prime(p)
    &&& after < p
    &&& forall|q: nat| after < q < p ==> !#[trigger] is_prime(q)
}

/// The primes that fit in a `u64`, in ascending order.
pub open spec fn u64_primes() -> Seq<nat> {
    primes_below(0x1_0000_0000_0000_0000)
}

/// The primes below `n`, in ascending order, as machine integers: what
/// every enumeration below `n` returns.
pub open spec fn enumeration(n: u64) -> Seq<u64> {
    Seq::new(primes_below(n as nat).len(), |i: int| primes_below(n as nat)[i] as u64)
}

/// A list that stands for the primes below `n` is the enumeration below `n`.
pub proof fn lemma_enumeration(s: Seq<u64>, n: u64)
    requires
        nats(s) == primes_below(n as nat),
    ensures
        s == enumeration(n),
{
    assert(s.len() == nats(s).len());
    assert forall|i: int| 0 <= i < s.len() implies s[i] == enumeration(n)[i] by {
        assert(nats(s)[i] == s[i] as nat);
    }
    assert(s =~= enumeration(n));
}

/// `c` is a candidate whose primality trial division by the primes below
/// `bound` decides: at least two, not below `bound`, and below its square.
pub open spec fn is_decided_by(c: nat, bound: nat) -> bool {
    2 <= c && bound <= c < bound * bound
}

/// The test that keeps the values below `n`.
pub open spec fn below(n: u64) -> spec_fn(u64) -> bool {
    |v: u64| v < n
}

/// `s` is in ascending order; equal neighbours are allowed.
pub open spec fn is_sorted(s: Seq<u64>) -> bool {
    forall|i: int, j: int| 0 <= i <= j < s.len() ==> s[i] <= s[j]
}

/// How often the number `c` survives trial division by `divisors` within `low..high`: once or never.
pub open spec fn survivor_count(c: u64, low: u64, high: u64, divisors: Seq<u64>) -> nat {
    if low <= c < high && no_divisor_in(c as nat, divisors) {
        1
    } else {
        0
    }
}

/// `merged` holds each element of `small` as often as `small` does, and once
/// more each number in `low..high` that no element of `small` divides.
pub open spec fn is_merge_of(merged: Seq<u64>, small: Seq<u64>, low: u64, high: u64) -> bool {
    forall|c: u64| #[trigger]
        merged.to_multiset().count(c) == small.to_multiset().count(c) + survivor_count(
            c,
            low,
            high,
            small,
        )
}

/// `k` is below two or has a divisor `d` with `2 <= d < upto` whose square does not exceed `k`.
pub open spec fn is_struck(k: nat, upto: nat) -> bool {
    k < 2 || exists|d: nat| 2 <= d < upto && d * d <= k && #[trigger] divides(d, k)
}

/// `k` is a multiple of `i` from the square of `i` up and below `end`.
pub open spec fn is_struck_by(k: nat, i: nat, end: nat) -> bool {
    i * i <= k < end && divides(i, k)
}

/// Raising the bound on divisors by one strikes the multiples of the old bound from its square up.
pub proof fn lemma_struck_step(k: nat, i: nat)
    requires
        i >= 2,
    ensures
        is_struck(k, i + 1) <==> is_struck(k, i) || (i * i <= k && divides(i, k)),
{
    if is_struck(k, i + 1) && k >= 2 {
        let d = choose|d: nat| 2 <= d < i + 1 && d * d <= k && #[trigger] divides(d, k);
        if d < i {
            assert(is_struck(k, i));
        }
    }
    if is_struck(k, i) && k >= 2 {
        let d = choose|d: nat| 2 <= d < i && d * d <= k && #[trigger] divides(d, k);
        assert(2 <= d < i + 1 && d * d <= k && divides(d, k));
    }
    if i * i <= k && divides(i, k) {
        assert(k >= 2) by (nonlinear_arith)
            requires
                i * i <= k,
                i >= 2,
        ;
        assert(2 <= i < i + 1 && i * i <= k && divides(i, k));
    }
}

/// A multiple of a struck number, from that number's square up, is struck by the same divisor.
pub proof fn lemma_struck_inherited(i: nat, k: nat)
    requires
        i >= 2,
        is_struck(i, i),
        i * i <= k,
        divides(i, k),
    ensures
        is_struck(k, i),
{
    let d = choose|d: nat| 2 <= d < i && d * d <= i && #[trigger] divides(d, i);
    lemma_divides_transitive(d, i, k);
    assert(d * d <= k) by (nonlinear_arith)
        requires
            d * d <= i,
            i * i <= k,
            i >= 2,
    ;
}

/// Once the square of the bound on divisors exceeds `k`, `k` is unstruck exactly when it is prime.
pub proof fn lemma_unstruck_is_prime(k: nat, i: nat)
    requires
        i * i > k,
    ensures
        !is_struck(k, i) <==> is_prime(k),
{
    if !is_struck(k, i) {
        assert forall|d: nat| 2 <= d && d * d <= k implies !#[trigger] divides(d, k) by {
            assert(d < i) by (nonlinear_arith)
                requires
                    d * d <= k,
                    k < i * i,
            ;
        }
        lemma_prime_by_small_divisors(k);
    }
    if is_prime(k) && is_struck(k, i) {
        let d = choose|d: nat| 2 <= d < i && d * d <= k && #[trigger] divides(d, k);
        assert(d < k) by (nonlinear_arith)
            requires
                d * d <= k,
                d >= 2,
        ;
    }
}

/// A number strictly between two consecutive multiples of `i` is no multiple of `i`.
pub proof fn lemma_between_multiples(i: nat, multiple: nat, offset: nat)
    requires
        divides(i, multiple),
        0 < offset < i,
    ensures
        !divides(i, multiple + offset),
{
    lemma_divides_quotient(i, multiple);
    let q = multiple / i;
    assert(multiple + offset == q * i + offset) by (nonlinear_arith)
        requires
            multiple == i * q,
    ;
    lemma_fundamental_div_mod_converse_mod(
        (multiple + offset) as int,
        i as int,
        q as int,
        offset as int,
    );
}

/// The successor of a multiple of `i` among the multiples of `i`.
pub proof fn lemma_next_multiple(i: nat, multiple: nat)
    requires
        divides(i, multiple),
    ensures
        divides(i, multiple + i),
{
    lemma_divides_quotient(i, multiple);
    let q = multiple / i;
    assert(multiple + i == i * (q + 1)) by (nonlinear_arith)
        requires
            multiple == i * q,
    ;
    lemma_divides_multiple(i, q + 1);
}

/// The list that holds only the number two is a list of all primes up to two.
pub proof fn lemma_two_is_prime_prefix()
    ensures
        is_prime_prefix(seq![2u64]),
{
    reveal_with_fuel(primes_below, 4);
    assert(is_prime(2));
    assert(!is_prime(1));
    assert(!is_prime(0));
    assert(nats(seq![2u64]) =~= primes_below(3));
}

/// A list of the primes below a bound is strictly ascending and holds only
/// primes below the bound, none of them zero.
pub proof fn lemma_prime_list_facts(s: Seq<u64>, bound: nat)
    requires
        nats(s) == primes_below(bound),
    ensures
        all_nonzero(s),
        forall|i: int| 0 <= i < s.len() ==> is_prime(#[trigger] s[i] as nat) && s[i] < bound,
        forall|i: int, j: int| 0 <= i < j < s.len() ==> s[i] < s[j],
{
    lemma_primes_below_characterized(bound);
    assert forall|i: int| 0 <= i < s.len() implies is_prime(#[trigger] s[i] as nat) && s[i]
        < bound by {
        assert(nats(s)[i] == s[i] as nat);
    }
    assert forall|i: int, j: int| 0 <= i < j < s.len() implies s[i] < s[j] by {
        assert(nats(s)[i] == s[i] as nat);
        assert(nats(s)[j] == s[j] as nat);
    }
}

/// A prime below the bound has an index in a list of the primes below that bound.
pub proof fn lemma_prime_list_holds(s: Seq<u64>, bound: nat, p: nat) -> (i: int)
    requires
        nats(s) == primes_below(bound),
        is_prime(p),
        p < bound,
    ensures
        0 <= i < s.len(),
        s[i] == p,
{
    lemma_primes_below_characterized(bound);
    assert(primes_below(bound).contains(p));
    let i = choose|i: int| 0 <= i < nats(s).len() && nats(s)[i] == p;
    i
}

/// A prime from the bound up has no divisor in a list of the primes below that bound.
pub proof fn lemma_prime_outside_list(s: Seq<u64>, bound: nat, q: nat)
    requires
        nats(s) == primes_below(bound),
        is_prime(q),
        bound <= q,
    ensures
        no_divisor_in(q, s),
{
    lemma_prime_list_facts(s, bound);
    assert forall|i: int| 0 <= i < s.len() implies !divides(#[trigger] s[i] as nat, q) by {
        assert(is_prime(s[i] as nat));
    }
}

/// A list of the primes below a bound that is not empty is a list of all
/// primes up to its last element.
pub proof fn lemma_prime_list_is_prefix(s: Seq<u64>, bound: nat)
    requires
        nats(s) == primes_below(bound),
        s.len() >= 1,
    ensures
        is_prime_prefix(s),
        s.last() < bound,
{
    lemma_prime_list_facts(s, bound);
    let last = s.last();
    assert(is_prime(s[s.len() - 1] as nat));
    assert forall|p: nat| last + 1 <= p < bound implies !#[trigger] is_prime(p) by {
        if is_prime(p) {
            let i = lemma_prime_list_holds(s, bound, p);
            if i < s.len() - 1 {
                assert(s[i] < s[s.len() - 1]);
            }
        }
    }
    lemma_primes_below_gap((last + 1) as nat, bound);
}

/// Trial division by the primes below a bound decides primality of every
/// number from the bound up to the bound's square.
pub proof fn lemma_trial_division_decides(s: Seq<u64>, bound: nat, c: nat)
    requires
        nats(s) == primes_below(bound),
        is_decided_by(c, bound),
    ensures
        no_divisor_in(c, s) <==> is_prime(c),
{
    if is_prime(c) {
        lemma_prime_outside_list(s, bound, c);
    }
    if no_divisor_in(c, s) && !is_prime(c) {
        let t = lemma_small_prime_divisor(c);
        assert(t < bound) by (nonlinear_arith)
            requires
                t * t <= c,
                c < bound * bound,
        ;
        let i = lemma_prime_list_holds(s, bound, t);
        assert(divides(s[i] as nat, c));
    }
}

/// In an ascending list of primes the element at index `i` is at least `i + 2`.
pub proof fn lemma_prime_list_growth(s: Seq<u64>, bound: nat, i: int)
    requires
        nats(s) == primes_below(bound),
        0 <= i < s.len(),
    ensures
        s[i] >= i + 2,
    decreases i,
{
    lemma_prime_list_facts(s, bound);
    assert(is_prime(s[i] as nat));
    if i > 0 {
        lemma_prime_list_growth(s, bound, i - 1);
    }
}

/// A list of all primes up to its last element is a prefix of the primes
/// that fit in a `u64`, and its length fits in a counter with room to spare.
pub proof fn lemma_prime_prefix_of_all(s: Seq<u64>)
    requires
        is_prime_prefix(s),
    ensures
        s.len() <= u64_primes().len(),
        nats(s) == u64_primes().take(s.len() as int),
        s.len() < u64::MAX,
{
    lemma_primes_below_prefix((s.last() + 1) as nat, 0x1_0000_0000_0000_0000);
    lemma_prime_list_growth(s, (s.last() + 1) as nat, s.len() - 1);
}

/// On a list of all primes up to its last element, the least number from the
/// last element up that nothing in the list divides is the next prime, and the
/// list extended by it is again a list of all primes up to its last element.
pub proof fn lemma_next_candidate_is_next_prime(s: Seq<u64>, p: u64)
    requires
        is_prime_prefix(s),
        is_next_candidate(s, p),
    ensures
        is_next_prime(s.last() as nat, p as nat),
        is_prime_prefix(s.push(p)),
{
    let last = s.last();
    let bound = (last + 1) as nat;
    lemma_prime_list_facts(s, bound);
    assert(is_prime(s[s.len() - 1] as nat));
    // The last element divides itself, so the candidate lies above it.
    assert(last as nat == (last as nat) * 1) by (nonlinear_arith);
    lemma_divides_multiple(last as nat, 1);
    assert(divides(s[s.len() - 1] as nat, last as nat));
    assert(!no_divisor_in(last as nat, s));
    assert(last < p);
    // No prime lies strictly between the last element and the candidate.
    assert forall|q: nat| last < q < p implies !#[trigger] is_prime(q) by {
        if is_prime(q) {
            lemma_prime_outside_list(s, bound, q);
            assert(!no_divisor_in((q as u64) as nat, s));
        }
    }
    // The candidate is prime: a prime divisor below it would be in the list or in the gap.
    if !is_prime(p as nat) {
        let t = lemma_small_prime_divisor(p as nat);
        assert(t < p) by (nonlinear_arith)
            requires
                t * t <= p,
                t >= 2,
        ;
        if t <= last {
            let i = lemma_prime_list_holds(s, bound, t);
            assert(divides(s[i] as nat, p as nat));
        }
    }
    lemma_primes_below_gap(bound, p as nat);
    assert(nats(s.push(p)) =~= nats(s).push(p as nat));
    assert(s.push(p).last() == p);
}

/// A list of all primes up to its last element, extended by the next prime,
/// is again a list of all primes up to its last element.
pub proof fn lemma_push_next_prime(s: Seq<u64>, p: u64)
    requires
        is_prime_prefix(s),
        is_next_prime(s.last() as nat, p as nat),
    ensures
        is_prime_prefix(s.push(p)),
{
    lemma_primes_below_gap((s.last() + 1) as nat, p as nat);
    assert(nats(s.push(p)) =~= nats(s).push(p as nat));
    assert(s.push(p).last() == p);
}

/// Where nothing from the last element up is free of divisors in a list of
/// all primes up to its last element, the list holds every prime that fits
/// in a `u64`.
pub proof fn lemma_no_candidate_means_complete(s: Seq<u64>)
    requires
        is_prime_prefix(s),
        has_no_candidate(s),
    ensures
        nats(s) == u64_primes(),
{
    let last = s.last();
    let bound = (last + 1) as nat;
    assert forall|q: nat| bound <= q < 0x1_0000_0000_0000_0000 implies !#[trigger] is_prime(
        q,
    ) by {
        if is_prime(q) {
            lemma_prime_outside_list(s, bound, q);
            assert(!no_divisor_in((q as u64) as nat, s));
        }
    }
    lemma_primes_below_gap(bound, 0x1_0000_0000_0000_0000);
}

/// A list keeps all of its values under a test that each of them passes.
pub proof fn lemma_filter_keeps_all(s: Seq<u64>, n: u64)
    requires
        forall|i: int| 0 <= i < s.len() ==> #[trigger] s[i] < n,
    ensures
        s.filter(below(n)) == s,
    decreases s.len(),
{
    reveal(Seq::filter);
    if s.len() > 0 {
        lemma_filter_keeps_all(s.drop_last(), n);
        assert(s.drop_last().push(s.last()) =~= s);
    }
}

/// Of a list of the primes below a bound, the values below a smaller bound
/// `n` are the primes below `n`.
pub proof fn lemma_filter_below(s: Seq<u64>, bound: nat, n: u64)
    requires
        nats(s) == primes_below(bound),
        n <= bound,
    ensures
        nats(s.filter(below(n))) == primes_below(n as nat),
    decreases s.len(),
{
    reveal(Seq::filter);
    lemma_prime_list_facts(s, bound);
    lemma_primes_below_characterized(bound);
    if s.len() == 0 {
        assert forall|p: nat| 0 <= p < n implies !#[trigger] is_prime(p) by {
            if is_prime(p) {
                assert(primes_below(bound).contains(p));
            }
        }
        lemma_primes_below_gap(0, n as nat);
        assert(nats(s.filter(below(n))) =~= primes_below(0));
    } else {
        let last = s.last();
        let rest = s.drop_last();
        assert(is_prime(s[s.len() - 1] as nat));
        // No prime lies above the last element and below the bound.
        assert forall|p: nat| last + 1 <= p < bound implies !#[trigger] is_prime(p) by {
            if is_prime(p) {
                let i = lemma_prime_list_holds(s, bound, p);
                if i < s.len() - 1 {
                    assert(s[i] < s[s.len() - 1]);
                }
            }
        }
        lemma_primes_below_gap((last + 1) as nat, bound);
        if last < n {
            assert forall|i: int| 0 <= i < s.len() implies #[trigger] s[i] < n by {
                if i < s.len() - 1 {
                    assert(s[i] < s[s.len() - 1]);
                }
            }
            lemma_filter_keeps_all(s, n);
            assert forall|p: nat| last + 1 <= p < n implies !#[trigger] is_prime(p) by {}
            lemma_primes_below_gap((last + 1) as nat, n as nat);
        } else {
            assert(nats(rest) =~= nats(s).drop_last());
            assert(primes_below((last + 1) as nat) == primes_below(last as nat).push(last as nat));
            assert(nats(rest) =~= primes_below(last as nat));
            lemma_filter_below(rest, last as nat, n);
        }
    }
}

/// The values of a list are determined by the natural numbers they stand for.
pub proof fn lemma_nats_injective(a: Seq<u64>, b: Seq<u64>)
    requires
        nats(a) == nats(b),
    ensures
        a == b,
{
    assert(a.len() == nats(a).len());
    assert(b.len() == nats(b).len());
    assert forall|i: int| 0 <= i < a.len() implies a[i] == b[i] by {
        assert(nats(a)[i] == a[i] as nat);
        assert(nats(b)[i] == b[i] as nat);
    }
    assert(a =~= b);
}

/// Sieving up to the least `limit` whose square reaches `n`, trial division
/// of the numbers above `limit` and below `n` by what the sieve found, and
/// sorting the two together gives the primes below `n`, or all the sieve
/// found where `n` does not exceed `limit`.
pub proof fn lemma_merge_lists_primes(merged: Seq<u64>, small: Seq<u64>, limit: u64, n: u64)
    requires
        limit < u64::MAX,
        limit * limit >= n,
        nats(small) == primes_below((limit + 1) as nat),
        is_sorted(merged),
        is_merge_of(merged, small, (limit + 1) as u64, n),
    ensures
        nats(merged) == primes_below(
            if n > limit {
                n as nat
            } else {
                (limit + 1) as nat
            },
        ),
{
    broadcast use vstd::seq_lib::group_to_multiset_ensures;

    let low = (limit + 1) as u64;
    let inner = (limit + 1) as nat;
    let bound = if n > limit {
        n as nat
    } else {
        inner
    };
    lemma_prime_list_facts(small, inner);
    small.lemma_multiset_has_no_duplicates();
    assert(small.no_duplicates());
    // What the merged list holds.
    assert forall|c: u64| merged.contains(c) <==> (small.contains(c) || survivor_count(
        c,
        low,
        n,
        small,
    ) == 1) by {
        assert(merged.to_multiset().count(c) == small.to_multiset().count(c) + survivor_count(
            c,
            low,
            n,
            small,
        ));
    }
    // Nothing is held twice.
    assert forall|c: u64| merged.to_multiset().contains(c) implies merged.to_multiset().count(c)
        == 1 by {
        assert(merged.to_multiset().count(c) == small.to_multiset().count(c) + survivor_count(
            c,
            low,
            n,
            small,
        ));
        if small.contains(c) {
            let i = choose|i: int| 0 <= i < small.len() && small[i] == c;
            assert(small[i] < inner);
        }
    }
    merged.lemma_multiset_has_no_duplicates_conv();
    let m = nats(merged);
    assert forall|i: int, j: int| 0 <= i < j < m.len() implies m[i] < m[j] by {
        assert(merged[i] <= merged[j]);
        assert(merged[i] != merged[j]);
    }
    assert forall|i: int| 0 <= i < m.len() implies is_prime(#[trigger] m[i]) && m[i] < bound by {
        let c = merged[i];
        assert(merged.contains(c));
        if small.contains(c) {
            let k = choose|k: int| 0 <= k < small.len() && small[k] == c;
            assert(is_prime(small[k] as nat));
        } else {
            assert(inner * inner > c) by (nonlinear_arith)
                requires
                    limit * limit >= n,
                    c < n,
                    inner == limit + 1,
            ;
            lemma_trial_division_decides(small, inner, c as nat);
        }
    }
    assert forall|p: nat| is_prime(p) && p < bound implies m.contains(p) by {
        if p < inner {
            lemma_prime_list_holds(small, inner, p);
            assert(small.contains(p as u64));
        } else {
            lemma_prime_outside_list(small, inner, p);
            assert(survivor_count(p as u64, low, n, small) == 1);
        }
        assert(merged.contains(p as u64));
        let i = choose|i: int| 0 <= i < merged.len() && merged[i] == p as u64;
        assert(m[i] == p);
    }
    lemma_ascending_prime_list_unique(m, bound);
}

/// The multiset of two lists joined end to end counts each value as often as both lists together.
pub proof fn lemma_joined_count(a: Seq<u64>, b: Seq<u64>, c: u64)
    ensures
        (a + b).to_multiset().count(c) == a.to_multiset().count(c) + b.to_multiset().count(c),
{
    lemma_multiset_commutative(a, b);
}

} // verus!
