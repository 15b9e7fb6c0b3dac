//! The largest prime factor of a number, searched among its divisors from
//! three up to a limit: the divisors that are multiples of a smaller one
//! are dropped, and the largest that is left is the answer.

use crate::number_theory::{divides, is_prime, lemma_divides_transitive, lemma_prime_divisor};
use crate::prime_lists::all_nonzero;
use vstd::prelude::*;

verus! {

/// The least divisor that the search looks at.
pub const LEAST_DIVISOR: u64 = 3;

/// The divisors of `n` from three up to `limit`, in descending order.
pub open spec fn divisors_down_from(n: nat, limit: nat) -> Seq<u64>
    decreases limit,
{
    if limit < LEAST_DIVISOR {
        Seq::empty()
    } else if n % limit == 0 {
        seq![limit as u64] + divisors_down_from(n, (limit - 1) as nat)
    } else {
        divisors_down_from(n, (limit - 1) as nat)
    }
}

/// `d` is a multiple of a smaller element of `divisors`.
pub open spec fn has_smaller_divisor_in(d: u64, divisors: Seq<u64>) -> bool {
    exists|j: int|
        0 <= j < divisors.len() && d > #[trigger] divisors[j] && divides(divisors[j] as nat, d as nat)
}

/// The test that the multiples of a smaller element of `divisors` pass.
pub open spec fn is_dropped_from(divisors: Seq<u64>) -> spec_fn(u64) -> bool {
    |d: u64| has_smaller_divisor_in(d, divisors)
}

/// `largest` is the largest element of `divisors` that is not in `dropped`, if there is one.
pub open spec fn is_largest_kept(largest: Option<u64>, divisors: Seq<u64>, dropped: Seq<u64>) -> bool {
    match largest {
        Some(m) => {
            &&& divisors.contains(m)
            &&& !dropped.contains(m)
            &&& forall|i: int|
                0 <= i < divisors.len() && !dropped.contains(#[trigger] divisors[i])
                    ==> divisors[i] <= m
        },
        None => forall|i: int| 0 <= i < divisors.len() ==> dropped.contains(#[trigger] divisors[i]),
    }
}

/// What a search has found.
#[derive(Debug, PartialEq)]
pub struct FactorSearch {
    /// The divisors from three up to the limit, in descending order.
    pub divisors: Vec<u64>,
    /// The divisors that are multiples of a smaller one, in descending order.
    pub dropped: Vec<u64>,
    /// The largest divisor that was not dropped.
    pub largest: Option<u64>,
}

/// The divisors of `n` from three up to `limit`, in descending order.
pub fn divisors_from_three(n: u64, limit: u64) -> (r: Vec<u64>)
    ensures
        r@ == divisors_down_from(n as nat, limit as nat),
{
    let mut divisors: Vec<u64> = Vec::new();
    let mut x = limit;
    assert(divisors@ + divisors_down_from(n as nat, x as nat) =~= divisors_down_from(
        n as nat,
        limit as nat,
    ));
    while x >= LEAST_DIVISOR
        invariant
            x <= limit,
            divisors@ + divisors_down_from(n as nat, x as nat) == divisors_down_from(
                n as nat,
                limit as nat,
            ),
        decreases x,
    {
        let ghost before = divisors@;
        if n % x == 0 {
            divisors.push(x);
        }
        x -= 1;
        assert(divisors@ + divisors_down_from(n as nat, x as nat) =~= before
            + divisors_down_from(n as nat, (x + 1) as nat));
    }
    assert(divisors@ + Seq::<u64>::empty() =~= divisors@);
    divisors
}

/// The elements of `divisors` that are multiples of a smaller element, in their order.
pub fn divisors_to_drop(divisors: &Vec<u64>) -> (r: Vec<u64>)
    requires
        all_nonzero(divisors@),
    ensures
        r@ == divisors@.filter(is_dropped_from(divisors@)),
{
    let mut todrop: Vec<u64> = Vec::new();
    let mut i: usize = 0;
    proof {
        reveal(Seq::filter);
        assert(divisors@.take(0) =~= Seq::<u64>::empty());
    }
    while i < divisors.len()
        invariant
            i <= divisors@.len(),
            all_nonzero(divisors@),
            todrop@ == divisors@.take(i as int).filter(is_dropped_from(divisors@)),
        decreases divisors@.len() - i,
    {
        let d1 = divisors[i];
        let mut found = false;
        let mut j: usize = 0;
        while j < divisors.len() && !found
            invariant
                j <= divisors@.len(),
                all_nonzero(divisors@),
                d1 == divisors@[i as int],
                found ==> has_smaller_divisor_in(d1, divisors@),
                !found ==> forall|k: int|
                    0 <= k < j ==> !(d1 > #[trigger] divisors@[k] && divides(
                        divisors@[k] as nat,
                        d1 as nat,
                    )),
            decreases divisors@.len() - j, !found as int,
        {
            let d2 = divisors[j];
            if d1 > d2 && d1 % d2 == 0 {
                found = true;
            } else {
                j += 1;
            }
        }
        proof {
            reveal(Seq::filter);
            assert(divisors@.take(i + 1).drop_last() =~= divisors@.take(i as int));
        }
        if found {
            todrop.push(d1);
        }
        i += 1;
    }
    assert(divisors@.take(divisors@.len() as int) =~= divisors@);
    todrop
}

/// Whether `value` is an element of `list`.
pub fn is_among(list: &Vec<u64>, value: u64) -> (r: bool)
    ensures
        r == list@.contains(value),
{
    let mut i: usize = 0;
    while i < list.len()
        invariant
            i <= list@.len(),
            forall|k: int| 0 <= k < i ==> list@[k] != value,
        decreases list@.len() - i,
    {
        if list[i] == value {
            return true;
        }
        i += 1;
    }
    false
}

/// The largest element of `divisors` that is not in `dropped`, if there is one.
pub fn largest_kept(divisors: &Vec<u64>, dropped: &Vec<u64>) -> (r: Option<u64>)
    ensures
        is_largest_kept(r, divisors@, dropped@),
{
    let mut best: Option<u64> = None;
    let mut i: usize = 0;
    while i < divisors.len()
        invariant
            i <= divisors@.len(),
            is_largest_kept(best, divisors@.take(i as int), dropped@),
        decreases divisors@.len() - i,
    {
        let d = divisors[i];
        let ghost seen = divisors@.take(i as int);
        let ghost next = divisors@.take(i + 1);
        proof {
            assert(next =~= seen.push(d));
            assert forall|k: int| 0 <= k < seen.len() implies next[k] == seen[k] by {}
        }
        if !is_among(dropped, d) {
            let larger = match best {
                Some(m) => d > m,
                None => true,
            };
            if larger {
                best = Some(d);
                proof {
                    assert(next[i as int] == d);
                }
            } else {
                proof {
                    let m = best.unwrap();
                    let k = choose|k: int| 0 <= k < seen.len() && seen[k] == m;
                    assert(next[k] == m);
                }
            }
        } else {
            proof {
                if best is Some {
                    let m = best.unwrap();
                    let k = choose|k: int| 0 <= k < seen.len() && seen[k] == m;
                    assert(next[k] == m);
                }
            }
        }
        i += 1;
    }
    assert(divisors@.take(divisors@.len() as int) =~= divisors@);
    best
}

/// Searches the divisors of `n` from three up to `limit` for the largest
/// that is no multiple of a smaller one. For an odd `n` that is the largest
/// prime factor of `n` up to `limit`.
pub fn search_largest_prime_factor(n: u64, limit: u64) -> (r: FactorSearch)
    ensures
        r.divisors@ == divisors_down_from(n as nat, limit as nat),
        r.dropped@ == r.divisors@.filter(is_dropped_from(r.divisors@)),
        is_largest_kept(r.largest, r.divisors@, r.dropped@),
        n % 2 == 1 ==> (r.largest matches Some(m) ==> is_prime(m as nat) && divides(
            m as nat,
            n as nat,
        )),
{
    let divisors = divisors_from_three(n, limit);
    proof {
        lemma_divisors_down_from(n as nat, limit as nat);
    }
    let dropped = divisors_to_drop(&divisors);
    let largest = largest_kept(&divisors, &dropped);
    proof {
        if n % 2 == 1 && largest is Some {
            let m = largest.unwrap();
            let i = choose|i: int| 0 <= i < divisors@.len() && divisors@[i] == m;
            if has_smaller_divisor_in(m, divisors@) {
                divisors@.lemma_filter_contains(is_dropped_from(divisors@), i);
            }
            lemma_kept_divisor_is_prime(n as nat, limit as nat, m);
        }
    }
    FactorSearch { divisors, dropped, largest }
}

/// The divisors from three up to a limit are at least three and at most
/// the limit, divide the number, and every such divisor is among them.
pub proof fn lemma_divisors_down_from(n: nat, limit: nat)
    requires
        limit <= u64::MAX,
    ensures
        all_nonzero(divisors_down_from(n, limit)),
        forall|i: int|
            0 <= i < divisors_down_from(n, limit).len() ==> {
                let d = #[trigger] divisors_down_from(n, limit)[i];
                LEAST_DIVISOR <= d <= limit && divides(d as nat, n)
            },
        forall|d: u64|
            LEAST_DIVISOR <= d <= limit && divides(d as nat, n) ==> divisors_down_from(
                n,
                limit,
            ).contains(d),
    decreases limit,
{
    if limit >= LEAST_DIVISOR {
        let rest = divisors_down_from(n, (limit - 1) as nat);
        lemma_divisors_down_from(n, (limit - 1) as nat);
        let all = divisors_down_from(n, limit);
        assert forall|d: u64| LEAST_DIVISOR <= d <= limit && divides(d as nat, n) implies all.contains(
            d,
        ) by {
            if d == limit {
                assert(all[0] == d);
            } else {
                assert(rest.contains(d));
                let k = choose|k: int| 0 <= k < rest.len() && rest[k] == d;
                if n % limit == 0 {
                    assert(all[k + 1] == d);
                } else {
                    assert(all[k] == d);
                }
            }
        }
    }
}

/// For an odd number, a divisor from three up to a limit that is no
/// multiple of a smaller such divisor is prime.
pub proof fn lemma_kept_divisor_is_prime(n: nat, limit: nat, d: u64)
    requires
        limit <= u64::MAX,
        n % 2 == 1,
        divisors_down_from(n, limit).contains(d),
        !has_smaller_divisor_in(d, divisors_down_from(n, limit)),
    ensures
        is_prime(d as nat),
{
    let divisors = divisors_down_from(n, limit);
    lemma_divisors_down_from(n, limit);
    let i = choose|i: int| 0 <= i < divisors.len() && divisors[i] == d;
    assert(LEAST_DIVISOR <= divisors[i] <= limit && divides(divisors[i] as nat, n));
    let t = lemma_prime_divisor(d as nat);
    lemma_divides_transitive(t, d as nat, n);
    if t == 2 {
        assert(n % 2 == 0);
    }
    if t < d {
        assert(divisors.contains(t as u64));
        let j = choose|j: int| 0 <= j < divisors.len() && divisors[j] == t as u64;
        assert(d > divisors[j] && divides(divisors[j] as nat, d as nat));
    }
}

} // verus!
