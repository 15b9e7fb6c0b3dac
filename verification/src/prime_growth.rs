//! Growth of a list of primes by trial division against itself: the steps
//! that the lists of primes of this crate share.

use crate::prime_generator::PrimeGenerator;
use crate::prime_lists::{
    all_nonzero, has_no_candidate, is_next_candidate, is_next_prime, is_prime_prefix,
    lemma_next_candidate_is_next_prime, lemma_no_candidate_means_complete,
    lemma_prime_list_facts, lemma_prime_prefix_of_all, nats, no_divisor_in, u64_primes,
};
use vstd::prelude::*;

verus! {

/// How many primes a list that held `held` of them holds after it has
/// grown one prime at a time, `steps` times or until no prime is left that
/// fits in a `u64`.
pub open spec fn len_after_growth(held: nat, steps: nat) -> nat {
    if held + steps <= u64_primes().len() {
        held + steps
    } else if held <= u64_primes().len() {
        u64_primes().len()
    } else {
        held
    }
}

/// How many primes a list that held `held` of them holds after it has been
/// asked for the `n`-th prime.
pub open spec fn len_after_nth(held: nat, n: u64) -> nat {
    if n as nat <= held {
        held
    } else if n as nat <= u64_primes().len() {
        n as nat
    } else {
        u64_primes().len()
    }
}

/// The `n`-th prime, counted from one, where it fits in a `u64`.
pub open spec fn nth_prime_of(n: u64) -> Option<u64> {
    if 1 <= n <= u64_primes().len() {
        Some(u64_primes()[n - 1] as u64)
    } else {
        None
    }
}

/// Finds the least number from the last element of `primes` up that no
/// element divides, appends it, counts it and returns it, or returns
/// `None` and leaves list and counter as they were where no such number
/// fits in a `u64`. On a list of all primes up to its last element the
/// number found is the next prime.
pub fn append_next_prime(primes: &mut Vec<u64>, count: &mut u64) -> (r: Option<u64>)
    requires
        old(primes)@.len() >= 1,
        all_nonzero(old(primes)@),
        *old(count) < u64::MAX,
    ensures
        match r {
            Some(p) => {
                &&& is_next_candidate(old(primes)@, p)
                &&& final(primes)@ == old(primes)@.push(p)
                &&& *final(count) == *old(count) + 1
            },
            None => {
                &&& has_no_candidate(old(primes)@)
                &&& *final(primes) == *old(primes)
                &&& *final(count) == *old(count)
            },
        },
        is_prime_prefix(old(primes)@) ==> is_prime_prefix(final(primes)@),
        is_prime_prefix(old(primes)@) ==> match r {
            Some(p) => is_next_prime(old(primes)@.last() as nat, p as nat),
            None => nats(final(primes)@) == u64_primes(),
        },
{
    let start = primes[primes.len() - 1];
    let mut candidate = start;
    loop
        invariant
            *primes == *old(primes),
            *count == *old(count),
            primes@.len() >= 1,
            all_nonzero(primes@),
            *count < u64::MAX,
            start == primes@.last(),
            start <= candidate,
            forall|c: u64| start <= c < candidate ==> !#[trigger] no_divisor_in(c as nat, primes@),
        decreases u64::MAX - candidate,
    {
        if PrimeGenerator::is_prime_with_small_primes(candidate, primes.as_slice()) {
            proof {
                if is_prime_prefix(primes@) {
                    lemma_next_candidate_is_next_prime(primes@, candidate);
                }
            }
            primes.push(candidate);
            *count += 1;
            return Some(candidate);
        }
        if candidate == u64::MAX {
            proof {
                if is_prime_prefix(primes@) {
                    lemma_no_candidate_means_complete(primes@);
                }
            }
            return None;
        }
        candidate += 1;
    }
}

/// Grows a list of all primes up to its last element until it holds `n`
/// primes, and returns the `n`-th prime, counted from one; `None` for
/// `n == 0`, and where the `n`-th prime does not fit in a `u64`.
pub fn grow_to_nth_prime(primes: &mut Vec<u64>, count: &mut u64, n: u64) -> (r: Option<u64>)
    requires
        is_prime_prefix(old(primes)@),
        *old(count) == old(primes)@.len(),
    ensures
        r == nth_prime_of(n),
        is_prime_prefix(final(primes)@),
        *final(count) == final(primes)@.len(),
        final(primes)@.len() == len_after_nth(old(primes)@.len(), n),
        old(primes)@ == final(primes)@.take(old(primes)@.len() as int),
{
    let ghost held = primes@;
    proof {
        lemma_prime_prefix_of_all(primes@);
        assert(primes@.take(held.len() as int) =~= held);
    }
    if n == 0 {
        return None;
    }
    while (primes.len() as u64) < n
        invariant
            is_prime_prefix(primes@),
            *count == primes@.len(),
            held.len() >= 1,
            held.len() <= u64_primes().len(),
            held == old(primes)@,
            held.len() <= primes@.len(),
            primes@.len() == held.len() || primes@.len() <= n,
            held == primes@.take(held.len() as int),
        decreases n - primes@.len(),
    {
        let ghost before = primes@;
        proof {
            lemma_prime_prefix_of_all(primes@);
            lemma_prime_list_facts(primes@, (primes@.last() + 1) as nat);
        }
        match append_next_prime(primes, count) {
            Some(_) => {
                assert(primes@.take(held.len() as int) =~= before.take(held.len() as int));
            },
            None => {
                assert(nats(primes@).len() == primes@.len());
                return None;
            },
        }
    }
    proof {
        lemma_prime_prefix_of_all(primes@);
        assert(nats(primes@)[n - 1] == primes@[n - 1] as nat);
    }
    Some(primes[(n - 1) as usize])
}

} // verus!
