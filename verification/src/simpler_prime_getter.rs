//! A list of primes that extends itself by trial division and answers for
//! the prime at a given place.

use crate::number_theory::is_prime;
use crate::prime_generator::PrimeGenerator;
use crate::prime_growth::{
    append_next_prime, grow_to_nth_prime, len_after_growth, len_after_nth, nth_prime_of,
};
use crate::prime_lists::{
    all_nonzero, has_no_candidate, is_decided_by, is_next_candidate, is_next_prime,
    is_prime_prefix, lemma_prime_list_facts, lemma_prime_prefix_of_all, lemma_push_next_prime,
    lemma_two_is_prime_prefix, nats, no_divisor_in, u64_primes,
};
use vstd::prelude::*;

verus! {

/// An ascending list of primes that grows on demand.
#[derive(Debug, PartialEq)]
pub struct SimplerPrimeGetter {
    /// The primes found so far.
    pub primes: Vec<u64>,
    /// How many primes have been found so far.
    pub n: u64,
}

impl View for SimplerPrimeGetter {
    type V = Seq<nat>;

    open spec fn view(&self) -> Seq<nat> {
        nats(self.primes@)
    }
}

impl SimplerPrimeGetter {
    /// The list holds, in ascending order, exactly the primes up to its last
    /// element, it is not empty, and the counter agrees with its length.
    pub open spec fn wf(&self) -> bool {
        &&& is_prime_prefix(self.primes@)
        &&& self.n == self.primes@.len()
    }

    /// A list that holds the first prime.
    pub fn new() -> (r: Self)
        ensures
            r.primes@ == seq![2u64],
            r.n == 1,
            r.wf(),
    {
        let mut primes: Vec<u64> = Vec::new();
        primes.push(2);
        proof {
            lemma_two_is_prime_prefix();
            assert(primes@ =~= seq![2u64]);
        }
        SimplerPrimeGetter { primes, n: 1 }
    }

    /// The number of primes held.
    pub fn len(&self) -> (r: usize)
        ensures
            r == self.primes@.len(),
    {
        self.primes.len()
    }

    /// The last prime held.
    pub fn current_max(&self) -> (r: Option<u64>)
        requires
            self.primes@.len() >= 1,
        ensures
            r == Some(self.primes@.last()),
    {
        let res = self.primes[self.len() - 1];
        Some(res)
    }

    /// Appends `n` to the list and counts it. A well-formed list stays
    /// well-formed where `n` is the next prime.
    pub fn add_prime(&mut self, n: u64)
        requires
            old(self).n < u64::MAX,
        ensures
            final(self).primes@ == old(self).primes@.push(n),
            final(self).n == old(self).n + 1,
            old(self).wf() && is_next_prime(old(self).primes@.last() as nat, n as nat)
                ==> final(self).wf(),
    {
        proof {
            if self.wf() && is_next_prime(self.primes@.last() as nat, n as nat) {
                lemma_push_next_prime(self.primes@, n);
            }
        }
        self.primes.push(n);
        self.n += 1;
    }

    /// Whether no prime held divides `candidate_prime`. On a well-formed
    /// list this tells whether a candidate above the last prime held and
    /// below the square of its successor is prime.
    pub fn is_prime(&self, candidate_prime: u64) -> (r: bool)
        requires
            all_nonzero(self.primes@),
        ensures
            r == no_divisor_in(candidate_prime as nat, self.primes@),
            self.wf() && is_decided_by(candidate_prime as nat, (self.primes@.last() + 1) as nat)
                ==> r == is_prime(candidate_prime as nat),
    {
        PrimeGenerator::is_prime_with_small_primes(candidate_prime, self.primes.as_slice())
    }

    /// Finds the least number from the last prime up that no prime held
    /// divides, appends it and returns it, or returns `None` and leaves the
    /// list as it was where no such number fits in a `u64`. On a
    /// well-formed list the number found is the next prime.
    pub fn next(&mut self) -> (r: Option<u64>)
        requires
            old(self).primes@.len() >= 1,
            all_nonzero(old(self).primes@),
            old(self).n < u64::MAX,
        ensures
            match r {
                Some(p) => {
                    &&& is_next_candidate(old(self).primes@, p)
                    &&& final(self).primes@ == old(self).primes@.push(p)
                    &&& final(self).n == old(self).n + 1
                },
                None => {
                    &&& has_no_candidate(old(self).primes@)
                    &&& *final(self) == *old(self)
                },
            },
            old(self).wf() ==> final(self).wf(),
            old(self).wf() ==> match r {
                Some(p) => is_next_prime(old(self).primes@.last() as nat, p as nat),
                None => final(self)@ == u64_primes(),
            },
    {
        append_next_prime(&mut self.primes, &mut self.n)
    }

    /// Extends the list by `n + 1` primes and returns the last of them, or
    /// `None` where the primes that fit in a `u64` run out first.
    pub fn nth(&mut self, n: usize) -> (r: Option<u64>)
        requires
            old(self).wf(),
        ensures
            r == if old(self).primes@.len() + n < u64_primes().len() {
                Some(u64_primes()[old(self).primes@.len() + n] as u64)
            } else {
                None
            },
            final(self).wf(),
            final(self).primes@.len() == len_after_growth(old(self).primes@.len(), (n + 1) as nat),
            old(self).primes@ == final(self).primes@.take(old(self).primes@.len() as int),
    {
        let ghost held = self.primes@;
        let mut steps: usize = 0;
        proof {
            lemma_prime_prefix_of_all(self.primes@);
            assert(self.primes@.take(held.len() as int) =~= held);
        }
        loop
            invariant
                self.wf(),
                held == old(self).primes@,
                steps <= n,
                held.len() >= 1,
                held.len() <= u64_primes().len(),
                self.primes@.len() == held.len() + steps,
                held == self.primes@.take(held.len() as int),
            decreases n - steps,
        {
            let ghost before = self.primes@;
            proof {
                lemma_prime_prefix_of_all(self.primes@);
                lemma_prime_list_facts(self.primes@, (self.primes@.last() + 1) as nat);
            }
            match self.next() {
                Some(p) => {
                    proof {
                        lemma_prime_prefix_of_all(self.primes@);
                        assert(self.primes@.take(held.len() as int) =~= before.take(
                            held.len() as int,
                        ));
                        assert(nats(self.primes@)[self.primes@.len() - 1] == p as nat);
                    }
                    if steps == n {
                        return Some(p);
                    }
                    steps += 1;
                },
                None => {
                    assert(nats(self.primes@).len() == self.primes@.len());
                    return None;
                },
            }
        }
    }

    /// The `n`-th prime, counted from one, found by growing the list until
    /// it holds `n` primes; `None` for `n == 0`, and where the `n`-th prime
    /// does not fit in a `u64`.
    pub fn nth_prime(&mut self, n: u64) -> (r: Option<u64>)
        requires
            old(self).wf(),
        ensures
            r == nth_prime_of(n),
            final(self).wf(),
            final(self).primes@.len() == len_after_nth(old(self).primes@.len(), n),
            old(self).primes@ == final(self).primes@.take(old(self).primes@.len() as int),
    {
        grow_to_nth_prime(&mut self.primes, &mut self.n, n)
    }
}

} // verus!
