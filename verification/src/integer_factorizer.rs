//! Primality and small prime factors of one number, by enumeration of primes.

use crate::number_theory::{
    ceil_sqrt, divides, is_prime, lemma_ceil_sqrt, lemma_ceil_sqrt_below,
    lemma_numbers_below_gap, lemma_primes_below_characterized,
    numbers_below, primes_below,
};
use crate::prime_generator::PrimeGenerator;
use crate::prime_lists::{lemma_prime_list_facts, lemma_prime_list_holds, nats};
use vstd::prelude::*;

verus! {

/// The test that the prime divisors of `k` pass.
pub open spec fn prime_factor_test(k: nat) -> spec_fn(nat) -> bool {
    |p: nat| is_prime(p) && divides(p, k)
}

/// The prime divisors of `k` up to the least number whose square is at least `k`, in ascending order.
pub open spec fn small_prime_factors(k: nat) -> Seq<nat> {
    numbers_below(prime_factor_test(k), ceil_sqrt(k) + 1)
}

/// The elements of `s` as natural numbers.
pub open spec fn sizes(s: Seq<usize>) -> Seq<nat> {
    Seq::new(s.len(), |i: int| s[i] as nat)
}

/// A number to be factorized.
#[derive(Debug, PartialEq)]
pub struct IntegerFactorizer {
    pub k: usize,
}

impl IntegerFactorizer {
    /// The factorizer of `k`.
    pub fn new(k: usize) -> (r: Self)
        ensures
            r.k == k,
    {
        IntegerFactorizer { k }
    }

    /// The least number whose square is at least the number.
    pub fn sqrt_ceiling(&self) -> (r: usize)
        ensures
            r == ceil_sqrt(self.k as nat),
    {
        let root = PrimeGenerator::get_small_prime_limit(self.k as u64);
        proof {
            lemma_ceil_sqrt(self.k as nat);
        }
        root as usize
    }

    /// Whether the number is prime.
    pub fn is_prime(&self) -> (r: bool)
        requires
            self.k < usize::MAX,
        ensures
            r == is_prime(self.k as nat),
    {
        let mut p = PrimeGenerator::new();
        let bound = self.k as u64 + 1;
        proof {
            lemma_primes_below_characterized(bound as nat);
        }
        let primes = p.get_primes_below_n(bound);
        proof {
            lemma_prime_list_facts(primes@, bound as nat);
            if is_prime(self.k as nat) {
                let i = lemma_prime_list_holds(primes@, bound as nat, self.k as nat);
                if i < primes@.len() - 1 {
                    assert(primes@[i] < primes@[primes@.len() - 1]);
                }
            }
        }
        let len = primes.len();
        if len == 0 {
            false
        } else {
            proof {
                assert(is_prime(primes@[len - 1] as nat));
            }
            primes[len - 1] == self.k as u64
        }
    }

    /// The prime divisors of the number up to the least number whose square
    /// is at least the number, in ascending order.
    pub fn prime_factors(&self) -> (r: Vec<usize>)
        ensures
            sizes(r@) == small_prime_factors(self.k as nat),
    {
        let sqrt = self.sqrt_ceiling();
        let k = self.k as u64;
        let mut p = PrimeGenerator::new();
        proof {
            lemma_ceil_sqrt(self.k as nat);
            if self.k >= 3 {
                lemma_ceil_sqrt_below(self.k as nat);
            }
        }
        let bound = sqrt as u64 + 1;
        let primes = p.get_primes_below_n(bound);
        let ghost test = prime_factor_test(self.k as nat);
        let mut factors: Vec<usize> = Vec::new();
        let mut i: usize = 0;
        proof {
            lemma_prime_list_facts(primes@, bound as nat);
            assert forall|x: nat|
                0 <= x < Self::frontier(primes@, 0, bound as nat) implies !#[trigger] test(x) by {
                if is_prime(x) {
                    let j = lemma_prime_list_holds(primes@, bound as nat, x);
                    if j > 0 {
                        assert(primes@[0] < primes@[j]);
                    }
                }
            }
            lemma_numbers_below_gap(test, 0, Self::frontier(primes@, 0, bound as nat));
            assert(sizes(factors@) =~= numbers_below(test, 0));
        }
        while i < primes.len()
            invariant
                i <= primes@.len(),
                k == self.k,
                bound == ceil_sqrt(self.k as nat) + 1,
                bound <= self.k + 1 || bound <= 3,
                test == prime_factor_test(self.k as nat),
                nats(primes@) == primes_below(bound as nat),
                sizes(factors@) == numbers_below(test, Self::frontier(primes@, i as int, bound as nat)),
            decreases primes@.len() - i,
        {
            let prime = primes[i];
            let ghost before = factors@;
            proof {
                lemma_prime_list_facts(primes@, bound as nat);
                assert(is_prime(primes@[i as int] as nat));
                assert forall|x: nat|
                    prime + 1 <= x < Self::frontier(
                        primes@,
                        i + 1,
                        bound as nat,
                    ) implies !#[trigger] test(x) by {
                    if is_prime(x) {
                        let j = lemma_prime_list_holds(primes@, bound as nat, x);
                        if j > i + 1 {
                            assert(primes@[i + 1] < primes@[j]);
                        }
                        if j < i {
                            assert(primes@[j] < primes@[i as int]);
                        }
                    }
                }
                if i + 1 < primes@.len() {
                    assert(primes@[i as int] < primes@[i + 1]);
                }
                lemma_numbers_below_gap(
                    test,
                    (prime + 1) as nat,
                    Self::frontier(primes@, i + 1, bound as nat),
                );
            }
            if k % prime == 0 {
                factors.push(prime as usize);
                assert(sizes(factors@) =~= sizes(before).push(prime as nat));
            }
            i += 1;
        }
        factors
    }

    /// The element at index `i` of a list, or `bound` where the list has ended.
    pub open spec fn frontier(primes: Seq<u64>, i: int, bound: nat) -> nat {
        if 0 <= i < primes.len() {
            primes[i] as nat
        } else {
            bound
        }
    }
}

} // verus!
