//! A strictly ascending list of primes that is filled, by trial division
//! against itself, with the primes that follow its last element up to a
//! bound.

use crate::number_theory::{divides, is_prime, lemma_primes_below_prefix, primes_below};
use crate::prime_generator::lemma_no_primes_below_two;
use crate::prime_lists::{
    all_nonzero, is_decided_by, lemma_prime_list_facts, lemma_prime_list_is_prefix,
    lemma_trial_division_decides, nats,
};
use vstd::prelude::*;

verus! {

/// The primes from `low` up to, and without, `high`, in ascending order.
pub open spec fn primes_between(low: nat, high: nat) -> Seq<nat> {
    if low <= high {
        primes_below(high).skip(primes_below(low).len() as int)
    } else {
        Seq::empty()
    }
}

/// No element of `divisors` other than `n` itself divides `n`.
pub open spec fn no_other_divisor_in(n: u64, divisors: Seq<u64>) -> bool {
    forall|i: int|
        0 <= i < divisors.len() && divisors[i] != n ==> !divides(
            #[trigger] divisors[i] as nat,
            n as nat,
        )
}

/// No prime is from a bound up to and without a bound that is no larger.
pub proof fn lemma_nothing_between(low: nat, high: nat)
    requires
        high <= low,
    ensures
        primes_between(low, high) == Seq::<nat>::empty(),
{
    assert(primes_between(low, high) =~= Seq::<nat>::empty());
}

/// A list of primes and their number.
#[derive(Debug, Clone, PartialEq)]
pub struct Primes {
    pub n_primes: u64,
    pub primes: Vec<u64>,
}

impl Primes {
    /// The list is strictly ascending and holds exactly the primes up to
    /// its last element, and the counter agrees with its length.
    pub open spec fn wf(&self) -> bool {
        &&& self.n_primes == self.primes@.len()
        &&& forall|i: int, j: int|
            0 <= i < j < self.primes@.len() ==> self.primes@[i] < self.primes@[j]
        &&& nats(self.primes@) == primes_below(self.spec_fill_start())
    }

    /// The number from which `fill_primes_until` goes on: one above the
    /// last element, or two for an empty list.
    pub open spec fn spec_fill_start(&self) -> nat {
        if self.primes@.len() == 0 {
            2
        } else {
            (self.primes@.last() + 1) as nat
        }
    }

    /// The last element counted, or two where nothing has been counted.
    pub open spec fn spec_current_max_prime(&self) -> u64 {
        if self.n_primes > 0 {
            self.primes@[self.n_primes - 1]
        } else {
            2
        }
    }

    /// The empty list.
    pub fn new() -> (r: Self)
        ensures
            r.n_primes == 0,
            r.primes@ == Seq::<u64>::empty(),
            r.wf(),
    {
        let r = Primes { n_primes: 0, primes: Vec::new() };
        proof {
            lemma_no_primes_below_two(2);
            assert(nats(r.primes@) =~= primes_below(2));
        }
        r
    }

    /// Appends `x` to the list and counts it.
    pub fn add_prime(&mut self, x: &u64)
        requires
            old(self).n_primes < u64::MAX || old(self).n_primes == old(self).primes@.len(),
        ensures
            final(self).primes@ == old(self).primes@.push(*x),
            final(self).n_primes == old(self).n_primes + 1,
    {
        self.primes.push(*x);
        let len = self.primes.len();
        assert(old(self).primes@.len() + 1 == len);
        self.n_primes += 1;
    }

    /// Appends, in ascending order, the primes from one above the last
    /// element (from two, for an empty list) up to and including `n`.
    pub fn fill_primes_until(&mut self, n: u64)
        requires
            old(self).wf(),
        ensures
            final(self).wf(),
            nats(final(self).primes@) == nats(old(self).primes@) + primes_between(
                old(self).spec_fill_start(),
                (n + 1) as nat,
            ),
            old(self).spec_fill_start() <= n + 1 ==> nats(final(self).primes@) == primes_below(
                (n + 1) as nat,
            ),
    {
        let ghost from = self.spec_fill_start();
        let last = self.current_max_prime();
        proof {
            lemma_prime_list_facts(self.primes@, from);
            if self.primes@.len() > 0 {
                assert(is_prime(self.primes@[self.primes@.len() - 1] as nat));
            }
        }
        if last > n || (self.n_primes > 0 && last == n) {
            proof {
                lemma_nothing_between(from, (n + 1) as nat);
                assert(nats(self.primes@) + Seq::<nat>::empty() =~= nats(self.primes@));
            }
            return ;
        }
        let start = if self.n_primes > 0 {
            last + 1
        } else {
            last
        };
        let mut x = start;
        loop
            invariant_except_break
                nats(self.primes@) == primes_below(x as nat),
            invariant
                2 <= start <= x <= n,
                start == from,
                self.n_primes == self.primes@.len(),
            ensures
                self.n_primes == self.primes@.len(),
                nats(self.primes@) == primes_below((n + 1) as nat),
            decreases n - x,
        {
            let ghost before = self.primes@;
            proof {
                lemma_prime_list_facts(before, x as nat);
                assert(is_decided_by(x as nat, x as nat)) by (nonlinear_arith)
                    requires
                        x >= 2,
                ;
                lemma_trial_division_decides(before, x as nat, x as nat);
            }
            if self.is_prime(&x) {
                self.add_prime(&x);
                assert(nats(self.primes@) =~= nats(before).push(x as nat));
            }
            if x == n {
                break ;
            }
            x += 1;
        }
        proof {
            lemma_primes_below_prefix(from, (n + 1) as nat);
            assert(nats(self.primes@) =~= nats(old(self).primes@) + primes_between(
                from,
                (n + 1) as nat,
            ));
            lemma_prime_list_facts(self.primes@, (n + 1) as nat);
            if self.primes@.len() > 0 {
                lemma_prime_list_is_prefix(self.primes@, (n + 1) as nat);
            } else {
                assert(primes_below(from) =~= nats(old(self).primes@));
            }
        }
    }

    /// Whether `n` is in the list.
    pub fn contains(&self, n: &u64) -> (r: bool)
        ensures
            r == self.primes@.contains(*n),
    {
        let mut i: usize = 0;
        while i < self.primes.len()
            invariant
                i <= self.primes@.len(),
                forall|j: int| 0 <= j < i ==> self.primes@[j] != *n,
            decreases self.primes@.len() - i,
        {
            if self.primes[i] == *n {
                return true;
            }
            i += 1;
        }
        false
    }

    /// Whether no element of the list other than `n` itself divides `n`.
    pub fn is_prime(&self, n: &u64) -> (r: bool)
        requires
            all_nonzero(self.primes@),
        ensures
            r == no_other_divisor_in(*n, self.primes@),
    {
        let mut i: usize = 0;
        while i < self.primes.len()
            invariant
                i <= self.primes@.len(),
                all_nonzero(self.primes@),
                forall|j: int|
                    0 <= j < i && self.primes@[j] != *n ==> !divides(
                        #[trigger] self.primes@[j] as nat,
                        *n as nat,
                    ),
            decreases self.primes@.len() - i,
        {
            let x = self.primes[i];
            if x != *n && *n % x == 0 {
                assert(divides(self.primes@[i as int] as nat, *n as nat));
                return false;
            }
            i += 1;
        }
        true
    }

    /// The last element counted, or two where nothing has been counted.
    pub fn current_max_prime(&self) -> (r: u64)
        requires
            self.n_primes <= self.primes@.len(),
        ensures
            r == self.spec_current_max_prime(),
    {
        let len = self.primes.len();
        assert(self.n_primes <= len);
        if self.n_primes > 0 {
            self.primes[self.n_primes as usize - 1usize]
        } else {
            2
        }
    }

    /// The element that follows the one at index `n`.
    pub fn nth(&self, n: usize) -> (r: u64)
        requires
            n + 1 < self.primes@.len(),
        ensures
            r == self.primes@[n + 1],
    {
        let len = self.primes.len();
        assert(n + 1 < len);
        self.primes[n + 1]
    }

    /// The first element of the list, which stays as it is.
    pub fn next(&mut self) -> (r: Option<u64>)
        requires
            old(self).primes@.len() >= 1,
        ensures
            r == Some(old(self).primes@[0]),
            *final(self) == *old(self),
    {
        Some(self.primes[0])
    }
}

} // verus!
