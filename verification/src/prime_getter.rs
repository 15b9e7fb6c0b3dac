//! A plain list of primes that starts with the first prime and grows by
//! what it is handed.

use vstd::prelude::*;

verus! {

/// A list of primes.
pub type PrimesVec = Vec<u64>;

/// A list of primes that starts as the list of the first prime.
pub struct PrimeGetter {
    pub primes: PrimesVec,
}

impl PrimeGetter {
    /// The list that holds the first prime.
    pub fn new() -> (r: Self)
        ensures
            r.primes@ == seq![2u64],
    {
        let mut primes: Vec<u64> = Vec::new();
        primes.push(2);
        assert(primes@ =~= seq![2u64]);
        PrimeGetter { primes }
    }

    /// The list itself.
    pub fn primes_as_ref(&self) -> (r: &PrimesVec)
        ensures
            r@ == self.primes@,
    {
        &self.primes
    }

    /// How many primes the list holds.
    pub fn len(&self) -> (r: usize)
        ensures
            r == self.primes@.len(),
    {
        self.primes.len()
    }

    /// The last element of the list.
    pub fn largest(&self) -> (r: &u64)
        requires
            self.primes@.len() >= 1,
        ensures
            *r == self.primes@.last(),
    {
        &self.primes[self.len() - 1]
    }

    /// Appends `n` to the list.
    pub fn add_prime(&mut self, n: u64)
        ensures
            final(self).primes@ == old(self).primes@.push(n),
    {
        self.primes.push(n);
    }
}

} // verus!
