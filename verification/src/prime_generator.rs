//! Enumeration of primes: a growing, ascending list of primes that extends
//! itself by trial division, a sieve for small bounds, and a fan-out over
//! worker threads for large ones.

use crate::number_theory::{
    ceil_sqrt, divides, is_ascending_prime_list, is_prime, lemma_ceil_sqrt,
    lemma_ceil_sqrt_unique, lemma_divides_multiple, lemma_primes_below_characterized,
    lemma_seq_sum_push, primes_below, seq_sum,
};
use crate::prime_growth::{
    append_next_prime, grow_to_nth_prime, len_after_growth, len_after_nth, nth_prime_of,
};
use crate::prime_lists::{
    all_nonzero, below, enumeration, has_no_candidate, is_decided_by, is_merge_of,
    is_next_candidate, is_next_prime, is_prime_prefix, is_sorted, is_struck, is_struck_by,
    lemma_between_multiples, lemma_enumeration, lemma_filter_below, lemma_joined_count,
    lemma_merge_lists_primes, lemma_nats_injective, lemma_next_multiple, lemma_prime_list_facts,
    lemma_prime_prefix_of_all, lemma_push_next_prime, lemma_struck_inherited, lemma_struck_step,
    lemma_trial_division_decides, lemma_two_is_prime_prefix, lemma_unstruck_is_prime, nats,
    no_divisor_in, survivor_count, u64_primes,
};
use rayon::iter::{IntoParallelIterator, ParallelIterator};
use vstd::prelude::*;
use vstd::slice::slice_to_vec;

verus! {

/// The bound from which on primes are enumerated by sieve and fan-out.
pub const PARALLEL_PROCESSING_THRESHOLD: u64 = 50;

/// Whether the primes below `n` are enumerated by growing the list: for
/// small bounds above two, and for bounds so large that the sieve for their
/// small primes could not be indexed on this machine.
pub open spec fn is_enumerated_in_series(n: u64) -> bool {
    2 < n && (n < PARALLEL_PROCESSING_THRESHOLD || ceil_sqrt(n as nat) >= usize::MAX)
}

/// How many primes a generator that held `held` of them holds after it has
/// enumerated the primes below `n`: an enumeration in series grows the list
/// by `n` primes, any other leaves it alone.
pub open spec fn len_after_enumeration(held: nat, n: u64) -> nat {
    if is_enumerated_in_series(n) {
        len_after_growth(held, n as nat)
    } else {
        held
    }
}

/// An ascending list of primes that grows on demand.
#[derive(Debug, PartialEq, Clone)]
pub struct PrimeGenerator {
    /// The primes found so far.
    pub primes: Vec<u64>,
    /// How many primes have been found so far.
    pub n: u64,
}

impl View for PrimeGenerator {
    type V = Seq<nat>;

    open spec fn view(&self) -> Seq<nat> {
        nats(self.primes@)
    }
}

impl PrimeGenerator {
    /// The list holds, in ascending order, exactly the primes up to its last
    /// element, it is not empty, and the counter agrees with its length.
    pub open spec fn wf(&self) -> bool {
        &&& is_prime_prefix(self.primes@)
        &&& self.n == self.primes@.len()
    }

    /// A generator that holds the first prime.
    pub fn new() -> (r: Self)
        ensures
            r.primes@ == seq![2u64],
            r.n == 1,
            r.wf(),
    {
        let mut primes: Vec<u64> = Vec::new();
        primes.push(2);
        proof {
            lemma_two_is_prime_prefix();
            assert(primes@ =~= seq![2u64]);
        }
        PrimeGenerator { primes, n: 1 }
    }

    /// The number of primes held.
    pub fn len(&self) -> (r: usize)
        ensures
            r == self.primes@.len(),
    {
        self.primes.len()
    }

    /// Whether no prime is held.
    #[must_use]
    pub fn is_empty(&self) -> (r: bool)
        ensures
            r == (self.primes@.len() == 0),
    {
        self.len() == 0
    }

    /// The last prime held, if any.
    pub fn current_max(&self) -> (r: Option<u64>)
        ensures
            r == if self.primes@.len() == 0 {
                None
            } else {
                Some(self.primes@.last())
            },
    {
        let len = self.primes.len();
        if len == 0 {
            None
        } else {
            Some(self.primes[len - 1])
        }
    }

    /// Appends `n` to the list and counts it. A well-formed generator stays
    /// well-formed where `n` is the next prime.
    pub fn add_prime(&mut self, n: u64)
        requires
            old(self).n < u64::MAX,
        ensures
            final(self).primes@ == old(self).primes@.push(n),
            final(self).n == old(self).n + 1,
            old(self).wf() && is_next_prime(old(self).primes@.last() as nat, n as nat)
                ==> final(self).wf(),
    {
        proof {
            if self.wf() && is_next_prime(self.primes@.last() as nat, n as nat) {
                lemma_push_next_prime(self.primes@, n);
            }
        }
        self.primes.push(n);
        self.n += 1;
    }

    /// Whether no prime held divides `candidate_prime`. On a well-formed
    /// generator this tells whether a candidate above the last prime held
    /// and below the square of its successor is prime.
    pub fn is_prime(&self, candidate_prime: u64) -> (r: bool)
        requires
            all_nonzero(self.primes@),
        ensures
            r == no_divisor_in(candidate_prime as nat, self.primes@),
            self.wf() && is_decided_by(candidate_prime as nat, (self.primes@.last() + 1) as nat)
                ==> r == is_prime(candidate_prime as nat),
    {
        Self::is_prime_with_small_primes(candidate_prime, self.primes.as_slice())
    }

    /// Whether no element of `small_primes` divides `candidate_prime`. Where
    /// `small_primes` are the primes below a bound, this tells whether a
    /// candidate from that bound up and below its square is prime.
    pub fn is_prime_with_small_primes(candidate_prime: u64, small_primes: &[u64]) -> (r: bool)
        requires
            all_nonzero(small_primes@),
        ensures
            r == no_divisor_in(candidate_prime as nat, small_primes@),
            forall|bound: nat|
                nats(small_primes@) == #[trigger] primes_below(bound) && is_decided_by(
                    candidate_prime as nat,
                    bound,
                ) ==> r == is_prime(candidate_prime as nat),
    {
        proof {
            assert forall|bound: nat|
                nats(small_primes@) == #[trigger] primes_below(bound) && is_decided_by(
                    candidate_prime as nat,
                    bound,
                ) implies no_divisor_in(candidate_prime as nat, small_primes@) == is_prime(
                candidate_prime as nat,
            ) by {
                lemma_trial_division_decides(small_primes@, bound, candidate_prime as nat);
            }
        }
        let mut i: usize = 0;
        while i < small_primes.len()
            invariant
                i <= small_primes@.len(),
                all_nonzero(small_primes@),
                forall|j: int|
                    0 <= j < i ==> !divides(#[trigger] small_primes@[j] as nat, candidate_prime as nat),
                forall|bound: nat|
                    nats(small_primes@) == #[trigger] primes_below(bound) && is_decided_by(
                        candidate_prime as nat,
                        bound,
                    ) ==> no_divisor_in(candidate_prime as nat, small_primes@) == is_prime(
                        candidate_prime as nat,
                    ),
            decreases small_primes@.len() - i,
        {
            if candidate_prime % small_primes[i] == 0 {
                assert(divides(small_primes@[i as int] as nat, candidate_prime as nat));
                return false;
            }
            i += 1;
        }
        true
    }

    /// Finds the least number from the last prime up that no prime held
    /// divides, appends it and returns it, or returns `None` and leaves the
    /// generator as it was where no such number fits in a `u64`. On a
    /// well-formed generator the number found is the next prime.
    pub fn next(&mut self) -> (r: Option<u64>)
        requires
            old(self).primes@.len() >= 1,
            all_nonzero(old(self).primes@),
            old(self).n < u64::MAX,
        ensures
            match r {
                Some(p) => {
                    &&& is_next_candidate(old(self).primes@, p)
                    &&& final(self).primes@ == old(self).primes@.push(p)
                    &&& final(self).n == old(self).n + 1
                },
                None => {
                    &&& has_no_candidate(old(self).primes@)
                    &&& *final(self) == *old(self)
                },
            },
            old(self).wf() ==> final(self).wf(),
            old(self).wf() ==> match r {
                Some(p) => is_next_prime(old(self).primes@.last() as nat, p as nat),
                None => final(self)@ == u64_primes(),
            },
    {
        append_next_prime(&mut self.primes, &mut self.n)
    }

    /// The least number whose square is at least `n`: the bound up to which
    /// divisors have to be tried for candidates below `n`.
    pub fn get_small_prime_limit(n: u64) -> (r: u64)
        ensures
            r == ceil_sqrt(n as nat),
            r <= 0x1_0000_0000,
    {
        let mut low: u64 = 0;
        let mut high: u64 = 0x1_0000_0000;
        assert(high * high >= n) by (nonlinear_arith)
            requires
                high == 0x1_0000_0000,
                n <= u64::MAX,
        ;
        while low < high
            invariant
                low <= high <= 0x1_0000_0000,
                high * high >= n,
                low == 0 || (low - 1) * (low - 1) < n,
            decreases high - low,
        {
            let mid = low + (high - low) / 2;
            assert(mid * mid <= u64::MAX) by (nonlinear_arith)
                requires
                    mid < 0x1_0000_0000,
            ;
            if mid * mid >= n {
                high = mid;
            } else {
                low = mid + 1;
            }
        }
        proof {
            lemma_ceil_sqrt_unique(low as nat, n as nat);
        }
        low
    }

    /// The primes up to and including `limit`, in ascending order, found by
    /// striking the multiples of each prime from its square on.
    pub fn get_primes_below_n_with_sieve(limit: u64) -> (r: Vec<u64>)
        requires
            1 <= limit < usize::MAX,
        ensures
            nats(r@) == primes_below((limit + 1) as nat),
    {
        let lim: usize = limit as usize;
        let size: usize = lim + 1;
        let mut sieve: Vec<bool> = vec![true; size];
        sieve[0] = false;
        sieve[1] = false;
        let mut i: usize = 2;
        while (i as u128) * (i as u128) <= lim as u128
            invariant
                size == lim + 1,
                sieve@.len() == size,
                2 <= i <= size,
                i * i <= u128::MAX,
                forall|k: int| 0 <= k < size ==> #[trigger] sieve@[k] == !is_struck(k as nat, i as nat),
            decreases size - i,
        {
            assert(i * i <= lim) by (nonlinear_arith)
                requires
                    (i as u128) * (i as u128) <= lim as u128,
            ;
            assert(i <= lim) by (nonlinear_arith)
                requires
                    i * i <= lim,
                    i >= 2,
            ;
            if sieve[i] {
                let mut multiple: usize = i * i;
                proof {
                    lemma_divides_multiple(i as nat, i as nat);
                }
                loop
                    invariant_except_break
                        forall|k: int|
                            0 <= k < size ==> #[trigger] sieve@[k] == !(is_struck(k as nat, i as nat)
                                || is_struck_by(k as nat, i as nat, multiple as nat)),
                    invariant
                        size == lim + 1,
                        sieve@.len() == size,
                        2 <= i,
                        i * i <= multiple <= lim,
                        divides(i as nat, multiple as nat),
                    ensures
                        sieve@.len() == size,
                        forall|k: int|
                            0 <= k < size ==> #[trigger] sieve@[k] == !is_struck(
                                k as nat,
                                (i + 1) as nat,
                            ),
                    decreases lim - multiple,
                {
                    sieve[multiple] = false;
                    proof {
                        assert forall|k: int| 0 <= k < size implies #[trigger] sieve@[k] == !(
                        is_struck(k as nat, i as nat) || is_struck_by(
                            k as nat,
                            i as nat,
                            (multiple + i) as nat,
                        )) by {
                            if multiple < k < multiple + i {
                                lemma_between_multiples(
                                    i as nat,
                                    multiple as nat,
                                    (k - multiple) as nat,
                                );
                            }
                        }
                    }
                    if lim - multiple < i {
                        proof {
                            assert forall|k: int| 0 <= k < size implies #[trigger] sieve@[k]
                                == !is_struck(k as nat, (i + 1) as nat) by {
                                lemma_struck_step(k as nat, i as nat);
                            }
                        }
                        break ;
                    }
                    proof {
                        lemma_next_multiple(i as nat, multiple as nat);
                    }
                    multiple += i;
                }
            } else {
                proof {
                    assert forall|k: int| 0 <= k < size implies #[trigger] sieve@[k] == !is_struck(
                        k as nat,
                        (i + 1) as nat,
                    ) by {
                        lemma_struck_step(k as nat, i as nat);
                        if i * i <= k && divides(i as nat, k as nat) {
                            lemma_struck_inherited(i as nat, k as nat);
                        }
                    }
                }
            }
            i += 1;
            assert(i * i <= u128::MAX) by (nonlinear_arith)
                requires
                    i <= 0xffff_ffff_ffff_ffff,
            ;
        }
        let mut found: Vec<u64> = Vec::new();
        let mut j: usize = 0;
        assert(nats(found@) =~= primes_below(0));
        while j < size
            invariant
                size == lim + 1,
                lim == limit,
                sieve@.len() == size,
                j <= size,
                (i as u128) * (i as u128) > lim as u128,
                forall|k: int| 0 <= k < size ==> #[trigger] sieve@[k] == !is_struck(k as nat, i as nat),
                nats(found@) == primes_below(j as nat),
            decreases size - j,
        {
            proof {
                assert(i * i > j) by (nonlinear_arith)
                    requires
                        (i as u128) * (i as u128) > lim as u128,
                        j <= lim,
                ;
                lemma_unstruck_is_prime(j as nat, i as nat);
            }
            if sieve[j] {
                let ghost before = found@;
                found.push(j as u64);
                assert(nats(found@) =~= nats(before).push(j as nat));
            }
            j += 1;
        }
        found
    }

    /// The next number that no prime held divides, appended as `next` appends it.
    pub fn get_next_prime(&mut self) -> (r: u64)
        requires
            old(self).primes@.len() >= 1,
            all_nonzero(old(self).primes@),
            old(self).n < u64::MAX,
            !has_no_candidate(old(self).primes@),
        ensures
            is_next_candidate(old(self).primes@, r),
            final(self).primes@ == old(self).primes@.push(r),
            final(self).n == old(self).n + 1,
            old(self).wf() ==> final(self).wf() && is_next_prime(
                old(self).primes@.last() as nat,
                r as nat,
            ),
    {
        match self.next() {
            Some(p) => p,
            None => vstd::pervasive::unreached(),
        }
    }

    /// The values of `values` that are below `n`, in their order.
    pub fn retain_below(values: &Vec<u64>, n: u64) -> (r: Vec<u64>)
        ensures
            r@ == values@.filter(below(n)),
    {
        let mut kept: Vec<u64> = Vec::new();
        let mut i: usize = 0;
        proof {
            reveal(Seq::filter);
            assert(values@.take(0) =~= Seq::<u64>::empty());
        }
        while i < values.len()
            invariant
                i <= values@.len(),
                kept@ == values@.take(i as int).filter(below(n)),
            decreases values@.len() - i,
        {
            proof {
                reveal(Seq::filter);
                assert(values@.take(i + 1).drop_last() =~= values@.take(i as int));
            }
            if values[i] < n {
                kept.push(values[i]);
            }
            i += 1;
        }
        assert(values@.take(values@.len() as int) =~= values@);
        kept
    }

    /// The primes below `n`, in ascending order, found by growing the list
    /// one prime at a time, `n` times, and keeping what is below `n`.
    pub fn get_primes_below_n_in_series(&mut self, n: u64) -> (r: Vec<u64>)
        requires
            old(self).wf(),
        ensures
            r@ == enumeration(n),
            nats(r@) == primes_below(n as nat),
            final(self).wf(),
            final(self).primes@.len() == len_after_growth(old(self).primes@.len(), n as nat),
            old(self).primes@ == final(self).primes@.take(old(self).primes@.len() as int),
    {
        let ghost held = self.primes@;
        let mut steps: u64 = 0;
        let mut exhausted = false;
        proof {
            lemma_prime_prefix_of_all(self.primes@);
            assert(self.primes@.take(held.len() as int) =~= held);
        }
        while steps < n && !exhausted
            invariant
                self.wf(),
                steps <= n,
                held.len() >= 1,
                held.len() <= u64_primes().len(),
                self.primes@.len() == held.len() + steps,
                held == self.primes@.take(held.len() as int),
                exhausted ==> self@ == u64_primes(),
            decreases n - steps + (if exhausted { 0int } else { 1int }),
        {
            let ghost before = self.primes@;
            proof {
                lemma_prime_prefix_of_all(self.primes@);
                lemma_prime_list_facts(self.primes@, (self.primes@.last() + 1) as nat);
            }
            match self.next() {
                Some(_) => {
                    steps += 1;
                    assert(self.primes@.take(held.len() as int) =~= before.take(held.len() as int));
                },
                None => {
                    exhausted = true;
                },
            }
        }
        proof {
            lemma_prime_prefix_of_all(self.primes@);
            let last = self.primes@.last();
            if exhausted {
                assert(nats(self.primes@).len() == self.primes@.len());
                lemma_filter_below(self.primes@, 0x1_0000_0000_0000_0000, n);
            } else {
                crate::prime_lists::lemma_prime_list_growth(
                    self.primes@,
                    (last + 1) as nat,
                    self.primes@.len() - 1,
                );
                lemma_filter_below(self.primes@, (last + 1) as nat, n);
            }
            lemma_enumeration(self.primes@.filter(below(n)), n);
        }
        Self::retain_below(&self.primes, n)
    }

    /// The primes up to the least number whose square is at least `n`.
    pub fn generate_small_primes(n: u64) -> (r: Vec<u64>)
        requires
            1 <= n,
            ceil_sqrt(n as nat) < usize::MAX,
        ensures
            nats(r@) == primes_below(ceil_sqrt(n as nat) + 1),
    {
        let limit = Self::get_small_prime_limit(n);
        proof {
            lemma_ceil_sqrt(n as nat);
        }
        Self::get_primes_below_n_with_sieve(limit)
    }

    /// `small_primes` together with each number above the least `limit`
    /// whose square is at least `n`, and below `n`, that no element of
    /// `small_primes` divides, all in ascending order. The candidates are
    /// tested on worker threads.
    pub fn mark_larger_primes_parallel(n: u64, small_primes: &[u64]) -> (r: Vec<u64>)
        requires
            all_nonzero(small_primes@),
        ensures
            is_sorted(r@),
            is_merge_of(r@, small_primes@, (ceil_sqrt(n as nat) + 1) as u64, n),
            nats(small_primes@) == primes_below(ceil_sqrt(n as nat) + 1) ==> nats(r@)
                == primes_below(
                if n > ceil_sqrt(n as nat) {
                    n as nat
                } else {
                    ceil_sqrt(n as nat) + 1
                },
            ),
    {
        let mut result = slice_to_vec(small_primes);
        let small_prime_limit = Self::get_small_prime_limit(n);
        proof {
            lemma_ceil_sqrt(n as nat);
        }
        let low = small_prime_limit + 1;
        let mut found = filter_candidates_in_parallel(low, n, small_primes);
        let ghost found_seq = found@;
        result.append(&mut found);
        sort_ascending(&mut result);
        proof {
            assert forall|c: u64| #[trigger]
                result@.to_multiset().count(c) == small_primes@.to_multiset().count(c)
                    + survivor_count(c, low, n, small_primes@) by {
                lemma_joined_count(small_primes@, found_seq, c);
            }
            if nats(small_primes@) == primes_below(ceil_sqrt(n as nat) + 1) {
                lemma_merge_lists_primes(result@, small_primes@, small_prime_limit, n);
            }
        }
        result
    }

    /// The primes below `n`, in ascending order: none for `n` up to two, by
    /// growing the list for small `n`, by sieve and fan-out from the
    /// threshold on. Where the sieve could not be indexed on this machine,
    /// the list is grown as for small `n`.
    pub fn parallel_primes_up_to(&mut self, n: u64) -> (r: Vec<u64>)
        requires
            old(self).wf(),
        ensures
            r@ == enumeration(n),
            nats(r@) == primes_below(n as nat),
            is_ascending_prime_list(nats(r@), n as nat),
            forall|i: int, j: int| 0 <= i < j < r@.len() ==> r@[i] < r@[j],
            forall|i: int| 0 <= i < r@.len() ==> is_prime(#[trigger] r@[i] as nat) && r@[i] < n,
            final(self).wf(),
            final(self).primes@.len() == len_after_enumeration(old(self).primes@.len(), n),
            old(self).primes@ == final(self).primes@.take(old(self).primes@.len() as int),
    {
        proof {
            lemma_primes_below_characterized(n as nat);
            assert(self.primes@.take(self.primes@.len() as int) =~= self.primes@);
        }
        if n <= 2 {
            proof {
                reveal_with_fuel(primes_below, 3);
                assert(!is_prime(0));
                assert(!is_prime(1));
            }
            let none: Vec<u64> = Vec::new();
            assert(nats(none@) =~= primes_below(n as nat));
            proof {
                lemma_enumeration(none@, n);
            }
            return none;
        } else if n < PARALLEL_PROCESSING_THRESHOLD
            || Self::get_small_prime_limit(n) >= usize::MAX as u64 {
            let in_series = self.get_primes_below_n_in_series(n);
            proof {
                lemma_prime_list_facts(in_series@, n as nat);
            }
            return in_series;
        }
        let small_primes = Self::generate_small_primes(n);
        proof {
            lemma_prime_list_facts(small_primes@, ceil_sqrt(n as nat) + 1);
            lemma_ceil_sqrt(n as nat);
            let limit = ceil_sqrt(n as nat);
            assert(limit < n) by (nonlinear_arith)
                requires
                    n >= 50,
                    limit == 0 || (limit - 1) * (limit - 1) < n,
            ;
        }
        let primes_in_parallel = Self::mark_larger_primes_parallel(n, small_primes.as_slice());
        let below_n = Self::retain_below(&primes_in_parallel, n);
        proof {
            lemma_filter_below(primes_in_parallel@, n as nat, n);
            lemma_prime_list_facts(below_n@, n as nat);
            lemma_enumeration(below_n@, n);
        }
        below_n
    }

    /// The primes below `n`, in ascending order.
    pub fn get_primes_below_n(&mut self, n: u64) -> (r: Vec<u64>)
        requires
            old(self).wf(),
        ensures
            r@ == enumeration(n),
            nats(r@) == primes_below(n as nat),
            is_ascending_prime_list(nats(r@), n as nat),
            forall|i: int, j: int| 0 <= i < j < r@.len() ==> r@[i] < r@[j],
            forall|i: int| 0 <= i < r@.len() ==> is_prime(#[trigger] r@[i] as nat) && r@[i] < n,
            final(self).wf(),
            final(self).primes@.len() == len_after_enumeration(old(self).primes@.len(), n),
            old(self).primes@ == final(self).primes@.take(old(self).primes@.len() as int),
    {
        self.parallel_primes_up_to(n)
    }

    /// The sum of the primes below `n`, in an accumulator wide enough for every bound.
    pub fn sum_primes_below_n(&mut self, n: u64) -> (r: u128)
        requires
            old(self).wf(),
        ensures
            r == seq_sum(primes_below(n as nat)),
            final(self).wf(),
            final(self).primes@.len() == len_after_enumeration(old(self).primes@.len(), n),
            old(self).primes@ == final(self).primes@.take(old(self).primes@.len() as int),
    {
        let primes = self.get_primes_below_n(n);
        let mut total: u128 = 0;
        let mut i: usize = 0;
        assert(nats(primes@).take(0) =~= Seq::<nat>::empty());
        while i < primes.len()
            invariant
                i <= primes@.len(),
                total == seq_sum(nats(primes@).take(i as int)),
                total <= i * 0xffff_ffff_ffff_ffff,
            decreases primes@.len() - i,
        {
            proof {
                let upto = nats(primes@).take(i as int);
                assert(nats(primes@).take(i + 1) =~= upto.push(primes@[i as int] as nat));
                lemma_seq_sum_push(upto, primes@[i as int] as nat);
                assert((i + 1) * 0xffff_ffff_ffff_ffff <= u128::MAX) by (nonlinear_arith)
                    requires
                        i + 1 <= 0xffff_ffff_ffff_ffff,
                ;
                assert(total + primes@[i as int] <= (i + 1) * 0xffff_ffff_ffff_ffff)
                    by (nonlinear_arith)
                    requires
                        total <= i * 0xffff_ffff_ffff_ffff,
                        primes@[i as int] <= 0xffff_ffff_ffff_ffff,
                ;
            }
            total += primes[i] as u128;
            i += 1;
        }
        assert(nats(primes@).take(primes@.len() as int) =~= nats(primes@));
        total
    }

    /// The `n`-th prime, counted from one, found by growing the list until
    /// it holds `n` primes; `None` for `n == 0`, and where the `n`-th prime
    /// does not fit in a `u64`.
    pub fn nth_prime(&mut self, n: u64) -> (r: Option<u64>)
        requires
            old(self).wf(),
        ensures
            r == nth_prime_of(n),
            final(self).wf(),
            final(self).primes@.len() == len_after_nth(old(self).primes@.len(), n),
            old(self).primes@ == final(self).primes@.take(old(self).primes@.len() as int),
    {
        grow_to_nth_prime(&mut self.primes, &mut self.n, n)
    }
}

impl Default for PrimeGenerator {
    fn default() -> (r: Self)
        ensures
            r.primes@ == seq![2u64],
            r.n == 1,
            r.wf(),
    {
        Self::new()
    }
}

/// Runs `rayon`'s parallel iterator over the range `low..high`, keeps with
/// `filter` the numbers that pass `PrimeGenerator::is_prime_with_small_primes`
/// and gathers them with `collect`. The contract claims that each such number
/// of the range comes out once and nothing else does; it says nothing of the
/// order in which they come.
#[verifier::external_body]
fn filter_candidates_in_parallel(low: u64, high: u64, small_primes: &[u64]) -> (found: Vec<u64>)
    requires
        all_nonzero(small_primes@),
    ensures
        forall|c: u64| #[trigger]
            found@.to_multiset().count(c) == survivor_count(c, low, high, small_primes@),
{
    (low..high).into_par_iter().filter(
        |&candidate| PrimeGenerator::is_prime_with_small_primes(candidate, small_primes),
    ).collect()
}

/// Sorts with the standard library's `sort_unstable` on slices. The contract
/// claims what its documentation says: the same values, in ascending order.
#[verifier::external_body]
fn sort_ascending(values: &mut Vec<u64>)
    ensures
        final(values)@.to_multiset() == old(values)@.to_multiset(),
        is_sorted(final(values)@),
{
    values.sort_unstable();
}

/// Every enumeration of the primes below `n` is strictly ascending, and
/// none of its elements has a divisor from two up whose square does not
/// exceed the element, nor is divisible by a smaller element of the result.
pub proof fn lemma_enumeration_ascending_and_prime(primes: Seq<u64>, n: u64)
    requires
        nats(primes) == primes_below(n as nat),
    ensures
        forall|i: int, j: int| 0 <= i < j < primes.len() ==> primes[i] < primes[j],
        forall|i: int| 0 <= i < primes.len() ==> is_prime(#[trigger] primes[i] as nat),
        forall|i: int, d: nat|
            0 <= i < primes.len() && 2 <= d && d * d <= primes[i] ==> !#[trigger] divides(
                d,
                primes[i] as nat,
            ),
        forall|i: int, j: int|
            0 <= i < j < primes.len() ==> !#[trigger] divides(primes[i] as nat, primes[j] as nat),
{
    lemma_prime_list_facts(primes, n as nat);
    assert forall|i: int, d: nat|
        0 <= i < primes.len() && 2 <= d && d * d <= primes[i] implies !#[trigger] divides(
        d,
        primes[i] as nat,
    ) by {
        assert(is_prime(primes[i] as nat));
        assert(d < primes[i]) by (nonlinear_arith)
            requires
                d * d <= primes[i],
                d >= 2,
        ;
    }
    assert forall|i: int, j: int| 0 <= i < j < primes.len() implies !#[trigger] divides(
        primes[i] as nat,
        primes[j] as nat,
    ) by {
        assert(is_prime(primes[i] as nat));
        assert(is_prime(primes[j] as nat));
        assert(primes[i] < primes[j]);
    }
}

/// Growing a list of all primes up to its last element until its last
/// element reaches `n - 1` or no prime is left that fits in a `u64`, and
/// sieving with trial division of the larger candidates, give the same
/// enumeration below `n`: the values below `n` of the grown list are the
/// values below `n` of the sorted merge.
pub proof fn lemma_series_and_parallel_agree(grown: Seq<u64>, merged: Seq<u64>, small: Seq<u64>, n: u64)
    requires
        is_prime_prefix(grown),
        grown.last() + 1 >= n || nats(grown) == u64_primes(),
        nats(small) == primes_below(ceil_sqrt(n as nat) + 1),
        is_sorted(merged),
        is_merge_of(merged, small, (ceil_sqrt(n as nat) + 1) as u64, n),
    ensures
        grown.filter(below(n)) == merged.filter(below(n)),
        nats(grown.filter(below(n))) == primes_below(n as nat),
{
    let limit = ceil_sqrt(n as nat);
    lemma_ceil_sqrt(n as nat);
    assert(limit <= 0x1_0000_0000) by (nonlinear_arith)
        requires
            limit == 0 || (limit - 1) * (limit - 1) < n,
            n <= 0xffff_ffff_ffff_ffff,
    ;
    lemma_merge_lists_primes(merged, small, limit as u64, n);
    if n > limit {
        lemma_filter_below(merged, n as nat, n);
    } else {
        lemma_filter_below(merged, limit + 1, n);
    }
    if grown.last() + 1 >= n {
        lemma_filter_below(grown, (grown.last() + 1) as nat, n);
    } else {
        lemma_filter_below(grown, 0x1_0000_0000_0000_0000, n);
    }
    lemma_nats_injective(grown.filter(below(n)), merged.filter(below(n)));
}

/// Two enumerations below the same bound are the same list, whatever the
/// generators held when they were asked.
pub proof fn lemma_enumeration_repeatable(first: Seq<u64>, second: Seq<u64>, n: u64)
    requires
        nats(first) == primes_below(n as nat),
        nats(second) == primes_below(n as nat),
    ensures
        first == second,
{
    lemma_nats_injective(first, second);
}

/// No prime is below two: the enumeration below zero, one or two is empty.
pub proof fn lemma_no_primes_below_two(n: u64)
    requires
        n <= 2,
    ensures
        primes_below(n as nat) == Seq::<nat>::empty(),
{
    reveal_with_fuel(primes_below, 3);
    assert(!is_prime(0));
    assert(!is_prime(1));
}

} // verus!
