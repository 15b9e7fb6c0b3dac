//! Collatz sequences: from a starting number, halve what is even, triple
//! and add one to what is odd, until one is reached.

use vstd::prelude::*;

verus! {

/// The term that follows `n`.
pub open spec fn collatz_step(n: nat) -> nat {
    if n % 2 == 0 {
        n / 2
    } else {
        3 * n + 1
    }
}

/// From `n`, one is reached in at most `fuel` steps, through terms that fit in a `u64`.
pub open spec fn reaches_one_within(n: nat, fuel: nat) -> bool
    decreases fuel,
{
    n == 1 || (fuel > 0 && collatz_step(n) <= u64::MAX && reaches_one_within(
        collatz_step(n),
        (fuel - 1) as nat,
    ))
}

/// From `n`, one is reached through terms that fit in a `u64`.
pub open spec fn reaches_one(n: nat) -> bool {
    exists|fuel: nat| reaches_one_within(n, fuel)
}

/// The terms that follow `n`, up to the first one, at most `fuel` of them.
pub open spec fn terms_after(n: nat, fuel: nat) -> Seq<u64>
    decreases fuel,
{
    if n == 1 || fuel == 0 {
        Seq::empty()
    } else {
        seq![collatz_step(n) as u64] + terms_after(collatz_step(n), (fuel - 1) as nat)
    }
}

/// The terms that follow `n`, up to the first one.
pub open spec fn collatz_tail(n: nat) -> Seq<u64> {
    terms_after(n, choose|fuel: nat| reaches_one_within(n, fuel))
}

/// Whatever number of steps suffices to reach one gives the same terms.
pub proof fn lemma_terms_after_any_fuel(n: nat, fuel: nat, other: nat)
    requires
        reaches_one_within(n, fuel),
        reaches_one_within(n, other),
    ensures
        terms_after(n, fuel) == terms_after(n, other),
    decreases fuel,
{
    if n != 1 {
        lemma_terms_after_any_fuel(collatz_step(n), (fuel - 1) as nat, (other - 1) as nat);
    }
}

/// The tail of a number other than one is its next term and that term's tail.
pub proof fn lemma_collatz_tail_unfold(n: nat)
    requires
        reaches_one(n),
    ensures
        n == 1 ==> collatz_tail(n) == Seq::<u64>::empty(),
        n != 1 ==> reaches_one(collatz_step(n)) && collatz_step(n) <= u64::MAX && collatz_tail(n)
            == seq![collatz_step(n) as u64] + collatz_tail(collatz_step(n)),
{
    let fuel = choose|fuel: nat| reaches_one_within(n, fuel);
    if n != 1 {
        let next = collatz_step(n);
        assert(reaches_one_within(next, (fuel - 1) as nat));
        let other = choose|other: nat| reaches_one_within(next, other);
        lemma_terms_after_any_fuel(next, (fuel - 1) as nat, other);
    }
}

/// The length of the Collatz sequence that starts at `n`.
pub fn get_collatz_sequence_len(n: u64) -> (r: usize)
    requires
        reaches_one(n as nat),
    ensures
        r == 1 + collatz_tail(n as nat).len(),
{
    let mut collatz = CollatzGenerator::new(n);
    collatz.len()
}

/// The length of the Collatz sequence that starts at `n`, or nothing where
/// one is not reached in `max_steps` steps through terms that fit in a `u64`.
pub fn get_collatz_sequence_len_within(n: u64, max_steps: usize) -> (r: Option<usize>)
    requires
        max_steps < usize::MAX,
    ensures
        match r {
            Some(len) => reaches_one_within(n as nat, max_steps as nat) && len == 1
                + collatz_tail(n as nat).len(),
            None => !reaches_one_within(n as nat, max_steps as nat),
        },
{
    let mut current = n;
    let mut steps: usize = 0;
    loop
        invariant
            steps <= max_steps < usize::MAX,
            reaches_one_within(n as nat, max_steps as nat) <==> reaches_one_within(
                current as nat,
                (max_steps - steps) as nat,
            ),
            forall|fuel: nat| #[trigger]
                reaches_one_within(current as nat, fuel) ==> reaches_one_within(
                    n as nat,
                    (fuel + steps) as nat,
                ) && terms_after(n as nat, (fuel + steps) as nat).len() == steps + terms_after(
                    current as nat,
                    fuel,
                ).len(),
        decreases max_steps - steps,
    {
        if current == 1 {
            proof {
                assert(reaches_one_within(current as nat, 0));
                let fuel = choose|fuel: nat| reaches_one_within(n as nat, fuel);
                lemma_terms_after_any_fuel(n as nat, fuel, steps as nat);
            }
            return Some(steps + 1);
        }
        if steps == max_steps {
            return None;
        }
        let ghost before = current;
        if current % 2 == 0 {
            current = current / 2;
        } else {
            if current > (u64::MAX - 1) / 3 {
                return None;
            }
            current = 3 * current + 1;
        }
        steps += 1;
        proof {
            assert forall|fuel: nat| #[trigger]
                reaches_one_within(current as nat, fuel) implies reaches_one_within(
                n as nat,
                (fuel + steps) as nat,
            ) && terms_after(n as nat, (fuel + steps) as nat).len() == steps + terms_after(
                current as nat,
                fuel,
            ).len() by {
                assert(reaches_one_within(before as nat, fuel + 1));
                assert(terms_after(before as nat, fuel + 1).len() == 1 + terms_after(
                    current as nat,
                    fuel,
                ).len());
            }
        }
    }
}

/// A starting number and the term that has been reached from it.
#[derive(Debug, PartialEq)]
pub struct CollatzGenerator {
    pub starting_number: u64,
    pub current_number: u64,
}

impl CollatzGenerator {
    /// A generator that stands at its starting number.
    pub fn new(starting_number: u64) -> (r: Self)
        ensures
            r.starting_number == starting_number,
            r.current_number == starting_number,
    {
        CollatzGenerator { starting_number, current_number: starting_number }
    }

    /// Whether the current term is even.
    pub fn is_even(&self) -> (r: bool)
        ensures
            r == (self.current_number % 2 == 0),
    {
        self.current_number % 2 == 0
    }

    /// Whether the current term is odd.
    pub fn is_odd(&self) -> (r: bool)
        ensures
            r == (self.current_number % 2 != 0),
    {
        !self.is_even()
    }

    /// Halves the current term.
    pub fn calculate_next_term_when_even(&mut self) -> (r: Option<u64>)
        ensures
            final(self).starting_number == old(self).starting_number,
            final(self).current_number == old(self).current_number / 2,
            r == Some(final(self).current_number),
    {
        self.current_number /= 2;
        Some(self.current_number)
    }

    /// Triples the current term and adds one.
    pub fn calculate_next_term_when_odd(&mut self) -> (r: Option<u64>)
        requires
            3 * old(self).current_number + 1 <= u64::MAX,
        ensures
            final(self).starting_number == old(self).starting_number,
            final(self).current_number == 3 * old(self).current_number + 1,
            r == Some(final(self).current_number),
    {
        self.current_number *= 3;
        self.current_number += 1;
        Some(self.current_number)
    }

    /// Moves to the next term and returns it, or returns `None` where the current term is one.
    pub fn calculate_next_term(&mut self) -> (r: Option<u64>)
        requires
            old(self).current_number != 1 ==> collatz_step(old(self).current_number as nat)
                <= u64::MAX,
        ensures
            final(self).starting_number == old(self).starting_number,
            old(self).current_number == 1 ==> r.is_none() && final(self).current_number == 1,
            old(self).current_number != 1 ==> r == Some(
                collatz_step(old(self).current_number as nat) as u64,
            ) && final(self).current_number == collatz_step(old(self).current_number as nat),
    {
        if self.current_number == 1 {
            None
        } else if self.is_even() {
            self.calculate_next_term_when_even()
        } else {
            self.calculate_next_term_when_odd()
        }
    }

    /// Moves to the next term, as `calculate_next_term` does.
    pub fn next(&mut self) -> (r: Option<u64>)
        requires
            old(self).current_number != 1 ==> collatz_step(old(self).current_number as nat)
                <= u64::MAX,
        ensures
            final(self).starting_number == old(self).starting_number,
            old(self).current_number == 1 ==> r.is_none() && final(self).current_number == 1,
            old(self).current_number != 1 ==> r == Some(
                collatz_step(old(self).current_number as nat) as u64,
            ) && final(self).current_number == collatz_step(old(self).current_number as nat),
    {
        self.calculate_next_term()
    }

    /// The terms that follow the current one, up to the first one.
    pub fn collect(&mut self) -> (r: Vec<u64>)
        requires
            reaches_one(old(self).current_number as nat),
        ensures
            r@ == collatz_tail(old(self).current_number as nat),
            final(self).starting_number == old(self).starting_number,
            final(self).current_number == 1,
    {
        let mut terms: Vec<u64> = Vec::new();
        let ghost mut fuel: nat = choose|fuel: nat|
            reaches_one_within(self.current_number as nat, fuel);
        proof {
            assert(terms@ + terms_after(self.current_number as nat, fuel) =~= collatz_tail(
                old(self).current_number as nat,
            ));
        }
        loop
            invariant
                self.starting_number == old(self).starting_number,
                reaches_one_within(self.current_number as nat, fuel),
                terms@ + terms_after(self.current_number as nat, fuel) == collatz_tail(
                    old(self).current_number as nat,
                ),
            ensures
                self.starting_number == old(self).starting_number,
                self.current_number == 1,
                terms@ == collatz_tail(old(self).current_number as nat),
            decreases fuel,
        {
            let ghost before = self.current_number as nat;
            let ghost gathered = terms@;
            match self.calculate_next_term() {
                Some(next_term) => {
                    terms.push(next_term);
                    proof {
                        fuel = (fuel - 1) as nat;
                        assert(terms@ + terms_after(self.current_number as nat, fuel) =~= gathered
                            + terms_after(before, fuel + 1));
                    }
                },
                None => {
                    assert(terms@ + terms_after(1, fuel) =~= terms@);
                    break ;
                },
            }
        }
        terms
    }

    /// The starting number and the terms that follow the current one, up to the first one.
    pub fn get_collatz_sequence(&mut self) -> (r: Vec<u64>)
        requires
            reaches_one(old(self).current_number as nat),
        ensures
            r@ == seq![old(self).starting_number] + collatz_tail(old(self).current_number as nat),
            final(self).starting_number == old(self).starting_number,
            final(self).current_number == 1,
    {
        let mut sequence: Vec<u64> = Vec::new();
        sequence.push(self.starting_number);
        let mut terms = self.collect();
        sequence.append(&mut terms);
        assert(sequence@ =~= seq![old(self).starting_number] + collatz_tail(
            old(self).current_number as nat,
        ));
        sequence
    }

    /// The length of what `get_collatz_sequence` returns.
    pub fn len(&mut self) -> (r: usize)
        requires
            reaches_one(old(self).current_number as nat),
        ensures
            r == 1 + collatz_tail(old(self).current_number as nat).len(),
            final(self).starting_number == old(self).starting_number,
            final(self).current_number == 1,
    {
        self.get_collatz_sequence().len()
    }

    /// Whether `get_collatz_sequence` returns nothing, which it never does.
    #[must_use]
    pub fn is_empty(&mut self) -> (r: bool)
        requires
            reaches_one(old(self).current_number as nat),
        ensures
            !r,
            final(self).starting_number == old(self).starting_number,
            final(self).current_number == 1,
    {
        self.len() == 0
    }
}

} // verus!
