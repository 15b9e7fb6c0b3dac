//! The Fibonacci numbers, and the sum of the even ones among them.

use vstd::prelude::*;

verus! {

/// The Fibonacci number at index `i`, where the first two are one.
pub open spec fn fib(i: nat) -> nat
    decreases i,
{
    if i < 2 {
        1
    } else {
        fib((i - 1) as nat) + fib((i - 2) as nat)
    }
}

/// The test that the even numbers pass.
pub open spec fn is_even() -> spec_fn(i64) -> bool {
    |x: i64| x % 2 == 0
}

/// The sum of the elements of `s`.
pub open spec fn sum_of(s: Seq<i64>) -> int
    decreases s.len(),
{
    if s.len() == 0 {
        0
    } else {
        sum_of(s.drop_last()) + s.last()
    }
}

/// The first Fibonacci numbers, their count, and the even ones among them.
#[derive(Debug, Clone, PartialEq)]
pub struct Fibonacci {
    pub n: i64,
    pub fibs: Vec<i64>,
    pub evens: Vec<i64>,
}

impl Fibonacci {
    /// The list holds the first Fibonacci numbers in order, at least two of
    /// them, the counter agrees with its length, and the even ones are kept
    /// apart in the same order.
    pub open spec fn wf(&self) -> bool {
        &&& self.fibs@.len() >= 2
        &&& self.n == self.fibs@.len()
        &&& forall|i: int| 0 <= i < self.fibs@.len() ==> #[trigger] self.fibs@[i] == fib(i as nat)
        &&& self.evens@ == self.fibs@.filter(is_even())
    }

    /// The first two Fibonacci numbers.
    pub fn new() -> (r: Self)
        ensures
            r.fibs@ == seq![1i64, 1i64],
            r.evens@ == Seq::<i64>::empty(),
            r.n == 2,
            r.wf(),
    {
        let mut fibs: Vec<i64> = Vec::with_capacity(50);
        fibs.push(1);
        fibs.push(1);
        let evens: Vec<i64> = Vec::with_capacity(50);
        proof {
            assert(fibs@ =~= seq![1i64, 1i64]);
            reveal_with_fuel(Seq::filter, 3);
            assert(fibs@.drop_last() =~= seq![1i64]);
            assert(seq![1i64].drop_last() =~= Seq::<i64>::empty());
            assert(fibs@.filter(is_even()) =~= Seq::<i64>::empty());
        }
        Fibonacci { n: 2, fibs, evens }
    }

    /// The sum of the last two elements of `list`.
    pub open spec fn sum_of_last_two(list: Seq<i64>) -> i64 {
        (list[list.len() - 1] + list[list.len() - 2]) as i64
    }

    /// The sum of the last two elements of `list` fits in an `i64`.
    pub open spec fn last_two_fit(list: Seq<i64>) -> bool {
        i64::MIN <= list[list.len() - 1] + list[list.len() - 2] <= i64::MAX
    }

    /// Appends the sum of the last two numbers, and keeps it apart too where it is even.
    pub fn next(&mut self)
        requires
            old(self).fibs@.len() >= 2,
            old(self).n < i64::MAX,
            Self::last_two_fit(old(self).fibs@),
        ensures
            final(self).fibs@ == old(self).fibs@.push(Self::sum_of_last_two(old(self).fibs@)),
            final(self).evens@ == if final(self).fibs@.last() % 2 == 0 {
                old(self).evens@.push(final(self).fibs@.last())
            } else {
                old(self).evens@
            },
            final(self).n == old(self).n + 1,
            old(self).wf() ==> final(self).wf(),
    {
        let len = self.fibs.len();
        let last2: i64 = self.fibs[len - 2] + self.fibs[len - 1];
        if last2 % 2 == 0 {
            self.evens.push(last2);
        }
        self.fibs.push(last2);
        self.n += 1;
        proof {
            reveal(Seq::filter);
            assert(self.fibs@.drop_last() =~= old(self).fibs@);
        }
    }

    /// The last Fibonacci number found.
    pub fn current(&self) -> (r: i64)
        requires
            self.fibs@.len() >= 1,
        ensures
            r == self.fibs@.last(),
    {
        self.fibs[self.fibs.len() - 1]
    }

    /// The sum of the even numbers found.
    pub fn sum_evens(&self) -> (r: i64)
        requires
            i64::MIN <= sum_of(self.evens@) <= i64::MAX,
        ensures
            r == sum_of(self.evens@),
    {
        let mut total: i128 = 0;
        let mut i: usize = 0;
        assert(self.evens@.take(0) =~= Seq::<i64>::empty());
        while i < self.evens.len()
            invariant
                i <= self.evens@.len(),
                total == sum_of(self.evens@.take(i as int)),
                -(i * 0x8000_0000_0000_0000) <= total <= i * 0x8000_0000_0000_0000,
            decreases self.evens@.len() - i,
        {
            proof {
                assert(self.evens@.take(i + 1).drop_last() =~= self.evens@.take(i as int));
                assert((i + 1) * 0x8000_0000_0000_0000 <= 0x7fff_ffff_ffff_ffff_8000_0000_0000_0000)
                    by (nonlinear_arith)
                    requires
                        i + 1 <= 0xffff_ffff_ffff_ffff,
                ;
            }
            total += self.evens[i] as i128;
            i += 1;
        }
        assert(self.evens@.take(self.evens@.len() as int) =~= self.evens@);
        total as i64
    }
}

} // verus!
