//! The multiples of a number below a limit, and their sum.

use vstd::arithmetic::div_mod::{lemma_fundamental_div_mod, lemma_fundamental_div_mod_converse_mod};
use vstd::prelude::*;

verus! {

/// A number leaves no remainder on division by a negative divisor exactly
/// when it leaves none on division by the divisor's absolute value.
pub proof fn lemma_remainder_negative_divisor(x: int, y: int)
    requires
        y < 0,
    ensures
        (x % y == 0) <==> (x % (-y) == 0),
{
    assert(x == y * (x / y) + x % y && 0 <= x % y < -y) by (nonlinear_arith)
        requires
            y < 0,
    ;
    lemma_fundamental_div_mod(x, -y);
    if x % y == 0 {
        let q = x / y;
        assert(x == (-q) * (-y) + 0) by (nonlinear_arith)
            requires
                x == y * q,
        ;
        lemma_fundamental_div_mod_converse_mod(x, -y, -q, 0);
    }
    if x % (-y) == 0 {
        let q = x / (-y);
        let r = x % y;
        let p = x / y;
        assert(r == 0) by (nonlinear_arith)
            requires
                x == (-y) * q,
                x == y * p + r,
                0 <= r < -y,
                y < 0,
        ;
    }
}

/// A number and its negation leave no remainder on division by the same divisors.
pub proof fn lemma_remainder_of_negation(x: int, y: int)
    requires
        y != 0,
    ensures
        ((-x) % y == 0) <==> (x % y == 0),
{
    if y < 0 {
        lemma_remainder_negative_divisor(x, y);
        lemma_remainder_negative_divisor(-x, y);
        lemma_remainder_of_negation_positive(x, -y);
    } else {
        lemma_remainder_of_negation_positive(x, y);
    }
}

/// A number and its negation leave no remainder on division by the same positive divisors.
pub proof fn lemma_remainder_of_negation_positive(x: int, y: int)
    requires
        y > 0,
    ensures
        ((-x) % y == 0) <==> (x % y == 0),
{
    lemma_fundamental_div_mod(x, y);
    lemma_fundamental_div_mod(-x, y);
    if x % y == 0 {
        let q = x / y;
        assert(-x == (-q) * y + 0) by (nonlinear_arith)
            requires
                x == y * q,
        ;
        lemma_fundamental_div_mod_converse_mod(-x, y, -q, 0);
    }
    if (-x) % y == 0 {
        let q = (-x) / y;
        assert(x == (-q) * y + 0) by (nonlinear_arith)
            requires
                -x == y * q,
        ;
        lemma_fundamental_div_mod_converse_mod(x, y, -q, 0);
    }
}

/// The multiples of `number` from one up to, and without, `limit`, in ascending order.
pub open spec fn multiples_below(number: int, limit: int) -> Seq<i32>
    decreases limit,
{
    if limit <= 1 {
        Seq::empty()
    } else if (limit - 1) % number == 0 {
        multiples_below(number, limit - 1).push((limit - 1) as i32)
    } else {
        multiples_below(number, limit - 1)
    }
}

/// The sum of the elements of `s`.
pub open spec fn sum_of(s: Seq<i32>) -> int
    decreases s.len(),
{
    if s.len() == 0 {
        0
    } else {
        sum_of(s.drop_last()) + s.last()
    }
}

/// A number and a list of multiples gathered for it.
pub struct MultiplesOf {
    pub number: i32,
    pub multiples: Vec<i32>,
}

impl MultiplesOf {
    /// A collector for the multiples of `number`, with nothing gathered yet.
    pub fn new(number: i32) -> (r: Self)
        ensures
            r.number == number,
            r.multiples@ == Seq::<i32>::empty(),
    {
        MultiplesOf { number, multiples: Vec::new() }
    }

    /// Whether `x` is a multiple of the number.
    pub fn is_multiple_of(&self, x: &i32) -> (r: bool)
        requires
            self.number != 0,
            !(*x == i32::MIN && self.number == -1),
        ensures
            r == (*x as int % self.number as int == 0),
    {
        let rem = *x % self.number;
        proof {
            lemma_remainder_of_negation(*x as int, self.number as int);
        }
        rem == 0
    }

    /// Appends `x` to what has been gathered.
    pub fn add(&mut self, x: &i32)
        ensures
            final(self).number == old(self).number,
            final(self).multiples@ == old(self).multiples@.push(*x),
    {
        self.multiples.push(*x);
    }

    /// Gathers the multiples of the number from one up to, and without, `limit`.
    pub fn get_multiples_below(&mut self, limit: i32)
        requires
            old(self).number != 0,
        ensures
            final(self).number == old(self).number,
            final(self).multiples@ == old(self).multiples@ + multiples_below(
                old(self).number as int,
                limit as int,
            ),
    {
        let mut x: i32 = 1;
        assert(self.multiples@ =~= old(self).multiples@ + multiples_below(self.number as int, 1));
        while x < limit
            invariant
                self.number == old(self).number,
                self.number != 0,
                1 <= x,
                x <= limit || x == 1,
                self.multiples@ == old(self).multiples@ + multiples_below(
                    self.number as int,
                    x as int,
                ),
            decreases limit - x,
        {
            if self.is_multiple_of(&x) {
                self.add(&x);
                assert(self.multiples@ =~= old(self).multiples@ + multiples_below(
                    self.number as int,
                    x + 1,
                ));
            }
            x += 1;
        }
    }

    /// The sum of what has been gathered.
    pub fn sum_multiples(&self) -> (r: i32)
        requires
            i32::MIN <= sum_of(self.multiples@) <= i32::MAX,
        ensures
            r == sum_of(self.multiples@),
    {
        let mut total: i128 = 0;
        let mut i: usize = 0;
        assert(self.multiples@.take(0) =~= Seq::<i32>::empty());
        while i < self.multiples.len()
            invariant
                i <= self.multiples@.len(),
                total == sum_of(self.multiples@.take(i as int)),
                -(i * 0x8000_0000) <= total <= i * 0x8000_0000,
            decreases self.multiples@.len() - i,
        {
            proof {
                assert(self.multiples@.take(i + 1).drop_last() =~= self.multiples@.take(i as int));
                assert((i + 1) * 0x8000_0000 <= 0x8000_0000_0000_0000_0000_0000) by (nonlinear_arith)
                    requires
                        i + 1 <= 0xffff_ffff_ffff_ffff,
                ;
            }
            total += self.multiples[i] as i128;
            i += 1;
        }
        assert(self.multiples@.take(self.multiples@.len() as int) =~= self.multiples@);
        total as i32
    }

    /// Takes the element gathered last, if there is one.
    pub fn next(&mut self) -> (r: Option<i32>)
        ensures
            final(self).number == old(self).number,
            old(self).multiples@.len() == 0 ==> r.is_none(),
            old(self).multiples@.len() == 0 ==> final(self).multiples@ == old(self).multiples@,
            old(self).multiples@.len() > 0 ==> r == Some(old(self).multiples@.last())
                && final(self).multiples@ == old(self).multiples@.drop_last(),
    {
        self.multiples.pop()
    }
}

} // verus!
