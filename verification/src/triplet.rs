//! Triplets of numbers that are tested for being Pythagorean, being in
//! ascending order, and summing to one thousand.

use vstd::prelude::*;

verus! {

/// The sum that the three members of a special triplet have.
pub const TARGET_SUM: usize = 1000;

/// The square of `x`.
pub fn x2(x: usize) -> (r: usize)
    requires
        x * x <= usize::MAX,
    ensures
        r == x * x,
{
    x * x
}

/// Three numbers `a`, `b` and `c`.
#[derive(Debug, PartialEq)]
pub struct Triplet {
    pub a: usize,
    pub b: usize,
    pub c: usize,
}

impl Triplet {
    /// The triplet of `a`, `b` and `c`.
    pub fn new(a: usize, b: usize, c: usize) -> (r: Self)
        ensures
            r.a == a,
            r.b == b,
            r.c == c,
    {
        Triplet { a, b, c }
    }

    /// Whether the members are in strictly ascending order.
    pub fn is_ordered_correctly(&self) -> (r: bool)
        ensures
            r == (self.a < self.b && self.b < self.c),
    {
        (self.a < self.b) && (self.b < self.c)
    }

    /// Whether the squares of the first two members add up to the square of
    /// the third. The squares are taken in a wider type, so that the answer
    /// is right for every triplet.
    pub fn is_pythagorean_triple(&self) -> (r: bool)
        ensures
            r == (self.a * self.a + self.b * self.b == self.c * self.c),
    {
        let a = self.a as u128;
        let b = self.b as u128;
        let c = self.c as u128;
        assert(a * a <= 0xffff_ffff_ffff_ffff * 0xffff_ffff_ffff_ffff) by (nonlinear_arith)
            requires
                a <= 0xffff_ffff_ffff_ffff,
        ;
        assert(b * b <= 0xffff_ffff_ffff_ffff * 0xffff_ffff_ffff_ffff) by (nonlinear_arith)
            requires
                b <= 0xffff_ffff_ffff_ffff,
        ;
        assert(c * c <= 0xffff_ffff_ffff_ffff * 0xffff_ffff_ffff_ffff) by (nonlinear_arith)
            requires
                c <= 0xffff_ffff_ffff_ffff,
        ;
        if c < b {
            assert(c * c < a * a + b * b) by (nonlinear_arith)
                requires
                    0 <= c < b,
                    0 <= a,
            ;
            false
        } else {
            assert(b * b <= c * c) by (nonlinear_arith)
                requires
                    0 <= b <= c,
            ;
            a * a == c * c - b * b
        }
    }

    /// Whether the members sum to one thousand.
    pub fn is_sum_abc_equal_to_1000(&self) -> (r: bool)
        ensures
            r == (self.a + self.b + self.c == TARGET_SUM),
    {
        self.a <= TARGET_SUM && self.b <= TARGET_SUM - self.a && self.c == TARGET_SUM - self.a
            - self.b
    }

    /// The triplet of `a`, `b` and what is missing to one thousand.
    pub fn from_ab(a: usize, b: usize) -> (r: Self)
        requires
            a + b <= TARGET_SUM,
        ensures
            r.a == a,
            r.b == b,
            r.a + r.b + r.c == TARGET_SUM,
    {
        let c = TARGET_SUM - a - b;
        Triplet { a, b, c }
    }
}

/// Whether `a`, `b` and what is missing to one thousand are in strictly
/// ascending order and Pythagorean.
pub open spec fn is_special(a: nat, b: nat) -> bool {
    &&& a + b <= TARGET_SUM
    &&& a < b < TARGET_SUM - a - b
    &&& a * a + b * b == (TARGET_SUM - a - b) * (TARGET_SUM - a - b)
}

/// `(a, b)` comes before `(c, d)` where pairs are ordered by their first
/// members, and by their second members among equal first ones.
pub open spec fn comes_before(a: nat, b: nat, c: nat, d: nat) -> bool {
    a < c || (a == c && b < d)
}

/// The first triplet, in the order of its first two members, that sums to
/// one thousand, is in strictly ascending order and is Pythagorean, if
/// there is one.
pub fn find_special_triplet() -> (r: Option<Triplet>)
    ensures
        match r {
            Some(t) => {
                &&& is_special(t.a as nat, t.b as nat)
                &&& t.a + t.b + t.c == TARGET_SUM
                &&& forall|a: nat, b: nat|
                    comes_before(a, b, t.a as nat, t.b as nat) ==> !#[trigger] is_special(a, b)
            },
            None => forall|a: nat, b: nat| !#[trigger] is_special(a, b),
        },
{
    let mut a: usize = 0;
    while a <= TARGET_SUM
        invariant
            a <= TARGET_SUM + 1,
            forall|x: nat, y: nat| x < a ==> !#[trigger] is_special(x, y),
        decreases TARGET_SUM + 1 - a,
    {
        let mut b: usize = 0;
        while b <= TARGET_SUM - a
            invariant
                a <= TARGET_SUM,
                b <= TARGET_SUM - a + 1,
                forall|x: nat, y: nat| comes_before(x, y, a as nat, b as nat) ==> !#[trigger] is_special(x, y),
            decreases TARGET_SUM - a + 1 - b,
        {
            let t = Triplet::from_ab(a, b);
            if t.is_ordered_correctly() && t.is_pythagorean_triple()
                && t.is_sum_abc_equal_to_1000() {
                return Some(t);
            }
            b += 1;
        }
        a += 1;
    }
    None
}

} // verus!
