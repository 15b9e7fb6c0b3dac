//! The sum of the first squares and the square of the first numbers' sum.

use vstd::prelude::*;

verus! {

/// The sum of the numbers from one to `n`.
pub open spec fn sum_up_to(n: nat) -> nat
    decreases n,
{
    if n == 0 {
        0
    } else {
        sum_up_to((n - 1) as nat) + n
    }
}

/// The sum of the squares of the numbers from one to `n`.
pub open spec fn squares_up_to(n: nat) -> nat
    decreases n,
{
    if n == 0 {
        0
    } else {
        squares_up_to((n - 1) as nat) + n * n
    }
}

/// The sum of the first numbers in closed form.
pub proof fn lemma_sum_up_to(n: nat)
    ensures
        2 * sum_up_to(n) == n * (n + 1),
    decreases n,
{
    if n > 0 {
        lemma_sum_up_to((n - 1) as nat);
        assert(2 * sum_up_to(n) == n * (n + 1)) by (nonlinear_arith)
            requires
                sum_up_to(n) == sum_up_to((n - 1) as nat) + n,
                2 * sum_up_to((n - 1) as nat) == (n - 1) * n,
        ;
    } else {
        assert(n * (n + 1) == 0) by (nonlinear_arith)
            requires
                n == 0,
        ;
    }
}

/// The sum of the first squares in closed form.
pub proof fn lemma_squares_up_to(n: nat)
    ensures
        6 * squares_up_to(n) == n * (n + 1) * (2 * n + 1),
    decreases n,
{
    if n > 0 {
        lemma_squares_up_to((n - 1) as nat);
        assert(6 * squares_up_to(n) == n * (n + 1) * (2 * n + 1)) by (nonlinear_arith)
            requires
                squares_up_to(n) == squares_up_to((n - 1) as nat) + n * n,
                6 * squares_up_to((n - 1) as nat) == (n - 1) * n * (2 * (n - 1) + 1),
        ;
    } else {
        assert(n * (n + 1) * (2 * n + 1) == 0) by (nonlinear_arith)
            requires
                n == 0,
        ;
    }
}

/// Both sums grow with their argument.
pub proof fn lemma_sums_monotonic(m: nat, n: nat)
    requires
        m <= n,
    ensures
        sum_up_to(m) <= sum_up_to(n),
        squares_up_to(m) <= squares_up_to(n),
    decreases n - m,
{
    if m < n {
        lemma_sums_monotonic(m, (n - 1) as nat);
    }
}

/// The sum of the squares of the numbers from one to `first_n`.
pub fn sum_of_squares(first_n: i64) -> (r: i64)
    requires
        1 <= first_n,
        squares_up_to(first_n as nat) <= i64::MAX,
    ensures
        r == squares_up_to(first_n as nat),
{
    let mut acc: i64 = 1;
    let mut x: i64 = 1;
    assert(squares_up_to(1) == 1) by {
        reveal_with_fuel(squares_up_to, 2);
    }
    while x < first_n
        invariant
            1 <= x <= first_n,
            acc == squares_up_to(x as nat),
            squares_up_to(first_n as nat) <= i64::MAX,
        decreases first_n - x,
    {
        proof {
            lemma_sums_monotonic((x + 1) as nat, first_n as nat);
            assert(squares_up_to((x + 1) as nat) == squares_up_to(x as nat) + (x + 1) * (x + 1));
            assert((x + 1) * (x + 1) >= 0) by (nonlinear_arith);
        }
        x += 1;
        acc = acc + x * x;
    }
    acc
}

/// The square of the sum of the numbers from one to `first_n`.
pub fn square_of_sums(first_n: i64) -> (r: i64)
    requires
        1 <= first_n,
        sum_up_to(first_n as nat) * sum_up_to(first_n as nat) <= i64::MAX,
    ensures
        r == sum_up_to(first_n as nat) * sum_up_to(first_n as nat),
{
    let mut sums: i64 = 1;
    let mut x: i64 = 1;
    assert(sum_up_to(1) == 1) by {
        reveal_with_fuel(sum_up_to, 2);
    }
    proof {
        let total = sum_up_to(first_n as nat);
        assert(total <= i64::MAX) by (nonlinear_arith)
            requires
                total * total <= i64::MAX,
        ;
    }
    while x < first_n
        invariant
            1 <= x <= first_n,
            sums == sum_up_to(x as nat),
            sum_up_to(first_n as nat) <= i64::MAX,
        decreases first_n - x,
    {
        proof {
            lemma_sums_monotonic((x + 1) as nat, first_n as nat);
        }
        x += 1;
        sums = sums + x;
    }
    sums * sums
}

} // verus!
