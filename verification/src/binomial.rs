//! Binomial coefficients, computed by alternating multiplication and
//! division.

use vstd::arithmetic::div_mod::lemma_div_multiples_vanish;
use vstd::prelude::*;

verus! {

/// The number of ways to choose `k` things out of `n`.
pub open spec fn binomial(n: nat, k: nat) -> nat
    decreases n,
{
    if k == 0 {
        1
    } else if n == 0 {
        0
    } else {
        binomial((n - 1) as nat, (k - 1) as nat) + binomial((n - 1) as nat, k)
    }
}

/// There is no way to choose more than there is.
pub proof fn lemma_binomial_zero(n: nat, k: nat)
    requires
        k > n,
    ensures
        binomial(n, k) == 0,
    decreases n,
{
    if n > 0 {
        lemma_binomial_zero((n - 1) as nat, (k - 1) as nat);
        lemma_binomial_zero((n - 1) as nat, k);
    }
}

/// Each coefficient of a row gives the next one: `(k + 1) * C(n, k + 1) == (n - k) * C(n, k)`.
pub proof fn lemma_binomial_next(n: nat, k: nat)
    requires
        k <= n,
    ensures
        (k + 1) * binomial(n, k + 1) == (n - k) * binomial(n, k),
    decreases n,
{
    if n == 0 {
        assert(binomial(0, 1) == 0);
        assert((k + 1) * binomial(n, k + 1) == 0) by (nonlinear_arith)
            requires
                binomial(n, k + 1) == 0,
        ;
        assert((n - k) * binomial(n, k) == 0) by (nonlinear_arith)
            requires
                n - k == 0,
        ;
    } else if k == n {
        lemma_binomial_zero(n, k + 1);
        assert((k + 1) * binomial(n, k + 1) == 0) by (nonlinear_arith)
            requires
                binomial(n, k + 1) == 0,
        ;
        assert((n - k) * binomial(n, k) == 0) by (nonlinear_arith)
            requires
                n - k == 0,
        ;
    } else if k == 0 {
        let m = (n - 1) as nat;
        lemma_binomial_next(m, 0);
        assert(binomial(m, 0) == 1);
        assert(binomial(m, 1) == m) by (nonlinear_arith)
            requires
                (0 + 1) * binomial(m, 0 + 1) == (m - 0) * binomial(m, 0),
                binomial(m, 0) == 1,
        ;
        assert(binomial(n, 1) == binomial(m, 0) + binomial(m, 1));
        assert((k + 1) * binomial(n, k + 1) == (n - k) * binomial(n, k)) by (nonlinear_arith)
            requires
                k == 0,
                binomial(n, k + 1) == n,
                binomial(n, k) == 1,
        ;
    } else {
        let m = (n - 1) as nat;
        let j = (k - 1) as nat;
        lemma_binomial_next(m, k);
        lemma_binomial_next(m, j);
        let a = binomial(m, j);
        let b = binomial(m, k);
        let c = binomial(m, k + 1);
        assert(binomial(n, k + 1) == b + c);
        assert(binomial(n, k) == a + b);
        assert((k + 1) * (b + c) == (n - k) * (a + b)) by (nonlinear_arith)
            requires
                (k + 1) * c == (m - k) * b,
                (j + 1) * b == (m - j) * a,
                m == n - 1,
                j == k - 1,
        ;
    }
}

/// The number of ways to choose `k` things out of `n`.
pub fn binomial_coefficient(n: usize, k: usize) -> (r: usize)
    requires
        k <= n,
        forall|i: nat| i < k ==> #[trigger] binomial(n as nat, i) * (n - i) <= usize::MAX,
    ensures
        r == binomial(n as nat, k as nat),
{
    let mut result: usize = 1;
    let mut i: usize = 0;
    while i < k
        invariant
            i <= k <= n,
            result == binomial(n as nat, i as nat),
            forall|j: nat| j < k ==> #[trigger] binomial(n as nat, j) * (n - j) <= usize::MAX,
        decreases k - i,
    {
        proof {
            assert(binomial(n as nat, i as nat) * (n - i) <= usize::MAX);
            lemma_binomial_next(n as nat, i as nat);
            let next = binomial(n as nat, (i + 1) as nat);
            assert(result * (n - i) == (i + 1) * next) by (nonlinear_arith)
                requires
                    (i + 1) * next == (n - i) * result,
            ;
            lemma_div_multiples_vanish(next as int, (i + 1) as int);
        }
        result *= n - i;
        result /= i + 1;
        i += 1;
    }
    result
}

/// The number of ways to choose `k` things out of `n`, or nothing where
/// more is to be chosen than there is, or where a product on the way does
/// not fit in a `usize`.
pub fn checked_binomial_coefficient(n: usize, k: usize) -> (r: Option<usize>)
    ensures
        match r {
            Some(c) => k <= n && c == binomial(n as nat, k as nat),
            None => k > n || exists|i: nat| i < k && #[trigger] binomial(n as nat, i) * (n - i)
                > usize::MAX,
        },
{
    if k > n {
        return None;
    }
    let mut result: usize = 1;
    let mut i: usize = 0;
    while i < k
        invariant
            i <= k <= n,
            result == binomial(n as nat, i as nat),
        decreases k - i,
    {
        proof {
            lemma_binomial_next(n as nat, i as nat);
            let next = binomial(n as nat, (i + 1) as nat);
            assert(result * (n - i) == (i + 1) * next) by (nonlinear_arith)
                requires
                    (i + 1) * next == (n - i) * result,
            ;
            lemma_div_multiples_vanish(next as int, (i + 1) as int);
        }
        match result.checked_mul(n - i) {
            Some(product) => {
                result = product / (i + 1);
            },
            None => {
                assert(binomial(n as nat, i as nat) * (n - i) > usize::MAX);
                return None;
            },
        }
        i += 1;
    }
    Some(result)
}

} // verus!
