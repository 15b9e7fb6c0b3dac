//! Triangular numbers and their divisors.

use crate::number_theory::{
    divides, is_ascending_list_of, lemma_ascending_list_unique, lemma_divides_multiple,
    lemma_divides_quotient, numbers_below,
};
use crate::triangular_number_maker::triangular;
use vstd::arithmetic::div_mod::{lemma_div_is_ordered_by_denominator, lemma_div_multiples_vanish};
use vstd::prelude::*;

verus! {

/// The largest index whose triangular number is computed without leaving a `u32` on the way.
pub const MAX_TRIANGULAR_INDEX: u32 = 65535;

/// The test that the divisors of `n` pass.
pub open spec fn divisor_test(n: nat) -> spec_fn(nat) -> bool {
    |d: nat| is_divisor(d, n)
}

/// The divisors of `n`, in ascending order; none for zero.
pub open spec fn divisors_of(n: nat) -> Seq<nat> {
    numbers_below(divisor_test(n), n + 1)
}

/// The elements of `s` as natural numbers.
pub open spec fn numbers(s: Seq<u32>) -> Seq<nat> {
    Seq::new(s.len(), |i: int| s[i] as nat)
}

/// `s` is in ascending order; equal neighbours are allowed.
pub open spec fn is_sorted(s: Seq<u32>) -> bool {
    forall|i: int, j: int| 0 <= i <= j < s.len() ==> s[i] <= s[j]
}

/// `x` is a divisor of `n` that is below `upto` or whose partner, the quotient of `n` by it, is.
pub open spec fn is_gathered(x: nat, n: nat, upto: nat) -> bool {
    is_divisor(x, n) && (x < upto || n / x < upto)
}

/// `x` is a divisor of `n`; zero has none.
pub open spec fn is_divisor(x: nat, n: nat) -> bool {
    divides(x, n) && x <= n
}

/// Whether the triangular number at index `i` has more than `n` divisors.
pub open spec fn has_more_divisors(i: nat, n: nat) -> bool {
    divisors_of(triangular(i)).len() > n
}

/// The `n`-th triangular number.
pub fn get_triangular_number(n: u32) -> (r: u32)
    requires
        n * (n + 1) <= u32::MAX,
    ensures
        r == triangular(n as nat),
{
    assert(n * (n + 1) >= n + 1 || n == 0) by (nonlinear_arith)
        requires
            n >= 0,
    ;
    n * (n + 1) / 2
}

/// The divisors of `n`, gathered in pairs of a divisor up to the square
/// root and its partner, in the order found.
pub fn gather_divisors(n: u32) -> (r: Vec<u32>)
    ensures
        r@.no_duplicates(),
        forall|x: u32| r@.contains(x) <==> is_divisor(x as nat, n as nat),
{
    let mut divisors: Vec<u32> = Vec::new();
    let mut i: u32 = 1;
    proof {
        assert forall|x: u32| !is_gathered(x as nat, n as nat, 1) by {
            if is_divisor(x as nat, n as nat) {
                lemma_partner(n as nat, x as nat);
            }
        }
    }
    while i <= n / i
        invariant
            1 <= i,
            (i - 1) * (i - 1) <= n,
            divisors@.no_duplicates(),
            forall|x: u32| divisors@.contains(x) <==> is_gathered(x as nat, n as nat, i as nat),
        decreases n - i,
    {
        proof {
            lemma_quotient_bounds(n as nat, i as nat);
        }
        let ghost before = divisors@;
        if n % i == 0 {
            let partner = n / i;
            proof {
                lemma_partner(n as nat, i as nat);
            }
            divisors.push(i);
            assert(divisors@.no_duplicates()) by {
                assert(!before.contains(i));
            }
            if i != partner {
                let ghost with_first = divisors@;
                divisors.push(partner);
                assert(divisors@.no_duplicates()) by {
                    assert(!before.contains(partner));
                    assert(!with_first.contains(partner)) by {
                        if with_first.contains(partner) {
                            let k = choose|k: int|
                                0 <= k < with_first.len() && with_first[k] == partner;
                            if k < before.len() {
                                assert(before[k] == partner);
                            }
                        }
                    }
                }
            }
        }
        proof {
            assert forall|x: u32| divisors@.contains(x) <==> is_gathered(
                x as nat,
                n as nat,
                (i + 1) as nat,
            ) by {
                if is_divisor(x as nat, n as nat) && n as nat / x as nat == i {
                    lemma_partner(n as nat, x as nat);
                }
                if divides(i as nat, n as nat) {
                    lemma_partner(n as nat, i as nat);
                    crate::number_theory::lemma_divisor_at_most(n as nat / i as nat, n as nat);
                }
                if divisors@.contains(x) {
                    let k = choose|k: int| 0 <= k < divisors@.len() && divisors@[k] == x;
                    if k < before.len() {
                        assert(before[k] == x);
                        assert(before.contains(x));
                    }
                }
                if is_gathered(x as nat, n as nat, (i + 1) as nat) {
                    if is_gathered(x as nat, n as nat, i as nat) {
                        assert(before.contains(x));
                        let k = choose|k: int| 0 <= k < before.len() && before[k] == x;
                        assert(divisors@[k] == x);
                    } else if x == i {
                        assert(divisors@[before.len() as int] == x);
                    } else {
                        assert(x == n / i);
                        assert(divisors@[before.len() as int + 1] == x);
                    }
                }
            }
            assert(i * i <= n) by (nonlinear_arith)
                requires
                    i <= n as nat / i as nat,
                    (n as nat / i as nat) * i <= n,
                    i >= 1,
            ;
            assert(i < n || n <= 1) by (nonlinear_arith)
                requires
                    i * i <= n,
                    i >= 1,
            ;
        }
        if i == n {
            return divisors;
        }
        i += 1;
    }
    proof {
        lemma_quotient_bounds(n as nat, i as nat);
        assert forall|x: u32| is_divisor(x as nat, n as nat) implies is_gathered(
            x as nat,
            n as nat,
            i as nat,
        ) by {
            if x >= i {
                lemma_div_is_ordered_by_denominator(n as int, i as int, x as int);
            }
        }
    }
    divisors
}

/// The divisors of `n`, in ascending order.
pub fn get_divisors_of_number(n: u32) -> (r: Vec<u32>)
    ensures
        numbers(r@) == divisors_of(n as nat),
{
    let mut divisors = gather_divisors(n);
    let ghost gathered = divisors@;
    sort_divisors(&mut divisors);
    proof {
        lemma_sorted_divisors(gathered, divisors@, n as nat);
    }
    divisors
}

/// How many divisors `n` has.
pub fn count_divisors_of_number(n: u32) -> (r: u32)
    ensures
        r == divisors_of(n as nat).len(),
{
    let divisors = gather_divisors(n);
    proof {
        broadcast use vstd::seq_lib::group_to_multiset_ensures;

        let leq = |a: u32, b: u32| a <= b;
        let sorted = divisors@.sort_by(leq);
        divisors@.lemma_sort_by_ensures(leq);
        assert(is_sorted(sorted)) by {
            assert forall|i: int, j: int| 0 <= i <= j < sorted.len() implies sorted[i]
                <= sorted[j] by {
                if i < j {
                    assert(leq(sorted[i], sorted[j]));
                }
            }
        }
        lemma_sorted_divisors(divisors@, sorted, n as nat);
        assert(numbers(sorted).len() == sorted.len());
        assert(sorted.len() == sorted.to_multiset().len());
        assert(divisors@.len() == divisors@.to_multiset().len());
        lemma_divisor_count_bound(n as nat);
    }
    divisors.len() as u32
}

/// The first triangular number with more than `n` divisors.
pub fn get_first_with_n_divisors(n: u32) -> (r: u32)
    requires
        exists|i: nat| 1 <= i <= MAX_TRIANGULAR_INDEX && has_more_divisors(i, n as nat),
    ensures
        exists|i: nat|
            1 <= i <= MAX_TRIANGULAR_INDEX && #[trigger] has_more_divisors(i, n as nat) && r
                == triangular(i) && forall|j: nat| 1 <= j < i ==> !has_more_divisors(j, n as nat),
{
    let mut i: u32 = 1;
    loop
        invariant
            1 <= i <= MAX_TRIANGULAR_INDEX,
            exists|k: nat| 1 <= k <= MAX_TRIANGULAR_INDEX && has_more_divisors(k, n as nat),
            forall|j: nat| 1 <= j < i ==> !has_more_divisors(j, n as nat),
        decreases MAX_TRIANGULAR_INDEX - i,
    {
        assert(i * (i + 1) <= u32::MAX) by (nonlinear_arith)
            requires
                1 <= i <= 65535,
        ;
        let number = get_triangular_number(i);
        if count_divisors_of_number(number) > n {
            assert(has_more_divisors(i as nat, n as nat));
            return number;
        }
        i += 1;
    }
}

/// Sorts with the standard library's `sort` on slices. The contract claims
/// what its documentation says: the same values, in ascending order.
#[verifier::external_body]
fn sort_divisors(values: &mut Vec<u32>)
    ensures
        final(values)@.to_multiset() == old(values)@.to_multiset(),
        is_sorted(final(values)@),
{
    values.sort();
}

/// A number with a positive divisor `i` is `i` times its quotient by `i`,
/// and the quotient divides it with quotient `i`.
pub proof fn lemma_partner(n: nat, i: nat)
    requires
        divides(i, n),
        n > 0,
    ensures
        divides(n / i, n),
        n / (n / i) == i,
        n / i >= 1,
{
    lemma_divides_quotient(i, n);
    let q = n / i;
    assert(q >= 1) by (nonlinear_arith)
        requires
            n == i * q,
            n > 0,
            i > 0,
    ;
    lemma_divides_multiple(q, i);
    assert(n == i * q);
    assert(q * i == i * q) by (nonlinear_arith);
    lemma_div_multiples_vanish(i as int, q as int);
}

/// The quotient of `n` by a positive `i`, times `i`, does not exceed `n`,
/// and exceeds it once more `i` is added.
pub proof fn lemma_quotient_bounds(n: nat, i: nat)
    requires
        i > 0,
    ensures
        (n / i) * i <= n,
        n < (n / i) * i + i,
{
    vstd::arithmetic::div_mod::lemma_fundamental_div_mod(n as int, i as int);
    assert((n / i) * i == i * (n / i)) by (nonlinear_arith);
}

/// A number has no more divisors than it counts itself.
pub proof fn lemma_divisor_count_bound(n: nat)
    ensures
        divisors_of(n).len() <= n,
{
    lemma_positive_numbers_below_len(divisor_test(n), n + 1);
}

/// Where zero does not pass the test, there are fewer numbers below a
/// bound that pass it than the bound counts.
pub proof fn lemma_positive_numbers_below_len(test: spec_fn(nat) -> bool, bound: nat)
    requires
        !test(0),
    ensures
        numbers_below(test, bound).len() <= if bound == 0 {
            0
        } else {
            bound - 1
        },
    decreases bound,
{
    if bound > 0 {
        lemma_positive_numbers_below_len(test, (bound - 1) as nat);
    }
}

/// Sorting the divisors of a number, each gathered once, lists them in ascending order.
pub proof fn lemma_sorted_divisors(gathered: Seq<u32>, sorted: Seq<u32>, n: nat)
    requires
        n <= u32::MAX,
        gathered.no_duplicates(),
        forall|x: u32| gathered.contains(x) <==> is_divisor(x as nat, n),
        sorted.to_multiset() == gathered.to_multiset(),
        is_sorted(sorted),
    ensures
        numbers(sorted) == divisors_of(n),
{
    broadcast use vstd::seq_lib::group_to_multiset_ensures;

    gathered.lemma_multiset_has_no_duplicates();
    sorted.lemma_multiset_has_no_duplicates_conv();
    let s = numbers(sorted);
    let test = divisor_test(n);
    assert forall|i: int, j: int| 0 <= i < j < s.len() implies s[i] < s[j] by {
        assert(sorted[i] <= sorted[j]);
        assert(sorted[i] != sorted[j]);
    }
    assert forall|i: int| 0 <= i < s.len() implies test(#[trigger] s[i]) && s[i] < n + 1 by {
        assert(sorted.contains(sorted[i]));
        assert(sorted.to_multiset().count(sorted[i]) > 0);
        assert(gathered.to_multiset().count(sorted[i]) > 0);
        assert(gathered.contains(sorted[i]));
    }
    assert forall|x: nat| #[trigger] test(x) && x < n + 1 implies s.contains(x) by {
        assert(gathered.contains(x as u32));
        assert(gathered.to_multiset().count(x as u32) > 0);
        assert(sorted.to_multiset().count(x as u32) > 0);
        assert(sorted.contains(x as u32));
        let i = choose|i: int| 0 <= i < sorted.len() && sorted[i] == x as u32;
        assert(s[i] == x);
    }
    assert(is_ascending_list_of(s, test, n + 1));
    lemma_ascending_list_unique(s, test, n + 1);
}

} // verus!
