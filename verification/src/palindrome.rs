//! Palindromes: strings that read the same in both directions, and the
//! largest product of two numbers of a range whose decimal numeral is one.

use crate::decimal::{decimal_digits, to_decimal_string};
use vstd::prelude::*;
use vstd::string::StrSliceExecFns;

verus! {

/// Whether `s` reads the same in both directions.
pub open spec fn reads_both_ways(s: Seq<char>) -> bool {
    s == s.reverse()
}

/// Whether the decimal numeral of `n` reads the same in both directions.
pub open spec fn is_palindromic(n: nat) -> bool {
    reads_both_ways(decimal_digits(n))
}

/// The product of `a` and `b`.
pub open spec fn product(a: nat, b: nat) -> nat {
    a * b
}

/// Whether `p` is a product of two numbers from `low` to `high` whose numeral is a palindrome.
pub open spec fn is_palindrome_product(p: nat, low: nat, high: nat) -> bool {
    is_palindromic(p) && exists|a: nat, b: nat|
        low <= a <= high && low <= b <= high && #[trigger] product(a, b) == p
}

/// Whether `s` reads the same in both directions.
pub fn is_palindrome(s: &str) -> (r: bool)
    ensures
        r == reads_both_ways(s@),
{
    let n = s.unicode_len();
    let mut i: usize = 0;
    while i < n / 2
        invariant
            n == s@.len(),
            i <= n / 2,
            forall|j: int| 0 <= j < i ==> #[trigger] s@[j] == s@[n - 1 - j],
        decreases n - i,
    {
        if s.get_char(i) != s.get_char(n - 1 - i) {
            assert(s@.reverse()[i as int] == s@[n - 1 - i]);
            return false;
        }
        i += 1;
    }
    proof {
        assert forall|j: int| 0 <= j < n implies s@[j] == s@.reverse()[j] by {
            if j >= n / 2 {
                assert(s@[n - 1 - j] == s@[n - 1 - (n - 1 - j)]);
            }
        }
        assert(s@ =~= s@.reverse());
    }
    true
}

/// Whether the decimal numeral of `n` is a palindrome.
pub fn is_palindrome_number(n: u64) -> (r: bool)
    ensures
        r == is_palindromic(n as nat),
{
    let numeral = to_decimal_string(n);
    is_palindrome(numeral.as_str())
}

/// The largest product of two numbers from `low` to `high` whose decimal
/// numeral is a palindrome, if there is one.
pub fn largest_palindrome_product(low: u32, high: u32) -> (r: Option<u64>)
    ensures
        match r {
            Some(p) => {
                &&& is_palindrome_product(p as nat, low as nat, high as nat)
                &&& forall|a: nat, b: nat|
                    low <= a <= high && low <= b <= high && is_palindromic(#[trigger] product(a, b))
                        ==> a * b <= p
            },
            None => forall|a: nat, b: nat|
                low <= a <= high && low <= b <= high ==> !is_palindromic(#[trigger] product(a, b)),
        },
{
    let mut best: Option<u64> = None;
    if low > high {
        return None;
    }
    let mut x1: u32 = low;
    loop
        invariant_except_break
            match best {
                Some(p) => {
                    &&& is_palindrome_product(p as nat, low as nat, high as nat)
                    &&& forall|a: nat, b: nat|
                        low <= a < x1 && low <= b <= high && is_palindromic(#[trigger] product(a, b))
                            ==> a * b <= p
                },
                None => forall|a: nat, b: nat|
                    low <= a < x1 && low <= b <= high ==> !is_palindromic(#[trigger] product(a, b)),
            },
        invariant
            low <= x1 <= high,
        ensures
            match best {
                Some(p) => {
                    &&& is_palindrome_product(p as nat, low as nat, high as nat)
                    &&& forall|a: nat, b: nat|
                        low <= a <= high && low <= b <= high && is_palindromic(
                            #[trigger] product(a, b),
                        ) ==> a * b <= p
                },
                None => forall|a: nat, b: nat|
                    low <= a <= high && low <= b <= high ==> !is_palindromic(#[trigger] product(a, b)),
            },
        decreases high - x1,
    {
        let mut x2: u32 = low;
        loop
            invariant_except_break
                match best {
                    Some(p) => {
                        &&& is_palindrome_product(p as nat, low as nat, high as nat)
                        &&& forall|a: nat, b: nat|
                            low <= a <= high && low <= b <= high && (a < x1 || (a == x1 && b
                                < x2)) && is_palindromic(#[trigger] product(a, b)) ==> a * b <= p
                    },
                    None => forall|a: nat, b: nat|
                        low <= a <= high && low <= b <= high && (a < x1 || (a == x1 && b < x2))
                            ==> !is_palindromic(#[trigger] product(a, b)),
                },
            invariant
                low <= x1 <= high,
                low <= x2 <= high,
            ensures
                match best {
                    Some(p) => {
                        &&& is_palindrome_product(p as nat, low as nat, high as nat)
                        &&& forall|a: nat, b: nat|
                            low <= a < x1 + 1 && low <= b <= high && is_palindromic(
                                #[trigger] product(a, b),
                            ) ==> a * b <= p
                    },
                    None => forall|a: nat, b: nat|
                        low <= a < x1 + 1 && low <= b <= high ==> !is_palindromic(
                            #[trigger] product(a, b),
                        ),
                },
            decreases high - x2,
        {
            assert(x1 * x2 <= 0xffff_ffff * 0xffff_ffff) by (nonlinear_arith)
                requires
                    0 <= x1 <= 0xffff_ffff,
                    0 <= x2 <= 0xffff_ffff,
            ;
            let prod: u64 = x1 as u64 * x2 as u64;
            if is_palindrome_number(prod) {
                let better = match best {
                    Some(p) => prod > p,
                    None => true,
                };
                if better {
                    best = Some(prod);
                }
                assert(is_palindrome_product(prod as nat, low as nat, high as nat)) by {
                    assert(low <= x1 as nat <= high && low <= x2 as nat <= high && product(
                        x1 as nat,
                        x2 as nat,
                    ) == prod);
                }
            }
            if x2 == high {
                break ;
            }
            x2 += 1;
        }
        if x1 == high {
            break ;
        }
        x1 += 1;
    }
    best
}

} // verus!
