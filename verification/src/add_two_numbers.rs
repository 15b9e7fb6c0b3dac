//! Addition of numbers that are written as strings of decimal digits, column
//! by column with carries, as on paper.

use crate::decimal::{
    all_digits, char_to_digit, decimal_digits, decimal_value, digit_char, digit_str,
    digit_value, is_digit_char, lemma_decimal_digits_value, to_decimal_string,
};
use vstd::arithmetic::div_mod::lemma_fundamental_div_mod_converse;
use vstd::prelude::*;
use vstd::string::{StrSliceExecFns, StringExecFns};

verus! {

/// The largest sum that a column may hold before the carries are passed on.
pub const MAX_COLUMN_SUM: u32 = 3_865_470_565;

/// The largest carry that a column passes on.
pub const MAX_CARRY: u32 = 429_496_729;

/// The largest number of numbers that can be added at once.
pub const MAX_ADDENDS: usize = 429_496_729;

/// Ten to the power of `n`.
pub open spec fn pow10(n: nat) -> nat
    decreases n,
{
    if n == 0 {
        1
    } else {
        10 * pow10((n - 1) as nat)
    }
}

/// The digits that `s` stands for, behind as many zeros as `size` exceeds the length of `s`.
pub open spec fn padded_digits(s: Seq<char>, size: nat) -> Seq<u32> {
    Seq::new(
        size,
        |i: int|
            if i < size - s.len() {
                0u32
            } else {
                digit_value(s[i - (size - s.len())]) as u32
            },
    )
}

/// The number that the columns `cells` stand for, the last column counting
/// ones; a column may hold more than nine.
pub open spec fn cells_value(cells: Seq<u32>) -> nat
    decreases cells.len(),
{
    if cells.len() == 0 {
        0
    } else {
        10 * cells_value(cells.drop_last()) + cells.last() as nat
    }
}

/// The `width` lowest decimal digits of `v`, highest first.
pub open spec fn fixed_width_digits(v: nat, width: nat) -> Seq<char>
    decreases width,
{
    if width == 0 {
        Seq::empty()
    } else {
        fixed_width_digits(v / 10, (width - 1) as nat).push(digit_char(v % 10))
    }
}

/// The characters of the columns `cells`, each of which holds one digit.
pub open spec fn cell_chars(cells: Seq<u32>) -> Seq<char> {
    Seq::new(cells.len(), |i: int| digit_char(cells[i] as nat))
}

/// How a sum is written in `width` columns: the `width` lowest digits of
/// `total`, and before them the numeral of what does not fit in them, if
/// anything.
pub open spec fn sum_numeral(total: nat, width: nat) -> Seq<char> {
    let overflow = total / pow10(width);
    (if overflow == 0 {
        Seq::empty()
    } else {
        decimal_digits(overflow)
    }) + fixed_width_digits(total % pow10(width), width)
}

/// The length of the longest of `nums`.
pub open spec fn longest(nums: Seq<NumVec>) -> nat
    decreases nums.len(),
{
    if nums.len() == 0 {
        0
    } else {
        let rest = longest(nums.drop_last());
        if nums.last().0@.len() > rest {
            nums.last().0@.len()
        } else {
            rest
        }
    }
}

/// The sum of the numbers that `nums` stand for.
pub open spec fn total_value(nums: Seq<NumVec>) -> nat
    decreases nums.len(),
{
    if nums.len() == 0 {
        0
    } else {
        total_value(nums.drop_last()) + decimal_value(nums.last().0@)
    }
}

/// Every one of `nums` consists of digits.
pub open spec fn all_valid(nums: Seq<NumVec>) -> bool {
    forall|i: int| 0 <= i < nums.len() ==> all_digits((#[trigger] nums[i]).0@)
}

/// A number written as a string of decimal digits.
#[derive(Debug, PartialEq)]
pub struct NumVec(pub String);

impl NumVec {
    /// Whether every character is a decimal digit.
    pub fn is_each_digit_valid(&self) -> (r: bool)
        ensures
            r == all_digits(self.0@),
    {
        let s = self.0.as_str();
        let n = s.unicode_len();
        let mut i: usize = 0;
        while i < n
            invariant
                s@ == self.0@,
                n == s@.len(),
                i <= n,
                forall|j: int| 0 <= j < i ==> is_digit_char(#[trigger] s@[j]),
            decreases n - i,
        {
            if char_to_digit(s.get_char(i)).is_none() {
                assert(!is_digit_char(self.0@[i as int]));
                return false;
            }
            i += 1;
        }
        true
    }

    /// The number that `num` writes.
    pub fn new(num: String) -> (r: Self)
        requires
            all_digits(num@),
        ensures
            r.0@ == num@,
    {
        NumVec(num)
    }

    /// The number that `s` writes, or nothing where `s` holds anything but digits.
    pub fn from_str(s: &str) -> (r: Result<Self, ()>)
        ensures
            match r {
                Ok(num) => all_digits(s@) && num.0@ == s@,
                Err(_) => !all_digits(s@),
            },
    {
        let candidate = NumVec(String::from_str(s));
        if candidate.is_each_digit_valid() {
            Ok(candidate)
        } else {
            Err(())
        }
    }

    /// The number of digits.
    pub fn len(&self) -> (r: usize)
        requires
            all_digits(self.0@),
        ensures
            r == self.0@.len(),
    {
        self.0.as_str().unicode_len()
    }

    /// Whether there is no digit.
    #[must_use]
    pub fn is_empty(&self) -> (r: bool)
        requires
            all_digits(self.0@),
        ensures
            r == (self.0@.len() == 0),
    {
        self.len() == 0
    }

    /// The digit at place `n`, counted from the highest place.
    pub fn n_from_start(&self, n: usize) -> (r: u32)
        requires
            all_digits(self.0@),
            n < self.0@.len(),
        ensures
            r == digit_value(self.0@[n as int]),
    {
        let digit = self.0.as_str().get_char(n);
        match char_to_digit(digit) {
            Some(d) => d,
            None => vstd::pervasive::unreached(),
        }
    }

    /// The digit at place `n`, counted from the lowest place.
    pub fn n_from_end(&self, n: usize) -> (r: u32)
        requires
            all_digits(self.0@),
            n < self.0@.len(),
        ensures
            r == digit_value(self.0@[self.0@.len() - 1 - n]),
    {
        let len = self.len();
        let index = len - n - 1;
        self.n_from_start(index)
    }

    /// The digits in `size` columns, with zeros in the columns that the number does not reach.
    pub fn to_vec_with_size(&self, size: usize) -> (r: Vec<u32>)
        requires
            all_digits(self.0@),
            self.0@.len() <= size,
        ensures
            r@ == padded_digits(self.0@, size as nat),
    {
        let mut vec: Vec<u32> = vec![0; size];
        let len = self.len();
        let mut i: usize = 0;
        while i < len
            invariant
                len == self.0@.len(),
                all_digits(self.0@),
                len <= size,
                i <= len,
                vec@.len() == size,
                forall|j: int| 0 <= j < size - len ==> vec@[j] == 0,
                forall|j: int| size - len + i <= j < size ==> vec@[j] == 0,
                forall|j: int|
                    size - len <= j < size - len + i ==> vec@[j] == digit_value(
                        self.0@[j - (size - len)],
                    ),
            decreases len - i,
        {
            let digit = self.n_from_start(i);
            vec[size - len + i] = digit;
            i += 1;
        }
        assert(vec@ =~= padded_digits(self.0@, size as nat));
        vec
    }

    /// The sum of the numbers `nums`, written in as many columns as the
    /// longest of them has, with what does not fit in these before them.
    pub fn add_digits(nums: Vec<Self>) -> (r: Self)
        requires
            1 <= nums@.len() <= MAX_ADDENDS,
            all_valid(nums@),
        ensures
            r.0@ == sum_numeral(total_value(nums@), longest(nums@)),
            all_digits(r.0@),
    {
        let mut len: usize = 0;
        let mut i: usize = 0;
        while i < nums.len()
            invariant
                i <= nums@.len(),
                all_valid(nums@),
                len == longest(nums@.take(i as int)),
            decreases nums@.len() - i,
        {
            proof {
                assert(nums@.take(i + 1).drop_last() =~= nums@.take(i as int));
                assert(all_digits(nums@[i as int].0@));
            }
            let n = nums[i].len();
            if n > len {
                len = n;
            }
            i += 1;
        }
        assert(nums@.take(nums@.len() as int) =~= nums@);
        let mut sum_vector: Vec<u32> = vec![0; len];
        proof {
            lemma_zero_cells(sum_vector@);
            assert(nums@.take(0) =~= Seq::<NumVec>::empty());
        }
        let mut k: usize = 0;
        while k < nums.len()
            invariant
                k <= nums@.len() <= MAX_ADDENDS,
                all_valid(nums@),
                len == longest(nums@),
                sum_vector@.len() == len,
                forall|j: int| 0 <= j < len ==> #[trigger] sum_vector@[j] <= 9 * k,
                cells_value(sum_vector@) == total_value(nums@.take(k as int)),
            decreases nums@.len() - k,
        {
            proof {
                assert(nums@.take(k + 1).drop_last() =~= nums@.take(k as int));
                assert(all_digits(nums@[k as int].0@));
                lemma_longest_bounds(nums@, k as int);
                lemma_padded_value(nums@[k as int].0@, len as nat);
            }
            let vec = nums[k].to_vec_with_size(len);
            proof {
                lemma_cells_sum(sum_vector@, vec@);
            }
            sum_vector = Self::get_element_wise_sum_vector(len, sum_vector, vec);
            k += 1;
        }
        assert(nums@.take(nums@.len() as int) =~= nums@);
        let result = Self::convert_sum_vector_to_sum_string(len, &mut sum_vector);
        proof {
            lemma_sum_numeral_digits(total_value(nums@), len as nat);
        }
        NumVec::new(result)
    }

    /// The column-wise sums of the first `len` columns of `vec1` and `vec2`.
    pub fn get_element_wise_sum_vector(len: usize, vec1: Vec<u32>, vec2: Vec<u32>) -> (r: Vec<u32>)
        requires
            len <= vec1@.len(),
            len <= vec2@.len(),
            forall|i: int| 0 <= i < len ==> vec1@[i] + vec2@[i] <= u32::MAX,
        ensures
            r@.len() == len,
            forall|i: int| 0 <= i < len ==> #[trigger] r@[i] == vec1@[i] + vec2@[i],
    {
        let mut sum_vector: Vec<u32> = vec![0; len];
        let mut i: usize = len;
        while i > 0
            invariant
                i <= len,
                len <= vec1@.len(),
                len <= vec2@.len(),
                sum_vector@.len() == len,
                forall|j: int| 0 <= j < len ==> vec1@[j] + vec2@[j] <= u32::MAX,
                forall|j: int| 0 <= j < i ==> sum_vector@[j] == 0,
                forall|j: int| i <= j < len ==> #[trigger] sum_vector@[j] == vec1@[j] + vec2@[j],
            decreases i,
        {
            i -= 1;
            let sum = sum_vector[i] + (vec1[i] + vec2[i]);
            sum_vector[i] = sum;
        }
        sum_vector
    }

    /// Passes the carries on from the lowest column up, so that each of the
    /// `len` columns holds one digit, and writes the sum: the digits of the
    /// columns, and before them the numeral of what was carried out of the
    /// highest column, if anything.
    pub fn convert_sum_vector_to_sum_string(len: usize, sum_vector: &mut Vec<u32>) -> (r: String)
        requires
            old(sum_vector)@.len() == len,
            forall|i: int| 0 <= i < len ==> #[trigger] old(sum_vector)@[i] <= MAX_COLUMN_SUM,
        ensures
            r@ == sum_numeral(cells_value(old(sum_vector)@), len as nat),
            final(sum_vector)@.len() == len,
            forall|i: int| 0 <= i < len ==> #[trigger] final(sum_vector)@[i] <= 9,
            cells_value(final(sum_vector)@) == cells_value(old(sum_vector)@) % pow10(len as nat),
    {
        let ghost total = cells_value(sum_vector@);
        let mut sum_overflow: u32 = 0;
        let mut i: usize = len;
        proof {
            lemma_pow10_positive(len as nat);
        }
        while i > 0
            invariant
                i <= len,
                sum_vector@.len() == len,
                cells_value(sum_vector@) + sum_overflow * pow10(len as nat) == total,
                forall|j: int| i <= j < len ==> #[trigger] sum_vector@[j] <= 9,
                forall|j: int| 0 <= j < i - 1 ==> #[trigger] sum_vector@[j] <= MAX_COLUMN_SUM,
                i > 0 ==> sum_vector@[i - 1] <= MAX_COLUMN_SUM + MAX_CARRY,
                i > 0 ==> sum_overflow == 0,
                sum_overflow <= MAX_CARRY,
            decreases i,
        {
            i -= 1;
            let ghost start = sum_vector@[i as int];
            let ghost mut carried: nat = 0;
            while sum_vector[i] >= 10
                invariant
                    i < len,
                    sum_vector@.len() == len,
                    cells_value(sum_vector@) + sum_overflow * pow10(len as nat) == total,
                    forall|j: int| i < j < len ==> #[trigger] sum_vector@[j] <= 9,
                    forall|j: int| 0 <= j < i - 1 ==> #[trigger] sum_vector@[j] <= MAX_COLUMN_SUM,
                    start <= MAX_COLUMN_SUM + MAX_CARRY,
                    sum_vector@[i as int] + 10 * carried == start,
                    i > 0 ==> sum_vector@[i - 1] <= MAX_COLUMN_SUM + carried,
                    i > 0 ==> sum_overflow == 0,
                    i == 0 ==> sum_overflow == carried,
                decreases sum_vector@[i as int],
            {
                let ghost before = sum_vector@;
                let lowered = sum_vector[i] - 10;
                sum_vector[i] = lowered;
                proof {
                    lemma_cells_update(before, i as int, lowered);
                }
                if i == 0 {
                    sum_overflow += 1;
                    proof {
                        assert(pow10(len as nat) == 10 * pow10((len - 1) as nat));
                        assert(cells_value(sum_vector@) + sum_overflow * pow10(len as nat)
                            == total) by (nonlinear_arith)
                            requires
                                cells_value(sum_vector@) - cells_value(before) == (lowered
                                    - before[0]) * pow10((len - 1 - 0) as nat),
                                lowered - before[0] == -10,
                                pow10(len as nat) == 10 * pow10((len - 1) as nat),
                                cells_value(before) + (sum_overflow - 1) * pow10(len as nat)
                                    == total,
                        ;
                    }
                } else {
                    let ghost lowered_cells = sum_vector@;
                    let raised = sum_vector[i - 1] + 1;
                    sum_vector[i - 1] = raised;
                    proof {
                        lemma_cells_update(lowered_cells, i - 1, raised);
                        assert(pow10((len - i) as nat) == 10 * pow10((len - 1 - i) as nat));
                        assert(cells_value(sum_vector@) == cells_value(before))
                            by (nonlinear_arith)
                            requires
                                cells_value(lowered_cells) - cells_value(before) == (lowered
                                    - before[i as int]) * pow10((len - 1 - i) as nat),
                                cells_value(sum_vector@) - cells_value(lowered_cells) == (raised
                                    - lowered_cells[i - 1]) * pow10((len - 1 - (i - 1)) as nat),
                                lowered - before[i as int] == -10,
                                raised - lowered_cells[i - 1] == 1,
                                pow10((len - 1 - (i - 1)) as nat) == 10 * pow10(
                                    (len - 1 - i) as nat,
                                ),
                        ;
                    }
                }
                proof {
                    carried = carried + 1;
                }
            }
        }
        proof {
            lemma_digit_cells(sum_vector@);
            lemma_fundamental_div_mod_converse(
                total as int,
                pow10(len as nat) as int,
                sum_overflow as int,
                cells_value(sum_vector@) as int,
            );
        }
        let mut result = if sum_overflow != 0 {
            to_decimal_string(sum_overflow as u64)
        } else {
            String::new()
        };
        let ghost head = result@;
        let mut j: usize = 0;
        assert(result@ =~= head + cell_chars(sum_vector@.take(0)));
        while j < len
            invariant
                j <= len,
                sum_vector@.len() == len,
                forall|k: int| 0 <= k < len ==> #[trigger] sum_vector@[k] <= 9,
                result@ == head + cell_chars(sum_vector@.take(j as int)),
            decreases len - j,
        {
            result.append(digit_str(sum_vector[j]));
            proof {
                assert(cell_chars(sum_vector@.take(j + 1)) =~= cell_chars(
                    sum_vector@.take(j as int),
                ).push(digit_char(sum_vector@[j as int] as nat)));
                assert(result@ =~= head + cell_chars(sum_vector@.take(j + 1)));
            }
            j += 1;
        }
        assert(sum_vector@.take(len as int) =~= sum_vector@);
        result
    }

    /// Takes the first digit away and returns it, if there is one.
    pub fn next(&mut self) -> (r: Option<char>)
        ensures
            old(self).0@.len() == 0 ==> r.is_none() && final(self).0@ == old(self).0@,
            old(self).0@.len() > 0 ==> r == Some(old(self).0@[0]),
            old(self).0@.len() > 0 ==> final(self).0@ == old(self).0@.drop_first(),
    {
        let n = self.0.as_str().unicode_len();
        if n == 0 {
            None
        } else {
            let first = self.0.as_str().get_char(0);
            let rest = String::from_str(self.0.as_str().substring_char(1, n));
            self.0 = rest;
            Some(first)
        }
    }
}

/// Every power of ten is positive.
pub proof fn lemma_pow10_positive(n: nat)
    ensures
        pow10(n) > 0,
    decreases n,
{
    if n > 0 {
        lemma_pow10_positive((n - 1) as nat);
    }
}

/// Columns of zeros stand for zero.
pub proof fn lemma_zero_cells(cells: Seq<u32>)
    requires
        forall|i: int| 0 <= i < cells.len() ==> cells[i] == 0,
    ensures
        cells_value(cells) == 0,
    decreases cells.len(),
{
    if cells.len() > 0 {
        lemma_zero_cells(cells.drop_last());
    }
}

/// Changing the column at index `i` changes the value by the difference
/// times the weight of the column.
pub proof fn lemma_cells_update(cells: Seq<u32>, i: int, x: u32)
    requires
        0 <= i < cells.len(),
    ensures
        cells_value(cells.update(i, x)) - cells_value(cells) == (x - cells[i]) * pow10(
            (cells.len() - 1 - i) as nat,
        ),
    decreases cells.len(),
{
    let changed = cells.update(i, x);
    if i == cells.len() - 1 {
        assert(changed.drop_last() =~= cells.drop_last());
        assert((x - cells[i]) * pow10(0) == x - cells[i]) by (nonlinear_arith)
            requires
                pow10(0) == 1,
        ;
    } else {
        assert(changed.drop_last() =~= cells.drop_last().update(i, x));
        lemma_cells_update(cells.drop_last(), i, x);
        let weight = pow10((cells.len() - 2 - i) as nat);
        assert(pow10((cells.len() - 1 - i) as nat) == 10 * weight);
        assert(10 * ((x - cells[i]) * weight) == (x - cells[i]) * (10 * weight))
            by (nonlinear_arith);
    }
}

/// The value of column-wise sums is the sum of the values.
pub proof fn lemma_cells_sum(a: Seq<u32>, b: Seq<u32>)
    requires
        a.len() == b.len(),
    ensures
        forall|sum: Seq<u32>|
            sum.len() == a.len() && (forall|i: int|
                0 <= i < a.len() ==> #[trigger] sum[i] == a[i] + b[i]) ==> cells_value(sum)
                == cells_value(a) + cells_value(b),
    decreases a.len(),
{
    assert forall|sum: Seq<u32>|
        sum.len() == a.len() && (forall|i: int|
            0 <= i < a.len() ==> #[trigger] sum[i] == a[i] + b[i]) implies cells_value(sum)
        == cells_value(a) + cells_value(b) by {
        if a.len() > 0 {
            lemma_cells_sum(a.drop_last(), b.drop_last());
            let shorter = sum.drop_last();
            assert forall|i: int| 0 <= i < shorter.len() implies #[trigger] shorter[i]
                == a.drop_last()[i] + b.drop_last()[i] by {
                assert(sum[i] == a[i] + b[i]);
            }
            assert(sum[sum.len() - 1] == a[a.len() - 1] + b[b.len() - 1]);
        }
    }
}

/// Digits behind zeros stand for the number that the digits stand for.
pub proof fn lemma_padded_value(s: Seq<char>, size: nat)
    requires
        all_digits(s),
        s.len() <= size,
    ensures
        cells_value(padded_digits(s, size)) == decimal_value(s),
        forall|i: int| 0 <= i < size ==> #[trigger] padded_digits(s, size)[i] <= 9,
    decreases s.len(),
{
    let cells = padded_digits(s, size);
    assert forall|i: int| 0 <= i < size implies #[trigger] cells[i] <= 9 by {
        if i >= size - s.len() {
            assert(is_digit_char(s[i - (size - s.len())]));
        }
    }
    if s.len() == 0 {
        lemma_zero_cells(cells);
    } else {
        lemma_padded_value(s.drop_last(), (size - 1) as nat);
        assert(cells.drop_last() =~= padded_digits(s.drop_last(), (size - 1) as nat));
        assert(is_digit_char(s[s.len() - 1]));
    }
}

/// Columns of one digit each stand for a number below the power of ten of
/// their count, and are that number's digits.
pub proof fn lemma_digit_cells(cells: Seq<u32>)
    requires
        forall|i: int| 0 <= i < cells.len() ==> #[trigger] cells[i] <= 9,
    ensures
        cells_value(cells) < pow10(cells.len()),
        fixed_width_digits(cells_value(cells), cells.len()) == cell_chars(cells),
    decreases cells.len(),
{
    if cells.len() == 0 {
        assert(fixed_width_digits(0, 0) =~= cell_chars(cells));
    } else {
        lemma_digit_cells(cells.drop_last());
        let value = cells_value(cells);
        let shorter = cells_value(cells.drop_last());
        assert(cells[cells.len() - 1] <= 9);
        assert(value / 10 == shorter && value % 10 == cells.last());
        assert(fixed_width_digits(value, cells.len()) =~= cell_chars(cells));
    }
}

/// Each of the numbers is no longer than the longest of them.
pub proof fn lemma_longest_bounds(nums: Seq<NumVec>, i: int)
    requires
        0 <= i < nums.len(),
    ensures
        nums[i].0@.len() <= longest(nums),
    decreases nums.len(),
{
    if i < nums.len() - 1 {
        lemma_longest_bounds(nums.drop_last(), i);
    }
}

/// The digits of a fixed width are digits, as many as the width.
pub proof fn lemma_fixed_width_digits(v: nat, width: nat)
    ensures
        fixed_width_digits(v, width).len() == width,
        all_digits(fixed_width_digits(v, width)),
    decreases width,
{
    if width > 0 {
        lemma_fixed_width_digits(v / 10, (width - 1) as nat);
    }
}

/// A sum is written in digits only.
pub proof fn lemma_sum_numeral_digits(total: nat, width: nat)
    ensures
        all_digits(sum_numeral(total, width)),
{
    lemma_fixed_width_digits(total % pow10(width), width);
    lemma_decimal_digits_value(total / pow10(width));
}

} // verus!
