//! The largest product of adjacent digits in a long number, found by
//! sliding a window over its digits.

use crate::decimal::{all_digits, char_to_digit, digit_value, is_digit_char};
use vstd::prelude::*;
use vstd::string::{StrSliceExecFns, StringExecFns};

verus! {

/// The number whose digits are searched.
pub const NUMBER: &'static str = "7316717653133062491922511967442657474235534919493496983520312774506326239578318016984801869478851843858615607891129494954595017379583319528532088055111254069874715852386305071569329096329522744304355766896648950445244523161731856403098711121722383113622298934233803081353362766142828064444866452387493035890729629049156044077239071381051585930796086670172427121883998797908792274921901699720888093776657273330010533678812202354218097512545405947522435258490771167055601360483958644670632441572215539753697817977846174064955149290862569321978468622482839722413756570560574902614079729686524145351004748216637048440319989000889524345065854122758866688116427171479924442928230863465674813919123162824586178664583591245665294765456828489128831426076900422421902267105562632111110937054421750694165896040807198403850962455444362981230987879927244284909188845801561660979191338754992005240636899125607176060588611646710940507754100225698315520005593572972571636269561882670428252483600823257530420752963450";

/// The number consists of one thousand decimal digits.
pub proof fn lemma_number_digits()
    ensures
        NUMBER@.len() == 1000,
        all_digits(NUMBER@),
{
    reveal_strlit("7316717653133062491922511967442657474235534919493496983520312774506326239578318016984801869478851843858615607891129494954595017379583319528532088055111254069874715852386305071569329096329522744304355766896648950445244523161731856403098711121722383113622298934233803081353362766142828064444866452387493035890729629049156044077239071381051585930796086670172427121883998797908792274921901699720888093776657273330010533678812202354218097512545405947522435258490771167055601360483958644670632441572215539753697817977846174064955149290862569321978468622482839722413756570560574902614079729686524145351004748216637048440319989000889524345065854122758866688116427171479924442928230863465674813919123162824586178664583591245665294765456828489128831426076900422421902267105562632111110937054421750694165896040807198403850962455444362981230987879927244284909188845801561660979191338754992005240636899125607176060588611646710940507754100225698315520005593572972571636269561882670428252483600823257530420752963450");
}


/// The product of the digits that `s` stands for; one for no digit.
pub open spec fn digit_product(s: Seq<char>) -> nat
    decreases s.len(),
{
    if s.len() == 0 {
        1
    } else {
        digit_product(s.drop_last()) * digit_value(s.last())
    }
}

/// The `size` characters of `number` from index `index` on, or as many as there are.
pub open spec fn window_at(number: Seq<char>, index: nat, size: nat) -> Seq<char> {
    let start = if index <= number.len() {
        index
    } else {
        number.len()
    };
    let end = if index + size <= number.len() {
        index + size
    } else {
        number.len()
    };
    number.subrange(start as int, end as int)
}

/// The product of each beginning of `window` fits in a `usize`.
pub open spec fn products_fit(window: Seq<char>) -> bool {
    forall|k: int| 0 <= k <= window.len() ==> #[trigger] digit_product(window.take(k)) <= usize::MAX
}

/// The largest of `floor` and the products of the `count` windows of `size`
/// digits of `number` from index `first` on.
pub open spec fn max_window_product(
    number: Seq<char>,
    size: nat,
    first: nat,
    count: nat,
    floor: nat,
) -> nat
    decreases count,
{
    if count == 0 {
        floor
    } else {
        let before = max_window_product(number, size, first, (count - 1) as nat, floor);
        let product = digit_product(window_at(number, (first + count - 1) as nat, size));
        if product > before {
            product
        } else {
            before
        }
    }
}

/// Slides a window over the number until the window has reached its end,
/// and returns the largest product of a window's digits that was seen.
pub fn find_max_product(windower: &mut Windower) -> (r: usize)
    requires
        all_digits(old(windower).number@),
        old(windower).window_size <= old(windower).number@.len(),
        old(windower).last_index() <= usize::MAX,
        forall|i: nat|
            old(windower).index < i <= old(windower).last_index() ==> products_fit(
                #[trigger] window_at(old(windower).number@, i, old(windower).window_size as nat),
            ),
    ensures
        r == final(windower).current_max_product,
        r == max_window_product(
            old(windower).number@,
            old(windower).window_size as nat,
            (old(windower).index + 1) as nat,
            (old(windower).number@.len() - old(windower).window_size) as nat,
            old(windower).current_max_product as nat,
        ),
        final(windower).number@ == old(windower).number@,
        final(windower).window_size == old(windower).window_size,
        final(windower).index == old(windower).last_index(),
        final(windower).current_window@ == if final(windower).index == old(windower).index {
            old(windower).current_window@
        } else {
            final(windower).spec_window()
        },
{
    let n_iter = windower.len() - windower.get_window_size();
    let mut done: usize = 0;
    while done < n_iter
        invariant
            done <= n_iter,
            n_iter == old(windower).number@.len() - old(windower).window_size,
            windower.number@ == old(windower).number@,
            windower.window_size == old(windower).window_size,
            windower.index == old(windower).index + done,
            all_digits(windower.number@),
            old(windower).index + n_iter <= usize::MAX,
            forall|i: nat|
                old(windower).index < i <= old(windower).index + n_iter ==> products_fit(
                    #[trigger] window_at(
                        old(windower).number@,
                        i,
                        old(windower).window_size as nat,
                    ),
                ),
            windower.current_max_product == max_window_product(
                old(windower).number@,
                old(windower).window_size as nat,
                (old(windower).index + 1) as nat,
                done as nat,
                old(windower).current_max_product as nat,
            ),
            done > 0 ==> windower.current_window@ == window_at(
                windower.number@,
                windower.index as nat,
                windower.window_size as nat,
            ),
            done == 0 ==> windower.current_window@ == old(windower).current_window@,
        decreases n_iter - done,
    {
        proof {
            assert(products_fit(
                window_at(
                    old(windower).number@,
                    (windower.index + 1) as nat,
                    old(windower).window_size as nat,
                ),
            ));
        }
        windower.next();
        proof {
            let window = window_at(
                old(windower).number@,
                windower.index as nat,
                old(windower).window_size as nat,
            );
            assert(window.take(window.len() as int) =~= window);
            assert(digit_product(window) <= usize::MAX);
            assert((old(windower).index + 1 + (done + 1) - 1) as nat == windower.index as nat);
        }
        done += 1;
    }
    windower.get_current_max_product()
}

/// A window of adjacent digits of a number, and the largest product of a
/// window's digits that has been seen.
#[derive(Debug, PartialEq)]
pub struct Windower {
    pub number: String,
    pub window_size: usize,
    pub current_window: Vec<char>,
    pub current_max_product: usize,
    pub index: usize,
}

impl Windower {
    /// The index at which a window that slides on from here reaches the end of the number.
    pub open spec fn last_index(&self) -> int {
        self.index + self.number@.len() - self.window_size
    }

    /// The window at the index, as the number and the window's size give it.
    pub open spec fn spec_window(&self) -> Seq<char> {
        window_at(self.number@, self.index as nat, self.window_size as nat)
    }

    /// A window of `window_size` digits at the beginning of `NUMBER`.
    pub fn new(window_size: usize) -> (r: Self)
        requires
            products_fit(window_at(NUMBER@, 0, window_size as nat)),
        ensures
            r.number@ == NUMBER@,
            r.window_size == window_size,
            r.current_window@ == window_at(NUMBER@, 0, window_size as nat),
            r.current_max_product == digit_product(r.current_window@),
            r.index == 0,
    {
        proof {
            lemma_number_digits();
        }
        let number = String::from_str(NUMBER);
        let current_window = Self::window_of(number.as_str(), 0, window_size);
        proof {
            lemma_window_digits(NUMBER@, 0, window_size as nat);
        }
        let current_max_product = Self::product_of(&current_window);
        Windower { number, window_size, current_window, current_max_product, index: 0 }
    }

    /// The `size` characters of `number` from index `index` on, or as many as there are.
    pub fn window_of(number: &str, index: usize, size: usize) -> (r: Vec<char>)
        ensures
            r@ == window_at(number@, index as nat, size as nat),
    {
        let n = number.unicode_len();
        let mut window: Vec<char> = Vec::new();
        let start = if index <= n {
            index
        } else {
            n
        };
        let mut i = start;
        assert(window@ =~= number@.subrange(start as int, i as int));
        while i < n && window.len() < size
            invariant
                n == number@.len(),
                start <= i <= n,
                window@ == number@.subrange(start as int, i as int),
                window@.len() <= size,
            decreases n - i,
        {
            window.push(number.get_char(i));
            i += 1;
            assert(window@ =~= number@.subrange(start as int, i as int));
        }
        assert(window@ =~= window_at(number@, index as nat, size as nat));
        window
    }

    /// The product of the digits that `window` stands for.
    pub fn product_of(window: &Vec<char>) -> (r: usize)
        requires
            all_digits(window@),
            products_fit(window@),
        ensures
            r == digit_product(window@),
    {
        let mut product: usize = 1;
        let mut i: usize = 0;
        assert(window@.take(0) =~= Seq::<char>::empty());
        while i < window.len()
            invariant
                i <= window@.len(),
                all_digits(window@),
                products_fit(window@),
                product == digit_product(window@.take(i as int)),
            decreases window@.len() - i,
        {
            proof {
                assert(window@.take(i + 1).drop_last() =~= window@.take(i as int));
                assert(digit_product(window@.take(i + 1)) <= usize::MAX);
                assert(is_digit_char(window@[i as int]));
            }
            let digit = match char_to_digit(window[i]) {
                Some(d) => d as usize,
                None => vstd::pervasive::unreached(),
            };
            product = product * digit;
            i += 1;
        }
        assert(window@.take(window@.len() as int) =~= window@);
        product
    }

    /// The product of the digits in the window.
    pub fn prod(&self) -> (r: usize)
        requires
            all_digits(self.current_window@),
            products_fit(self.current_window@),
        ensures
            r == digit_product(self.current_window@),
    {
        Self::product_of(&self.current_window)
    }

    /// Moves the window one digit on.
    pub fn increment_window(&mut self)
        requires
            old(self).index < usize::MAX,
        ensures
            final(self).index == old(self).index + 1,
            final(self).current_window@ == window_at(
                old(self).number@,
                (old(self).index + 1) as nat,
                old(self).window_size as nat,
            ),
            final(self).number == old(self).number,
            final(self).window_size == old(self).window_size,
            final(self).current_max_product == old(self).current_max_product,
    {
        self.index += 1;
        self.current_window = Self::window_of(self.number.as_str(), self.index, self.window_size);
    }

    /// The largest product of a window's digits that has been seen.
    pub fn get_current_max_product(&self) -> (r: usize)
        ensures
            r == self.current_max_product,
    {
        self.current_max_product
    }

    /// The number that the window slides over.
    pub fn get_number(&self) -> (r: String)
        ensures
            r@ == self.number@,
    {
        self.number.clone()
    }

    /// The number of digits in a full window.
    pub fn get_window_size(&self) -> (r: usize)
        ensures
            r == self.window_size,
    {
        self.window_size
    }

    /// The number of digits of the number.
    pub fn len(&self) -> (r: usize)
        requires
            all_digits(self.number@),
        ensures
            r == self.number@.len(),
    {
        self.number.as_str().unicode_len()
    }

    /// Moves the window one digit on, keeps the product of its digits
    /// where that is larger than any seen, and returns the product.
    pub fn next(&mut self) -> (r: Option<usize>)
        requires
            old(self).index < usize::MAX,
            all_digits(old(self).number@),
            products_fit(
                window_at(
                    old(self).number@,
                    (old(self).index + 1) as nat,
                    old(self).window_size as nat,
                ),
            ),
        ensures
            final(self).index == old(self).index + 1,
            final(self).current_window@ == window_at(
                old(self).number@,
                (old(self).index + 1) as nat,
                old(self).window_size as nat,
            ),
            final(self).number == old(self).number,
            final(self).window_size == old(self).window_size,
            r == Some(digit_product(final(self).current_window@) as usize),
            final(self).current_max_product == if r.unwrap() > old(self).current_max_product {
                r.unwrap()
            } else {
                old(self).current_max_product
            },
    {
        self.increment_window();
        proof {
            lemma_window_digits(
                self.number@,
                self.index as nat,
                self.window_size as nat,
            );
            assert(self.current_window@.take(self.current_window@.len() as int)
                =~= self.current_window@);
        }
        let product = self.prod();
        if product > self.current_max_product {
            self.current_max_product = product;
        }
        Some(product)
    }
}

/// A window of a number of digits consists of digits.
pub proof fn lemma_window_digits(number: Seq<char>, index: nat, size: nat)
    requires
        all_digits(number),
    ensures
        all_digits(window_at(number, index, size)),
        window_at(number, index, size).len() <= size,
{
    let window = window_at(number, index, size);
    assert forall|i: int| 0 <= i < window.len() implies is_digit_char(#[trigger] window[i]) by {
        let start = if index <= number.len() {
            index
        } else {
            number.len()
        };
        assert(is_digit_char(number[start + i]));
    }
}

} // verus!
