//! Solvers for small numeric puzzles, with contracts that are checked by
//! Verus: sums of multiples, Fibonacci numbers, primes and their
//! enumeration below a bound, palindromes, products of adjacent digits and
//! grid numbers, Pythagorean triplets, triangular numbers and divisors,
//! sums of long numbers, Collatz sequences, and paths over a lattice.
//!
//! The enumeration of primes is the centre: `number_theory` defines what is
//! prime and the ascending sequence of the primes below a bound,
//! `prime_lists` connects lists of machine integers to it, `prime_growth`
//! extends such a list by its next prime, and `prime_generator`
//! enumerates, by trial division for small bounds and by a sieve and a
//! fan-out over worker threads for large ones.

pub mod add_two_numbers;
pub mod binomial;
pub mod collatz_generator;
pub mod decimal;
pub mod fibonacci;
pub mod grid_product;
pub mod integer_factorizer;
pub mod largest_prime_factor;
pub mod largest_product_in_a_series;
pub mod lattice_path;
pub mod multiples_of;
pub mod number_theory;
pub mod palindrome;
pub mod path_counting;
pub mod prime_generator;
pub mod prime_getter;
pub mod prime_growth;
pub mod prime_lists;
pub mod primes;
pub mod simpler_prime_getter;
pub mod square_lattice;
pub mod sum_square_difference;
pub mod triangular_number_maker;
pub mod triangular_numbers;
pub mod triplet;
