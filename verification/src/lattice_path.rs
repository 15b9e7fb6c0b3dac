//! Paths over a square lattice from its first node, by steps down and to
//! the right, and the count of the paths that reach the last node.

use crate::binomial::binomial;
use crate::decimal::{decimal_digits, to_decimal_string};
use crate::path_counting::lemma_complete_paths_are_binomial;
use crate::square_lattice::SquareLattice;
use vstd::arithmetic::div_mod::lemma_mod_multiples_basic;
use vstd::arithmetic::power2::{
    lemma2_to64, lemma2_to64_rest, lemma_pow2_strictly_increases, lemma_pow2_unfold, pow2,
};
use vstd::prelude::*;
use vstd::string::StringExecFns;

verus! {

/// The step that moves down.
pub const STEP_DOWN: u8 = 0;

/// The step that moves to the right.
pub const STEP_RIGHT: u8 = 1;

/// The largest lattice size for which all vectors of steps can be counted in a `u64`.
pub const MAX_ENUMERATED_SIZE: usize = 31;

/// The node reached from node `position` by `step`: the node below for a
/// step down, unless `position` is in the last row, the node to the right
/// otherwise, unless `position` is in the last column.
pub open spec fn step_position(size: nat, position: nat, step: u8) -> nat {
    if step == STEP_DOWN {
        if position <= (size + 1) * size {
            position + size + 1
        } else {
            position
        }
    } else {
        if position % (size + 1) != 0 {
            position + 1
        } else {
            position
        }
    }
}

/// The nodes visited from the first node by `steps`; a step that cannot be
/// taken visits nothing.
pub open spec fn trail(size: nat, steps: Seq<u8>) -> Seq<u64>
    decreases steps.len(),
{
    if steps.len() == 0 {
        seq![1u64]
    } else {
        let before = trail(size, steps.drop_last());
        let next = step_position(size, before.last() as nat, steps.last());
        if next != before.last() {
            before.push(next as u64)
        } else {
            before
        }
    }
}

/// The `width` lowest binary digits of `i`, highest first.
pub open spec fn path_vec_of(i: nat, width: nat) -> Seq<u8>
    decreases width,
{
    if width == 0 {
        Seq::empty()
    } else {
        path_vec_of(i / 2, (width - 1) as nat).push((i % 2) as u8)
    }
}

/// Whether every step of `steps` can be taken in turn on a lattice of size `size`.
pub open spec fn is_complete_walk(size: nat, steps: Seq<u8>) -> bool {
    trail(size, steps).len() == steps.len() + 1
}

/// How many of the first `limit` vectors of `2 * size` steps are complete walks.
pub open spec fn count_complete(size: nat, limit: nat) -> nat
    decreases limit,
{
    if limit == 0 {
        0
    } else {
        count_complete(size, (limit - 1) as nat) + if is_complete_walk(
            size,
            path_vec_of((limit - 1) as nat, 2 * size),
        ) {
            1nat
        } else {
            0nat
        }
    }
}

/// What is said of a vector of steps of the wrong length.
pub open spec fn length_message(expected: nat, actual: nat) -> Seq<char> {
    "Path vector must be of length "@ + decimal_digits(expected) + ", but is of length "@
        + decimal_digits(actual)
}

/// A trail is not empty, begins at the first node, stays within the lattice
/// and is no longer than its steps allow.
pub proof fn lemma_trail_bounds(size: nat, steps: Seq<u8>)
    requires
        (size + 1) * (size + 1) <= u64::MAX,
    ensures
        1 <= trail(size, steps).len() <= steps.len() + 1,
        forall|i: int|
            0 <= i < trail(size, steps).len() ==> 1 <= #[trigger] trail(size, steps)[i] <= (size
                + 1) * (size + 1),
    decreases steps.len(),
{
    let width = size + 1;
    assert(1 <= width * width) by (nonlinear_arith)
        requires
            width >= 1,
    ;
    if steps.len() > 0 {
        lemma_trail_bounds(size, steps.drop_last());
        let before = trail(size, steps.drop_last());
        let position = before.last() as nat;
        lemma_step_within(size, position, steps.last());
    }
}

/// A step from a node within the lattice leads to a node within the lattice.
pub proof fn lemma_step_within(size: nat, position: nat, step: u8)
    requires
        1 <= position <= (size + 1) * (size + 1),
    ensures
        1 <= step_position(size, position, step) <= (size + 1) * (size + 1),
{
    let width = size + 1;
    assert(width * size + width == width * width) by (nonlinear_arith)
        requires
            width == size + 1,
    ;
    lemma_mod_multiples_basic(width as int, width as int);
}

/// The digits of a vector of steps are steps down or to the right, as many as its width.
pub proof fn lemma_path_vec_of(i: nat, width: nat)
    ensures
        path_vec_of(i, width).len() == width,
        forall|k: int| 0 <= k < width ==> #[trigger] path_vec_of(i, width)[k] <= 1,
    decreases width,
{
    if width > 0 {
        lemma_path_vec_of(i / 2, (width - 1) as nat);
    }
}

/// A lattice with a position on it, and the nodes that the position has visited.
#[derive(Debug, PartialEq)]
pub struct LatticePath {
    pub lattice: SquareLattice,
    pub path: Vec<u64>,
}

impl LatticePath {
    /// The path that has visited the first node of a lattice of size `size`.
    pub fn new(size: usize) -> (r: Self)
        requires
            (size + 1) * (size + 1) <= usize::MAX,
        ensures
            r.lattice.size == size,
            r.lattice.current_position == 1,
            r.lattice.is_numbered(),
            r.path@ == seq![1u64],
    {
        let lattice = SquareLattice::new(size);
        let mut path: Vec<u64> = Vec::new();
        path.push(1);
        assert(path@ =~= seq![1u64]);
        Self { lattice, path }
    }

    /// Steps down and visits the node reached, unless the position is in
    /// the last row; returns whether it stepped.
    pub fn move_down(&mut self) -> (r: bool)
        requires
            (old(self).lattice.size + 1) * (old(self).lattice.size + 1) <= usize::MAX,
        ensures
            final(self).lattice.size == old(self).lattice.size,
            final(self).lattice.lattice == old(self).lattice.lattice,
            final(self).lattice.current_position == step_position(
                old(self).lattice.size as nat,
                old(self).lattice.current_position as nat,
                STEP_DOWN,
            ),
            r == (final(self).lattice.current_position != old(self).lattice.current_position),
            final(self).path@ == if r {
                old(self).path@.push(final(self).lattice.current_position as u64)
            } else {
                old(self).path@
            },
    {
        let size = self.lattice.size;
        assert((size + 1) * size >= 0 && (size + 1) * size <= (size + 1) * (size + 1))
            by (nonlinear_arith)
            requires
                size >= 0,
        ;
        if !self.lattice.is_last_row() {
            self.lattice.move_down();
            self.path.push(self.lattice.current_position as u64);
            true
        } else {
            false
        }
    }

    /// Steps to the right and visits the node reached, unless the position
    /// is in the last column; returns whether it stepped.
    pub fn move_right(&mut self) -> (r: bool)
        requires
            old(self).lattice.size < usize::MAX,
            old(self).lattice.current_position < usize::MAX
                || old(self).lattice.current_position % (old(self).lattice.size + 1) as usize == 0,
        ensures
            final(self).lattice.size == old(self).lattice.size,
            final(self).lattice.lattice == old(self).lattice.lattice,
            final(self).lattice.current_position == step_position(
                old(self).lattice.size as nat,
                old(self).lattice.current_position as nat,
                STEP_RIGHT,
            ),
            r == (final(self).lattice.current_position != old(self).lattice.current_position),
            final(self).path@ == if r {
                old(self).path@.push(final(self).lattice.current_position as u64)
            } else {
                old(self).path@
            },
    {
        if !self.lattice.is_last_column() {
            self.lattice.move_right();
            self.path.push(self.lattice.current_position as u64);
            true
        } else {
            false
        }
    }

    /// Whether the position is in the last row and in the last column.
    pub fn is_at_end(&self) -> (r: bool)
        requires
            (self.lattice.size + 1) * self.lattice.size <= usize::MAX,
        ensures
            r == (self.lattice.current_position % (self.lattice.size + 1) as usize == 0
                && self.lattice.current_position > (self.lattice.size + 1) * self.lattice.size),
    {
        assert(self.lattice.size < usize::MAX) by (nonlinear_arith)
            requires
                (self.lattice.size + 1) * self.lattice.size <= usize::MAX,
                self.lattice.size >= 0,
                usize::MAX >= 1,
        ;
        self.lattice.is_last_column() && self.lattice.is_last_row()
    }

    /// How many nodes a path from the first node to the last one visits.
    pub fn total_path_size_needed(&self) -> (r: usize)
        requires
            self.lattice.size * 2 + 1 <= usize::MAX,
        ensures
            r == self.lattice.size * 2 + 1,
    {
        self.lattice.size * 2 + 1
    }

    /// How many nodes the path has visited.
    pub fn len(&self) -> (r: usize)
        ensures
            r == self.path@.len(),
    {
        self.path.len()
    }

    /// Whether the path has visited nothing.
    #[must_use]
    pub fn is_empty(&self) -> (r: bool)
        ensures
            r == (self.path@.len() == 0),
    {
        self.len() == 0
    }

    /// Whether the path has visited as many nodes as a path to the last node visits.
    pub fn is_path_complete(&self) -> (r: bool)
        requires
            self.lattice.size * 2 + 1 <= usize::MAX,
        ensures
            r == (self.path@.len() == self.lattice.size * 2 + 1),
    {
        self.len() == self.total_path_size_needed()
    }

    /// The path that takes the steps of `path_vec` in turn on a lattice of
    /// size `size`, or what is wrong with the length of `path_vec` where it
    /// is not twice `size`.
    pub fn from_path_vec(path_vec: Vec<u8>, size: usize) -> (r: Result<Self, String>)
        requires
            (size + 1) * (size + 1) <= usize::MAX,
            path_vec@.len() == size * 2 ==> forall|i: int|
                0 <= i < path_vec@.len() ==> #[trigger] path_vec@[i] <= 1,
        ensures
            match r {
                Ok(path) => {
                    &&& path_vec@.len() == size * 2
                    &&& path.lattice.size == size
                    &&& path.lattice.is_numbered()
                    &&& path.path@ == trail(size as nat, path_vec@)
                    &&& path.lattice.current_position == path.path@.last()
                },
                Err(message) => {
                    &&& path_vec@.len() != size * 2
                    &&& message@ == length_message((size * 2) as nat, path_vec@.len())
                },
            },
    {
        assert(size * 2 + 1 <= (size + 1) * (size + 1)) by (nonlinear_arith)
            requires
                size >= 0,
        ;
        let mut path = LatticePath::new(size);
        if path_vec.len() != path.total_path_size_needed() - 1 {
            let mut message = String::from_str("Path vector must be of length ");
            message.append(to_decimal_string((path.total_path_size_needed() - 1) as u64).as_str());
            message.append(", but is of length ");
            message.append(to_decimal_string(path_vec.len() as u64).as_str());
            return Err(message);
        }
        let mut i: usize = 0;
        assert(path_vec@.take(0) =~= Seq::<u8>::empty());
        while i < path_vec.len()
            invariant
                (size + 1) * (size + 1) <= usize::MAX,
                i <= path_vec@.len(),
                forall|k: int| 0 <= k < path_vec@.len() ==> #[trigger] path_vec@[k] <= 1,
                path.lattice.size == size,
                path.lattice.is_numbered(),
                path.path@ == trail(size as nat, path_vec@.take(i as int)),
                path.lattice.current_position == path.path@.last(),
            decreases path_vec@.len() - i,
        {
            proof {
                lemma_trail_bounds(size as nat, path_vec@.take(i as int));
                assert(path_vec@.take(i + 1).drop_last() =~= path_vec@.take(i as int));
                lemma_mod_multiples_basic((size + 1) as int, (size + 1) as int);
                lemma_step_within(
                    size as nat,
                    path.lattice.current_position as nat,
                    path_vec@[i as int],
                );
            }
            assert(size < usize::MAX) by (nonlinear_arith)
                requires
                    (size + 1) * (size + 1) <= usize::MAX,
                    size >= 0,
            ;
            let step = path_vec[i];
            if step == 0 {
                path.move_down();
            } else {
                path.move_right();
            }
            i += 1;
        }
        assert(path_vec@.take(path_vec@.len() as int) =~= path_vec@);
        Ok(path)
    }

    /// Every vector of as many steps as a path to the last node takes: the
    /// vector at index `i` holds the binary digits of `i`, highest first.
    pub fn generate_all_possible_path_vecs(&self) -> (r: Vec<Vec<u8>>)
        requires
            self.lattice.size <= MAX_ENUMERATED_SIZE,
        ensures
            r@.len() == pow2((2 * self.lattice.size) as nat),
            forall|i: int|
                0 <= i < r@.len() ==> (#[trigger] r@[i])@ == path_vec_of(
                    i as nat,
                    (2 * self.lattice.size) as nat,
                ),
    {
        let mut result: Vec<Vec<u8>> = Vec::new();
        let n_moves = self.total_path_size_needed() - 1;
        let limit = Self::two_to_the(n_moves as u32);
        let mut i: u64 = 0;
        while i < limit
            invariant
                n_moves == 2 * self.lattice.size,
                limit == pow2(n_moves as nat),
                i <= limit,
                result@.len() == i,
                forall|k: int|
                    0 <= k < i ==> (#[trigger] result@[k])@ == path_vec_of(k as nat, n_moves as nat),
            decreases limit - i,
        {
            let mut path_vec: Vec<u8> = Vec::new();
            let mut rest = i;
            let mut taken: usize = 0;
            assert(path_vec_of(rest as nat, n_moves as nat) + path_vec@ =~= path_vec_of(
                i as nat,
                n_moves as nat,
            ));
            while taken < n_moves
                invariant
                    taken <= n_moves,
                    path_vec@.len() == taken,
                    path_vec_of(rest as nat, (n_moves - taken) as nat) + path_vec@ == path_vec_of(
                        i as nat,
                        n_moves as nat,
                    ),
                decreases n_moves - taken,
            {
                let ghost before = path_vec@;
                path_vec.insert(0, (rest % 2) as u8);
                proof {
                    assert(path_vec_of((rest / 2) as nat, (n_moves - taken - 1) as nat)
                        + path_vec@ =~= path_vec_of(rest as nat, (n_moves - taken) as nat)
                        + before);
                }
                rest /= 2;
                taken += 1;
            }
            assert(path_vec_of(rest as nat, 0) + path_vec@ =~= path_vec@);
            result.push(path_vec);
            i += 1;
        }
        result
    }

    /// Two to the power of `exponent`.
    pub fn two_to_the(exponent: u32) -> (r: u64)
        requires
            exponent < 64,
        ensures
            r == pow2(exponent as nat),
    {
        let mut power: u64 = 1;
        let mut done: u32 = 0;
        proof {
            lemma2_to64();
        }
        while done < exponent
            invariant
                done <= exponent < 64,
                power == pow2(done as nat),
            decreases exponent - done,
        {
            proof {
                lemma_pow2_unfold((done + 1) as nat);
                lemma2_to64_rest();
                if done + 1 < 63 {
                    lemma_pow2_strictly_increases((done + 1) as nat, 63);
                }
            }
            power = power * 2;
            done += 1;
        }
        power
    }

    /// How many of the vectors of steps lead from the first node to the
    /// last one without a step that cannot be taken: as many as there are
    /// ways to choose the steps that go to the right.
    pub fn n_complete_paths(&self) -> (r: u64)
        requires
            self.lattice.size <= MAX_ENUMERATED_SIZE,
        ensures
            r == count_complete(
                self.lattice.size as nat,
                pow2((2 * self.lattice.size) as nat),
            ),
            r == binomial((2 * self.lattice.size) as nat, self.lattice.size as nat),
    {
        proof {
            assert((self.lattice.size + 1) * (self.lattice.size + 1) <= u64::MAX)
                by (nonlinear_arith)
                requires
                    0 <= self.lattice.size <= 31,
            ;
            lemma_complete_paths_are_binomial(self.lattice.size as nat);
        }
        let mut n_complete_paths: u64 = 0;
        let path_vecs = self.generate_all_possible_path_vecs();
        let size = self.lattice.size;
        let mut i: usize = 0;
        assert((size + 1) * (size + 1) <= usize::MAX) by (nonlinear_arith)
            requires
                0 <= size <= 31,
                usize::MAX >= 0xffff_ffff,
        ;
        proof {
            lemma2_to64();
            lemma2_to64_rest();
            if 2 * size < 62 {
                lemma_pow2_strictly_increases((2 * size) as nat, 62);
            }
        }
        while i < path_vecs.len()
            invariant
                size == self.lattice.size,
                size <= 31,
                (size + 1) * (size + 1) <= usize::MAX,
                i <= path_vecs@.len(),
                path_vecs@.len() == pow2((2 * size) as nat),
                path_vecs@.len() <= 0x4000_0000_0000_0000,
                forall|k: int|
                    0 <= k < path_vecs@.len() ==> (#[trigger] path_vecs@[k])@ == path_vec_of(
                        k as nat,
                        (2 * size) as nat,
                    ),
                n_complete_paths == count_complete(size as nat, i as nat),
                n_complete_paths <= i,
            decreases path_vecs@.len() - i,
        {
            proof {
                lemma_path_vec_of(i as nat, (2 * size) as nat);
            }
            let path_vec = path_vecs[i].clone();
            assert(path_vec@ =~= path_vecs@[i as int]@);
            match LatticePath::from_path_vec(path_vec, size) {
                Ok(path) => {
                    if path.is_path_complete() {
                        n_complete_paths += 1;
                    }
                },
                Err(_) => {},
            }
            i += 1;
        }
        n_complete_paths
    }
}

} // verus!
