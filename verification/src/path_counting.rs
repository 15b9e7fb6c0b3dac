//! Why the paths over a square lattice are counted by a binomial
//! coefficient: a vector of steps leads to the last node exactly when half
//! of its steps go to the right, and among the vectors of a given length
//! those with a given number of steps to the right are as many as there are
//! ways to choose that many places.

use crate::binomial::binomial;
use crate::lattice_path::{
    count_complete, is_complete_walk, path_vec_of, step_position, trail,
};
use crate::square_lattice::{lemma_position_tests, node_number};
use vstd::arithmetic::power2::{lemma_pow2_unfold, pow2};
use vstd::prelude::*;

verus! {

/// How many steps of `steps` go to the right.
pub open spec fn rights(steps: Seq<u8>) -> nat
    decreases steps.len(),
{
    if steps.len() == 0 {
        0
    } else {
        rights(steps.drop_last()) + if steps.last() == 0 {
            0nat
        } else {
            1nat
        }
    }
}

/// How many of the first `limit` vectors of `width` steps have `k` steps to the right.
pub open spec fn count_with_rights(width: nat, k: int, limit: nat) -> nat
    decreases limit,
{
    if limit == 0 {
        0
    } else {
        count_with_rights(width, k, (limit - 1) as nat) + if rights(
            path_vec_of((limit - 1) as nat, width),
        ) == k {
            1nat
        } else {
            0nat
        }
    }
}

/// A trail visits a node with each step exactly as long as neither the
/// steps down nor the steps to the right outnumber the edges of a side, and
/// then it ends on the node in the row of the one count and the column of
/// the other.
pub proof fn lemma_trail_of_steps(size: nat, steps: Seq<u8>)
    requires
        (size + 1) * (size + 1) <= u64::MAX,
    ensures
        trail(size, steps).len() <= steps.len() + 1,
        trail(size, steps).len() >= 1,
        rights(steps) <= steps.len(),
        is_complete_walk(size, steps) <==> rights(steps) <= size && steps.len() - rights(steps)
            <= size,
        is_complete_walk(size, steps) ==> trail(size, steps).last() == node_number(
            size,
            (steps.len() - rights(steps)) as nat,
            rights(steps),
        ),
    decreases steps.len(),
{
    if steps.len() == 0 {
        assert(node_number(size, 0, 0) == 1) by (nonlinear_arith)
            requires
                node_number(size, 0, 0) == 0 * (size + 1) + 0 + 1,
        ;
    } else {
        let before = steps.drop_last();
        lemma_trail_of_steps(size, before);
        if is_complete_walk(size, before) {
            let row = (before.len() - rights(before)) as nat;
            let column = rights(before);
            let position = trail(size, before).last() as nat;
            lemma_position_tests(size, row, column);
            assert(position <= (size + 1) * (size + 1)) by (nonlinear_arith)
                requires
                    position == row * (size + 1) + column + 1,
                    row <= size,
                    column <= size,
            ;
            let next = step_position(size, position, steps.last());
            crate::lattice_path::lemma_step_within(size, position, steps.last());
            assert(next as u64 == next);
            if steps.last() == 0 {
                if row < size {
                    assert(next == node_number(size, row + 1, column));
                }
            } else {
                if column < size {
                    assert(next == node_number(size, row, column + 1));
                }
            }
        }
    }
}

/// Among the vectors of twice as many steps as a side has edges, those
/// that lead to the last node are those with as many steps to the right as
/// a side has edges.
pub proof fn lemma_complete_walks_are_balanced(size: nat, limit: nat)
    requires
        (size + 1) * (size + 1) <= u64::MAX,
    ensures
        count_complete(size, limit) == count_with_rights(2 * size, size as int, limit),
    decreases limit,
{
    if limit > 0 {
        lemma_complete_walks_are_balanced(size, (limit - 1) as nat);
        let steps = path_vec_of((limit - 1) as nat, 2 * size);
        crate::lattice_path::lemma_path_vec_of((limit - 1) as nat, 2 * size);
        lemma_trail_of_steps(size, steps);
    }
}

/// The vectors of steps at the indices `2 * m` and `2 * m + 1` are the one
/// at index `m`, one step shorter, with a step down and with a step to the
/// right behind it: of the first `2 * m` vectors, as many have `k` steps to
/// the right as of the first `m` shorter ones have `k` or `k - 1`.
pub proof fn lemma_count_by_last_step(width: nat, k: int, m: nat)
    requires
        width >= 1,
    ensures
        count_with_rights(width, k, 2 * m) == count_with_rights((width - 1) as nat, k, m)
            + count_with_rights((width - 1) as nat, k - 1, m),
    decreases m,
{
    if m > 0 {
        let j = (m - 1) as nat;
        lemma_count_by_last_step(width, k, j);
        let shorter = path_vec_of(j, (width - 1) as nat);
        let even = path_vec_of(2 * j, width);
        let odd = path_vec_of(2 * j + 1, width);
        assert((2 * j) / 2 == j && (2 * j) % 2 == 0);
        assert((2 * j + 1) / 2 == j && (2 * j + 1) % 2 == 1);
        assert(even == shorter.push(0u8));
        assert(odd == shorter.push(1u8));
        assert(even.drop_last() =~= shorter);
        assert(odd.drop_last() =~= shorter);
        assert(rights(even) == rights(shorter));
        assert(rights(odd) == rights(shorter) + 1);
        assert(count_with_rights(width, k, 2 * m) == count_with_rights(
            width,
            k,
            (2 * m - 1) as nat,
        ) + if rights(odd) == k {
            1nat
        } else {
            0nat
        });
        assert(count_with_rights(width, k, (2 * m - 1) as nat) == count_with_rights(
            width,
            k,
            2 * j,
        ) + if rights(even) == k {
            1nat
        } else {
            0nat
        });
    }
}

/// No vector has a negative number of steps to the right.
pub proof fn lemma_count_negative(width: nat, k: int, limit: nat)
    requires
        k < 0,
    ensures
        count_with_rights(width, k, limit) == 0,
    decreases limit,
{
    if limit > 0 {
        lemma_count_negative(width, k, (limit - 1) as nat);
    }
}

/// Of all the vectors of `width` steps, as many have `k` steps to the right
/// as there are ways to choose `k` out of `width`.
pub proof fn lemma_count_is_binomial(width: nat, k: nat)
    ensures
        count_with_rights(width, k as int, pow2(width)) == binomial(width, k),
    decreases width,
{
    if width == 0 {
        vstd::arithmetic::power2::lemma2_to64();
        assert(path_vec_of(0, 0) =~= Seq::<u8>::empty());
        assert(count_with_rights(0, k as int, 0) == 0);
        assert(count_with_rights(0, k as int, 1) == if k == 0 {
            1nat
        } else {
            0nat
        });
    } else {
        let shorter = (width - 1) as nat;
        lemma_pow2_unfold(width);
        lemma_count_by_last_step(width, k as int, pow2(shorter));
        lemma_count_is_binomial(shorter, k);
        if k == 0 {
            lemma_count_negative(shorter, -1, pow2(shorter));
        } else {
            lemma_count_is_binomial(shorter, (k - 1) as nat);
        }
    }
}

/// The vectors of steps that lead from the first node of a square lattice
/// to its last one are as many as there are ways to choose, out of twice
/// as many steps as a side has edges, those that go to the right.
pub proof fn lemma_complete_paths_are_binomial(size: nat)
    requires
        (size + 1) * (size + 1) <= u64::MAX,
    ensures
        count_complete(size, pow2(2 * size)) == binomial(2 * size, size),
{
    lemma_complete_walks_are_balanced(size, pow2(2 * size));
    lemma_count_is_binomial(2 * size, size);
}

} // verus!
