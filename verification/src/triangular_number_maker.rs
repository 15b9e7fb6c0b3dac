//! A growing list of the triangular numbers.

use vstd::prelude::*;

verus! {

/// The `n`-th triangular number: the sum of the numbers from one to `n`.
pub open spec fn triangular(n: nat) -> nat {
    n * (n + 1) / 2
}

/// Each triangular number is its forerunner plus its own index.
pub proof fn lemma_triangular_step(n: nat)
    ensures
        triangular(n + 1) == triangular(n) + n + 1,
{
    let x = n * (n + 1);
    assert((n + 1) * (n + 2) == x + 2 * (n + 1)) by (nonlinear_arith)
        requires
            x == n * (n + 1),
    ;
}

/// The list of the first triangular numbers, and how many it holds.
#[derive(Debug, PartialEq)]
pub struct TriangularNumberMaker {
    pub numbers: Vec<u32>,
    pub current_index: u32,
}

impl TriangularNumberMaker {
    /// The list holds the first triangular numbers in order, and the index counts them.
    pub open spec fn wf(&self) -> bool {
        &&& self.numbers@.len() >= 1
        &&& self.current_index == self.numbers@.len()
        &&& forall|i: int|
            0 <= i < self.numbers@.len() ==> #[trigger] self.numbers@[i] == triangular(
                (i + 1) as nat,
            )
    }

    /// The list of the first triangular number.
    pub fn new() -> (r: Self)
        ensures
            r.numbers@ == seq![1u32],
            r.current_index == 1,
            r.wf(),
    {
        let mut numbers: Vec<u32> = Vec::new();
        numbers.push(1);
        assert(numbers@ =~= seq![1u32]);
        assert(triangular(1) == 1);
        TriangularNumberMaker { numbers, current_index: 1 }
    }

    /// Appends the last number plus the next index, and returns it.
    pub fn next(&mut self) -> (r: Option<u32>)
        requires
            old(self).numbers@.len() >= 1,
            old(self).numbers@.last() + old(self).current_index + 1 <= u32::MAX,
        ensures
            r == Some((old(self).numbers@.last() + old(self).current_index + 1) as u32),
            final(self).current_index == old(self).current_index + 1,
            final(self).numbers@ == old(self).numbers@.push(r.unwrap()),
            old(self).wf() ==> final(self).wf() && r == Some(
                triangular((old(self).current_index + 1) as nat) as u32,
            ),
    {
        self.current_index += 1;
        let res = self.numbers[self.numbers.len() - 1] + self.current_index;
        proof {
            if old(self).wf() {
                lemma_triangular_step(old(self).current_index as nat);
            }
        }
        self.numbers.push(res);
        Some(res)
    }
}

impl Default for TriangularNumberMaker {
    fn default() -> (r: Self)
        ensures
            r.numbers@ == seq![1u32],
            r.current_index == 1,
            r.wf(),
    {
        Self::new()
    }
}

} // verus!
