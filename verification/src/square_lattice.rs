//! A square lattice of numbered nodes and a position that moves right and
//! down over it.

use vstd::prelude::*;

verus! {

/// A lattice of `size + 1` rows of `size + 1` nodes, numbered row by row
/// from one, and the number of the node that the position stands on.
#[derive(Debug, PartialEq)]
pub struct SquareLattice {
    pub size: usize,
    pub lattice: Vec<Vec<u64>>,
    pub current_position: usize,
}

/// The number of the node in row `row` and column `column`, both counted from zero.
pub open spec fn node_number(size: nat, row: nat, column: nat) -> nat {
    row * (size + 1) + column + 1
}

impl SquareLattice {
    /// The rows hold the node numbers in order.
    pub open spec fn is_numbered(&self) -> bool {
        &&& self.lattice@.len() == self.size + 1
        &&& forall|i: int|
            0 <= i <= self.size ==> (#[trigger] self.lattice@[i])@.len() == self.size + 1
        &&& forall|i: int, j: int|
            0 <= i <= self.size && 0 <= j <= self.size ==> #[trigger] self.lattice@[i]@[j]
                == node_number(self.size as nat, i as nat, j as nat)
    }

    /// The position stands on the node in row `row` and column `column`, both within the lattice.
    pub open spec fn stands_at(&self, row: nat, column: nat) -> bool {
        &&& row <= self.size
        &&& column <= self.size
        &&& self.current_position == node_number(self.size as nat, row, column)
    }

    /// The lattice with `size` edges a side, with the position on the first node.
    pub fn new(size: usize) -> (r: Self)
        requires
            (size + 1) * (size + 1) <= usize::MAX,
        ensures
            r.size == size,
            r.current_position == 1,
            r.is_numbered(),
            r.stands_at(0, 0),
    {
        assert(size + 1 <= usize::MAX) by (nonlinear_arith)
            requires
                (size + 1) * (size + 1) <= usize::MAX,
                size >= 0,
        ;
        let n_nodes_in_row = size + 1;
        let mut lattice: Vec<Vec<u64>> = Vec::new();
        let mut i: usize = 0;
        while i < n_nodes_in_row
            invariant
                n_nodes_in_row == size + 1,
                (size + 1) * (size + 1) <= usize::MAX,
                i <= n_nodes_in_row,
                lattice@.len() == i,
                forall|k: int| 0 <= k < i ==> (#[trigger] lattice@[k])@.len() == size + 1,
                forall|k: int, j: int|
                    0 <= k < i && 0 <= j <= size ==> #[trigger] lattice@[k]@[j] == node_number(
                        size as nat,
                        k as nat,
                        j as nat,
                    ),
            decreases n_nodes_in_row - i,
        {
            let mut scaled_row: Vec<u64> = Vec::new();
            let mut j: usize = 0;
            assert(i * n_nodes_in_row + n_nodes_in_row <= (size + 1) * (size + 1))
                by (nonlinear_arith)
                requires
                    i < n_nodes_in_row,
                    n_nodes_in_row == size + 1,
            ;
            while j < n_nodes_in_row
                invariant
                    n_nodes_in_row == size + 1,
                    i * n_nodes_in_row + n_nodes_in_row <= usize::MAX,
                    i < n_nodes_in_row,
                    j <= n_nodes_in_row,
                    scaled_row@.len() == j,
                    forall|k: int|
                        0 <= k < j ==> #[trigger] scaled_row@[k] == node_number(
                            size as nat,
                            i as nat,
                            k as nat,
                        ),
                decreases n_nodes_in_row - j,
            {
                assert(i * n_nodes_in_row >= 0) by (nonlinear_arith)
                    requires
                        i >= 0,
                        n_nodes_in_row >= 0,
                ;
                let x = j + 1 + i * n_nodes_in_row;
                scaled_row.push(x as u64);
                j += 1;
            }
            lattice.push(scaled_row);
            i += 1;
        }
        Self { size, lattice, current_position: 1 }
    }

    /// The number of nodes in a row.
    pub fn n_nodes_in_row(&self) -> (r: usize)
        requires
            self.size < usize::MAX,
        ensures
            r == self.size + 1,
    {
        self.size + 1
    }

    /// What the lattice holds in row `x` at column `y`.
    pub fn get(&self, x: usize, y: usize) -> (r: u64)
        requires
            x < self.lattice@.len(),
            y < self.lattice@[x as int]@.len(),
        ensures
            r == self.lattice@[x as int]@[y as int],
    {
        self.lattice[x][y]
    }

    /// Puts `value` in row `x` at column `y`.
    pub fn set(&mut self, x: usize, y: usize, value: u64)
        requires
            x < old(self).lattice@.len(),
            y < old(self).lattice@[x as int]@.len(),
        ensures
            final(self).size == old(self).size,
            final(self).current_position == old(self).current_position,
            final(self).lattice@.len() == old(self).lattice@.len(),
            final(self).lattice@[x as int]@ == old(self).lattice@[x as int]@.update(
                y as int,
                value,
            ),
            forall|i: int|
                0 <= i < old(self).lattice@.len() && i != x
                    ==> final(self).lattice@[i] == old(self).lattice@[i],
    {
        self.lattice[x][y] = value;
    }

    /// Whether the position is in the last column.
    pub fn is_last_column(&self) -> (r: bool)
        requires
            self.size < usize::MAX,
        ensures
            r == (self.current_position % (self.size + 1) as usize == 0),
    {
        self.current_position % self.n_nodes_in_row() == 0
    }

    /// Whether the position is in the last row.
    pub fn is_last_row(&self) -> (r: bool)
        requires
            (self.size + 1) * self.size <= usize::MAX,
        ensures
            r == (self.current_position > (self.size + 1) * self.size),
    {
        assert(self.size < usize::MAX) by (nonlinear_arith)
            requires
                (self.size + 1) * self.size <= usize::MAX,
                self.size >= 0,
                usize::MAX >= 1,
        ;
        self.current_position > self.n_nodes_in_row() * self.size
    }

    /// Moves the position one node to the right, unless it is in the last
    /// column; returns whether it moved.
    pub fn move_right(&mut self) -> (r: bool)
        requires
            old(self).size < usize::MAX,
            old(self).current_position < usize::MAX
                || old(self).current_position % (old(self).size + 1) as usize == 0,
        ensures
            final(self).size == old(self).size,
            final(self).lattice == old(self).lattice,
            r == (old(self).current_position % (old(self).size + 1) as usize != 0),
            final(self).current_position == if r {
                old(self).current_position + 1
            } else {
                old(self).current_position as int
            },
    {
        if self.is_last_column() {
            return false;
        }
        self.current_position += 1;
        true
    }

    /// Moves the position one row down, unless it is in the last row;
    /// returns whether it moved.
    pub fn move_down(&mut self) -> (r: bool)
        requires
            (old(self).size + 1) * (old(self).size + 1) <= usize::MAX,
        ensures
            final(self).size == old(self).size,
            final(self).lattice == old(self).lattice,
            r == (old(self).current_position <= (old(self).size + 1) * old(self).size),
            final(self).current_position == if r {
                old(self).current_position + old(self).size + 1
            } else {
                old(self).current_position as int
            },
    {
        assert((self.size + 1) * self.size + self.size + 1 == (self.size + 1) * (self.size + 1))
            by (nonlinear_arith);
        assert((self.size + 1) * self.size >= 0 && self.size < (self.size + 1) * (self.size + 1))
            by (nonlinear_arith)
            requires
                self.size >= 0,
        ;
        if self.is_last_row() {
            return false;
        }
        self.current_position += self.n_nodes_in_row();
        true
    }
}

/// On a position within the lattice, the test for the last column tells
/// whether the column is the last, the test for the last row whether the
/// row is, and a move that succeeds leads to the neighbouring node.
pub proof fn lemma_position_tests(size: nat, row: nat, column: nat)
    requires
        row <= size,
        column <= size,
    ensures
        (node_number(size, row, column) % (size + 1) == 0) <==> column == size,
        (node_number(size, row, column) > (size + 1) * size) <==> row == size,
        node_number(size, row, column) + 1 == node_number(size, row, column + 1),
        node_number(size, row, column) + size + 1 == node_number(size, row + 1, column),
{
    let width = size + 1;
    let number = node_number(size, row, column);
    if column == size {
        assert(number == (row + 1) * width) by (nonlinear_arith)
            requires
                number == row * width + column + 1,
                column + 1 == width,
        ;
        vstd::arithmetic::div_mod::lemma_mod_multiples_basic((row + 1) as int, width as int);
    } else {
        vstd::arithmetic::div_mod::lemma_fundamental_div_mod_converse_mod(
            number as int,
            width as int,
            row as int,
            (column + 1) as int,
        );
    }
    if row == size {
        assert(number > width * size) by (nonlinear_arith)
            requires
                number == row * width + column + 1,
                row == size,
        ;
    } else {
        assert(number <= width * size) by (nonlinear_arith)
            requires
                number == row * width + column + 1,
                row + 1 <= size,
                column + 1 <= width,
        ;
    }
    assert(number + size + 1 == node_number(size, row + 1, column)) by (nonlinear_arith)
        requires
            number == row * width + column + 1,
            node_number(size, row + 1, column) == (row + 1) * width + column + 1,
            width == size + 1,
    ;
}

} // verus!
