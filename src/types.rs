//! A full O-table laid out as one cell per symbol and position.

use vstd::prelude::*;
use crate::util::{ALPHABET, SIGMA};

verus! {

/// A full O-table with one cell per symbol and position, filled by the
/// caller through `set`.
pub struct OTable<'a> {
    array: Vec<usize>,
    string: &'a [u8],
    suffix_array: &'a [usize],
}

impl<'a> OTable<'a> {
    /// Number of positions per row: n + 1.
    pub closed spec fn cols(&self) -> nat {
        (self.string@.len() + 1) as nat
    }

    /// The cell of symbol `a` at position `i`.
    pub closed spec fn cell(&self, a: int, i: int) -> usize {
        self.array@[a * self.cols() + i]
    }

    pub closed spec fn wf(&self) -> bool {
        &&& self.string@.len() < usize::MAX / 8
        &&& self.array@.len() == SIGMA * self.cols()
    }

    /// The reference the table is laid out for.
    pub closed spec fn text(&self) -> Seq<u8> {
        self.string@
    }

    /// An all-zero table for `string`.
    pub fn new(string: &'a [u8], suffix_array: &'a [usize]) -> (r: Self)
        requires
            string.len() < usize::MAX / 8,
        ensures
            r.wf(),
            r.text() == string@,
            r.cols() == string.len() + 1,
            forall|a: int, i: int| 0 <= a < SIGMA && 0 <= i < r.cols() ==> #[trigger] r.cell(a, i) == 0,
    {
        let array_len = (string.len() + 1) * ALPHABET.len();
        let r = OTable { array: vec![0; array_len], string, suffix_array };
        proof {
            assert forall|a: int, i: int| 0 <= a < SIGMA && 0 <= i < r.cols() implies #[trigger] r.cell(a, i) == 0 by {
                lemma_cell_in_range(a, i, r.cols() as int);
            }
        }
        r
    }

    fn index(&self, a: u8, i: usize) -> (r: Option<usize>)
        requires
            self.wf(),
        ensures
            match r {
                Some(idx) => (a as int) < SIGMA && (i as int) < self.cols() && idx == a * self.cols() + i
                    && idx < self.array@.len(),
                None => !((a as int) < SIGMA && (i as int) < self.cols()),
            },
    {
        let a = a as usize;
        let (rows, cols) = self.shape();
        if a < rows && i < cols {
            proof {
                lemma_cell_in_range(a as int, i as int, cols as int);
            }
            Some(a * (self.string.len() + 1) + i)
        } else {
            None
        }
    }

    /// The cell of symbol `a` at position `i`.
    pub fn get(&self, a: u8, i: usize) -> (r: usize)
        requires
            self.wf(),
            a < SIGMA,
            i < self.cols(),
        ensures
            r == self.cell(a as int, i as int),
    {
        let idx = self.index(a, i).unwrap();
        self.array[idx]
    }

    /// Stores `v` in the cell of symbol `a` at position `i`.
    pub fn set(&mut self, a: u8, i: usize, v: usize)
        requires
            old(self).wf(),
            a < SIGMA,
            i < old(self).cols(),
        ensures
            final(self).wf(),
            final(self).text() == old(self).text(),
            final(self).cols() == old(self).cols(),
            final(self).cell(a as int, i as int) == v,
            forall|b: int, j: int|
                0 <= b < SIGMA && 0 <= j < final(self).cols() && (b != a || j != i) ==> #[trigger] final(self).cell(b, j)
                    == old(self).cell(b, j),
    {
        let idx = self.index(a, i).unwrap();
        self.array.set(idx, v);
        proof {
            assert forall|b: int, j: int|
                0 <= b < SIGMA && 0 <= j < self.cols() && (b != a || j != i) implies #[trigger] self.cell(b, j)
                    == old(self).cell(b, j) by {
                lemma_cell_in_range(b, j, self.cols() as int);
                lemma_cell_distinct(a as int, i as int, b, j, self.cols() as int);
            }
        }
    }

    /// (number of symbols, number of positions 0..=n).
    pub fn shape(&self) -> (r: (usize, usize))
        requires
            self.wf(),
        ensures
            r.0 == SIGMA,
            r.1 == self.cols(),
    {
        (ALPHABET.len(), self.string.len() + 1)
    }

    /// The rows of the table, one per symbol.
    pub fn rows(&self) -> (r: Vec<Vec<usize>>)
        requires
            self.wf(),
        ensures
            r.len() == SIGMA,
            forall|a: int| 0 <= a < SIGMA ==> (#[trigger] r@[a]).len() == self.cols(),
            forall|a: int, i: int| 0 <= a < SIGMA && 0 <= i < self.cols() ==> #[trigger] r@[a]@[i] == self.cell(a, i),
    {
        let cols = self.string.len() + 1;
        let mut rows: Vec<Vec<usize>> = Vec::new();
        let mut a: u8 = 0;
        while a < 5
            invariant
                self.wf(),
                cols == self.cols(),
                a <= 5,
                rows.len() == a,
                forall|b: int| 0 <= b < a ==> (#[trigger] rows@[b]).len() == self.cols(),
                forall|b: int, i: int| 0 <= b < a && 0 <= i < self.cols() ==> #[trigger] rows@[b]@[i] == self.cell(b, i),
            decreases 5 - a,
        {
            let mut row: Vec<usize> = Vec::new();
            let mut i: usize = 0;
            while i < cols
                invariant
                    self.wf(),
                    cols == self.cols(),
                    a < 5,
                    i <= cols,
                    row.len() == i,
                    forall|k: int| 0 <= k < i ==> #[trigger] row@[k] == self.cell(a as int, k),
                decreases cols - i,
            {
                row.push(self.get(a, i));
                i = i + 1;
            }
            rows.push(row);
            a = a + 1;
        }
        rows
    }
}

proof fn lemma_cell_in_range(a: int, i: int, cols: int)
    requires
        0 <= a < SIGMA,
        0 <= i < cols,
    ensures
        0 <= a * cols + i < SIGMA * cols,
{
    assert(0 <= a * cols + i < SIGMA * cols) by (nonlinear_arith)
        requires
            0 <= a < SIGMA,
            0 <= i < cols,
    ;
}

proof fn lemma_cell_distinct(a: int, i: int, b: int, j: int, cols: int)
    requires
        0 <= a < SIGMA,
        0 <= b < SIGMA,
        0 <= i < cols,
        0 <= j < cols,
        a != b || i != j,
    ensures
        a * cols + i != b * cols + j,
{
    if a < b {
        assert(a * cols + i < b * cols + j) by (nonlinear_arith)
            requires
                a + 1 <= b,
                0 <= i < cols,
                0 <= j,
        ;
    } else if b < a {
        assert(b * cols + j < a * cols + i) by (nonlinear_arith)
            requires
                b + 1 <= a,
                0 <= j < cols,
                0 <= i,
        ;
    }
}

} // verus!
