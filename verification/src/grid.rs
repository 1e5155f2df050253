//! The Binairo grid: an n-by-n board of cells, each 0, 1 or unset (-1),
//! stored row-major in a flat vector.

use vstd::prelude::*;

use crate::rules::apply_clue;
use crate::rules::apply_clues;
use crate::rules::cell_ok;
use crate::rules::col_seq;
use crate::rules::gcell;
use crate::rules::grid_complete;
use crate::rules::grid_wf;
use crate::rules::lemma_idx_bounds;
use crate::rules::lemma_idx_injective;
use crate::rules::row_seq;

verus! {

/// A square Binairo board. Cells hold -1 (unset), 0 or 1; the side length is
/// a positive even number.
pub struct Binairo {
    cells: Vec<i32>,
    size: usize,
}

impl View for Binairo {
    type V = Seq<i32>;

    /// The flat, row-major sequence of cell values.
    closed spec fn view(&self) -> Seq<i32> {
        self.cells@
    }
}

impl Binairo {
    /// The side length of the board.
    pub closed spec fn spec_size(&self) -> int {
        self.size as int
    }

    /// The board is well formed: a positive even side, side * side cells,
    /// each -1, 0 or 1.
    pub open spec fn wf(&self) -> bool {
        grid_wf(self@, self.spec_size())
    }

    /// A fresh board of the given side with every cell unset.
    #[verifier::loop_isolation(false)]
    pub fn new(size: i32) -> (g: Self)
        requires
            0 < size,
            size % 2 == 0,
            size as int * size as int <= usize::MAX,
        ensures
            g.wf(),
            g.spec_size() == size as int,
            forall|i: int| 0 <= i < g@.len() ==> g@[i] == -1,
    {
        let n = size as usize;
        let total = n * n;
        let mut cells: Vec<i32> = Vec::new();
        while cells.len() < total
            invariant
                cells@.len() <= total,
                forall|i: int| 0 <= i < cells@.len() ==> cells@[i] == -1,
            decreases total - cells@.len(),
        {
            cells.push(-1);
        }
        Binairo { cells, size: n }
    }

    /// The side length.
    pub fn size(&self) -> (n: usize)
        ensures
            n as int == self.spec_size(),
    {
        self.size
    }

    /// The value at (row, col).
    pub fn get(&self, row: usize, col: usize) -> (v: i32)
        requires
            self.wf(),
            (row as int) < self.spec_size(),
            (col as int) < self.spec_size(),
        ensures
            v == gcell(self@, self.spec_size(), row as int, col as int),
    {
        // Calling len here puts the vector's length bound, and with it the
        // bound on the flat index, in scope for the checks below.
        let _stored = self.cells.len();
        proof {
            lemma_idx_bounds(self.spec_size(), row as int, col as int);
        }
        self.cells[row * self.size + col]
    }

    /// Overwrites the cell at (row, col); no rule is checked at this layer.
    pub fn set(&mut self, row: usize, col: usize, value: i32)
        requires
            old(self).wf(),
            (row as int) < old(self).spec_size(),
            (col as int) < old(self).spec_size(),
            cell_ok(value),
        ensures
            final(self).wf(),
            final(self).spec_size() == old(self).spec_size(),
            final(self)@ == old(self)@.update(
                row as int * old(self).spec_size() + col as int,
                value,
            ),
            gcell(final(self)@, old(self).spec_size(), row as int, col as int) == value,
            forall|r: int, c: int|
                0 <= r < old(self).spec_size() && 0 <= c < old(self).spec_size() && !(r == row as int
                    && c == col as int) ==> gcell(final(self)@, old(self).spec_size(), r, c)
                    == gcell(old(self)@, old(self).spec_size(), r, c),
    {
        let ghost n = self.spec_size();
        let ghost s0 = self@;
        // Calling len here puts the vector's length bound, and with it the
        // bound on the flat index, in scope for the checks below.
        let _stored = self.cells.len();
        proof {
            lemma_idx_bounds(n, row as int, col as int);
        }
        let i = row * self.size + col;
        self.cells[i] = value;
        proof {
            assert forall|r: int, c: int|
                0 <= r < n && 0 <= c < n && !(r == row as int && c == col as int) implies gcell(
                self@,
                n,
                r,
                c,
            ) == gcell(s0, n, r, c) by {
                lemma_idx_bounds(n, r, c);
                if r * n + c == row as int * n + col as int {
                    lemma_idx_injective(n, r, c, row as int, col as int);
                }
            }
        }
    }

    /// True iff every cell is assigned.
    #[verifier::loop_isolation(false)]
    pub fn is_complete(&self) -> (r: bool)
        requires
            self.wf(),
        ensures
            r == grid_complete(self@),
    {
        let mut i: usize = 0;
        while i < self.cells.len()
            invariant
                i <= self.cells@.len(),
                forall|j: int| 0 <= j < i ==> self@[j] != -1,
            decreases self.cells@.len() - i,
        {
            if self.cells[i] == -1 {
                return false;
            }
            i = i + 1;
        }
        true
    }

    /// Row `r` as a vector of its n cell values, left to right.
    #[verifier::loop_isolation(false)]
    pub fn row(&self, r: usize) -> (out: Vec<i32>)
        requires
            self.wf(),
            (r as int) < self.spec_size(),
        ensures
            out@ == row_seq(self@, self.spec_size(), r as int),
    {
        let mut out: Vec<i32> = Vec::new();
        let mut c: usize = 0;
        while c < self.size
            invariant
                c <= self.size,
                out@.len() == c,
                forall|j: int|
                    0 <= j < c ==> out@[j] == gcell(self@, self.spec_size(), r as int, j),
            decreases self.size - c,
        {
            out.push(self.get(r, c));
            c = c + 1;
        }
        proof {
            assert(out@ =~= row_seq(self@, self.spec_size(), r as int));
        }
        out
    }

    /// Column `c` as a vector of its n cell values, top to bottom.
    #[verifier::loop_isolation(false)]
    pub fn col(&self, c: usize) -> (out: Vec<i32>)
        requires
            self.wf(),
            (c as int) < self.spec_size(),
        ensures
            out@ == col_seq(self@, self.spec_size(), c as int),
    {
        let mut out: Vec<i32> = Vec::new();
        let mut r: usize = 0;
        while r < self.size
            invariant
                r <= self.size,
                out@.len() == r,
                forall|j: int|
                    0 <= j < r ==> out@[j] == gcell(self@, self.spec_size(), j, c as int),
            decreases self.size - r,
        {
            out.push(self.get(r, c));
            r = r + 1;
        }
        proof {
            assert(out@ =~= col_seq(self@, self.spec_size(), c as int));
        }
        out
    }

    /// Applies a list of clues in order; a clue outside the board is ignored.
    #[verifier::loop_isolation(false)]
    pub fn set_initial_values(&mut self, initial_values: &[(usize, usize, i32)])
        requires
            old(self).wf(),
            forall|k: int|
                0 <= k < initial_values@.len() ==> cell_ok(#[trigger] initial_values@[k].2),
        ensures
            final(self).wf(),
            final(self).spec_size() == old(self).spec_size(),
            final(self)@ == apply_clues(old(self)@, old(self).spec_size(), initial_values@),
    {
        let ghost n = old(self).spec_size();
        let ghost s0 = old(self)@;
        let ghost clues = initial_values@;
        proof {
            assert(clues.skip(0) =~= clues);
        }
        let mut k: usize = 0;
        while k < initial_values.len()
            invariant
                k <= clues.len(),
                self.wf(),
                self.spec_size() == n,
                apply_clues(self@, n, clues.skip(k as int)) == apply_clues(s0, n, clues),
            decreases clues.len() - k,
        {
            let ghost before = self@;
            let (row, col, value) = initial_values[k];
            proof {
                assert(clues.skip(k as int)[0] == clues[k as int]);
                assert(clues.skip(k as int).drop_first() =~= clues.skip(k as int + 1));
            }
            if row < self.size && col < self.size {
                self.set(row, col, value);
            }
            proof {
                assert(self@ == apply_clue(before, n, clues[k as int]));
            }
            k = k + 1;
        }
        proof {
            assert(clues.skip(clues.len() as int) =~= Seq::<(usize, usize, i32)>::empty());
        }
    }
}

} // verus!
