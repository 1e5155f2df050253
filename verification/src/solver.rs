//! The validity predicate and the backtracking search.

use vstd::prelude::*;

use crate::grid::Binairo;
use crate::rules::balance_ok;
use crate::rules::cell_ok;
use crate::rules::cell_stuck;
use crate::rules::col_pair_ok;
use crate::rules::col_seq;
use crate::rules::count_seq;
use crate::rules::count_unset;
use crate::rules::gcell;
use crate::rules::grid_complete;
use crate::rules::grid_extends;
use crate::rules::grid_solved;
use crate::rules::grid_valid;
use crate::rules::h_triple_at;
use crate::rules::is_solution;
use crate::rules::lemma_branch_exhausted;
use crate::rules::lemma_count_bounds;
use crate::rules::lemma_extends_trans;
use crate::rules::lemma_idx_bounds;
use crate::rules::lemma_idx_decompose;
use crate::rules::lemma_invalid_not_solvable;
use crate::rules::lemma_solution_after_write;
use crate::rules::lemma_unset_after_write;
use crate::rules::lemma_valid_restriction;
use crate::rules::line_balance_ok;
use crate::rules::line_complete;
use crate::rules::row_pair_ok;
use crate::rules::row_seq;
use crate::rules::solvable;
use crate::rules::triples_ok;
use crate::rules::uniqueness_ok;
use crate::rules::v_triple_at;

verus! {

/// The no-triples rule holds at every position lexicographically before
/// (r, c) in row-major order.
spec fn triples_ok_before(s: Seq<i32>, n: int, r: int, c: int) -> bool {
    &&& forall|a: int, b: int|
        0 <= a < n && 0 <= b && b + 2 < n && (a < r || (a == r && b < c))
            ==> !#[trigger] h_triple_at(s, n, a, b)
    &&& forall|a: int, b: int|
        0 <= a && a + 2 < n && 0 <= b < n && (a < r || (a == r && b < c))
            ==> !#[trigger] v_triple_at(s, n, a, b)
}

/// The uniqueness rule holds for every pair of lines lexicographically before
/// the pair (i, j).
spec fn unique_ok_before(s: Seq<i32>, n: int, i: int, j: int) -> bool {
    &&& forall|a: int, b: int|
        0 <= b < a < n && (a < i || (a == i && b < j)) ==> #[trigger] row_pair_ok(s, n, a, b)
    &&& forall|a: int, b: int|
        0 <= b < a < n && (a < i || (a == i && b < j)) ==> #[trigger] col_pair_ok(s, n, a, b)
}

impl Binairo {
    /// How many cells of row r hold the value v.
    #[verifier::loop_isolation(false)]
    fn count_row(&self, r: usize, v: i32) -> (cnt: usize)
        requires
            self.wf(),
            (r as int) < self.spec_size(),
        ensures
            cnt as int == count_seq(row_seq(self@, self.spec_size(), r as int), v),
            cnt as int <= self.spec_size(),
    {
        let ghost l = row_seq(self@, self.spec_size(), r as int);
        let n = self.size();
        let mut cnt: usize = 0;
        let mut c: usize = 0;
        while c < n
            invariant
                c <= n,
                cnt <= c,
                cnt as int == count_seq(l.take(c as int), v),
            decreases n - c,
        {
            proof {
                assert(l.take(c as int + 1).drop_last() =~= l.take(c as int));
                assert(l.take(c as int + 1).last() == l[c as int]);
            }
            if self.get(r, c) == v {
                cnt = cnt + 1;
            }
            c = c + 1;
        }
        proof {
            assert(l.take(n as int) =~= l);
        }
        cnt
    }

    /// How many cells of column c hold the value v.
    #[verifier::loop_isolation(false)]
    fn count_col(&self, c: usize, v: i32) -> (cnt: usize)
        requires
            self.wf(),
            (c as int) < self.spec_size(),
        ensures
            cnt as int == count_seq(col_seq(self@, self.spec_size(), c as int), v),
            cnt as int <= self.spec_size(),
    {
        let ghost l = col_seq(self@, self.spec_size(), c as int);
        let n = self.size();
        let mut cnt: usize = 0;
        let mut r: usize = 0;
        while r < n
            invariant
                r <= n,
                cnt <= r,
                cnt as int == count_seq(l.take(r as int), v),
            decreases n - r,
        {
            proof {
                assert(l.take(r as int + 1).drop_last() =~= l.take(r as int));
                assert(l.take(r as int + 1).last() == l[r as int]);
            }
            if self.get(r, c) == v {
                cnt = cnt + 1;
            }
            r = r + 1;
        }
        proof {
            assert(l.take(n as int) =~= l);
        }
        cnt
    }

    /// True iff every cell of row r is assigned.
    #[verifier::loop_isolation(false)]
    fn row_filled(&self, r: usize) -> (b: bool)
        requires
            self.wf(),
            (r as int) < self.spec_size(),
        ensures
            b == line_complete(row_seq(self@, self.spec_size(), r as int)),
    {
        let ghost l = row_seq(self@, self.spec_size(), r as int);
        let n = self.size();
        let mut c: usize = 0;
        while c < n
            invariant
                c <= n,
                forall|j: int| 0 <= j < c ==> #[trigger] l[j] != -1,
            decreases n - c,
        {
            if self.get(r, c) == -1 {
                proof {
                    assert(l[c as int] == -1);
                }
                return false;
            }
            c = c + 1;
        }
        true
    }

    /// True iff every cell of column c is assigned.
    #[verifier::loop_isolation(false)]
    fn col_filled(&self, c: usize) -> (b: bool)
        requires
            self.wf(),
            (c as int) < self.spec_size(),
        ensures
            b == line_complete(col_seq(self@, self.spec_size(), c as int)),
    {
        let ghost l = col_seq(self@, self.spec_size(), c as int);
        let n = self.size();
        let mut r: usize = 0;
        while r < n
            invariant
                r <= n,
                forall|j: int| 0 <= j < r ==> #[trigger] l[j] != -1,
            decreases n - r,
        {
            if self.get(r, c) == -1 {
                proof {
                    assert(l[r as int] == -1);
                }
                return false;
            }
            r = r + 1;
        }
        true
    }

    /// True iff rows i and j hold the same values, cell for cell.
    #[verifier::loop_isolation(false)]
    fn rows_match(&self, i: usize, j: usize) -> (b: bool)
        requires
            self.wf(),
            (i as int) < self.spec_size(),
            (j as int) < self.spec_size(),
        ensures
            b == (row_seq(self@, self.spec_size(), i as int) == row_seq(
                self@,
                self.spec_size(),
                j as int,
            )),
    {
        let ghost li = row_seq(self@, self.spec_size(), i as int);
        let ghost lj = row_seq(self@, self.spec_size(), j as int);
        let n = self.size();
        let mut c: usize = 0;
        while c < n
            invariant
                c <= n,
                forall|k: int| 0 <= k < c ==> #[trigger] li[k] == lj[k],
            decreases n - c,
        {
            if self.get(i, c) != self.get(j, c) {
                proof {
                    assert(li[c as int] != lj[c as int]);
                }
                return false;
            }
            c = c + 1;
        }
        proof {
            assert(li =~= lj);
        }
        true
    }

    /// True iff columns i and j hold the same values, cell for cell.
    #[verifier::loop_isolation(false)]
    fn cols_match(&self, i: usize, j: usize) -> (b: bool)
        requires
            self.wf(),
            (i as int) < self.spec_size(),
            (j as int) < self.spec_size(),
        ensures
            b == (col_seq(self@, self.spec_size(), i as int) == col_seq(
                self@,
                self.spec_size(),
                j as int,
            )),
    {
        let ghost li = col_seq(self@, self.spec_size(), i as int);
        let ghost lj = col_seq(self@, self.spec_size(), j as int);
        let n = self.size();
        let mut r: usize = 0;
        while r < n
            invariant
                r <= n,
                forall|k: int| 0 <= k < r ==> #[trigger] li[k] == lj[k],
            decreases n - r,
        {
            if self.get(r, i) != self.get(r, j) {
                proof {
                    assert(li[r as int] != lj[r as int]);
                }
                return false;
            }
            r = r + 1;
        }
        proof {
            assert(li =~= lj);
        }
        true
    }

    /// Checks the no-triples rule over the whole grid.
    #[verifier::loop_isolation(false)]
    fn check_no_triples(&self) -> (ok: bool)
        requires
            self.wf(),
        ensures
            ok == triples_ok(self@, self.spec_size()),
    {
        let ghost gs = self@;
        let ghost gn = self.spec_size();
        let n = self.size();
        let mut r: usize = 0;
        while r < n
            invariant
                r <= n,
                triples_ok_before(gs, gn, r as int, 0),
            decreases n - r,
        {
            let mut c: usize = 0;
            while c < n
                invariant
                    c <= n,
                    triples_ok_before(gs, gn, r as int, c as int),
                decreases n - c,
            {
                let v = self.get(r, c);
                if v != -1 {
                    if n - r > 2 {
                        if self.get(r + 1, c) == v && self.get(r + 2, c) == v {
                            proof {
                                assert(v_triple_at(gs, gn, r as int, c as int));
                            }
                            return false;
                        }
                    }
                    if n - c > 2 {
                        if self.get(r, c + 1) == v && self.get(r, c + 2) == v {
                            proof {
                                assert(h_triple_at(gs, gn, r as int, c as int));
                            }
                            return false;
                        }
                    }
                }
                proof {
                    if c as int + 2 < gn {
                        assert(!h_triple_at(gs, gn, r as int, c as int));
                    }
                    if r as int + 2 < gn {
                        assert(!v_triple_at(gs, gn, r as int, c as int));
                    }
                }
                c = c + 1;
            }
            r = r + 1;
        }
        true
    }

    /// Checks the balance rule over every row and column.
    #[verifier::loop_isolation(false)]
    fn check_balance(&self) -> (ok: bool)
        requires
            self.wf(),
        ensures
            ok == balance_ok(self@, self.spec_size()),
    {
        let ghost gs = self@;
        let ghost gn = self.spec_size();
        let n = self.size();
        let half = n / 2;
        let mut i: usize = 0;
        while i < n
            invariant
                i <= n,
                forall|k: int| 0 <= k < i ==> line_balance_ok(#[trigger] row_seq(gs, gn, k), gn / 2),
                forall|k: int| 0 <= k < i ==> line_balance_ok(#[trigger] col_seq(gs, gn, k), gn / 2),
            decreases n - i,
        {
            let rc0 = self.count_row(i, 0);
            let rc1 = self.count_row(i, 1);
            let cc0 = self.count_col(i, 0);
            let cc1 = self.count_col(i, 1);
            if self.row_filled(i) && rc0 != rc1 {
                proof {
                    assert(!line_balance_ok(row_seq(gs, gn, i as int), gn / 2));
                }
                return false;
            }
            if self.col_filled(i) && cc0 != cc1 {
                proof {
                    assert(!line_balance_ok(col_seq(gs, gn, i as int), gn / 2));
                }
                return false;
            }
            if rc0 > half || rc1 > half || cc0 > half || cc1 > half {
                proof {
                    assert(!line_balance_ok(row_seq(gs, gn, i as int), gn / 2)
                        || !line_balance_ok(col_seq(gs, gn, i as int), gn / 2));
                }
                return false;
            }
            i = i + 1;
        }
        true
    }

    /// Checks the uniqueness rule over every pair of rows and of columns.
    #[verifier::loop_isolation(false)]
    fn check_uniqueness(&self) -> (ok: bool)
        requires
            self.wf(),
        ensures
            ok == uniqueness_ok(self@, self.spec_size()),
    {
        let ghost gs = self@;
        let ghost gn = self.spec_size();
        let n = self.size();
        let mut i: usize = 0;
        while i < n
            invariant
                i <= n,
                unique_ok_before(gs, gn, i as int, 0),
            decreases n - i,
        {
            let mut j: usize = 0;
            while j < i
                invariant
                    j <= i,
                    unique_ok_before(gs, gn, i as int, j as int),
                decreases i - j,
            {
                if self.row_filled(i) && self.row_filled(j) && self.rows_match(i, j) {
                    proof {
                        assert(!row_pair_ok(gs, gn, i as int, j as int));
                    }
                    return false;
                }
                if self.col_filled(i) && self.col_filled(j) && self.cols_match(i, j) {
                    proof {
                        assert(!col_pair_ok(gs, gn, i as int, j as int));
                    }
                    return false;
                }
                proof {
                    assert(row_pair_ok(gs, gn, i as int, j as int));
                    assert(col_pair_ok(gs, gn, i as int, j as int));
                }
                j = j + 1;
            }
            i = i + 1;
        }
        true
    }

    /// The validity predicate: true iff the no-triples, balance and
    /// uniqueness rules all hold of the current, possibly incomplete grid.
    pub fn is_valid(&self) -> (ok: bool)
        requires
            self.wf(),
        ensures
            ok == grid_valid(self@, self.spec_size()),
    {
        self.check_no_triples() && self.check_balance() && self.check_uniqueness()
    }

    /// True iff every cell is assigned and the grid is valid.
    pub fn is_solved(&self) -> (ok: bool)
        requires
            self.wf(),
        ensures
            ok == grid_solved(self@, self.spec_size()),
    {
        self.is_complete() && self.is_valid()
    }

    /// Backtracking search. Returns true iff the clues admit a completion
    /// obeying all three rules; on success the grid holds one such
    /// completion, on failure it is left exactly as it was.
    #[verifier::loop_isolation(false)]
    pub fn solve(&mut self) -> (found: bool)
        requires
            old(self).wf(),
        ensures
            final(self).wf(),
            final(self).spec_size() == old(self).spec_size(),
            found == solvable(old(self)@, old(self).spec_size()),
            found ==> grid_solved(final(self)@, old(self).spec_size()) && grid_extends(
                final(self)@,
                old(self)@,
            ),
            !found ==> final(self)@ == old(self)@,
        decreases count_unset(old(self)@),
    {
        let ghost n = old(self).spec_size();
        let ghost s0 = old(self)@;
        if !self.is_valid() {
            proof {
                lemma_invalid_not_solvable(s0, n);
            }
            return false;
        }
        if self.is_solved() {
            proof {
                assert(is_solution(s0, n, self@));
            }
            return true;
        }
        let n_exec = self.size();
        let mut best_row: usize = 0;
        let mut best_col: usize = 0;
        let mut have_cell = false;
        let mut min_choices: usize = 3;
        let mut r: usize = 0;
        while r < n_exec
            invariant
                r <= n_exec,
                self@ == s0,
                self.spec_size() == n,
                !have_cell ==> min_choices == 3,
                !have_cell ==> forall|a: int, b: int|
                    0 <= a < r && 0 <= b < n && gcell(s0, n, a, b) == -1 ==> #[trigger] cell_stuck(
                        s0,
                        n,
                        a,
                        b,
                    ),
                have_cell ==> 0 <= best_row < n && 0 <= best_col < n && gcell(
                    s0,
                    n,
                    best_row as int,
                    best_col as int,
                ) == -1,
            decreases n_exec - r,
        {
            let mut c: usize = 0;
            while c < n_exec
                invariant
                    c <= n_exec,
                    self@ == s0,
                    self.spec_size() == n,
                    !have_cell ==> min_choices == 3,
                    !have_cell ==> forall|a: int, b: int|
                        0 <= a < r && 0 <= b < n && gcell(s0, n, a, b) == -1
                            ==> #[trigger] cell_stuck(s0, n, a, b),
                    !have_cell ==> forall|b: int|
                        0 <= b < c && gcell(s0, n, r as int, b) == -1 ==> #[trigger] cell_stuck(
                            s0,
                            n,
                            r as int,
                            b,
                        ),
                    have_cell ==> 0 <= best_row < n && 0 <= best_col < n && gcell(
                        s0,
                        n,
                        best_row as int,
                        best_col as int,
                    ) == -1,
                decreases n_exec - c,
            {
                if self.get(r, c) == -1 {
                    let ghost i = r as int * n + c as int;
                    proof {
                        lemma_idx_bounds(n, r as int, c as int);
                    }
                    let mut choices: usize = 0;
                    self.set(r, c, 0);
                    let ok0 = self.is_valid();
                    if ok0 {
                        choices = choices + 1;
                    }
                    self.set(r, c, -1);
                    proof {
                        assert(s0.update(i, 0).update(i, -1i32) =~= s0);
                        assert(ok0 == grid_valid(s0.update(i, 0), n));
                    }
                    self.set(r, c, 1);
                    let ok1 = self.is_valid();
                    if ok1 {
                        choices = choices + 1;
                    }
                    self.set(r, c, -1);
                    proof {
                        assert(s0.update(i, 1).update(i, -1i32) =~= s0);
                        assert(ok1 == grid_valid(s0.update(i, 1), n));
                    }
                    if choices > 0 && choices < min_choices {
                        min_choices = choices;
                        best_row = r;
                        best_col = c;
                        have_cell = true;
                    }
                    proof {
                        if choices == 0 {
                            assert(cell_stuck(s0, n, r as int, c as int));
                        }
                    }
                }
                c = c + 1;
            }
            r = r + 1;
        }
        if !have_cell {
            proof {
                assert(!grid_complete(s0));
                if solvable(s0, n) {
                    let sol = choose|sol: Seq<i32>| is_solution(s0, n, sol);
                    let i = choose|i: int| 0 <= i < s0.len() && s0[i] == -1;
                    lemma_idx_decompose(n, i);
                    let a = i / n;
                    let b = i % n;
                    assert(cell_ok(sol[i]));
                    lemma_solution_after_write(s0, n, sol, i, sol[i]);
                    lemma_valid_restriction(s0.update(i, sol[i]), n, sol);
                    assert(gcell(s0, n, a, b) == -1);
                    assert(cell_stuck(s0, n, a, b));
                    assert(false);
                }
            }
            return false;
        }
        let ghost bi = best_row as int * n + best_col as int;
        proof {
            lemma_idx_bounds(n, best_row as int, best_col as int);
        }
        self.set(best_row, best_col, 0);
        let ghost g0 = self@;
        if self.is_valid() {
            proof {
                lemma_unset_after_write(s0, bi, 0);
                lemma_count_bounds(g0, -1i32);
            }
            let deeper = self.solve();
            if deeper {
                proof {
                    assert(grid_extends(g0, s0));
                    lemma_extends_trans(self@, g0, s0);
                    assert(is_solution(s0, n, self@));
                }
                return true;
            }
        }
        proof {
            if !grid_valid(g0, n) {
                lemma_invalid_not_solvable(g0, n);
            }
            assert(!solvable(g0, n));
        }
        self.set(best_row, best_col, -1);
        proof {
            assert(g0.update(bi, -1i32) =~= s0);
        }
        self.set(best_row, best_col, 1);
        let ghost g1 = self@;
        if self.is_valid() {
            proof {
                lemma_unset_after_write(s0, bi, 1);
                lemma_count_bounds(g1, -1i32);
            }
            let deeper = self.solve();
            if deeper {
                proof {
                    assert(grid_extends(g1, s0));
                    lemma_extends_trans(self@, g1, s0);
                    assert(is_solution(s0, n, self@));
                }
                return true;
            }
        }
        proof {
            if !grid_valid(g1, n) {
                lemma_invalid_not_solvable(g1, n);
            }
            assert(!solvable(g1, n));
        }
        self.set(best_row, best_col, -1);
        proof {
            assert(g1.update(bi, -1i32) =~= s0);
            lemma_branch_exhausted(s0, n, bi);
        }
        false
    }
}

} // verus!

