//! The mathematical model of a Binairo board and its three rules.
//!
//! A board of side `n` is modelled as a flat, row-major sequence of
//! `n * n` values, each -1 (unset), 0, or 1. The predicates here state the
//! no-triples, balance and uniqueness rules, what a solution of a clue grid
//! is, and the lemmas that the solver's proofs rest on.

use vstd::prelude::*;

verus! {

/// A cell holds 0 or 1 once assigned; -1 marks an unset cell.
pub open spec fn cell_ok(v: i32) -> bool {
    v == -1 || v == 0 || v == 1
}

/// Every entry of the flat cell sequence is -1, 0 or 1.
pub open spec fn cells_ok(s: Seq<i32>) -> bool {
    forall|i: int| 0 <= i < s.len() ==> cell_ok(#[trigger] s[i])
}

/// A well-formed board: a positive even side length, and a flat row-major
/// sequence of side * side cells, each -1, 0 or 1.
pub open spec fn grid_wf(s: Seq<i32>, n: int) -> bool {
    &&& 0 < n
    &&& n % 2 == 0
    &&& s.len() == n * n
    &&& cells_ok(s)
}

/// The value of the cell in row `r`, column `c` of the flat sequence.
pub open spec fn gcell(s: Seq<i32>, n: int, r: int, c: int) -> i32 {
    s[r * n + c]
}

/// Row `r` as a sequence of `n` cell values.
pub open spec fn row_seq(s: Seq<i32>, n: int, r: int) -> Seq<i32> {
    Seq::new(n as nat, |c: int| gcell(s, n, r, c))
}

/// Column `c` as a sequence of `n` cell values.
pub open spec fn col_seq(s: Seq<i32>, n: int, c: int) -> Seq<i32> {
    Seq::new(n as nat, |r: int| gcell(s, n, r, c))
}

/// A line (row or column) with no unset cell.
pub open spec fn line_complete(l: Seq<i32>) -> bool {
    forall|j: int| 0 <= j < l.len() ==> #[trigger] l[j] != -1
}

/// How many cells of a line hold the value `v`.
pub open spec fn count_seq(l: Seq<i32>, v: i32) -> int
    decreases l.len(),
{
    if l.len() == 0 {
        0
    } else {
        count_seq(l.drop_last(), v) + if l.last() == v {
            1int
        } else {
            0int
        }
    }
}

/// Every cell of the grid is assigned.
pub open spec fn grid_complete(s: Seq<i32>) -> bool {
    forall|i: int| 0 <= i < s.len() ==> #[trigger] s[i] != -1
}

/// Three equal assigned cells start at (r, c) and run to the right.
pub open spec fn h_triple_at(s: Seq<i32>, n: int, r: int, c: int) -> bool {
    &&& gcell(s, n, r, c) != -1
    &&& gcell(s, n, r, c + 1) == gcell(s, n, r, c)
    &&& gcell(s, n, r, c + 2) == gcell(s, n, r, c)
}

/// Three equal assigned cells start at (r, c) and run downwards.
pub open spec fn v_triple_at(s: Seq<i32>, n: int, r: int, c: int) -> bool {
    &&& gcell(s, n, r, c) != -1
    &&& gcell(s, n, r + 1, c) == gcell(s, n, r, c)
    &&& gcell(s, n, r + 2, c) == gcell(s, n, r, c)
}

/// No-triples rule: no three consecutive equal assigned cells in any row
/// or column.
pub open spec fn triples_ok(s: Seq<i32>, n: int) -> bool {
    &&& forall|r: int, c: int|
        0 <= r < n && 0 <= c && c + 2 < n ==> !#[trigger] h_triple_at(s, n, r, c)
    &&& forall|r: int, c: int|
        0 <= r && r + 2 < n && 0 <= c < n ==> !#[trigger] v_triple_at(s, n, r, c)
}

/// Balance rule for one line: a complete line holds as many 0s as 1s, and no
/// line, complete or not, holds more than `half` 0s or more than `half` 1s.
pub open spec fn line_balance_ok(l: Seq<i32>, half: int) -> bool {
    &&& line_complete(l) ==> count_seq(l, 0) == count_seq(l, 1)
    &&& count_seq(l, 0) <= half
    &&& count_seq(l, 1) <= half
}

/// Balance rule over the whole grid.
pub open spec fn balance_ok(s: Seq<i32>, n: int) -> bool {
    &&& forall|i: int| 0 <= i < n ==> line_balance_ok(#[trigger] row_seq(s, n, i), n / 2)
    &&& forall|i: int| 0 <= i < n ==> line_balance_ok(#[trigger] col_seq(s, n, i), n / 2)
}

/// Rows `i` and `j` do not violate the uniqueness rule: they are not both
/// complete and identical.
pub open spec fn row_pair_ok(s: Seq<i32>, n: int, i: int, j: int) -> bool {
    line_complete(row_seq(s, n, i)) && line_complete(row_seq(s, n, j)) ==> row_seq(s, n, i)
        != row_seq(s, n, j)
}

/// Columns `i` and `j` do not violate the uniqueness rule.
pub open spec fn col_pair_ok(s: Seq<i32>, n: int, i: int, j: int) -> bool {
    line_complete(col_seq(s, n, i)) && line_complete(col_seq(s, n, j)) ==> col_seq(s, n, i)
        != col_seq(s, n, j)
}

/// Uniqueness rule: no two complete rows are identical, nor two complete
/// columns.
pub open spec fn uniqueness_ok(s: Seq<i32>, n: int) -> bool {
    &&& forall|i: int, j: int| 0 <= j < i < n ==> #[trigger] row_pair_ok(s, n, i, j)
    &&& forall|i: int, j: int| 0 <= j < i < n ==> #[trigger] col_pair_ok(s, n, i, j)
}

/// The validity predicate: all three rules hold of the current, possibly
/// incomplete grid.
pub open spec fn grid_valid(s: Seq<i32>, n: int) -> bool {
    triples_ok(s, n) && balance_ok(s, n) && uniqueness_ok(s, n)
}

/// A solved grid: complete and valid.
pub open spec fn grid_solved(s: Seq<i32>, n: int) -> bool {
    grid_complete(s) && grid_valid(s, n)
}

/// `s2` agrees with `s1` on every assigned cell of `s1`; it may fill cells
/// that `s1` leaves unset.
pub open spec fn grid_extends(s2: Seq<i32>, s1: Seq<i32>) -> bool {
    &&& s2.len() == s1.len()
    &&& forall|i: int| 0 <= i < s1.len() && #[trigger] s1[i] != -1 ==> s2[i] == s1[i]
}

/// `s` is a solution of the clue grid `s0`: it keeps every clue of `s0` and
/// is a complete, valid grid.
pub open spec fn is_solution(s0: Seq<i32>, n: int, s: Seq<i32>) -> bool {
    &&& grid_extends(s, s0)
    &&& cells_ok(s)
    &&& grid_complete(s)
    &&& grid_valid(s, n)
}

/// The clue grid `s0` has at least one solution.
pub open spec fn solvable(s0: Seq<i32>, n: int) -> bool {
    exists|s: Seq<i32>| is_solution(s0, n, s)
}

/// How many cells of the grid are still unset.
pub open spec fn count_unset(s: Seq<i32>) -> int {
    count_seq(s, -1i32)
}

/// Neither 0 nor 1 can be written at (r, c) without breaking a rule.
pub open spec fn cell_stuck(s: Seq<i32>, n: int, r: int, c: int) -> bool {
    &&& !grid_valid(s.update(r * n + c, 0), n)
    &&& !grid_valid(s.update(r * n + c, 1), n)
}

/// One clue applied to the flat sequence; a clue outside the board is
/// ignored.
pub open spec fn apply_clue(s: Seq<i32>, n: int, clue: (usize, usize, i32)) -> Seq<i32> {
    if (clue.0 as int) < n && (clue.1 as int) < n {
        s.update((clue.0 as int) * n + (clue.1 as int), clue.2)
    } else {
        s
    }
}

/// A list of clues applied in order, later clues overwriting earlier ones.
pub open spec fn apply_clues(s: Seq<i32>, n: int, clues: Seq<(usize, usize, i32)>) -> Seq<i32>
    decreases clues.len(),
{
    if clues.len() == 0 {
        s
    } else {
        apply_clues(apply_clue(s, n, clues[0]), n, clues.drop_first())
    }
}

/// Row-major indexing stays within an n-by-n grid.
pub proof fn lemma_idx_bounds(n: int, r: int, c: int)
    by (nonlinear_arith)
    requires
        0 <= r < n,
        0 <= c < n,
    ensures
        0 <= r * n + c < n * n,
{
}

/// Distinct coordinates map to distinct flat indices.
pub proof fn lemma_idx_injective(n: int, r1: int, c1: int, r2: int, c2: int)
    by (nonlinear_arith)
    requires
        0 <= r1 < n,
        0 <= c1 < n,
        0 <= r2 < n,
        0 <= c2 < n,
        r1 * n + c1 == r2 * n + c2,
    ensures
        r1 == r2,
        c1 == c2,
{
}

/// A flat index decomposes into its row and column.
pub proof fn lemma_idx_decompose(n: int, i: int)
    by (nonlinear_arith)
    requires
        0 < n,
        0 <= i < n * n,
    ensures
        0 <= i / n < n,
        0 <= i % n < n,
        i == (i / n) * n + i % n,
{
}

/// A count never falls below zero nor above the line's length.
pub proof fn lemma_count_bounds(l: Seq<i32>, v: i32)
    ensures
        0 <= count_seq(l, v) <= l.len(),
    decreases l.len(),
{
    if l.len() > 0 {
        lemma_count_bounds(l.drop_last(), v);
    }
}

/// Filling unset cells can only increase the count of an assigned value.
pub proof fn lemma_count_le(l1: Seq<i32>, l2: Seq<i32>, v: i32)
    requires
        l1.len() == l2.len(),
        v != -1,
        forall|j: int| 0 <= j < l1.len() && #[trigger] l1[j] != -1 ==> l2[j] == l1[j],
    ensures
        count_seq(l1, v) <= count_seq(l2, v),
    decreases l1.len(),
{
    if l1.len() > 0 {
        lemma_count_le(l1.drop_last(), l2.drop_last(), v);
        lemma_count_bounds(l1.drop_last(), v);
        lemma_count_bounds(l2.drop_last(), v);
    }
}

/// Overwriting one cell changes a count by the leaving and entering values.
pub proof fn lemma_count_update(l: Seq<i32>, i: int, v: i32, x: i32)
    requires
        0 <= i < l.len(),
    ensures
        count_seq(l.update(i, v), x) == count_seq(l, x) - (if l[i] == x {
            1int
        } else {
            0int
        }) + (if v == x {
            1int
        } else {
            0int
        }),
    decreases l.len(),
{
    if i == l.len() - 1 {
        assert(l.update(i, v).drop_last() =~= l.drop_last());
    } else {
        assert(l.update(i, v).drop_last() =~= l.drop_last().update(i, v));
        lemma_count_update(l.drop_last(), i, v, x);
    }
}

/// Writing 0 or 1 into an unset cell lowers the number of unset cells by one.
pub proof fn lemma_unset_after_write(s: Seq<i32>, i: int, v: i32)
    requires
        0 <= i < s.len(),
        s[i] == -1,
        v != -1,
    ensures
        count_unset(s.update(i, v)) == count_unset(s) - 1,
{
    lemma_count_update(s, i, v, -1i32);
}

/// A solved grid is valid, and a solved grid is complete.
pub proof fn lemma_solved_implies_valid(s: Seq<i32>, n: int)
    ensures
        grid_solved(s, n) ==> grid_valid(s, n),
        grid_solved(s, n) ==> grid_complete(s),
{
}

/// Extending is transitive.
pub proof fn lemma_extends_trans(s2: Seq<i32>, s1: Seq<i32>, s0: Seq<i32>)
    requires
        grid_extends(s2, s1),
        grid_extends(s1, s0),
    ensures
        grid_extends(s2, s0),
{
    assert forall|i: int| 0 <= i < s0.len() && #[trigger] s0[i] != -1 implies s2[i] == s0[i] by {
        assert(s1[i] == s0[i]);
    }
}

/// If `s` extends `s0`, each row of `s` agrees with the assigned cells of the
/// same row of `s0`.
pub proof fn lemma_row_extends(s0: Seq<i32>, s: Seq<i32>, n: int, r: int)
    requires
        grid_extends(s, s0),
        s0.len() == n * n,
        0 <= r < n,
    ensures
        forall|c: int|
            0 <= c < n && #[trigger] row_seq(s0, n, r)[c] != -1 ==> row_seq(s, n, r)[c] == row_seq(
                s0,
                n,
                r,
            )[c],
{
    assert forall|c: int| 0 <= c < n && #[trigger] row_seq(s0, n, r)[c] != -1 implies row_seq(
        s,
        n,
        r,
    )[c] == row_seq(s0, n, r)[c] by {
        lemma_idx_bounds(n, r, c);
    }
}

/// If `s` extends `s0`, each column of `s` agrees with the assigned cells of
/// the same column of `s0`.
pub proof fn lemma_col_extends(s0: Seq<i32>, s: Seq<i32>, n: int, c: int)
    requires
        grid_extends(s, s0),
        s0.len() == n * n,
        0 <= c < n,
    ensures
        forall|r: int|
            0 <= r < n && #[trigger] col_seq(s0, n, c)[r] != -1 ==> col_seq(s, n, c)[r] == col_seq(
                s0,
                n,
                c,
            )[r],
{
    assert forall|r: int| 0 <= r < n && #[trigger] col_seq(s0, n, c)[r] != -1 implies col_seq(
        s,
        n,
        c,
    )[r] == col_seq(s0, n, c)[r] by {
        lemma_idx_bounds(n, r, c);
    }
}

/// Any grid that a complete valid grid extends is itself valid: each of the
/// three rules, once broken, stays broken as further cells are filled.
pub proof fn lemma_valid_restriction(s0: Seq<i32>, n: int, s: Seq<i32>)
    requires
        s0.len() == n * n,
        0 < n,
        grid_extends(s, s0),
        cells_ok(s),
        grid_complete(s),
        grid_valid(s, n),
    ensures
        grid_valid(s0, n),
{
    // No-triples rule: a triple of assigned cells persists in s.
    assert forall|r: int, c: int| 0 <= r < n && 0 <= c && c + 2 < n implies !#[trigger] h_triple_at(
        s0,
        n,
        r,
        c,
    ) by {
        if h_triple_at(s0, n, r, c) {
            lemma_idx_bounds(n, r, c);
            lemma_idx_bounds(n, r, c + 1);
            lemma_idx_bounds(n, r, c + 2);
            assert(h_triple_at(s, n, r, c));
        }
    }
    assert forall|r: int, c: int| 0 <= r && r + 2 < n && 0 <= c < n implies !#[trigger] v_triple_at(
        s0,
        n,
        r,
        c,
    ) by {
        if v_triple_at(s0, n, r, c) {
            lemma_idx_bounds(n, r, c);
            lemma_idx_bounds(n, r + 1, c);
            lemma_idx_bounds(n, r + 2, c);
            assert(v_triple_at(s, n, r, c));
        }
    }
    // Balance rule: counts only grow as cells are filled, and a complete
    // line of s0 is the same line in s.
    assert forall|i: int| 0 <= i < n implies line_balance_ok(#[trigger] row_seq(s0, n, i), n / 2) by {
        lemma_row_extends(s0, s, n, i);
        let l0 = row_seq(s0, n, i);
        let l = row_seq(s, n, i);
        assert forall|c: int| 0 <= c < l.len() implies #[trigger] l[c] != -1 by {
            lemma_idx_bounds(n, i, c);
        }
        assert(line_balance_ok(l, n / 2));
        lemma_count_le(l0, l, 0);
        lemma_count_le(l0, l, 1);
        if line_complete(l0) {
            assert(l0 =~= l);
        }
    }
    assert forall|i: int| 0 <= i < n implies line_balance_ok(#[trigger] col_seq(s0, n, i), n / 2) by {
        lemma_col_extends(s0, s, n, i);
        let l0 = col_seq(s0, n, i);
        let l = col_seq(s, n, i);
        assert forall|r: int| 0 <= r < l.len() implies #[trigger] l[r] != -1 by {
            lemma_idx_bounds(n, r, i);
        }
        assert(line_balance_ok(l, n / 2));
        lemma_count_le(l0, l, 0);
        lemma_count_le(l0, l, 1);
        if line_complete(l0) {
            assert(l0 =~= l);
        }
    }
    // Uniqueness rule: two identical complete lines of s0 are the same two
    // lines in s.
    assert forall|i: int, j: int| 0 <= j < i < n implies #[trigger] row_pair_ok(s0, n, i, j) by {
        if line_complete(row_seq(s0, n, i)) && line_complete(row_seq(s0, n, j)) {
            lemma_row_extends(s0, s, n, i);
            lemma_row_extends(s0, s, n, j);
            assert(row_seq(s0, n, i) =~= row_seq(s, n, i));
            assert(row_seq(s0, n, j) =~= row_seq(s, n, j));
            assert(row_pair_ok(s, n, i, j));
        }
    }
    assert forall|i: int, j: int| 0 <= j < i < n implies #[trigger] col_pair_ok(s0, n, i, j) by {
        if line_complete(col_seq(s0, n, i)) && line_complete(col_seq(s0, n, j)) {
            lemma_col_extends(s0, s, n, i);
            lemma_col_extends(s0, s, n, j);
            assert(col_seq(s0, n, i) =~= col_seq(s, n, i));
            assert(col_seq(s0, n, j) =~= col_seq(s, n, j));
            assert(col_pair_ok(s, n, i, j));
        }
    }
}

/// An invalid grid has no solution.
pub proof fn lemma_invalid_not_solvable(s0: Seq<i32>, n: int)
    requires
        s0.len() == n * n,
        0 < n,
        !grid_valid(s0, n),
    ensures
        !solvable(s0, n),
{
    if solvable(s0, n) {
        let s = choose|s: Seq<i32>| is_solution(s0, n, s);
        lemma_valid_restriction(s0, n, s);
    }
}

/// A solution assigns each unset clue cell its own value: writing that value
/// into the clue grid keeps the same solution.
pub proof fn lemma_solution_after_write(s0: Seq<i32>, n: int, s: Seq<i32>, i: int, v: i32)
    requires
        is_solution(s0, n, s),
        0 <= i < s0.len(),
        s0[i] == -1,
        s[i] == v,
    ensures
        is_solution(s0.update(i, v), n, s),
{
    let s1 = s0.update(i, v);
    assert forall|j: int| 0 <= j < s1.len() && #[trigger] s1[j] != -1 implies s[j] == s1[j] by {
        if j != i {
            assert(s0[j] != -1);
        }
    }
}

/// If neither writing 0 nor writing 1 at an unset cell leaves a solvable
/// grid, the grid itself has no solution.
pub proof fn lemma_branch_exhausted(s0: Seq<i32>, n: int, i: int)
    requires
        0 <= i < s0.len(),
        s0[i] == -1,
        !solvable(s0.update(i, 0), n),
        !solvable(s0.update(i, 1), n),
    ensures
        !solvable(s0, n),
{
    if solvable(s0, n) {
        let s = choose|s: Seq<i32>| is_solution(s0, n, s);
        assert(cell_ok(s[i]));
        if s[i] == 0 {
            lemma_solution_after_write(s0, n, s, i, 0);
            assert(solvable(s0.update(i, 0), n));
        } else {
            lemma_solution_after_write(s0, n, s, i, 1);
            assert(solvable(s0.update(i, 1), n));
        }
    }
}

} // verus!
