//! The taxon-by-character matrix model.
//!
//! A matrix is a rectangular grid of cell values: `0` is absent, `1` is
//! present, and the reserved sentinel [`AMBIGUOUS`] marks a cell whose true
//! value is unknown.  Rows index taxa, columns index characters.

use vstd::prelude::*;

verus! {

/// Sentinel cell value standing for an unknown entry.
pub const AMBIGUOUS: usize = 2;

/// The mathematical view of a matrix: a sequence of rows.
pub open spec fn mat_view(m: &Vec<Vec<usize>>) -> Seq<Seq<usize>> {
    m.deep_view()
}

/// A well-formed matrix: at least one row, at least one column, all rows of
/// equal length.
pub open spec fn rectangular(m: Seq<Seq<usize>>) -> bool {
    &&& m.len() > 0
    &&& m[0].len() > 0
    &&& forall|i: int| 0 <= i < m.len() ==> #[trigger] m[i].len() == m[0].len()
}

/// The columns where row `i` has a present cell.
pub open spec fn present_set(m: Seq<Seq<usize>>, i: int) -> Set<usize> {
    Set::new(|c: usize| c < m[i].len() && m[i][c as int] == 1)
}

/// Count of present cells in column `j` among the first `n` rows.
pub open spec fn col_sum_upto(m: Seq<Seq<usize>>, j: int, n: int) -> nat
    decreases n,
{
    if n <= 0 {
        0
    } else {
        col_sum_upto(m, j, n - 1) + (if m[n - 1][j] == 1 {
            1nat
        } else {
            0nat
        })
    }
}

/// Count of present cells in column `j`: the column's frequency.
pub open spec fn col_sum(m: Seq<Seq<usize>>, j: int) -> nat {
    col_sum_upto(m, j, m.len() as int)
}

pub proof fn lemma_col_sum_upto_bound(m: Seq<Seq<usize>>, j: int, n: int)
    requires
        n >= 0,
    ensures
        col_sum_upto(m, j, n) <= n,
    decreases n,
{
    if n > 0 {
        lemma_col_sum_upto_bound(m, j, n - 1);
    }
}

/// Count of present cells in one column of the matrix.
pub fn column_sum(mat: &Vec<Vec<usize>>, j: usize) -> (s: usize)
    requires
        rectangular(mat_view(mat)),
        j < mat_view(mat)[0].len(),
    ensures
        s == col_sum(mat_view(mat), j as int),
{
    let ghost m = mat_view(mat);
    let mut s: usize = 0;
    let mut i: usize = 0;
    while i < mat.len()
        invariant
            rectangular(m),
            m == mat_view(mat),
            j < m[0].len(),
            i <= mat.len(),
            m.len() == mat.len(),
            s == col_sum_upto(m, j as int, i as int),
        decreases mat.len() - i,
    {
        proof {
            lemma_col_sum_upto_bound(m, j as int, i as int);
            assert(m[i as int] == mat@[i as int]@);
        }
        if mat[i][j] == 1 {
            s = s + 1;
        }
        i = i + 1;
    }
    s
}

} // verus!
