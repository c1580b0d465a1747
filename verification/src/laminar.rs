//! The laminar family test that decides whether a matrix admits a perfect
//! phylogeny.
//!
//! Scanning each row in the character order, a running marker starts at a
//! sentinel and, after every present cell, advances to record the column just
//! passed.  A present cell's recorded value is the marker in force when the
//! cell is reached.  The matrix is laminar exactly when, at every position of
//! the order, all rows present there recorded the same marker: no two
//! characters then imply conflicting branch orderings.

use vstd::prelude::*;
use crate::matrix::{mat_view, rectangular};

verus! {

/// The running marker of the row scan: either nothing has been recorded yet,
/// or the most recent present column has.
#[derive(PartialEq, Eq, Structural, Clone, Copy, Debug)]
pub enum Marker {
    Sentinel,
    After(usize),
}

/// The marker in force in row `i` when position `p` of the order is reached.
pub open spec fn row_marker(
    m: Seq<Seq<usize>>,
    ord: Seq<(usize, usize)>,
    i: int,
    p: int,
) -> Marker
    decreases p,
{
    if p <= 0 {
        Marker::Sentinel
    } else if m[i][ord[p - 1].1 as int] == 1 {
        Marker::After(ord[p - 1].1)
    } else {
        row_marker(m, ord, i, p - 1)
    }
}

/// All rows present at position `p` of the order recorded the same marker.
pub open spec fn column_consistent(
    m: Seq<Seq<usize>>,
    ord: Seq<(usize, usize)>,
    p: int,
) -> bool {
    forall|i1: int, i2: int|
        0 <= i1 < m.len() && 0 <= i2 < m.len()
            && m[i1][ord[p].1 as int] == 1 && m[i2][ord[p].1 as int] == 1
            ==> #[trigger] row_marker(m, ord, i1, p) == #[trigger] row_marker(m, ord, i2, p)
}

/// The laminar family condition for a matrix under a fixed character order.
pub open spec fn laminar(m: Seq<Seq<usize>>, ord: Seq<(usize, usize)>) -> bool {
    forall|p: int| 0 <= p < ord.len() ==> #[trigger] column_consistent(m, ord, p)
}

/// Decide the laminar family condition for `mat` under the order `order`.
pub fn is_laminar(mat: &Vec<Vec<usize>>, order: &Vec<(usize, usize)>) -> (r: bool)
    requires
        rectangular(mat_view(mat)),
        forall|q: int| 0 <= q < order@.len() ==>
            (#[trigger] order@[q]).1 < mat_view(mat)[0].len(),
    ensures
        r == laminar(mat_view(mat), order@),
{
    let ghost m = mat_view(mat);
    let ghost ord = order@;
    let rows = mat.len();

    // Record, for every row, the marker in force at each position.
    let mut marks: Vec<Vec<Marker>> = Vec::new();
    let mut i: usize = 0;
    while i < rows
        invariant
            rectangular(m),
            m == mat_view(mat),
            ord == order@,
            rows == mat.len(),
            forall|q: int| 0 <= q < ord.len() ==> (#[trigger] ord[q]).1 < m[0].len(),
            i <= rows,
            marks@.len() == i,
            forall|i2: int, p: int| 0 <= i2 < i && 0 <= p < ord.len()
                ==> #[trigger] marks@[i2]@[p] == row_marker(m, ord, i2, p),
            forall|i2: int| 0 <= i2 < i ==> (#[trigger] marks@[i2])@.len() == ord.len(),
        decreases rows - i,
    {
        let mut row: Vec<Marker> = Vec::new();
        let mut k = Marker::Sentinel;
        let mut p: usize = 0;
        while p < order.len()
            invariant
                rectangular(m),
                m == mat_view(mat),
                ord == order@,
                rows == mat.len(),
                i < rows,
                forall|q: int| 0 <= q < ord.len() ==> (#[trigger] ord[q]).1 < m[0].len(),
                p <= ord.len(),
                row@.len() == p,
                forall|p2: int| 0 <= p2 < p ==> #[trigger] row@[p2] == row_marker(m, ord, i as int, p2),
                k == row_marker(m, ord, i as int, p as int),
            decreases order.len() - p,
        {
            row.push(k);
            let j = order[p].1;
            proof {
                assert(m[i as int] == mat@[i as int]@);
            }
            if mat[i][j] == 1 {
                k = Marker::After(j);
            }
            p = p + 1;
        }
        marks.push(row);
        i = i + 1;
    }

    // Check each position of the order for a consistent recorded marker.
    let mut p: usize = 0;
    while p < order.len()
        invariant
            rectangular(m),
            m == mat_view(mat),
            ord == order@,
            rows == mat.len(),
            forall|q: int| 0 <= q < ord.len() ==> (#[trigger] ord[q]).1 < m[0].len(),
            p <= ord.len(),
            marks@.len() == rows,
            forall|i2: int, p2: int| 0 <= i2 < rows && 0 <= p2 < ord.len()
                ==> #[trigger] marks@[i2]@[p2] == row_marker(m, ord, i2, p2),
            forall|i2: int| 0 <= i2 < rows ==> (#[trigger] marks@[i2])@.len() == ord.len(),
            forall|p2: int| 0 <= p2 < p ==> #[trigger] column_consistent(m, ord, p2),
        decreases order.len() - p,
    {
        let j = order[p].1;
        let mut first_set = false;
        let mut f = Marker::Sentinel;
        let ghost mut wit: int = 0;
        let mut i: usize = 0;
        while i < rows
            invariant
                rectangular(m),
                m == mat_view(mat),
                ord == order@,
                rows == mat.len(),
                p < ord.len(),
                j == ord[p as int].1,
                j < m[0].len(),
                i <= rows,
                marks@.len() == rows,
                forall|i2: int, p2: int| 0 <= i2 < rows && 0 <= p2 < ord.len()
                    ==> #[trigger] marks@[i2]@[p2] == row_marker(m, ord, i2, p2),
                forall|i2: int| 0 <= i2 < rows ==> (#[trigger] marks@[i2])@.len() == ord.len(),
                !first_set ==> forall|i2: int| 0 <= i2 < i ==> m[i2][j as int] != 1,
                first_set ==> 0 <= wit < i && m[wit][j as int] == 1
                    && f == row_marker(m, ord, wit, p as int),
                first_set ==> forall|i2: int| 0 <= i2 < i && m[i2][j as int] == 1
                    ==> #[trigger] row_marker(m, ord, i2, p as int) == f,
            decreases rows - i,
        {
            proof {
                assert(m[i as int] == mat@[i as int]@);
            }
            if mat[i][j] == 1 {
                let mk = marks[i][p];
                if !first_set {
                    first_set = true;
                    f = mk;
                    proof {
                        wit = i as int;
                    }
                } else if mk != f {
                    proof {
                        assert(row_marker(m, ord, wit, p as int)
                            != row_marker(m, ord, i as int, p as int));
                        assert(!column_consistent(m, ord, p as int));
                    }
                    return false;
                }
            }
            i = i + 1;
        }
        proof {
            assert(column_consistent(m, ord, p as int));
        }
        p = p + 1;
    }
    true
}

} // verus!
