//! Resolution of ambiguous matrix cells.
//!
//! Only two free values are considered tractable: scanning in row-major
//! order, the first ambiguous cell takes one value and every other
//! ambiguous cell the second.  The resolver tries exactly the four value
//! pairs `(0,0), (0,1), (1,0), (1,1)` in that order, runs the whole
//! pipeline on each completion, and keeps the results that are perfect.
//! The baseline run on the raw matrix, sentinels left in place, is
//! returned besides.  This is a deliberately narrow heuristic, not an
//! exhaustive search over all completions.

use vstd::prelude::*;
use crate::laminar::laminar;
use crate::matrix::{mat_view, rectangular, AMBIGUOUS};
use crate::order::order_spec;
use crate::phylo::PerfectPhylogeny;

verus! {

/// Some cell strictly before `(i, j)` in row-major order is ambiguous.
pub open spec fn amb_before(m: Seq<Seq<usize>>, i: int, j: int) -> bool {
    exists|i2: int, j2: int|
        0 <= i2 < m.len() && 0 <= j2 < m[i2].len()
            && (i2 < i || (i2 == i && j2 < j)) && #[trigger] m[i2][j2] == AMBIGUOUS
}

/// Cell `(i, j)` is the first ambiguous cell in row-major order.
pub open spec fn is_first_amb(m: Seq<Seq<usize>>, i: int, j: int) -> bool {
    m[i][j] == AMBIGUOUS && !amb_before(m, i, j)
}

/// The value of cell `(i, j)` once the ambiguous cells are filled with
/// `a` (first cell) and `b` (every other).
pub open spec fn completed_cell(m: Seq<Seq<usize>>, a: usize, b: usize, i: int, j: int) -> usize {
    if m[i][j] == AMBIGUOUS {
        if is_first_amb(m, i, j) {
            a
        } else {
            b
        }
    } else {
        m[i][j]
    }
}

/// The matrix with its ambiguous cells filled with `a` and `b`.
pub open spec fn completion_spec(m: Seq<Seq<usize>>, a: usize, b: usize) -> Seq<Seq<usize>> {
    Seq::new(m.len(), |i: int| Seq::new(m[i].len(), |j: int| completed_cell(m, a, b, i, j)))
}

/// The `k`-th value pair tried, in the fixed enumeration order.
pub open spec fn amb_choice(k: int) -> (usize, usize) {
    if k == 0 {
        (0usize, 0usize)
    } else if k == 1 {
        (0usize, 1usize)
    } else if k == 2 {
        (1usize, 0usize)
    } else {
        (1usize, 1usize)
    }
}

/// The `k`-th candidate completion of the matrix.
pub open spec fn cand_matrix(m: Seq<Seq<usize>>, k: int) -> Seq<Seq<usize>> {
    completion_spec(m, amb_choice(k).0, amb_choice(k).1)
}

/// Whether the `k`-th candidate completion admits a perfect phylogeny.
pub open spec fn cand_perfect(m: Seq<Seq<usize>>, k: int) -> bool {
    laminar(cand_matrix(m, k), order_spec(cand_matrix(m, k)))
}

/// The indices, in enumeration order, of the candidates that are perfect.
pub open spec fn feasible_sel(m: Seq<Seq<usize>>, k: int) -> Seq<int>
    decreases 4 - k when k <= 4
{
    if k >= 4 {
        Seq::empty()
    } else if cand_perfect(m, k) {
        seq![k] + feasible_sel(m, k + 1)
    } else {
        feasible_sel(m, k + 1)
    }
}

/// The resolver always works through the four candidates in the fixed
/// order, so the feasible set is an increasing selection of at most four
/// candidate indices.
pub proof fn lemma_enumeration_order(m: Seq<Seq<usize>>)
    ensures
        feasible_sel(m, 0).len() <= 4,
        forall|r: int| 0 <= r < feasible_sel(m, 0).len()
            ==> 0 <= #[trigger] feasible_sel(m, 0)[r] < 4,
        forall|r1: int, r2: int| 0 <= r1 < r2 < feasible_sel(m, 0).len()
            ==> #[trigger] feasible_sel(m, 0)[r1] < #[trigger] feasible_sel(m, 0)[r2],
{
    reveal_with_fuel(feasible_sel, 5);
}

/// Fill the ambiguous cells of a matrix: the first one in row-major order
/// with `a`, every other with `b`.
pub fn complete_matrix(mat: &Vec<Vec<usize>>, a: usize, b: usize) -> (r: Vec<Vec<usize>>)
    requires
        rectangular(mat_view(mat)),
    ensures
        mat_view(&r) == completion_spec(mat_view(mat), a, b),
        rectangular(mat_view(&r)),
{
    let ghost m = mat_view(mat);
    let mut r: Vec<Vec<usize>> = Vec::new();
    let mut seen = false;
    let mut i: usize = 0;
    while i < mat.len()
        invariant
            rectangular(m),
            m == mat_view(mat),
            i <= m.len(),
            r@.len() == i,
            forall|k: int| 0 <= k < i ==> (#[trigger] r@[k])@.len() == m[k].len(),
            forall|k: int, j2: int| 0 <= k < i && 0 <= j2 < m[k].len()
                ==> (#[trigger] r@[k]@[j2]) == completed_cell(m, a, b, k, j2),
            seen == amb_before(m, i as int, 0),
        decreases m.len() - i,
    {
        let mut row: Vec<usize> = Vec::new();
        let cols = mat[i].len();
        let mut j: usize = 0;
        proof {
            assert(m[i as int] == mat@[i as int]@);
        }
        while j < cols
            invariant
                rectangular(m),
                m == mat_view(mat),
                i < m.len(),
                cols == m[i as int].len(),
                j <= cols,
                row@.len() == j,
                forall|j2: int| 0 <= j2 < j
                    ==> (#[trigger] row@[j2]) == completed_cell(m, a, b, i as int, j2),
                seen == amb_before(m, i as int, j as int),
            decreases cols - j,
        {
            proof {
                assert(m[i as int] == mat@[i as int]@);
            }
            let cell = mat[i][j];
            if cell == AMBIGUOUS {
                if !seen {
                    row.push(a);
                    seen = true;
                    proof {
                        assert(is_first_amb(m, i as int, j as int));
                    }
                } else {
                    row.push(b);
                }
                proof {
                    assert(m[i as int][j as int] == AMBIGUOUS);
                    assert(amb_before(m, i as int, j as int + 1));
                }
            } else {
                row.push(cell);
                proof {
                    if amb_before(m, i as int, j as int + 1) {
                        let (i2, j2) = choose|i2: int, j2: int|
                            0 <= i2 < m.len() && 0 <= j2 < m[i2].len()
                                && (i2 < i as int || (i2 == i as int && j2 < j as int + 1))
                                && #[trigger] m[i2][j2] == AMBIGUOUS;
                        if i2 == i as int && j2 == j as int {
                            assert(false);
                        } else {
                            assert(amb_before(m, i as int, j as int));
                        }
                    }
                }
            }
            j = j + 1;
        }
        r.push(row);
        i = i + 1;
        proof {
            if amb_before(m, i as int, 0) {
                let (i2, j2) = choose|i2: int, j2: int|
                    0 <= i2 < m.len() && 0 <= j2 < m[i2].len()
                        && (i2 < i as int || (i2 == i as int && j2 < 0))
                        && #[trigger] m[i2][j2] == AMBIGUOUS;
                assert(i2 <= i as int - 1);
                assert(m[i2].len() == m[0].len());
                assert(amb_before(m, i as int - 1, cols as int));
            }
            if amb_before(m, i as int - 1, cols as int) {
                let (i2, j2) = choose|i2: int, j2: int|
                    0 <= i2 < m.len() && 0 <= j2 < m[i2].len()
                        && (i2 < i as int - 1 || (i2 == i as int - 1 && j2 < cols as int))
                        && #[trigger] m[i2][j2] == AMBIGUOUS;
                assert(amb_before(m, i as int, 0));
            }
        }
    }
    proof {
        let c = completion_spec(m, a, b);
        assert forall|k: int| 0 <= k < m.len() implies #[trigger] mat_view(&r)[k] == c[k] by {
            assert(mat_view(&r)[k] == r@[k]@);
            assert(r@[k]@ =~= c[k]);
        }
        assert(mat_view(&r) =~= c);
        assert(rectangular(mat_view(&r)));
    }
    r
}

/// Try the four completions of the matrix in the fixed order, run the
/// pipeline on each, and keep the perfect outcomes; run the pipeline on
/// the raw matrix besides, sentinels left in place, as a baseline.
pub fn resolve_ambiguities(mat: &Vec<Vec<usize>>, internal: bool) -> (res: (
    Vec<PerfectPhylogeny>,
    PerfectPhylogeny,
))
    requires
        rectangular(mat_view(mat)),
    ensures
        res.0@.len() == feasible_sel(mat_view(mat), 0).len(),
        res.0@.len() <= 4,
        forall|r: int| 0 <= r < res.0@.len() ==> {
            &&& mat_view(&(#[trigger] res.0@[r]).matrix)
                == cand_matrix(mat_view(mat), feasible_sel(mat_view(mat), 0)[r])
            &&& res.0@[r].perfect
        },
        mat_view(&res.1.matrix) == mat_view(mat),
        res.1.perfect == laminar(mat_view(mat), order_spec(mat_view(mat))),
        res.1.order@ == order_spec(mat_view(mat)),
{
    let ghost m = mat_view(mat);
    proof {
        reveal_with_fuel(feasible_sel, 5);
    }
    let mut out: Vec<PerfectPhylogeny> = Vec::new();

    let c0 = complete_matrix(mat, 0, 0);
    let p0 = PerfectPhylogeny::new(&c0, internal);
    if p0.perfect() {
        out.push(p0);
    }
    proof {
        assert(out@.len() == feasible_sel(m, 0).len() - feasible_sel(m, 1).len());
    }

    let c1 = complete_matrix(mat, 0, 1);
    let p1 = PerfectPhylogeny::new(&c1, internal);
    if p1.perfect() {
        out.push(p1);
    }
    proof {
        assert(out@.len() == feasible_sel(m, 0).len() - feasible_sel(m, 2).len());
    }

    let c2 = complete_matrix(mat, 1, 0);
    let p2 = PerfectPhylogeny::new(&c2, internal);
    if p2.perfect() {
        out.push(p2);
    }
    proof {
        assert(out@.len() == feasible_sel(m, 0).len() - feasible_sel(m, 3).len());
    }

    let c3 = complete_matrix(mat, 1, 1);
    let p3 = PerfectPhylogeny::new(&c3, internal);
    if p3.perfect() {
        out.push(p3);
    }

    let base = PerfectPhylogeny::new(mat, internal);
    (out, base)
}

} // verus!
