//! The character (column) visiting order.
//!
//! Columns are visited by descending frequency of present cells; ties are
//! broken by ascending column index.  Each entry of the order pairs the
//! column's frequency with its index.

use vstd::prelude::*;
use vstd::relations::{sorted_by, total_ordering};
use vstd::seq_lib::lemma_sorted_unique;
use crate::matrix::{col_sum, column_sum, lemma_col_sum_upto_bound, mat_view, rectangular};

verus! {

/// The sort key: higher frequency first, then lower column index.
pub open spec fn key_leq() -> spec_fn((usize, usize), (usize, usize)) -> bool {
    |a: (usize, usize), b: (usize, usize)|
        a.0 > b.0 || (a.0 == b.0 && a.1 <= b.1)
}

/// Frequency/index pairs in column order, before sorting.
pub open spec fn dims_spec(m: Seq<Seq<usize>>) -> Seq<(usize, usize)> {
    Seq::new(m[0].len(), |j: int| (col_sum(m, j) as usize, j as usize))
}

/// The character order of a matrix: its frequency/index pairs sorted by
/// descending frequency, ties by ascending column index.
pub open spec fn order_spec(m: Seq<Seq<usize>>) -> Seq<(usize, usize)> {
    dims_spec(m).sort_by(key_leq())
}

/// Some entry of the order names column `c`.
pub open spec fn col_named(ord: Seq<(usize, usize)>, c: usize) -> bool {
    exists|q: int| 0 <= q < ord.len() && (#[trigger] ord[q]).1 == c
}

/// A valid order for a matrix with `cols` columns: every entry names a
/// column, and every column is named by some entry.
pub open spec fn order_covers(ord: Seq<(usize, usize)>, cols: int) -> bool {
    &&& ord.len() == cols
    &&& forall|q: int| 0 <= q < ord.len() ==> (#[trigger] ord[q]).1 < cols
    &&& forall|c: usize| c < cols ==> #[trigger] col_named(ord, c)
}

pub proof fn lemma_key_leq_total()
    ensures
        total_ordering(key_leq()),
{
}

/// The sorted order lists every column exactly once.
pub proof fn lemma_order_spec_covers(m: Seq<Seq<usize>>)
    requires
        rectangular(m),
        m[0].len() <= usize::MAX,
    ensures
        order_covers(order_spec(m), m[0].len() as int),
{
    let dims = dims_spec(m);
    let ord = order_spec(m);
    lemma_key_leq_total();
    dims.lemma_sort_by_ensures(key_leq());
    let cols = m[0].len() as int;
    vstd::seq_lib::to_multiset_len(dims);
    vstd::seq_lib::to_multiset_len(ord);
    assert(ord.len() == cols);
    assert forall|q: int| 0 <= q < ord.len() implies (#[trigger] ord[q]).1 < cols by {
        assert(ord.contains(ord[q]));
        vstd::seq_lib::to_multiset_contains(ord, ord[q]);
        vstd::seq_lib::to_multiset_contains(dims, ord[q]);
        assert(dims.contains(ord[q]));
        let j = choose|j: int| 0 <= j < dims.len() && dims[j] == ord[q];
        assert(dims[j].1 == j);
    }
    assert forall|c: usize| c < cols implies #[trigger] col_named(ord, c) by {
        assert(0 <= c < dims.len());
        assert(dims[c as int].1 == (c as int) as usize);
        assert(dims[c as int].1 == c);
        assert(dims.contains(dims[c as int]));
        vstd::seq_lib::to_multiset_contains(dims, dims[c as int]);
        vstd::seq_lib::to_multiset_contains(ord, dims[c as int]);
        assert(ord.contains(dims[c as int]));
        let q = choose|q: int| 0 <= q < ord.len() && ord[q] == dims[c as int];
        assert(ord[q].1 == c);
    }
}

/// Insert a pair into a sorted vector, keeping it sorted.
fn sorted_insert(r: &mut Vec<(usize, usize)>, x: (usize, usize))
    requires
        sorted_by(old(r)@, key_leq()),
    ensures
        sorted_by(final(r)@, key_leq()),
        final(r)@.to_multiset() == old(r)@.to_multiset().insert(x),
{
    let mut pos: usize = 0;
    while pos < r.len() && (r[pos].0 > x.0 || (r[pos].0 == x.0 && r[pos].1 <= x.1))
        invariant
            pos <= r.len(),
            sorted_by(r@, key_leq()),
            forall|k: int| 0 <= k < pos ==> key_leq()(r@[k], x),
        decreases r.len() - pos,
    {
        pos = pos + 1;
    }
    let ghost before = r@;
    r.insert(pos, x);
    proof {
        broadcast use vstd::seq_lib::to_multiset_insert;
        assert(r@ == before.insert(pos as int, x));
        assert forall|i: int, j: int| 0 <= i <= j < r@.len() implies key_leq()(r@[i], r@[j]) by {
            if i == j {
            } else if j == pos {
                assert(r@[i] == before[i]);
                assert(key_leq()(before[i], x));
            } else if i == pos {
                assert(r@[j] == before[j - 1]);
                assert(!key_leq()(before[pos as int], x));
                assert(key_leq()(x, before[pos as int]));
                assert(key_leq()(before[pos as int], before[j - 1]));
            } else if i < pos {
                assert(r@[i] == before[i]);
                if j < pos {
                    assert(r@[j] == before[j]);
                } else {
                    assert(r@[j] == before[j - 1]);
                }
                assert(key_leq()(before[i], before[if j < pos { j } else { j - 1 }]));
            } else {
                assert(r@[i] == before[i - 1] && r@[j] == before[j - 1]);
                assert(key_leq()(before[i - 1], before[j - 1]));
            }
        }
    }
}

/// Compute the character order of a matrix: column frequency/index pairs,
/// sorted by descending frequency with ties broken by ascending index.
pub fn character_order(mat: &Vec<Vec<usize>>) -> (ord: Vec<(usize, usize)>)
    requires
        rectangular(mat_view(mat)),
    ensures
        ord@ == order_spec(mat_view(mat)),
        order_covers(ord@, mat_view(mat)[0].len() as int),
        forall|q: int| 0 <= q < ord@.len() ==>
            (#[trigger] ord@[q]).0 == col_sum(mat_view(mat), ord@[q].1 as int),
{
    let ghost m = mat_view(mat);
    let cols = mat[0].len();
    proof {
        assert(m[0] == mat@[0]@);
        assert(cols == m[0].len());
    }
    let mut ord: Vec<(usize, usize)> = Vec::new();
    proof {
        assert(ord@ =~= dims_spec(m).subrange(0, 0));
    }
    let mut j: usize = 0;
    while j < cols
        invariant
            rectangular(m),
            m == mat_view(mat),
            cols == m[0].len(),
            j <= cols,
            sorted_by(ord@, key_leq()),
            ord@.to_multiset() == dims_spec(m).subrange(0, j as int).to_multiset(),
        decreases cols - j,
    {
        let s = column_sum(mat, j);
        proof {
            lemma_col_sum_upto_bound(m, j as int, m.len() as int);
            assert(dims_spec(m).subrange(0, j as int + 1)
                == dims_spec(m).subrange(0, j as int).push((s, j)));
            broadcast use vstd::seq_lib::to_multiset_build;
        }
        sorted_insert(&mut ord, (s, j));
        j = j + 1;
    }
    proof {
        assert(dims_spec(m).subrange(0, cols as int) =~= dims_spec(m));
        lemma_key_leq_total();
        dims_spec(m).lemma_sort_by_ensures(key_leq());
        lemma_sorted_unique(ord@, order_spec(m), key_leq());
        assert(ord@ =~= order_spec(m));
        lemma_order_spec_covers(m);
        assert forall|q: int| 0 <= q < ord@.len() implies
            (#[trigger] ord@[q]).0 == col_sum(m, ord@[q].1 as int) by {
            assert(ord@.contains(ord@[q]));
            vstd::seq_lib::to_multiset_contains(ord@, ord@[q]);
            vstd::seq_lib::to_multiset_contains(dims_spec(m), ord@[q]);
            assert(dims_spec(m).contains(ord@[q]));
            let i = choose|i: int| 0 <= i < dims_spec(m).len() && dims_spec(m)[i] == ord@[q];
            assert(dims_spec(m)[i].1 == i);
            assert(m.len() == mat.len());
            lemma_col_sum_upto_bound(m, i, m.len() as int);
            assert(dims_spec(m)[i].0 == col_sum(m, i) as usize);
            assert(col_sum(m, i) <= usize::MAX);
        }
    }
    ord
}

} // verus!
