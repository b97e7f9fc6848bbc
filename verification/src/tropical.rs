//! Tropical (min-plus) sparse matrix engine.
//!
//! Semiring: (min, +) over u32 byte weights.
//!   - Tropical addition  x (+) y = min(x, y)
//!   - Tropical product   x (x) y = x + y
//!   - Additive identity  = INF (absent edge, never stored)
//!   - Multiplicative id. = 0    (self-dependency, kept on the diagonal)
use vstd::prelude::*;
use crate::paths::{cheapest_table, lemma_power_cheapest, lemma_steps_cover};
use crate::semiring::{lemma_dot_range, lemma_square_iter_table, lemma_square_iter_fixpoint, lemma_bit_len, bit_len, stable_from, flat_table, lemma_flat_index_bound, lemma_flat_index_unique, tmin, cap, dot, mat_mul, square, square_iter, with_diag, is_table};

verus! {

/// "Infinity" sentinel. u32::MAX / 4 so that `a + b` can never overflow even
/// when one operand is INF.
pub const INF: u32 = 1073741823;

/// CSR-style storage: `rows[i]` holds `(col, weight)` sorted by col.
/// Only finite (non-INF) entries are stored.
#[derive(Clone, PartialEq, Debug)]
pub struct TropicalSparseMatrix {
    pub size: usize,
    pub rows: Vec<Vec<(u32, u32)>>,
}

/// Weight stored for column `j` in a row, INF when the row has no such entry.
pub open spec fn row_lookup(row: Seq<(u32, u32)>, j: int) -> int {
    if exists|k: int| 0 <= k < row.len() && row[k].0 == j {
        row[choose|k: int| 0 <= k < row.len() && row[k].0 == j].1 as int
    } else {
        INF as int
    }
}

/// A row is well formed when its columns strictly increase, stay below `n`,
/// and every stored weight is finite.
pub open spec fn row_wf(row: Seq<(u32, u32)>, n: int) -> bool {
    &&& forall|a: int, b: int| 0 <= a < b < row.len() ==> row[a].0 < row[b].0
    &&& forall|k: int| 0 <= k < row.len() ==> (#[trigger] row[k]).0 < n && row[k].1 < INF
}

/// The columns of a dense row that hold a finite weight.
pub open spec fn finite_cols(vrow: Seq<int>, n: nat) -> Set<int> {
    Set::new(|j: int| 0 <= j < n && vrow[j] < INF)
}

/// Number of finite entries in the first `i` rows of table `t`.
pub open spec fn finite_upto(t: Seq<Seq<int>>, n: nat, i: int) -> nat
    decreases i,
{
    if i <= 0 {
        0
    } else {
        finite_upto(t, n, i - 1) + finite_cols(t[i - 1], n).len()
    }
}

/// A table of INF entries has no finite entry.
proof fn lemma_no_finite(t: Seq<Seq<int>>, n: nat, i: int)
    requires
        0 <= i <= t.len(),
        forall|r: int, j: int| 0 <= r < t.len() && 0 <= j < n ==> #[trigger] t[r][j] == INF,
    ensures
        finite_upto(t, n, i) == 0,
    decreases i,
{
    if i > 0 {
        lemma_no_finite(t, n, i - 1);
        assert(finite_cols(t[i - 1], n) =~= Set::empty());
    }
}

/// Changing one row of a table changes its finite-entry count by that
/// row's change.
pub proof fn lemma_finite_upto_row(t: Seq<Seq<int>>, t2: Seq<Seq<int>>, n: nat, r: int, i: int)
    requires
        0 <= r,
        0 <= i <= t.len(),
        t2.len() == t.len(),
        forall|k: int| 0 <= k < t.len() && k != r ==> #[trigger] t2[k] == t[k],
    ensures
        finite_upto(t2, n, i) == finite_upto(t, n, i) + if r < i {
            finite_cols(t2[r], n).len() - finite_cols(t[r], n).len()
        } else {
            0
        },
    decreases i,
{
    if i > 0 {
        lemma_finite_upto_row(t, t2, n, r, i - 1);
        if i - 1 != r {
            assert(t2[i - 1] == t[i - 1]);
        }
    }
}

/// A table has at most `n` finite entries per row.
pub proof fn lemma_finite_upto_bound(t: Seq<Seq<int>>, n: nat, i: int)
    requires
        0 <= i,
    ensures
        finite_upto(t, n, i) <= i * n,
    decreases i,
{
    if i > 0 {
        lemma_finite_upto_bound(t, n, i - 1);
        vstd::set_lib::lemma_int_range(0, n as int);
        assert(finite_cols(t[i - 1], n).subset_of(vstd::set_lib::set_int_range(0, n as int)));
        vstd::set_lib::lemma_len_subset(finite_cols(t[i - 1], n), vstd::set_lib::set_int_range(0, n as int));
        assert(i * n == (i - 1) * n + n) by (nonlinear_arith);
    }
}

impl TropicalSparseMatrix {
    pub open spec fn wf(&self) -> bool {
        &&& self.rows@.len() == self.size
        &&& self.size <= u32::MAX
        &&& forall|i: int| 0 <= i < self.size ==> row_wf(#[trigger] self.rows@[i]@, self.size as int)
    }

    /// Entry `(i, j)` of the matrix: the stored weight, or INF.
    pub open spec fn entry(&self, i: int, j: int) -> int {
        row_lookup(self.rows@[i]@, j)
    }

    /// Dense model: an `n x n` table of weights, INF for absent edges.
    pub open spec fn view(&self) -> Seq<Seq<int>> {
        Seq::new(self.size as nat, |i: int| Seq::new(self.size as nat, |j: int| self.entry(i, j)))
    }

    pub fn new(size: usize) -> (m: Self)
        ensures
            size <= u32::MAX ==> m.wf(),
            m.size == size,
            m@ == Seq::new(size as nat, |i: int| Seq::new(size as nat, |j: int| INF as int)),
            finite_upto(m@, size as nat, size as int) == 0,
    {
        let mut rows: Vec<Vec<(u32, u32)>> = Vec::new();
        let mut i: usize = 0;
        while i < size
            invariant
                i <= size,
                rows@.len() == i,
                forall|k: int| 0 <= k < i ==> (#[trigger] rows@[k])@.len() == 0,
            decreases size - i,
        {
            rows.push(Vec::new());
            i = i + 1;
        }
        let m = TropicalSparseMatrix { size, rows };
        assert(m@ =~= Seq::new(size as nat, |i: int| Seq::new(size as nat, |j: int| INF as int))) by {
            assert forall|i: int| 0 <= i < size implies m@[i] =~= Seq::new(size as nat, |j: int| INF as int) by {
            }
        }
        proof {
            lemma_no_finite(m@, size as nat, size as int);
        }
        m
    }
}


pub proof fn lemma_lookup_at(row: Seq<(u32, u32)>, n: int, q: int)
    requires
        row_wf(row, n),
        0 <= q < row.len(),
    ensures
        row_lookup(row, row[q].0 as int) == row[q].1,
{
    let j = row[q].0 as int;
    assert(exists|k: int| 0 <= k < row.len() && row[k].0 == j);
    let k = choose|k: int| 0 <= k < row.len() && row[k].0 == j;
    if k < q {
        assert(row[k].0 < row[q].0);
    } else if k > q {
        assert(row[q].0 < row[k].0);
    }
}

pub proof fn lemma_lookup_range(row: Seq<(u32, u32)>, n: int, j: int)
    requires
        row_wf(row, n),
    ensures
        0 <= row_lookup(row, j) <= INF,
        row_lookup(row, j) < INF <==> exists|k: int| 0 <= k < row.len() && row[k].0 == j,
        (j < 0 || j >= n) ==> row_lookup(row, j) == INF,
{
    if exists|k: int| 0 <= k < row.len() && row[k].0 == j {
        let k = choose|k: int| 0 <= k < row.len() && row[k].0 == j;
        assert(row[k].1 < INF);
        assert(row[k].0 < n);
    }
}

/// Looking up a column in a row extended by one entry whose column is new.
pub proof fn lemma_lookup_snoc(row: Seq<(u32, u32)>, e: (u32, u32), j: int)
    requires
        cols_sorted(row),
        forall|k: int| 0 <= k < row.len() ==> (#[trigger] row[k]).0 != e.0,
    ensures
        row_lookup(row.push(e), j) == if j == e.0 { e.1 as int } else { row_lookup(row, j) },
{
    let r2 = row.push(e);
    if j == e.0 {
        assert(r2[row.len() as int].0 == j);
        let k = choose|k: int| 0 <= k < r2.len() && r2[k].0 == j;
        if k < row.len() {
            assert(r2[k] == row[k]);
            assert(row[k].0 != e.0);
        }
        assert(k == row.len());
    } else {
        if exists|k: int| 0 <= k < r2.len() && r2[k].0 == j {
            let k = choose|k: int| 0 <= k < r2.len() && r2[k].0 == j;
            assert(k < row.len());
            assert(r2[k] == row[k]);
            assert(exists|k2: int| 0 <= k2 < row.len() && row[k2].0 == j);
            let k2 = choose|k2: int| 0 <= k2 < row.len() && row[k2].0 == j;
            if k2 < k {
                assert(row[k2].0 < row[k].0);
            } else if k2 > k {
                assert(row[k].0 < row[k2].0);
            }
        } else {
            if exists|k: int| 0 <= k < row.len() && row[k].0 == j {
                let k = choose|k: int| 0 <= k < row.len() && row[k].0 == j;
                assert(r2[k] == row[k]);
            }
        }
    }
}

/// A row of distinct columns in `[0, n)` holds at most `n` entries.
pub proof fn lemma_row_len(row: Seq<(u32, u32)>, n: int)
    requires
        row_wf(row, n),
        0 <= n,
    ensures
        row.len() <= n,
{
    assert forall|k: int| 0 <= k < row.len() implies (#[trigger] row[k]).0 >= k by {
        lemma_col_at_least_index(row, n, k);
    }
    if row.len() > 0 {
        assert(row[row.len() - 1].0 >= row.len() - 1);
        assert(row[row.len() - 1].0 < n);
    }
}

proof fn lemma_col_at_least_index(row: Seq<(u32, u32)>, n: int, k: int)
    requires
        row_wf(row, n),
        0 <= k < row.len(),
    ensures
        row[k].0 >= k,
    decreases k,
{
    if k > 0 {
        lemma_col_at_least_index(row, n, k - 1);
        assert(row[k - 1].0 < row[k].0);
    }
}

/// Columns strictly increase along the row.
pub open spec fn cols_sorted(row: Seq<(u32, u32)>) -> bool {
    forall|a: int, b: int| 0 <= a < b < row.len() ==> row[a].0 < row[b].0
}

/// Binary search for column `c` in a row whose columns strictly increase:
/// `Ok(pos)` where it is stored, or `Err(pos)` where it would be inserted.
fn find_col(row: &Vec<(u32, u32)>, c: u32) -> (res: Result<usize, usize>)
    requires
        cols_sorted(row@),
    ensures
        match res {
            Ok(p) => p < row@.len() && row@[p as int].0 == c,
            Err(p) => p <= row@.len() && (forall|k: int| 0 <= k < p ==> row@[k].0 < c) && (forall|k: int|
                p <= k < row@.len() ==> row@[k].0 > c),
        },
{
    let mut lo: usize = 0;
    let mut hi: usize = row.len();
    while lo < hi
        invariant
            lo <= hi <= row@.len(),
            cols_sorted(row@),
            forall|k: int| 0 <= k < lo ==> row@[k].0 < c,
            forall|k: int| hi <= k < row@.len() ==> row@[k].0 > c,
        decreases hi - lo,
    {
        let mid = lo + (hi - lo) / 2;
        let col = row[mid].0;
        if col == c {
            return Ok(mid);
        } else if col < c {
            lo = mid + 1;
        } else {
            hi = mid;
        }
    }
    Err(lo)
}

/// Store `(c, v)` in a well-formed row, keeping the smaller weight if `c` is present.
#[verifier::rlimit(50)]
fn set_in_row(row: &mut Vec<(u32, u32)>, n: Ghost<int>, c: u32, v: u32)
    requires
        row_wf(old(row)@, n@),
        c < n@,
        v < INF,
    ensures
        row_wf(final(row)@, n@),
        forall|j: int| #![trigger row_lookup(final(row)@, j)]
            row_lookup(final(row)@, j) == if j == c {
                tmin(row_lookup(old(row)@, j), v as int)
            } else {
                row_lookup(old(row)@, j)
            },
{
    let ghost old_row = row@;
    match find_col(row, c) {
        Ok(pos) => {
            proof {
                lemma_lookup_at(old_row, n@, pos as int);
            }
            if v < row[pos].1 {
                row.set(pos, (c, v));
                proof {
                    let new_row = row@;
                    assert(row_wf(new_row, n@));
                    lemma_lookup_at(new_row, n@, pos as int);
                    assert forall|j: int| j != c implies row_lookup(new_row, j) == row_lookup(old_row, j) by {
                        if exists|k: int| 0 <= k < new_row.len() && new_row[k].0 == j {
                            let k = choose|k: int| 0 <= k < new_row.len() && new_row[k].0 == j;
                            lemma_lookup_at(new_row, n@, k);
                            lemma_lookup_at(old_row, n@, k);
                        } else {
                            if exists|k: int| 0 <= k < old_row.len() && old_row[k].0 == j {
                                let k = choose|k: int| 0 <= k < old_row.len() && old_row[k].0 == j;
                                assert(new_row[k].0 == j);
                            }
                        }
                    }
                }
            }
        },
        Err(pos) => {
            row.insert(pos, (c, v));
            proof {
                let new_row = row@;
                assert(new_row =~= old_row.insert(pos as int, (c, v)));
                assert forall|a: int, b: int| 0 <= a < b < new_row.len() implies new_row[a].0 < new_row[b].0 by {
                    if b < pos {
                    } else if a > pos {
                        assert(old_row[a - 1].0 < old_row[b - 1].0);
                    } else if a == pos {
                        assert(old_row[b - 1].0 > c);
                    } else {
                        if b == pos {
                            assert(old_row[a].0 < c);
                        } else {
                            assert(old_row[a].0 < c);
                            assert(old_row[b - 1].0 > c);
                        }
                    }
                }
                assert(row_wf(new_row, n@));
                lemma_lookup_at(new_row, n@, pos as int);
                assert(row_lookup(old_row, c as int) == INF) by {
                    if exists|k: int| 0 <= k < old_row.len() && old_row[k].0 == c {
                        let k = choose|k: int| 0 <= k < old_row.len() && old_row[k].0 == c;
                        assert(k < pos || k >= pos);
                    }
                }
                assert forall|j: int| j != c implies row_lookup(new_row, j) == row_lookup(old_row, j) by {
                    if exists|k: int| 0 <= k < new_row.len() && new_row[k].0 == j {
                        let k = choose|k: int| 0 <= k < new_row.len() && new_row[k].0 == j;
                        lemma_lookup_at(new_row, n@, k);
                        if k < pos {
                            lemma_lookup_at(old_row, n@, k);
                        } else {
                            assert(k > pos);
                            lemma_lookup_at(old_row, n@, k - 1);
                        }
                    } else {
                        if exists|k: int| 0 <= k < old_row.len() && old_row[k].0 == j {
                            let k = choose|k: int| 0 <= k < old_row.len() && old_row[k].0 == j;
                            if k < pos {
                                assert(new_row[k].0 == j);
                            } else {
                                assert(new_row[k + 1].0 == j);
                            }
                        }
                    }
                }
            }
        },
    }
}

/// `min` over the first `t` stored entries `(k, v)` of a sparse row of
/// `cap(v + b[k][j])`: the row's tropical product with column `j` of `b`.
pub open spec fn sparse_min(r: Seq<(u32, u32)>, b: Seq<Seq<int>>, j: int, t: nat) -> int
    decreases t,
{
    if t == 0 {
        INF as int
    } else {
        tmin(sparse_min(r, b, j, (t - 1) as nat), cap(r[t - 1].1 + b[r[t - 1].0 as int][j]))
    }
}

pub proof fn lemma_sparse_min_le(r: Seq<(u32, u32)>, b: Seq<Seq<int>>, j: int, t: nat)
    ensures
        sparse_min(r, b, j, t) <= INF,
    decreases t,
{
    if t > 0 {
        lemma_sparse_min_le(r, b, j, (t - 1) as nat);
    }
}

pub proof fn lemma_sparse_min_nonneg(r: Seq<(u32, u32)>, b: Seq<Seq<int>>, n: nat, j: int, t: nat)
    requires
        row_wf(r, n as int),
        is_table(b, n),
        0 <= j < n,
        t <= r.len(),
    ensures
        0 <= sparse_min(r, b, j, t),
    decreases t,
{
    if t > 0 {
        lemma_sparse_min_nonneg(r, b, n, j, (t - 1) as nat);
        assert(r[t - 1].0 < n);
        assert(0 <= b[r[t - 1].0 as int][j]);
    }
}

/// Over a sorted row, the first `t` entries are exactly those with column `< kk`,
/// and the sparse minimum over them equals the dense dot product up to `kk`.
proof fn lemma_sparse_dense_prefix(
    r: Seq<(u32, u32)>,
    a: Seq<Seq<int>>,
    b: Seq<Seq<int>>,
    n: nat,
    i: int,
    j: int,
    kk: nat,
    t: nat,
)
    requires
        row_wf(r, n as int),
        is_table(b, n),
        0 <= i < a.len(),
        a[i].len() == n,
        forall|k: int| 0 <= k < n ==> #[trigger] a[i][k] == row_lookup(r, k),
        0 <= j < n,
        kk <= n,
        t <= r.len(),
        forall|q: int| 0 <= q < t ==> (#[trigger] r[q]).0 < kk,
        forall|q: int| t <= q < r.len() ==> (#[trigger] r[q]).0 >= kk,
    ensures
        dot(a, b, i, j, kk) == sparse_min(r, b, j, t),
    decreases kk,
{
    if kk == 0 {
        if t > 0 {
            assert(r[0].0 < 0);
        }
    } else {
        let k = kk - 1;
        if t > 0 && r[t - 1].0 == k {
            assert forall|q: int| 0 <= q < t - 1 implies (#[trigger] r[q]).0 < kk - 1 by {
                assert(r[q].0 < r[t - 1].0);
            }
            lemma_sparse_dense_prefix(r, a, b, n, i, j, (kk - 1) as nat, (t - 1) as nat);
            lemma_lookup_at(r, n as int, t - 1);
        } else {
            assert forall|q: int| 0 <= q < t implies (#[trigger] r[q]).0 < kk - 1 by {
                if q < t - 1 {
                    assert(r[q].0 < r[t - 1].0);
                }
            }
            lemma_sparse_dense_prefix(r, a, b, n, i, j, (kk - 1) as nat, t);
            assert(row_lookup(r, k) == INF) by {
                if exists|q: int| 0 <= q < r.len() && r[q].0 == k {
                    let q = choose|q: int| 0 <= q < r.len() && r[q].0 == k;
                    assert(q < t || q >= t);
                }
            }
            assert(0 <= b[k][j]);
            lemma_sparse_min_le(r, b, j, t);
        }
    }
}

/// Sorts the values in ascending order with `slice::sort_unstable`. The
/// contract claims only what its documentation states: the result is ordered
/// and holds the same values, each as often as before.
#[verifier::external_body]
fn sort_u32(v: &mut Vec<u32>)
    ensures
        final(v)@.to_multiset() == old(v)@.to_multiset(),
        forall|a: int, b: int| 0 <= a < b < final(v)@.len() ==> final(v)@[a] <= final(v)@[b],
{
    v.sort_unstable();
}

/// One output row of the sparse product: row `arow` of the left matrix times
/// `other`, accumulated in the dense `scratch` row and the `touched` list,
/// both of which are handed back cleared.
fn product_row(
    arow: &Vec<(u32, u32)>,
    other: &TropicalSparseMatrix,
    scratch: &mut Vec<u32>,
    touched: &mut Vec<u32>,
) -> (row: Vec<(u32, u32)>)
    requires
        other.wf(),
        row_wf(arow@, other.size as int),
        old(scratch)@.len() == other.size,
        forall|j: int| 0 <= j < other.size ==> #[trigger] old(scratch)@[j] == INF,
        old(touched)@.len() == 0,
    ensures
        row_wf(row@, other.size as int),
        forall|j: int| 0 <= j < other.size ==> #[trigger] row_lookup(row@, j) == sparse_min(arow@, other@, j, arow@.len()),
        final(scratch)@.len() == other.size,
        forall|j: int| 0 <= j < other.size ==> #[trigger] final(scratch)@[j] == INF,
        final(touched)@.len() == 0,
{
    let ghost n = other.size as int;
    let ghost bv = other@;
    let mut t: usize = 0;
    while t < arow.len()
        invariant
            other.wf(),
            n == other.size,
            bv == other@,
            row_wf(arow@, n),
            t <= arow@.len(),
            scratch@.len() == n,
            forall|j: int| 0 <= j < n ==> #[trigger] scratch@[j] == sparse_min(arow@, bv, j, t as nat),
            touched@.no_duplicates(),
            forall|p: int| 0 <= p < touched@.len() ==> (#[trigger] touched@[p]) < n,
            forall|j: int| 0 <= j < n ==> (#[trigger] scratch@[j] < INF <==> touched@.contains(j as u32)),
        decreases arow@.len() - t,
    {
        let (k, v) = arow[t];
        let brow = &other.rows[k as usize];
        proof {
            assert(row_wf(brow@, n));
        }
        let mut q: usize = 0;
        while q < brow.len()
            invariant
                other.wf(),
                n == other.size,
                bv == other@,
                row_wf(arow@, n),
                t < arow@.len(),
                arow@[t as int] == (k, v),
                brow == &other.rows@[k as int],
                row_wf(brow@, n),
                q <= brow@.len(),
                scratch@.len() == n,
                forall|j: int| 0 <= j < n ==> #[trigger] scratch@[j] == tmin(
                    sparse_min(arow@, bv, j, t as nat),
                    cap(v + row_lookup(brow@.take(q as int), j)),
                ),
                touched@.no_duplicates(),
                forall|p: int| 0 <= p < touched@.len() ==> (#[trigger] touched@[p]) < n,
                forall|j: int| 0 <= j < n ==> (#[trigger] scratch@[j] < INF <==> touched@.contains(j as u32)),
            decreases brow@.len() - q,
        {
            let (j, w) = brow[q];
            let ghost pre = brow@.take(q as int);
            let ghost post = brow@.take(q + 1);
            proof {
                lemma_lookup_at(brow@, n, q as int);
                assert(bv[k as int][j as int] == row_lookup(brow@, j as int));
                assert(v < INF && w < INF);
                assert(post =~= pre.push(brow@[q as int]));
                assert forall|p: int| 0 <= p < pre.len() implies (#[trigger] pre[p]).0 != j by {
                    assert(brow@[p].0 < brow@[q as int].0);
                }
                lemma_lookup_snoc(pre, brow@[q as int], j as int);
                lemma_lookup_range(pre, n, j as int);
                if row_lookup(pre, j as int) < INF {
                    let p = choose|p: int| 0 <= p < pre.len() && pre[p].0 == j;
                }
                lemma_sparse_min_le(arow@, bv, j as int, t as nat);
            }
            let cell = scratch[j as usize];
            let cand = v + w;
            let ghost old_touched = touched@;
            let ghost old_scratch = scratch@;
            // A sum at or above INF is no path: it neither touches nor lowers the cell.
            if cand < INF && cell == INF {
                touched.push(j);
                proof {
                    assert(!old_touched.contains(j));
                    assert(touched@ == old_touched.push(j));
                    assert(touched@.last() == j);
                    assert forall|x: u32| x != j implies (touched@.contains(x) <==> old_touched.contains(x)) by {
                        if touched@.contains(x) {
                            let p = choose|p: int| 0 <= p < touched@.len() && touched@[p] == x;
                            assert(p < old_touched.len());
                            assert(old_touched[p] == x);
                        }
                        if old_touched.contains(x) {
                            let p = choose|p: int| 0 <= p < old_touched.len() && old_touched[p] == x;
                            assert(touched@[p] == x);
                        }
                    }
                    assert(touched@.no_duplicates()) by {
                        assert forall|a: int, b: int| 0 <= a < touched@.len() && 0 <= b < touched@.len() && a != b
                            implies touched@[a] != touched@[b] by {
                            if a < old_touched.len() && b < old_touched.len() {
                            } else if a == old_touched.len() {
                                assert(old_touched[b] == touched@[b]);
                                assert(old_touched.contains(touched@[b]));
                            } else {
                                assert(old_touched[a] == touched@[a]);
                                assert(old_touched.contains(touched@[a]));
                            }
                        }
                    }
                }
            } else {
                proof {
                    if cand < INF {
                        assert(old_touched.contains(j));
                    }
                }
            }
            if cand < cell && cand < INF {
                scratch.set(j as usize, cand);
            }
            proof {
                assert(cand < INF ==> touched@.contains(j));
                assert forall|jj: int| 0 <= jj < n implies #[trigger] scratch@[jj] == tmin(
                    sparse_min(arow@, bv, jj, t as nat),
                    cap(v + row_lookup(post, jj)),
                ) by {
                    lemma_lookup_snoc(pre, brow@[q as int], jj);
                    if jj != j {
                        lemma_lookup_range(pre, n, jj);
                    }
                }
                assert forall|jj: int| 0 <= jj < n implies (#[trigger] scratch@[jj] < INF <==> touched@.contains(
                    jj as u32,
                )) by {
                    if jj != j {
                        assert(scratch@[jj] == old_scratch[jj]);
                        assert(old_scratch[jj] < INF <==> old_touched.contains(jj as u32));
                        if cell == INF {
                            assert(jj as u32 != j);
                        } else {
                            assert(touched@ == old_touched);
                        }
                    }
                }
                assert forall|p: int| 0 <= p < touched@.len() implies (#[trigger] touched@[p]) < n by {
                    if p < old_touched.len() {
                        assert(touched@[p] == old_touched[p]);
                    }
                }
            }
            q = q + 1;
        }
        proof {
            assert(brow@.take(brow@.len() as int) =~= brow@);
            assert forall|j: int| 0 <= j < n implies #[trigger] scratch@[j] == sparse_min(arow@, bv, j, (t + 1) as nat) by {
                assert(bv[k as int][j] == row_lookup(brow@, j));
            }
        }
        t = t + 1;
    }
    // The touched columns, in ascending order.
    let ghost unsorted = touched@;
    sort_u32(touched);
    let ghost expected = Seq::new(n as nat, |j: int| sparse_min(arow@, bv, j, arow@.len()));
    proof {
        unsorted.lemma_multiset_has_no_duplicates();
        unsorted.to_multiset_ensures();
        touched@.to_multiset_ensures();
        touched@.lemma_multiset_has_no_duplicates_conv();
        assert forall|x: u32| #[trigger] touched@.contains(x) <==> unsorted.contains(x) by {
            assert(touched@.to_multiset().count(x) == unsorted.to_multiset().count(x));
        }
        assert forall|p: int| 0 <= p < touched@.len() implies (#[trigger] touched@[p]) < n by {
            assert(touched@.contains(touched@[p]));
            let q = choose|q: int| 0 <= q < unsorted.len() && unsorted[q] == touched@[p];
            assert(unsorted[q] < n);
        }
        assert forall|j: int| 0 <= j < n implies #[trigger] scratch@[j] == expected[j] by {
        }
        assert forall|j: int| 0 <= j < n implies 0 <= #[trigger] expected[j] <= INF by {
            lemma_sparse_min_le(arow@, bv, j, arow@.len());
            lemma_sparse_min_nonneg(arow@, bv, n as nat, j, arow@.len());
        }
        assert forall|j: int| 0 <= j < n implies (expected[j] < INF <==> #[trigger] touched@.contains(j as u32)) by {
            assert(scratch@[j] == expected[j]);
        }
        assert(touched@.take(0).len() == 0);
    }
    let mut row: Vec<(u32, u32)> = Vec::new();
    let mut idx: usize = 0;
    while idx < touched.len()
        invariant
            n == other.size,
            n <= u32::MAX,
            idx <= touched@.len(),
            touched@.no_duplicates(),
            forall|a: int, b: int| 0 <= a < b < touched@.len() ==> touched@[a] <= touched@[b],
            forall|p: int| 0 <= p < touched@.len() ==> (#[trigger] touched@[p]) < n,
            scratch@.len() == n,
            forall|j: int| 0 <= j < n ==> (expected[j] < INF <==> #[trigger] touched@.contains(j as u32)),
            forall|j: int| 0 <= j < n ==> 0 <= #[trigger] expected[j] <= INF,
            forall|j: int| 0 <= j < n ==> #[trigger] scratch@[j] == if touched@.take(idx as int).contains(j as u32) {
                INF as int
            } else {
                expected[j]
            },
            row@.len() == idx,
            forall|p: int| 0 <= p < idx ==> #[trigger] row@[p] == (touched@[p], expected[touched@[p] as int] as u32),
        decreases touched@.len() - idx,
    {
        let j = touched[idx];
        proof {
            assert(!touched@.take(idx as int).contains(j)) by {
                let tk = touched@.take(idx as int);
                if tk.contains(j) {
                    let p = choose|p: int| 0 <= p < tk.len() && tk[p] == j;
                    assert(touched@[p] == touched@[idx as int]);
                }
            }
        }
        row.push((j, scratch[j as usize]));
        scratch.set(j as usize, INF);
        proof {
            assert(touched@.take(idx + 1) =~= touched@.take(idx as int).push(j));
            assert forall|jj: int| 0 <= jj < n implies #[trigger] scratch@[jj] == if touched@.take(idx + 1).contains(jj as u32) {
                INF as int
            } else {
                expected[jj]
            } by {
                if jj == j {
                    assert(touched@.take(idx + 1)[idx as int] == j);
                } else {
                    let tk = touched@.take(idx + 1);
                    let tk0 = touched@.take(idx as int);
                    assert(jj as u32 != j);
                    assert(tk[idx as int] == j);
                    if tk.contains(jj as u32) {
                        let p = choose|p: int| 0 <= p < tk.len() && tk[p] == jj as u32;
                        assert(p != idx);
                        assert(tk0[p] == jj as u32);
                    }
                    if tk0.contains(jj as u32) {
                        let p = choose|p: int| 0 <= p < tk0.len() && tk0[p] == jj as u32;
                        assert(tk[p] == jj as u32);
                    }
                }
            }
        }
        idx = idx + 1;
    }
    proof {
        assert(touched@.take(touched@.len() as int) =~= touched@);
        assert forall|j: int| 0 <= j < n implies #[trigger] scratch@[j] == INF by {
            if !touched@.contains(j as u32) {
                assert(expected[j] >= INF);
            }
        }
        assert forall|a: int, b: int| 0 <= a < b < row@.len() implies row@[a].0 < row@[b].0 by {
            assert(touched@[a] <= touched@[b]);
            assert(touched@[a] != touched@[b]);
        }
        assert forall|p: int| 0 <= p < row@.len() implies (#[trigger] row@[p]).0 < n && row@[p].1 < INF by {
            let jj = touched@[p] as int;
            assert(touched@.contains(jj as u32));
            assert(expected[jj] < INF);
        }
        assert(row_wf(row@, n));
        assert forall|j: int| 0 <= j < n implies #[trigger] row_lookup(row@, j) == sparse_min(arow@, bv, j, arow@.len()) by {
            if touched@.contains(j as u32) {
                let p = choose|p: int| 0 <= p < touched@.len() && touched@[p] == j as u32;
                assert(row@[p].0 == j);
                assert(expected[j] < INF);
                lemma_lookup_at(row@, n, p);
            } else {
                lemma_lookup_range(row@, n, j);
                if row_lookup(row@, j) < INF {
                    let p = choose|p: int| 0 <= p < row@.len() && row@[p].0 == j;
                    assert(touched@[p] == j as u32);
                }
            }
        }
    }
    touched.clear();
    row
}

/// A fresh vector of `n` copies of INF.
pub(crate) fn inf_vec(n: usize) -> (v: Vec<u32>)
    ensures
        v@.len() == n,
        forall|p: int| 0 <= p < n ==> #[trigger] v@[p] == INF,
{
    let v = vec![INF; n];
    proof {
        assert forall|p: int| 0 <= p < n implies #[trigger] v@[p] == INF by {
            assert(cloned::<u32>(INF, v@[p]));
        }
    }
    v
}

/// Density (in percent of n^2) at which the closure switches from the sparse
/// kernel to the flat dense kernel.
pub const DENSE_SWITCH_PCT: usize = 15;

pub struct ClosureTelemetry {
    pub squarings: usize,
    pub dense_switch_at: Option<usize>,
}

/// Whether the matrix met at squaring step `s`, `square_iter(base, n, s - 1)`,
/// is dense enough for the flat kernel: at least `DENSE_SWITCH_PCT` percent
/// of its `n * n` entries are finite.
pub open spec fn dense_enough(base: Seq<Seq<int>>, n: nat, s: nat) -> bool {
    finite_upto(square_iter(base, n, (s - 1) as nat), n, n as int) * 100 >= n * n * DENSE_SWITCH_PCT
}

/// The first step among `1..=upto` at which the closure is dense enough
/// (see `dense_enough`), if any.
pub open spec fn dense_switch(base: Seq<Seq<int>>, n: nat, upto: nat) -> Option<nat>
    decreases upto,
{
    if upto == 0 {
        None
    } else {
        match dense_switch(base, n, (upto - 1) as nat) {
            Some(s) => Some(s),
            None => if dense_enough(base, n, upto) {
                Some(upto)
            } else {
                None
            },
        }
    }
}

/// `a` and `b` name the same step, or both none.
pub open spec fn same_step(a: Option<usize>, b: Option<nat>) -> bool {
    match a {
        Some(x) => b == Some(x as nat),
        None => b is None,
    }
}

/// Number of binary digits of `m`, i.e. `usize::BITS - m.leading_zeros()`.
fn bit_length(m: usize) -> (b: usize)
    ensures
        b == bit_len(m as nat),
{
    let mut x = m;
    let mut b: usize = 0;
    while x > 0
        invariant
            b + bit_len(x as nat) == bit_len(m as nat),
            b <= m - x,
        decreases x,
    {
        proof {
            lemma_bit_len((x / 2) as nat);
        }
        x = x / 2;
        b = b + 1;
    }
    b
}

/// Number of squarings the closure allows for an `n x n` matrix:
/// enough for paths of `2^steps >= n` edges.
pub open spec fn closure_steps(n: nat) -> nat {
    bit_len(((if n > 2 { n } else { 2 }) - 1) as nat)
}

proof fn lemma_flat_table_eq(d1: Seq<u32>, d2: Seq<u32>, n: nat)
    requires
        d1.len() == n * n,
        d2.len() == n * n,
    ensures
        (d1 == d2) <==> (flat_table(d1, n) == flat_table(d2, n)),
{
    if flat_table(d1, n) == flat_table(d2, n) {
        assert forall|p: int| 0 <= p < n * n implies d1[p] == d2[p] by {
            assert(n > 0) by (nonlinear_arith)
                requires 0 <= p < n * n;
            let r = p / n as int;
            let j = p % n as int;
            vstd::arithmetic::div_mod::lemma_fundamental_div_mod(p, n as int);
            vstd::arithmetic::div_mod::lemma_div_pos_is_pos(p, n as int);
            vstd::arithmetic::div_mod::lemma_mod_pos_bound(p, n as int);
            assert(r < n) by (nonlinear_arith)
                requires
                    p == n * r + j,
                    0 <= j,
                    p < n * n,
                    n > 0,
            ;
            assert(r * n + j == p) by (nonlinear_arith)
                requires p == n * r + j;
            assert(flat_table(d1, n)[r][j] == flat_table(d2, n)[r][j]);
        }
        assert(d1 =~= d2);
    }
}

proof fn lemma_stable_from(a: Seq<Seq<int>>, n: nat, from: nat, limit: nat, fin: nat)
    requires
        from <= fin <= limit,
        forall|t: nat| from <= t < fin ==> #[trigger] square(square_iter(a, n, t), n) != square_iter(a, n, t),
        fin < limit ==> square(square_iter(a, n, fin), n) == square_iter(a, n, fin),
    ensures
        stable_from(a, n, from, limit) == fin,
    decreases limit - from,
{
    if from < limit && from < fin {
        lemma_stable_from(a, n, from + 1, limit, fin);
    }
}

/// Stored entries of two rows agree when they describe the same columns and weights.
pub proof fn lemma_rows_canonical(r1: Seq<(u32, u32)>, r2: Seq<(u32, u32)>, n: int)
    requires
        row_wf(r1, n),
        row_wf(r2, n),
        forall|j: int| 0 <= j < n ==> #[trigger] row_lookup(r1, j) == row_lookup(r2, j),
    ensures
        r1 == r2,
    decreases r1.len() + r2.len(),
{
    if r1.len() == 0 {
        if r2.len() > 0 {
            lemma_lookup_at(r2, n, 0);
            assert(row_lookup(r1, r2[0].0 as int) == INF);
        }
        assert(r1 =~= r2);
    } else if r2.len() == 0 {
        lemma_lookup_at(r1, n, 0);
        assert(row_lookup(r2, r1[0].0 as int) == INF);
    } else {
        let c1 = r1[0].0 as int;
        let c2 = r2[0].0 as int;
        lemma_lookup_at(r1, n, 0);
        lemma_lookup_at(r2, n, 0);
        assert(row_lookup(r2, c1) < INF);
        let q2 = choose|k: int| 0 <= k < r2.len() && r2[k].0 == c1;
        if q2 > 0 {
            assert(r2[0].0 < r2[q2].0);
        }
        assert(row_lookup(r1, c2) < INF);
        let q1 = choose|k: int| 0 <= k < r1.len() && r1[k].0 == c2;
        if q1 > 0 {
            assert(r1[0].0 < r1[q1].0);
        }
        assert(c1 == c2);
        let t1 = r1.drop_first();
        let t2 = r2.drop_first();
        assert forall|j: int| 0 <= j < n implies #[trigger] row_lookup(t1, j) == row_lookup(t2, j) by {
            lemma_lookup_drop_first(r1, n, j);
            lemma_lookup_drop_first(r2, n, j);
        }
        lemma_rows_canonical(t1, t2, n);
        assert(r1 =~= seq![r1[0]] + t1);
        assert(r2 =~= seq![r2[0]] + t2);
    }
}

pub proof fn lemma_lookup_drop_first(r: Seq<(u32, u32)>, n: int, j: int)
    requires
        row_wf(r, n),
        r.len() > 0,
    ensures
        row_wf(r.drop_first(), n),
        row_lookup(r.drop_first(), j) == if j == r[0].0 { INF as int } else { row_lookup(r, j) },
{
    let t = r.drop_first();
    assert(row_wf(t, n)) by {
        assert forall|a: int, b: int| 0 <= a < b < t.len() implies t[a].0 < t[b].0 by {
            assert(t[a] == r[a + 1]);
            assert(t[b] == r[b + 1]);
        }
        assert forall|k: int| 0 <= k < t.len() implies (#[trigger] t[k]).0 < n && t[k].1 < INF by {
            assert(t[k] == r[k + 1]);
        }
    }
    if exists|k: int| 0 <= k < t.len() && t[k].0 == j {
        let k = choose|k: int| 0 <= k < t.len() && t[k].0 == j;
        assert(t[k] == r[k + 1]);
        assert(r[0].0 < r[k + 1].0);
        lemma_lookup_at(t, n, k);
        lemma_lookup_at(r, n, k + 1);
    } else if j != r[0].0 {
        if exists|k: int| 0 <= k < r.len() && r[k].0 == j {
            let k = choose|k: int| 0 <= k < r.len() && r[k].0 == j;
            assert(k != 0);
            assert(t[k - 1] == r[k]);
        }
    }
}

/// A copy of a well-formed row, entry by entry.
fn copy_row(row: &Vec<(u32, u32)>) -> (out: Vec<(u32, u32)>)
    ensures
        out@ == row@,
{
    let mut out: Vec<(u32, u32)> = Vec::new();
    let mut k: usize = 0;
    while k < row.len()
        invariant
            k <= row@.len(),
            out@ == row@.take(k as int),
        decreases row@.len() - k,
    {
        out.push(row[k]);
        k = k + 1;
        proof {
            assert(out@ =~= row@.take(k as int));
        }
    }
    proof {
        assert(row@.take(row@.len() as int) =~= row@);
    }
    out
}

/// Whether two matrices store the same rows.
fn same_rows(a: &Vec<Vec<(u32, u32)>>, b: &Vec<Vec<(u32, u32)>>) -> (eq: bool)
    ensures
        eq == (a@.len() == b@.len() && forall|i: int| 0 <= i < a@.len() ==> #[trigger] a@[i]@ == b@[i]@),
{
    if a.len() != b.len() {
        return false;
    }
    let mut i: usize = 0;
    while i < a.len()
        invariant
            a@.len() == b@.len(),
            i <= a@.len(),
            forall|p: int| 0 <= p < i ==> #[trigger] a@[p]@ == b@[p]@,
        decreases a@.len() - i,
    {
        let ra = &a[i];
        let rb = &b[i];
        if ra.len() != rb.len() {
            proof {
                assert(a@[i as int]@.len() != b@[i as int]@.len());
            }
            return false;
        }
        let mut k: usize = 0;
        while k < ra.len()
            invariant
                i < a@.len(),
                a@.len() == b@.len(),
                ra@ == a@[i as int]@,
                rb@ == b@[i as int]@,
                ra@.len() == rb@.len(),
                k <= ra@.len(),
                forall|q: int| 0 <= q < k ==> #[trigger] ra@[q] == rb@[q],
            decreases ra@.len() - k,
        {
            if ra[k].0 != rb[k].0 || ra[k].1 != rb[k].1 {
                proof {
                    assert(a@[i as int]@[k as int] != b@[i as int]@[k as int]);
                }
                return false;
            }
            k = k + 1;
        }
        proof {
            assert(ra@ =~= rb@);
        }
        i = i + 1;
    }
    true
}

/// Whether two flat tables hold the same entries.
fn same_entries(a: &Vec<u32>, b: &Vec<u32>) -> (eq: bool)
    ensures
        eq == (a@ == b@),
{
    if a.len() != b.len() {
        return false;
    }
    let mut i: usize = 0;
    while i < a.len()
        invariant
            a@.len() == b@.len(),
            i <= a@.len(),
            forall|p: int| 0 <= p < i ==> #[trigger] a@[p] == b@[p],
        decreases a@.len() - i,
    {
        if a[i] != b[i] {
            return false;
        }
        i = i + 1;
    }
    proof {
        assert(a@ =~= b@);
    }
    true
}

/// Rows per cache block in the dense kernel.
const DENSE_BLOCK_ROWS: usize = 32;

/// Every entry of the flat table lies in `[0, INF]`.
pub open spec fn dense_ok(a: Seq<u32>, n: nat) -> bool {
    &&& a.len() >= n * n
    &&& forall|p: int| 0 <= p < n * n ==> #[trigger] a[p] <= INF
}

pub proof fn lemma_dense_table(a: Seq<u32>, n: nat)
    requires
        dense_ok(a, n),
    ensures
        is_table(flat_table(a, n), n),
{
    assert forall|i: int, j: int| 0 <= i < n && 0 <= j < n implies 0 <= #[trigger] flat_table(a, n)[i][j] <= INF by {
        lemma_flat_index_bound(n as int, i, j);
    }
}

/// Relax one output row of the dense product through intermediate `k`:
/// `out[row][j] = min(out[row][j], a[row][k] + a[k][j])`.
fn relax_row(out: &mut Vec<u32>, a: &[u32], n: usize, row: usize, k: usize)
    requires
        dense_ok(a@, n as nat),
        n * n <= usize::MAX,
        row < n,
        k < n,
        old(out)@.len() == n * n,
        forall|j: int| 0 <= j < n ==> #[trigger] old(out)@[row * n + j] == dot(
            flat_table(a@, n as nat),
            flat_table(a@, n as nat),
            row as int,
            j,
            k as nat,
        ),
    ensures
        final(out)@.len() == n * n,
        forall|j: int| 0 <= j < n ==> #[trigger] final(out)@[row * n + j] == dot(
            flat_table(a@, n as nat),
            flat_table(a@, n as nat),
            row as int,
            j,
            (k + 1) as nat,
        ),
        forall|r: int, j: int| 0 <= r < n && 0 <= j < n && r != row ==> #[trigger] final(out)@[r * n + j] == old(
            out,
        )@[r * n + j],
{
    let ghost t = flat_table(a@, n as nat);
    proof {
        lemma_dense_table(a@, n as nat);
        lemma_flat_index_bound(n as int, row as int, k as int);
    }
    let av = a[row * n + k];
    if av >= INF {
        proof {
            assert forall|j: int| 0 <= j < n implies #[trigger] out@[row * n + j] == dot(t, t, row as int, j, (k + 1) as nat) by {
                lemma_dot_range(t, t, n as nat, row as int, j, k as nat);
                assert(t[row as int][k as int] == av);
                assert(0 <= t[k as int][j]);
            }
        }
        return;
    }
    let ghost old_out = out@;
    let mut j: usize = 0;
    while j < n
        invariant
            dense_ok(a@, n as nat),
            t == flat_table(a@, n as nat),
            is_table(t, n as nat),
            n * n <= usize::MAX,
            row < n,
            k < n,
            av < INF,
            av == t[row as int][k as int],
            j <= n,
            out@.len() == n * n,
            forall|jj: int| 0 <= jj < n ==> #[trigger] old_out[row * n + jj] == dot(t, t, row as int, jj, k as nat),
            forall|jj: int| 0 <= jj < n ==> #[trigger] out@[row * n + jj] == if jj < j {
                dot(t, t, row as int, jj, (k + 1) as nat)
            } else {
                old_out[row * n + jj] as int
            },
            forall|r: int, jj: int| 0 <= r < n && 0 <= jj < n && r != row ==> #[trigger] out@[r * n + jj] == old_out[r * n + jj],
        decreases n - j,
    {
        proof {
            lemma_flat_index_bound(n as int, row as int, j as int);
            lemma_flat_index_bound(n as int, k as int, j as int);
            lemma_dot_range(t, t, n as nat, row as int, j as int, k as nat);
        }
        let idx = row * n + j;
        let b = a[k * n + j];
        let o = out[idx];
        let cand = av + b;
        let v = if cand < o { cand } else { o };
        out.set(idx, v);
        proof {
            assert(t[k as int][j as int] == b);
            assert forall|jj: int| 0 <= jj < n implies #[trigger] out@[row * n + jj] == if jj < j + 1 {
                dot(t, t, row as int, jj, (k + 1) as nat)
            } else {
                old_out[row * n + jj] as int
            } by {
                lemma_flat_index_bound(n as int, row as int, jj);
                if jj != j {
                    if row * n + jj == idx {
                        lemma_flat_index_unique(n as int, row as int, jj, row as int, j as int);
                    }
                }
            }
            assert forall|r: int, jj: int| 0 <= r < n && 0 <= jj < n && r != row implies #[trigger] out@[r * n + jj]
                == old_out[r * n + jj] by {
                lemma_flat_index_bound(n as int, r, jj);
                if r * n + jj == idx {
                    lemma_flat_index_unique(n as int, r, jj, row as int, j as int);
                }
            }
        }
        j = j + 1;
    }
}

/// Dense min-plus product for the output rows `lo..hi` of `a (x) a`, with
/// the intermediate index `k` in the outer loop so each row of `a` is reused
/// across the whole block.
fn dense_block(out: &mut Vec<u32>, a: &[u32], n: usize, lo: usize, hi: usize)
    requires
        dense_ok(a@, n as nat),
        n * n <= usize::MAX,
        lo <= hi <= n,
        old(out)@.len() == n * n,
        forall|r: int, j: int| lo <= r < hi && 0 <= j < n ==> #[trigger] old(out)@[r * n + j] == INF,
    ensures
        final(out)@.len() == n * n,
        forall|r: int, j: int| lo <= r < hi && 0 <= j < n ==> #[trigger] final(out)@[r * n + j] == dot(
            flat_table(a@, n as nat),
            flat_table(a@, n as nat),
            r,
            j,
            n as nat,
        ),
        forall|r: int, j: int| 0 <= r < n && 0 <= j < n && !(lo <= r < hi) ==> #[trigger] final(out)@[r * n + j]
            == old(out)@[r * n + j],
{
    let ghost t = flat_table(a@, n as nat);
    let ghost old_out = out@;
    let mut k: usize = 0;
    while k < n
        invariant
            dense_ok(a@, n as nat),
            t == flat_table(a@, n as nat),
            n * n <= usize::MAX,
            lo <= hi <= n,
            k <= n,
            out@.len() == n * n,
            forall|r: int, j: int| lo <= r < hi && 0 <= j < n ==> #[trigger] out@[r * n + j] == dot(t, t, r, j, k as nat),
            forall|r: int, j: int| 0 <= r < n && 0 <= j < n && !(lo <= r < hi) ==> #[trigger] out@[r * n + j]
                == old_out[r * n + j],
        decreases n - k,
    {
        let mut row: usize = lo;
        while row < hi
            invariant
                dense_ok(a@, n as nat),
                t == flat_table(a@, n as nat),
                n * n <= usize::MAX,
                lo <= row <= hi <= n,
                k < n,
                out@.len() == n * n,
                forall|r: int, j: int| lo <= r < hi && 0 <= j < n ==> #[trigger] out@[r * n + j] == dot(
                    t,
                    t,
                    r,
                    j,
                    if r < row { (k + 1) as nat } else { k as nat },
                ),
                forall|r: int, j: int| 0 <= r < n && 0 <= j < n && !(lo <= r < hi) ==> #[trigger] out@[r * n + j]
                    == old_out[r * n + j],
            decreases hi - row,
        {
            relax_row(out, a, n, row, k);
            row = row + 1;
        }
        k = k + 1;
    }
}

/// Dense min-plus squaring kernel: `out = a (x) a` over flat row-major
/// storage, rows split into `ceil(n / threads)` worker ranges and then into
/// blocks of `DENSE_BLOCK_ROWS` rows.
fn multiply_dense(a: &[u32], n: usize, threads: usize) -> (out: Vec<u32>)
    requires
        dense_ok(a@, n as nat),
        n * n <= usize::MAX,
        n > 0,
    ensures
        out@.len() == n * n,
        dense_ok(out@, n as nat),
        flat_table(out@, n as nat) == square(flat_table(a@, n as nat), n as nat),
{
    let ghost t = flat_table(a@, n as nat);
    let mut out = inf_vec(n * n);
    let workers: usize = if threads > 1 { threads } else { 1 };
    proof {
        if workers == 1 {
            assert(n % workers == 0);
        } else {
            assert(n / workers <= n / 2) by {
                vstd::arithmetic::div_mod::lemma_div_is_ordered_by_denominator(n as int, 2, workers as int);
            }
        }
        assert forall|r: int, j: int| 0 <= r < n && 0 <= j < n implies #[trigger] out@[r * n + j] == INF by {
            lemma_flat_index_bound(n as int, r, j);
        }
    }
    let chunk_rows: usize = n / workers + if n % workers == 0 { 0 } else { 1 };
    proof {
        assert(chunk_rows >= 1) by {
            if n / workers == 0 {
                assert(n % workers == n) by (nonlinear_arith)
                    requires n / workers == 0, workers >= 1, n >= 0;
            }
        }
    }
    let mut start_row: usize = 0;
    while start_row < n
        invariant
            dense_ok(a@, n as nat),
            t == flat_table(a@, n as nat),
            n * n <= usize::MAX,
            chunk_rows >= 1,
            start_row <= n,
            out@.len() == n * n,
            forall|r: int, j: int| 0 <= r < n && 0 <= j < n ==> #[trigger] out@[r * n + j] == if r < start_row {
                dot(t, t, r, j, n as nat)
            } else {
                INF as int
            },
        decreases n - start_row,
    {
        let chunk_end: usize = if n - start_row > chunk_rows { start_row + chunk_rows } else { n };
        let mut block_start: usize = start_row;
        while block_start < chunk_end
            invariant
                dense_ok(a@, n as nat),
                t == flat_table(a@, n as nat),
                n * n <= usize::MAX,
                start_row <= block_start <= chunk_end <= n,
                out@.len() == n * n,
                forall|r: int, j: int| 0 <= r < n && 0 <= j < n ==> #[trigger] out@[r * n + j] == if r < block_start {
                    dot(t, t, r, j, n as nat)
                } else {
                    INF as int
                },
            decreases chunk_end - block_start,
        {
            let block_end: usize = if chunk_end - block_start > DENSE_BLOCK_ROWS {
                block_start + DENSE_BLOCK_ROWS
            } else {
                chunk_end
            };
            dense_block(&mut out, a, n, block_start, block_end);
            block_start = block_end;
        }
        start_row = chunk_end;
    }
    proof {
        lemma_dense_table(a@, n as nat);
        assert forall|p: int| 0 <= p < n * n implies #[trigger] out@[p] <= INF by {
            let r = p / n as int;
            let j = p % n as int;
            vstd::arithmetic::div_mod::lemma_fundamental_div_mod(p, n as int);
            vstd::arithmetic::div_mod::lemma_div_pos_is_pos(p, n as int);
            vstd::arithmetic::div_mod::lemma_mod_pos_bound(p, n as int);
            assert(r < n) by (nonlinear_arith)
                requires
                    p == n * r + j,
                    0 <= j,
                    p < n * n,
                    n > 0,
            ;
            assert(r * n + j == p) by (nonlinear_arith)
                requires p == n * r + j;
            lemma_dot_range(t, t, n as nat, r, j, n as nat);
        }
        assert forall|r: int| 0 <= r < n implies #[trigger] flat_table(out@, n as nat)[r] =~= square(t, n as nat)[r] by {
        }
        assert(flat_table(out@, n as nat) =~= square(t, n as nat));
    }
    out
}

impl TropicalSparseMatrix {
    /// The stored entries of a row are exactly its finite columns.
    pub proof fn lemma_row_count(&self, i: int)
        requires
            self.wf(),
            0 <= i < self.size,
        ensures
            finite_cols(self@[i], self.size as nat).finite(),
            self.rows@[i]@.len() == finite_cols(self@[i], self.size as nat).len(),
    {
        let row = self.rows@[i]@;
        let n = self.size as int;
        assert(row_wf(row, n));
        let cols = row.map_values(|e: (u32, u32)| e.0 as int);
        assert(cols.no_duplicates()) by {
            assert forall|a: int, b: int| 0 <= a < cols.len() && 0 <= b < cols.len() && a != b implies cols[a] != cols[b] by {
                if a < b {
                    assert(row[a].0 < row[b].0);
                } else {
                    assert(row[b].0 < row[a].0);
                }
            }
        }
        cols.unique_seq_to_set();
        let fc = finite_cols(self@[i], self.size as nat);
        assert forall|j: int| #[trigger] fc.contains(j) <==> cols.to_set().contains(j) by {
            lemma_lookup_range(row, n, j);
            if fc.contains(j) {
                assert(self@[i][j] == row_lookup(row, j));
                let k = choose|k: int| 0 <= k < row.len() && row[k].0 == j;
                assert(cols[k] == j);
                assert(cols.contains(j));
            }
            if cols.to_set().contains(j) {
                assert(cols.contains(j));
                let k = choose|k: int| 0 <= k < cols.len() && cols[k] == j;
                assert(row[k].0 == j);
                assert(0 <= j < n);
                assert(self@[i][j] == row_lookup(row, j));
            }
        }
        assert(fc =~= cols.to_set());
    }

    pub proof fn lemma_view_table(&self)
        requires
            self.wf(),
        ensures
            is_table(self@, self.size as nat),
            forall|i: int, j: int| 0 <= i < self.size && 0 <= j < self.size ==> #[trigger] self@[i][j] == self.entry(i, j),
    {
        assert forall|i: int, j: int| 0 <= i < self.size && 0 <= j < self.size implies 0 <= #[trigger] self@[i][j] <= INF by {
            lemma_lookup_range(self.rows@[i]@, self.size as int, j);
        }
    }

    /// Row `i` of the tropical product `self (x) other`.
    fn product_of_row(&self, other: &Self, i: usize, scratch: &mut Vec<u32>, touched: &mut Vec<u32>) -> (row: Vec<(u32, u32)>)
        requires
            self.wf(),
            other.wf(),
            self.size == other.size,
            i < self.size,
            old(scratch)@.len() == other.size,
            forall|j: int| 0 <= j < other.size ==> #[trigger] old(scratch)@[j] == INF,
            old(touched)@.len() == 0,
        ensures
            row_wf(row@, self.size as int),
            forall|j: int| 0 <= j < self.size ==> #[trigger] row_lookup(row@, j) == dot(self@, other@, i as int, j, self.size as nat),
            final(scratch)@.len() == other.size,
            forall|j: int| 0 <= j < other.size ==> #[trigger] final(scratch)@[j] == INF,
            final(touched)@.len() == 0,
    {
        let ghost n = self.size as nat;
        let arow = &self.rows[i];
        proof {
            assert(row_wf(arow@, n as int));
            self.lemma_view_table();
            other.lemma_view_table();
        }
        let row = product_row(arow, other, scratch, touched);
        proof {
            assert forall|j: int| 0 <= j < n implies #[trigger] row_lookup(row@, j) == dot(self@, other@, i as int, j, n) by {
                lemma_sparse_dense_prefix(arow@, self@, other@, n, i as int, j, n, arow@.len());
            }
        }
        row
    }

    /// Sparse tropical matrix product `self (x) other`. Rows are computed in
    /// consecutive blocks of `ceil(n / threads)`, one block per worker, each
    /// with its own dense scratch row; the product does not depend on `threads`.
    pub fn multiply(&self, other: &Self, threads: usize) -> (m: Self)
        requires
            self.wf(),
            other.wf(),
            self.size == other.size,
            self.size > 0,
        ensures
            m.wf(),
            m.size == self.size,
            m@ == mat_mul(self@, other@, self.size as nat),
    {
        let n = self.size;
        let workers: usize = if threads > 1 { threads } else { 1 };
        proof {
            if workers == 1 {
                assert(n % workers == 0);
            } else {
                assert(n / workers <= n / 2) by {
                    vstd::arithmetic::div_mod::lemma_div_is_ordered_by_denominator(n as int, 2, workers as int);
                }
            }
        }
        let chunk: usize = n / workers + if n % workers == 0 { 0 } else { 1 };
        proof {
            assert(chunk >= 1) by {
                if n / workers == 0 {
                    assert(n % workers == n) by (nonlinear_arith)
                        requires n / workers == 0, workers >= 1, n >= 0;
                }
            }
        }
        let mut out: Vec<Vec<(u32, u32)>> = Vec::new();
        let mut start: usize = 0;
        while start < n
            invariant
                self.wf(),
                other.wf(),
                self.size == n,
                other.size == n,
                chunk >= 1,
                start <= n,
                out@.len() == start,
                forall|a: int| 0 <= a < start ==> row_wf(#[trigger] out@[a]@, n as int),
                forall|a: int, j: int| 0 <= a < start && 0 <= j < n ==> #[trigger] row_lookup(out@[a]@, j) == dot(self@, other@, a, j, n as nat),
            decreases n - start,
        {
            let end: usize = if n - start > chunk { start + chunk } else { n };
            let mut scratch = inf_vec(n);
            let mut touched: Vec<u32> = Vec::new();
            let mut i: usize = start;
            while i < end
                invariant
                    self.wf(),
                    other.wf(),
                    self.size == n,
                    other.size == n,
                        start <= i <= end <= n,
                    out@.len() == i,
                    scratch@.len() == n,
                    forall|j: int| 0 <= j < n ==> #[trigger] scratch@[j] == INF,
                    touched@.len() == 0,
                    forall|a: int| 0 <= a < i ==> row_wf(#[trigger] out@[a]@, n as int),
                    forall|a: int, j: int| 0 <= a < i && 0 <= j < n ==> #[trigger] row_lookup(out@[a]@, j) == dot(self@, other@, a, j, n as nat),
                decreases end - i,
            {
                let row = self.product_of_row(other, i, &mut scratch, &mut touched);
                out.push(row);
                i = i + 1;
            }
            start = end;
        }
        let m = TropicalSparseMatrix { size: n, rows: out };
        proof {
            assert forall|a: int| 0 <= a < n implies #[trigger] m@[a] =~= mat_mul(self@, other@, n as nat)[a] by {
                assert forall|j: int| 0 <= j < n implies m@[a][j] == mat_mul(self@, other@, n as nat)[a][j] by {
                    assert(m@[a][j] == m.entry(a, j));
                }
            }
            assert(m@ =~= mat_mul(self@, other@, n as nat));
        }
        m
    }

    /// An entry-by-entry copy of the matrix.
    fn duplicate(&self) -> (m: Self)
        requires
            self.wf(),
        ensures
            m.wf(),
            m.size == self.size,
            m.rows@.len() == self.rows@.len(),
            forall|i: int| 0 <= i < self.rows@.len() ==> #[trigger] m.rows@[i]@ == self.rows@[i]@,
            m@ == self@,
    {
        let mut rows: Vec<Vec<(u32, u32)>> = Vec::new();
        let mut i: usize = 0;
        while i < self.rows.len()
            invariant
                i <= self.rows@.len(),
                rows@.len() == i,
                forall|p: int| 0 <= p < i ==> #[trigger] rows@[p]@ == self.rows@[p]@,
            decreases self.rows@.len() - i,
        {
            rows.push(copy_row(&self.rows[i]));
            i = i + 1;
        }
        let m = TropicalSparseMatrix { size: self.size, rows };
        proof {
            assert forall|a: int| 0 <= a < self.size implies #[trigger] m@[a] =~= self@[a] by {
                assert forall|b: int| 0 <= b < self.size implies m@[a][b] == self@[a][b] by {
                    assert(m@[a][b] == m.entry(a, b));
                    assert(self@[a][b] == self.entry(a, b));
                }
            }
            assert(m@ =~= self@);
        }
        m
    }

    /// Equal stored rows mean equal matrices, and for well-formed matrices
    /// of the same size the converse holds too.
    pub proof fn lemma_rows_iff_view(&self, other: &Self)
        requires
            self.wf(),
            other.wf(),
            self.size == other.size,
        ensures
            (forall|i: int| 0 <= i < self.size ==> #[trigger] self.rows@[i]@ == other.rows@[i]@) <==> self@ == other@,
    {
        if self@ == other@ {
            assert forall|i: int| 0 <= i < self.size implies #[trigger] self.rows@[i]@ == other.rows@[i]@ by {
                assert forall|j: int| 0 <= j < self.size implies #[trigger] row_lookup(self.rows@[i]@, j)
                    == row_lookup(other.rows@[i]@, j) by {
                    assert(self@[i][j] == other@[i][j]);
                }
                lemma_rows_canonical(self.rows@[i]@, other.rows@[i]@, self.size as int);
            }
        }
        if forall|i: int| 0 <= i < self.size ==> #[trigger] self.rows@[i]@ == other.rows@[i]@ {
            assert forall|i: int| 0 <= i < self.size implies #[trigger] self@[i] =~= other@[i] by {
                assert(self.rows@[i]@ == other.rows@[i]@);
            }
            assert(self@ =~= other@);
        }
    }

    /// Transitive closure via repeated squaring: A, A^2, A^4, ... in
    /// ceil(log2(n)) steps max, with early exit on fixpoint. Switches to a
    /// flat dense kernel once the matrix saturates past DENSE_SWITCH_PCT.
    #[verifier::spinoff_prover]
    pub fn closure(&self, threads: usize) -> (res: (Self, ClosureTelemetry))
        requires
            self.wf(),
            self.size > 0,
            self.size * self.size * 100 <= usize::MAX,
        ensures
            res.0.wf(),
            res.0.size == self.size,
            res.0@ == square_iter(with_diag(self@, self.size as nat), self.size as nat, closure_steps(self.size as nat)),
            res.1.squarings == stable_from(
                with_diag(self@, self.size as nat),
                self.size as nat,
                0,
                closure_steps(self.size as nat),
            ),
            res.1.squarings <= closure_steps(self.size as nat),
            res.0@ == square_iter(with_diag(self@, self.size as nat), self.size as nat, res.1.squarings as nat),
            cheapest_table(self@, self.size as nat, res.0@),
            same_step(
                res.1.dense_switch_at,
                dense_switch(
                    with_diag(self@, self.size as nat),
                    self.size as nat,
                    if res.1.squarings < closure_steps(self.size as nat) {
                        (res.1.squarings + 1) as nat
                    } else {
                        closure_steps(self.size as nat)
                    },
                ),
            ),
    {
        let n = self.size;
        let ghost nn = n as nat;
        let ghost base = with_diag(self@, nn);
        let m = if n > 2 { n } else { 2 };
        let max_steps = bit_length(m - 1);
        proof {
            lemma_bit_len((m - 1) as nat);
        }

        let mut cur = self.duplicate();
        cur.ensure_diagonal();
        proof {
            self.lemma_view_table();
            assert(is_table(base, nn)) by {
                assert forall|i: int, j: int| 0 <= i < nn && 0 <= j < nn implies 0 <= #[trigger] base[i][j] <= INF by {
                }
            }
        }
        let mut dense: Option<Vec<u32>> = None;
        let mut telemetry = ClosureTelemetry { squarings: 0, dense_switch_at: None };
        let mut step: usize = 1;
        let mut done = false;
        while step <= max_steps && !done
            invariant
                n == self.size,
                nn == n,
                n > 0,
                n <= u32::MAX,
                n * n * 100 <= usize::MAX,
                is_table(base, nn),
                max_steps == closure_steps(nn),
                max_steps <= n,
                max_steps < usize::MAX,
                1 <= step <= max_steps + 1,
                !done ==> telemetry.squarings == step - 1,
                done ==> telemetry.squarings == step - 1 && telemetry.squarings < max_steps
                    && square(square_iter(base, nn, (step - 1) as nat), nn) == square_iter(base, nn, (step - 1) as nat),
                forall|t: nat| t < step - 1 ==> #[trigger] square(square_iter(base, nn, t), nn) != square_iter(base, nn, t),
                dense is None ==> cur.wf() && cur.size == n && cur@ == square_iter(base, nn, (step - 1) as nat),
                dense matches Some(d) ==> d@.len() == n * n && dense_ok(d@, nn) && flat_table(d@, nn) == square_iter(
                    base,
                    nn,
                    (step - 1) as nat,
                ),
                dense is None <==> telemetry.dense_switch_at is None,
                !done ==> same_step(telemetry.dense_switch_at, dense_switch(base, nn, (step - 1) as nat)),
                done ==> same_step(telemetry.dense_switch_at, dense_switch(base, nn, step as nat)),
            decreases max_steps + 1 - step, if done { 0int } else { 1int },
        {
            let ghost s = (step - 1) as nat;
            proof {
                lemma_square_iter_table(base, nn, s);
            }
            if dense.is_none() {
                proof {
                    lemma_finite_upto_bound(cur@, cur.size as nat, cur.size as int);
                    assert(cur.size * cur.size <= cur.size * cur.size * 100) by (nonlinear_arith);
                }
                let count = cur.nnz();
                if count * 100 >= n * n * DENSE_SWITCH_PCT {
                    let d = cur.to_dense();
                    proof {
                        lemma_square_iter_table(base, nn, s);
                        assert forall|p: int| 0 <= p < n * n implies #[trigger] d@[p] <= INF by {
                            let r = p / n as int;
                            let j = p % n as int;
                            vstd::arithmetic::div_mod::lemma_fundamental_div_mod(p, n as int);
                            vstd::arithmetic::div_mod::lemma_div_pos_is_pos(p, n as int);
                            vstd::arithmetic::div_mod::lemma_mod_pos_bound(p, n as int);
                            assert(r < n) by (nonlinear_arith)
                                requires
                                    p == n * r + j,
                                    0 <= j,
                                    p < n * n,
                                    n > 0,
                            ;
                            assert(r * n + j == p) by (nonlinear_arith)
                                requires p == n * r + j;
                            assert(flat_table(d@, nn)[r][j] == d@[p]);
                        }
                    }
                    dense = Some(d);
                    telemetry.dense_switch_at = Some(step);
                }
            }
            proof {
                assert(same_step(telemetry.dense_switch_at, dense_switch(base, nn, step as nat)));
            }
            if dense.is_some() {
                let d = dense.unwrap();
                let next = multiply_dense(&d, n, threads);
                proof {
                    lemma_flat_table_eq(next@, d@, nn);
                }
                if same_entries(&next, &d) {
                    done = true;
                    dense = Some(d);
                } else {
                    telemetry.squarings = step;
                    dense = Some(next);
                    step = step + 1;
                }
            } else {
                let next = cur.multiply(&cur, threads);
                proof {
                    next.lemma_rows_iff_view(&cur);
                }
                let same = same_rows(&next.rows, &cur.rows);
                proof {
                    if !same {
                        assert(!(forall|i: int| 0 <= i < n ==> #[trigger] next.rows@[i]@ == cur.rows@[i]@));
                        assert(next@ != cur@);
                    }
                }
                if same {
                    done = true;
                } else {
                    telemetry.squarings = step;
                    cur = next;
                    step = step + 1;
                }
            }
        }
        let ghost fin = telemetry.squarings as nat;
        proof {
            if done {
                lemma_square_iter_fixpoint(base, nn, fin, max_steps as nat);
            }
            assert(stable_from(base, nn, 0, max_steps as nat) == fin) by {
                lemma_stable_from(base, nn, 0, max_steps as nat, fin);
            }
        }
        let result = match dense {
            Some(d) => {
                let r = Self::from_dense(&d, n);
                proof {
                    lemma_square_iter_table(base, nn, fin);
                    assert forall|a: int| 0 <= a < n implies #[trigger] r@[a] =~= square_iter(base, nn, fin)[a] by {
                        assert forall|b: int| 0 <= b < n implies r@[a][b] == square_iter(base, nn, fin)[a][b] by {
                            assert(flat_table(d@, nn)[a][b] == d@[a * n + b]);
                        }
                    }
                    assert(r@ =~= square_iter(base, nn, fin));
                }
                r
            },
            None => cur,
        };
        proof {
            lemma_steps_cover(nn);
            self.lemma_view_table();
            lemma_power_cheapest(self@, nn, closure_steps(nn));
        }
        (result, telemetry)
    }

    /// Insert edge r -> c with weight v, keeping the minimum on duplicates.
    /// Weights at or above INF mean "no edge" and leave the matrix unchanged.
    pub fn set(&mut self, r: usize, c: usize, v: u32)
        requires
            old(self).wf(),
            r < old(self).size,
            c < old(self).size,
        ensures
            final(self).wf(),
            final(self).size == old(self).size,
            final(self)@ == set_view(old(self)@, r as int, c as int, v as int),
    {
        let ghost old_m = *self;
        if v >= INF {
            proof {
                let rr = r as int;
                let cc = c as int;
                lemma_lookup_range(old_m.rows@[rr]@, old_m.size as int, cc);
                assert(old_m@[rr].update(cc, tmin(old_m@[rr][cc], v as int)) =~= old_m@[rr]);
                assert(old_m@.update(rr, old_m@[rr]) =~= old_m@);
            }
            return;
        }
        set_in_row(&mut self.rows[r], Ghost(self.size as int), c as u32, v);
        proof {
            let rr = r as int;
            let cc = c as int;
            let target = old_m@.update(rr, old_m@[rr].update(cc, tmin(old_m@[rr][cc], v as int)));
            assert forall|i: int| 0 <= i < self.size implies row_wf(#[trigger] self.rows@[i]@, self.size as int) by {
                if i != rr {
                    assert(self.rows@[i] == old_m.rows@[i]);
                }
            }
            assert forall|i: int| 0 <= i < self.size implies #[trigger] self@[i] =~= target[i] by {
                if i != rr {
                    assert(self.rows@[i] == old_m.rows@[i]);
                    assert forall|j: int| 0 <= j < self.size implies self@[i][j] == target[i][j] by {
                        assert(self@[i][j] == self.entry(i, j));
                    }
                } else {
                    assert forall|j: int| 0 <= j < self.size implies self@[i][j] == target[i][j] by {
                        assert(self@[i][j] == row_lookup(self.rows@[i]@, j));
                    }
                }
            }
            assert(self@ =~= target);
        }
    }

    /// Number of stored entries in the first `i` rows.
    spec fn stored_upto(&self, i: int) -> int
        decreases i,
    {
        if i <= 0 {
            0
        } else {
            self.stored_upto(i - 1) + self.rows@[i - 1]@.len()
        }
    }

    proof fn lemma_stored_upto(&self, i: int)
        requires
            self.wf(),
            0 <= i <= self.size,
        ensures
            self.stored_upto(i) == finite_upto(self@, self.size as nat, i),
        decreases i,
    {
        if i > 0 {
            self.lemma_stored_upto(i - 1);
            self.lemma_row_count(i - 1);
        }
    }

    proof fn lemma_stored_mono(&self, i: int, j: int)
        requires
            0 <= i <= j,
        ensures
            self.stored_upto(i) <= self.stored_upto(j),
        decreases j,
    {
        if i < j {
            self.lemma_stored_mono(i, j - 1);
        }
    }

    /// Number of stored (finite) entries; the count must fit in `usize`.
    pub fn nnz(&self) -> (count: usize)
        requires
            self.wf(),
            finite_upto(self@, self.size as nat, self.size as int) <= usize::MAX,
        ensures
            count == finite_upto(self@, self.size as nat, self.size as int),
            count <= self.size * self.size,
    {
        proof {
            self.lemma_stored_upto(self.size as int);
            lemma_finite_upto_bound(self@, self.size as nat, self.size as int);
        }
        let mut total: usize = 0;
        let mut i: usize = 0;
        while i < self.size
            invariant
                self.wf(),
                i <= self.size,
                total == self.stored_upto(i as int),
                self.stored_upto(self.size as int) <= usize::MAX,
            decreases self.size - i,
        {
            proof {
                self.lemma_stored_mono(i + 1, self.size as int);
            }
            total = total + self.rows[i].len();
            i = i + 1;
        }
        total
    }

    /// Guarantee A[i][i] = 0 so that A (x) A always subsumes A itself
    /// (paths of length <= 2 include paths of length <= 1).
    pub fn ensure_diagonal(&mut self)
        requires
            old(self).wf(),
        ensures
            final(self).wf(),
            final(self).size == old(self).size,
            final(self)@ == with_diag(old(self)@, old(self).size as nat),
    {
        let ghost old_view = self@;
        let ghost n = self.size as nat;
        let mut i: usize = 0;
        while i < self.size
            invariant
                self.wf(),
                self.size == n,
                i <= n,
                self@.len() == n,
                forall|a: int| 0 <= a < n ==> (#[trigger] self@[a]).len() == n,
                forall|a: int, b: int| 0 <= a < n && 0 <= b < n ==> #[trigger] self@[a][b] == if a == b && a < i {
                    0
                } else {
                    old_view[a][b]
                },
            decreases n - i,
        {
            proof {
                lemma_lookup_range(self.rows@[i as int]@, n as int, i as int);
            }
            self.set(i, i, 0);
            i = i + 1;
        }
        assert(self@ =~= with_diag(old_view, n)) by {
            assert forall|a: int| 0 <= a < n implies #[trigger] self@[a] =~= with_diag(old_view, n)[a] by {
            }
        }
    }

    /// Flat row-major `n * n` copy of the matrix, INF where no entry is stored.
    pub fn to_dense(&self) -> (d: Vec<u32>)
        requires
            self.wf(),
            self.size * self.size <= usize::MAX,
        ensures
            d@.len() == self.size * self.size,
            flat_table(d@, self.size as nat) == self@,
    {
        let n = self.size;
        let mut d = vec![INF; n * n];
        proof {
            assert forall|p: int| 0 <= p < n * n implies #[trigger] d@[p] == INF by {
                assert(cloned::<u32>(INF, d@[p]));
            }
            assert forall|a: int, b: int| 0 <= a < n && 0 <= b < n implies #[trigger] d@[a * n + b] == INF by {
                lemma_flat_index_bound(n as int, a, b);
            }
        }
        let mut i: usize = 0;
        while i < n
            invariant
                self.wf(),
                n == self.size,
                n * n <= usize::MAX,
                i <= n,
                d@.len() == n * n,
                forall|a: int, b: int| 0 <= a < n && 0 <= b < n ==> #[trigger] d@[a * n + b] == if a < i {
                    self.entry(a, b)
                } else {
                    INF as int
                },
            decreases n - i,
        {
            let row = &self.rows[i];
            proof {
                assert(row_wf(row@, n as int));
            }
            let mut k: usize = 0;
            while k < row.len()
                invariant
                    self.wf(),
                    n == self.size,
                    n * n <= usize::MAX,
                    i < n,
                    row == &self.rows@[i as int],
                    row_wf(row@, n as int),
                    k <= row@.len(),
                    d@.len() == n * n,
                    forall|a: int, b: int| 0 <= a < n && 0 <= b < n ==> #[trigger] d@[a * n + b] == if a < i {
                        self.entry(a, b)
                    } else if a == i {
                        row_lookup(row@.take(k as int), b)
                    } else {
                        INF as int
                    },
                decreases row@.len() - k,
            {
                let (j, v) = row[k];
                proof {
                    lemma_flat_index_bound(n as int, i as int, j as int);
                }
                d.set(i * n + j as usize, v);
                proof {
                    let pre = row@.take(k as int);
                    let post = row@.take(k + 1);
                    assert(row_wf(post, n as int));
                    lemma_lookup_at(post, n as int, k as int);
                    assert forall|a: int, b: int| 0 <= a < n && 0 <= b < n implies #[trigger] d@[a * n + b]
                        == if a < i {
                        self.entry(a, b)
                    } else if a == i {
                        row_lookup(post, b)
                    } else {
                        INF as int
                    } by {
                        lemma_flat_index_bound(n as int, a, b);
                        if a * n + b == i * n + j {
                            lemma_flat_index_unique(n as int, a, b, i as int, j as int);
                        } else if a == i {
                            assert(b != j);
                            lemma_lookup_snoc(pre, row@[k as int], b);
                            assert(post =~= pre.push(row@[k as int]));
                        }
                    }
                }
                k = k + 1;
            }
            proof {
                assert(row@.take(row@.len() as int) =~= row@);
            }
            i = i + 1;
        }
        proof {
            assert forall|a: int| 0 <= a < n implies #[trigger] flat_table(d@, n as nat)[a] =~= self@[a] by {
                assert forall|b: int| 0 <= b < n implies flat_table(d@, n as nat)[a][b] == self@[a][b] by {
                    assert(d@[a * n + b] == self.entry(a, b));
                }
            }
            assert(flat_table(d@, n as nat) =~= self@);
        }
        d
    }

    /// Rebuild a sparse matrix from a flat row-major `n * n` table, keeping
    /// only the entries below INF.
    pub fn from_dense(d: &[u32], n: usize) -> (m: Self)
        requires
            d@.len() >= n * n,
            n * n <= usize::MAX,
            n <= u32::MAX,
        ensures
            m.wf(),
            m.size == n,
            forall|i: int, j: int| 0 <= i < n && 0 <= j < n ==> #[trigger] m@[i][j] == cap(d@[i * n + j] as int),
    {
        let mut m = Self::new(n);
        let mut i: usize = 0;
        while i < n
            invariant
                m.wf(),
                m.size == n,
                n * n <= usize::MAX,
                n <= u32::MAX,
                d@.len() >= n * n,
                i <= n,
                forall|a: int, b: int| 0 <= a < i && 0 <= b < n ==> #[trigger] m.entry(a, b) == cap(d@[a * n + b] as int),
            decreases n - i,
        {
            let mut row: Vec<(u32, u32)> = Vec::new();
            let mut j: usize = 0;
            while j < n
                invariant
                    n * n <= usize::MAX,
                    n <= u32::MAX,
                    d@.len() >= n * n,
                    i < n,
                    j <= n,
                    row_wf(row@, n as int),
                    forall|k: int| 0 <= k < row@.len() ==> (#[trigger] row@[k]).0 < j,
                    forall|b: int| 0 <= b < j ==> #[trigger] row_lookup(row@, b) == cap(d@[i * n + b] as int),
                decreases n - j,
            {
                proof {
                    lemma_flat_index_bound(n as int, i as int, j as int);
                }
                let v = d[i * n + j];
                if v < INF {
                    let ghost pre = row@;
                    row.push((j as u32, v));
                    proof {
                        assert(row_wf(row@, n as int));
                        assert forall|b: int| 0 <= b < j + 1 implies #[trigger] row_lookup(row@, b) == cap(d@[i * n + b] as int) by {
                            lemma_lookup_snoc(pre, (j as u32, v), b);
                        }
                    }
                } else {
                    proof {
                        lemma_lookup_range(row@, n as int, j as int);
                        if row_lookup(row@, j as int) < INF {
                            let k = choose|k: int| 0 <= k < row@.len() && row@[k].0 == j;
                        }
                    }
                }
                j = j + 1;
            }
            let ghost old_m = m;
            m.rows.set(i, row);
            proof {
                assert forall|a: int| 0 <= a < n implies row_wf(#[trigger] m.rows@[a]@, n as int) by {
                    if a != i {
                        assert(m.rows@[a] == old_m.rows@[a]);
                    }
                }
                assert forall|a: int, b: int| 0 <= a < i + 1 && 0 <= b < n implies #[trigger] m.entry(a, b) == cap(d@[a * n + b] as int) by {
                    if a != i {
                        assert(m.rows@[a] == old_m.rows@[a]);
                        assert(old_m.entry(a, b) == cap(d@[a * n + b] as int));
                    }
                }
            }
            i = i + 1;
        }
        m
    }

    pub fn get(&self, r: usize, c: usize) -> (w: u32)
        requires
            self.wf(),
            r < self.size,
        ensures
            w as int == self.entry(r as int, (c as u32) as int),
            c < self.size ==> w as int == self@[r as int][c as int],
    {
        let row = &self.rows[r];
        proof {
            assert(row_wf(row@, self.size as int));
        }
        match find_col(row, c as u32) {
            Ok(pos) => {
                proof {
                    lemma_lookup_at(row@, self.size as int, pos as int);
                }
                row[pos].1
            },
            Err(pos) => {
                proof {
                    let j = (c as u32) as int;
                    if exists|k: int| 0 <= k < row@.len() && row@[k].0 == j {
                        let k = choose|k: int| 0 <= k < row@.len() && row@[k].0 == j;
                        assert(k < pos || k >= pos);
                    }
                }
                INF
            },
        }
    }
}

/// Reading a matrix back from its dense layout gives the same matrix: when
/// `d` is `m` laid out flat (as `to_dense` returns it) and `r` is read from
/// `d` (as `from_dense` builds it), `r` has the entries and the stored rows
/// of `m`.
pub proof fn lemma_dense_round_trip(m: TropicalSparseMatrix, d: Seq<u32>, r: TropicalSparseMatrix)
    requires
        m.wf(),
        r.wf(),
        r.size == m.size,
        d.len() == m.size * m.size,
        flat_table(d, m.size as nat) == m@,
        forall|i: int, j: int| 0 <= i < m.size && 0 <= j < m.size ==> #[trigger] r@[i][j] == cap(d[i * m.size + j] as int),
    ensures
        r@ == m@,
        forall|i: int| 0 <= i < m.size ==> #[trigger] r.rows@[i]@ == m.rows@[i]@,
{
    let n = m.size as int;
    m.lemma_view_table();
    assert forall|i: int| 0 <= i < n implies #[trigger] r@[i] =~= m@[i] by {
        assert forall|j: int| 0 <= j < n implies r@[i][j] == m@[i][j] by {
            assert(flat_table(d, n as nat)[i][j] == d[i * n + j] as int);
            assert(0 <= m@[i][j] <= INF);
        }
    }
    assert(r@ =~= m@);
    r.lemma_rows_iff_view(&m);
}

/// The entries after `set(r, c, v)` on a matrix with entries `t`: the cell
/// keeps the smaller of its weight and `v`.
pub open spec fn set_view(t: Seq<Seq<int>>, r: int, c: int, v: int) -> Seq<Seq<int>> {
    t.update(r, t[r].update(c, tmin(t[r][c], v)))
}

/// Setting keeps the cheapest weight, so it is order-independent and
/// idempotent: two `set`s give the same entries in either order (on one
/// cell or on two), repeating a `set` changes nothing, and a `get` after
/// `set(r, c, v)` reads the smaller of the old weight and `v` (so `v` itself
/// on a cell that held no import).
pub proof fn lemma_set_laws(m: TropicalSparseMatrix, r1: int, c1: int, v: int, r2: int, c2: int, w: int)
    requires
        m.wf(),
        0 <= r1 < m.size,
        0 <= c1 < m.size,
        0 <= r2 < m.size,
        0 <= c2 < m.size,
    ensures
        set_view(set_view(m@, r1, c1, v), r2, c2, w) == set_view(set_view(m@, r2, c2, w), r1, c1, v),
        set_view(set_view(m@, r1, c1, v), r1, c1, v) == set_view(m@, r1, c1, v),
        set_view(m@, r1, c1, v)[r1][c1] == tmin(m@[r1][c1], v),
        m@[r1][c1] == INF && v < INF ==> set_view(m@, r1, c1, v)[r1][c1] == v,
{
    let t = m@;
    let a = set_view(set_view(t, r1, c1, v), r2, c2, w);
    let b = set_view(set_view(t, r2, c2, w), r1, c1, v);
    assert forall|i: int| 0 <= i < t.len() implies #[trigger] a[i] =~= b[i] by {
        assert forall|j: int| 0 <= j < t[i].len() implies a[i][j] == b[i][j] by {}
    }
    assert(a =~= b);
    let once = set_view(t, r1, c1, v);
    let twice = set_view(once, r1, c1, v);
    assert forall|i: int| 0 <= i < t.len() implies #[trigger] twice[i] =~= once[i] by {}
    assert(twice =~= once);
}

impl TropicalSparseMatrix {
    /// Whether `closure` accepts this matrix: at least one module, and
    /// `n * n * 100` fits in a `usize`.
    pub fn closure_fits(&self) -> (b: bool)
        ensures
            b == (self.size > 0 && self.size * self.size * 100 <= usize::MAX),
    {
        let n = self.size;
        if n == 0 {
            return false;
        }
        match n.checked_mul(n) {
            None => {
                proof {
                    assert(n * n * 100 >= n * n) by (nonlinear_arith);
                }
                false
            },
            Some(nn) => nn.checked_mul(100).is_some(),
        }
    }
}

} // verus!
