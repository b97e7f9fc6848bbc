//! Paths through a weight table and the cheapest-path characterisation of
//! repeated tropical squaring.
//!
//! A table `a` holds in `a[i][j]` the weight of the edge `i -> j`, or INF
//! when there is none. A path is a nonempty sequence of modules joined by
//! finite edges; its weight is the sum of those edges.
use vstd::prelude::*;
use crate::tropical::INF;
use crate::semiring::{cap, dot, mat_mul, square, square_iter, with_diag, is_table, bit_len, lemma_bit_len,
    lemma_square_iter_table, lemma_dot_range};

verus! {

/// `p` is a path of finite edges through the `n x n` table `a`.
pub open spec fn is_path(a: Seq<Seq<int>>, n: nat, p: Seq<int>) -> bool {
    &&& p.len() >= 1
    &&& forall|k: int| 0 <= k < p.len() ==> 0 <= #[trigger] p[k] < n
    &&& forall|k: int| 0 <= k < p.len() - 1 ==> #[trigger] a[p[k]][p[k + 1]] < INF
}

/// Sum of the edge weights along `p`.
pub open spec fn path_weight(a: Seq<Seq<int>>, p: Seq<int>) -> int
    decreases p.len(),
{
    if p.len() <= 1 {
        0
    } else {
        path_weight(a, p.drop_last()) + a[p[p.len() - 2]][p.last()]
    }
}

/// `d` is the cheapest weight of a path from `i` to `j`, or INF when no
/// path weighs less than INF.
pub open spec fn cheapest(a: Seq<Seq<int>>, n: nat, i: int, j: int, d: int) -> bool {
    &&& 0 <= d <= INF
    &&& d < INF ==> exists|p: Seq<int>| #[trigger] is_path(a, n, p) && p[0] == i && p.last() == j && path_weight(a, p) == d
    &&& forall|p: Seq<int>| #[trigger] is_path(a, n, p) && p[0] == i && p.last() == j ==> d <= path_weight(a, p)
}

/// Every entry of `c` is the cheapest path weight between its modules.
pub open spec fn cheapest_table(a: Seq<Seq<int>>, n: nat, c: Seq<Seq<int>>) -> bool {
    forall|i: int, j: int| 0 <= i < n && 0 <= j < n ==> cheapest(a, n, i, j, #[trigger] c[i][j])
}

/// Some path from `i` to `j` weighs exactly `d`.
pub open spec fn witnessed(a: Seq<Seq<int>>, n: nat, i: int, j: int, d: int) -> bool {
    exists|p: Seq<int>| #[trigger] is_path(a, n, p) && p[0] == i && p.last() == j && path_weight(a, p) == d
}

pub proof fn lemma_weight_nonneg(a: Seq<Seq<int>>, n: nat, p: Seq<int>)
    requires
        is_table(a, n),
        forall|k: int| 0 <= k < p.len() ==> 0 <= #[trigger] p[k] < n,
    ensures
        path_weight(a, p) >= 0,
    decreases p.len(),
{
    if p.len() > 1 {
        lemma_weight_nonneg(a, n, p.drop_last());
        assert(0 <= a[p[p.len() - 2]][p.last()]);
    }
}

/// Joining two paths that meet adds their weights.
pub proof fn lemma_weight_concat(a: Seq<Seq<int>>, p: Seq<int>, q: Seq<int>)
    requires
        p.len() >= 1,
        q.len() >= 1,
        p.last() == q[0],
    ensures
        path_weight(a, p + q.drop_first()) == path_weight(a, p) + path_weight(a, q),
    decreases q.len(),
{
    if q.len() == 1 {
        assert(p + q.drop_first() =~= p);
    } else {
        let q2 = q.drop_last();
        lemma_weight_concat(a, p, q2);
        let r = p + q.drop_first();
        let r2 = p + q2.drop_first();
        assert(r.drop_last() =~= r2);
        assert(r.last() == q.last());
        if q2.len() == 1 {
            assert(r[r.len() - 2] == p.last());
        } else {
            assert(r[r.len() - 2] == q2.last());
        }
        assert(q[q.len() - 2] == q2.last());
    }
}

pub proof fn lemma_path_concat(a: Seq<Seq<int>>, n: nat, p: Seq<int>, q: Seq<int>)
    requires
        is_path(a, n, p),
        is_path(a, n, q),
        p.last() == q[0],
    ensures
        is_path(a, n, p + q.drop_first()),
        (p + q.drop_first())[0] == p[0],
        (p + q.drop_first()).last() == q.last(),
{
    let r = p + q.drop_first();
    assert forall|k: int| 0 <= k < r.len() implies 0 <= #[trigger] r[k] < n by {
        if k < p.len() {
            assert(r[k] == p[k]);
        } else {
            assert(r[k] == q[k - p.len() + 1]);
        }
    }
    assert forall|k: int| 0 <= k < r.len() - 1 implies #[trigger] a[r[k]][r[k + 1]] < INF by {
        if k < p.len() - 1 {
            assert(r[k] == p[k] && r[k + 1] == p[k + 1]);
        } else if k == p.len() - 1 {
            assert(r[k] == q[0] && r[k + 1] == q[1]);
        } else {
            let t = k - p.len() + 1;
            assert(r[k] == q[t] && r[k + 1] == q[t + 1]);
        }
    }
    if q.len() == 1 {
        assert(r =~= p);
    }
}

pub proof fn lemma_path_sub(a: Seq<Seq<int>>, n: nat, p: Seq<int>, x: int, y: int)
    requires
        is_path(a, n, p),
        0 <= x < y <= p.len(),
    ensures
        is_path(a, n, p.subrange(x, y)),
{
    let r = p.subrange(x, y);
    assert forall|k: int| 0 <= k < r.len() implies 0 <= #[trigger] r[k] < n by {
        assert(r[k] == p[x + k]);
    }
    assert forall|k: int| 0 <= k < r.len() - 1 implies #[trigger] a[r[k]][r[k + 1]] < INF by {
        assert(r[k] == p[x + k] && r[k + 1] == p[x + k + 1]);
    }
}

/// A path longer than `n` repeats a module; cutting out the cycle between
/// the repeats leaves a path between the same ends that is no heavier.
pub proof fn lemma_shorten(a: Seq<Seq<int>>, n: nat, p: Seq<int>) -> (q: Seq<int>)
    requires
        is_table(a, n),
        is_path(a, n, p),
    ensures
        is_path(a, n, q),
        q[0] == p[0],
        q.last() == p.last(),
        q.len() <= n,
        path_weight(a, q) <= path_weight(a, p),
    decreases p.len(),
{
    if p.len() <= n {
        p
    } else {
        if p.no_duplicates() {
            p.unique_seq_to_set();
            vstd::set_lib::lemma_int_range(0, n as int);
            assert(p.to_set().subset_of(vstd::set_lib::set_int_range(0, n as int)));
            vstd::set_lib::lemma_len_subset(p.to_set(), vstd::set_lib::set_int_range(0, n as int));
        }
        let (x, y) = choose|x: int, y: int| 0 <= x < p.len() && 0 <= y < p.len() && x != y && p[x] == p[y];
        let (lo, hi) = if x < y { (x, y) } else { (y, x) };
        let head = p.subrange(0, lo + 1);
        let mid = p.subrange(lo, hi + 1);
        let tail = p.subrange(hi, p.len() as int);
        lemma_path_sub(a, n, p, 0, lo + 1);
        lemma_path_sub(a, n, p, lo, hi + 1);
        lemma_path_sub(a, n, p, hi, p.len() as int);
        assert(head.last() == tail[0]);
        let short = head + tail.drop_first();
        lemma_path_concat(a, n, head, tail);
        lemma_weight_concat(a, head, tail);
        let long1 = head + mid.drop_first();
        lemma_weight_concat(a, head, mid);
        lemma_path_concat(a, n, head, mid);
        assert(long1 =~= p.subrange(0, hi + 1));
        assert(long1.last() == tail[0]);
        lemma_weight_concat(a, long1, tail);
        assert(long1 + tail.drop_first() =~= p);
        lemma_weight_nonneg(a, n, mid);
        lemma_shorten(a, n, short)
    }
}

pub proof fn lemma_with_diag_table(a: Seq<Seq<int>>, n: nat)
    requires
        is_table(a, n),
    ensures
        is_table(with_diag(a, n), n),
{
    assert forall|i: int, j: int| 0 <= i < n && 0 <= j < n implies 0 <= #[trigger] with_diag(a, n)[i][j] <= INF by {
    }
}

/// The partial dot product is at most each of its terms.
pub proof fn lemma_dot_le(a: Seq<Seq<int>>, b: Seq<Seq<int>>, i: int, j: int, kk: nat, k: int)
    requires
        0 <= k < kk,
    ensures
        dot(a, b, i, j, kk) <= cap(a[i][k] + b[k][j]),
    decreases kk,
{
    if k < kk - 1 {
        lemma_dot_le(a, b, i, j, (kk - 1) as nat, k);
    }
}

/// A finite partial dot product is one of its terms.
pub proof fn lemma_dot_witness(a: Seq<Seq<int>>, b: Seq<Seq<int>>, i: int, j: int, kk: nat) -> (k: int)
    requires
        dot(a, b, i, j, kk) < INF,
    ensures
        0 <= k < kk,
        dot(a, b, i, j, kk) == a[i][k] + b[k][j],
    decreases kk,
{
    let k = kk - 1;
    if dot(a, b, i, j, (kk - 1) as nat) <= cap(a[i][k] + b[k][j]) {
        lemma_dot_witness(a, b, i, j, (kk - 1) as nat)
    } else {
        k
    }
}

/// Every finite entry of `a` squared `s` times is the weight of a path.
pub proof fn lemma_power_witnessed(a: Seq<Seq<int>>, n: nat, s: nat, i: int, j: int)
    requires
        is_table(a, n),
        0 <= i < n,
        0 <= j < n,
        square_iter(with_diag(a, n), n, s)[i][j] < INF,
    ensures
        witnessed(a, n, i, j, square_iter(with_diag(a, n), n, s)[i][j]),
    decreases s,
{
    let b = with_diag(a, n);
    if s == 0 {
        if i == j {
            let p = seq![i];
            assert(is_path(a, n, p) && p[0] == i && p.last() == j && path_weight(a, p) == 0);
        } else {
            let p = seq![i, j];
            assert(square_iter(b, n, 0) == b);
            assert(b[i][j] == a[i][j]);
            assert(p.drop_last() =~= seq![i]);
            assert(p[0] == i && p[1] == j && p.last() == j);
            assert(path_weight(a, p) == path_weight(a, seq![i]) + a[i][j]);
            assert(is_path(a, n, p));
        }
    } else {
        let prev = square_iter(b, n, (s - 1) as nat);
        lemma_with_diag_table(a, n);
        lemma_square_iter_table(b, n, (s - 1) as nat);
        assert(square_iter(b, n, s) == mat_mul(prev, prev, n));
        let k = lemma_dot_witness(prev, prev, i, j, n);
        assert(0 <= prev[i][k] <= INF && 0 <= prev[k][j] <= INF);
        lemma_power_witnessed(a, n, (s - 1) as nat, i, k);
        lemma_power_witnessed(a, n, (s - 1) as nat, k, j);
        let p1 = choose|p: Seq<int>| #[trigger] is_path(a, n, p) && p[0] == i && p.last() == k && path_weight(a, p) == prev[i][k];
        let p2 = choose|p: Seq<int>| #[trigger] is_path(a, n, p) && p[0] == k && p.last() == j && path_weight(a, p) == prev[k][j];
        lemma_path_concat(a, n, p1, p2);
        lemma_weight_concat(a, p1, p2);
        let p = p1 + p2.drop_first();
        assert(is_path(a, n, p) && p[0] == i && p.last() == j);
    }
}

/// `a` squared `s` times is at most the weight of every path of at most
/// `2^s` edges.
pub proof fn lemma_power_upper(a: Seq<Seq<int>>, n: nat, s: nat, p: Seq<int>)
    requires
        is_table(a, n),
        is_path(a, n, p),
        p.len() - 1 <= vstd::arithmetic::power2::pow2(s),
    ensures
        square_iter(with_diag(a, n), n, s)[p[0]][p.last()] <= path_weight(a, p),
    decreases s,
{
    let b = with_diag(a, n);
    lemma_with_diag_table(a, n);
    lemma_square_iter_table(b, n, s);
    lemma_weight_nonneg(a, n, p);
    if s == 0 {
        vstd::arithmetic::power2::lemma2_to64();
        assert(square_iter(b, n, 0) == b);
        if p.len() == 2 {
            assert(p.drop_last() =~= seq![p[0]]);
            assert(0 <= a[p[0]][p[1]]);
            assert(path_weight(a, p) == path_weight(a, seq![p[0]]) + a[p[0]][p[1]]);
            assert(p.last() == p[1]);
        } else {
            assert(p.len() == 1);
            assert(p.last() == p[0]);
        }
    } else {
        vstd::arithmetic::power2::lemma_pow2_unfold(s);
        let half = vstd::arithmetic::power2::pow2((s - 1) as nat);
        let prev = square_iter(b, n, (s - 1) as nat);
        lemma_square_iter_table(b, n, (s - 1) as nat);
        let m: int = if p.len() - 1 <= half { p.len() - 1 } else { half as int };
        let p1 = p.subrange(0, m + 1);
        let p2 = p.subrange(m, p.len() as int);
        lemma_path_sub(a, n, p, 0, m + 1);
        lemma_path_sub(a, n, p, m, p.len() as int);
        lemma_power_upper(a, n, (s - 1) as nat, p1);
        lemma_power_upper(a, n, (s - 1) as nat, p2);
        lemma_weight_concat(a, p1, p2);
        assert(p1 + p2.drop_first() =~= p);
        let i = p[0];
        let j = p.last();
        let k = p[m];
        assert(p1[0] == i && p1.last() == k && p2[0] == k && p2.last() == j);
        assert(square_iter(b, n, s) == mat_mul(prev, prev, n));
        lemma_dot_le(prev, prev, i, j, n, k);
        lemma_dot_range(prev, prev, n, i, j, n);
        assert(mat_mul(prev, prev, n)[i][j] == dot(prev, prev, i, j, n));
        assert(prev[i][k] <= path_weight(a, p1));
        assert(prev[k][j] <= path_weight(a, p2));
        assert(path_weight(a, p) == path_weight(a, p1) + path_weight(a, p2));
    }
}

/// After `closure_steps`-many squarings (`2^s >= n`), every entry is the
/// cheapest path weight.
pub proof fn lemma_power_cheapest(a: Seq<Seq<int>>, n: nat, s: nat)
    requires
        is_table(a, n),
        vstd::arithmetic::power2::pow2(s) >= n,
    ensures
        cheapest_table(a, n, square_iter(with_diag(a, n), n, s)),
{
    let c = square_iter(with_diag(a, n), n, s);
    lemma_with_diag_table(a, n);
    lemma_square_iter_table(with_diag(a, n), n, s);
    assert forall|i: int, j: int| 0 <= i < n && 0 <= j < n implies cheapest(a, n, i, j, #[trigger] c[i][j]) by {
        if c[i][j] < INF {
            lemma_power_witnessed(a, n, s, i, j);
        }
        assert forall|p: Seq<int>| #[trigger] is_path(a, n, p) && p[0] == i && p.last() == j implies c[i][j] <= path_weight(a, p) by {
            let q = lemma_shorten(a, n, p);
            lemma_power_upper(a, n, s, q);
        }
    }
}

/// Two values that are both the cheapest path weight between the same
/// modules are equal.
pub proof fn lemma_cheapest_unique(a: Seq<Seq<int>>, n: nat, i: int, j: int, d1: int, d2: int)
    requires
        cheapest(a, n, i, j, d1),
        cheapest(a, n, i, j, d2),
    ensures
        d1 == d2,
{
    if d1 < INF {
        let p = choose|p: Seq<int>| #[trigger] is_path(a, n, p) && p[0] == i && p.last() == j && path_weight(a, p) == d1;
        assert(d2 <= d1);
    }
    if d2 < INF {
        let p = choose|p: Seq<int>| #[trigger] is_path(a, n, p) && p[0] == i && p.last() == j && path_weight(a, p) == d2;
        assert(d1 <= d2);
    }
}

/// The single-module path weighs nothing, so the cheapest weight from a
/// module to itself is 0; an edge is a path of its own weight, so no
/// cheapest weight exceeds the direct edge.
proof fn lemma_cheapest_le_edge(a: Seq<Seq<int>>, n: nat, c: Seq<Seq<int>>, i: int, j: int)
    requires
        is_table(a, n),
        cheapest_table(a, n, c),
        0 <= i < n,
        0 <= j < n,
    ensures
        c[i][i] == 0,
        c[i][j] <= a[i][j],
{
    let single = seq![i];
    assert(is_path(a, n, single));
    assert(path_weight(a, single) == 0);
    assert(c[i][i] <= 0);
    if i != j && a[i][j] < INF {
        let e = seq![i, j];
        assert(is_path(a, n, e));
        assert(e.drop_last() =~= single);
        assert(path_weight(a, e) == a[i][j]);
    }
}

/// Cheapest weights satisfy the triangle inequality: going through `k`
/// never beats the cheapest weight from `i` to `j`.
pub proof fn lemma_cheapest_triangle(a: Seq<Seq<int>>, n: nat, c: Seq<Seq<int>>, i: int, k: int, j: int)
    requires
        is_table(a, n),
        cheapest_table(a, n, c),
        0 <= i < n,
        0 <= k < n,
        0 <= j < n,
    ensures
        c[i][j] <= c[i][k] + c[k][j],
{
    assert(cheapest(a, n, i, j, c[i][j]));
    assert(cheapest(a, n, i, k, c[i][k]));
    assert(cheapest(a, n, k, j, c[k][j]));
    if c[i][k] < INF && c[k][j] < INF {
        let p = choose|p: Seq<int>| #[trigger] is_path(a, n, p) && p[0] == i && p.last() == k && path_weight(a, p) == c[i][k];
        let q = choose|q: Seq<int>| #[trigger] is_path(a, n, q) && q[0] == k && q.last() == j && path_weight(a, q) == c[k][j];
        lemma_path_concat(a, n, p, q);
        lemma_weight_concat(a, p, q);
        let r = p + q.drop_first();
        assert(is_path(a, n, r) && r[0] == i && r.last() == j);
    }
}

/// Every path through a cheapest-weight table `c` weighs at least the
/// table's entry between its ends.
proof fn lemma_closed_path_bound(a: Seq<Seq<int>>, n: nat, c: Seq<Seq<int>>, p: Seq<int>)
    requires
        is_table(a, n),
        cheapest_table(a, n, c),
        is_path(c, n, p),
    ensures
        c[p[0]][p.last()] <= path_weight(c, p),
    decreases p.len(),
{
    if p.len() == 1 {
        lemma_cheapest_le_edge(a, n, c, p[0], p[0]);
    } else {
        let q = p.drop_last();
        assert forall|t: int| 0 <= t < q.len() - 1 implies #[trigger] c[q[t]][q[t + 1]] < INF by {
            assert(q[t] == p[t] && q[t + 1] == p[t + 1]);
        }
        assert(is_path(c, n, q));
        lemma_closed_path_bound(a, n, c, q);
        let x = p[p.len() - 2];
        assert(q.last() == x && q[0] == p[0]);
        assert(0 <= x < n);
        lemma_cheapest_triangle(a, n, c, p[0], x, p.last());
    }
}

/// Closing is idempotent: the cheapest-weight table `c` of `a` is its own
/// cheapest-weight table, so a table `cc` of cheapest weights through `c`
/// (what closing `c` again gives) equals `c`.
pub proof fn lemma_cheapest_idempotent(a: Seq<Seq<int>>, n: nat, c: Seq<Seq<int>>, cc: Seq<Seq<int>>)
    requires
        is_table(a, n),
        is_table(c, n),
        is_table(cc, n),
        cheapest_table(a, n, c),
        cheapest_table(c, n, cc),
    ensures
        cheapest_table(c, n, c),
        cc == c,
{
    assert forall|i: int, j: int| 0 <= i < n && 0 <= j < n implies cheapest(c, n, i, j, #[trigger] c[i][j]) by {
        lemma_cheapest_le_edge(a, n, c, i, j);
        if c[i][j] < INF {
            if i == j {
                let single = seq![i];
                assert(is_path(c, n, single) && single[0] == i && single.last() == j && path_weight(c, single) == c[i][j]);
            } else {
                let e = seq![i, j];
                assert(e.drop_last() =~= seq![i]);
                assert(path_weight(c, seq![i]) == 0);
                assert(path_weight(c, e) == c[i][j]);
                assert(is_path(c, n, e));
                assert(e[0] == i && e.last() == j);
            }
        }
        assert forall|p: Seq<int>| #[trigger] is_path(c, n, p) && p[0] == i && p.last() == j implies c[i][j] <= path_weight(c, p) by {
            lemma_closed_path_bound(a, n, c, p);
        }
    }
    assert forall|i: int| 0 <= i < n implies #[trigger] cc[i] =~= c[i] by {
        assert forall|j: int| 0 <= j < n implies cc[i][j] == c[i][j] by {
            assert(cheapest(c, n, i, j, cc[i][j]));
            lemma_cheapest_unique(c, n, i, j, cc[i][j], c[i][j]);
        }
    }
    assert(cc =~= c);
}

/// Under entrywise cheaper edges every path weighs no more.
proof fn lemma_weight_mono(a: Seq<Seq<int>>, b: Seq<Seq<int>>, n: nat, p: Seq<int>)
    requires
        forall|i: int, j: int| 0 <= i < n && 0 <= j < n ==> #[trigger] b[i][j] <= a[i][j],
        forall|k: int| 0 <= k < p.len() ==> 0 <= #[trigger] p[k] < n,
    ensures
        path_weight(b, p) <= path_weight(a, p),
    decreases p.len(),
{
    if p.len() > 1 {
        let q = p.drop_last();
        assert forall|k: int| 0 <= k < q.len() implies 0 <= #[trigger] q[k] < n by {
            assert(q[k] == p[k]);
        }
        lemma_weight_mono(a, b, n, q);
        assert(0 <= p[p.len() - 2] < n && 0 <= p.last() < n);
    }
}

/// Closing is monotone: cheapening or adding edges never raises a cheapest
/// weight, and no cheapest weight exceeds the direct edge.
pub proof fn lemma_cheapest_monotone(a: Seq<Seq<int>>, b: Seq<Seq<int>>, n: nat, ca: Seq<Seq<int>>, cb: Seq<Seq<int>>)
    requires
        is_table(a, n),
        is_table(b, n),
        forall|i: int, j: int| 0 <= i < n && 0 <= j < n ==> #[trigger] b[i][j] <= a[i][j],
        cheapest_table(a, n, ca),
        cheapest_table(b, n, cb),
    ensures
        forall|i: int, j: int| #![trigger cb[i][j]] 0 <= i < n && 0 <= j < n ==> cb[i][j] <= ca[i][j],
        forall|i: int, j: int| #![trigger ca[i][j]] 0 <= i < n && 0 <= j < n ==> ca[i][j] <= a[i][j],
{
    assert forall|i: int, j: int| 0 <= i < n && 0 <= j < n implies cb[i][j] <= ca[i][j] && ca[i][j] <= a[i][j] by {
        lemma_cheapest_le_edge(a, n, ca, i, j);
        assert(cheapest(a, n, i, j, ca[i][j]));
        assert(cheapest(b, n, i, j, cb[i][j]));
        if ca[i][j] < INF {
            let p = choose|p: Seq<int>| #[trigger] is_path(a, n, p) && p[0] == i && p.last() == j && path_weight(a, p) == ca[i][j];
            assert forall|t: int| 0 <= t < p.len() - 1 implies #[trigger] b[p[t]][p[t + 1]] < INF by {
                assert(0 <= p[t] < n && 0 <= p[t + 1] < n);
            }
            assert(is_path(b, n, p));
            lemma_weight_mono(a, b, n, p);
        }
    }
}

pub proof fn lemma_steps_cover(n: nat)
    ensures
        vstd::arithmetic::power2::pow2(bit_len(((if n > 2 { n } else { 2 }) - 1) as nat)) >= n,
{
    lemma_bit_len(((if n > 2 { n } else { 2 }) - 1) as nat);
}

} // verus!
