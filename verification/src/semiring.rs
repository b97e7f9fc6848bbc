//! Mathematical model of the capped (min, +) semiring on `n x n` tables.
//!
//! Values live in `[0, INF]`; `INF` stands for "no path" and absorbs every
//! product, so `cap(a + b)` is the tropical product and `min` the sum.
use vstd::prelude::*;
use crate::tropical::INF;

verus! {

pub open spec fn tmin(a: int, b: int) -> int {
    if a <= b { a } else { b }
}

/// Tropical product of two values: their sum, absorbed into INF at or above INF.
pub open spec fn cap(x: int) -> int {
    if x < INF { x } else { INF as int }
}

/// `min_{k < kk} cap(a[i][k] + b[k][j])`: the partial tropical dot product.
pub open spec fn dot(a: Seq<Seq<int>>, b: Seq<Seq<int>>, i: int, j: int, kk: nat) -> int
    decreases kk,
{
    if kk == 0 {
        INF as int
    } else {
        tmin(dot(a, b, i, j, (kk - 1) as nat), cap(a[i][kk - 1] + b[kk - 1][j]))
    }
}

/// Tropical matrix product of two `n x n` tables.
pub open spec fn mat_mul(a: Seq<Seq<int>>, b: Seq<Seq<int>>, n: nat) -> Seq<Seq<int>> {
    Seq::new(n, |i: int| Seq::new(n, |j: int| dot(a, b, i, j, n)))
}

pub open spec fn square(a: Seq<Seq<int>>, n: nat) -> Seq<Seq<int>> {
    mat_mul(a, a, n)
}

/// `a` squared `s` times: the tropical power `a^(2^s)`.
pub open spec fn square_iter(a: Seq<Seq<int>>, n: nat, s: nat) -> Seq<Seq<int>>
    decreases s,
{
    if s == 0 {
        a
    } else {
        square(square_iter(a, n, (s - 1) as nat), n)
    }
}

/// `a` with every diagonal entry set to 0 (the multiplicative identity).
pub open spec fn with_diag(a: Seq<Seq<int>>, n: nat) -> Seq<Seq<int>> {
    Seq::new(n, |i: int| Seq::new(n, |j: int| if i == j { 0 } else { a[i][j] }))
}

/// An `n x n` table whose entries all lie in `[0, INF]`.
pub open spec fn is_table(a: Seq<Seq<int>>, n: nat) -> bool {
    &&& a.len() == n
    &&& forall|i: int| 0 <= i < n ==> (#[trigger] a[i]).len() == n
    &&& forall|i: int, j: int| 0 <= i < n && 0 <= j < n ==> 0 <= #[trigger] a[i][j] <= INF
}

pub proof fn lemma_dot_range(a: Seq<Seq<int>>, b: Seq<Seq<int>>, n: nat, i: int, j: int, kk: nat)
    requires
        is_table(a, n),
        is_table(b, n),
        0 <= i < n,
        0 <= j < n,
        kk <= n,
    ensures
        0 <= dot(a, b, i, j, kk) <= INF,
    decreases kk,
{
    if kk > 0 {
        lemma_dot_range(a, b, n, i, j, (kk - 1) as nat);
        assert(0 <= a[i][kk - 1]);
        assert(0 <= b[kk - 1][j]);
    }
}

pub proof fn lemma_mat_mul_table(a: Seq<Seq<int>>, b: Seq<Seq<int>>, n: nat)
    requires
        is_table(a, n),
        is_table(b, n),
    ensures
        is_table(mat_mul(a, b, n), n),
{
    assert forall|i: int, j: int| 0 <= i < n && 0 <= j < n implies 0 <= #[trigger] mat_mul(a, b, n)[i][j]
        <= INF by {
        lemma_dot_range(a, b, n, i, j, n);
    }
}

pub proof fn lemma_square_iter_table(a: Seq<Seq<int>>, n: nat, s: nat)
    requires
        is_table(a, n),
    ensures
        is_table(square_iter(a, n, s), n),
    decreases s,
{
    if s > 0 {
        lemma_square_iter_table(a, n, (s - 1) as nat);
        lemma_mat_mul_table(square_iter(a, n, (s - 1) as nat), square_iter(a, n, (s - 1) as nat), n);
    }
}

/// Once squaring leaves a table unchanged, further squarings do too.
pub proof fn lemma_square_iter_fixpoint(a: Seq<Seq<int>>, n: nat, s: nat, t: nat)
    requires
        s <= t,
        square(square_iter(a, n, s), n) == square_iter(a, n, s),
    ensures
        square_iter(a, n, t) == square_iter(a, n, s),
    decreases t - s,
{
    if t > s {
        lemma_square_iter_fixpoint(a, n, s, (t - 1) as nat);
    }
}

/// The semiring identities on values in `[0, INF]`: INF is neutral for the
/// tropical sum (min) and absorbs the tropical product; 0 is neutral for the
/// product. INF is small enough that adding two such values never
/// overflows a `u32`.
pub proof fn lemma_semiring_identities(a: int)
    requires
        0 <= a <= INF,
    ensures
        a + INF <= u32::MAX,
        tmin(a, INF as int) == a,
        tmin(INF as int, a) == a,
        cap(0 + a) == a,
        cap(a + 0) == a,
        cap(INF + a) == INF,
        cap(a + INF) == INF,
{
}

/// With a 0 diagonal, squaring never raises an entry: the product of a
/// table with itself subsumes the table (paths of at most two edges include
/// those of at most one).
pub proof fn lemma_diag_square_subsumes(a: Seq<Seq<int>>, n: nat)
    requires
        is_table(a, n),
    ensures
        forall|i: int, j: int| 0 <= i < n && 0 <= j < n ==> #[trigger] square(with_diag(a, n), n)[i][j] <= with_diag(a, n)[i][j],
{
    let d = with_diag(a, n);
    assert forall|i: int, j: int| 0 <= i < n && 0 <= j < n implies #[trigger] square(d, n)[i][j] <= d[i][j] by {
        crate::paths::lemma_dot_le(d, d, i, j, n, j);
        assert(d[j][j] == 0);
        assert(0 <= d[i][j] <= INF);
    }
}

/// The first number of squarings `s` in `[from, limit)` after which one more
/// squaring changes nothing, or `limit` if there is none.
pub open spec fn stable_from(a: Seq<Seq<int>>, n: nat, from: nat, limit: nat) -> nat
    decreases limit - from,
{
    if from >= limit {
        limit
    } else if square(square_iter(a, n, from), n) == square_iter(a, n, from) {
        from
    } else {
        stable_from(a, n, from + 1, limit)
    }
}

/// Number of binary digits of `m`.
pub open spec fn bit_len(m: nat) -> nat
    decreases m,
{
    if m == 0 {
        0
    } else {
        1 + bit_len(m / 2)
    }
}

pub proof fn lemma_bit_len(m: nat)
    ensures
        vstd::arithmetic::power2::pow2(bit_len(m)) > m,
        m >= 1 ==> vstd::arithmetic::power2::pow2((bit_len(m) - 1) as nat) <= m,
        m >= 1 ==> bit_len(m) >= 1,
        bit_len(m) <= m,
    decreases m,
{
    if m == 0 {
        vstd::arithmetic::power2::lemma2_to64();
    } else {
        lemma_bit_len(m / 2);
        vstd::arithmetic::power2::lemma_pow2_unfold(bit_len(m));
        if m / 2 >= 1 {
            vstd::arithmetic::power2::lemma_pow2_unfold(bit_len(m / 2));
        } else {
            vstd::arithmetic::power2::lemma2_to64();
        }
    }
}

/// Entry `(i, j)` of an `n x n` table stored row-major in a flat sequence.
pub open spec fn flat_table(d: Seq<u32>, n: nat) -> Seq<Seq<int>> {
    Seq::new(n, |i: int| Seq::new(n, |j: int| d[i * n + j] as int))
}

pub proof fn lemma_flat_index_bound(n: int, i: int, j: int)
    requires
        0 <= i < n,
        0 <= j < n,
    ensures
        0 <= i * n + j < n * n,
        0 <= i * n,
        i * n + n <= n * n,
{
    assert(0 <= i * n + j < n * n && 0 <= i * n && i * n + n <= n * n) by (nonlinear_arith)
        requires
            0 <= i < n,
            0 <= j < n,
    ;
}

pub proof fn lemma_flat_index_unique(n: int, i: int, j: int, i2: int, j2: int)
    requires
        0 <= i < n,
        0 <= j < n,
        0 <= i2 < n,
        0 <= j2 < n,
        i * n + j == i2 * n + j2,
    ensures
        i == i2,
        j == j2,
{
    if i < i2 {
        assert(i * n + n <= i2 * n) by (nonlinear_arith)
            requires
                i < i2,
                0 <= n,
        ;
    } else if i > i2 {
        assert(i2 * n + n <= i * n) by (nonlinear_arith)
            requires
                i2 < i,
                0 <= n,
        ;
    }
}

} // verus!
