use tropical_bundler::baseline::{compare_with_oracle, dijkstra, dijkstra_all_pairs};
use tropical_bundler::graphgen::generate_scale_project;
use tropical_bundler::tropical::{TropicalSparseMatrix, INF};

/// Brute-force Floyd-Warshall as an independent oracle.
fn floyd_warshall(m: &TropicalSparseMatrix) -> Vec<u32> {
    let n = m.size;
    let mut d = m.to_dense();
    for i in 0..n {
        d[i * n + i] = 0;
    }
    for k in 0..n {
        for i in 0..n {
            for j in 0..n {
                let cand = d[i * n + k].saturating_add(d[k * n + j]);
                if cand < d[i * n + j] {
                    d[i * n + j] = cand;
                }
            }
        }
    }
    d
}

#[test]
fn semiring_identities() {
    // e = 0 is neutral for (x), INF is neutral (absorbed) for min.
    let mut a = TropicalSparseMatrix::new(3);
    a.set(0, 1, 7);
    a.ensure_diagonal();
    let prod = a.multiply(&a, 1);
    assert_eq!(prod.get(0, 1), 7); // 0 (x) 7 = 7 via diagonal identity
    assert_eq!(prod.get(2, 0), INF); // absent edge stays absent
}

#[test]
fn closure_matches_floyd_warshall() {
    let g = generate_scale_project(120, 500, 7);
    let oracle = floyd_warshall(&g);
    let (closed, _) = g.closure(2);
    for i in 0..120 {
        for j in 0..120 {
            let o = oracle[i * 120 + j].min(INF);
            assert_eq!(closed.get(i, j), o, "cell [{i}][{j}]");
        }
    }
}

#[test]
fn multi_hop_min_beats_direct_edge() {
    // Direct edge 0->2 costs 100; path 0->1->2 costs 5+5=10. min wins.
    let mut a = TropicalSparseMatrix::new(3);
    a.set(0, 2, 100);
    a.set(0, 1, 5);
    a.set(1, 2, 5);
    let (c, _) = a.closure(1);
    assert_eq!(c.get(0, 2), 10);
}

#[test]
fn set_keeps_the_lighter_weight() {
    let mut a = TropicalSparseMatrix::new(2);
    a.set(0, 1, 9);
    a.set(0, 1, 12);
    assert_eq!(a.get(0, 1), 9);
    a.set(0, 1, 4);
    assert_eq!(a.get(0, 1), 4);
    a.set(1, 0, INF);
    assert_eq!(a.get(1, 0), INF);
    assert_eq!(a.nnz(), 1);
}

#[test]
fn rows_stay_sorted_by_column() {
    let mut a = TropicalSparseMatrix::new(5);
    a.set(0, 4, 1);
    a.set(0, 1, 2);
    a.set(0, 3, 3);
    a.set(0, 0, 4);
    let cols: Vec<u32> = a.rows[0].iter().map(|e| e.0).collect();
    assert_eq!(cols, vec![0, 1, 3, 4]);
}

#[test]
fn dense_round_trip() {
    let mut a = TropicalSparseMatrix::new(3);
    a.set(0, 2, 8);
    a.set(2, 1, 3);
    let d = a.to_dense();
    assert_eq!(d, vec![INF, INF, 8, INF, INF, INF, INF, 3, INF]);
    let b = TropicalSparseMatrix::from_dense(&d, 3);
    assert_eq!(b, a);
}

#[test]
fn multiply_chooses_cheapest_middle() {
    let mut a = TropicalSparseMatrix::new(3);
    a.set(0, 1, 2);
    a.set(1, 2, 3);
    a.set(0, 2, 20);
    a.ensure_diagonal();
    let p = a.multiply(&a, 2);
    assert_eq!(p.get(0, 2), 5);
    assert_eq!(p.get(1, 1), 0);
    assert_eq!(p.get(2, 0), INF);
}

#[test]
fn closure_telemetry_counts_squarings() {
    // A chain 0 -> 1 -> 2 -> 3 needs two squarings, the most a 4 x 4
    // closure is allowed.
    let mut a = TropicalSparseMatrix::new(4);
    a.set(0, 1, 1);
    a.set(1, 2, 1);
    a.set(2, 3, 1);
    let (c, tele) = a.closure(1);
    assert_eq!(c.get(0, 3), 3);
    assert_eq!(c.get(3, 0), INF);
    assert_eq!(c.get(2, 2), 0);
    assert_eq!(tele.squarings, 2);
    assert_eq!(tele.dense_switch_at, Some(1));
}

#[test]
fn closure_agrees_with_dijkstra_rows() {
    let g = generate_scale_project(60, 200, 11);
    let (closed, _) = g.closure(3);
    for s in 0..60 {
        let d = dijkstra(&g, s);
        for v in 0..60 {
            assert_eq!(closed.get(s, v), d[v], "row {s} col {v}");
        }
    }
}

#[test]
fn benchmark_comparison_finds_no_mismatch() {
    let g = generate_scale_project(40, 120, 5);
    let (closed, _) = g.closure(2);
    let oracle = dijkstra_all_pairs(&g, 3);
    let (checked, mismatches) = compare_with_oracle(&oracle, &closed);
    assert_eq!(mismatches, 0);
    assert!(checked >= 40);
}

#[test]
fn closure_switches_to_dense_once_fifteen_percent_is_finite() {
    // A 20-module chain: 39 of 400 entries finite, then 57 after one
    // squaring, then 90 (at least 60 needed) at the third step.
    let mut chain = TropicalSparseMatrix::new(20);
    for i in 0..19 {
        chain.set(i, i + 1, 1);
    }
    assert_eq!(chain.nnz(), 19);
    let (c, tele) = chain.closure(2);
    assert_eq!(tele.dense_switch_at, Some(3));
    assert_eq!(c.get(0, 19), 19);
    assert_eq!(c.nnz(), 210);

    // Two modules with one edge: 3 of 4 entries finite from the start.
    let mut small = TropicalSparseMatrix::new(2);
    small.set(0, 1, 5);
    let (_, tele) = small.closure(1);
    assert_eq!(tele.dense_switch_at, Some(1));

    // Without any edge nothing ever gets dense enough past the diagonal.
    let empty = TropicalSparseMatrix::new(8);
    let (c, tele) = empty.closure(1);
    assert_eq!(tele.dense_switch_at, None);
    assert_eq!(tele.squarings, 0);
    assert_eq!(c.nnz(), 8);
}

#[test]
fn closure_fits_checks_size() {
    assert!(!TropicalSparseMatrix::new(0).closure_fits());
    let mut m = TropicalSparseMatrix::new(4);
    m.set(0, 1, 600_000_000);
    assert!(m.closure_fits());
}

#[test]
fn closure_handles_heavy_edges() {
    // One heavy edge: the cheapest path is the edge itself.
    let mut m = TropicalSparseMatrix::new(2);
    m.set(0, 1, 600_000_000);
    let (c, _) = m.closure(1);
    assert_eq!(c.get(0, 1), 600_000_000);
    assert_eq!(c.get(1, 0), INF);
    // Two heavy edges in a row: the two-edge path reaches INF and stays absent.
    let mut h = TropicalSparseMatrix::new(3);
    h.set(0, 1, 600_000_000);
    h.set(1, 2, 600_000_000);
    let (c, _) = h.closure(1);
    assert_eq!(c.get(0, 1), 600_000_000);
    assert_eq!(c.get(0, 2), INF);
    assert_eq!(c.nnz(), 5);
}

#[test]
fn set_keeps_the_cheapest_weight_in_any_order() {
    let mut a = TropicalSparseMatrix::new(3);
    let mut b = TropicalSparseMatrix::new(3);
    assert_eq!(a.get(0, 2), INF);
    a.set(0, 2, 70);
    a.set(0, 2, 40);
    a.set(1, 0, 5);
    b.set(1, 0, 5);
    b.set(0, 2, 40);
    b.set(0, 2, 70);
    assert_eq!(a, b);
    assert_eq!(a.get(0, 2), 40);
    let before = a.clone();
    a.set(0, 2, 40);
    assert_eq!(a, before);
}

#[test]
fn closing_a_closure_changes_nothing() {
    let g = generate_scale_project(40, 120, 5);
    let (c, _) = g.closure(1);
    let (cc, _) = c.closure(2);
    assert_eq!(cc, c);
    let n = c.size;
    for i in 0..n {
        for j in 0..n {
            for k in 0..n {
                let via = c.get(i, k) as u64 + c.get(k, j) as u64;
                assert!((c.get(i, j) as u64) <= via);
            }
        }
    }
}

#[test]
fn cheaper_edges_never_raise_a_closure() {
    let mut a = TropicalSparseMatrix::new(4);
    a.set(0, 1, 100);
    a.set(1, 2, 100);
    a.set(2, 3, 100);
    let mut b = a.clone();
    b.set(0, 2, 50);
    b.set(1, 2, 10);
    let (ca, _) = a.closure(1);
    let (cb, _) = b.closure(1);
    for i in 0..4 {
        for j in 0..4 {
            assert!(cb.get(i, j) <= ca.get(i, j));
            assert!(ca.get(i, j) <= a.get(i, j));
        }
    }
    assert_eq!(ca.get(0, 3), 300);
    assert_eq!(cb.get(0, 3), 150);
}
