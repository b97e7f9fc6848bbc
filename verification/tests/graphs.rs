use tropical_bundler::baseline::{dfs_reachability, dijkstra};
use tropical_bundler::graphgen::{generate_scale_project, generate_scale_project_within, Rng};
use tropical_bundler::jsgen::{plan_js_project, plan_js_project_within};
use tropical_bundler::tropical::{TropicalSparseMatrix, INF};

#[test]
fn rng_is_xorshift64_star() {
    let mut r = Rng::new(42);
    assert_eq!(r.next_u64(), 6255019084209693600);
    assert_eq!(r.next_u64(), 14430073426741505498);
}

#[test]
fn rng_zero_seed_acts_as_one() {
    let mut a = Rng::new(0);
    let mut b = Rng::new(1);
    assert_eq!(a.next_u64(), b.next_u64());
    let mut c = Rng::new(0);
    assert_eq!(c.below(100), 65);
}

#[test]
fn generated_graph_is_reproducible() {
    let a = generate_scale_project(50, 150, 3);
    let b = generate_scale_project(50, 150, 3);
    assert_eq!(a, b);
}

#[test]
fn generated_graph_has_exact_import_count_and_weights() {
    let n = 80;
    let g = generate_scale_project(n, 300, 9);
    let mut imports = 0;
    for i in 0..n {
        assert_eq!(g.get(i, i), 0);
        for &(j, w) in &g.rows[i] {
            if j as usize != i {
                imports += 1;
                assert!((500..45_000).contains(&w));
            }
        }
        if i + 1 < n {
            assert!(g.get(i, i + 1) < INF);
        }
    }
    assert_eq!(imports, 300);
}

#[test]
fn short_budget_truncates_backbone() {
    let g = generate_scale_project(10, 4, 1);
    assert!(g.get(3, 4) < INF);
    assert_eq!(g.get(4, 5), INF);
    assert_eq!(g.nnz(), 10 + 4);
}

#[test]
fn dfs_counts_reached_modules_and_discovery_bytes() {
    let mut g = TropicalSparseMatrix::new(5);
    g.set(0, 1, 10);
    g.set(1, 2, 20);
    g.set(0, 2, 7);
    g.set(3, 4, 1);
    g.ensure_diagonal();
    let (reached, bytes) = dfs_reachability(&g, 0);
    assert_eq!(reached, 3);
    // 1 and 2 are discovered from 0 directly.
    assert_eq!(bytes, 17);
    let (reached3, bytes3) = dfs_reachability(&g, 3);
    assert_eq!((reached3, bytes3), (2, 1));
}

#[test]
fn dfs_counts_the_edge_that_first_reaches_a_module() {
    // From 0 both 1 and 2 are flagged at once (0 -> 2 weighs 20); 1 -> 2
    // (5 bytes) is met later and does not count.
    let mut g = TropicalSparseMatrix::new(4);
    g.set(0, 1, 10);
    g.set(0, 2, 20);
    g.set(1, 2, 5);
    g.set(2, 3, 7);
    assert_eq!(dfs_reachability(&g, 0), (4, 37));
    assert_eq!(dfs_reachability(&g, 1), (3, 12));
}

#[test]
fn dijkstra_prefers_cheaper_multi_hop_path() {
    let mut g = TropicalSparseMatrix::new(4);
    g.set(0, 3, 100);
    g.set(0, 1, 5);
    g.set(1, 2, 5);
    g.set(2, 3, 5);
    let d = dijkstra(&g, 0);
    assert_eq!(d, vec![0, 5, 10, 15]);
    let back = dijkstra(&g, 3);
    assert_eq!(back, vec![INF, INF, INF, 0]);
}

#[test]
fn js_layout_matches_requested_shape() {
    let (sizes, imports) = plan_js_project(30, 90, 42);
    assert_eq!(sizes.len(), 30);
    assert!(sizes.iter().all(|&s| (500..45_000).contains(&s)));
    let total: usize = imports.iter().map(|r| r.len()).sum();
    assert_eq!(total, 90);
    for (i, row) in imports.iter().enumerate() {
        assert!(!row.contains(&i));
        let mut sorted = row.clone();
        sorted.sort_unstable();
        sorted.dedup();
        assert_eq!(sorted.len(), row.len());
        if i + 1 < 30 {
            assert!(row.contains(&(i + 1)));
        }
    }
    let again = plan_js_project(30, 90, 42);
    assert_eq!(again, (sizes, imports));
}

#[test]
fn js_layout_mirrors_the_scale_graph() {
    for &(n, e, seed) in &[(3usize, 3usize, 1u64), (3, 3, 42), (30, 90, 42), (12, 40, 7)] {
        let g = generate_scale_project(n, e, seed);
        let (_, imports) = plan_js_project(n, e, seed);
        for i in 0..n {
            let expected: Vec<usize> = (0..n).filter(|&j| j != i && g.get(i, j) < INF).collect();
            assert_eq!(imports[i], expected, "module {i} of ({n}, {e}, {seed})");
        }
    }
    // Three modules, three imports, seed 1: the graph has 1 -> 0.
    let (_, imports) = plan_js_project(3, 3, 1);
    assert!(generate_scale_project(3, 3, 1).get(1, 0) < INF);
    assert!(imports[1].contains(&0));
}

#[test]
fn a_draw_budget_bounds_generation() {
    // 4 modules and 8 imports: 3 come from the backbone, 5 need random rounds.
    assert!(generate_scale_project_within(4, 8, 7, 0).is_none());
    assert!(generate_scale_project_within(4, 8, 7, 3).is_none());
    let g = generate_scale_project_within(4, 8, 7, 100_000).expect("enough rounds");
    assert_eq!(g, generate_scale_project(4, 8, 7));
    // The backbone alone needs no random round.
    assert_eq!(generate_scale_project_within(5, 4, 3, 0), Some(generate_scale_project(5, 4, 3)));
}

#[test]
fn a_draw_budget_bounds_the_js_layout() {
    assert!(plan_js_project_within(4, 8, 7, 0).is_none());
    let within = plan_js_project_within(4, 8, 7, 100_000).expect("enough rounds");
    assert_eq!(within, plan_js_project(4, 8, 7));
}

#[test]
fn generation_is_deterministic() {
    let a = generate_scale_project(30, 80, 99);
    let b = generate_scale_project(30, 80, 99);
    assert_eq!(a, b);
    assert_ne!(a, generate_scale_project(30, 80, 100));
}

#[test]
fn entry_counts_of_new_and_generated_matrices() {
    assert_eq!(TropicalSparseMatrix::new(70000).nnz(), 0);
    let g = generate_scale_project(300, 900, 11);
    assert_eq!(g.nnz(), 300 + 900);
}
