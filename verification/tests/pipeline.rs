use std::collections::{HashMap, HashSet};
use tropical_bundler::bundle::{module_mode, ModuleMode, direct_imports, display_path, dynamic_targets, plan_bundle, rel_display, settle_async, topo_sort};
use tropical_bundler::project::{module_matrix, parse_imports, ImportRef, ModuleInfo, RawImport};
use tropical_bundler::scan::ProjectScan;
use tropical_bundler::resolve::{first_found, entry_candidates, normalize_path, resolve_candidates, skipped_dir, source_file_name};
use tropical_bundler::splitter::{async_by_cost, classify_entry, group_async_chunks, resolve_boundaries};
use tropical_bundler::transform::transform_module;
use tropical_bundler::tropical::{TropicalSparseMatrix, INF};

fn imp(spec: &str, target: Option<usize>, dynamic: bool) -> ImportRef {
    ImportRef { specifier: spec.to_string(), target, dynamic }
}

fn module(id: usize, size: u32, imports: Vec<ImportRef>) -> ModuleInfo {
    ModuleInfo { id, path: format!("/p/m{id}.js"), size, imports }
}

#[test]
fn scanner_finds_static_require_and_dynamic_imports() {
    let src = "import a from './a.js';\nconst b = require(\"./b\"); // trailing\nexport { c } from '../c';\nconst l = () => import( './lazy.js');\n/* import x from './hidden.js' */\nimport './a.js';\n";
    let found: Vec<(String, bool)> = parse_imports(src).into_iter().map(|r| (r.specifier, r.dynamic)).collect();
    assert_eq!(
        found,
        vec![
            ("./a.js".to_string(), false),
            ("./b".to_string(), false),
            ("../c".to_string(), false),
            ("./lazy.js".to_string(), true),
        ]
    );
}

#[test]
fn scanner_takes_the_last_quoted_string() {
    let found = parse_imports("import { x } from \"it's\" ; // 'y'\nimport 'z\\'q';");
    let specs: Vec<String> = found.into_iter().map(|r| r.specifier).collect();
    assert_eq!(specs, vec!["it's".to_string(), "q".to_string()]);
}

#[test]
fn module_matrix_weights_edges_by_imported_size() {
    let ms = vec![
        module(0, 100, vec![imp("./b", Some(1), false), imp("react", None, false), imp("./self", Some(0), false)]),
        module(1, 250, vec![imp("./c", Some(2), true)]),
        module(2, 40, vec![]),
    ];
    let (m, total) = module_matrix(&ms);
    assert_eq!(total, 390);
    assert_eq!(m.get(0, 1), 250);
    assert_eq!(m.get(1, 2), 40);
    assert_eq!(m.get(0, 0), 0);
    assert_eq!(m.get(2, 0), INF);
}

fn vars() -> HashMap<usize, String> {
    let mut v = HashMap::new();
    v.insert(1, "1".to_string());
    v.insert(2, "2".to_string());
    v
}

#[test]
fn transform_rewrites_imports_and_exports() {
    let m = module(0, 10, vec![imp("./b.js", Some(1), false), imp("./lazy.js", Some(2), true)]);
    let src = "import { x, y } from './b.js';\nimport * as L from './lazy.js';\nimport React from 'react';\nimport type { T } from './t';\nexport default foo;\nexport function f(a) {\r\nexport const k = 5;\nexport class C extends D {\nlet z = 1;";
    let out = transform_module(src, &m, &vars(), &Vec::new());
    let expected = "const { x, y } = await __req__(1);\n\
const L = await __import__(2);\n\
const React = await __external__(\"react\").default !== undefined ? await __external__(\"react\").default : await __external__(\"react\");\n\
exports.default = foo;\n\
exports.f = function f(a) {\n\
exports.k = 5;\n\
exports.C = class C extends D {\n\
let z = 1;\n";
    assert_eq!(out, expected);
}

#[test]
fn transform_keeps_unresolvable_lines() {
    let m = module(0, 10, vec![]);
    let out = transform_module("import x from './missing.js';\nexport from './y';\nexport const = 3;\n", &m, &vars(), &Vec::new());
    assert_eq!(out, "import x from './missing.js';\nexport from './y';\nexport const = 3;\n");
}

#[test]
fn transform_side_effect_and_let_without_value() {
    let m = module(0, 10, vec![imp("./b.js", Some(1), false)]);
    let out = transform_module("import './b.js';\nexport let q;", &m, &vars(), &Vec::new());
    assert_eq!(out, "await __req__(1);\nexports.q; = undefined;\n");
}

#[test]
fn normalize_collapses_dots() {
    assert_eq!(normalize_path("/p/src/./a/../b.js"), "/p/src/b.js");
    assert_eq!(normalize_path("a//b/"), "a/b");
    assert_eq!(normalize_path("/../x"), "/x");
    assert_eq!(normalize_path("../x"), "x");
}

#[test]
fn candidates_follow_resolution_order() {
    let c = resolve_candidates("/root", "/root/src/index.js", "./a").unwrap();
    assert_eq!(c.len(), 25);
    assert_eq!(c[0], ("/root/src/a".to_string(), true));
    assert_eq!(c[1], ("/root/src/a.ts".to_string(), false));
    assert_eq!(c[2], ("/root/src/a.ts".to_string(), false));
    assert_eq!(c[9], ("/root/src/a.js".to_string(), false));
    assert_eq!(c[17], ("/root/src/a/index.ts".to_string(), false));
    assert_eq!(c[24], ("/root/src/a/index.cjs".to_string(), false));
    let d = resolve_candidates("/root", "/root/src/index.js", "../lib/x.js").unwrap();
    assert_eq!(d[0].0, "/root/lib/x.js");
    assert_eq!(d[1].0, "/root/lib/x.ts");
    assert_eq!(d[2].0, "/root/lib/x.js.ts");
    let r = resolve_candidates("/root", "/root/src/index.js", "//shared/u").unwrap();
    assert_eq!(r[0].0, "/root/shared/u");
    assert!(resolve_candidates("/root", "/root/src/index.js", "react").is_none());
}

#[test]
fn topo_sort_puts_dependencies_first() {
    // 0 imports 1, 1 imports 2; 3 and 4 import each other.
    let imports = vec![vec![1], vec![2], vec![], vec![4], vec![3]];
    let order = topo_sort(&vec![0, 1, 2, 3, 4], &imports);
    assert_eq!(order, vec![2, 1, 0, 3, 4]);
}

#[test]
fn settling_promotes_importers_of_async_modules() {
    let ms = vec![
        module(0, 1, vec![imp("./a", Some(1), false)]),
        module(1, 1, vec![imp("./b", Some(2), false)]),
        module(2, 1, vec![]),
        module(3, 1, vec![imp("./lazy", Some(4), true)]),
        module(4, 1, vec![]),
    ];
    let sync: HashSet<usize> = [0, 1, 3, 4].into_iter().collect();
    let async_cut: HashSet<usize> = [2].into_iter().collect();
    let (s, a) = settle_async(&ms, sync, async_cut);
    // 4 is imported dynamically: async, yet nothing removes it from the sync set;
    // 3 reaches it only through import(), so 3 stays synchronous.
    let want_sync: HashSet<usize> = [3, 4].into_iter().collect();
    assert_eq!(s, want_sync);
    let expected: HashSet<usize> = [0, 1, 2, 4].into_iter().collect();
    assert_eq!(a, expected);
    assert_eq!(dynamic_targets(&ms), vec![4]);
    assert_eq!(direct_imports(&ms), vec![vec![1], vec![2], vec![], vec![4], vec![]]);
}

#[test]
fn bundle_plan_orders_and_maps_chunks() {
    let ms = vec![
        module(0, 1, vec![imp("./a", Some(1), false), imp("./lazy", Some(2), true)]),
        module(1, 1, vec![]),
        module(2, 1, vec![imp("./c", Some(3), false)]),
        module(3, 1, vec![]),
    ];
    let sync: HashSet<usize> = [0, 1].into_iter().collect();
    let async_cut: HashSet<usize> = [2, 3].into_iter().collect();
    let plan = plan_bundle(&ms, sync, async_cut);
    // 0 reaches the async module 2 only through import(): it stays in the main chunk.
    let want_sync: HashSet<usize> = [0, 1].into_iter().collect();
    assert_eq!(plan.sync, want_sync);
    assert_eq!(plan.main_order, vec![1, 0]);
    let mut all: Vec<usize> = plan.chunks.iter().flatten().copied().collect();
    all.sort_unstable();
    assert_eq!(all, vec![2, 3]);
    for (c, chunk) in plan.chunks.iter().enumerate() {
        for m in chunk {
            assert_eq!(plan.module_to_chunk[m], c);
        }
    }
    let chunk_of_2 = plan.module_to_chunk[&2];
    let pos = |m: usize| plan.chunks[chunk_of_2].iter().position(|&x| x == m);
    if let (Some(p2), Some(p3)) = (pos(2), pos(3)) {
        assert!(p3 < p2);
    }
}

#[test]
fn classify_entry_splits_by_budget() {
    let mut g = TropicalSparseMatrix::new(4);
    g.set(0, 1, 100);
    g.set(1, 2, 900);
    g.set(0, 3, 50);
    let (c, _) = g.closure(1);
    let direct = vec![vec![1, 3], vec![2], vec![], vec![]];
    let class = classify_entry(&c, 0, 500, &[], &direct);
    // 1 imports the over-budget module 2, and 0 imports 1: both promoted.
    let want_sync: HashSet<usize> = [3].into_iter().collect();
    let want_async: HashSet<usize> = [0, 1, 2].into_iter().collect();
    assert_eq!(class.async_cut, want_async);
    assert_eq!(class.sync, want_sync);
    assert_eq!(class.sync_bytes, 150);
    let plans = resolve_boundaries(&c, &[0], 500);
    assert_eq!(plans[0].sync_modules, 3);
    assert_eq!(plans[0].sync_bytes, 150);
    assert_eq!(plans[0].async_modules, 1);
    assert_eq!(plans[0].unreachable, 0);
}

#[test]
fn async_modules_group_into_chunks() {
    let a: HashSet<usize> = [1, 2, 3].into_iter().collect();
    let imports = vec![vec![], vec![2], vec![], vec![]];
    let chunks = group_async_chunks(&a, &imports);
    // 1 and 3 are imported by no async module: they root the chunks, and 1 owns 2.
    assert_eq!(chunks, vec![vec![1, 2], vec![3]]);
}

fn raw(spec: &str, dynamic: bool) -> RawImport {
    RawImport { specifier: spec.to_string(), dynamic }
}

#[test]
fn scan_visits_queued_files_and_wires_targets() {
    let mut scan = ProjectScan::start("/p/a.js".to_string());
    assert_eq!(scan.next_path().as_deref(), Some("/p/a.js"));
    scan.add_module(
        100,
        vec![raw("./b.js", false), raw("lodash", false), raw("./c.js", true)],
        vec![Some("/p/b.js".to_string()), None, Some("/p/c.js".to_string())],
    );
    // Last queued is visited first.
    assert_eq!(scan.next_path().as_deref(), Some("/p/c.js"));
    scan.add_module(30, vec![raw("./a.js", false)], vec![Some("/p/a.js".to_string())]);
    assert_eq!(scan.next_path().as_deref(), Some("/p/b.js"));
    scan.add_module(20, vec![raw("./c.js", false)], vec![Some("/p/c.js".to_string())]);
    assert_eq!(scan.next_path(), None);

    let g = scan.finish("/p".to_string());
    assert_eq!(g.entry_id, 0);
    assert_eq!(g.entry, "/p/a.js");
    assert_eq!(g.modules.len(), 3);
    let paths: Vec<&str> = g.modules.iter().map(|m| m.path.as_str()).collect();
    assert_eq!(paths, vec!["/p/a.js", "/p/c.js", "/p/b.js"]);
    let targets: Vec<Option<usize>> = g.modules[0].imports.iter().map(|i| i.target).collect();
    assert_eq!(targets, vec![Some(2), None, Some(1)]);
    assert_eq!(g.modules[1].imports[0].target, Some(0));
    assert_eq!(g.modules[2].imports[0].target, Some(1));
    assert_eq!(g.externals, vec!["lodash".to_string()]);
    assert_eq!(g.path_to_id.get("/p/b.js"), Some(&2));
    assert_eq!(g.path_to_id.len(), 3);
    assert_eq!(g.id_of(&"/p/c.js".to_string()), Some(1));
    assert_eq!(g.id_of(&"/p/x.js".to_string()), None);
    assert_eq!(g.matrix.get(0, 2), 20);
    assert_eq!(g.matrix.get(2, 1), 30);
    assert_eq!(g.matrix.get(0, 0), 0);
    assert_eq!(g.total_bytes, 150);
}

#[test]
fn scan_skips_files_already_read() {
    let mut scan = ProjectScan::start("/p/a.js".to_string());
    assert_eq!(scan.next_path().as_deref(), Some("/p/a.js"));
    // A self-import and a repeated import: the module itself is not queued,
    // the repeat is queued twice and read once.
    scan.add_module(
        5,
        vec![raw("./a.js", false), raw("./b.js", false), raw("./b.js", true)],
        vec![Some("/p/a.js".to_string()), Some("/p/b.js".to_string()), Some("/p/b.js".to_string())],
    );
    assert_eq!(scan.queue.len(), 2);
    assert_eq!(scan.next_path().as_deref(), Some("/p/b.js"));
    scan.add_module(7, vec![], vec![]);
    assert_eq!(scan.next_path(), None);
    assert!(scan.queue.is_empty());
    let g = scan.finish("/p".to_string());
    assert_eq!(g.modules[0].imports[0].target, Some(0));
    assert_eq!(g.modules[0].imports[2].target, Some(1));
    assert_eq!(g.matrix.get(0, 0), 0);
    assert_eq!(g.matrix.get(0, 1), 7);
}

#[test]
fn scan_leaves_unresolved_imports_unwired() {
    let mut scan = ProjectScan::start("/p/a.js".to_string());
    assert_eq!(scan.next_path().as_deref(), Some("/p/a.js"));
    scan.add_module(1, vec![raw("./missing.js", false), raw("react", true)], vec![None, None]);
    assert_eq!(scan.next_path(), None);
    let g = scan.finish("/p".to_string());
    assert_eq!(g.modules[0].imports[0].target, None);
    assert!(g.modules[0].imports[1].dynamic);
    assert_eq!(g.externals, vec!["react".to_string()]);
    assert_eq!(g.matrix.nnz(), 1);
}

#[test]
fn async_modules_rank_by_cost_then_id() {
    let mut m = TropicalSparseMatrix::new(5);
    m.ensure_diagonal();
    m.set(0, 1, 300);
    m.set(0, 2, 100);
    m.set(0, 3, 300);
    let async_cut: HashSet<usize> = [1, 2, 3, 4].into_iter().collect();
    let ranked = async_by_cost(&m, 0, &async_cut);
    assert_eq!(ranked, vec![(2, 100), (1, 300), (3, 300), (4, INF)]);
    let none: HashSet<usize> = HashSet::new();
    assert!(async_by_cost(&m, 0, &none).is_empty());
}

#[test]
fn topo_sort_takes_smallest_free_module_then_latest_freed() {
    // 0 imports 1, 2 imports 3; 1 and 3 start free.
    let imports = vec![vec![1], vec![], vec![3], vec![]];
    assert_eq!(topo_sort(&vec![3, 1, 2, 0], &imports), vec![1, 0, 3, 2]);
    // A cycle between 1 and 2 keeps 0, 1 and 2 out of the sorted part;
    // they follow in the given order.
    let cyclic = vec![vec![1], vec![2], vec![1]];
    assert_eq!(topo_sort(&vec![2, 0, 1], &cyclic), vec![2, 0, 1]);
    // A repeated import is counted twice and never released.
    let repeated = vec![vec![1, 1], vec![]];
    assert_eq!(topo_sort(&vec![0, 1], &repeated), vec![1, 0]);
}

#[test]
fn paths_display_relative_to_the_root() {
    assert_eq!(rel_display("/p", "/p/src/a.js"), "src/a.js");
    assert_eq!(rel_display("/p/", "/p/src/a.js"), "src/a.js");
    assert_eq!(rel_display("/p", "/p"), "");
    // Whole components only: `/pp` does not start with `/p`.
    assert_eq!(rel_display("/p", "/pp/a.js"), "/pp/a.js");
    assert_eq!(rel_display("/q", "/p/a\\b.js"), "/p/a/b.js");
    assert_eq!(display_path(Some("x\\y".to_string()), "/ignored"), "x/y");
    assert_eq!(display_path(None, "c:\\p\\a.js"), "c:/p/a.js");
}

#[test]
fn entry_candidates_try_extensions_then_index_files() {
    let c = entry_candidates("src/main");
    assert_eq!(c.len(), 17);
    assert_eq!(c[0], "src/main");
    assert_eq!(c[1], "src/main.ts");
    assert_eq!(c[5], "src/main.js");
    assert_eq!(c[8], "src/main.cjs");
    assert_eq!(c[9], "src/main/index.ts");
    assert_eq!(c[16], "src/main/index.cjs");
    assert_eq!(entry_candidates("lib/")[9], "lib/index.ts");
}

#[test]
fn source_files_and_skipped_directories() {
    assert!(source_file_name("a.js"));
    assert!(source_file_name("component.test.tsx"));
    assert!(source_file_name("x.cjs"));
    assert!(!source_file_name(".ts"));
    assert!(!source_file_name("notes.md"));
    assert!(!source_file_name("Makefile"));
    assert!(!source_file_name("a.js."));
    assert!(skipped_dir("node_modules"));
    assert!(skipped_dir("dist"));
    assert!(skipped_dir(".cache"));
    assert!(!skipped_dir("src"));
    assert!(!skipped_dir("distribution"));
}

#[test]
fn a_chunk_root_owns_its_async_only_dependencies() {
    let a: HashSet<usize> = [1, 2].into_iter().collect();
    let imports = vec![vec![], vec![2], vec![]];
    assert_eq!(group_async_chunks(&a, &imports), vec![vec![1, 2]]);
    // Two roots share a dependency: the smaller root takes it.
    let b: HashSet<usize> = [1, 2, 3].into_iter().collect();
    let imports = vec![vec![], vec![3], vec![3], vec![]];
    assert_eq!(group_async_chunks(&b, &imports), vec![vec![1, 3], vec![2]]);
    // No root (a cycle): the smallest module seeds the only chunk.
    let c: HashSet<usize> = [4, 5].into_iter().collect();
    let imports = vec![vec![], vec![], vec![], vec![], vec![5], vec![4]];
    assert_eq!(group_async_chunks(&c, &imports), vec![vec![4, 5]]);
}

#[test]
fn a_dynamic_import_keeps_its_importer_synchronous() {
    // The entry's only import is dynamic; the imported module is async.
    let modules = vec![module(0, 10, vec![imp("./b", Some(1), true)]), module(1, 20, vec![])];
    let sync: HashSet<usize> = [0].into_iter().collect();
    let async_cut: HashSet<usize> = [1].into_iter().collect();
    let plan = plan_bundle(&modules, sync, async_cut);
    assert_eq!(plan.sync.len(), 1);
    assert!(plan.sync.contains(&0));
    assert_eq!(plan.main_order, vec![0]);
    assert_eq!(plan.chunks, vec![vec![1]]);
    // A static import of an async module still moves the importer.
    let modules = vec![module(0, 10, vec![imp("./b", Some(1), false)]), module(1, 20, vec![])];
    let sync: HashSet<usize> = [0].into_iter().collect();
    let async_cut: HashSet<usize> = [1].into_iter().collect();
    let plan = plan_bundle(&modules, sync, async_cut);
    assert!(plan.sync.is_empty());
}

#[test]
fn acyclic_chunks_load_every_module_after_its_imports() {
    // 0 imports 1 and 2, both import 3: no cycle, no repeated import.
    let imports = vec![vec![1, 2], vec![3], vec![3], vec![]];
    let order = topo_sort(&vec![0, 1, 2, 3], &imports);
    assert_eq!(order, vec![3, 2, 1, 0]);
    for (i, &m) in order.iter().enumerate() {
        for dep in &imports[m] {
            assert!(order[..i].contains(dep));
        }
    }
}

#[test]
fn a_repeated_import_can_break_the_load_order() {
    // 0 lists 1 twice and is never released; 2 imports 0 yet, given first,
    // stays ahead of it.
    let imports = vec![vec![1, 1], vec![], vec![0]];
    assert_eq!(topo_sort(&vec![2, 0, 1], &imports), vec![1, 2, 0]);
}

#[test]
fn externals_are_listed_once_in_the_order_met() {
    let mut scan = ProjectScan::start("/p/a.js".to_string());
    assert_eq!(scan.next_path().as_deref(), Some("/p/a.js"));
    scan.add_module(
        10,
        vec![raw("react", false), raw("./b.js", false), raw("lodash", true), raw("react", false)],
        vec![None, Some("/p/b.js".to_string()), None, None],
    );
    assert_eq!(scan.next_path().as_deref(), Some("/p/b.js"));
    scan.add_module(5, vec![raw("lodash", false), raw("zod", false)], vec![None, None]);
    assert_eq!(scan.next_path(), None);
    let g = scan.finish("/p".to_string());
    assert_eq!(g.externals, vec!["react".to_string(), "lodash".to_string(), "zod".to_string()]);
}

#[test]
fn bundle_plan_groups_a_root_with_its_async_dependencies() {
    let ms = vec![
        module(0, 1, vec![imp("./lazy", Some(1), true)]),
        module(1, 1, vec![imp("./dep", Some(2), false)]),
        module(2, 1, vec![]),
        module(3, 1, vec![]),
    ];
    let sync: HashSet<usize> = [0].into_iter().collect();
    let async_cut: HashSet<usize> = [1, 2, 3].into_iter().collect();
    let plan = plan_bundle(&ms, sync, async_cut);
    assert_eq!(plan.chunks, vec![vec![2, 1], vec![3]]);
    assert_eq!(plan.module_to_chunk[&1], 0);
    assert_eq!(plan.module_to_chunk[&2], 0);
    assert_eq!(plan.module_to_chunk[&3], 1);
}

#[test]
fn manifest_modes_follow_the_split() {
    let sync: HashSet<usize> = [0].into_iter().collect();
    let async_set: HashSet<usize> = [1].into_iter().collect();
    assert_eq!(module_mode(&sync, &async_set, 0), ModuleMode::Sync);
    assert_eq!(module_mode(&sync, &async_set, 1), ModuleMode::Async);
    assert_eq!(module_mode(&sync, &async_set, 2), ModuleMode::Unreachable);
    assert_eq!(module_mode(&sync, &async_set, 2).label(), "unreachable");
    assert_eq!(ModuleMode::Sync.label(), "sync");
    assert_eq!(ModuleMode::Async.label(), "async");
}

#[test]
fn the_first_existing_candidate_wins() {
    assert_eq!(first_found(&vec![false, true, true]), Some(1));
    assert_eq!(first_found(&vec![false, false]), None);
    assert_eq!(first_found(&vec![]), None);
}
