//! Control algorithms for the benchmark.
//!
//! 1. `dfs_reachability`: what traditional bundlers do per entry point:
//!    traverse the module graph and accumulate the byte weight of everything
//!    reachable.
//! 2. `dijkstra`: the classical exact single-source shortest-path solver, the
//!    ground-truth oracle for the tropical closure.
use vstd::prelude::*;
use crate::paths::{is_path, path_weight, cheapest, cheapest_table, lemma_cheapest_unique};
use crate::tropical::{TropicalSparseMatrix, INF, row_wf, row_lookup, lemma_lookup_at, lemma_lookup_range, inf_vec};

verus! {

/// `p` is a walk along stored edges of `g`.
pub open spec fn is_walk(g: TropicalSparseMatrix, p: Seq<int>) -> bool {
    &&& p.len() >= 1
    &&& forall|k: int| 0 <= k < p.len() ==> 0 <= #[trigger] p[k] < g.size
    &&& forall|k: int| 0 <= k < p.len() - 1 ==> g.entry(#[trigger] p[k], p[k + 1]) < INF
}

/// `x` can be reached from `s` along stored edges.
pub open spec fn graph_reaches(g: TropicalSparseMatrix, s: int, x: int) -> bool {
    exists|p: Seq<int>| #[trigger] is_walk(g, p) && p[0] == s && p.last() == x
}

/// Modules reachable from `s`, `s` included.
pub open spec fn reach_set(g: TropicalSparseMatrix, s: int) -> Set<int> {
    Set::new(|x: int| 0 <= x < g.size && graph_reaches(g, s, x))
}

/// Sum of the weights of the edges `par[k] -> order[k]`.
pub open spec fn discovery_bytes(g: TropicalSparseMatrix, order: Seq<int>, par: Seq<int>) -> int
    decreases order.len(),
{
    if order.len() == 0 || par.len() != order.len() {
        0
    } else {
        discovery_bytes(g, order.drop_last(), par.drop_last()) + g.entry(par.last(), order.last())
    }
}

proof fn lemma_walk_extend(g: TropicalSparseMatrix, s: int, x: int, y: int)
    requires
        graph_reaches(g, s, x),
        0 <= y < g.size,
        g.entry(x, y) < INF,
    ensures
        graph_reaches(g, s, y),
{
    let p = choose|p: Seq<int>| #[trigger] is_walk(g, p) && p[0] == s && p.last() == x;
    let q = p.push(y);
    assert(is_walk(g, q)) by {
        assert forall|k: int| 0 <= k < q.len() - 1 implies g.entry(#[trigger] q[k], q[k + 1]) < INF by {
            if k < p.len() - 1 {
                assert(q[k] == p[k] && q[k + 1] == p[k + 1]);
            } else {
                assert(q[k] == x);
            }
        }
    }
    assert(q[0] == s && q.last() == y);
}

/// Number of `true` flags.
pub open spec fn count_true(v: Seq<bool>) -> nat
    decreases v.len(),
{
    if v.len() == 0 {
        0
    } else {
        count_true(v.drop_last()) + if v.last() { 1nat } else { 0nat }
    }
}

proof fn lemma_count_true_le(v: Seq<bool>)
    ensures
        count_true(v) <= v.len(),
    decreases v.len(),
{
    if v.len() > 0 {
        lemma_count_true_le(v.drop_last());
    }
}

proof fn lemma_count_true_set(v: Seq<bool>, i: int)
    requires
        0 <= i < v.len(),
        !v[i],
    ensures
        count_true(v.update(i, true)) == count_true(v) + 1,
    decreases v.len(),
{
    let w = v.update(i, true);
    if i == v.len() - 1 {
        assert(w.drop_last() =~= v.drop_last());
    } else {
        assert(w.drop_last() =~= v.drop_last().update(i, true));
        lemma_count_true_set(v.drop_last(), i);
    }
}

/// Scanning the first `k` stored edges (in column order) out of the popped
/// module `node`: each edge to an unflagged module other than `node` flags
/// it, pushes it and adds the edge's weight. Returns the flags, the stack
/// and the byte total.
pub open spec fn dfs_scan(row: Seq<(u32, u32)>, node: usize, visited: Seq<bool>, stack: Seq<usize>, bytes: int, k: int) -> (Seq<bool>, Seq<usize>, int)
    decreases k,
{
    if k <= 0 {
        (visited, stack, bytes)
    } else {
        let (v, s, b) = dfs_scan(row, node, visited, stack, bytes, k - 1);
        let nx = row[k - 1].0 as usize;
        if nx != node && !v[nx as int] {
            (v.update(nx as int, true), s.push(nx), b + row[k - 1].1)
        } else {
            (v, s, b)
        }
    }
}

/// The byte total the DFS reaches from a state, popping the top of the
/// stack and scanning its edges, for at most `fuel` pops.
pub open spec fn dfs_bytes(g: TropicalSparseMatrix, visited: Seq<bool>, stack: Seq<usize>, bytes: int, fuel: nat) -> int
    decreases fuel,
{
    if fuel == 0 || stack.len() == 0 {
        bytes
    } else {
        let node = stack.last();
        let row = g.rows@[node as int]@;
        let (v, s, b) = dfs_scan(row, node, visited, stack.drop_last(), bytes, row.len() as int);
        dfs_bytes(g, v, s, b, (fuel - 1) as nat)
    }
}

/// `n` flags, only `e` raised.
pub open spec fn only_flag(n: nat, e: int) -> Seq<bool> {
    Seq::new(n, |x: int| x == e)
}

/// The bytes `dfs_reachability` adds up from `entry`.
pub open spec fn dfs_total(g: TropicalSparseMatrix, entry: int) -> int {
    dfs_bytes(g, only_flag(g.size as nat, entry), seq![entry as usize], 0, g.size as nat)
}

/// The DFS bookkeeping: every flagged module is reachable and either popped
/// or on the stack (exactly once); `order`/`par` record the discovering
/// edges whose weights sum to `total`.
#[verifier::opaque]
pub open spec fn dfs_inv(
    g: TropicalSparseMatrix,
    entry: int,
    visited: Seq<bool>,
    stack: Seq<usize>,
    popped: Set<int>,
    order: Seq<int>,
    par: Seq<int>,
    total: int,
) -> bool {
    &&& visited.len() == g.size
    &&& visited[entry]
    &&& forall|x: int| 0 <= x < g.size && #[trigger] visited[x] ==> graph_reaches(g, entry, x)
    &&& forall|k: int| 0 <= k < stack.len() ==> (#[trigger] stack[k]) < g.size && visited[stack[k] as int]
        && !popped.contains(stack[k] as int)
    &&& stack.no_duplicates()
    &&& forall|x: int| #[trigger] popped.contains(x) ==> 0 <= x < g.size && visited[x]
    &&& forall|x: int| 0 <= x < g.size && #[trigger] visited[x] ==> popped.contains(x) || stack.contains(x as usize)
    &&& popped.finite()
    &&& popped.len() + stack.len() == count_true(visited)
    &&& order.no_duplicates()
    &&& order.len() == par.len()
    &&& order.len() + 1 == count_true(visited)
    &&& forall|x: int| #[trigger] order.contains(x) <==> (0 <= x < g.size && visited[x] && x != entry)
    &&& forall|j: int| 0 <= j < par.len() ==> graph_reaches(g, entry, #[trigger] par[j]) && g.entry(par[j], order[j]) < INF
        && par[j] != order[j]
    &&& total == discovery_bytes(g, order, par)
    &&& total <= order.len() * INF
}

/// Every stored edge out of a popped module leads to a flagged module.
pub open spec fn popped_closed(g: TropicalSparseMatrix, visited: Seq<bool>, popped: Set<int>, except: int) -> bool {
    forall|x: int, j: int|
        #![trigger popped.contains(x), g.rows@[x]@[j]]
        popped.contains(x) && x != except && 0 <= j < g.rows@[x]@.len() && g.rows@[x]@[j].0 != x
            ==> visited[g.rows@[x]@[j].0 as int]
}

/// Flag and push every unflagged module that `node` points to, adding the
/// weight of each discovering edge.
#[verifier::spinoff_prover]
fn push_neighbors(
    graph: &TropicalSparseMatrix,
    entry: usize,
    node: usize,
    visited: &mut Vec<bool>,
    stack: &mut Vec<usize>,
    total_bytes: &mut u64,
    popped: Ghost<Set<int>>,
    order: Ghost<Seq<int>>,
    par: Ghost<Seq<int>>,
) -> (res: (Ghost<Seq<int>>, Ghost<Seq<int>>))
    requires
        graph.wf(),
        entry < graph.size,
        node < graph.size,
        popped@.contains(node as int),
        dfs_inv(*graph, entry as int, old(visited)@, old(stack)@, popped@, order@, par@, *old(total_bytes) as int),
        popped_closed(*graph, old(visited)@, popped@, node as int),
    ensures
        dfs_inv(*graph, entry as int, final(visited)@, final(stack)@, popped@, res.0@, res.1@, *final(total_bytes) as int),
        popped_closed(*graph, final(visited)@, popped@, -1),
        count_true(final(visited)@) >= count_true(old(visited)@),
        count_true(final(visited)@) == count_true(old(visited)@) ==> final(stack)@ == old(stack)@,
        (final(visited)@, final(stack)@, *final(total_bytes) as int) == dfs_scan(
            graph.rows@[node as int]@,
            node,
            old(visited)@,
            old(stack)@,
            *old(total_bytes) as int,
            graph.rows@[node as int]@.len() as int,
        ),
{
    reveal(dfs_inv);
    let n = graph.size;
    let ghost g = *graph;
    let ghost mut order = order@;
    let ghost mut par = par@;
    let ghost popped = popped@;
    let ghost visited0 = visited@;
    let ghost stack0 = stack@;
    let ghost total0 = *total_bytes as int;
    let row = &graph.rows[node];
    proof {
        assert(row_wf(row@, n as int));
        assert(graph_reaches(g, entry as int, node as int));
    }
    let mut k: usize = 0;
    while k < row.len()
        invariant
            g == *graph,
            graph.wf(),
            n == graph.size,
            entry < n,
            node < n,
            row@ == graph.rows@[node as int]@,
            row_wf(row@, n as int),
            k <= row@.len(),
            popped.contains(node as int),
            graph_reaches(g, entry as int, node as int),
            dfs_inv(g, entry as int, visited@, stack@, popped, order, par, *total_bytes as int),
            popped_closed(g, visited@, popped, node as int),
            forall|j: int| 0 <= j < k && row@[j].0 != node ==> visited@[#[trigger] row@[j].0 as int],
            count_true(visited@) >= count_true(visited0),
            count_true(visited@) == count_true(visited0) ==> stack@ == stack0,
            visited0 == old(visited)@,
            stack0 == old(stack)@,
            total0 == *old(total_bytes) as int,
            (visited@, stack@, *total_bytes as int) == dfs_scan(row@, node, visited0, stack0, total0, k as int),
        decreases row@.len() - k,
    {
        reveal(dfs_inv);
        let (next, weight) = row[k];
        let nx = next as usize;
        if nx != node && !visited[nx] {
            proof {
                lemma_lookup_at(row@, n as int, k as int);
                lemma_walk_extend(g, entry as int, node as int, nx as int);
                lemma_count_true_set(visited@, nx as int);
                lemma_count_true_le(visited@.update(nx as int, true));
                assert(!order.contains(nx as int));
                assert(*total_bytes + weight <= (order.len() + 1) * INF) by (nonlinear_arith)
                    requires
                        *total_bytes <= order.len() * INF,
                        weight < INF,
                ;
                assert((order.len() + 1) * INF <= u64::MAX) by (nonlinear_arith)
                    requires
                        order.len() + 1 < n,
                        n <= u32::MAX,
                ;
            }
            let ghost old_stack = stack@;
            let ghost old_visited = visited@;
            visited.set(nx, true);
            *total_bytes = *total_bytes + weight as u64;
            stack.push(nx);
            proof {
                let old_order = order;
                let old_par = par;
                order = order.push(nx as int);
                par = par.push(node as int);
                assert(order.drop_last() == old_order);
                assert(par.drop_last() == old_par);
                assert(g.entry(node as int, nx as int) == weight);
                assert forall|x: int| #[trigger] order.contains(x) <==> (0 <= x < n && visited@[x] && x != entry) by {
                    if order.contains(x) {
                        let j = choose|j: int| 0 <= j < order.len() && order[j] == x;
                        if j < old_order.len() {
                            assert(old_order[j] == x);
                        }
                    }
                    if x == nx {
                        assert(order[old_order.len() as int] == x);
                    } else if old_order.contains(x) {
                        let j = choose|j: int| 0 <= j < old_order.len() && old_order[j] == x;
                        assert(order[j] == x);
                    }
                }
                assert(order.no_duplicates()) by {
                    assert forall|a: int, b: int| 0 <= a < order.len() && 0 <= b < order.len() && a != b implies order[a] != order[b] by {
                        if a < old_order.len() && b < old_order.len() {
                        } else if a == old_order.len() {
                            assert(old_order.contains(order[b]));
                        } else {
                            assert(old_order.contains(order[a]));
                        }
                    }
                }
                assert forall|j: int| 0 <= j < par.len() implies graph_reaches(g, entry as int, #[trigger] par[j]) && g.entry(par[j], order[j]) < INF
                    && par[j] != order[j] by {
                    if j < old_par.len() {
                        assert(par[j] == old_par[j] && order[j] == old_order[j]);
                    }
                }
                assert(stack@ == old_stack.push(nx));
                assert forall|y: usize| old_stack.contains(y) implies stack@.contains(y) by {
                    let j = choose|j: int| 0 <= j < old_stack.len() && old_stack[j] == y;
                    assert(stack@[j] == y);
                }
                assert(stack@[old_stack.len() as int] == nx);
                assert(!old_stack.contains(nx)) by {
                    if old_stack.contains(nx) {
                        let j = choose|j: int| 0 <= j < old_stack.len() && old_stack[j] == nx;
                    }
                }
                assert(stack@.no_duplicates()) by {
                    assert forall|a: int, b: int| 0 <= a < stack@.len() && 0 <= b < stack@.len() && a != b implies stack@[a] != stack@[b] by {
                        if a < old_stack.len() && b < old_stack.len() {
                            assert(stack@[a] == old_stack[a] && stack@[b] == old_stack[b]);
                        } else if a == old_stack.len() {
                            assert(stack@[b] == old_stack[b]);
                            assert(old_stack.contains(stack@[b]));
                        } else {
                            assert(stack@[a] == old_stack[a]);
                            assert(old_stack.contains(stack@[a]));
                        }
                    }
                }
                assert forall|j: int| 0 <= j < stack@.len() implies (#[trigger] stack@[j]) < n && visited@[stack@[j] as int]
                    && !popped.contains(stack@[j] as int) by {
                    if j < old_stack.len() {
                        assert(stack@[j] == old_stack[j]);
                    }
                }
                assert(!popped.contains(nx as int));
                assert forall|x: int| 0 <= x < n && #[trigger] visited@[x] implies popped.contains(x) || stack@.contains(x as usize) by {
                    if x != nx {
                        assert(old_visited[x]);
                    }
                }
                assert(dfs_inv(g, entry as int, visited@, stack@, popped, order, par, *total_bytes as int));
            }
        }
        proof {
            let r = dfs_scan(row@, node, visited0, stack0, total0, k + 1);
            assert(r.0 =~= visited@);
            assert(r.1 =~= stack@);
        }
        k = k + 1;
    }
    proof {
        assert(popped_closed(g, visited@, popped, -1)) by {
            assert forall|x: int, j: int|
                #![trigger popped.contains(x), g.rows@[x]@[j]]
                popped.contains(x) && x != -1 && 0 <= j < g.rows@[x]@.len() && g.rows@[x]@[j].0 != x
                    implies visited@[g.rows@[x]@[j].0 as int] by {
                if x == node {
                    assert(row@[j] == g.rows@[x]@[j]);
                }
            }
        }
    }
    (Ghost(order), Ghost(par))
}

/// Iterative DFS from one entry: returns (modules reached, total bytes pulled).
/// Explicit stack, no recursion, safe for arbitrarily deep graphs.
///
/// The bytes are those of one discovering edge per reached module other
/// than the entry, leading from an already reached module.
#[verifier::spinoff_prover]
#[verifier::rlimit(40)]
pub fn dfs_reachability(graph: &TropicalSparseMatrix, entry: usize) -> (res: (usize, u64))
    requires
        graph.wf(),
        entry < graph.size,
    ensures
        reach_set(*graph, entry as int).finite(),
        res.0 == reach_set(*graph, entry as int).len(),
        exists|order: Seq<int>, par: Seq<int>|
            {
                &&& order.no_duplicates()
                &&& order.len() == par.len()
                &&& order.to_set() == reach_set(*graph, entry as int).remove(entry as int)
                &&& forall|k: int| 0 <= k < par.len() ==> graph_reaches(*graph, entry as int, #[trigger] par[k])
                    && graph.entry(par[k], order[k]) < INF && par[k] != order[k]
                &&& res.1 == discovery_bytes(*graph, order, par)
            },
        res.1 == dfs_total(*graph, entry as int),
{
    let n = graph.size;
    let ghost g = *graph;
    let mut visited: Vec<bool> = Vec::new();
    let mut i: usize = 0;
    while i < n
        invariant
            i <= n,
            visited@.len() == i,
            forall|k: int| 0 <= k < i ==> !(#[trigger] visited@[k]),
        decreases n - i,
    {
        visited.push(false);
        i = i + 1;
    }
    proof {
        lemma_count_true_zero(visited@);
        lemma_count_true_set(visited@, entry as int);
    }
    let mut stack: Vec<usize> = Vec::new();
    stack.push(entry);
    visited.set(entry, true);
    let mut reached: usize = 0;
    let mut total_bytes: u64 = 0;
    let ghost mut popped: Set<int> = Set::empty();
    let ghost mut order: Seq<int> = Seq::empty();
    let ghost mut par: Seq<int> = Seq::empty();
    proof {
        reveal(dfs_inv);
        assert(is_walk(g, seq![entry as int]));
        assert(graph_reaches(g, entry as int, entry as int));
        assert(stack@[0] == entry);
        assert forall|x: int| #[trigger] order.contains(x) <==> (0 <= x < n && visited@[x] && x != entry) by {
            if 0 <= x < n && visited@[x] {
                assert(x == entry);
            }
        }
        assert forall|x: int| 0 <= x < n && #[trigger] visited@[x] implies graph_reaches(g, entry as int, x) by {
            assert(x == entry);
        }
        assert forall|x: int| 0 <= x < n && #[trigger] visited@[x] implies popped.contains(x) || stack@.contains(x as usize) by {
            assert(x == entry);
        }
        assert(dfs_inv(g, entry as int, visited@, stack@, popped, order, par, total_bytes as int));
        assert(visited@ =~= only_flag(g.size as nat, entry as int));
        assert(stack@ =~= seq![(entry as int) as usize]);
        assert(dfs_bytes(g, visited@, stack@, 0, n as nat) == dfs_total(g, entry as int));
    }
    while stack.len() > 0
        invariant
            g == *graph,
            graph.wf(),
            n == graph.size,
            entry < n,
            dfs_inv(g, entry as int, visited@, stack@, popped, order, par, total_bytes as int),
            popped_closed(g, visited@, popped, -1),
            reached == popped.len(),
            popped.len() <= n,
            dfs_bytes(g, visited@, stack@, total_bytes as int, (n - popped.len()) as nat) == dfs_total(g, entry as int),
        decreases n - count_true(visited@), stack@.len(),
    {
        proof {
            lemma_dfs_facts(g, entry as int, visited@, stack@, popped, order, par, total_bytes as int);
        }
        let ghost old_stack = stack@;
        let ghost v0 = visited@;
        let ghost b0 = total_bytes as int;
        let ghost f0 = (n - popped.len()) as nat;
        let ghost p0 = popped;
        let node = stack.pop().unwrap();
        reached = reached + 1;
        proof {
            lemma_pop_step(g, entry as int, visited@, old_stack, popped, order, par, total_bytes as int);
            popped = popped.insert(node as int);
        }
        let (o, p) = push_neighbors(graph, entry, node, &mut visited, &mut stack, &mut total_bytes, Ghost(popped), Ghost(order), Ghost(par));
        proof {
            order = o@;
            par = p@;
            lemma_dfs_facts(g, entry as int, visited@, stack@, popped, order, par, total_bytes as int);
            assert(p0.len() < n);
            assert(popped.len() == p0.len() + 1);
            assert(dfs_bytes(g, v0, old_stack, b0, f0) == dfs_bytes(g, visited@, stack@, total_bytes as int, (f0 - 1) as nat));
        }
    }
    proof {
        reveal(dfs_inv);
        let rs = reach_set(g, entry as int);
        assert forall|x: int| #[trigger] popped.contains(x) <==> rs.contains(x) by {
            if rs.contains(x) {
                let p = choose|p: Seq<int>| #[trigger] is_walk(g, p) && p[0] == entry && p.last() == x;
                lemma_walk_visited(g, visited@, popped, p, p.len() - 1);
            }
        }
        assert(popped =~= rs);
        assert forall|x: int| #[trigger] order.to_set().contains(x) <==> rs.remove(entry as int).contains(x) by {
            assert(order.to_set().contains(x) == order.contains(x));
        }
        assert(order.to_set() =~= rs.remove(entry as int));
    }
    (reached, total_bytes)
}

/// The counting facts of the DFS bookkeeping.
proof fn lemma_dfs_facts(
    g: TropicalSparseMatrix,
    entry: int,
    visited: Seq<bool>,
    stack: Seq<usize>,
    popped: Set<int>,
    order: Seq<int>,
    par: Seq<int>,
    total: int,
)
    requires
        dfs_inv(g, entry, visited, stack, popped, order, par, total),
    ensures
        visited.len() == g.size,
        popped.finite(),
        popped.len() + stack.len() == count_true(visited),
        count_true(visited) <= g.size,
{
    reveal(dfs_inv);
    lemma_count_true_le(visited);
}

/// Popping the top of the stack moves it to the popped set and keeps the
/// bookkeeping.
proof fn lemma_pop_step(
    g: TropicalSparseMatrix,
    entry: int,
    visited: Seq<bool>,
    old_stack: Seq<usize>,
    popped: Set<int>,
    order: Seq<int>,
    par: Seq<int>,
    total: int,
)
    requires
        old_stack.len() > 0,
        dfs_inv(g, entry, visited, old_stack, popped, order, par, total),
        popped_closed(g, visited, popped, -1),
    ensures
        ({
            let node = old_stack.last();
            let stack = old_stack.drop_last();
            &&& dfs_inv(g, entry, visited, stack, popped.insert(node as int), order, par, total)
            &&& popped_closed(g, visited, popped.insert(node as int), node as int)
            &&& !popped.contains(node as int)
            &&& node < g.size
        }),
{
    reveal(dfs_inv);
    let node = old_stack.last();
    let stack = old_stack.drop_last();
    assert(old_stack == stack.push(node));
    assert forall|y: usize| old_stack.contains(y) && y != node implies stack.contains(y) by {
        let k = choose|k: int| 0 <= k < old_stack.len() && old_stack[k] == y;
        assert(stack[k] == y);
    }
    assert forall|k: int| 0 <= k < stack.len() implies #[trigger] stack[k] == old_stack[k] by {}
    assert(!stack.contains(node)) by {
        if stack.contains(node) {
            let k = choose|k: int| 0 <= k < stack.len() && stack[k] == node;
            assert(old_stack[k] == old_stack[old_stack.len() - 1]);
        }
    }
    assert(stack.no_duplicates()) by {
        assert forall|a: int, b: int| 0 <= a < stack.len() && 0 <= b < stack.len() && a != b implies stack[a] != stack[b] by {
            assert(stack[a] == old_stack[a] && stack[b] == old_stack[b]);
        }
    }
    assert(!popped.contains(node as int)) by {
        assert(old_stack[old_stack.len() - 1] == node);
    }
    let popped2 = popped.insert(node as int);
    assert forall|x: int| 0 <= x < g.size && #[trigger] visited[x] implies popped2.contains(x) || stack.contains(x as usize) by {
        if !popped.contains(x) {
            assert(old_stack.contains(x as usize));
        }
    }
    assert forall|k: int| 0 <= k < stack.len() implies (#[trigger] stack[k]) < g.size && visited[stack[k] as int]
        && !popped2.contains(stack[k] as int) by {
        assert(stack[k] == old_stack[k]);
        assert(stack[k] != node) by {
            assert(stack.contains(stack[k]));
        }
    }
    assert(old_stack[old_stack.len() - 1] == node);
}

proof fn lemma_count_true_zero(v: Seq<bool>)
    requires
        forall|k: int| 0 <= k < v.len() ==> !(#[trigger] v[k]),
    ensures
        count_true(v) == 0,
    decreases v.len(),
{
    if v.len() > 0 {
        lemma_count_true_zero(v.drop_last());
    }
}

proof fn lemma_walk_visited(g: TropicalSparseMatrix, visited: Seq<bool>, popped: Set<int>, p: Seq<int>, k: int)
    requires
        g.wf(),
        is_walk(g, p),
        popped.contains(p[0]),
        forall|x: int| #[trigger] popped.contains(x) ==> 0 <= x < g.size && visited[x],
        forall|x: int| 0 <= x < g.size && #[trigger] visited[x] ==> popped.contains(x),
        popped_closed(g, visited, popped, -1),
        0 <= k < p.len(),
    ensures
        popped.contains(p[k]),
    decreases k,
{
    if k > 0 {
        lemma_walk_visited(g, visited, popped, p, k - 1);
        let x = p[k - 1];
        let y = p[k];
        assert(g.entry(x, y) < INF);
        if x != y {
            let row = g.rows@[x]@;
            assert(row_wf(row, g.size as int));
            lemma_lookup_range(row, g.size as int, y);
            let j = choose|j: int| 0 <= j < row.len() && row[j].0 == y;
            assert(visited[y]);
        }
    }
}


/// Accumulated weight of a walk: the sum of the weights of its edges.
pub open spec fn walk_weight(g: TropicalSparseMatrix, p: Seq<int>) -> int
    decreases p.len(),
{
    if p.len() <= 1 {
        0
    } else {
        walk_weight(g, p.drop_last()) + g.entry(p[p.len() - 2], p.last())
    }
}

/// Some walk from `s` to `v` weighs exactly `w`.
#[verifier::opaque]
pub open spec fn has_walk_of(g: TropicalSparseMatrix, s: int, v: int, w: int) -> bool {
    exists|p: Seq<int>| #[trigger] is_walk(g, p) && p[0] == s && p.last() == v && walk_weight(g, p) == w
}

/// `d[v]` is the cheapest accumulated weight of a walk from `s` to `v`,
/// or INF when no walk weighs less than INF.
pub open spec fn is_sssp(g: TropicalSparseMatrix, s: int, d: Seq<u32>) -> bool {
    &&& d.len() == g.size
    &&& forall|v: int| 0 <= v < g.size ==> cheapest(g@, g.size as nat, s, v, #[trigger] d[v] as int)
}

/// Walks along stored edges are the paths through the dense view, with the
/// same weight.
pub proof fn lemma_walk_path(g: TropicalSparseMatrix, p: Seq<int>)
    requires
        g.wf(),
        forall|k: int| 0 <= k < p.len() ==> 0 <= #[trigger] p[k] < g.size,
    ensures
        p.len() >= 1 ==> (is_walk(g, p) <==> is_path(g@, g.size as nat, p)),
        walk_weight(g, p) == path_weight(g@, p),
    decreases p.len(),
{
    g.lemma_view_table();
    if p.len() >= 1 {
        assert(is_walk(g, p) <==> is_path(g@, g.size as nat, p)) by {
            assert forall|k: int| 0 <= k < p.len() - 1 implies #[trigger] g@[p[k]][p[k + 1]] == g.entry(p[k], p[k + 1]) by {
                assert(0 <= p[k] < g.size && 0 <= p[k + 1] < g.size);
            }
            if is_walk(g, p) {
                assert forall|k: int| 0 <= k < p.len() - 1 implies #[trigger] g@[p[k]][p[k + 1]] < INF by {
                    assert(g.entry(p[k], p[k + 1]) < INF);
                }
            }
            if is_path(g@, g.size as nat, p) {
                assert forall|k: int| 0 <= k < p.len() - 1 implies g.entry(#[trigger] p[k], p[k + 1]) < INF by {
                    assert(g@[p[k]][p[k + 1]] < INF);
                }
            }
        }
    }
    if p.len() > 1 {
        lemma_walk_path(g, p.drop_last());
        assert(0 <= p[p.len() - 2] < g.size && 0 <= p.last() < g.size);
    }
}

/// Sum of the tentative distances; each improvement lowers it.
pub open spec fn seq_sum(d: Seq<u32>) -> nat
    decreases d.len(),
{
    if d.len() == 0 {
        0
    } else {
        seq_sum(d.drop_last()) + d.last() as nat
    }
}

proof fn lemma_seq_sum_update(d: Seq<u32>, i: int, x: u32)
    requires
        0 <= i < d.len(),
    ensures
        seq_sum(d.update(i, x)) + d[i] == seq_sum(d) + x,
    decreases d.len(),
{
    let e = d.update(i, x);
    if i == d.len() - 1 {
        assert(e.drop_last() =~= d.drop_last());
    } else {
        assert(e.drop_last() =~= d.drop_last().update(i, x));
        lemma_seq_sum_update(d.drop_last(), i, x);
    }
}

/// Every edge out of `u` is relaxed: no module is farther than through `u`.
#[verifier::opaque]
pub open spec fn relaxed(g: TropicalSparseMatrix, d: Seq<u32>, u: int) -> bool {
    forall|v: int| 0 <= v < g.size ==> d[v] <= d[u] + #[trigger] g.entry(u, v)
}

/// The bookkeeping of Dijkstra's loop. `done` holds the modules whose edges
/// were relaxed at their final distance; `pending` is the module being
/// relaxed, if any.
#[verifier::opaque]
pub open spec fn dij_inv(
    g: TropicalSparseMatrix,
    s: int,
    d: Seq<u32>,
    h: Seq<(u32, u32)>,
    done: Set<int>,
    pending: int,
) -> bool {
    &&& d.len() == g.size
    &&& 0 <= s < g.size
    &&& d[s] == 0
    &&& forall|v: int| 0 <= v < g.size ==> #[trigger] d[v] <= INF
    &&& forall|v: int| 0 <= v < g.size && #[trigger] d[v] < INF ==> has_walk_of(g, s, v, d[v] as int)
    &&& forall|k: int| 0 <= k < h.len() ==> (#[trigger] h[k]).1 < g.size && d[h[k].1 as int] <= h[k].0 && h[k].0 < INF
    &&& forall|u: int| #[trigger] done.contains(u) ==> 0 <= u < g.size && d[u] < INF && relaxed(g, d, u)
    &&& forall|v: int| 0 <= v < g.size && #[trigger] d[v] < INF && v != pending ==> done.contains(v) || h.contains((d[v], v as u32))
    &&& forall|u: int, k: int| #![trigger done.contains(u), h[k]] done.contains(u) && 0 <= k < h.len() ==> d[u] <= h[k].0
}

proof fn lemma_walk_extend_weight(g: TropicalSparseMatrix, s: int, u: int, w: int, v: int)
    requires
        has_walk_of(g, s, u, w),
        0 <= v < g.size,
        g.entry(u, v) < INF,
    ensures
        has_walk_of(g, s, v, w + g.entry(u, v)),
{
    reveal(has_walk_of);
    let p = choose|p: Seq<int>| #[trigger] is_walk(g, p) && p[0] == s && p.last() == u && walk_weight(g, p) == w;
    let q = p.push(v);
    assert(q.drop_last() =~= p);
    assert(is_walk(g, q)) by {
        assert forall|k: int| 0 <= k < q.len() - 1 implies g.entry(#[trigger] q[k], q[k + 1]) < INF by {
            if k < p.len() - 1 {
                assert(q[k] == p[k] && q[k + 1] == p[k + 1]);
            } else {
                assert(q[k] == u);
            }
        }
    }
    assert(q[q.len() - 2] == u);
    assert(q[0] == s && q.last() == v && walk_weight(g, q) == w + g.entry(u, v));
}

/// Remove and return a least entry of the queue, ordered by distance and
/// then by module.
fn pop_min(heap: &mut Vec<(u32, u32)>) -> (e: (u32, u32))
    requires
        old(heap)@.len() > 0,
    ensures
        old(heap)@.contains(e),
        final(heap)@.len() == old(heap)@.len() - 1,
        forall|k: int| 0 <= k < old(heap)@.len() ==> e.0 < (#[trigger] old(heap)@[k]).0
            || (e.0 == old(heap)@[k].0 && e.1 <= old(heap)@[k].1),
        forall|x: (u32, u32)| old(heap)@.contains(x) && x != e ==> #[trigger] final(heap)@.contains(x),
        forall|k: int| 0 <= k < final(heap)@.len() ==> old(heap)@.contains(#[trigger] final(heap)@[k]),
{
    let ghost h = heap@;
    let mut best: usize = 0;
    let mut k: usize = 1;
    while k < heap.len()
        invariant
            heap@ == h,
            h.len() > 0,
            best < h.len(),
            1 <= k <= h.len(),
            forall|j: int| 0 <= j < k ==> h[best as int].0 < (#[trigger] h[j]).0
                || (h[best as int].0 == h[j].0 && h[best as int].1 <= h[j].1),
        decreases h.len() - k,
    {
        let (bd, bu) = heap[best];
        let (cd, cu) = heap[k];
        if cd < bd || (cd == bd && cu < bu) {
            best = k;
        }
        k = k + 1;
    }
    let e = heap.swap_remove(best);
    proof {
        let last = h.len() - 1;
        assert(h[best as int] == e);
        assert forall|x: (u32, u32)| h.contains(x) && x != e implies #[trigger] heap@.contains(x) by {
            let j = choose|j: int| 0 <= j < h.len() && h[j] == x;
            if j == last {
                assert(heap@[best as int] == x);
            } else {
                assert(heap@[j] == x);
            }
        }
        assert forall|k: int| 0 <= k < heap@.len() implies h.contains(#[trigger] heap@[k]) by {
            if k == best {
                assert(heap@[k] == h[last]);
            } else {
                assert(heap@[k] == h[k]);
            }
        }
    }
    e
}

proof fn lemma_dij_init(g: TropicalSparseMatrix, s: int, d: Seq<u32>, h: Seq<(u32, u32)>)
    requires
        g.wf(),
        0 <= s < g.size,
        d.len() == g.size,
        d[s] == 0,
        forall|v: int| 0 <= v < g.size && v != s ==> #[trigger] d[v] == INF,
        h == seq![(0u32, s as u32)],
    ensures
        dij_inv(g, s, d, h, Set::empty(), -1),
{
    reveal(dij_inv);
    let p = seq![s];
    assert(is_walk(g, p));
    assert(walk_weight(g, p) == 0);
    assert(has_walk_of(g, s, s, 0)) by {
        reveal(has_walk_of);
    }
    assert(h[0] == (d[s], s as u32));
    assert forall|v: int| 0 <= v < g.size && #[trigger] d[v] < INF implies has_walk_of(g, s, v, d[v] as int) by {
        assert(v == s);
    }
    assert forall|v: int| 0 <= v < g.size && #[trigger] d[v] < INF && v != -1 implies Set::<int>::empty().contains(v) || h.contains((d[v], v as u32)) by {
        assert(v == s);
    }
}

/// A popped entry older than the distance it recorded changes nothing.
proof fn lemma_dij_stale(g: TropicalSparseMatrix, s: int, d: Seq<u32>, h: Seq<(u32, u32)>, h2: Seq<(u32, u32)>, done: Set<int>, e: (u32, u32))
    requires
        g.wf(),
        dij_inv(g, s, d, h, done, -1),
        h.contains(e),
        0 <= e.1 < g.size,
        e.0 > d[e.1 as int],
        forall|x: (u32, u32)| h.contains(x) && x != e ==> #[trigger] h2.contains(x),
        forall|k: int| 0 <= k < h2.len() ==> h.contains(#[trigger] h2[k]),
    ensures
        dij_inv(g, s, d, h2, done, -1),
{
    reveal(dij_inv);
    assert forall|k: int| 0 <= k < h2.len() implies (#[trigger] h2[k]).1 < g.size && d[h2[k].1 as int] <= h2[k].0 && h2[k].0 < INF by {
        let j = choose|j: int| 0 <= j < h.len() && h[j] == h2[k];
    }
    assert forall|u: int, k: int| #![trigger done.contains(u), h2[k]] done.contains(u) && 0 <= k < h2.len() implies d[u] <= h2[k].0 by {
        let j = choose|j: int| 0 <= j < h.len() && h[j] == h2[k];
        assert(done.contains(u) && 0 <= j < h.len());
    }
    assert forall|v: int| 0 <= v < g.size && #[trigger] d[v] < INF && v != -1 implies done.contains(v) || h2.contains((d[v], v as u32)) by {
        if !done.contains(v) {
            assert(h.contains((d[v], v as u32)));
            assert((v as u32) as int == v);
            assert((d[v], v as u32) != e);
        }
    }
}

/// A popped entry that records the current distance of its module starts
/// the relaxation of that module.
proof fn lemma_dij_fresh(g: TropicalSparseMatrix, s: int, d: Seq<u32>, h: Seq<(u32, u32)>, h2: Seq<(u32, u32)>, done: Set<int>, e: (u32, u32))
    requires
        g.wf(),
        dij_inv(g, s, d, h, done, -1),
        h.contains(e),
        0 <= e.1 < g.size,
        e.0 <= d[e.1 as int],
        forall|k: int| 0 <= k < h.len() ==> e.0 < (#[trigger] h[k]).0 || (e.0 == h[k].0 && e.1 <= h[k].1),
        forall|x: (u32, u32)| h.contains(x) && x != e ==> #[trigger] h2.contains(x),
        forall|k: int| 0 <= k < h2.len() ==> h.contains(#[trigger] h2[k]),
    ensures
        dij_inv(g, s, d, h2, done, e.1 as int),
        d[e.1 as int] == e.0,
        e.0 < INF,
        forall|x: int| #[trigger] done.contains(x) ==> d[x] <= e.0,
        forall|k: int| 0 <= k < h2.len() ==> e.0 <= (#[trigger] h2[k]).0,
{
    reveal(dij_inv);
    let i = choose|i: int| 0 <= i < h.len() && h[i] == e;
    assert(d[h[i].1 as int] <= h[i].0 && h[i].0 < INF);
    assert forall|x: int| #[trigger] done.contains(x) implies d[x] <= e.0 by {
        assert(done.contains(x) && 0 <= i < h.len());
    }
    assert forall|k: int| 0 <= k < h2.len() implies e.0 <= (#[trigger] h2[k]).0 by {
        let j = choose|j: int| 0 <= j < h.len() && h[j] == h2[k];
        assert(e.0 < h[j].0 || (e.0 == h[j].0 && e.1 <= h[j].1));
    }
    assert forall|k: int| 0 <= k < h2.len() implies (#[trigger] h2[k]).1 < g.size && d[h2[k].1 as int] <= h2[k].0 && h2[k].0 < INF by {
        let j = choose|j: int| 0 <= j < h.len() && h[j] == h2[k];
    }
    assert forall|u: int, k: int| #![trigger done.contains(u), h2[k]] done.contains(u) && 0 <= k < h2.len() implies d[u] <= h2[k].0 by {
        let j = choose|j: int| 0 <= j < h.len() && h[j] == h2[k];
        assert(done.contains(u) && 0 <= j < h.len());
    }
    assert forall|v: int| 0 <= v < g.size && #[trigger] d[v] < INF && v != e.1 as int implies done.contains(v) || h2.contains((d[v], v as u32)) by {
        if !done.contains(v) {
            assert(h.contains((d[v], v as u32)));
            assert((v as u32) as int == v);
            assert((d[v], v as u32) != e);
        }
    }
}

/// Lowering the distance of `v` to `d[u] + w` through the edge `u -> v`
/// and queueing it keeps the bookkeeping.
proof fn lemma_dij_improve(
    g: TropicalSparseMatrix,
    s: int,
    d: Seq<u32>,
    h: Seq<(u32, u32)>,
    done: Set<int>,
    u: int,
    v: int,
    cand: u32,
)
    requires
        g.wf(),
        dij_inv(g, s, d, h, done, u),
        0 <= u < g.size,
        0 <= v < g.size,
        d[u] < INF,
        forall|x: int| #[trigger] done.contains(x) ==> d[x] <= d[u],
        g.entry(u, v) < INF,
        cand == d[u] + g.entry(u, v),
        cand < d[v],
    ensures
        dij_inv(g, s, d.update(v, cand), h.push((cand, v as u32)), done, u),
        seq_sum(d.update(v, cand)) < seq_sum(d),
        d.update(v, cand)[u] == d[u],
        forall|x: int| #[trigger] done.contains(x) ==> d.update(v, cand)[x] <= d[u],
{
    reveal(dij_inv);
    let d2 = d.update(v, cand);
    let h2 = h.push((cand, v as u32));
    lemma_seq_sum_update(d, v, cand);
    lemma_walk_extend_weight(g, s, u, d[u] as int, v);
    assert(v != s);
    assert(d2[s] == d[s]);
    assert(v != u);
    assert(!done.contains(v));
    assert(h2[h.len() as int] == (cand, v as u32));
    assert forall|k: int| 0 <= k < h2.len() implies (#[trigger] h2[k]).1 < g.size && d2[h2[k].1 as int] <= h2[k].0 && h2[k].0 < INF by {
        if k < h.len() {
            assert(h2[k] == h[k]);
        }
    }
    assert forall|x: int| #[trigger] done.contains(x) implies 0 <= x < g.size && d2[x] < INF && relaxed(g, d2, x) by {
        reveal(relaxed);
        assert(relaxed(g, d, x));
        assert forall|y: int| 0 <= y < g.size implies d2[y] <= d2[x] + #[trigger] g.entry(x, y) by {
            assert(d[y] <= d[x] + g.entry(x, y));
        }
    }
    assert forall|v2: int| 0 <= v2 < g.size && #[trigger] d2[v2] < INF implies has_walk_of(g, s, v2, d2[v2] as int) by {
        if v2 != v {
            assert(d2[v2] == d[v2]);
        }
    }
    assert forall|v2: int| 0 <= v2 < g.size && #[trigger] d2[v2] < INF && v2 != u implies done.contains(v2) || h2.contains((d2[v2], v2 as u32)) by {
        if v2 == v {
            assert(h2[h.len() as int] == (d2[v2], v2 as u32));
        } else {
            assert(d2[v2] == d[v2]);
            if !done.contains(v2) {
                let j = choose|j: int| 0 <= j < h.len() && h[j] == (d[v2], v2 as u32);
                assert(h2[j] == h[j]);
            }
        }
    }
    assert forall|x: int, k: int| #![trigger done.contains(x), h2[k]] done.contains(x) && 0 <= k < h2.len() implies d2[x] <= h2[k].0 by {
        assert(x != v);
        assert(d2[x] == d[x]);
        if k < h.len() {
            assert(h2[k] == h[k]);
            assert(done.contains(x) && 0 <= k < h.len());
        } else {
            assert(d[x] <= d[u]);
        }
    }
}

/// Once every edge out of `u` is relaxed, `u` joins the finished modules.
proof fn lemma_dij_finish(g: TropicalSparseMatrix, s: int, d: Seq<u32>, h: Seq<(u32, u32)>, done: Set<int>, u: int)
    requires
        g.wf(),
        dij_inv(g, s, d, h, done, u),
        0 <= u < g.size,
        d[u] < INF,
        forall|k: int| 0 <= k < h.len() ==> d[u] <= (#[trigger] h[k]).0,
        forall|j: int| 0 <= j < g.rows@[u]@.len()
            ==> d[(#[trigger] g.rows@[u]@[j]).0 as int] <= d[u] + g.rows@[u]@[j].1,
    ensures
        dij_inv(g, s, d, h, done.insert(u), -1),
{
    reveal(dij_inv);
    let row = g.rows@[u]@;
    assert(row_wf(row, g.size as int));
    assert(relaxed(g, d, u)) by {
        reveal(relaxed);
        assert forall|v: int| 0 <= v < g.size implies d[v] <= d[u] + #[trigger] g.entry(u, v) by {
            lemma_lookup_range(row, g.size as int, v);
            if exists|k: int| 0 <= k < row.len() && row[k].0 == v {
                let k = choose|k: int| 0 <= k < row.len() && row[k].0 == v;
                lemma_lookup_at(row, g.size as int, k);
                assert(d[row[k].0 as int] <= d[u] + row[k].1);
            }
        }
    }
    let done2 = done.insert(u);
    assert forall|x: int| #[trigger] done2.contains(x) implies 0 <= x < g.size && d[x] < INF && relaxed(g, d, x) by {
        if x != u {
            assert(done.contains(x));
        }
    }
    assert forall|x: int, k: int| #![trigger done2.contains(x), h[k]] done2.contains(x) && 0 <= k < h.len() implies d[x] <= h[k].0 by {
        if x != u {
            assert(done.contains(x));
        }
    }
    assert forall|v: int| 0 <= v < g.size && #[trigger] d[v] < INF && v != -1 implies done2.contains(v) || h.contains((d[v], v as u32)) by {
        if v != u && !done.contains(v) {
            assert(h.contains((d[v], v as u32)));
        }
    }
}

proof fn lemma_dij_walk_bound(g: TropicalSparseMatrix, s: int, d: Seq<u32>, done: Set<int>, p: Seq<int>)
    requires
        g.wf(),
        dij_inv(g, s, d, Seq::empty(), done, -1),
        is_walk(g, p),
        p[0] == s,
    ensures
        d[p.last()] <= walk_weight(g, p),
    decreases p.len(),
{
    reveal(dij_inv);
    if p.len() == 1 {
        assert(p.last() == s);
    } else {
        let q = p.drop_last();
        assert(is_walk(g, q)) by {
            assert forall|k: int| 0 <= k < q.len() - 1 implies g.entry(#[trigger] q[k], q[k + 1]) < INF by {
                assert(q[k] == p[k] && q[k + 1] == p[k + 1]);
            }
        }
        lemma_dij_walk_bound(g, s, d, done, q);
        let x = q.last();
        let y = p.last();
        assert(p[p.len() - 2] == x);
        assert(0 <= x < g.size && 0 <= y < g.size);
        assert(row_wf(g.rows@[x]@, g.size as int));
        lemma_lookup_range(g.rows@[x]@, g.size as int, y);
        if d[x] < INF {
            assert(done.contains(x) || Seq::<(u32, u32)>::empty().contains((d[x], x as u32)));
            assert(relaxed(g, d, x));
            reveal(relaxed);
            assert(d[y] <= d[x] + g.entry(x, y));
        }
    }
}

proof fn lemma_dij_final(g: TropicalSparseMatrix, s: int, d: Seq<u32>, done: Set<int>)
    requires
        g.wf(),
        dij_inv(g, s, d, Seq::empty(), done, -1),
    ensures
        is_sssp(g, s, d),
{
    let n = g.size as nat;
    assert(d.len() == g.size) by {
        reveal(dij_inv);
    }
    assert forall|v: int| 0 <= v < g.size implies cheapest(g@, n, s, v, #[trigger] d[v] as int) by {
        reveal(dij_inv);
        if d[v] < INF {
            assert(has_walk_of(g, s, v, d[v] as int));
            reveal(has_walk_of);
            let p = choose|p: Seq<int>| #[trigger] is_walk(g, p) && p[0] == s && p.last() == v && walk_weight(g, p) == d[v];
            lemma_walk_path(g, p);
            assert(is_path(g@, n, p) && p[0] == s && p.last() == v && path_weight(g@, p) == d[v]);
        }
        assert forall|p: Seq<int>| #[trigger] is_path(g@, n, p) && p[0] == s && p.last() == v implies d[v] <= path_weight(g@, p) by {
            lemma_walk_path(g, p);
            lemma_dij_walk_bound(g, s, d, done, p);
        }
    }
}

/// The tropical closure and Dijkstra agree: in any table of cheapest path
/// weights (such as the closure's result), row `s` equals the distances
/// Dijkstra computes from `s`.
pub proof fn lemma_closure_agrees_with_dijkstra(g: TropicalSparseMatrix, c: Seq<Seq<int>>, s: int, d: Seq<u32>)
    requires
        g.wf(),
        0 <= s < g.size,
        cheapest_table(g@, g.size as nat, c),
        is_sssp(g, s, d),
    ensures
        forall|v: int| 0 <= v < g.size ==> c[s][v] == #[trigger] d[v],
{
    assert forall|v: int| 0 <= v < g.size implies c[s][v] == #[trigger] d[v] by {
        assert(cheapest(g@, g.size as nat, s, v, c[s][v]));
        assert(cheapest(g@, g.size as nat, s, v, d[v] as int));
        lemma_cheapest_unique(g@, g.size as nat, s, v, c[s][v], d[v] as int);
    }
}

/// Relax every edge out of `u`, whose distance `dist[u]` is final.
fn relax_edges(
    graph: &TropicalSparseMatrix,
    source: usize,
    u: usize,
    du: u32,
    dist: &mut Vec<u32>,
    heap: &mut Vec<(u32, u32)>,
    done: Ghost<Set<int>>,
)
    requires
        graph.wf(),
        source < graph.size,
        u < graph.size,
        dij_inv(*graph, source as int, old(dist)@, old(heap)@, done@, u as int),
        old(dist)@[u as int] == du,
        du < INF,
        forall|x: int| #[trigger] done@.contains(x) ==> old(dist)@[x] <= du,
        forall|k: int| 0 <= k < old(heap)@.len() ==> du <= (#[trigger] old(heap)@[k]).0,
    ensures
        dij_inv(*graph, source as int, final(dist)@, final(heap)@, done@.insert(u as int), -1),
        seq_sum(final(dist)@) <= seq_sum(old(dist)@),
        final(heap)@.len() >= old(heap)@.len(),
        final(heap)@.len() > old(heap)@.len() ==> seq_sum(final(dist)@) < seq_sum(old(dist)@),
{
    let ghost g = *graph;
    let ghost s = source as int;
    let ghost done = done@;
    let ghost d0 = dist@;
    let ghost h0 = heap@;
    let n = graph.size;
    let row = &graph.rows[u];
    proof {
        assert(row_wf(row@, n as int));
        reveal(dij_inv);
    }
    let mut k: usize = 0;
    while k < row.len()
        invariant
            g == *graph,
            s == source as int,
            graph.wf(),
            n == graph.size,
            u < n,
            row@ == graph.rows@[u as int]@,
            row_wf(row@, n as int),
            k <= row@.len(),
            dist@.len() == n,
            dij_inv(g, s, dist@, heap@, done, u as int),
            dist@[u as int] == du,
            du < INF,
            forall|x: int| #[trigger] done.contains(x) ==> dist@[x] <= du,
            forall|j: int| 0 <= j < heap@.len() ==> du <= (#[trigger] heap@[j]).0,
            forall|j: int| 0 <= j < k ==> dist@[(#[trigger] row@[j]).0 as int] <= du + row@[j].1,
            seq_sum(dist@) <= seq_sum(d0),
            heap@.len() >= h0.len(),
            heap@.len() > h0.len() ==> seq_sum(dist@) < seq_sum(d0),
        decreases row@.len() - k,
    {
        let (col, w) = row[k];
        let v = col as usize;
        let cand = du + w;
        proof {
            lemma_lookup_at(row@, n as int, k as int);
        }
        if cand < dist[v] {
            let ghost d1 = dist@;
            let ghost h1 = heap@;
            proof {
                lemma_dij_improve(g, s, d1, h1, done, u as int, v as int, cand);
            }
            dist.set(v, cand);
            heap.push((cand, col));
            proof {
                assert(dist@ == d1.update(v as int, cand));
                assert forall|j: int| 0 <= j < heap@.len() implies du <= (#[trigger] heap@[j]).0 by {
                    if j < h1.len() {
                        assert(heap@[j] == h1[j]);
                    }
                }
                assert forall|j: int| 0 <= j < k + 1 implies dist@[(#[trigger] row@[j]).0 as int] <= du + row@[j].1 by {
                    if j < k {
                        assert(d1[row@[j].0 as int] <= du + row@[j].1);
                    }
                }
            }
        }
        k = k + 1;
    }
    proof {
        lemma_dij_finish(g, s, dist@, heap@, done, u as int);
    }
}

/// Exact shortest accumulated-weight paths from `source` to every module.
///
/// Entry `v` is the cheapest accumulated weight of a walk along stored
/// edges from `source` to `v`, or INF when every walk weighs INF or more.
pub fn dijkstra(graph: &TropicalSparseMatrix, source: usize) -> (dist: Vec<u32>)
    requires
        graph.wf(),
        source < graph.size,
    ensures
        is_sssp(*graph, source as int, dist@),
{
    let n = graph.size;
    let ghost g = *graph;
    let ghost s = source as int;
    let mut dist = inf_vec(n);
    dist.set(source, 0);
    let mut heap: Vec<(u32, u32)> = Vec::new();
    heap.push((0u32, source as u32));
    let ghost mut done: Set<int> = Set::empty();
    proof {
        lemma_dij_init(g, s, dist@, heap@);
    }
    while heap.len() > 0
        invariant
            g == *graph,
            s == source as int,
            graph.wf(),
            n == graph.size,
            source < n,
            dist@.len() == n,
            dij_inv(g, s, dist@, heap@, done, -1),
        decreases seq_sum(dist@), heap@.len(),
    {
        let ghost h0 = heap@;
        let e = pop_min(&mut heap);
        let (d, uu) = e;
        proof {
            reveal(dij_inv);
            let i = choose|i: int| 0 <= i < h0.len() && h0[i] == e;
            assert(h0[i].1 < n);
        }
        let u = uu as usize;
        if d > dist[u] {
            proof {
                lemma_dij_stale(g, s, dist@, h0, heap@, done, e);
            }
        } else {
            proof {
                lemma_dij_fresh(g, s, dist@, h0, heap@, done, e);
            }
            relax_edges(graph, source, u, d, &mut dist, &mut heap, Ghost(done));
            proof {
                done = done.insert(u as int);
            }
        }
    }
    proof {
        assert(heap@ =~= Seq::<(u32, u32)>::empty());
        lemma_dij_final(g, s, dist@, done);
    }
    dist
}

/// Row `r` of a flat row-major table with `n` columns.
pub open spec fn flat_row(a: Seq<u32>, n: int, r: int) -> Seq<u32> {
    a.subrange(r * n, r * n + n)
}

proof fn lemma_row_offsets(r: int, hi: int, n: int)
    requires
        0 <= r < hi,
        0 <= n,
    ensures
        0 <= r * n,
        r * n + n == (r + 1) * n,
        r * n + n <= hi * n,
{
    assert(0 <= r * n) by (nonlinear_arith)
        requires
            0 <= r,
            0 <= n,
    ;
    assert(r * n + n == (r + 1) * n) by (nonlinear_arith);
    assert((r + 1) * n <= hi * n) by (nonlinear_arith)
        requires
            r + 1 <= hi,
            0 <= n,
    ;
}

/// Append the distances from each source in `lo..hi`, one row of `n`
/// entries per source.
fn dijkstra_rows(graph: &TropicalSparseMatrix, lo: usize, hi: usize, out: &mut Vec<u32>)
    requires
        graph.wf(),
        lo <= hi <= graph.size,
        hi * graph.size <= usize::MAX,
        old(out)@.len() == lo * graph.size,
    ensures
        final(out)@.len() == hi * graph.size,
        final(out)@.subrange(0, lo * graph.size) == old(out)@,
        forall|r: int| lo <= r < hi ==> is_sssp(*graph, r, #[trigger] flat_row(final(out)@, graph.size as int, r)),
{
    let n = graph.size;
    let ghost start = out@;
    let mut src: usize = lo;
    while src < hi
        invariant
            graph.wf(),
            n == graph.size,
            lo <= src <= hi <= n,
            hi * n <= usize::MAX,
            start.len() == lo * n,
            out@.len() == src * n,
            out@.subrange(0, lo * n) == start,
            forall|r: int| lo <= r < src ==> is_sssp(*graph, r, #[trigger] flat_row(out@, n as int, r)),
        decreases hi - src,
    {
        proof {
            lemma_row_offsets(src as int, hi as int, n as int);
        }
        let row = dijkstra(graph, src);
        let ghost before = out@;
        let mut c: usize = 0;
        while c < n
            invariant
                n == graph.size,
                row@.len() == n,
                src < hi,
                hi * n <= usize::MAX,
                src * n + n <= hi * n,
                before.len() == src * n,
                c <= n,
                out@ == before + row@.subrange(0, c as int),
            decreases n - c,
        {
            out.push(row[c]);
            proof {
                assert(row@.subrange(0, c as int + 1) == row@.subrange(0, c as int).push(row@[c as int]));
            }
            c = c + 1;
        }
        proof {
            assert(row@.subrange(0, n as int) == row@);
            let cur = out@;
            assert(cur == before + row@);
            assert(flat_row(cur, n as int, src as int) =~= row@);
            assert(cur.subrange(0, lo * n) =~= before.subrange(0, lo * n)) by {
                assert(lo * n <= src * n) by (nonlinear_arith)
                    requires
                        lo <= src,
                ;
            }
            assert forall|r: int| lo <= r < src + 1 implies is_sssp(*graph, r, #[trigger] flat_row(cur, n as int, r)) by {
                if r < src {
                    lemma_row_offsets(r, src as int, n as int);
                    assert(flat_row(cur, n as int, r) =~= flat_row(before, n as int, r));
                }
            }
            assert(cur.len() == (src + 1) * n);
        }
        src = src + 1;
    }
}

/// All-pairs distances, flat and row-major: row `i` is `dijkstra(graph, i)`.
/// Rows are computed in blocks of `ceil(n / threads)` sources.
pub fn dijkstra_all_pairs(graph: &TropicalSparseMatrix, threads: usize) -> (out: Vec<u32>)
    requires
        graph.wf(),
        graph.size * graph.size <= usize::MAX,
    ensures
        out@.len() == graph.size * graph.size,
        forall|i: int| 0 <= i < graph.size ==> is_sssp(*graph, i, #[trigger] flat_row(out@, graph.size as int, i)),
{
    let n = graph.size;
    let t = if threads > 1 { threads } else { 1 };
    let chunk_rows = if n == 0 {
        0
    } else {
        assert(((n - 1) as usize) / t <= n - 1) by (nonlinear_arith)
            requires
                t >= 1,
                n >= 1,
        ;
        (n - 1) / t + 1
    };
    let mut out: Vec<u32> = Vec::new();
    let mut start: usize = 0;
    proof {
        assert(0 * n == 0) by (nonlinear_arith);
    }
    while start < n
        invariant
            graph.wf(),
            n == graph.size,
            n * n <= usize::MAX,
            chunk_rows >= 1 || n == 0,
            start <= n,
            out@.len() == start * n,
            forall|i: int| 0 <= i < start ==> is_sssp(*graph, i, #[trigger] flat_row(out@, n as int, i)),
        decreases n - start,
    {
        let end = if chunk_rows >= n - start { n } else { start + chunk_rows };
        proof {
            assert(end * n <= n * n) by (nonlinear_arith)
                requires
                    end <= n,
            ;
        }
        let ghost before = out@;
        dijkstra_rows(graph, start, end, &mut out);
        proof {
            assert forall|i: int| 0 <= i < end implies is_sssp(*graph, i, #[trigger] flat_row(out@, n as int, i)) by {
                if i < start {
                    lemma_row_offsets(i, start as int, n as int);
                    assert(start * n <= end * n) by (nonlinear_arith)
                        requires
                            start <= end,
                    ;
                    assert(out@.subrange(0, start * n) == before);
                    assert(flat_row(out@, n as int, i) =~= flat_row(before, n as int, i));
                }
            }
        }
        start = end;
    }
    out
}

/// Over the first `p` cells of the `n x n` tables, the cells where either
/// side is finite, and among them those where the two sides differ.
pub open spec fn agreement_upto(oracle: Seq<u32>, c: Seq<Seq<int>>, n: nat, p: nat) -> (nat, nat)
    decreases p,
{
    if p == 0 || n == 0 {
        (0, 0)
    } else {
        let prev = agreement_upto(oracle, c, n, (p - 1) as nat);
        let i = (p - 1) / n as int;
        let j = (p - 1) % n as int;
        let o = oracle[(p - 1) as int] as int;
        let t = c[i][j];
        if o < INF || t < INF {
            (prev.0 + 1, prev.1 + if o != t { 1nat } else { 0nat })
        } else {
            prev
        }
    }
}

/// Compare flat all-pairs distances with the closure: (cells where either
/// is finite, cells among them that differ).
pub fn compare_with_oracle(oracle: &Vec<u32>, closure: &TropicalSparseMatrix) -> (res: (usize, usize))
    requires
        closure.wf(),
        oracle@.len() == closure.size * closure.size,
    ensures
        (res.0 as nat, res.1 as nat) == agreement_upto(oracle@, closure@, closure.size as nat, (closure.size * closure.size) as nat),
{
    let n = closure.size;
    let total = oracle.len();
    let ghost nn = n as nat;
    let mut checked: usize = 0;
    let mut mismatches: usize = 0;
    let mut i: usize = 0;
    proof {
        assert(0 * nn == 0) by (nonlinear_arith);
    }
    while i < n
        invariant
            n == closure.size,
            nn == n,
            closure.wf(),
            oracle@.len() == n * n,
            total == oracle@.len(),
            i <= n,
            (checked as nat, mismatches as nat) == agreement_upto(oracle@, closure@, nn, (i * n) as nat),
            checked <= i * n,
            mismatches <= checked,
        decreases n - i,
    {
        let mut j: usize = 0;
        proof {
            assert(i * n + n <= n * n) by (nonlinear_arith)
                requires
                    i < n,
            ;
        }
        while j < n
            invariant
                n == closure.size,
                nn == n,
                closure.wf(),
                oracle@.len() == n * n,
                total == oracle@.len(),
                i < n,
                j <= n,
                i * n + n <= n * n,
                (checked as nat, mismatches as nat) == agreement_upto(oracle@, closure@, nn, (i * n + j) as nat),
                checked <= i * n + j,
                mismatches <= checked,
            decreases n - j,
        {
            let d_oracle = oracle[i * n + j];
            let d_trop = closure.get(i, j);
            proof {
                let p = i * n + j;
                assert(p / n as int == i && p % n as int == j) by {
                    vstd::arithmetic::div_mod::lemma_fundamental_div_mod_converse(p, n as int, i as int, j as int);
                }
            }
            if d_oracle < INF || d_trop < INF {
                checked = checked + 1;
                if d_oracle != d_trop {
                    mismatches = mismatches + 1;
                }
            }
            j = j + 1;
        }
        proof {
            assert(i * n + n == (i + 1) * n) by (nonlinear_arith);
        }
        i = i + 1;
    }
    (checked, mismatches)
}

/// No mismatch between the closure and all-pairs Dijkstra: with every row
/// of `oracle` computed by Dijkstra and `c` a table of cheapest path
/// weights (the closure's result), the comparison finds no differing cell.
pub proof fn lemma_benchmark_exact(g: TropicalSparseMatrix, c: Seq<Seq<int>>, oracle: Seq<u32>, p: nat)
    requires
        g.wf(),
        cheapest_table(g@, g.size as nat, c),
        oracle.len() == g.size * g.size,
        forall|i: int| 0 <= i < g.size ==> is_sssp(g, i, #[trigger] flat_row(oracle, g.size as int, i)),
        p <= g.size * g.size,
    ensures
        agreement_upto(oracle, c, g.size as nat, p).1 == 0,
    decreases p,
{
    let n = g.size as nat;
    if p > 0 && n > 0 {
        lemma_benchmark_exact(g, c, oracle, (p - 1) as nat);
        let q = (p - 1) as int;
        let i = q / n as int;
        let j = q % n as int;
        vstd::arithmetic::div_mod::lemma_fundamental_div_mod(q, n as int);
        assert(0 <= i < n && 0 <= j < n) by {
            vstd::arithmetic::div_mod::lemma_div_pos_is_pos(q, n as int);
            vstd::arithmetic::div_mod::lemma_mod_pos_bound(q, n as int);
            assert(i < n) by (nonlinear_arith)
                requires
                    q == n * i + j,
                    0 <= j,
                    q < n * n,
                    n > 0,
            ;
        }
        let row = flat_row(oracle, n as int, i);
        lemma_row_offsets(i, n as int, n as int);
        assert(is_sssp(g, i, row));
        lemma_closure_agrees_with_dijkstra(g, c, i, row);
        assert(row[j] == oracle[i * n + j]);
        assert(i * n + j == q) by (nonlinear_arith)
            requires
                q == n * i + j,
        ;
    }
}

} // verus!
