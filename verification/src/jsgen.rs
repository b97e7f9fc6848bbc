//! Layout of a synthetic JS project mirroring the in-memory scale graph:
//! each module's target byte size and the modules it imports, so that
//! external bundlers can consume the same project we solve. Writing the
//! files is left to the caller.
use vstd::prelude::*;
use crate::graphgen::{
    Rng, xorshift, scramble, seed_state, generate_scale_project, generate_scale_project_within, generation_ends,
    scale_model, import_pairs, cross_imports, after_backbone, backbone_len,
};
use crate::tropical::TropicalSparseMatrix;
use crate::splitter::strictly_increasing;
use crate::tropical::{INF, row_wf, lemma_lookup_range};

verus! {

pub struct JsProjectStats {
    pub files: usize,
    pub imports: usize,
    pub bytes: u64,
}

/// State after `k` size draws from `st`, and the sizes drawn.
pub open spec fn js_sizes(k: nat, st: u64) -> (u64, Seq<int>)
    decreases k,
{
    if k == 0 {
        (st, Seq::empty())
    } else {
        let prev = js_sizes((k - 1) as nat, st);
        let s = xorshift(prev.0);
        (s, prev.1.push(500 + (scramble(s) % 44500) as int))
    }
}

/// `n` module sizes drawn from `rng`.
fn draw_sizes(rng: &mut Rng, node_count: usize) -> (sizes: Vec<usize>)
    ensures
        (final(rng).state(), sizes@.map_values(|x: usize| x as int)) == js_sizes(node_count as nat, old(rng).state()),
        forall|j: int| 0 <= j < node_count ==> 500 <= #[trigger] sizes@[j] < 45000,
        sizes@.len() == node_count,
{
    let ghost st0 = rng.state();
    let mut sizes: Vec<usize> = Vec::new();
    let mut i: usize = 0;
    proof {
        assert(sizes@.map_values(|x: usize| x as int) =~= Seq::<int>::empty());
    }
    while i < node_count
        invariant
            i <= node_count,
            sizes@.len() == i,
            (rng.state(), sizes@.map_values(|x: usize| x as int)) == js_sizes(i as nat, st0),
            forall|j: int| 0 <= j < i ==> 500 <= #[trigger] sizes@[j] < 45000,
        decreases node_count - i,
    {
        let ghost before = sizes@;
        let d = rng.below(44_500);
        sizes.push(500 + d as usize);
        proof {
            assert(sizes@[i as int] == 500 + d);
            assert(sizes@.map_values(|x: usize| x as int) =~= before.map_values(|x: usize| x as int).push(500 + d as int));
        }
        i = i + 1;
    }
    sizes
}

/// The modules that module `i` of table `tab` imports, ascending: its
/// finite entries off the diagonal.
pub open spec fn imports_in_row(tab: Seq<Seq<int>>, n: nat, i: int, j: int) -> bool {
    0 <= j < n && j != i && tab[i][j] < INF
}

/// Module sizes and the import lists of table `m`: module `i` imports the
/// modules at the finite entries off the diagonal of row `i`, ascending; its
/// byte size (500 B .. 45 KB) is the `i`-th draw of the seed's random stream.
fn project_layout(m: &TropicalSparseMatrix, node_count: usize, seed: u64) -> (res: (Vec<usize>, Vec<Vec<usize>>))
    requires
        m.wf(),
        m.size == node_count,
    ensures
        res.0@.len() == node_count,
        res.0@.map_values(|x: usize| x as int) == js_sizes(node_count as nat, seed_state(seed)).1,
        forall|i: int| 0 <= i < node_count ==> 500 <= #[trigger] res.0@[i] < 45000,
        res.1@.len() == node_count,
        forall|i: int, j: usize| 0 <= i < node_count ==> (#[trigger] res.1@[i]@.contains(j)
            <==> imports_in_row(m@, node_count as nat, i, j as int)),
        forall|i: int| 0 <= i < node_count ==> strictly_increasing(#[trigger] res.1@[i]@),
{
    let mut rng = Rng::new(seed);
    let sizes = draw_sizes(&mut rng, node_count);
    let ghost tab = m@;
    let mut imports: Vec<Vec<usize>> = Vec::new();
    let mut i: usize = 0;
    while i < node_count
        invariant
            m.wf(),
            m.size == node_count,
            tab == m@,
            i <= node_count,
            imports@.len() == i,
            forall|r: int, j: usize| 0 <= r < i ==> (#[trigger] imports@[r]@.contains(j)
                <==> imports_in_row(tab, node_count as nat, r, j as int)),
            forall|r: int| 0 <= r < i ==> strictly_increasing(#[trigger] imports@[r]@),
        decreases node_count - i,
    {
        let row = &m.rows[i];
        proof {
            assert(row_wf(row@, node_count as int));
        }
        let mut list: Vec<usize> = Vec::new();
        let mut q: usize = 0;
        while q < row.len()
            invariant
                m.wf(),
                m.size == node_count,
                tab == m@,
                i < node_count,
                row@ == m.rows@[i as int]@,
                row_wf(row@, node_count as int),
                q <= row@.len(),
                strictly_increasing(list@),
                forall|p: int| 0 <= p < list@.len() ==> (#[trigger] list@[p]) < (if q < row@.len() { row@[q as int].0 as int } else { node_count as int }),
                forall|j: usize| #[trigger] list@.contains(j) <==> (exists|p: int| 0 <= p < q && row@[p].0 == j
                    && j != i),
            decreases row@.len() - q,
        {
            let col = row[q].0 as usize;
            let ghost before = list@;
            if col != i {
                list.push(col);
            }
            proof {
                if q + 1 < row@.len() {
                    assert(row@[q as int].0 < row@[q + 1].0);
                }
                assert(col < node_count);
                assert forall|p: int| 0 <= p < list@.len() implies (#[trigger] list@[p]) < (if q + 1 < row@.len() { row@[q + 1].0 as int } else { node_count as int }) by {
                    if p < before.len() {
                        assert(list@[p] == before[p]);
                    }
                }
                assert forall|j: usize| #[trigger] list@.contains(j) <==> (exists|p: int| 0 <= p < q + 1 && row@[p].0 == j
                    && j != i) by {
                    if list@.contains(j) {
                        let p = choose|p: int| 0 <= p < list@.len() && list@[p] == j;
                        if p < before.len() {
                            assert(before[p] == j);
                            assert(before.contains(j));
                        } else {
                            assert(row@[q as int].0 == j);
                        }
                    }
                    if exists|p: int| 0 <= p < q + 1 && row@[p].0 == j && j != i {
                        let p = choose|p: int| 0 <= p < q + 1 && row@[p].0 == j && j != i;
                        if p < q {
                            assert(before.contains(j));
                            let t = choose|t: int| 0 <= t < before.len() && before[t] == j;
                            assert(list@[t] == j);
                        } else {
                            assert(list@[before.len() as int] == j);
                        }
                    }
                }
            }
            q = q + 1;
        }
        proof {
            assert forall|j: usize| #[trigger] list@.contains(j) <==> imports_in_row(tab, node_count as nat, i as int, j as int) by {
                lemma_lookup_range(row@, node_count as int, j as int);
                if exists|p: int| 0 <= p < row@.len() && row@[p].0 == j {
                    let p = choose|p: int| 0 <= p < row@.len() && row@[p].0 == j;
                    assert(row@[p].0 < node_count);
                }
                if j < node_count {
                    assert(tab[i as int][j as int] == m.entry(i as int, j as int));
                }
            }
        }
        let ghost before = imports@;
        imports.push(list);
        proof {
            assert forall|r: int, j: usize| 0 <= r < i + 1 implies (#[trigger] imports@[r]@.contains(j)
                <==> imports_in_row(tab, node_count as nat, r, j as int)) by {
                if r < i {
                    assert(imports@[r] == before[r]);
                }
            }
            assert forall|r: int| 0 <= r < i + 1 implies strictly_increasing(#[trigger] imports@[r]@) by {
                if r < i {
                    assert(imports@[r] == before[r]);
                }
            }
        }
        i = i + 1;
    }
    (sizes, imports)
}

/// Module sizes and imports of a synthetic JS project that mirrors the
/// in-memory scale graph: module `i` imports exactly the modules it imports
/// in `generate_scale_project(node_count, edge_count, seed)`, in ascending
/// order; its byte size (500 B .. 45 KB) is the `i`-th draw of the seed's
/// random stream.
pub fn plan_js_project(node_count: usize, edge_count: usize, seed: u64) -> (res: (Vec<usize>, Vec<Vec<usize>>))
    requires
        1 <= node_count <= u32::MAX,
        generation_ends(node_count as nat, edge_count as nat, seed),
    ensures
        res.0@.len() == node_count,
        res.0@.map_values(|x: usize| x as int) == js_sizes(node_count as nat, seed_state(seed)).1,
        forall|i: int| 0 <= i < node_count ==> 500 <= #[trigger] res.0@[i] < 45000,
        res.1@.len() == node_count,
        forall|i: int, j: usize| 0 <= i < node_count ==> (#[trigger] res.1@[i]@.contains(j)
            <==> imports_in_row(scale_model(node_count as nat, edge_count as nat, seed), node_count as nat, i, j as int)),
        forall|i: int| 0 <= i < node_count ==> strictly_increasing(#[trigger] res.1@[i]@),
        import_pairs(scale_model(node_count as nat, edge_count as nat, seed), node_count as nat).len() == edge_count,
{
    let m = generate_scale_project(node_count, edge_count, seed);
    project_layout(&m, node_count, seed)
}

/// `plan_js_project` with at most `max_rounds` draws of a random cross
/// import (see `generate_scale_project_within`): `None` when the graph's
/// random phase needs more rounds.
pub fn plan_js_project_within(node_count: usize, edge_count: usize, seed: u64, max_rounds: u64) -> (r: Option<(Vec<usize>, Vec<Vec<usize>>)>)
    requires
        1 <= node_count <= u32::MAX,
    ensures
        r is Some <==> cross_imports(
            node_count as u64,
            edge_count as nat,
            after_backbone(node_count as nat, edge_count as nat, seed).0,
            after_backbone(node_count as nat, edge_count as nat, seed).1,
            backbone_len(node_count as nat, edge_count as nat),
            max_rounds as nat,
        ) is Some,
        r matches Some(res) ==> {
            &&& generation_ends(node_count as nat, edge_count as nat, seed)
            &&& res.0@.len() == node_count
            &&& res.0@.map_values(|x: usize| x as int) == js_sizes(node_count as nat, seed_state(seed)).1
            &&& res.1@.len() == node_count
            &&& forall|i: int, j: usize| 0 <= i < node_count ==> (#[trigger] res.1@[i]@.contains(j)
                <==> imports_in_row(scale_model(node_count as nat, edge_count as nat, seed), node_count as nat, i, j as int))
            &&& forall|i: int| 0 <= i < node_count ==> strictly_increasing(#[trigger] res.1@[i]@)
        },
{
    match generate_scale_project_within(node_count, edge_count, seed, max_rounds) {
        Some(m) => Some(project_layout(&m, node_count, seed)),
        None => None,
    }
}

} // verus!
