//! Synthetic enterprise-monorepo graph generator. Zero dependencies:
//! deterministic xorshift64* RNG so every benchmark run is reproducible.
use vstd::prelude::*;
use crate::semiring::{tmin, with_diag};
use crate::tropical::{TropicalSparseMatrix, INF, finite_cols, finite_upto, lemma_finite_upto_row};

verus! {

/// One xorshift64 step of the generator state.
pub open spec fn xorshift(x: u64) -> u64 {
    let a = x ^ (x >> 12u64);
    let b = a ^ (a << 25u64);
    b ^ (b >> 27u64)
}

/// The output scrambler of xorshift64*.
pub open spec fn scramble(x: u64) -> u64 {
    x.wrapping_mul(0x2545F4914F6CDD1Du64)
}

pub struct Rng(u64);

impl Rng {
    /// The generator's internal state.
    pub closed spec fn state(&self) -> u64 {
        self.0
    }

    /// A generator seeded with `seed`; a zero seed is replaced by 1, which
    /// xorshift could never leave.
    pub fn new(seed: u64) -> (r: Self)
        ensures
            r.state() == (if seed == 0 { 1 } else { seed }),
    {
        if seed == 0 {
            Rng(1)
        } else {
            Rng(seed)
        }
    }

    /// Advance the state by one xorshift step and return it scrambled.
    pub fn next_u64(&mut self) -> (out: u64)
        ensures
            final(self).state() == xorshift(old(self).state()),
            out == scramble(final(self).state()),
    {
        let mut x = self.0;
        x = x ^ (x >> 12u64);
        x = x ^ (x << 25u64);
        x = x ^ (x >> 27u64);
        self.0 = x;
        x.wrapping_mul(0x2545F4914F6CDD1Du64)
    }

    /// The next draw reduced below `bound`.
    pub fn below(&mut self, bound: u64) -> (out: u64)
        requires
            bound > 0,
        ensures
            final(self).state() == xorshift(old(self).state()),
            out == scramble(final(self).state()) % bound,
    {
        self.next_u64() % bound
    }
}

/// `tab` with the edge `r -> c` lowered to `w`, kept if already lighter.
pub open spec fn set_min(tab: Seq<Seq<int>>, r: int, c: int, w: int) -> Seq<Seq<int>> {
    tab.update(r, tab[r].update(c, tmin(tab[r][c], w)))
}

/// Weight of an import made from a raw draw: 500 B up to 45 KB.
pub open spec fn draw_weight(x: u64) -> int {
    500 + (x % 44500) as int
}

/// `n` modules, no imports, every module depending on itself at cost 0.
pub open spec fn empty_graph(n: nat) -> Seq<Seq<int>> {
    with_diag(Seq::new(n, |i: int| Seq::new(n, |j: int| INF as int)), n)
}

/// The graph without imports has one finite entry per row: the diagonal.
proof fn lemma_empty_graph_count(n: nat, i: int)
    requires
        0 <= i <= n,
    ensures
        finite_upto(empty_graph(n), n, i) == i,
    decreases i,
{
    if i > 0 {
        lemma_empty_graph_count(n, i - 1);
        assert(finite_cols(empty_graph(n)[i - 1], n) =~= set![i - 1]);
    }
}

/// State and table after placing the backbone imports `i -> i + 1` for
/// `i < k`, one weight drawn per import.
pub open spec fn backbone(k: nat, st: u64, tab: Seq<Seq<int>>) -> (u64, Seq<Seq<int>>)
    decreases k,
{
    if k == 0 {
        (st, tab)
    } else {
        let prev = backbone((k - 1) as nat, st, tab);
        let s = xorshift(prev.0);
        (s, set_min(prev.1, k - 1, k as int, draw_weight(scramble(s))))
    }
}

/// The random cross-import phase: draw an importer and an imported module;
/// equal draws are skipped, otherwise a weight is drawn and the import set,
/// counting only imports that were absent. Ends with the table once `e`
/// imports are placed; `None` when `fuel` rounds do not suffice.
pub open spec fn cross_imports(n: u64, e: nat, st: u64, tab: Seq<Seq<int>>, placed: nat, fuel: nat) -> Option<Seq<Seq<int>>>
    decreases fuel,
{
    if placed >= e {
        Some(tab)
    } else if fuel == 0 {
        None
    } else {
        let s1 = xorshift(st);
        let s2 = xorshift(s1);
        let from = (scramble(s1) % n) as int;
        let to = (scramble(s2) % n) as int;
        if from == to {
            cross_imports(n, e, s2, tab, placed, (fuel - 1) as nat)
        } else {
            let s3 = xorshift(s2);
            let fresh = tab[from][to] >= INF;
            cross_imports(
                n,
                e,
                s3,
                set_min(tab, from, to, draw_weight(scramble(s3))),
                if fresh { placed + 1 } else { placed },
                (fuel - 1) as nat,
            )
        }
    }
}

/// Number of backbone imports: one per module but the last, at most `e`.
pub open spec fn backbone_len(n: nat, e: nat) -> nat {
    if n - 1 <= e { (n - 1) as nat } else { e }
}

pub open spec fn seed_state(seed: u64) -> u64 {
    if seed == 0 { 1 } else { seed }
}

pub open spec fn after_backbone(n: nat, e: nat, seed: u64) -> (u64, Seq<Seq<int>>) {
    backbone(backbone_len(n, e), seed_state(seed), empty_graph(n))
}

/// The random phase places its imports after finitely many draws.
pub open spec fn generation_ends(n: nat, e: nat, seed: u64) -> bool {
    exists|fuel: nat|
        #[trigger] cross_imports(n as u64, e, after_backbone(n, e, seed).0, after_backbone(n, e, seed).1, backbone_len(n, e), fuel) is Some
}

pub open spec fn generation_fuel(n: nat, e: nat, seed: u64) -> nat {
    choose|fuel: nat|
        #[trigger] cross_imports(n as u64, e, after_backbone(n, e, seed).0, after_backbone(n, e, seed).1, backbone_len(n, e), fuel) is Some
}

/// The graph generated for `n` modules, `e` imports and `seed`.
pub open spec fn scale_model(n: nat, e: nat, seed: u64) -> Seq<Seq<int>> {
    match cross_imports(n as u64, e, after_backbone(n, e, seed).0, after_backbone(n, e, seed).1, backbone_len(n, e), generation_fuel(n, e, seed)) {
        Some(t) => t,
        None => empty_graph(n),
    }
}

/// The imports of a table: its finite entries off the diagonal.
pub open spec fn import_pairs(tab: Seq<Seq<int>>, n: nat) -> Set<(int, int)> {
    Set::new(|p: (int, int)| 0 <= p.0 < n && 0 <= p.1 < n && p.0 != p.1 && tab[p.0][p.1] < INF)
}

/// Zero diagonal, import weights of 500 B .. 45 KB, and the backbone
/// `i -> i + 1` present for `i < k`.
pub open spec fn generated_shape(tab: Seq<Seq<int>>, n: nat, k: nat) -> bool {
    &&& forall|i: int| 0 <= i < n ==> #[trigger] tab[i][i] == 0
    &&& forall|i: int, j: int| 0 <= i < n && 0 <= j < n && i != j && #[trigger] tab[i][j] < INF
        ==> 500 <= tab[i][j] < 45000
    &&& forall|i: int| 0 <= i < k ==> #[trigger] tab[i][i + 1] < INF
}

/// Setting an import `r -> c` (`r != c`) with a weight of 500 B .. 45 KB keeps
/// the shape and adds `(r, c)` to the imports.
proof fn lemma_set_import(tab: Seq<Seq<int>>, n: nat, k: nat, r: int, c: int, w: int)
    requires
        tab.len() == n,
        forall|i: int| 0 <= i < n ==> (#[trigger] tab[i]).len() == n,
        forall|i: int, j: int| 0 <= i < n && 0 <= j < n ==> #[trigger] tab[i][j] <= INF,
        generated_shape(tab, n, k),
        import_pairs(tab, n).finite(),
        k < n,
        0 <= r < n,
        0 <= c < n,
        r != c,
        500 <= w < 45000,
    ensures
        generated_shape(set_min(tab, r, c, w), n, k),
        import_pairs(set_min(tab, r, c, w), n) == import_pairs(tab, n).insert((r, c)),
        import_pairs(set_min(tab, r, c, w), n).finite(),
        tab[r][c] >= INF ==> import_pairs(set_min(tab, r, c, w), n).len() == import_pairs(tab, n).len() + 1,
        tab[r][c] < INF ==> import_pairs(set_min(tab, r, c, w), n).len() == import_pairs(tab, n).len(),
        tab[r][c] >= INF ==> finite_upto(set_min(tab, r, c, w), n, n as int) == finite_upto(tab, n, n as int) + 1,
        tab[r][c] < INF ==> finite_upto(set_min(tab, r, c, w), n, n as int) == finite_upto(tab, n, n as int),
{
    let t2 = set_min(tab, r, c, w);
    lemma_finite_upto_row(tab, t2, n, r, n as int);
    vstd::set_lib::lemma_int_range(0, n as int);
    vstd::set_lib::lemma_len_subset(finite_cols(tab[r], n), vstd::set_lib::set_int_range(0, n as int));
    if tab[r][c] >= INF {
        assert(finite_cols(t2[r], n) =~= finite_cols(tab[r], n).insert(c));
        assert(!finite_cols(tab[r], n).contains(c));
    } else {
        assert(finite_cols(t2[r], n) =~= finite_cols(tab[r], n));
    }
    assert forall|i: int, j: int| 0 <= i < n && 0 <= j < n implies #[trigger] t2[i][j] == if i == r && j == c {
        tmin(tab[r][c], w)
    } else {
        tab[i][j]
    } by {}
    assert forall|i: int| 0 <= i < n implies #[trigger] t2[i][i] == 0 by {
        assert(t2[i][i] == tab[i][i]);
    }
    assert forall|i: int, j: int| 0 <= i < n && 0 <= j < n && i != j && #[trigger] t2[i][j] < INF
        implies 500 <= t2[i][j] < 45000 by {
        if i == r && j == c {
            if tab[r][c] < INF {
                assert(500 <= tab[r][c] < 45000);
            }
        } else {
            assert(t2[i][j] == tab[i][j]);
        }
    }
    assert forall|i: int| 0 <= i < k implies #[trigger] t2[i][i + 1] < INF by {
        assert(tab[i][i + 1] < INF);
        assert(t2[i][i + 1] <= tab[i][i + 1]);
    }
    assert(import_pairs(t2, n) =~= import_pairs(tab, n).insert((r, c)));
    if tab[r][c] < INF {
        assert(import_pairs(tab, n).contains((r, c)));
        assert(import_pairs(tab, n).insert((r, c)) =~= import_pairs(tab, n));
    }
}

proof fn lemma_cross_fuel(n: u64, e: nat, st: u64, tab: Seq<Seq<int>>, placed: nat, fuel: nat)
    requires
        placed < e,
        cross_imports(n, e, st, tab, placed, fuel) is Some,
    ensures
        fuel > 0,
{
}

/// Equal draws consume a round and change nothing else.
proof fn lemma_cross_skip(n: u64, e: nat, st: u64, tab: Seq<Seq<int>>, placed: nat, fuel: nat)
    requires
        placed < e,
        fuel > 0,
        scramble(xorshift(st)) % n == scramble(xorshift(xorshift(st))) % n,
    ensures
        cross_imports(n, e, st, tab, placed, fuel)
            == cross_imports(n, e, xorshift(xorshift(st)), tab, placed, (fuel - 1) as nat),
{
}

/// Distinct draws set the import with the next drawn weight.
proof fn lemma_cross_place(n: u64, e: nat, st: u64, tab: Seq<Seq<int>>, placed: nat, fuel: nat, from: int, to: int, s3: u64)
    requires
        placed < e,
        fuel > 0,
        from == (scramble(xorshift(st)) % n) as int,
        to == (scramble(xorshift(xorshift(st))) % n) as int,
        s3 == xorshift(xorshift(xorshift(st))),
        from != to,
    ensures
        cross_imports(n, e, st, tab, placed, fuel) == cross_imports(
            n,
            e,
            s3,
            set_min(tab, from, to, draw_weight(scramble(s3))),
            if tab[from][to] >= INF { placed + 1 } else { placed },
            (fuel - 1) as nat,
        ),
{
}

/// Two round budgets that both suffice give the same table.
proof fn lemma_cross_unique(n: u64, e: nat, st: u64, tab: Seq<Seq<int>>, placed: nat, f1: nat, f2: nat)
    requires
        cross_imports(n, e, st, tab, placed, f1) is Some,
        cross_imports(n, e, st, tab, placed, f2) is Some,
    ensures
        cross_imports(n, e, st, tab, placed, f1) == cross_imports(n, e, st, tab, placed, f2),
    decreases f1,
{
    if placed < e {
        let s1 = xorshift(st);
        let s2 = xorshift(s1);
        let from = (scramble(s1) % n) as int;
        let to = (scramble(s2) % n) as int;
        if from == to {
            lemma_cross_unique(n, e, s2, tab, placed, (f1 - 1) as nat, (f2 - 1) as nat);
        } else {
            let s3 = xorshift(s2);
            let fresh = tab[from][to] >= INF;
            lemma_cross_unique(
                n,
                e,
                s3,
                set_min(tab, from, to, draw_weight(scramble(s3))),
                if fresh { placed + 1 } else { placed },
                (f1 - 1) as nat,
                (f2 - 1) as nat,
            );
        }
    }
}

/// A row gains a stored entry exactly when the import it receives is new.
proof fn lemma_fresh_grows(t: Seq<Seq<int>>, m: TropicalSparseMatrix, n: nat, r: int, c: int, w: int)
    requires
        m.wf(),
        m.size == n,
        t.len() == n,
        forall|i: int| 0 <= i < n ==> (#[trigger] t[i]).len() == n,
        0 <= r < n,
        0 <= c < n,
        500 <= w < 45000,
        m@ == set_min(t, r, c, w),
        finite_cols(t[r], n).finite(),
    ensures
        finite_cols(m@[r], n) == finite_cols(t[r], n).insert(c),
        m.rows@[r]@.len() == finite_cols(m@[r], n).len(),
        t[r][c] < INF ==> finite_cols(m@[r], n).len() == finite_cols(t[r], n).len(),
        t[r][c] >= INF ==> finite_cols(m@[r], n).len() == finite_cols(t[r], n).len() + 1,
{
    m.lemma_row_count(r);
    let fc0 = finite_cols(t[r], n);
    let fc1 = finite_cols(m@[r], n);
    assert(fc1 =~= fc0.insert(c));
    if t[r][c] < INF {
        assert(fc0.contains(c));
        assert(fc0.insert(c) =~= fc0);
    }
}

/// Lay the backbone `i -> i + 1` (at most `edge_count` imports) on an empty
/// graph of `node_count` modules, drawing from a generator seeded with `seed`.
fn lay_backbone(node_count: usize, edge_count: usize, seed: u64) -> (res: (Rng, TropicalSparseMatrix, usize))
    requires
        1 <= node_count <= u32::MAX,
    ensures
        res.1.wf(),
        res.1.size == node_count,
        res.2 == backbone_len(node_count as nat, edge_count as nat),
        (res.0.state(), res.1@) == after_backbone(node_count as nat, edge_count as nat, seed),
        import_pairs(res.1@, node_count as nat).finite(),
        import_pairs(res.1@, node_count as nat).len() == res.2,
        generated_shape(res.1@, node_count as nat, res.2 as nat),
        finite_upto(res.1@, node_count as nat, node_count as int) == node_count + res.2,
{
    let ghost n = node_count as nat;
    let ghost e = edge_count as nat;
    let ghost k = backbone_len(n, e);
    let mut rng = Rng::new(seed);
    let mut matrix = TropicalSparseMatrix::new(node_count);
    matrix.ensure_diagonal();
    proof {
        let t0 = matrix@;
        assert(t0 =~= empty_graph(n));
        assert(import_pairs(t0, n) =~= Set::empty());
        assert(generated_shape(t0, n, 0));
        lemma_empty_graph_count(n, n as int);
        matrix.lemma_view_table();
    }
    let mut placed: usize = 0;
    let mut i: usize = 0;
    // Backbone chain: forces long dependency paths (worst case for traversal).
    while i < node_count - 1 && placed < edge_count
        invariant
            n == node_count,
            e == edge_count,
            k == backbone_len(n, e),
            1 <= node_count <= u32::MAX,
            placed == i,
            i <= k,
            matrix.wf(),
            matrix.size == node_count,
            (rng.state(), matrix@) == backbone(i as nat, seed_state(seed), empty_graph(n)),
            import_pairs(matrix@, n) == Set::new(|p: (int, int)| 0 <= p.0 < i && p.1 == p.0 + 1),
            import_pairs(matrix@, n).finite(),
            import_pairs(matrix@, n).len() == i,
            generated_shape(matrix@, n, i as nat),
            finite_upto(matrix@, n, n as int) == n + i,
        decreases node_count - i,
    {
        let ghost t = matrix@;
        proof {
            matrix.lemma_view_table();
            assert(!import_pairs(t, n).contains((i as int, i + 1)));
        }
        let w = 500 + rng.below(44_500) as u32;
        matrix.set(i, i + 1, w);
        proof {
            lemma_set_import(t, n, i as nat, i as int, i + 1, w as int);
            assert(matrix@ == set_min(t, i as int, i + 1, w as int));
            let t2 = matrix@;
            assert(t2[i as int][i + 1] < INF);
            assert(import_pairs(t2, n) =~= Set::new(|p: (int, int)| 0 <= p.0 < i + 1 && p.1 == p.0 + 1));
            assert forall|j: int| 0 <= j < i + 1 implies #[trigger] t2[j][j + 1] < INF by {
                if j < i {
                    assert(import_pairs(t2, n).contains((j, j + 1)));
                }
            }
        }
        placed = placed + 1;
        i = i + 1;
    }
    (rng, matrix, placed)
}

/// Build a synthetic app graph with `node_count` modules and exactly
/// `edge_count` static imports. Weights are 500 B .. 45 KB, mimicking
/// minified module sizes. A backbone i -> i+1 guarantees the graph is
/// connected (deep multi-hop chains), the rest are random cross-imports.
pub fn generate_scale_project(node_count: usize, edge_count: usize, seed: u64) -> (m: TropicalSparseMatrix)
    requires
        1 <= node_count <= u32::MAX,
        generation_ends(node_count as nat, edge_count as nat, seed),
    ensures
        m.wf(),
        m.size == node_count,
        m@ == scale_model(node_count as nat, edge_count as nat, seed),
        import_pairs(m@, node_count as nat).len() == edge_count,
        generated_shape(m@, node_count as nat, backbone_len(node_count as nat, edge_count as nat)),
        finite_upto(m@, node_count as nat, node_count as int) == node_count + edge_count,
{
    let ghost n = node_count as nat;
    let ghost e = edge_count as nat;
    let ghost k = backbone_len(n, e);
    let (mut rng, mut matrix, mut placed) = lay_backbone(node_count, edge_count, seed);
    let ghost st1 = rng.state();
    let ghost tab1 = matrix@;
    let ghost mut fuel = generation_fuel(n, e, seed);
    proof {
        let f = choose|fuel: nat|
            #[trigger] cross_imports(n as u64, e, after_backbone(n, e, seed).0, after_backbone(n, e, seed).1, backbone_len(n, e), fuel) is Some;
        assert(cross_imports(n as u64, e, st1, tab1, k, fuel) is Some);
    }
    // Random cross-module imports.
    while placed < edge_count
        invariant
            n == node_count,
            e == edge_count,
            k == backbone_len(n, e),
            k < n,
            1 <= node_count <= u32::MAX,
            placed <= edge_count,
            matrix.wf(),
            matrix.size == node_count,
            cross_imports(n as u64, e, rng.state(), matrix@, placed as nat, fuel) == Some(scale_model(n, e, seed)),
            import_pairs(matrix@, n).finite(),
            import_pairs(matrix@, n).len() == placed,
            generated_shape(matrix@, n, k),
            finite_upto(matrix@, n, n as int) == n + placed,
        decreases fuel,
    {
        let ghost st = rng.state();
        let ghost t = matrix@;
        proof {
            lemma_cross_fuel(n as u64, e, st, t, placed as nat, fuel);
        }
        let from = rng.below(node_count as u64) as usize;
        let to = rng.below(node_count as u64) as usize;
        if from == to {
            proof {
                lemma_cross_skip(n as u64, e, st, t, placed as nat, fuel);
                fuel = (fuel - 1) as nat;
            }
        } else {
            proof {
                matrix.lemma_view_table();
                matrix.lemma_row_count(from as int);
            }
            let before = matrix.rows[from].len();
            let w = 500 + rng.below(44_500) as u32;
            matrix.set(from, to, w);
            proof {
                lemma_set_import(t, n, k, from as int, to as int, w as int);
                lemma_fresh_grows(t, matrix, n, from as int, to as int, w as int);
            }
            proof {
                lemma_cross_place(n as u64, e, st, t, placed as nat, fuel, from as int, to as int, rng.state());
            }
            if matrix.rows[from].len() > before {
                placed = placed + 1;
            }
            proof {
                fuel = (fuel - 1) as nat;
            }
        }
    }
    matrix
}

/// `generate_scale_project` with at most `max_rounds` draws of a random
/// cross import: the generated graph when the random phase places its
/// imports within that many rounds, else `None`.
pub fn generate_scale_project_within(node_count: usize, edge_count: usize, seed: u64, max_rounds: u64) -> (r: Option<TropicalSparseMatrix>)
    requires
        1 <= node_count <= u32::MAX,
    ensures
        r is Some <==> cross_imports(
            node_count as u64,
            edge_count as nat,
            after_backbone(node_count as nat, edge_count as nat, seed).0,
            after_backbone(node_count as nat, edge_count as nat, seed).1,
            backbone_len(node_count as nat, edge_count as nat),
            max_rounds as nat,
        ) is Some,
        r is Some ==> generation_ends(node_count as nat, edge_count as nat, seed),
        r matches Some(m) ==> {
            &&& m.wf()
            &&& m.size == node_count
            &&& m@ == scale_model(node_count as nat, edge_count as nat, seed)
            &&& import_pairs(m@, node_count as nat).len() == edge_count
            &&& generated_shape(m@, node_count as nat, backbone_len(node_count as nat, edge_count as nat))
            &&& finite_upto(m@, node_count as nat, node_count as int) == node_count + edge_count
        },
{
    let ghost n = node_count as nat;
    let ghost e = edge_count as nat;
    let ghost k = backbone_len(n, e);
    let (mut rng, mut matrix, mut placed) = lay_backbone(node_count, edge_count, seed);
    let ghost st1 = rng.state();
    let ghost tab1 = matrix@;
    let ghost target = cross_imports(n as u64, e, st1, tab1, k, max_rounds as nat);
    let mut rounds = max_rounds;
    while placed < edge_count && rounds > 0
        invariant
            n == node_count,
            e == edge_count,
            k == backbone_len(n, e),
            k < n,
            1 <= node_count <= u32::MAX,
            placed <= edge_count,
            matrix.wf(),
            matrix.size == node_count,
            cross_imports(n as u64, e, rng.state(), matrix@, placed as nat, rounds as nat) == target,
            import_pairs(matrix@, n).finite(),
            import_pairs(matrix@, n).len() == placed,
            generated_shape(matrix@, n, k),
            finite_upto(matrix@, n, n as int) == n + placed,
        decreases rounds,
    {
        let ghost st = rng.state();
        let ghost t = matrix@;
        let from = rng.below(node_count as u64) as usize;
        let to = rng.below(node_count as u64) as usize;
        if from == to {
            proof {
                lemma_cross_skip(n as u64, e, st, t, placed as nat, rounds as nat);
            }
        } else {
            proof {
                matrix.lemma_view_table();
                matrix.lemma_row_count(from as int);
            }
            let before = matrix.rows[from].len();
            let w = 500 + rng.below(44_500) as u32;
            matrix.set(from, to, w);
            proof {
                lemma_set_import(t, n, k, from as int, to as int, w as int);
                lemma_fresh_grows(t, matrix, n, from as int, to as int, w as int);
                lemma_cross_place(n as u64, e, st, t, placed as nat, rounds as nat, from as int, to as int, rng.state());
            }
            if matrix.rows[from].len() > before {
                placed = placed + 1;
            }
        }
        rounds = rounds - 1;
    }
    if placed < edge_count {
        return None;
    }
    proof {
        assert(target == Some(matrix@));
        assert(generation_ends(n, e, seed));
        lemma_cross_unique(n as u64, e, st1, tab1, k, max_rounds as nat, generation_fuel(n, e, seed));
    }
    Some(matrix)
}

/// Generation is deterministic: two graphs generated for the same module
/// count, import count and seed have the same entries and store the same
/// rows.
pub proof fn lemma_generation_deterministic(a: TropicalSparseMatrix, b: TropicalSparseMatrix, n: nat, e: nat, seed: u64)
    requires
        a.wf(),
        b.wf(),
        a.size == n,
        b.size == n,
        a@ == scale_model(n, e, seed),
        b@ == scale_model(n, e, seed),
    ensures
        a@ == b@,
        forall|i: int| 0 <= i < n ==> #[trigger] a.rows@[i]@ == b.rows@[i]@,
{
    a.lemma_rows_iff_view(&b);
}

/// The backbone connects the generated graph: every module up to the end
/// of the backbone is reached from module 0 along imports, so with at least
/// `n - 1` imports every module is.
pub proof fn lemma_backbone_connects(tab: Seq<Seq<int>>, n: nat, e: nat, j: int)
    requires
        n >= 1,
        generated_shape(tab, n, backbone_len(n, e)),
        0 <= j <= backbone_len(n, e),
    ensures
        exists|p: Seq<int>| #[trigger] crate::paths::is_path(tab, n, p) && p[0] == 0 && p.last() == j,
        e >= n - 1 ==> j < n,
    decreases j,
{
    let k = backbone_len(n, e);
    if j == 0 {
        assert(crate::paths::is_path(tab, n, seq![0int]));
    } else {
        lemma_backbone_connects(tab, n, e, j - 1);
        let p = choose|p: Seq<int>| #[trigger] crate::paths::is_path(tab, n, p) && p[0] == 0 && p.last() == j - 1;
        let q = p.push(j);
        assert(tab[j - 1][(j - 1) + 1] < INF);
        assert forall|t: int| 0 <= t < q.len() implies 0 <= #[trigger] q[t] < n by {
            if t < p.len() {
                assert(q[t] == p[t]);
            }
        }
        assert forall|t: int| 0 <= t < q.len() - 1 implies #[trigger] tab[q[t]][q[t + 1]] < INF by {
            if t < p.len() - 1 {
                assert(q[t] == p[t] && q[t + 1] == p[t + 1]);
                assert(tab[p[t]][p[t + 1]] < INF);
            } else {
                assert(q[t] == j - 1 && q[t + 1] == j);
            }
        }
        assert(crate::paths::is_path(tab, n, q));
        assert(q[0] == 0 && q.last() == j);
    }
}

} // verus!
