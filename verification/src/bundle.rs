//! Bundle planning: which modules end up in the synchronous main chunk and
//! which in async chunks, and the order in which a chunk lists its modules.
//! Writing the files is left to the caller.
use vstd::prelude::*;
use std::collections::HashSet;
use crate::project::{ModuleInfo, ImportRef, modules_wf};
use std::collections::HashMap;
use crate::text::{chars_of, append_char};
use crate::splitter::{sort_usize, lemma_sorted_members, slice_contains, set_members, group_async_chunks, in_some_chunk, chunks_disjoint_sorted};

verus! {

broadcast use vstd::std_specs::hash::group_hash_axioms;

pub struct BuildOptions {
    pub outdir: String,
    pub budget: u32,
}

pub struct BuildStats {
    pub modules_total: usize,
    pub modules_sync: usize,
    pub modules_async: usize,
    pub chunks: usize,
    pub main_bytes: u64,
    pub chunk_bytes: u64,
    pub externals: usize,
}

pub struct BuildResult {
    pub main_file: String,
    pub chunk_files: Vec<String>,
    pub manifest_file: String,
    pub stats: BuildStats,
}

// ---------------------------------------------------------------- imports

/// The resolved targets among the first `k` imports, other than `me`.
pub open spec fn targets_upto(imps: Seq<ImportRef>, me: usize, k: int) -> Seq<usize>
    decreases k,
{
    if k <= 0 {
        Seq::empty()
    } else {
        let prev = targets_upto(imps, me, k - 1);
        match imps[k - 1].target {
            Some(t) => if t != me { prev.push(t) } else { prev },
            None => prev,
        }
    }
}

/// The modules a module statically or dynamically imports, itself excluded.
pub open spec fn direct_targets(m: ModuleInfo) -> Seq<usize> {
    targets_upto(m.imports@, m.id, m.imports@.len() as int)
}

/// Per module, in order, the module ids it imports (itself excluded).
pub fn direct_imports(modules: &Vec<ModuleInfo>) -> (out: Vec<Vec<usize>>)
    ensures
        out@.len() == modules@.len(),
        forall|i: int| 0 <= i < modules@.len() ==> (#[trigger] out@[i])@ == direct_targets(modules@[i]),
{
    let mut out: Vec<Vec<usize>> = Vec::new();
    let mut i: usize = 0;
    while i < modules.len()
        invariant
            i <= modules@.len(),
            out@.len() == i,
            forall|j: int| 0 <= j < i ==> (#[trigger] out@[j])@ == direct_targets(modules@[j]),
        decreases modules@.len() - i,
    {
        let m = &modules[i];
        let mut row: Vec<usize> = Vec::new();
        let mut k: usize = 0;
        while k < m.imports.len()
            invariant
                *m == modules@[i as int],
                k <= m.imports@.len(),
                row@ == targets_upto(m.imports@, m.id, k as int),
            decreases m.imports@.len() - k,
        {
            if let Some(t) = m.imports[k].target {
                if t != m.id {
                    row.push(t);
                }
            }
            k = k + 1;
        }
        out.push(row);
        i = i + 1;
    }
    out
}

/// The targets of the dynamic imports among the first `k`.
pub open spec fn dyn_targets_upto(imps: Seq<ImportRef>, k: int) -> Seq<usize>
    decreases k,
{
    if k <= 0 {
        Seq::empty()
    } else {
        let prev = dyn_targets_upto(imps, k - 1);
        if imps[k - 1].dynamic && imps[k - 1].target is Some {
            prev.push(imps[k - 1].target->0)
        } else {
            prev
        }
    }
}

/// Targets of the dynamic imports of the first `i` modules, in order.
pub open spec fn dyn_targets(ms: Seq<ModuleInfo>, i: int) -> Seq<usize>
    decreases i,
{
    if i <= 0 {
        Seq::empty()
    } else {
        dyn_targets(ms, i - 1) + dyn_targets_upto(ms[i - 1].imports@, ms[i - 1].imports@.len() as int)
    }
}

/// Every module that some module imports dynamically: always an async
/// boundary.
pub fn dynamic_targets(modules: &Vec<ModuleInfo>) -> (out: Vec<usize>)
    ensures
        out@ == dyn_targets(modules@, modules@.len() as int),
{
    let mut out: Vec<usize> = Vec::new();
    let mut i: usize = 0;
    while i < modules.len()
        invariant
            i <= modules@.len(),
            out@ == dyn_targets(modules@, i as int),
        decreases modules@.len() - i,
    {
        let m = &modules[i];
        let ghost before = out@;
        let mut k: usize = 0;
        while k < m.imports.len()
            invariant
                *m == modules@[i as int],
                k <= m.imports@.len(),
                out@ == before + dyn_targets_upto(m.imports@, k as int),
            decreases m.imports@.len() - k,
        {
            if m.imports[k].dynamic {
                if let Some(t) = m.imports[k].target {
                    out.push(t);
                    proof {
                        assert(before + dyn_targets_upto(m.imports@, k + 1) =~= (before + dyn_targets_upto(m.imports@, k as int)).push(t));
                    }
                }
            }
            k = k + 1;
        }
        proof {
            assert(out@ =~= dyn_targets(modules@, i + 1));
        }
        i = i + 1;
    }
    out
}

// ---------------------------------------------------------------- async

/// Module `i` may stay synchronous next to the async modules `a`: none of
/// its resolved static imports leads into `a` (a dynamic import is loaded
/// asynchronously anyway).
pub open spec fn stays_sync(ms: Seq<ModuleInfo>, i: int, a: Set<usize>) -> bool {
    forall|q: int|
        0 <= q < ms[i].imports@.len() && (#[trigger] ms[i].imports@[q]).target is Some
            ==> ms[i].imports@[q].dynamic || !a.contains(ms[i].imports@[q].target->0)
}

/// Every module kept in `s` may stay synchronous when the modules dropped
/// from `s0` join the async ones `a0`.
pub open spec fn sync_closed(ms: Seq<ModuleInfo>, s: Set<usize>, s0: Set<usize>, a0: Set<usize>) -> bool {
    forall|i: int| 0 <= i < ms.len() && #[trigger] s.contains(i as usize) ==> stays_sync(ms, i, a0.union(s0.difference(s)))
}

/// Number of module ids below `k` in `s`.
pub open spec fn count_below(s: Set<usize>, k: int) -> nat
    decreases k,
{
    if k <= 0 {
        0
    } else {
        count_below(s, k - 1) + if s.contains((k - 1) as usize) { 1nat } else { 0nat }
    }
}

proof fn lemma_count_below_remove(s: Set<usize>, x: usize, k: int)
    requires
        s.contains(x),
        0 <= k <= usize::MAX,
    ensures
        x < k ==> count_below(s.remove(x), k) + 1 == count_below(s, k),
        x >= k ==> count_below(s.remove(x), k) == count_below(s, k),
    decreases k,
{
    if k > 0 {
        lemma_count_below_remove(s, x, k - 1);
        let y = (k - 1) as usize;
        assert(y as int == k - 1);
        if y != x {
            assert(s.remove(x).contains(y) == s.contains(y));
        } else {
            assert(!s.remove(x).contains(y));
        }
    }
}

proof fn lemma_count_below_mono(s: Set<usize>, t: Set<usize>, k: int)
    requires
        t.subset_of(s),
        0 <= k,
    ensures
        count_below(t, k) <= count_below(s, k),
    decreases k,
{
    if k > 0 {
        lemma_count_below_mono(s, t, k - 1);
    }
}

/// Settle the split after adding the dynamically imported modules to the
/// async ones: a synchronous module that statically imports an async
/// module becomes async itself, until nothing changes. Returns the final (sync, async) sets.
///
/// The sync set is the largest subset of `sync` whose members may all stay
/// synchronous; the async set gains exactly the modules dropped from `sync`.
pub fn settle_async(modules: &Vec<ModuleInfo>, sync: HashSet<usize>, async_cut: HashSet<usize>) -> (res: (
    HashSet<usize>,
    HashSet<usize>,
))
    requires
        modules_wf(modules@),
    ensures
        ({
            let a0 = async_cut@.union(dyn_targets(modules@, modules@.len() as int).to_set());
            &&& res.0@.subset_of(sync@)
            &&& res.1@ == a0.union(sync@.difference(res.0@))
            &&& sync_closed(modules@, res.0@, sync@, a0)
            &&& forall|x: Set<usize>| x.subset_of(sync@) && #[trigger] sync_closed(modules@, x, sync@, a0) ==> x.subset_of(res.0@)
        }),
{
    let ghost ms = modules@;
    let ghost s0 = sync@;
    let n = modules.len();
    let forced = dynamic_targets(modules);
    let mut async_set = async_cut;
    let mut j: usize = 0;
    while j < forced.len()
        invariant
            j <= forced@.len(),
            async_set@ == async_cut@.union(forced@.subrange(0, j as int).to_set()),
        decreases forced@.len() - j,
    {
        async_set.insert(forced[j]);
        proof {
            let p0 = forced@.subrange(0, j as int);
            let p1 = forced@.subrange(0, j + 1);
            assert(p1 =~= p0.push(forced@[j as int]));
            assert forall|y: usize| #[trigger] p1.to_set().contains(y) <==> p0.to_set().insert(forced@[j as int]).contains(y) by {
                if p1.contains(y) {
                    let k = choose|k: int| 0 <= k < p1.len() && p1[k] == y;
                    if k < j {
                        assert(p0[k] == y);
                    }
                }
                if p0.contains(y) {
                    let k = choose|k: int| 0 <= k < p0.len() && p0[k] == y;
                    assert(p1[k] == y);
                }
                if y == forced@[j as int] {
                    assert(p1[j as int] == y);
                }
            }
            assert(p1.to_set() =~= p0.to_set().insert(forced@[j as int]));
        }
        j = j + 1;
    }
    proof {
        assert(forced@.subrange(0, forced@.len() as int) =~= forced@);
    }
    let ghost a0 = async_set@;
    let mut sync = sync;
    let mut changed = true;
    while changed
        invariant
            ms == modules@,
            n == ms.len(),
            modules_wf(ms),
            sync@.subset_of(s0),
            async_set@ == a0.union(s0.difference(sync@)),
            forall|x: Set<usize>| x.subset_of(s0) && #[trigger] sync_closed(ms, x, s0, a0) ==> x.subset_of(sync@),
            !changed ==> sync_closed(ms, sync@, s0, a0),
        decreases count_below(sync@, n as int) + if changed { 1nat } else { 0nat },
    {
        let ghost start = sync@;
        changed = false;
        let mut i: usize = 0;
        while i < n
            invariant
                ms == modules@,
                n == ms.len(),
                modules_wf(ms),
                i <= n,
                sync@.subset_of(start),
                start.subset_of(s0),
                async_set@ == a0.union(s0.difference(sync@)),
                forall|x: Set<usize>| x.subset_of(s0) && #[trigger] sync_closed(ms, x, s0, a0) ==> x.subset_of(sync@),
                !changed ==> sync@ == start,
                changed ==> count_below(sync@, n as int) < count_below(start, n as int),
                !changed ==> forall|k: int| 0 <= k < i && #[trigger] sync@.contains(k as usize)
                    ==> stays_sync(ms, k, a0.union(s0.difference(sync@))),
            decreases n - i,
        {
            let m = &modules[i];
            if sync.contains(&m.id) {
                let ghost was_changed = changed;
                let mut q: usize = 0;
                while q < m.imports.len()
                    invariant
                        ms == modules@,
                        n == ms.len(),
                        modules_wf(ms),
                        i < n,
                        *m == ms[i as int],
                        m.id == i,
                        q <= m.imports@.len(),
                        sync@.subset_of(start),
                        start.subset_of(s0),
                        s0.contains(i as usize),
                        async_set@ == a0.union(s0.difference(sync@)),
                        forall|x: Set<usize>| x.subset_of(s0) && #[trigger] sync_closed(ms, x, s0, a0) ==> x.subset_of(sync@),
                        !changed ==> sync@ == start && sync@.contains(i as usize),
                        !changed ==> !was_changed,
                        changed ==> count_below(sync@, n as int) < count_below(start, n as int),
                        !changed ==> forall|k: int| 0 <= k < i && #[trigger] sync@.contains(k as usize)
                            ==> stays_sync(ms, k, a0.union(s0.difference(sync@))),
                        !changed ==> forall|r: int| 0 <= r < q && (#[trigger] ms[i as int].imports@[r]).target is Some
                            ==> ms[i as int].imports@[r].dynamic || !async_set@.contains(ms[i as int].imports@[r].target->0),
                    decreases m.imports@.len() - q,
                {
                    if let Some(t) = m.imports[q].target {
                        if async_set.contains(&t) && !m.imports[q].dynamic {
                            let ghost before = sync@;
                            proof {
                                assert forall|x: Set<usize>| x.subset_of(s0) && #[trigger] sync_closed(ms, x, s0, a0)
                                    implies !x.contains(i as usize) by {
                                    if x.contains(i as usize) {
                                        assert(x.subset_of(before));
                                        assert(stays_sync(ms, i as int, a0.union(s0.difference(x))));
                                        assert(ms[i as int].imports@[q as int].target == Some(t));
                                        assert(!a0.union(s0.difference(x)).contains(t));
                                    }
                                }
                            }
                            sync.remove(&i);
                            async_set.insert(i);
                            proof {
                                if before.contains(i as usize) {
                                    lemma_count_below_remove(before, i as usize, n as int);
                                    assert(sync@ == before.remove(i as usize));
                                } else {
                                    assert(sync@ =~= before);
                                }
                                assert(async_set@ =~= a0.union(s0.difference(sync@)));
                                assert forall|x: Set<usize>| x.subset_of(s0) && #[trigger] sync_closed(ms, x, s0, a0)
                                    implies x.subset_of(sync@) by {
                                    assert(x.subset_of(before));
                                    assert(!x.contains(i as usize));
                                }
                                if !changed {
                                    assert(before == start);
                                    assert(count_below(sync@, n as int) < count_below(start, n as int));
                                } else {
                                    lemma_count_below_mono(before, sync@, n as int);
                                }
                            }
                            changed = true;
                        }
                    }
                    q = q + 1;
                }
                proof {
                    if !changed {
                        assert(stays_sync(ms, i as int, a0.union(s0.difference(sync@))));
                    }
                }
            }
            i = i + 1;
        }
        proof {
            if !changed {
                assert(sync_closed(ms, sync@, s0, a0));
            }
            lemma_count_below_mono(start, sync@, n as int);
        }
    }
    proof {
        assert(a0 == async_cut@.union(dyn_targets(modules@, modules@.len() as int).to_set()));
    }
    (sync, async_set)
}

// ---------------------------------------------------------------- order

/// The modules of `set` other than `m` that `m` imports.
#[verifier::opaque]
pub open spec fn deps_within(imports: Seq<Vec<usize>>, set: Seq<usize>, m: usize) -> Set<usize> {
    Set::new(|x: usize| imports[m as int]@.contains(x) && set.contains(x) && x != m)
}

/// No module of `ms` lists an import twice.
pub open spec fn no_repeated_imports(im: Seq<Vec<usize>>, ms: Seq<usize>) -> bool {
    forall|k: int| 0 <= k < ms.len() ==> (#[trigger] im[ms[k] as int])@.no_duplicates()
}

/// The imports among `ms` form no cycle: every nonempty set of its modules
/// holds one that imports no other module of the set.
pub open spec fn acyclic_within(im: Seq<Vec<usize>>, ms: Seq<usize>) -> bool {
    forall|s: Set<usize>|
        s.finite() && s.len() > 0 && s.subset_of(ms.to_set()) ==> exists|x: usize| #[trigger] s.contains(x)
            && forall|y: usize| s.contains(y) && y != x ==> !im[x as int]@.contains(y)
}

/// The in-degree counter `deg[q]` bounds the dependencies of `ms[q]`
/// not yet placed in `done`, and counts them exactly when no import is
/// listed twice.
pub open spec fn deg_ok(im: Seq<Vec<usize>>, ms: Seq<usize>, deg: Seq<usize>, done: Set<usize>, q: int) -> bool {
    &&& deps_within(im, ms, ms[q]).difference(done).finite()
    &&& deps_within(im, ms, ms[q]).difference(done).len() <= deg[q]
    &&& no_repeated_imports(im, ms) ==> deps_within(im, ms, ms[q]).difference(done).len() == deg[q]
}

/// How many entries of `d` (with repeats) lie in `set` and differ from `m`.
pub open spec fn count_within(d: Seq<usize>, set: Seq<usize>, m: usize) -> nat
    decreases d.len(),
{
    if d.len() == 0 {
        0
    } else {
        count_within(d.drop_last(), set, m) + if set.contains(d.last()) && d.last() != m { 1nat } else { 0nat }
    }
}

proof fn lemma_count_within(d: Seq<usize>, set: Seq<usize>, m: usize)
    ensures
        Set::new(|x: usize| d.contains(x) && set.contains(x) && x != m).finite(),
        Set::new(|x: usize| d.contains(x) && set.contains(x) && x != m).len() <= count_within(d, set, m),
        d.no_duplicates() ==> Set::new(|x: usize| d.contains(x) && set.contains(x) && x != m).len() == count_within(d, set, m),
    decreases d.len(),
{
    let s = Set::new(|x: usize| d.contains(x) && set.contains(x) && x != m);
    if d.len() == 0 {
        assert(s =~= Set::empty());
    } else {
        let p = d.drop_last();
        lemma_count_within(p, set, m);
        if d.no_duplicates() {
            assert(p.no_duplicates()) by {
                assert forall|a: int, b: int| 0 <= a < p.len() && 0 <= b < p.len() && a != b implies p[a] != p[b] by {
                    assert(p[a] == d[a] && p[b] == d[b]);
                }
            }
        }
        let sp = Set::new(|x: usize| p.contains(x) && set.contains(x) && x != m);
        let l = d.last();
        assert forall|x: usize| #[trigger] d.contains(x) <==> (p.contains(x) || x == l) by {
            if d.contains(x) {
                let k = choose|k: int| 0 <= k < d.len() && d[k] == x;
                if k < d.len() - 1 {
                    assert(p[k] == x);
                }
            }
            if p.contains(x) {
                let k = choose|k: int| 0 <= k < p.len() && p[k] == x;
                assert(d[k] == x);
            }
            if x == l {
                assert(d[d.len() - 1] == x);
            }
        }
        if set.contains(l) && l != m {
            assert(s =~= sp.insert(l));
            if d.no_duplicates() {
                assert(!p.contains(l)) by {
                    if p.contains(l) {
                        let k = choose|k: int| 0 <= k < p.len() && p[k] == l;
                        assert(d[k] == d[d.len() - 1]);
                    }
                }
                assert(!sp.contains(l));
            }
        } else {
            assert(s =~= sp);
        }
    }
}

/// The members of `modules[..p]` missing from `done`, in order.
pub open spec fn rest_in_order(modules: Seq<usize>, done: Seq<usize>, p: int) -> Seq<usize>
    decreases p,
{
    if p <= 0 {
        Seq::empty()
    } else {
        let prev = rest_in_order(modules, done, p - 1);
        if done.contains(modules[p - 1]) {
            prev
        } else {
            prev.push(modules[p - 1])
        }
    }
}

/// Whether `d` holds `x`.
pub fn holds(d: &Vec<usize>, x: usize) -> (b: bool)
    ensures
        b == d@.contains(x),
{
    slice_contains(d.as_slice(), x)
}

proof fn lemma_unique_len_le(a: Seq<usize>, b: Seq<usize>)
    requires
        a.no_duplicates(),
        forall|k: int| 0 <= k < a.len() ==> b.contains(#[trigger] a[k]),
    ensures
        a.len() <= b.len(),
{
    a.unique_seq_to_set();
    b.lemma_cardinality_of_set();
    assert(a.to_set().subset_of(b.to_set())) by {
        assert forall|x: usize| #[trigger] a.to_set().contains(x) implies b.to_set().contains(x) by {
            let k = choose|k: int| 0 <= k < a.len() && a[k] == x;
        }
    }
    vstd::set_lib::lemma_len_subset(a.to_set(), b.to_set());
}

// ------------------------------------------------------------ load order

/// In-degree of each module of a chunk inside the chunk, counting repeated
/// imports.
pub open spec fn initial_degrees(im: Seq<Vec<usize>>, ms: Seq<usize>) -> Seq<usize> {
    Seq::new(ms.len(), |p: int| count_within(im[ms[p] as int]@, ms, ms[p]) as usize)
}

/// The modules among `ms[..p]` whose degree is 0, in order.
pub open spec fn zero_list(ms: Seq<usize>, deg: Seq<usize>, p: int) -> Seq<usize>
    decreases p,
{
    if p <= 0 {
        Seq::empty()
    } else {
        let prev = zero_list(ms, deg, p - 1);
        if deg[p - 1] == 0 {
            prev.push(ms[p - 1])
        } else {
            prev
        }
    }
}

pub open spec fn usize_leq() -> spec_fn(usize, usize) -> bool {
    |a: usize, b: usize| a <= b
}

/// The starting queue: the free modules in descending order, so that the
/// smallest is taken first.
pub open spec fn start_queue(ms: Seq<usize>, deg: Seq<usize>) -> Seq<usize> {
    zero_list(ms, deg, ms.len() as int).sort_by(usize_leq()).reverse()
}

/// What placing `m` does, over `ms[..p]` in order: each module that imports
/// `m` has its degree lowered by one, and joins the queue when it reaches 0.
/// Returns the degrees and the queue.
pub open spec fn release(im: Seq<Vec<usize>>, ms: Seq<usize>, m: usize, deg: Seq<usize>, queue: Seq<usize>, p: int) -> (Seq<usize>, Seq<usize>)
    decreases p,
{
    if p <= 0 {
        (deg, queue)
    } else {
        let (d, q) = release(im, ms, m, deg, queue, p - 1);
        let other = ms[p - 1];
        if other != m && im[other as int]@.contains(m) {
            let d2 = d.update(p - 1, (d[p - 1] - 1) as usize);
            if d2[p - 1] == 0 {
                (d2, q.push(other))
            } else {
                (d2, q)
            }
        } else {
            (d, q)
        }
    }
}

/// Kahn's order from a state: while the queue is not empty (and for at most
/// `fuel` steps), the last queued module is placed and released.
pub open spec fn kahn_from(im: Seq<Vec<usize>>, ms: Seq<usize>, out: Seq<usize>, queue: Seq<usize>, deg: Seq<usize>, fuel: nat) -> Seq<usize>
    decreases fuel,
{
    if fuel == 0 || queue.len() == 0 {
        out
    } else {
        let m = queue.last();
        let (d, q) = release(im, ms, m, deg, queue.drop_last(), ms.len() as int);
        kahn_from(im, ms, out.push(m), q, d, (fuel - 1) as nat)
    }
}

/// The modules of a chunk that Kahn's algorithm places, in placing order.
pub open spec fn kahn_order(im: Seq<Vec<usize>>, ms: Seq<usize>) -> Seq<usize> {
    let d = initial_degrees(im, ms);
    kahn_from(im, ms, Seq::empty(), start_queue(ms, d), d, ms.len())
}

/// The order `topo_sort` gives the modules `ms`: Kahn's order, then the
/// modules it could not place, in their given order.
pub open spec fn load_order(im: Seq<Vec<usize>>, ms: Seq<usize>) -> Seq<usize> {
    kahn_order(im, ms) + rest_in_order(ms, kahn_order(im, ms), ms.len() as int)
}

proof fn lemma_usize_leq_total()
    ensures
        vstd::relations::total_ordering(usize_leq()),
{
    let leq = usize_leq();
    assert(vstd::relations::reflexive(leq));
    assert(vstd::relations::antisymmetric(leq));
    assert(vstd::relations::transitive(leq));
    assert(vstd::relations::strongly_connected(leq));
}

/// Order a chunk's modules so that, as far as possible, every module comes
/// after the modules of the chunk it imports (Kahn's algorithm, smallest
/// id first among the initially free modules, then most recently freed
/// first); modules caught in import cycles follow in their given order.
/// When the chunk's imports form no cycle (and no module lists an import
/// twice), every module comes after all the modules of the chunk it imports.
pub fn topo_sort(modules: &Vec<usize>, imports: &Vec<Vec<usize>>) -> (out: Vec<usize>)
    requires
        modules@.no_duplicates(),
        forall|k: int| 0 <= k < modules@.len() ==> #[trigger] modules@[k] < imports@.len(),
    ensures
        out@.no_duplicates(),
        out@.len() == modules@.len(),
        out@.to_set() == modules@.to_set(),
        exists|k: int|
            0 <= k <= out@.len() && (forall|i: int, x: usize|
                0 <= i < k && #[trigger] deps_within(imports@, modules@, out@[i]).contains(x)
                    ==> out@.subrange(0, i).contains(x)) && out@.subrange(k, out@.len() as int) == rest_in_order(
                modules@,
                out@.subrange(0, k),
                modules@.len() as int,
            ),
        no_repeated_imports(imports@, modules@) && acyclic_within(imports@, modules@) ==> forall|i: int, x: usize|
            0 <= i < out@.len() && #[trigger] deps_within(imports@, modules@, out@[i]).contains(x)
                ==> out@.subrange(0, i).contains(x),
        out@ == kahn_order(imports@, modules@) + rest_in_order(
            modules@,
            kahn_order(imports@, modules@),
            modules@.len() as int,
        ),
{
    let n = modules.len();
    let ghost ms = modules@;
    let ghost im = imports@;
    // In-degree of each module inside the chunk, counting repeated imports.
    let mut deg: Vec<usize> = Vec::new();
    let mut p: usize = 0;
    while p < n
        invariant
            ms == modules@,
            im == imports@,
            n == ms.len(),
            p <= n,
            deg@.len() == p,
            forall|k: int| 0 <= k < ms.len() ==> #[trigger] ms[k] < im.len(),
            forall|q: int| 0 <= q < p ==> #[trigger] deg_ok(im, ms, deg@, Set::empty(), q),
            forall|q: int| 0 <= q < p ==> #[trigger] deg@[q] == count_within(im[ms[q] as int]@, ms, ms[q]) as usize,
        decreases n - p,
    {
        let m = modules[p];
        proof {
            assert(ms[p as int] < im.len());
        }
        let row = &imports[m];
        let mut c: usize = 0;
        let mut k: usize = 0;
        while k < row.len()
            invariant
                row@ == im[m as int]@,
                ms == modules@,
                k <= row@.len(),
                c == count_within(row@.subrange(0, k as int), ms, m),
                c <= k,
            decreases row@.len() - k,
        {
            let dep = row[k];
            proof {
                assert(row@.subrange(0, k + 1).drop_last() =~= row@.subrange(0, k as int));
            }
            if dep != m && holds(modules, dep) {
                c = c + 1;
            }
            k = k + 1;
        }
        proof {
            assert(row@.subrange(0, row@.len() as int) =~= row@);
            lemma_count_within(row@, ms, m);
            reveal(deps_within);
            assert(deps_within(im, ms, m) =~= Set::new(|x: usize| row@.contains(x) && ms.contains(x) && x != m));
            assert(deps_within(im, ms, m).finite());
            assert(deps_within(im, ms, m).len() <= c);
            assert(ms[p as int] == m);
            if no_repeated_imports(im, ms) {
                assert(im[ms[p as int] as int]@.no_duplicates());
                assert(deps_within(im, ms, m).len() == c);
            }
        }
        let ghost dprev = deg@;
        deg.push(c);
        proof {
            assert forall|q: int| 0 <= q < p + 1 implies #[trigger] deg_ok(im, ms, deg@, Set::empty(), q) by {
                assert(deps_within(im, ms, ms[q]).difference(Set::empty()) =~= deps_within(im, ms, ms[q]));
                if q < p {
                    assert(deg@[q] == dprev[q]);
                    assert(deg_ok(im, ms, dprev, Set::empty(), q));
                } else {
                    assert(deg@[q] == c);
                }
            }
            assert forall|q: int| 0 <= q < p + 1 implies #[trigger] deg@[q] == count_within(im[ms[q] as int]@, ms, ms[q]) as usize by {
                if q < p {
                    assert(deg@[q] == dprev[q]);
                }
            }
        }
        p = p + 1;
    }
    assert(p == n);
    proof {
        assert(deg@ =~= initial_degrees(im, ms));
    }
    // Modules free from the start, smallest id popped first.
    let mut zeros: Vec<usize> = Vec::new();
    let mut p: usize = 0;
    while p < n
        invariant
            ms == modules@,
            n == ms.len(),
            deg@.len() == n,
            p <= n,
            ms.no_duplicates(),
            zeros@.no_duplicates(),
            forall|x: usize| zeros@.contains(x) <==> exists|q: int| 0 <= q < p && ms[q] == x && #[trigger] deg@[q] == 0,
            forall|q: int| 0 <= q < n ==> #[trigger] deg_ok(im, ms, deg@, Set::empty(), q),
            deg@ == initial_degrees(im, ms),
            zeros@ == zero_list(ms, deg@, p as int),
        decreases n - p,
    {
        if deg[p] == 0 {
            proof {
                assert(!zeros@.contains(ms[p as int])) by {
                    if zeros@.contains(ms[p as int]) {
                        let q = choose|q: int| 0 <= q < p && ms[q] == ms[p as int] && #[trigger] deg@[q] == 0;
                    }
                }
            }
            let ghost before = zeros@;
            zeros.push(modules[p]);
            proof {
                assert forall|x: usize| zeros@.contains(x) <==> exists|q: int| 0 <= q < p + 1 && ms[q] == x && #[trigger] deg@[q] == 0 by {
                    if zeros@.contains(x) {
                        let k = choose|k: int| 0 <= k < zeros@.len() && zeros@[k] == x;
                        if k < before.len() {
                            assert(before.contains(x));
                        } else {
                            assert(ms[p as int] == x && deg@[p as int] == 0);
                        }
                    }
                    if exists|q: int| 0 <= q < p + 1 && ms[q] == x && #[trigger] deg@[q] == 0 {
                        let q = choose|q: int| 0 <= q < p + 1 && ms[q] == x && #[trigger] deg@[q] == 0;
                        if q < p {
                            assert(before.contains(x));
                            let k = choose|k: int| 0 <= k < before.len() && before[k] == x;
                            assert(zeros@[k] == x);
                        } else {
                            assert(zeros@[before.len() as int] == x);
                        }
                    }
                }
                assert(zeros@.no_duplicates()) by {
                    assert forall|a: int, b: int| 0 <= a < zeros@.len() && 0 <= b < zeros@.len() && a != b implies zeros@[a] != zeros@[b] by {
                        if a < before.len() && b < before.len() {
                        } else if a == before.len() {
                            assert(before.contains(zeros@[b]));
                        } else {
                            assert(before.contains(zeros@[a]));
                        }
                    }
                }
            }
        } else {
            proof {
                assert forall|x: usize| zeros@.contains(x) <==> exists|q: int| 0 <= q < p + 1 && ms[q] == x && #[trigger] deg@[q] == 0 by {
                    if exists|q: int| 0 <= q < p + 1 && ms[q] == x && #[trigger] deg@[q] == 0 {
                        let q = choose|q: int| 0 <= q < p + 1 && ms[q] == x && #[trigger] deg@[q] == 0;
                        assert(q < p);
                    }
                }
            }
        }
        p = p + 1;
    }
    let ghost zs = zeros@;
    sort_usize(&mut zeros);
    proof {
        lemma_sorted_members(zs, zeros@);
        lemma_usize_leq_total();
        zs.lemma_sort_by_ensures(usize_leq());
        assert(vstd::relations::sorted_by(zeros@, usize_leq())) by {
            assert forall|a: int, b: int| 0 <= a < b < zeros@.len() implies #[trigger] usize_leq()(zeros@[a], zeros@[b]) by {}
        }
        vstd::seq_lib::lemma_sorted_unique(zeros@, zs.sort_by(usize_leq()), usize_leq());
        assert(zeros@ == zs.sort_by(usize_leq()));
    }
    let ghost kq = start_queue(ms, initial_degrees(im, ms));
    proof {
        assert(kq == zeros@.reverse());
    }
    let mut queue: Vec<usize> = Vec::new();
    let mut z = zeros.len();
    while z > 0
        invariant
            z <= zeros@.len(),
            zeros@.no_duplicates(),
            deg@.len() == n,
            queue@ == zeros@.subrange(z as int, zeros@.len() as int).reverse(),
        decreases z,
    {
        z = z - 1;
        queue.push(zeros[z]);
        proof {
            assert(zeros@.subrange(z as int, zeros@.len() as int).reverse() =~= zeros@.subrange(z + 1, zeros@.len() as int).reverse().push(zeros@[z as int]));
        }
    }
    proof {
        assert(zeros@.subrange(0, zeros@.len() as int) =~= zeros@);
        assert forall|x: usize| #[trigger] queue@.contains(x) <==> zeros@.contains(x) by {
            if queue@.contains(x) {
                let k = choose|k: int| 0 <= k < queue@.len() && queue@[k] == x;
                assert(zeros@[zeros@.len() - 1 - k] == x);
            }
            if zeros@.contains(x) {
                let k = choose|k: int| 0 <= k < zeros@.len() && zeros@[k] == x;
                assert(queue@[zeros@.len() - 1 - k] == x);
            }
        }
        assert(queue@.no_duplicates()) by {
            assert forall|a: int, b: int| 0 <= a < queue@.len() && 0 <= b < queue@.len() && a != b implies queue@[a] != queue@[b] by {
                assert(queue@[a] == zeros@[zeros@.len() - 1 - a]);
                assert(queue@[b] == zeros@[zeros@.len() - 1 - b]);
            }
        }
    }
    let mut out: Vec<usize> = Vec::with_capacity(n);
    proof {
        assert(out@.to_set() =~= Set::<usize>::empty());
        assert forall|x: usize| #[trigger] queue@.contains(x) implies !out@.contains(x) && ms.contains(x) by {
            assert(zs.to_set().contains(x) == zeros@.to_set().contains(x));
            assert(zs.contains(x));
            let q = choose|q: int| 0 <= q < n && ms[q] == x && #[trigger] deg@[q] == 0;
        }
        assert forall|q: int| 0 <= q < n implies #[trigger] deg_ok(im, ms, deg@, out@.to_set(), q) by {
            assert(out@.to_set() == Set::<usize>::empty());
        }
        assert forall|q: int| 0 <= q < n implies ((queue@.contains(ms[q]) || out@.contains(ms[q])) <==> #[trigger] deg@[q] == 0) by {
            assert(zs.to_set().contains(ms[q]) == zeros@.to_set().contains(ms[q]));
            if deg@[q] == 0 {
                assert(zs.contains(ms[q]));
            }
            if queue@.contains(ms[q]) {
                assert(zs.contains(ms[q]));
                let q2 = choose|q2: int| 0 <= q2 < n && ms[q2] == ms[q] && #[trigger] deg@[q2] == 0;
            }
        }
    }
    while queue.len() > 0
        invariant
            ms == modules@,
            im == imports@,
            n == ms.len(),
            deg@.len() == n,
            ms.no_duplicates(),
            forall|k: int| 0 <= k < ms.len() ==> #[trigger] ms[k] < im.len(),
            out@.no_duplicates(),
            queue@.no_duplicates(),
            forall|x: usize| #[trigger] queue@.contains(x) ==> !out@.contains(x) && ms.contains(x),
            forall|k: int| 0 <= k < out@.len() ==> ms.contains(#[trigger] out@[k]),
            forall|q: int| 0 <= q < n ==> #[trigger] deg_ok(im, ms, deg@, out@.to_set(), q),
            forall|q: int| 0 <= q < n ==> ((queue@.contains(ms[q]) || out@.contains(ms[q])) <==> #[trigger] deg@[q] == 0),
            forall|i: int, x: usize| 0 <= i < out@.len() && #[trigger] deps_within(im, ms, out@[i]).contains(x)
                ==> out@.subrange(0, i).contains(x),
            out@.len() <= n,
            kahn_from(im, ms, out@, queue@, deg@, (n - out@.len()) as nat) == kahn_order(im, ms),
        decreases n - out@.len(),
    {
        let ghost out0 = out@;
        let ghost q0 = queue@;
        let ghost deg0 = deg@;
        let m = queue.pop().unwrap();
        proof {
            assert(q0.last() == m);
            assert(queue@ =~= q0.drop_last());
            assert(q0.contains(m)) by {
                assert(q0[q0.len() - 1] == m);
            }
            let pm = choose|q: int| 0 <= q < ms.len() && ms[q] == m;
            assert(deg0[pm] == 0);
            let rem = deps_within(im, ms, m).difference(out0.to_set());
            assert(deg_ok(im, ms, deg0, out0.to_set(), pm));
            assert(rem.len() == 0);
            assert forall|x: usize| #[trigger] deps_within(im, ms, m).contains(x) implies out0.to_set().contains(x) by {
                if !out0.to_set().contains(x) {
                    assert(rem.contains(x));
                    assert(rem.remove(x).len() + 1 == rem.len());
                }
            }
            assert forall|x: usize| queue@.contains(x) implies x != m && q0.contains(x) by {
                let k = choose|k: int| 0 <= k < queue@.len() && queue@[k] == x;
                assert(q0[k] == x);
            }
        }
        out.push(m);
        proof {
            assert forall|x: usize| #[trigger] queue@.contains(x) implies !out@.contains(x) && ms.contains(x) by {
                assert(x != m && q0.contains(x));
                if out@.contains(x) {
                    let k = choose|k: int| 0 <= k < out@.len() && out@[k] == x;
                    if k < out0.len() {
                        assert(out0[k] == x);
                    }
                }
            }
            lemma_unique_len_le(out0, ms);
            assert forall|k: int| 0 <= k < out@.len() implies ms.contains(#[trigger] out@[k]) by {
                if k < out0.len() {
                    assert(out@[k] == out0[k]);
                }
            }
            assert(out@.no_duplicates()) by {
                assert forall|a: int, b: int| 0 <= a < out@.len() && 0 <= b < out@.len() && a != b implies out@[a] != out@[b] by {
                    if a < out0.len() && b < out0.len() {
                        assert(out@[a] == out0[a] && out@[b] == out0[b]);
                    } else if a == out0.len() {
                        assert(out@[b] == out0[b]);
                        assert(out0.contains(out0[b]));
                    } else {
                        assert(out@[a] == out0[a]);
                        assert(out0.contains(out0[a]));
                    }
                }
            }
            assert(out@.to_set() =~= out0.to_set().insert(m)) by {
                assert forall|x: usize| #[trigger] out@.to_set().contains(x) <==> out0.to_set().insert(m).contains(x) by {
                    if out@.contains(x) {
                        let k = choose|k: int| 0 <= k < out@.len() && out@[k] == x;
                        if k < out0.len() {
                            assert(out0[k] == x);
                        }
                    }
                    if out0.contains(x) {
                        let k = choose|k: int| 0 <= k < out0.len() && out0[k] == x;
                        assert(out@[k] == x);
                    }
                    if x == m {
                        assert(out@[out0.len() as int] == m);
                    }
                }
            }
            assert forall|i: int, x: usize| 0 <= i < out@.len() && #[trigger] deps_within(im, ms, out@[i]).contains(x)
                implies out@.subrange(0, i).contains(x) by {
                if i < out0.len() {
                    assert(out@[i] == out0[i]);
                    assert(out@.subrange(0, i) =~= out0.subrange(0, i));
                } else {
                    assert(out@.subrange(0, i) =~= out0);
                    assert(out@[i] == m);
                }
            }
        }
        let ghost oset = out@.to_set();
        let ghost oset0 = out0.to_set();
        proof {
            lemma_unique_len_le(out@, ms);
            assert forall|q: int| 0 <= q < n implies #[trigger] deg_ok(im, ms, deg0, oset0, q) by {
                assert(deg_ok(im, ms, deg@, out0.to_set(), q));
            }
            assert forall|q: int| 0 <= q < n implies ((queue@.contains(ms[q]) || out@.contains(ms[q])) <==> #[trigger] deg@[q] == 0) by {
                assert(deg@[q] == deg0[q]);
                if ms[q] == m {
                    assert(out@[out0.len() as int] == m);
                } else {
                    if q0.contains(ms[q]) {
                        let k = choose|k: int| 0 <= k < q0.len() && q0[k] == ms[q];
                        assert(k != q0.len() - 1);
                        assert(queue@[k] == ms[q]);
                    }
                    if out@.contains(ms[q]) {
                        let k = choose|k: int| 0 <= k < out@.len() && out@[k] == ms[q];
                        assert(k < out0.len());
                        assert(out0[k] == ms[q]);
                    }
                    if out0.contains(ms[q]) {
                        let k = choose|k: int| 0 <= k < out0.len() && out0[k] == ms[q];
                        assert(out@[k] == ms[q]);
                    }
                }
            }
        }
        proof {
            assert(out0.len() < n);
            assert(deg@ == deg0);
            assert(kahn_from(im, ms, out0, q0, deg0, (n - out0.len()) as nat) == kahn_from(
                im,
                ms,
                out0.push(m),
                release(im, ms, m, deg0, q0.drop_last(), n as int).1,
                release(im, ms, m, deg0, q0.drop_last(), n as int).0,
                (n - out0.len() - 1) as nat,
            ));
        }
        let mut p: usize = 0;
        while p < n
            invariant
                ms == modules@,
                im == imports@,
                n == ms.len(),
                p <= n,
                deg@.len() == n,
                ms.no_duplicates(),
                forall|k: int| 0 <= k < ms.len() ==> #[trigger] ms[k] < im.len(),
                out@ == out0.push(m),
                out@.len() <= n,
                kahn_order(im, ms) == kahn_from(
                    im,
                    ms,
                    out0.push(m),
                    release(im, ms, m, deg0, q0.drop_last(), n as int).1,
                    release(im, ms, m, deg0, q0.drop_last(), n as int).0,
                    (n - out0.len() - 1) as nat,
                ),
                (deg@, queue@) == release(im, ms, m, deg0, q0.drop_last(), p as int),
                oset == out@.to_set(),
                oset0 == out0.to_set(),
                oset == oset0.insert(m),
                !oset0.contains(m),
                ms.contains(m),
                queue@.no_duplicates(),
                forall|x: usize| #[trigger] queue@.contains(x) ==> !out@.contains(x) && ms.contains(x),
                forall|q: int| p <= q < n ==> #[trigger] deg@[q] == deg0[q],
                forall|q: int| 0 <= q < n ==> #[trigger] deg_ok(im, ms, deg0, oset0, q),
                forall|q: int| 0 <= q < p ==> #[trigger] deg_ok(im, ms, deg@, oset, q),
                forall|q: int| 0 <= q < n ==> ((queue@.contains(ms[q]) || out@.contains(ms[q])) <==> #[trigger] deg@[q] == 0),
            decreases n - p,
        {
            let other = modules[p];
            let ghost d0 = deps_within(im, ms, other).difference(oset0);
            let ghost d1 = deps_within(im, ms, other).difference(oset);
            proof {
                assert(other == ms[p as int]);
                assert(deg_ok(im, ms, deg0, oset0, p as int));
                assert(d0.finite() && d0.len() <= deg0[p as int]);
                assert(d1 =~= d0.remove(m));
                vstd::set_lib::lemma_len_subset(d1, d0);
            }
            let ghost degb = deg@;
            let ghost qb = queue@;
            if other != m && holds(&imports[other], m) {
                proof {
                    reveal(deps_within);
                    assert(deps_within(im, ms, other).contains(m));
                    assert(d0.contains(m));
                    assert(d0.len() >= 1) by {
                        if d0.len() == 0 {
                            assert(d0 =~= Set::empty());
                        }
                    }
                    assert(d1.len() == d0.len() - 1);
                    assert(degb[p as int] == deg0[p as int]);
                }
                deg.set(p, deg[p] - 1);
                if deg[p] == 0 {
                    proof {
                        assert(!qb.contains(other) && !out@.contains(other)) by {
                            assert(deg0[p as int] != 0);
                        }
                    }
                    queue.push(other);
                    proof {
                        assert(ms[p as int] == other);
                        assert(ms.contains(other));
                        assert forall|x: usize| queue@.contains(x) implies qb.contains(x) || x == other by {
                            let k = choose|k: int| 0 <= k < queue@.len() && queue@[k] == x;
                            if k < qb.len() {
                                assert(qb[k] == x);
                            }
                        }
                        assert forall|x: usize| qb.contains(x) implies queue@.contains(x) by {
                            let k = choose|k: int| 0 <= k < qb.len() && qb[k] == x;
                            assert(queue@[k] == x);
                        }
                        assert(queue@[qb.len() as int] == other);
                        assert(queue@.no_duplicates()) by {
                            assert forall|a: int, b: int| 0 <= a < queue@.len() && 0 <= b < queue@.len() && a != b implies queue@[a] != queue@[b] by {
                                if a < qb.len() && b < qb.len() {
                                    assert(queue@[a] == qb[a] && queue@[b] == qb[b]);
                                } else if a == qb.len() {
                                    assert(queue@[b] == qb[b]);
                                    assert(qb.contains(qb[b]));
                                } else {
                                    assert(queue@[a] == qb[a]);
                                    assert(qb.contains(qb[a]));
                                }
                            }
                        }
                        assert forall|x: usize| #[trigger] queue@.contains(x) implies !out@.contains(x) && ms.contains(x) by {
                            if x != other {
                                assert(qb.contains(x));
                            }
                        }
                        assert forall|q: int| 0 <= q < n implies ((queue@.contains(ms[q]) || out@.contains(ms[q])) <==> #[trigger] deg@[q] == 0) by {
                            if q != p {
                                assert(ms[q] != other);
                                assert(deg@[q] == degb[q]);
                                if queue@.contains(ms[q]) {
                                    assert(qb.contains(ms[q]));
                                }
                            }
                        }
                    }
                } else {
                    proof {
                        assert forall|q: int| 0 <= q < n implies ((queue@.contains(ms[q]) || out@.contains(ms[q])) <==> #[trigger] deg@[q] == 0) by {
                            if q != p {
                                assert(deg@[q] == degb[q]);
                            } else {
                                assert(degb[q] != 0);
                            }
                        }
                    }
                }
            } else {
                proof {
                    reveal(deps_within);
                    if other != m {
                        assert(!deps_within(im, ms, other).contains(m));
                    }
                    assert(d1 =~= d0);
                }
            }
            proof {
                assert(deg_ok(im, ms, deg@, oset, p as int)) by {
                    assert(ms[p as int] == other);
                }
                assert forall|q: int| 0 <= q < p + 1 implies #[trigger] deg_ok(im, ms, deg@, oset, q) by {
                    if q < p {
                        assert(deg_ok(im, ms, degb, oset, q));
                        assert(deg@[q] == degb[q]);
                    }
                }
                assert forall|q: int| p + 1 <= q < n implies #[trigger] deg@[q] == deg0[q] by {
                    assert(deg@[q] == degb[q]);
                }
            }
            proof {
                let rp = release(im, ms, m, deg0, q0.drop_last(), p + 1);
                assert(rp.0 =~= deg@);
                assert(rp.1 =~= queue@);
            }
            p = p + 1;
        }
    }
    let ghost pre = out@;
    let ghost k = out@.len();
    proof {
        assert forall|q: int| 0 <= q < n implies ((Seq::<usize>::empty().contains(ms[q]) || pre.contains(ms[q])) <==> #[trigger] deg@[q] == 0) by {}
        if no_repeated_imports(im, ms) && acyclic_within(im, ms) {
            lemma_all_placed(im, ms, deg@, pre);
        }
    }
    let mut p: usize = 0;
    while p < n
        invariant
            ms == modules@,
            n == ms.len(),
            p <= n,
            ms.no_duplicates(),
            pre.no_duplicates(),
            forall|k2: int| 0 <= k2 < pre.len() ==> ms.contains(#[trigger] pre[k2]),
            out@ == pre + rest_in_order(ms, pre, p as int),
            out@.no_duplicates(),
            forall|k2: int| 0 <= k2 < out@.len() ==> ms.contains(#[trigger] out@[k2]),
            forall|q: int| 0 <= q < p ==> out@.contains(#[trigger] ms[q]),
            forall|x: usize| #[trigger] out@.contains(x) ==> pre.contains(x) || exists|q: int| 0 <= q < p && ms[q] == x,
        decreases n - p,
    {
        let x = modules[p];
        let ghost before = out@;
        if !holds(&out, x) {
            out.push(x);
            proof {
                assert(!pre.contains(x)) by {
                    if pre.contains(x) {
                        let k2 = choose|k2: int| 0 <= k2 < pre.len() && pre[k2] == x;
                        assert(before[k2] == x);
                    }
                }
                assert(out@ =~= pre + rest_in_order(ms, pre, p + 1));
                assert(out@.no_duplicates()) by {
                    assert forall|a: int, b: int| 0 <= a < out@.len() && 0 <= b < out@.len() && a != b implies out@[a] != out@[b] by {
                        if a < before.len() && b < before.len() {
                            assert(out@[a] == before[a] && out@[b] == before[b]);
                        } else if a == before.len() {
                            assert(out@[b] == before[b]);
                            assert(before.contains(before[b]));
                        } else {
                            assert(out@[a] == before[a]);
                            assert(before.contains(before[a]));
                        }
                    }
                }
                assert forall|k2: int| 0 <= k2 < out@.len() implies ms.contains(#[trigger] out@[k2]) by {
                    if k2 < before.len() {
                        assert(out@[k2] == before[k2]);
                    } else {
                        assert(ms[p as int] == x);
                    }
                }
                assert forall|q: int| 0 <= q < p + 1 implies out@.contains(#[trigger] ms[q]) by {
                    if q < p {
                        let k2 = choose|k2: int| 0 <= k2 < before.len() && before[k2] == ms[q];
                        assert(out@[k2] == ms[q]);
                    } else {
                        assert(out@[before.len() as int] == x);
                    }
                }
                assert forall|y: usize| #[trigger] out@.contains(y) implies pre.contains(y) || exists|q: int| 0 <= q < p + 1 && ms[q] == y by {
                    let k2 = choose|k2: int| 0 <= k2 < out@.len() && out@[k2] == y;
                    if k2 < before.len() {
                        assert(before[k2] == y);
                        assert(before.contains(y));
                    } else {
                        assert(ms[p as int] == y);
                    }
                }
            }
        } else {
            proof {
                assert(pre.contains(x)) by {
                    if !pre.contains(x) {
                        let q = choose|q: int| 0 <= q < p && ms[q] == x;
                        assert(ms[p as int] == ms[q]);
                    }
                }
                assert(out@ =~= pre + rest_in_order(ms, pre, p + 1));
            }
        }
        p = p + 1;
    }
    proof {
        assert(out@.subrange(0, k as int) =~= pre);
        assert(out@.subrange(k as int, out@.len() as int) =~= rest_in_order(ms, pre, n as int));
        assert(out@.to_set() =~= ms.to_set()) by {
            assert forall|y: usize| #[trigger] out@.to_set().contains(y) <==> ms.to_set().contains(y) by {
                if ms.contains(y) {
                    let q = choose|q: int| 0 <= q < ms.len() && ms[q] == y;
                }
                if out@.contains(y) {
                    let k2 = choose|k2: int| 0 <= k2 < out@.len() && out@[k2] == y;
                }
            }
        }
        out@.unique_seq_to_set();
        ms.unique_seq_to_set();
        assert forall|i: int, y: usize| 0 <= i < k && #[trigger] deps_within(imports@, modules@, out@[i]).contains(y)
            implies out@.subrange(0, i).contains(y) by {
            assert(out@[i] == pre[i]);
            assert(out@.subrange(0, i) =~= pre.subrange(0, i));
        }
        if no_repeated_imports(im, ms) && acyclic_within(im, ms) {
            lemma_unique_len_le(ms, pre);
            assert(out@.len() == n);
        }
    }
    out
}

/// When no module lists an import twice and the imports form no cycle,
/// Kahn's loop places every module: were some left, each would import
/// another left-over module (its counter is exact and nonzero), and the
/// left-over modules would form a cycle.
proof fn lemma_all_placed(im: Seq<Vec<usize>>, ms: Seq<usize>, deg: Seq<usize>, pre: Seq<usize>)
    requires
        no_repeated_imports(im, ms),
        acyclic_within(im, ms),
        deg.len() == ms.len(),
        forall|q: int| 0 <= q < ms.len() ==> #[trigger] deg_ok(im, ms, deg, pre.to_set(), q),
        forall|q: int| 0 <= q < ms.len() ==> (pre.contains(ms[q]) <==> #[trigger] deg[q] == 0),
    ensures
        forall|q: int| 0 <= q < ms.len() ==> pre.contains(#[trigger] ms[q]),
{
    let u = Set::new(|x: usize| ms.contains(x) && !pre.contains(x));
    vstd::seq_lib::seq_to_set_is_finite(ms);
    assert(u.subset_of(ms.to_set()));
    vstd::set_lib::lemma_len_subset(u, ms.to_set());
    assert forall|q: int| 0 <= q < ms.len() implies pre.contains(#[trigger] ms[q]) by {
        if !pre.contains(ms[q]) {
            assert(u.contains(ms[q]));
            assert(u.len() > 0) by {
                if u.len() == 0 {
                    vstd::set_lib::lemma_set_empty_equivalency_len(u);
                    assert(!Set::<usize>::empty().contains(ms[q]));
                }
            }
            let x = choose|x: usize| #[trigger] u.contains(x) && forall|y: usize| u.contains(y) && y != x ==> !im[x as int]@.contains(y);
            let qx = choose|qx: int| 0 <= qx < ms.len() && ms[qx] == x;
            assert(deg_ok(im, ms, deg, pre.to_set(), qx));
            assert(deg[qx] != 0);
            let rem = deps_within(im, ms, x).difference(pre.to_set());
            assert(rem.len() != 0);
            vstd::set::axiom_set_choose_len(rem);
            let y = rem.choose();
            reveal(deps_within);
            assert(im[x as int]@.contains(y) && ms.contains(y) && y != x);
            assert(!pre.to_set().contains(y));
            assert(u.contains(y));
        }
    }
}

// ---------------------------------------------------------------- plan

/// Order `members` by `topo_sort`: their load order.
fn order_members(members: &Vec<usize>, imports: &Vec<Vec<usize>>) -> (out: Vec<usize>)
    requires
        members@.no_duplicates(),
        forall|k: int| 0 <= k < members@.len() ==> #[trigger] members@[k] < imports@.len(),
    ensures
        out@.to_set() == members@.to_set(),
        out@.len() == members@.len(),
        out@ == load_order(imports@, members@),
{
    topo_sort(members, imports)
}

/// `chunk` lists its modules in load order: `load_order` of their
/// ascending listing.
pub open spec fn chunk_in_load_order(chunk: Seq<usize>, im: Seq<Vec<usize>>) -> bool {
    exists|m: Seq<usize>| #[trigger] crate::splitter::strictly_increasing(m) && m.to_set() == chunk.to_set() && chunk == load_order(im, m)
}

/// Every chunk lists its modules in load order.
pub open spec fn chunks_in_load_order(chunks: Seq<Vec<usize>>, im: Seq<Vec<usize>>) -> bool {
    forall|c: int| 0 <= c < chunks.len() ==> #[trigger] chunk_in_load_order(chunks[c]@, im)
}

/// `chunks` is the grouping `raw` of the async set `a` (as
/// `group_async_chunks` makes it: disjoint ascending chunks, each seeded by
/// a chunk root), each chunk in load order.
pub open spec fn grouped_as(a: Set<usize>, im: Seq<Vec<usize>>, raw: Seq<Vec<usize>>, chunks: Seq<Vec<usize>>) -> bool {
    &&& crate::splitter::seeded_chunks(a, im, raw)
    &&& chunks_disjoint_sorted(raw)
    &&& raw.len() == chunks.len()
    &&& forall|c: int| 0 <= c < raw.len() ==> (#[trigger] chunks[c])@ == load_order(im, raw[c]@)
        && chunks[c]@.to_set() == raw[c]@.to_set()
}

/// How the manifest lists a module.
#[derive(Clone, Copy, PartialEq, Eq, Structural, Debug)]
pub enum ModuleMode {
    Sync,
    Async,
    Unreachable,
}

/// The manifest's mode of module `id`: synchronous when in `sync`, else
/// asynchronous when in `async_set`, else unreachable.
pub fn module_mode(sync: &HashSet<usize>, async_set: &HashSet<usize>, id: usize) -> (mode: ModuleMode)
    ensures
        mode == (if sync@.contains(id) {
            ModuleMode::Sync
        } else if async_set@.contains(id) {
            ModuleMode::Async
        } else {
            ModuleMode::Unreachable
        }),
{
    if sync.contains(&id) {
        ModuleMode::Sync
    } else if async_set.contains(&id) {
        ModuleMode::Async
    } else {
        ModuleMode::Unreachable
    }
}

impl ModuleMode {
    /// The mode's name in the manifest.
    pub fn label(&self) -> (s: &'static str)
        ensures
            s@ == (match *self {
                ModuleMode::Sync => "sync"@,
                ModuleMode::Async => "async"@,
                ModuleMode::Unreachable => "unreachable"@,
            }),
    {
        match self {
            ModuleMode::Sync => "sync",
            ModuleMode::Async => "async",
            ModuleMode::Unreachable => "unreachable",
        }
    }
}

pub struct BundlePlan {
    /// Modules of the synchronous main chunk.
    pub sync: HashSet<usize>,
    /// Modules loaded asynchronously.
    pub async_set: HashSet<usize>,
    /// The async chunks, each listing its modules in load order.
    pub chunks: Vec<Vec<usize>>,
    /// The chunk of each async module.
    pub module_to_chunk: HashMap<usize, usize>,
    /// The synchronous modules in load order.
    pub main_order: Vec<usize>,
    /// The modules each module imports, itself excluded.
    pub imports: Vec<Vec<usize>>,
}

/// Everything the emitter decides before writing files: the settled
/// sync/async split (see `settle_async`), the async chunks (grouped by
/// `group_async_chunks`), the chunk of each async module, and the load
/// order of the main chunk and of every async chunk.
pub fn plan_bundle(modules: &Vec<ModuleInfo>, sync: HashSet<usize>, async_cut: HashSet<usize>) -> (plan: BundlePlan)
    requires
        modules_wf(modules@),
        forall|x: usize| sync@.contains(x) ==> x < modules@.len(),
        forall|x: usize| async_cut@.contains(x) ==> x < modules@.len(),
    ensures
        ({
            let a0 = async_cut@.union(dyn_targets(modules@, modules@.len() as int).to_set());
            let imports = plan.imports@;
            &&& imports.len() == modules@.len()
            &&& forall|i: int| 0 <= i < modules@.len() ==> (#[trigger] imports[i])@ == direct_targets(modules@[i])
            &&& plan.sync@.subset_of(sync@)
            &&& plan.async_set@ == a0.union(sync@.difference(plan.sync@))
            &&& sync_closed(modules@, plan.sync@, sync@, a0)
            &&& forall|x: Set<usize>| x.subset_of(sync@) && #[trigger] sync_closed(modules@, x, sync@, a0) ==> x.subset_of(plan.sync@)
            &&& forall|c: int| 0 <= c < plan.chunks@.len() ==> (#[trigger] plan.chunks@[c])@.len() >= 1
            &&& forall|c1: int, c2: int, x: usize|
                0 <= c1 < plan.chunks@.len() && 0 <= c2 < plan.chunks@.len() && c1 != c2 && #[trigger] plan.chunks@[c1]@.contains(x)
                    ==> !(#[trigger] plan.chunks@[c2]@.contains(x))
            &&& forall|x: usize| #[trigger] plan.async_set@.contains(x) <==> in_some_chunk(plan.chunks@, x)
            &&& forall|c: int, x: usize| 0 <= c < plan.chunks@.len() && #[trigger] plan.chunks@[c]@.contains(x)
                ==> plan.module_to_chunk@.contains_key(x) && plan.module_to_chunk@[x] == c
            &&& forall|x: usize| #[trigger] plan.module_to_chunk@.contains_key(x) ==> plan.async_set@.contains(x)
            &&& plan.main_order@.to_set() == plan.sync@
        }),
        chunks_in_load_order(plan.chunks@, plan.imports@),
        exists|m: Seq<usize>| m.no_duplicates() && m.to_set() == plan.sync@ && plan.main_order@ == load_order(plan.imports@, m),
        exists|raw: Seq<Vec<usize>>| #[trigger] grouped_as(plan.async_set@, plan.imports@, raw, plan.chunks@),
{
    let ghost ms = modules@;
    let n = modules.len();
    let imports = direct_imports(modules);
    let ghost im = imports@;
    proof {
        assert forall|i: int, q: int| 0 <= i < n && 0 <= q < im[i]@.len() implies #[trigger] im[i]@[q] < n by {
            lemma_targets_bound(ms, i, ms[i].imports@.len() as int);
        }
    }
    let ghost s0 = sync@;
    let (sync_set, async_set) = settle_async(modules, sync, async_cut);
    proof {
        assert forall|x: usize| async_set@.contains(x) implies x < imports@.len() by {
            let a0 = async_cut@.union(dyn_targets(ms, ms.len() as int).to_set());
            if dyn_targets(ms, ms.len() as int).to_set().contains(x) {
                lemma_dyn_targets_bound(ms, ms.len() as int);
            }
        }
    }
    let raw = group_async_chunks(&async_set, imports.as_slice());
    let mut chunks: Vec<Vec<usize>> = Vec::new();
    let mut module_to_chunk: HashMap<usize, usize> = HashMap::new();
    let mut c: usize = 0;
    while c < raw.len()
        invariant
            im == imports@,
            n == ms.len(),
            c <= raw@.len(),
            chunks@.len() == c,
            chunks_disjoint_sorted(raw@),
            forall|x: usize| #[trigger] async_set@.contains(x) <==> in_some_chunk(raw@, x),
            forall|x: usize| async_set@.contains(x) ==> x < im.len(),
            forall|d: int| 0 <= d < c ==> (#[trigger] chunks@[d])@.to_set() == raw@[d]@.to_set()
                && chunks@[d]@.len() == raw@[d]@.len(),
            forall|d: int| 0 <= d < c ==> (#[trigger] chunks@[d])@ == load_order(im, raw@[d]@),
            forall|d: int, x: usize| 0 <= d < c && #[trigger] raw@[d]@.contains(x)
                ==> module_to_chunk@.contains_key(x) && module_to_chunk@[x] == d,
            forall|x: usize| #[trigger] module_to_chunk@.contains_key(x) ==> exists|d: int| 0 <= d < c && raw@[d]@.contains(x),
        decreases raw@.len() - c,
    {
        let members = &raw[c];
        proof {
            assert(members@.no_duplicates()) by {
                assert forall|a: int, b: int| 0 <= a < members@.len() && 0 <= b < members@.len() && a != b
                    implies members@[a] != members@[b] by {
                    assert(crate::splitter::strictly_increasing(raw@[c as int]@));
                }
            }
            assert forall|k: int| 0 <= k < members@.len() implies #[trigger] members@[k] < imports@.len() by {
                assert(raw@[c as int]@.contains(members@[k]));
                assert(in_some_chunk(raw@, members@[k]));
                assert(async_set@.contains(members@[k]));
            }
        }
        let ordered = order_members(members, &imports);
        let ghost mbefore = module_to_chunk@;
        let mut k: usize = 0;
        while k < members.len()
            invariant
                *members == raw@[c as int],
                k <= members@.len(),
                chunks_disjoint_sorted(raw@),
                c < raw@.len(),
                forall|d: int, x: usize| 0 <= d < c && #[trigger] raw@[d]@.contains(x)
                    ==> module_to_chunk@.contains_key(x) && module_to_chunk@[x] == d,
                forall|j: int| 0 <= j < k ==> module_to_chunk@.contains_key(#[trigger] members@[j]) && module_to_chunk@[members@[j]] == c,
                forall|x: usize| #[trigger] module_to_chunk@.contains_key(x) ==> exists|d: int| 0 <= d <= c && raw@[d]@.contains(x),
            decreases members@.len() - k,
        {
            let x = members[k];
            proof {
                assert(raw@[c as int]@.contains(x)) by {
                    assert(raw@[c as int]@[k as int] == x);
                }
                assert forall|d: int| 0 <= d < c implies !(#[trigger] raw@[d]@.contains(x)) by {
                    assert(raw@[c as int]@.contains(x));
                }
            }
            module_to_chunk.insert(x, c);
            k = k + 1;
        }
        proof {
            assert forall|x: usize| #[trigger] raw@[c as int]@.contains(x) implies module_to_chunk@.contains_key(x) && module_to_chunk@[x] == c by {
                let j = choose|j: int| 0 <= j < members@.len() && members@[j] == x;
            }
        }
        chunks.push(ordered);
        c = c + 1;
    }
    let sync_members = set_members(&sync_set);
    proof {
        assert forall|k: int| 0 <= k < sync_members@.len() implies #[trigger] sync_members@[k] < imports@.len() by {
            assert(sync_members@.to_set().contains(sync_members@[k]));
            assert(s0.contains(sync_members@[k]));
        }
    }
    let main_order = order_members(&sync_members, &imports);
    proof {
        assert(sync_members@.no_duplicates() && sync_members@.to_set() == sync_set@ && main_order@ == load_order(im, sync_members@));
        assert forall|d: int| 0 <= d < chunks@.len() implies (#[trigger] chunks@[d])@.len() >= 1 by {
            assert(raw@[d]@.len() >= 1);
        }
        assert forall|c1: int, c2: int, x: usize|
            0 <= c1 < chunks@.len() && 0 <= c2 < chunks@.len() && c1 != c2 && #[trigger] chunks@[c1]@.contains(x)
                implies !(#[trigger] chunks@[c2]@.contains(x)) by {
            assert(chunks@[c1]@.to_set().contains(x));
            assert(raw@[c1]@.to_set().contains(x));
            if chunks@[c2]@.contains(x) {
                assert(chunks@[c2]@.to_set().contains(x));
                assert(raw@[c2]@.to_set().contains(x));
            }
        }
        assert forall|x: usize| #[trigger] async_set@.contains(x) <==> in_some_chunk(chunks@, x) by {
            if async_set@.contains(x) {
                let d = choose|d: int| 0 <= d < raw@.len() && #[trigger] raw@[d]@.contains(x);
                assert(raw@[d]@.to_set().contains(x));
                assert(chunks@[d]@.to_set().contains(x));
                assert(chunks@[d]@.contains(x));
            }
            if in_some_chunk(chunks@, x) {
                let d = choose|d: int| 0 <= d < chunks@.len() && #[trigger] chunks@[d]@.contains(x);
                assert(chunks@[d]@.to_set().contains(x));
                assert(raw@[d]@.to_set().contains(x));
                assert(raw@[d]@.contains(x));
            }
        }
        assert forall|d: int, x: usize| 0 <= d < chunks@.len() && #[trigger] chunks@[d]@.contains(x)
            implies module_to_chunk@.contains_key(x) && module_to_chunk@[x] == d by {
            assert(chunks@[d]@.to_set().contains(x));
            assert(raw@[d]@.to_set().contains(x));
            assert(raw@[d]@.contains(x));
        }
        assert forall|x: usize| #[trigger] module_to_chunk@.contains_key(x) implies async_set@.contains(x) by {
            let d = choose|d: int| 0 <= d < raw@.len() && raw@[d]@.contains(x);
            assert(in_some_chunk(raw@, x));
        }
    }
    proof {
        assert forall|c: int| 0 <= c < chunks@.len() implies #[trigger] chunk_in_load_order(chunks@[c]@, im) by {
            let m = raw@[c]@;
            assert(crate::splitter::strictly_increasing(m));
            assert(chunks@[c]@ == load_order(im, m));
            assert(m.to_set() == chunks@[c]@.to_set());
        }
        assert(grouped_as(async_set@, im, raw@, chunks@));
    }
    BundlePlan { sync: sync_set, async_set, chunks, module_to_chunk, main_order, imports }
}

proof fn lemma_targets_bound(ms: Seq<ModuleInfo>, i: int, k: int)
    requires
        modules_wf(ms),
        0 <= i < ms.len(),
        k <= ms[i].imports@.len(),
    ensures
        forall|q: int| 0 <= q < targets_upto(ms[i].imports@, ms[i].id, k).len()
            ==> #[trigger] targets_upto(ms[i].imports@, ms[i].id, k)[q] < ms.len(),
    decreases k,
{
    if k > 0 {
        lemma_targets_bound(ms, i, k - 1);
        let prev = targets_upto(ms[i].imports@, ms[i].id, k - 1);
        assert(ms[i].imports@[k - 1].target matches Some(t) ==> t < ms.len());
    }
}

proof fn lemma_dyn_targets_bound(ms: Seq<ModuleInfo>, i: int)
    requires
        modules_wf(ms),
        0 <= i <= ms.len(),
    ensures
        forall|x: usize| #[trigger] dyn_targets(ms, i).to_set().contains(x) ==> x < ms.len(),
    decreases i,
{
    if i > 0 {
        lemma_dyn_targets_bound(ms, i - 1);
        lemma_dyn_upto_bound(ms, i - 1, ms[i - 1].imports@.len() as int);
        let a = dyn_targets(ms, i - 1);
        let b = dyn_targets_upto(ms[i - 1].imports@, ms[i - 1].imports@.len() as int);
        assert forall|x: usize| #[trigger] (a + b).to_set().contains(x) implies x < ms.len() by {
            let k = choose|k: int| 0 <= k < (a + b).len() && (a + b)[k] == x;
            if k < a.len() {
                assert(a[k] == x);
                assert(a.to_set().contains(x));
            } else {
                assert(b[k - a.len()] == x);
            }
        }
    }
}

proof fn lemma_dyn_upto_bound(ms: Seq<ModuleInfo>, i: int, k: int)
    requires
        modules_wf(ms),
        0 <= i < ms.len(),
        k <= ms[i].imports@.len(),
    ensures
        forall|q: int| 0 <= q < dyn_targets_upto(ms[i].imports@, k).len() ==> #[trigger] dyn_targets_upto(ms[i].imports@, k)[q] < ms.len(),
    decreases k,
{
    if k > 0 {
        lemma_dyn_upto_bound(ms, i, k - 1);
        assert(ms[i].imports@[k - 1].target matches Some(t) ==> t < ms.len());
        let prev = dyn_targets_upto(ms[i].imports@, k - 1);
        let cur = dyn_targets_upto(ms[i].imports@, k);
        assert forall|q: int| 0 <= q < cur.len() implies #[trigger] cur[q] < ms.len() by {
            if q < prev.len() {
                assert(cur[q] == prev[q]);
            }
        }
    }
}

// ---------------------------------------------------------------- display

/// What `std::path::Path::strip_prefix` leaves of `path` once the leading
/// components `root` are taken off, as text; `None` when `root` does not
/// begin `path`.
pub uninterp spec fn path_after_root(root: Seq<char>, path: Seq<char>) -> Option<Seq<char>>;

/// `Path::new(path).strip_prefix(root)` (std), read back as a string. The
/// contract claims only that the result is a function of the two paths,
/// named `path_after_root`: component matching is left to std.
#[verifier::external_body]
fn strip_root(root: &str, path: &str) -> (r: Option<String>)
    ensures
        match r {
            Some(s) => path_after_root(root@, path@) == Some(s@),
            None => path_after_root(root@, path@) is None,
        },
{
    match std::path::Path::new(path).strip_prefix(root) {
        Ok(rest) => Some(rest.to_string_lossy().into_owned()),
        Err(_) => None,
    }
}

/// `s` with every backslash shown as `/`.
pub open spec fn forward_slashes(s: Seq<char>) -> Seq<char> {
    s.map_values(|c: char| if c == '\\' { '/' } else { c })
}

/// How a file is shown: the part after the root when the root begins it
/// (`stripped`), else the whole path, with backslashes shown as `/`.
pub fn display_path(stripped: Option<String>, path: &str) -> (out: String)
    ensures
        out@ == forward_slashes(match stripped {
            Some(s) => s@,
            None => path@,
        }),
{
    let v = match &stripped {
        Some(s) => chars_of(s.as_str()),
        None => chars_of(path),
    };
    let mut out = String::new();
    let mut k: usize = 0;
    while k < v.len()
        invariant
            k <= v@.len(),
            out@ == forward_slashes(v@.subrange(0, k as int)),
        decreases v@.len() - k,
    {
        let c = if v[k] == '\\' { '/' } else { v[k] };
        append_char(&mut out, c);
        proof {
            assert(forward_slashes(v@.subrange(0, k + 1)) =~= forward_slashes(v@.subrange(0, k as int)).push(c));
        }
        k = k + 1;
    }
    proof {
        assert(v@.subrange(0, v@.len() as int) =~= v@);
    }
    out
}

/// `path` as shown in listings: relative to `root` where `root` begins it.
pub fn rel_display(root: &str, path: &str) -> (out: String)
    ensures
        out@ == forward_slashes(match path_after_root(root@, path@) {
            Some(s) => s,
            None => path@,
        }),
{
    display_path(strip_root(root, path), path)
}

} // verus!
