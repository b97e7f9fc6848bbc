//! Code-splitting boundary resolver.
//!
//! Input: the closed tropical matrix D where D[i][j] is the minimum
//! accumulated byte cost of reaching module j from entry point i.
//!
//! Cutoff rule: if the accumulated cost D[i][j] exceeds the budget, module j
//! is decoupled into an async chunk. Dynamic imports and importers of async
//! modules are promoted into the async set automatically.
use std::collections::HashSet;
use vstd::prelude::*;
use crate::tropical::{TropicalSparseMatrix, INF, row_wf};

verus! {

broadcast use vstd::std_specs::hash::group_hash_axioms;

pub struct SplitPlan {
    pub entry: usize,
    pub sync_modules: usize,
    pub sync_bytes: u64,
    pub async_modules: usize,
    pub unreachable: usize,
}

/// Full module classification for one entry, used by the bundler emitter.
pub struct EntryClassification {
    pub entry: usize,
    pub sync: HashSet<usize>,
    pub async_cut: HashSet<usize>,
    pub sync_bytes: u64,
}

/// The `k`-th stored entry of the entry's row goes to the sync chunk on the
/// first pass: it is not forced async and its cost fits the budget.
pub open spec fn starts_sync(row: Seq<(u32, u32)>, force: Seq<usize>, budget: u32, k: int) -> bool {
    !force.contains(row[k].0 as usize) && row[k].1 <= budget
}

/// Modules placed in the sync chunk by the budget cut, before propagation.
pub open spec fn initial_sync(row: Seq<(u32, u32)>, force: Seq<usize>, budget: u32) -> Set<usize> {
    Set::new(|j: usize| exists|k: int| 0 <= k < row.len() && row[k].0 == j && starts_sync(row, force, budget, k))
}

/// Modules placed in an async chunk by the budget cut or a forced async import.
pub open spec fn initial_async(row: Seq<(u32, u32)>, force: Seq<usize>, budget: u32) -> Set<usize> {
    Set::new(|j: usize| exists|k: int| 0 <= k < row.len() && row[k].0 == j && !starts_sync(row, force, budget, k))
}

/// Sum of the costs of the initially-sync entries among the first `t`.
pub open spec fn sync_cost(row: Seq<(u32, u32)>, force: Seq<usize>, budget: u32, t: nat) -> int
    decreases t,
{
    if t == 0 {
        0
    } else {
        sync_cost(row, force, budget, (t - 1) as nat) + if starts_sync(row, force, budget, t - 1) {
            row[t - 1].1 as int
        } else {
            0
        }
    }
}

/// Number of initially-sync entries among the first `t`.
pub open spec fn sync_count(row: Seq<(u32, u32)>, force: Seq<usize>, budget: u32, t: nat) -> nat
    decreases t,
{
    if t == 0 {
        0
    } else {
        sync_count(row, force, budget, (t - 1) as nat) + if starts_sync(row, force, budget, t - 1) {
            1nat
        } else {
            0nat
        }
    }
}

/// `x` may stay synchronous: every static import of a member is a member,
/// itself, or a module the entry does not reach.
pub open spec fn import_closed(x: Set<usize>, s0: Set<usize>, a0: Set<usize>, direct: Seq<Vec<usize>>) -> bool {
    forall|i: usize, q: int|
        x.contains(i) && 0 <= i < direct.len() && 0 <= q < direct[i as int]@.len() && #[trigger] direct[i as int]@[q] != i
            ==> (x.contains(direct[i as int]@[q]) || !(s0.contains(direct[i as int]@[q]) || a0.contains(
            direct[i as int]@[q],
        )))
}

/// The members of a set, in the set's iteration order.
pub(crate) fn set_members(s: &HashSet<usize>) -> (v: Vec<usize>)
    ensures
        v@.to_set() == s@,
        v@.no_duplicates(),
{
    let mut v: Vec<usize> = Vec::new();
    for x in it: s.iter()
        invariant
            v@ == it.seq().unref().take(it.index()),
            it.seq().unref().to_set() == s@,
            it.seq().unref().no_duplicates(),
            it.index() == it.seq().len() ==> v@.to_set() == s@ && v@.no_duplicates(),
    {
        v.push(*x);
        proof {
            assert(it.seq().unref().take(it.index() + 1) =~= it.seq().unref().take(it.index()).push(*x));
            assert(it.index() + 1 == it.seq().len() ==> it.seq().unref().take(it.index() + 1) =~= it.seq().unref());
        }
    }
    v
}

/// Sorts the values in ascending order with `slice::sort_unstable`. The
/// contract claims only what its documentation states: the result is ordered
/// and holds the same values, each as often as before.
#[verifier::external_body]
pub(crate) fn sort_usize(v: &mut Vec<usize>)
    ensures
        final(v)@.to_multiset() == old(v)@.to_multiset(),
        forall|a: int, b: int| 0 <= a < b < final(v)@.len() ==> final(v)@[a] <= final(v)@[b],
{
    v.sort_unstable();
}

/// Sorting a sequence without duplicates keeps its members and leaves it
/// strictly increasing.
pub(crate) proof fn lemma_sorted_members(before: Seq<usize>, after: Seq<usize>)
    requires
        before.no_duplicates(),
        after.to_multiset() == before.to_multiset(),
        forall|a: int, b: int| 0 <= a < b < after.len() ==> after[a] <= after[b],
    ensures
        after.no_duplicates(),
        after.len() == before.len(),
        after.to_set() == before.to_set(),
        forall|a: int, b: int| 0 <= a < b < after.len() ==> after[a] < after[b],
{
    before.lemma_multiset_has_no_duplicates();
    before.to_multiset_ensures();
    after.to_multiset_ensures();
    after.lemma_multiset_has_no_duplicates_conv();
    assert forall|x: usize| #[trigger] after.to_set().contains(x) == before.to_set().contains(x) by {
        assert(after.to_multiset().count(x) == before.to_multiset().count(x));
        assert(after.contains(x) <==> after.to_multiset().count(x) > 0);
        assert(before.contains(x) <==> before.to_multiset().count(x) > 0);
    }
    assert(after.to_set() =~= before.to_set());
}

/// `p` walks from module to statically imported module, through members of
/// `a` only and around every member of `avoid`.
pub open spec fn is_async_path(a: Set<usize>, imports: Seq<Vec<usize>>, avoid: Set<usize>, p: Seq<usize>) -> bool {
    &&& p.len() >= 1
    &&& forall|k: int| 0 <= k < p.len() ==> a.contains(#[trigger] p[k]) && !avoid.contains(p[k])
    &&& forall|k: int| 0 <= k < p.len() - 1 ==> imports[#[trigger] p[k] as int]@.contains(p[k + 1])
}

/// `x` is reachable from `r` through async modules outside `avoid`.
pub open spec fn reaches(a: Set<usize>, imports: Seq<Vec<usize>>, avoid: Set<usize>, r: usize, x: usize) -> bool {
    exists|p: Seq<usize>| #[trigger] is_async_path(a, imports, avoid, p) && p[0] == r && p.last() == x
}

/// Every async static import of a member of `c` lies in `c` or in `done`.
pub open spec fn deps_closed(a: Set<usize>, imports: Seq<Vec<usize>>, c: Set<usize>, done: Set<usize>) -> bool {
    forall|x: usize, q: int|
        c.contains(x) && 0 <= q < imports[x as int]@.len() && a.contains(#[trigger] imports[x as int]@[q]) ==> (c.contains(
            imports[x as int]@[q],
        ) || done.contains(imports[x as int]@[q]))
}

/// Depth-first collection of the async modules reachable from `root`
/// through async imports, skipping modules already assigned to a chunk.
fn collect_chunk(
    async_modules: &HashSet<usize>,
    imports: &[Vec<usize>],
    root: usize,
    assigned: &mut HashSet<usize>,
) -> (chunk: Vec<usize>)
    requires
        forall|m: usize| async_modules@.contains(m) ==> m < imports@.len(),
        async_modules@.finite(),
        old(assigned)@.subset_of(async_modules@),
    ensures
        chunk@.no_duplicates(),
        final(assigned)@ == old(assigned)@.union(chunk@.to_set()),
        final(assigned)@.subset_of(async_modules@),
        forall|k: int| 0 <= k < chunk@.len() ==> !old(assigned)@.contains(#[trigger] chunk@[k]),
        forall|x: usize| #[trigger] chunk@.contains(x) ==> reaches(async_modules@, imports@, old(assigned)@, root, x),
        deps_closed(async_modules@, imports@, chunk@.to_set(), old(assigned)@),
        async_modules@.contains(root) && !old(assigned)@.contains(root) ==> chunk@.contains(root),
{
    let ghost a = async_modules@;
    let ghost p0 = assigned@;
    let mut chunk: Vec<usize> = Vec::new();
    let mut stack: Vec<usize> = Vec::new();
    stack.push(root);
    proof {
        assert(stack@[0] == root);
        if a.contains(root) && !p0.contains(root) {
            assert(is_async_path(a, imports@, p0, seq![root]));
        }
    }
    while stack.len() > 0
        invariant
            a == async_modules@,
            a.finite(),
            forall|m: usize| a.contains(m) ==> m < imports@.len(),
            p0.subset_of(a),
            assigned@ == p0.union(chunk@.to_set()),
            assigned@.subset_of(a),
            chunk@.no_duplicates(),
            forall|k: int| 0 <= k < chunk@.len() ==> !p0.contains(#[trigger] chunk@[k]),
            forall|x: usize| #[trigger] chunk@.contains(x) ==> reaches(a, imports@, p0, root, x),
            forall|k: int| 0 <= k < stack@.len() && a.contains(#[trigger] stack@[k]) && !p0.contains(stack@[k])
                ==> reaches(a, imports@, p0, root, stack@[k]),
            forall|x: usize, q: int|
                chunk@.contains(x) && 0 <= q < imports@[x as int]@.len() && a.contains(#[trigger] imports@[x as int]@[q])
                    ==> (assigned@.contains(imports@[x as int]@[q]) || stack@.contains(imports@[x as int]@[q])),
            a.contains(root) && !p0.contains(root) ==> chunk@.contains(root) || stack@.contains(root),
        decreases a.len() - assigned@.len(), stack@.len(),
    {
        proof {
            vstd::set_lib::lemma_len_subset(assigned@, a);
        }
        let ghost old_stack = stack@;
        let ghost old_assigned = assigned@;
        let m = stack.pop().unwrap();
        proof {
            assert(old_stack == stack@.push(m));
            assert forall|y: usize| old_stack.contains(y) && y != m implies stack@.contains(y) by {
                let k = choose|k: int| 0 <= k < old_stack.len() && old_stack[k] == y;
                assert(k < stack@.len());
                assert(stack@[k] == y);
            }
            assert forall|k: int| 0 <= k < stack@.len() implies #[trigger] stack@[k] == old_stack[k] by {}
        }
        if !async_modules.contains(&m) || !assigned.insert(m) {
            proof {
                assert forall|x: usize, q: int|
                    chunk@.contains(x) && 0 <= q < imports@[x as int]@.len() && a.contains(#[trigger] imports@[x as int]@[q])
                        implies (assigned@.contains(imports@[x as int]@[q]) || stack@.contains(imports@[x as int]@[q])) by {
                    let y = imports@[x as int]@[q];
                    if !assigned@.contains(y) {
                        assert(old_stack.contains(y));
                    }
                }
            }
            continue;
        }
        let ghost pre_chunk = chunk@;
        proof {
            assert(a.contains(m));
            assert(!p0.contains(m));
            assert(old_stack[old_stack.len() - 1] == m);
            assert(reaches(a, imports@, p0, root, m));
            assert(!pre_chunk.contains(m));
        }
        chunk.push(m);
        proof {
            assert(assigned@ == old_assigned.insert(m));
            assert(assigned@.len() == old_assigned.len() + 1);
            assert(chunk@ == pre_chunk.push(m));
            assert forall|x: usize| #[trigger] chunk@.contains(x) <==> (pre_chunk.contains(x) || x == m) by {
                if chunk@.contains(x) {
                    let k = choose|k: int| 0 <= k < chunk@.len() && chunk@[k] == x;
                    if k < pre_chunk.len() {
                        assert(pre_chunk[k] == x);
                    }
                }
                if pre_chunk.contains(x) {
                    let k = choose|k: int| 0 <= k < pre_chunk.len() && pre_chunk[k] == x;
                    assert(chunk@[k] == x);
                }
                if x == m {
                    assert(chunk@[pre_chunk.len() as int] == m);
                }
            }
            assert(assigned@ =~= p0.union(chunk@.to_set()));
            assert(chunk@.no_duplicates()) by {
                assert forall|i: int, j: int| 0 <= i < chunk@.len() && 0 <= j < chunk@.len() && i != j implies chunk@[i] != chunk@[j] by {
                    if i < pre_chunk.len() && j < pre_chunk.len() {
                    } else if i == pre_chunk.len() {
                        assert(pre_chunk.contains(chunk@[j]));
                    } else {
                        assert(pre_chunk.contains(chunk@[i]));
                    }
                }
            }
        }
        proof {
            vstd::set_lib::lemma_len_subset(assigned@, a);
        }
        let deps = &imports[m];
        let ghost mpath = choose|p: Seq<usize>| #[trigger] is_async_path(a, imports@, p0, p) && p[0] == root && p.last() == m;
        let mut q: usize = 0;
        while q < deps.len()
            invariant
                a == async_modules@,
                a.finite(),
                forall|mm: usize| a.contains(mm) ==> mm < imports@.len(),
                p0.subset_of(a),
                m < imports@.len(),
                deps@ == imports@[m as int]@,
                is_async_path(a, imports@, p0, mpath) && mpath[0] == root && mpath.last() == m,
                assigned@ == p0.union(chunk@.to_set()),
                assigned@.subset_of(a),
                chunk@.no_duplicates(),
                chunk@.contains(m),
                forall|k: int| 0 <= k < chunk@.len() ==> !p0.contains(#[trigger] chunk@[k]),
                forall|x: usize| #[trigger] chunk@.contains(x) ==> reaches(a, imports@, p0, root, x),
                forall|k: int| 0 <= k < stack@.len() && a.contains(#[trigger] stack@[k]) && !p0.contains(stack@[k])
                    ==> reaches(a, imports@, p0, root, stack@[k]),
                forall|x: usize, q2: int|
                    chunk@.contains(x) && x != m && 0 <= q2 < imports@[x as int]@.len() && a.contains(
                        #[trigger] imports@[x as int]@[q2],
                    ) ==> (assigned@.contains(imports@[x as int]@[q2]) || stack@.contains(imports@[x as int]@[q2])),
                forall|q2: int| 0 <= q2 < q && a.contains(#[trigger] deps@[q2]) ==> (assigned@.contains(deps@[q2])
                    || stack@.contains(deps@[q2])),
                a.contains(root) && !p0.contains(root) ==> chunk@.contains(root) || stack@.contains(root),
                q <= deps@.len(),
            decreases deps@.len() - q,
        {
            let dep = deps[q];
            let ghost st = stack@;
            if async_modules.contains(&dep) && !assigned.contains(&dep) {
                stack.push(dep);
                proof {
                    let np = mpath.push(dep);
                    assert(imports@[m as int]@.contains(dep)) by {
                        assert(imports@[m as int]@[q as int] == dep);
                    }
                    assert(is_async_path(a, imports@, p0, np)) by {
                        assert forall|k: int| 0 <= k < np.len() - 1 implies imports@[#[trigger] np[k] as int]@.contains(np[k + 1]) by {
                            if k < mpath.len() - 1 {
                                assert(np[k] == mpath[k] && np[k + 1] == mpath[k + 1]);
                            } else {
                                assert(np[k] == m);
                            }
                        }
                    }
                    assert(np[0] == root && np.last() == dep);
                    assert(reaches(a, imports@, p0, root, dep));
                    assert forall|y: usize| st.contains(y) implies stack@.contains(y) by {
                        let k = choose|k: int| 0 <= k < st.len() && st[k] == y;
                        assert(stack@[k] == y);
                    }
                    assert(stack@[st.len() as int] == dep);
                    assert forall|k: int| 0 <= k < stack@.len() && a.contains(#[trigger] stack@[k]) && !p0.contains(stack@[k])
                        implies reaches(a, imports@, p0, root, stack@[k]) by {
                        if k < st.len() {
                            assert(stack@[k] == st[k]);
                        }
                    }
                }
            }
            q = q + 1;
        }
        proof {
            assert forall|x: usize, q2: int|
                chunk@.contains(x) && 0 <= q2 < imports@[x as int]@.len() && a.contains(#[trigger] imports@[x as int]@[q2])
                    implies (assigned@.contains(imports@[x as int]@[q2]) || stack@.contains(imports@[x as int]@[q2])) by {
                if x == m {
                    assert(deps@[q2] == imports@[x as int]@[q2]);
                }
            }
        }
    }
    proof {
        assert forall|x: usize, q: int|
            chunk@.to_set().contains(x) && 0 <= q < imports@[x as int]@.len() && a.contains(#[trigger] imports@[x as int]@[q])
                implies (chunk@.to_set().contains(imports@[x as int]@[q]) || p0.contains(imports@[x as int]@[q])) by {
            assert(chunk@.contains(x));
            assert(assigned@.contains(imports@[x as int]@[q]));
        }
    }
    chunk
}

/// `m` is an async module that no other async module imports: a chunk root.
pub open spec fn is_chunk_root(a: Set<usize>, imports: Seq<Vec<usize>>, m: usize) -> bool {
    &&& a.contains(m)
    &&& forall|x: usize| #[trigger] a.contains(x) && x != m ==> !imports[x as int]@.contains(m)
}

/// The modules that seed a chunk: the chunk roots, or, when there is none,
/// the smallest async module.
pub open spec fn is_seed(a: Set<usize>, imports: Seq<Vec<usize>>, r: usize) -> bool {
    if exists|t: usize| is_chunk_root(a, imports, t) {
        is_chunk_root(a, imports, r)
    } else {
        a.contains(r) && forall|x: usize| a.contains(x) ==> r <= x
    }
}

/// A chunk root is reached through async modules only from itself.
proof fn lemma_root_only_from_itself(a: Set<usize>, imports: Seq<Vec<usize>>, avoid: Set<usize>, r: usize, x: usize)
    requires
        is_chunk_root(a, imports, x),
        reaches(a, imports, avoid, r, x),
    ensures
        x == r,
{
    let p = choose|p: Seq<usize>| #[trigger] is_async_path(a, imports, avoid, p) && p[0] == r && p.last() == x;
    lemma_path_back_to_root(a, imports, avoid, x, p, p.len() - 1);
}

proof fn lemma_path_back_to_root(a: Set<usize>, imports: Seq<Vec<usize>>, avoid: Set<usize>, x: usize, p: Seq<usize>, k: int)
    requires
        is_chunk_root(a, imports, x),
        is_async_path(a, imports, avoid, p),
        0 <= k < p.len(),
        p[k] == x,
    ensures
        p[0] == x,
    decreases k,
{
    if k > 0 {
        let y = p[k - 1];
        assert(imports[y as int]@.contains(p[k]));
        assert(a.contains(y));
        if y != x {
            assert(!imports[y as int]@.contains(x));
        }
        lemma_path_back_to_root(a, imports, avoid, x, p, k - 1);
    }
}

/// A set that holds `r` and is closed under async imports outside `done`
/// holds all that `r` reaches around `done`.
proof fn lemma_closed_holds_reach(a: Set<usize>, imports: Seq<Vec<usize>>, c: Set<usize>, done: Set<usize>, r: usize, x: usize)
    requires
        c.contains(r),
        deps_closed(a, imports, c, done),
        reaches(a, imports, done, r, x),
    ensures
        c.contains(x),
{
    let p = choose|p: Seq<usize>| #[trigger] is_async_path(a, imports, done, p) && p[0] == r && p.last() == x;
    lemma_closed_holds_path(a, imports, c, done, p, p.len() - 1);
}

proof fn lemma_closed_holds_path(a: Set<usize>, imports: Seq<Vec<usize>>, c: Set<usize>, done: Set<usize>, p: Seq<usize>, k: int)
    requires
        c.contains(p[0]),
        deps_closed(a, imports, c, done),
        is_async_path(a, imports, done, p),
        0 <= k < p.len(),
    ensures
        c.contains(p[k]),
    decreases k,
{
    if k > 0 {
        lemma_closed_holds_path(a, imports, c, done, p, k - 1);
        assert(imports[p[k - 1] as int]@.contains(p[k]));
        let row = imports[p[k - 1] as int]@;
        let q = choose|q: int| 0 <= q < row.len() && row[q] == p[k];
        assert(a.contains(p[k]));
        assert(!done.contains(p[k]));
    }
}

/// Whether no member of `members` other than `m` imports `m`.
fn unimported(imports: &[Vec<usize>], members: &Vec<usize>, m: usize) -> (b: bool)
    requires
        forall|k: int| 0 <= k < members@.len() ==> #[trigger] members@[k] < imports@.len(),
    ensures
        b == forall|k: int| 0 <= k < members@.len() && #[trigger] members@[k] != m ==> !imports@[members@[k] as int]@.contains(m),
{
    let mut q: usize = 0;
    while q < members.len()
        invariant
            q <= members@.len(),
            forall|k: int| 0 <= k < members@.len() ==> #[trigger] members@[k] < imports@.len(),
            forall|k: int| 0 <= k < q && #[trigger] members@[k] != m ==> !imports@[members@[k] as int]@.contains(m),
        decreases members@.len() - q,
    {
        let x = members[q];
        if x != m && slice_contains(imports[x].as_slice(), m) {
            return false;
        }
        q = q + 1;
    }
    true
}

/// The chunk roots among `members`, in the order of `members`.
fn find_roots(async_modules: &HashSet<usize>, imports: &[Vec<usize>], members: &Vec<usize>) -> (roots: Vec<usize>)
    requires
        forall|m: usize| async_modules@.contains(m) ==> m < imports@.len(),
        members@.to_set() == async_modules@,
        members@.no_duplicates(),
    ensures
        roots@.no_duplicates(),
        forall|m: usize| #[trigger] roots@.contains(m) <==> is_chunk_root(async_modules@, imports@, m),
{
    let ghost a = async_modules@;
    proof {
        assert forall|k: int| 0 <= k < members@.len() implies #[trigger] members@[k] < imports@.len() by {
            assert(members@.to_set().contains(members@[k]));
        }
    }
    let mut roots: Vec<usize> = Vec::new();
    let mut t: usize = 0;
    while t < members.len()
        invariant
            a == async_modules@,
            forall|m: usize| a.contains(m) ==> m < imports@.len(),
            forall|k: int| 0 <= k < members@.len() ==> #[trigger] members@[k] < imports@.len(),
            members@.to_set() == a,
            members@.no_duplicates(),
            t <= members@.len(),
            roots@.no_duplicates(),
            forall|m: usize| #[trigger] roots@.contains(m) <==> (members@.take(t as int).contains(m) && is_chunk_root(a, imports@, m)),
        decreases members@.len() - t,
    {
        let m = members[t];
        proof {
            assert(members@.contains(m));
            assert(a.contains(m));
        }
        let free = unimported(imports, members, m);
        let ghost pre = roots@;
        proof {
            assert(members@.take(t + 1) =~= members@.take(t as int).push(m));
            assert(!members@.take(t as int).contains(m)) by {
                if members@.take(t as int).contains(m) {
                    let k = choose|k: int| 0 <= k < t && members@.take(t as int)[k] == m;
                    assert(members@[k] == members@[t as int]);
                }
            }
            assert(free == is_chunk_root(a, imports@, m)) by {
                if free {
                    assert forall|x: usize| #[trigger] a.contains(x) && x != m implies !imports@[x as int]@.contains(m) by {
                        assert(members@.to_set().contains(x));
                        let k = choose|k: int| 0 <= k < members@.len() && members@[k] == x;
                        assert(members@[k] != m);
                    }
                } else {
                    let k = choose|k: int| 0 <= k < members@.len() && #[trigger] members@[k] != m && imports@[members@[k] as int]@.contains(m);
                    assert(members@.to_set().contains(members@[k]));
                    assert(a.contains(members@[k]));
                }
            }
        }
        if free {
            roots.push(m);
            proof {
                assert(roots@ == pre.push(m));
                assert forall|x: usize| #[trigger] roots@.contains(x) <==> (pre.contains(x) || x == m) by {
                    if roots@.contains(x) {
                        let k = choose|k: int| 0 <= k < roots@.len() && roots@[k] == x;
                        if k < pre.len() {
                            assert(pre[k] == x);
                        }
                    }
                    if pre.contains(x) {
                        let k = choose|k: int| 0 <= k < pre.len() && pre[k] == x;
                        assert(roots@[k] == x);
                    }
                    if x == m {
                        assert(roots@[pre.len() as int] == m);
                    }
                }
                assert(roots@.no_duplicates()) by {
                    assert forall|i: int, j: int| 0 <= i < roots@.len() && 0 <= j < roots@.len() && i != j implies roots@[i] != roots@[j] by {
                        if i < pre.len() && j < pre.len() {
                        } else if i == pre.len() {
                            assert(pre.contains(roots@[j]));
                        } else {
                            assert(pre.contains(roots@[i]));
                        }
                    }
                }
            }
        }
        proof {
            let tk = members@.take(t as int);
            let tk1 = members@.take(t + 1);
            assert forall|x: usize| #[trigger] tk1.contains(x) <==> (tk.contains(x) || x == m) by {
                lemma_take_push_contains(members@, t as int, x);
            }
        }
        t = t + 1;
    }
    proof {
        assert(members@.take(members@.len() as int) =~= members@);
        assert forall|m: usize| #[trigger] roots@.contains(m) <==> is_chunk_root(a, imports@, m) by {
            if is_chunk_root(a, imports@, m) {
                assert(members@.to_set().contains(m));
            }
        }
    }
    roots
}

/// The smallest member of a non-empty list.
fn smallest(members: &Vec<usize>) -> (m: usize)
    requires
        members@.len() > 0,
    ensures
        members@.contains(m),
        forall|k: int| 0 <= k < members@.len() ==> m <= #[trigger] members@[k],
{
    let mut best = members[0];
    let mut t: usize = 1;
    while t < members.len()
        invariant
            1 <= t <= members@.len(),
            members@.contains(best),
            forall|k: int| 0 <= k < t ==> best <= #[trigger] members@[k],
        decreases members@.len() - t,
    {
        if members[t] < best {
            best = members[t];
        }
        t = t + 1;
    }
    best
}

pub open spec fn strictly_increasing(s: Seq<usize>) -> bool {
    forall|a: int, b: int| 0 <= a < b < s.len() ==> s[a] < s[b]
}

/// Some chunk holds `x`.
pub open spec fn in_some_chunk(chunks: Seq<Vec<usize>>, x: usize) -> bool {
    exists|c: int| 0 <= c < chunks.len() && #[trigger] chunks[c]@.contains(x)
}

/// The chunks are non-empty, sorted, and pairwise disjoint.
pub open spec fn chunks_disjoint_sorted(chunks: Seq<Vec<usize>>) -> bool {
    &&& forall|c: int| 0 <= c < chunks.len() ==> (#[trigger] chunks[c])@.len() >= 1 && strictly_increasing(chunks[c]@)
    &&& forall|c1: int, c2: int, x: usize|
        0 <= c1 < chunks.len() && 0 <= c2 < chunks.len() && c1 != c2 && #[trigger] chunks[c1]@.contains(x)
            ==> !(#[trigger] chunks[c2]@.contains(x))
}

/// The modules of the chunks before chunk `c`.
pub open spec fn earlier(chunks: Seq<Vec<usize>>, c: int) -> Set<usize> {
    Set::new(|x: usize| exists|d: int| 0 <= d < c && #[trigger] chunks[d]@.contains(x))
}

/// Chunk `c` is seeded by `r`: it holds `r` and exactly what `r` reaches
/// through async modules that no earlier chunk took.
pub open spec fn seed_chunk(a: Set<usize>, imports: Seq<Vec<usize>>, chunks: Seq<Vec<usize>>, c: int, r: usize) -> bool {
    &&& chunks[c]@.contains(r)
    &&& forall|x: usize| #[trigger] chunks[c]@.contains(x) <==> reaches(a, imports, earlier(chunks, c), r, x)
}

/// The chunks start with one chunk per seed, in ascending seed order, each
/// owning what its seed reaches through async modules not taken by an
/// earlier chunk; every later chunk is a single module that is no seed.
pub open spec fn seeded_chunks(a: Set<usize>, imports: Seq<Vec<usize>>, chunks: Seq<Vec<usize>>) -> bool {
    exists|k: int| #[trigger] seeded_upto(a, imports, chunks, k)
}

/// Some seed seeds chunk `c`.
pub open spec fn seeded_at(a: Set<usize>, imports: Seq<Vec<usize>>, chunks: Seq<Vec<usize>>, c: int) -> bool {
    exists|r: usize| is_seed(a, imports, r) && #[trigger] seed_chunk(a, imports, chunks, c, r)
}

/// `seeded_chunks` with the first `k` chunks seeded.
pub open spec fn seeded_upto(a: Set<usize>, imports: Seq<Vec<usize>>, chunks: Seq<Vec<usize>>, k: int) -> bool {
        {
            &&& 0 <= k <= chunks.len()
            &&& forall|r: usize| #[trigger] is_seed(a, imports, r) ==> exists|c: int| 0 <= c < k && #[trigger] chunks[c]@.contains(r)
            &&& forall|c: int| 0 <= c < k ==> #[trigger] seeded_at(a, imports, chunks, c)
            &&& forall|c1: int, c2: int, r1: usize, r2: usize|
                0 <= c1 < c2 < k && is_seed(a, imports, r1) && is_seed(a, imports, r2) && #[trigger] seed_chunk(a, imports, chunks, c1, r1)
                    && #[trigger] seed_chunk(a, imports, chunks, c2, r2) ==> r1 < r2
            &&& forall|c: int| k <= c < chunks.len() ==> (#[trigger] chunks[c])@.len() == 1 && !is_seed(a, imports, chunks[c]@[0])
        }
}

/// Two seeds in one chunk are the same module.
proof fn lemma_one_seed(a: Set<usize>, imports: Seq<Vec<usize>>, chunks: Seq<Vec<usize>>, c: int, r: usize, s: usize)
    requires
        is_seed(a, imports, r),
        is_seed(a, imports, s),
        seed_chunk(a, imports, chunks, c, r),
        chunks[c]@.contains(s),
    ensures
        r == s,
{
    if exists|t: usize| is_chunk_root(a, imports, t) {
        assert(reaches(a, imports, earlier(chunks, c), r, s));
        lemma_root_only_from_itself(a, imports, earlier(chunks, c), r, s);
    }
}

/// The chunks seeded in the root loop, followed by one-module chunks of
/// non-seeds, are `seeded_chunks`.
proof fn lemma_seeded_final(a: Set<usize>, imports: Seq<Vec<usize>>, roots: Seq<usize>, rc: Seq<Vec<usize>>, cs: Seq<Vec<usize>>)
    requires
        strictly_increasing(roots),
        forall|x: usize| #[trigger] roots.contains(x) <==> is_seed(a, imports, x),
        rc.len() == roots.len(),
        forall|c: int| 0 <= c < rc.len() ==> #[trigger] seed_chunk(a, imports, rc, c, roots[c]),
        cs.len() >= rc.len(),
        forall|c: int| 0 <= c < rc.len() ==> #[trigger] cs[c] == rc[c],
        forall|c: int| rc.len() <= c < cs.len() ==> (#[trigger] cs[c])@.len() == 1 && !is_seed(a, imports, cs[c]@[0]),
    ensures
        seeded_chunks(a, imports, cs),
{
    let k = rc.len() as int;
    assert forall|c: int| 0 <= c < k implies #[trigger] earlier(cs, c) == earlier(rc, c) by {
        assert forall|x: usize| earlier(cs, c).contains(x) <==> earlier(rc, c).contains(x) by {
            if earlier(cs, c).contains(x) {
                let d = choose|d: int| 0 <= d < c && #[trigger] cs[d]@.contains(x);
                assert(cs[d] == rc[d]);
            }
            if earlier(rc, c).contains(x) {
                let d = choose|d: int| 0 <= d < c && #[trigger] rc[d]@.contains(x);
                assert(cs[d] == rc[d]);
            }
        }
        assert(earlier(cs, c) =~= earlier(rc, c));
    }
    assert forall|c: int, r: usize| 0 <= c < k implies #[trigger] seed_chunk(a, imports, cs, c, r) == seed_chunk(a, imports, rc, c, r) by {
        assert(cs[c] == rc[c]);
        assert(earlier(cs, c) == earlier(rc, c));
    }
    assert forall|r: usize| #[trigger] is_seed(a, imports, r) implies exists|c: int| 0 <= c < k && #[trigger] cs[c]@.contains(r) by {
        assert(roots.contains(r));
        let c = choose|c: int| 0 <= c < roots.len() && roots[c] == r;
        assert(seed_chunk(a, imports, rc, c, roots[c]));
        assert(cs[c] == rc[c]);
    }
    assert forall|c: int| 0 <= c < k implies #[trigger] seeded_at(a, imports, cs, c) by {
        assert(seed_chunk(a, imports, rc, c, roots[c]));
        assert(roots.contains(roots[c]));
        assert(seed_chunk(a, imports, cs, c, roots[c]));
    }
    assert forall|c1: int, c2: int, r1: usize, r2: usize|
        0 <= c1 < c2 < k && is_seed(a, imports, r1) && is_seed(a, imports, r2) && #[trigger] seed_chunk(a, imports, cs, c1, r1)
            && #[trigger] seed_chunk(a, imports, cs, c2, r2) implies r1 < r2 by {
        assert(seed_chunk(a, imports, rc, c1, roots[c1]));
        assert(seed_chunk(a, imports, rc, c2, roots[c2]));
        assert(seed_chunk(a, imports, cs, c1, roots[c1]));
        assert(seed_chunk(a, imports, cs, c2, roots[c2]));
        assert(roots.contains(roots[c1]) && roots.contains(roots[c2]));
        lemma_one_seed(a, imports, cs, c1, roots[c1], r1);
        lemma_one_seed(a, imports, cs, c2, roots[c2], r2);
    }
    assert(seeded_upto(a, imports, cs, k));
    assert(seeded_chunks(a, imports, cs));
}

/// Group async modules into chunks: each chunk root (an async module no
/// other async module imports) owns the async modules it reaches that an
/// earlier root did not take.
///
/// The chunks partition the async set. Roots are taken in ascending
/// order; when there is none, the smallest async module seeds the first
/// chunk. Modules left over (in import cycles away from every seed) form
/// one-module chunks, in the set's iteration order.
#[verifier::spinoff_prover]
#[verifier::rlimit(100)]
pub fn group_async_chunks(async_modules: &HashSet<usize>, imports: &[Vec<usize>]) -> (chunks: Vec<Vec<usize>>)
    requires
        forall|m: usize| async_modules@.contains(m) ==> m < imports@.len(),
    ensures
        chunks_disjoint_sorted(chunks@),
        forall|x: usize| #[trigger] async_modules@.contains(x) <==> in_some_chunk(chunks@, x),
        seeded_chunks(async_modules@, imports@, chunks@),
{
    let ghost a = async_modules@;
    let ghost has_root = exists|r: usize| is_chunk_root(a, imports@, r);
    let members = set_members(async_modules);
    proof {
        vstd::seq_lib::seq_to_set_is_finite(members@);
    }
    let mut roots = find_roots(async_modules, imports, &members);
    let ghost found = roots@;
    let ghost mut m0: usize = 0;
    if roots.len() == 0 && !async_modules.is_empty() {
        let m = smallest(&members);
        proof {
            m0 = m;
            assert(a.contains(m));
            assert forall|x: usize| a.contains(x) implies m <= x by {
                assert(members@.to_set().contains(x));
                let k = choose|k: int| 0 <= k < members@.len() && members@[k] == x;
            }
        }
        roots.push(m);
    }
    proof {
        if has_root {
            let r = choose|r: usize| is_chunk_root(a, imports@, r);
            assert(found.contains(r));
            assert(found.len() > 0);
            assert(roots@ == found);
        }
        if !has_root && !a.is_empty() {
            assert(found.len() == 0) by {
                if found.len() > 0 {
                    assert(found.contains(found[0]));
                }
            }
            assert(roots@ =~= seq![m0]);
        }
        if a.is_empty() {
            assert(roots@.len() == 0) by {
                if roots@.len() > 0 {
                    assert(roots@.contains(roots@[0]));
                }
            }
        }
        assert(roots@.no_duplicates());
        assert forall|x: usize| #[trigger] roots@.contains(x) <==> is_seed(a, imports@, x) by {
            if !has_root && !a.is_empty() {
                if roots@.contains(x) {
                    assert(roots@[0] == m0);
                }
                if is_seed(a, imports@, x) {
                    assert(x <= m0 && m0 <= x);
                    assert(roots@[0] == m0);
                }
            }
            if a.is_empty() && is_seed(a, imports@, x) {
                assert(a.contains(x));
            }
        }
    }
    let ghost unsorted = roots@;
    sort_usize(&mut roots);
    proof {
        lemma_sorted_members(unsorted, roots@);
        assert forall|x: usize| #[trigger] roots@.contains(x) <==> unsorted.contains(x) by {
            assert(roots@.to_set().contains(x) == unsorted.to_set().contains(x));
        }
        assert(!has_root ==> roots@.len() <= 1);
    }
    let mut chunks: Vec<Vec<usize>> = Vec::new();
    let mut assigned: HashSet<usize> = HashSet::new();
    let mut t: usize = 0;
    while t < roots.len()
        invariant
            a == async_modules@,
            a.finite(),
            forall|m: usize| a.contains(m) ==> m < imports@.len(),
            has_root == exists|r: usize| is_chunk_root(a, imports@, r),
            !has_root ==> roots@.len() <= 1,
            strictly_increasing(roots@),
            t <= roots@.len(),
            forall|x: usize| #[trigger] roots@.contains(x) <==> is_seed(a, imports@, x),
            assigned@.subset_of(a),
            chunks_disjoint_sorted(chunks@),
            forall|x: usize| #[trigger] in_some_chunk(chunks@, x) <==> assigned@.contains(x),
            chunks@.len() == t,
            forall|c: int| 0 <= c < t ==> #[trigger] seed_chunk(a, imports@, chunks@, c, roots@[c]),
        decreases roots@.len() - t,
    {
        let r = roots[t];
        let ghost before = assigned@;
        let ghost old_chunks = chunks@;
        proof {
            assert(roots@.contains(r));
            assert(is_seed(a, imports@, r));
            assert(a.contains(r));
            assert(!before.contains(r)) by {
                if before.contains(r) {
                    assert(in_some_chunk(old_chunks, r));
                    let d = choose|d: int| 0 <= d < old_chunks.len() && #[trigger] old_chunks[d]@.contains(r);
                    assert(seed_chunk(a, imports@, old_chunks, d, roots@[d]));
                    assert(has_root);
                    assert(reaches(a, imports@, earlier(old_chunks, d), roots@[d], r));
                    lemma_root_only_from_itself(a, imports@, earlier(old_chunks, d), roots@[d], r);
                    assert(roots@[d] < roots@[t as int]);
                }
            }
            assert(before =~= earlier(old_chunks, t as int)) by {
                assert forall|x: usize| before.contains(x) <==> earlier(old_chunks, t as int).contains(x) by {
                    assert(in_some_chunk(old_chunks, x) <==> before.contains(x));
                }
            }
        }
        let mut chunk = collect_chunk(async_modules, imports, r, &mut assigned);
        let ghost uc = chunk@;
        proof {
            assert(uc.contains(r));
            assert forall|x: usize| #[trigger] uc.contains(x) <==> reaches(a, imports@, before, r, x) by {
                if reaches(a, imports@, before, r, x) {
                    lemma_closed_holds_reach(a, imports@, uc.to_set(), before, r, x);
                }
            }
        }
        sort_usize(&mut chunk);
        proof {
            lemma_sorted_members(uc, chunk@);
        }
        chunks.push(chunk);
        proof {
            let nc = chunks@[chunks@.len() - 1]@;
            assert(nc == chunk@);
            assert forall|x: usize| #[trigger] nc.contains(x) <==> uc.contains(x) by {
                assert(nc.to_set().contains(x) == uc.to_set().contains(x));
            }
            assert forall|c: int| 0 <= c < chunks@.len() implies (#[trigger] chunks@[c])@.len() >= 1 && strictly_increasing(chunks@[c]@) by {
                if c < old_chunks.len() {
                    assert(chunks@[c] == old_chunks[c]);
                } else {
                    assert(nc.contains(r));
                }
            }
            assert forall|c1: int, c2: int, x: usize|
                0 <= c1 < chunks@.len() && 0 <= c2 < chunks@.len() && c1 != c2 && #[trigger] chunks@[c1]@.contains(x)
                    implies !(#[trigger] chunks@[c2]@.contains(x)) by {
                if c1 < old_chunks.len() && c2 < old_chunks.len() {
                    assert(chunks@[c1] == old_chunks[c1]);
                    assert(chunks@[c2] == old_chunks[c2]);
                } else if c1 == old_chunks.len() {
                    assert(chunks@[c2] == old_chunks[c2]);
                    if chunks@[c2]@.contains(x) {
                        assert(in_some_chunk(old_chunks, x));
                        let k = choose|k: int| 0 <= k < uc.len() && uc[k] == x;
                    }
                } else {
                    assert(chunks@[c1] == old_chunks[c1]);
                    assert(in_some_chunk(old_chunks, x));
                    if chunks@[c2]@.contains(x) {
                        let k = choose|k: int| 0 <= k < uc.len() && uc[k] == x;
                    }
                }
            }
            assert forall|x: usize| #[trigger] in_some_chunk(chunks@, x) <==> assigned@.contains(x) by {
                assert(in_some_chunk(old_chunks, x) <==> before.contains(x));
                if in_some_chunk(chunks@, x) {
                    let c = choose|c: int| 0 <= c < chunks@.len() && #[trigger] chunks@[c]@.contains(x);
                    if c < old_chunks.len() {
                        assert(chunks@[c] == old_chunks[c]);
                        assert(in_some_chunk(old_chunks, x));
                    } else {
                        assert(uc.to_set().contains(x));
                    }
                }
                if assigned@.contains(x) {
                    if before.contains(x) {
                        let c = choose|c: int| 0 <= c < old_chunks.len() && #[trigger] old_chunks[c]@.contains(x);
                        assert(chunks@[c] == old_chunks[c]);
                    } else {
                        assert(uc.to_set().contains(x));
                        assert(nc.contains(x));
                    }
                }
            }
            assert forall|c: int| 0 <= c < t + 1 implies #[trigger] seed_chunk(a, imports@, chunks@, c, roots@[c]) by {
                if c < t {
                    assert(chunks@[c] == old_chunks[c]);
                    assert(earlier(chunks@, c) =~= earlier(old_chunks, c)) by {
                        assert forall|x: usize| earlier(chunks@, c).contains(x) <==> earlier(old_chunks, c).contains(x) by {
                            if earlier(chunks@, c).contains(x) {
                                let d = choose|d: int| 0 <= d < c && #[trigger] chunks@[d]@.contains(x);
                                assert(chunks@[d] == old_chunks[d]);
                            }
                            if earlier(old_chunks, c).contains(x) {
                                let d = choose|d: int| 0 <= d < c && #[trigger] old_chunks[d]@.contains(x);
                                assert(chunks@[d] == old_chunks[d]);
                            }
                        }
                    }
                    assert(seed_chunk(a, imports@, old_chunks, c, roots@[c]));
                } else {
                    assert(earlier(chunks@, c) =~= earlier(old_chunks, c)) by {
                        assert forall|x: usize| earlier(chunks@, c).contains(x) <==> earlier(old_chunks, c).contains(x) by {
                            if earlier(chunks@, c).contains(x) {
                                let d = choose|d: int| 0 <= d < c && #[trigger] chunks@[d]@.contains(x);
                                assert(chunks@[d] == old_chunks[d]);
                            }
                            if earlier(old_chunks, c).contains(x) {
                                let d = choose|d: int| 0 <= d < c && #[trigger] old_chunks[d]@.contains(x);
                                assert(chunks@[d] == old_chunks[d]);
                            }
                        }
                    }
                    assert(chunks@[c]@ == nc);
                }
            }
        }
        t = t + 1;
    }
    let ghost rc = chunks@;
    let ghost k = rc.len() as int;
    proof {
        assert forall|x: usize| #[trigger] is_seed(a, imports@, x) implies assigned@.contains(x) by {
            assert(roots@.contains(x));
            let c = choose|c: int| 0 <= c < roots@.len() && roots@[c] == x;
            assert(seed_chunk(a, imports@, chunks@, c, roots@[c]));
            assert(in_some_chunk(chunks@, x));
        }
    }
    let mut t2: usize = 0;
    while t2 < members.len()
        invariant
            a == async_modules@,
            members@.to_set() == a,
            members@.no_duplicates(),
            t2 <= members@.len(),
            assigned@.subset_of(a),
            chunks_disjoint_sorted(chunks@),
            forall|x: usize| #[trigger] in_some_chunk(chunks@, x) <==> (assigned@.contains(x) || (members@.take(t2 as int).contains(x)
                && !assigned@.contains(x))),
            forall|x: usize| #[trigger] is_seed(a, imports@, x) ==> assigned@.contains(x),
            k == rc.len(),
            chunks@.len() >= k,
            forall|c: int| 0 <= c < k ==> #[trigger] chunks@[c] == rc[c],
            forall|c: int| k <= c < chunks@.len() ==> (#[trigger] chunks@[c])@.len() == 1 && !is_seed(a, imports@, chunks@[c]@[0]),
        decreases members@.len() - t2,
    {
        let m = members[t2];
        let ghost old_chunks = chunks@;
        if !assigned.contains(&m) {
            let single = vec![m];
            chunks.push(single);
            proof {
                let nc = chunks@[chunks@.len() - 1]@;
                assert(nc =~= seq![m]);
                assert(!in_some_chunk(old_chunks, m)) by {
                    let tk = members@.take(t2 as int);
                    if tk.contains(m) {
                        let j = choose|j: int| 0 <= j < tk.len() && tk[j] == m;
                        assert(members@[j] == members@[t2 as int]);
                    }
                }
                assert forall|c1: int, c2: int, x: usize|
                    0 <= c1 < chunks@.len() && 0 <= c2 < chunks@.len() && c1 != c2 && #[trigger] chunks@[c1]@.contains(x)
                        implies !(#[trigger] chunks@[c2]@.contains(x)) by {
                    if c1 < old_chunks.len() && c2 < old_chunks.len() {
                        assert(chunks@[c1] == old_chunks[c1]);
                        assert(chunks@[c2] == old_chunks[c2]);
                    } else if c1 == old_chunks.len() {
                        assert(chunks@[c2] == old_chunks[c2]);
                        assert(x == m);
                    } else {
                        assert(chunks@[c1] == old_chunks[c1]);
                        if chunks@[c2]@.contains(x) {
                            assert(x == m);
                        }
                    }
                }
                assert forall|c: int| 0 <= c < chunks@.len() implies (#[trigger] chunks@[c])@.len() >= 1 && strictly_increasing(chunks@[c]@) by {
                    if c < old_chunks.len() {
                        assert(chunks@[c] == old_chunks[c]);
                    }
                }
                assert forall|x: usize| #[trigger] in_some_chunk(chunks@, x) <==> (assigned@.contains(x) || (members@.take(t2 + 1).contains(x)
                    && !assigned@.contains(x))) by {
                    lemma_take_push_contains(members@, t2 as int, x);
                    if in_some_chunk(chunks@, x) {
                        let c = choose|c: int| 0 <= c < chunks@.len() && #[trigger] chunks@[c]@.contains(x);
                        if c < old_chunks.len() {
                            assert(chunks@[c] == old_chunks[c]);
                            assert(in_some_chunk(old_chunks, x));
                        }
                    }
                    if in_some_chunk(old_chunks, x) {
                        let c = choose|c: int| 0 <= c < old_chunks.len() && #[trigger] old_chunks[c]@.contains(x);
                        assert(chunks@[c] == old_chunks[c]);
                    }
                    if x == m {
                        assert(chunks@[old_chunks.len() as int]@.contains(m));
                    }
                }
                assert forall|c: int| 0 <= c < k implies #[trigger] chunks@[c] == rc[c] by {
                    assert(chunks@[c] == old_chunks[c]);
                }
                assert forall|c: int| k <= c < chunks@.len() implies (#[trigger] chunks@[c])@.len() == 1 && !is_seed(a, imports@, chunks@[c]@[0]) by {
                    if c < old_chunks.len() {
                        assert(chunks@[c] == old_chunks[c]);
                    } else {
                        assert(chunks@[c]@[0] == m);
                    }
                }
            }
        } else {
            proof {
                assert forall|x: usize| #[trigger] in_some_chunk(chunks@, x) <==> (assigned@.contains(x) || (members@.take(t2 + 1).contains(x)
                    && !assigned@.contains(x))) by {
                    lemma_take_push_contains(members@, t2 as int, x);
                }
            }
        }
        t2 = t2 + 1;
    }
    proof {
        assert(members@.take(members@.len() as int) =~= members@);
        assert forall|x: usize| #[trigger] async_modules@.contains(x) <==> in_some_chunk(chunks@, x) by {
            assert(members@.to_set().contains(x) == members@.contains(x));
        }
        lemma_seeded_final(a, imports@, roots@, rc, chunks@);
    }
    chunks
}

proof fn lemma_take_push_contains(s: Seq<usize>, t: int, x: usize)
    requires
        0 <= t < s.len(),
    ensures
        s.take(t + 1).contains(x) <==> (s.take(t).contains(x) || x == s[t]),
{
    let tk = s.take(t);
    let tk1 = s.take(t + 1);
    if tk1.contains(x) {
        let k = choose|k: int| 0 <= k < tk1.len() && tk1[k] == x;
        if k < t {
            assert(tk[k] == x);
        }
    }
    if tk.contains(x) {
        let k = choose|k: int| 0 <= k < tk.len() && tk[k] == x;
        assert(tk1[k] == x);
    }
    if x == s[t] {
        assert(tk1[t] == x);
    }
}

pub(crate) fn slice_contains(s: &[usize], x: usize) -> (found: bool)
    ensures
        found == s@.contains(x),
{
    let mut i: usize = 0;
    while i < s.len()
        invariant
            i <= s@.len(),
            forall|p: int| 0 <= p < i ==> s@[p] != x,
        decreases s@.len() - i,
    {
        if s[i] == x {
            return true;
        }
        i = i + 1;
    }
    false
}

/// Split plan of every entry against the budget alone (no forced async
/// modules, no import propagation).
pub fn resolve_boundaries(
    closure: &TropicalSparseMatrix,
    entries: &[usize],
    budget_bytes: u32,
) -> (plans: Vec<SplitPlan>)
    requires
        closure.wf(),
        forall|k: int| 0 <= k < entries@.len() ==> #[trigger] entries@[k] < closure.size,
    ensures
        plans@.len() == entries@.len(),
        forall|k: int| #![trigger plans@[k]] 0 <= k < entries@.len() ==> {
            let row = closure.rows@[entries@[k] as int]@;
            let none: Seq<usize> = Seq::empty();
            &&& plans@[k].entry == entries@[k]
            &&& plans@[k].sync_modules == sync_count(row, none, budget_bytes, row.len())
            &&& plans@[k].sync_bytes == sync_cost(row, none, budget_bytes, row.len())
            &&& plans@[k].async_modules == row.len() - sync_count(row, none, budget_bytes, row.len())
            &&& plans@[k].unreachable == closure.size - row.len()
        },
{
    let mut plans: Vec<SplitPlan> = Vec::new();
    let mut e: usize = 0;
    while e < entries.len()
        invariant
            closure.wf(),
            forall|k: int| 0 <= k < entries@.len() ==> #[trigger] entries@[k] < closure.size,
            e <= entries@.len(),
            plans@.len() == e,
            forall|k: int| #![trigger plans@[k]] 0 <= k < e ==> {
                let row = closure.rows@[entries@[k] as int]@;
                let none: Seq<usize> = Seq::empty();
                &&& plans@[k].entry == entries@[k]
                &&& plans@[k].sync_modules == sync_count(row, none, budget_bytes, row.len())
                &&& plans@[k].sync_bytes == sync_cost(row, none, budget_bytes, row.len())
                &&& plans@[k].async_modules == row.len() - sync_count(row, none, budget_bytes, row.len())
                &&& plans@[k].unreachable == closure.size - row.len()
            },
        decreases entries@.len() - e,
    {
        let entry = entries[e];
        let mut direct: Vec<Vec<usize>> = Vec::new();
        let mut i: usize = 0;
        while i < closure.size
            invariant
                i <= closure.size,
                direct@.len() == i,
                forall|p: int| 0 <= p < i ==> (#[trigger] direct@[p])@.len() == 0,
            decreases closure.size - i,
        {
            direct.push(Vec::new());
            i = i + 1;
        }
        let none: Vec<usize> = Vec::new();
        let ghost row = closure.rows@[entry as int]@;
        proof {
            assert(none@ =~= Seq::<usize>::empty());
            assert(row_wf(row, closure.size as int));
            crate::tropical::lemma_row_len(row, closure.size as int);
            assert forall|k: int| 0 <= k < row.len() && starts_sync(row, none@, budget_bytes, k)
                implies (#[trigger] row[k]).0 < direct@.len() by {
            }
        }
        let c = classify_entry(closure, entry, budget_bytes, none.as_slice(), direct.as_slice());
        proof {
            let s0 = initial_sync(row, none@, budget_bytes);
            let a0 = initial_async(row, none@, budget_bytes);
            assert(import_closed(s0, s0, a0, direct@));
            assert(s0.subset_of(c.sync@));
            assert(c.sync@ =~= s0);
        }
        let sync_modules = c.sync.len();
        let async_modules = c.async_cut.len();
        plans.push(SplitPlan {
            entry,
            sync_modules,
            sync_bytes: c.sync_bytes,
            async_modules,
            unreachable: closure.size - sync_modules - async_modules,
        });
        proof {
            let ghost_row = closure.rows@[entries@[e as int] as int]@;
            assert(ghost_row == row);
            assert(plans@[e as int].sync_modules == sync_count(row, Seq::<usize>::empty(), budget_bytes, row.len()));
        }
        e = e + 1;
    }
    proof {
        assert(e == entries@.len());
    }
    plans
}

/// Classify every module reachable from `entry` into sync vs async chunks.
/// `direct_imports[i]` lists modules that `i` statically imports (not transitive).
///
/// The sync set comes out as the largest subset of the budget-respecting
/// modules none of whose static imports lands in an async chunk.
pub fn classify_entry(
    closure: &TropicalSparseMatrix,
    entry: usize,
    budget_bytes: u32,
    force_async: &[usize],
    direct_imports: &[Vec<usize>],
) -> (c: EntryClassification)
    requires
        closure.wf(),
        entry < closure.size,
        forall|k: int|
            0 <= k < closure.rows@[entry as int]@.len() && starts_sync(
                closure.rows@[entry as int]@,
                force_async@,
                budget_bytes,
                k,
            ) ==> (#[trigger] closure.rows@[entry as int]@[k]).0 < direct_imports@.len(),
    ensures
        ({
            let row = closure.rows@[entry as int]@;
            let s0 = initial_sync(row, force_async@, budget_bytes);
            let a0 = initial_async(row, force_async@, budget_bytes);
            &&& c.entry == entry
            &&& c.sync_bytes == sync_cost(row, force_async@, budget_bytes, row.len())
            &&& c.sync@.subset_of(s0)
            &&& forall|x: usize| #[trigger] c.async_cut@.contains(x) <==> (a0.contains(x) || (s0.contains(x)
                && !c.sync@.contains(x)))
            &&& import_closed(c.sync@, s0, a0, direct_imports@)
            &&& forall|x: Set<usize>| x.subset_of(s0) && #[trigger] import_closed(x, s0, a0, direct_imports@)
                ==> x.subset_of(c.sync@)
            &&& c.sync@.finite() && c.async_cut@.finite()
            &&& c.sync@.len() + c.async_cut@.len() == row.len()
            &&& s0.len() == sync_count(row, force_async@, budget_bytes, row.len())
            &&& s0.finite() && a0.finite()
            &&& s0.len() + a0.len() == row.len()
        }),
{
    let n = closure.size;
    let ghost row = closure.rows@[entry as int]@;
    let ghost force = force_async@;
    let ghost s0 = initial_sync(row, force, budget_bytes);
    let ghost a0 = initial_async(row, force, budget_bytes);
    let mut sync: HashSet<usize> = HashSet::new();
    let mut async_cut: HashSet<usize> = HashSet::new();
    let mut sync_bytes: u64 = 0;

    let entries = &closure.rows[entry];
    proof {
        assert(row_wf(row, n as int));
        crate::tropical::lemma_row_len(row, n as int);
    }
    let mut k: usize = 0;
    while k < entries.len()
        invariant
            closure.wf(),
            n == closure.size,
            entries@ == row,
            row_wf(row, n as int),
            row.len() <= u32::MAX,
            force == force_async@,
            k <= row.len(),
            sync@ == initial_sync(row.take(k as int), force, budget_bytes),
            async_cut@ == initial_async(row.take(k as int), force, budget_bytes),
            sync@.finite(),
            async_cut@.finite(),
            sync@.len() + async_cut@.len() == k,
            sync@.len() == sync_count(row, force, budget_bytes, k as nat),
            sync_bytes == sync_cost(row, force, budget_bytes, k as nat),
            sync_bytes <= k * INF,
        decreases row.len() - k,
    {
        let (col, cost) = entries[k];
        let ghost pre = row.take(k as int);
        let ghost post = row.take(k + 1);
        proof {
            assert(post =~= pre.push(row[k as int]));
            assert forall|p: int| 0 <= p < pre.len() implies pre[p].0 != col by {
                assert(row[p].0 < row[k as int].0);
            }
            assert(!sync@.contains(col as usize) && !async_cut@.contains(col as usize)) by {
                if sync@.contains(col as usize) {
                    let p = choose|p: int| 0 <= p < pre.len() && pre[p].0 == col as usize && starts_sync(pre, force, budget_bytes, p);
                }
                if async_cut@.contains(col as usize) {
                    let p = choose|p: int| 0 <= p < pre.len() && pre[p].0 == col as usize && !starts_sync(pre, force, budget_bytes, p);
                }
            }
        }
        if cost >= INF {
            proof {
                assert(false);
            }
            k = k + 1;
            continue;
        }
        let j = col as usize;
        if slice_contains(force_async, j) || cost > budget_bytes {
            async_cut.insert(j);
            proof {
                assert(!starts_sync(row, force, budget_bytes, k as int));
                assert(sync_bytes <= (k + 1) * INF) by (nonlinear_arith)
                    requires
                        sync_bytes <= k * INF,
                ;
            }
        } else {
            sync.insert(j);
            proof {
                assert(sync_bytes + cost <= (k + 1) * INF) by (nonlinear_arith)
                    requires
                        sync_bytes <= k * INF,
                        cost < INF,
                ;
                assert((k + 1) * INF <= u64::MAX) by (nonlinear_arith)
                    requires
                        k < u32::MAX,
                ;
            }
            sync_bytes = sync_bytes + cost as u64;
            proof {
                assert(starts_sync(row, force, budget_bytes, k as int));
            }
        }
        proof {
            assert forall|x: usize| #[trigger] sync@.contains(x) == initial_sync(post, force, budget_bytes).contains(x) by {
                if initial_sync(post, force, budget_bytes).contains(x) {
                    let p = choose|p: int| 0 <= p < post.len() && post[p].0 == x && starts_sync(post, force, budget_bytes, p);
                    if p < k {
                        assert(pre[p] == post[p]);
                        assert(pre[p].0 == x && starts_sync(pre, force, budget_bytes, p));
                        assert(initial_sync(pre, force, budget_bytes).contains(x));
                    } else {
                        assert(post[p] == row[k as int]);
                    }
                }
                if initial_sync(pre, force, budget_bytes).contains(x) {
                    let p = choose|p: int| 0 <= p < pre.len() && pre[p].0 == x && starts_sync(pre, force, budget_bytes, p);
                    assert(post[p] == pre[p]);
                    assert(post[p].0 == x && starts_sync(post, force, budget_bytes, p));
                }
                if starts_sync(row, force, budget_bytes, k as int) && x == j {
                    assert(post[k as int] == row[k as int]);
                    assert(post[k as int].0 == x && starts_sync(post, force, budget_bytes, k as int));
                }
            }
            assert forall|x: usize| #[trigger] async_cut@.contains(x) == initial_async(post, force, budget_bytes).contains(x) by {
                if initial_async(post, force, budget_bytes).contains(x) {
                    let p = choose|p: int| 0 <= p < post.len() && post[p].0 == x && !starts_sync(post, force, budget_bytes, p);
                    if p < k {
                        assert(pre[p] == post[p]);
                        assert(pre[p].0 == x && !starts_sync(pre, force, budget_bytes, p));
                        assert(initial_async(pre, force, budget_bytes).contains(x));
                    } else {
                        assert(post[p] == row[k as int]);
                    }
                }
                if initial_async(pre, force, budget_bytes).contains(x) {
                    let p = choose|p: int| 0 <= p < pre.len() && pre[p].0 == x && !starts_sync(pre, force, budget_bytes, p);
                    assert(post[p] == pre[p]);
                    assert(post[p].0 == x && !starts_sync(post, force, budget_bytes, p));
                }
                if !starts_sync(row, force, budget_bytes, k as int) && x == j {
                    assert(post[k as int] == row[k as int]);
                    assert(post[k as int].0 == x && !starts_sync(post, force, budget_bytes, k as int));
                }
            }
            assert(sync@ =~= initial_sync(post, force, budget_bytes));
            assert(async_cut@ =~= initial_async(post, force, budget_bytes));
        }
        k = k + 1;
    }
    proof {
        assert(row.take(row.len() as int) =~= row);
        assert(sync@ == s0);
        assert(async_cut@ == a0);
        lemma_initial_disjoint(row, force, budget_bytes, n as int);
    }

    // Static importers of async modules must themselves be async (direct edges only).
    let ghost total = row.len();
    let mut changed = true;
    while changed
        invariant
            closure.wf(),
            n == closure.size,
            row_wf(row, n as int),
            s0 == initial_sync(row, force, budget_bytes),
            a0 == initial_async(row, force, budget_bytes),
            s0.disjoint(a0),
            forall|x: usize| s0.contains(x) ==> x < n && x < direct_imports@.len(),
            sync@.subset_of(s0),
            forall|x: usize| #[trigger] async_cut@.contains(x) <==> (a0.contains(x) || (s0.contains(x) && !sync@.contains(x))),
            forall|x: Set<usize>| x.subset_of(s0) && #[trigger] import_closed(x, s0, a0, direct_imports@) ==> x.subset_of(sync@),
            sync@.finite(),
            async_cut@.finite(),
            sync@.len() + async_cut@.len() == total,
            !changed ==> import_closed(sync@, s0, a0, direct_imports@),
        decreases 2 * sync@.len() + if changed { 1int } else { 0int },
    {
        changed = false;
        let ghost pass_len = sync@.len();
        let mut i: usize = 0;
        while i < n
            invariant
                closure.wf(),
                n == closure.size,
                s0.disjoint(a0),
                forall|x: usize| s0.contains(x) ==> x < n && x < direct_imports@.len(),
                sync@.subset_of(s0),
                forall|x: usize| #[trigger] async_cut@.contains(x) <==> (a0.contains(x) || (s0.contains(x) && !sync@.contains(x))),
                forall|x: Set<usize>| x.subset_of(s0) && #[trigger] import_closed(x, s0, a0, direct_imports@) ==> x.subset_of(sync@),
                sync@.finite(),
                async_cut@.finite(),
                sync@.len() + async_cut@.len() == total,
                i <= n,
                !changed ==> sync@.len() == pass_len,
                changed ==> sync@.len() < pass_len,
                !changed ==> forall|i2: usize, q: int|
                    i2 < i && sync@.contains(i2) && 0 <= q < direct_imports@[i2 as int]@.len() && #[trigger] direct_imports@[i2 as int]@[q] != i2
                        ==> !async_cut@.contains(direct_imports@[i2 as int]@[q]),
            decreases n - i,
        {
            if sync.contains(&i) {
                let imports = &direct_imports[i];
                let mut q: usize = 0;
                while q < imports.len()
                    invariant
                        closure.wf(),
                        n == closure.size,
                        i < n,
                        imports@ == direct_imports@[i as int]@,
                        i < direct_imports@.len(),
                        s0.disjoint(a0),
                        s0.contains(i),
                        forall|x: usize| s0.contains(x) ==> x < n && x < direct_imports@.len(),
                        sync@.subset_of(s0),
                        forall|x: usize| #[trigger] async_cut@.contains(x) <==> (a0.contains(x) || (s0.contains(x) && !sync@.contains(x))),
                        forall|x: Set<usize>| x.subset_of(s0) && #[trigger] import_closed(x, s0, a0, direct_imports@) ==> x.subset_of(sync@),
                        sync@.finite(),
                        async_cut@.finite(),
                        sync@.len() + async_cut@.len() == total,
                        q <= imports@.len(),
                        !changed ==> sync@.len() == pass_len,
                        !changed ==> sync@.contains(i),
                        changed ==> sync@.len() < pass_len,
                        !changed ==> forall|i2: usize, q2: int|
                            i2 < i && sync@.contains(i2) && 0 <= q2 < direct_imports@[i2 as int]@.len() && #[trigger] direct_imports@[i2 as int]@[q2] != i2
                                ==> !async_cut@.contains(direct_imports@[i2 as int]@[q2]),
                        !changed ==> forall|q2: int| 0 <= q2 < q && #[trigger] imports@[q2] != i ==> !async_cut@.contains(imports@[q2]),
                    decreases imports@.len() - q,
                {
                    let j = imports[q];
                    if i != j && async_cut.contains(&j) {
                        let ghost old_sync = sync@;
                        let ghost old_async = async_cut@;
                        proof {
                            // No import-closed subset of s0 can keep `i`.
                            assert forall|x: Set<usize>| x.subset_of(s0) && #[trigger] import_closed(x, s0, a0, direct_imports@)
                                implies x.subset_of(old_sync.remove(i)) by {
                                assert(x.subset_of(old_sync));
                                if x.contains(i) {
                                    assert(direct_imports@[i as int]@[q as int] == j);
                                    assert(x.contains(j) || !(s0.contains(j) || a0.contains(j)));
                                }
                            }
                        }
                        let was_sync = sync.remove(&i);
                        async_cut.insert(i);
                        proof {
                            if was_sync {
                                assert(!old_async.contains(i));
                                assert(sync@.len() == old_sync.len() - 1);
                                assert(async_cut@.len() == old_async.len() + 1);
                            } else {
                                assert(old_async.contains(i));
                                assert(sync@ == old_sync);
                                assert(async_cut@ =~= old_async);
                            }
                            assert forall|x: usize| #[trigger] async_cut@.contains(x) <==> (a0.contains(x) || (s0.contains(x)
                                && !sync@.contains(x))) by {
                                if x != i {
                                    assert(old_async.contains(x) == async_cut@.contains(x));
                                    assert(old_sync.contains(x) == sync@.contains(x));
                                }
                            }
                        }
                        changed = true;
                    }
                    q = q + 1;
                }
                proof {
                    if !changed {
                        assert forall|i2: usize, q2: int|
                            i2 < i + 1 && sync@.contains(i2) && 0 <= q2 < direct_imports@[i2 as int]@.len()
                                && #[trigger] direct_imports@[i2 as int]@[q2] != i2
                            implies !async_cut@.contains(direct_imports@[i2 as int]@[q2]) by {
                            if i2 == i {
                                assert(imports@[q2] == direct_imports@[i2 as int]@[q2]);
                            }
                        }
                    }
                }
            }
            i = i + 1;
        }
        proof {
            if !changed {
                assert forall|i2: usize, q: int|
                    sync@.contains(i2) && 0 <= i2 < direct_imports@.len() && 0 <= q < direct_imports@[i2 as int]@.len()
                        && #[trigger] direct_imports@[i2 as int]@[q] != i2
                    implies (sync@.contains(direct_imports@[i2 as int]@[q]) || !(s0.contains(direct_imports@[i2 as int]@[q])
                    || a0.contains(direct_imports@[i2 as int]@[q]))) by {
                    assert(i2 < n);
                    let jj = direct_imports@[i2 as int]@[q];
                    assert(!async_cut@.contains(jj));
                }
            }
        }
    }
    proof {
        assert(s0.len() == sync_count(row, force, budget_bytes, row.len()));
    }
    EntryClassification { entry, sync, async_cut, sync_bytes }
}

proof fn lemma_initial_disjoint(row: Seq<(u32, u32)>, force: Seq<usize>, budget: u32, n: int)
    requires
        row_wf(row, n),
    ensures
        initial_sync(row, force, budget).disjoint(initial_async(row, force, budget)),
        forall|x: usize| initial_sync(row, force, budget).contains(x) ==> x < n,
        forall|x: usize| initial_async(row, force, budget).contains(x) ==> x < n,
{
    let s0 = initial_sync(row, force, budget);
    let a0 = initial_async(row, force, budget);
    assert forall|x: usize| s0.contains(x) implies !a0.contains(x) by {
        let p = choose|p: int| 0 <= p < row.len() && row[p].0 == x && starts_sync(row, force, budget, p);
        if a0.contains(x) {
            let q = choose|q: int| 0 <= q < row.len() && row[q].0 == x && !starts_sync(row, force, budget, q);
            if p < q {
                assert(row[p].0 < row[q].0);
            } else if q < p {
                assert(row[q].0 < row[p].0);
            }
        }
    }
    assert forall|x: usize| s0.contains(x) implies x < n by {
        let p = choose|p: int| 0 <= p < row.len() && row[p].0 == x && starts_sync(row, force, budget, p);
        assert(row[p].0 < n);
    }
    assert forall|x: usize| a0.contains(x) implies x < n by {
        let p = choose|p: int| 0 <= p < row.len() && row[p].0 == x && !starts_sync(row, force, budget, p);
        assert(row[p].0 < n);
    }
}


// ---------------------------------------------------------------- report

/// `a` is listed before `b`: cheaper first, then the smaller module.
pub open spec fn ranked_before(a: (usize, u32), b: (usize, u32)) -> bool {
    a.1 < b.1 || (a.1 == b.1 && a.0 < b.0)
}

/// The async modules with their minimum cost from `entry`, cheapest first
/// (ties by module number).
pub fn async_by_cost(closure: &TropicalSparseMatrix, entry: usize, async_cut: &HashSet<usize>) -> (out: Vec<(usize, u32)>)
    requires
        closure.wf(),
        entry < closure.size,
    ensures
        forall|x: (usize, u32)| #[trigger] out@.contains(x) <==> (x.0 < closure.size && async_cut@.contains(x.0)
            && x.1 as int == closure@[entry as int][x.0 as int]),
        forall|i: int, j: int| 0 <= i < j < out@.len() ==> ranked_before(#[trigger] out@[i], #[trigger] out@[j]),
{
    let n = closure.size;
    let mut out: Vec<(usize, u32)> = Vec::new();
    let mut id: usize = 0;
    while id < n
        invariant
            closure.wf(),
            entry < closure.size,
            n == closure.size,
            id <= n,
            forall|x: (usize, u32)| #[trigger] out@.contains(x) <==> (x.0 < id && async_cut@.contains(x.0)
                && x.1 as int == closure@[entry as int][x.0 as int]),
            forall|i: int, j: int| 0 <= i < j < out@.len() ==> ranked_before(#[trigger] out@[i], #[trigger] out@[j]),
        decreases n - id,
    {
        if async_cut.contains(&id) {
            let x = (id, closure.get(entry, id));
            let ghost o = out@;
            let mut p: usize = 0;
            while p < out.len() && !(x.1 < out[p].1 || (x.1 == out[p].1 && x.0 < out[p].0))
                invariant
                    o == out@,
                    p <= out@.len(),
                    forall|k: int| 0 <= k < p ==> ranked_before(#[trigger] out@[k], x),
                    forall|y: (usize, u32)| #[trigger] out@.contains(y) ==> y.0 < id,
                    x.0 == id,
                decreases out@.len() - p,
            {
                proof {
                    assert(out@.contains(out@[p as int]));
                }
                p = p + 1;
            }
            out.insert(p, x);
            proof {
                let o2 = out@;
                assert forall|y: (usize, u32)| #[trigger] o2.contains(y) <==> (y.0 < id + 1 && async_cut@.contains(y.0)
                    && y.1 as int == closure@[entry as int][y.0 as int]) by {
                    if o2.contains(y) {
                        let k = choose|k: int| 0 <= k < o2.len() && o2[k] == y;
                        if k < p {
                            assert(o[k] == y && o.contains(y));
                        } else if k > p {
                            assert(o[k - 1] == y && o.contains(y));
                        }
                    }
                    if y.0 < id + 1 && async_cut@.contains(y.0) && y.1 as int == closure@[entry as int][y.0 as int] {
                        if y.0 == id {
                            assert(y == x);
                            assert(o2[p as int] == y);
                        } else {
                            assert(o.contains(y));
                            let k = choose|k: int| 0 <= k < o.len() && o[k] == y;
                            if k < p {
                                assert(o2[k] == y);
                            } else {
                                assert(o2[k + 1] == y);
                            }
                        }
                    }
                }
                if p < o.len() {
                    assert(ranked_before(x, o[p as int]));
                }
                assert forall|i: int, j: int| 0 <= i < j < o2.len() implies ranked_before(#[trigger] o2[i], #[trigger] o2[j]) by {
                    if j < p {
                        assert(o2[i] == o[i] && o2[j] == o[j]);
                    } else if j == p {
                        assert(o2[i] == o[i]);
                    } else if i == p {
                        assert(o2[j] == o[j - 1]);
                        if j - 1 > p {
                            assert(ranked_before(o[p as int], o[j - 1]));
                        }
                    } else if i < p {
                        assert(o2[i] == o[i] && o2[j] == o[j - 1]);
                        if p < o.len() {
                            assert(ranked_before(o[i], o[p as int]));
                        }
                        assert(ranked_before(o[i], x));
                    } else {
                        assert(o2[i] == o[i - 1] && o2[j] == o[j - 1]);
                    }
                }
            }
        }
        id = id + 1;
    }
    out
}

} // verus!
