//! The traversal that discovers a project's modules from its entry.
//!
//! Scanning alternates reading files with decisions. The decisions live
//! here, as a state that the caller drives: `next_path` says which file to
//! read next, `add_module` takes what was read (the file's size, its
//! imports, and where each local import resolved on disk), and `finish`
//! numbers the import targets and builds the graph.
use vstd::prelude::*;
use crate::project::{ImportRef, ModuleInfo, ProjectGraph, RawImport, modules_wf, module_matrix, module_table, size_sum, imports_upto};
use crate::text::chars_of;
use vstd::hash_map::StringHashMap;

verus! {

broadcast use vstd::std_specs::hash::group_hash_axioms;

/// A scan in progress.
pub struct ProjectScan {
    /// The file the scan starts from.
    pub entry: String,
    /// The modules read so far, numbered in reading order.
    pub modules: Vec<ModuleInfo>,
    /// Per module and import, the file the import resolved to, if it is a
    /// local import that resolved.
    pub found: Vec<Vec<Option<String>>>,
    /// Files still to visit; the last one is visited first.
    pub queue: Vec<String>,
    /// The bare (package) specifiers met so far, each once, in the order
    /// first met.
    pub externals: Vec<String>,
    /// The file handed out by `next_path` and not recorded yet.
    pub current: Option<String>,
}

/// Whether a specifier names a project file (relative or root-absolute)
/// rather than a package.
pub open spec fn is_local_spec(s: Seq<char>) -> bool {
    s.len() > 0 && (s[0] == '.' || s[0] == '/')
}

/// Whether some module read so far has path `p`.
pub open spec fn scanned(ms: Seq<ModuleInfo>, p: Seq<char>) -> bool {
    exists|i: int| 0 <= i < ms.len() && (#[trigger] ms[i]).path@ == p
}

/// The module with path `p` (meaningful where `scanned(ms, p)`).
pub open spec fn path_index(ms: Seq<ModuleInfo>, p: Seq<char>) -> int {
    choose|i: int| 0 <= i < ms.len() && (#[trigger] ms[i]).path@ == p
}

pub open spec fn str_views(q: Seq<String>) -> Seq<Seq<char>> {
    q.map_values(|s: String| s@)
}

/// Import `k` of module `i` is local and resolved to the file `p`.
pub open spec fn found_at(ms: Seq<ModuleInfo>, found: Seq<Vec<Option<String>>>, i: int, k: int, p: Seq<char>) -> bool {
    &&& 0 <= i < ms.len()
    &&& 0 <= k < found[i]@.len()
    &&& 0 <= k < ms[i].imports@.len()
    &&& found[i]@[k] matches Some(c) && c@ == p
    &&& is_local_spec(ms[i].imports@[k].specifier@)
}

/// Module `j` is the resolved file of a local import of an earlier module.
pub open spec fn has_parent(ms: Seq<ModuleInfo>, found: Seq<Vec<Option<String>>>, j: int) -> bool {
    exists|i: int, k: int| i < j && #[trigger] found_at(ms, found, i, k, ms[j].path@)
}

/// Some module read so far has a local import resolved to `p`.
pub open spec fn referenced(ms: Seq<ModuleInfo>, found: Seq<Vec<Option<String>>>, p: Seq<char>) -> bool {
    exists|i: int, k: int| #[trigger] found_at(ms, found, i, k, p)
}

/// The next file to read: files already read are dropped from the end of
/// the queue; the first one not yet read is taken off it. Returns the file
/// (if any) and the queue that remains.
pub open spec fn pop_pending(ms: Seq<ModuleInfo>, q: Seq<Seq<char>>) -> (Option<Seq<char>>, Seq<Seq<char>>)
    decreases q.len(),
{
    if q.len() == 0 {
        (None, q)
    } else if scanned(ms, q.last()) {
        pop_pending(ms, q.drop_last())
    } else {
        (Some(q.last()), q.drop_last())
    }
}

/// What the first `k` imports of the module at `path` add to the queue, in
/// order: the resolved file of each local import that is neither read yet
/// nor the module itself.
pub open spec fn queued(raw: Seq<RawImport>, found: Seq<Option<String>>, ms: Seq<ModuleInfo>, path: Seq<char>, k: int) -> Seq<Seq<char>>
    decreases k,
{
    if k <= 0 {
        Seq::empty()
    } else {
        let prev = queued(raw, found, ms, path, k - 1);
        match found[k - 1] {
            Some(c) => if is_local_spec(raw[k - 1].specifier@) && !scanned(ms, c@) && c@ != path {
                prev.push(c@)
            } else {
                prev
            },
            None => prev,
        }
    }
}

/// The texts of the bare specifiers among `raw[..k]`.
pub open spec fn bare_specs(raw: Seq<RawImport>, k: int) -> Set<Seq<char>> {
    Set::new(|s: Seq<char>| exists|j: int| 0 <= j < k && !is_local_spec(raw[j].specifier@) && #[trigger] raw[j].specifier@ == s)
}

/// Append `s` to `list` unless a string with its text is there already.
fn add_once(list: &mut Vec<String>, s: String)
    requires
        str_views(old(list)@).no_duplicates(),
    ensures
        str_views(final(list)@).no_duplicates(),
        str_views(final(list)@).to_set() == str_views(old(list)@).to_set().insert(s@),
        str_views(old(list)@).contains(s@) ==> final(list)@ == old(list)@,
        !str_views(old(list)@).contains(s@) ==> final(list)@ == old(list)@.push(s),
{
    let ghost l0 = str_views(list@);
    let mut i: usize = 0;
    while i < list.len()
        invariant
            i <= list@.len(),
            list@ == old(list)@,
            l0 == str_views(list@),
            l0.no_duplicates(),
            forall|j: int| 0 <= j < i ==> (#[trigger] list@[j])@ != s@,
        decreases list@.len() - i,
    {
        if list[i] == s {
            proof {
                assert(l0[i as int] == s@);
                assert(l0.to_set() =~= l0.to_set().insert(s@));
            }
            return;
        }
        i = i + 1;
    }
    proof {
        assert(!l0.contains(s@)) by {
            if l0.contains(s@) {
                let j = choose|j: int| 0 <= j < l0.len() && l0[j] == s@;
                assert(list@[j]@ == s@);
            }
        }
    }
    let ghost before = list@;
    list.push(s);
    proof {
        assert(str_views(list@) =~= l0.push(s@));
        assert forall|y: Seq<char>| #[trigger] l0.push(s@).contains(y) <==> l0.contains(y) || y == s@ by {
            if l0.push(s@).contains(y) {
                let j = choose|j: int| 0 <= j < l0.len() + 1 && l0.push(s@)[j] == y;
                if j < l0.len() {
                    assert(l0[j] == y);
                }
            }
            if l0.contains(y) {
                let j = choose|j: int| 0 <= j < l0.len() && l0[j] == y;
                assert(l0.push(s@)[j] == y);
            }
            if y == s@ {
                assert(l0.push(s@)[l0.len() as int] == y);
            }
        }
        assert(l0.push(s@).to_set() =~= l0.to_set().insert(s@));
        assert(str_views(list@).no_duplicates()) by {
            let v = str_views(list@);
            assert forall|a: int, b: int| 0 <= a < v.len() && 0 <= b < v.len() && a != b implies v[a] != v[b] by {
                if a < l0.len() && b < l0.len() {
                    assert(v[a] == l0[a] && v[b] == l0[b]);
                } else if a == l0.len() {
                    assert(v[b] == l0[b]);
                } else {
                    assert(v[a] == l0[a]);
                }
            }
        }
    }
}

impl ProjectScan {
    /// Modules numbered by position, with distinct paths, one resolution
    /// entry per import and no import wired yet; the first module read is
    /// the entry and every later one was the resolved file of a local
    /// import of an earlier one; the queue and the file handed out hold
    /// only the entry and resolved files, and every resolved file is read,
    /// queued or handed out.
    pub open spec fn wf(&self) -> bool {
        let ms = self.modules@;
        let fs = self.found@;
        &&& ms.len() == fs.len()
        &&& ms.len() <= u32::MAX
        &&& forall|i: int| 0 <= i < ms.len() ==> (#[trigger] ms[i]).id == i
        &&& forall|i: int| 0 <= i < ms.len() ==> (#[trigger] ms[i]).imports@.len() == fs[i]@.len()
        &&& forall|i: int, k: int| 0 <= i < ms.len() && 0 <= k < ms[i].imports@.len() ==> (#[trigger] ms[i].imports@[k]).target is None
        &&& forall|i: int, j: int| 0 <= i < ms.len() && 0 <= j < ms.len() && i != j ==> (#[trigger] ms[i]).path@ != (#[trigger] ms[j]).path@
        &&& ms.len() > 0 ==> ms[0].path@ == self.entry@
        &&& forall|j: int| 0 < j < ms.len() ==> #[trigger] has_parent(ms, fs, j)
        &&& forall|q: int| 0 <= q < self.queue@.len() ==> (#[trigger] self.queue@[q])@ == self.entry@ || referenced(ms, fs, self.queue@[q]@)
        &&& forall|i: int, k: int, p: Seq<char>| #[trigger] found_at(ms, fs, i, k, p) ==> scanned(ms, p) || str_views(self.queue@).contains(p)
            || (self.current matches Some(c) && c@ == p)
        &&& self.current matches Some(c) ==> !scanned(ms, c@) && (c@ == self.entry@ || referenced(ms, fs, c@))
        &&& str_views(self.externals@).no_duplicates()
    }

    /// A scan that starts at `entry`.
    pub fn start(entry: String) -> (s: ProjectScan)
        ensures
            s.wf(),
            s.entry == entry,
            s.modules@.len() == 0,
            s.queue@ == seq![entry],
            s.externals@ == Seq::<String>::empty(),
            s.current is None,
    {
        let mut queue: Vec<String> = Vec::new();
        queue.push(entry.clone());
        ProjectScan { entry, modules: Vec::new(), found: Vec::new(), queue, externals: Vec::new(), current: None }
    }
}

/// The module of `ms` with path `p`, if one has it.
fn find_path(ms: &Vec<ModuleInfo>, p: &String) -> (r: Option<usize>)
    ensures
        match r {
            Some(i) => i < ms@.len() && ms@[i as int].path@ == p@,
            None => !scanned(ms@, p@),
        },
{
    let mut i: usize = 0;
    while i < ms.len()
        invariant
            i <= ms@.len(),
            forall|j: int| 0 <= j < i ==> (#[trigger] ms@[j]).path@ != p@,
        decreases ms@.len() - i,
    {
        if ms[i].path == *p {
            return Some(i);
        }
        i = i + 1;
    }
    None
}

impl ProjectScan {
    /// The next file to read, taken off the queue (see `pop_pending`) and
    /// handed out until `add_module` records it; `None` when every queued
    /// file has been read.
    pub fn next_path(&mut self) -> (r: Option<String>)
        requires
            old(self).wf(),
            old(self).current is None,
        ensures
            final(self).wf(),
            final(self).entry == old(self).entry,
            final(self).modules == old(self).modules,
            final(self).found == old(self).found,
            final(self).externals == old(self).externals,
            final(self).current == r,
            str_views(final(self).queue@) == pop_pending(old(self).modules@, str_views(old(self).queue@)).1,
            match r {
                Some(s) => pop_pending(old(self).modules@, str_views(old(self).queue@)).0 == Some(s@),
                None => pop_pending(old(self).modules@, str_views(old(self).queue@)).0 is None,
            },
    {
        let ghost ms = self.modules@;
        let ghost fs = self.found@;
        let ghost target = pop_pending(ms, str_views(self.queue@));
        loop
            invariant
                self.wf(),
                self.current is None,
                self.entry == old(self).entry,
                self.modules == old(self).modules,
                self.found == old(self).found,
                self.externals == old(self).externals,
                ms == self.modules@,
                fs == self.found@,
                ms == old(self).modules@,
                target == pop_pending(ms, str_views(old(self).queue@)),
                pop_pending(ms, str_views(self.queue@)) == target,
            decreases self.queue@.len(),
        {
            let ghost q0 = self.queue@;
            match self.queue.pop() {
                None => {
                    proof {
                        assert(str_views(q0).len() == 0);
                        assert(self.queue@ == q0);
                    }
                    return None;
                },
                Some(p) => {
                    proof {
                        assert(str_views(self.queue@) =~= str_views(q0).drop_last());
                        assert(str_views(q0).last() == p@);
                        assert(q0.last() == p);
                        assert forall|q: int| 0 <= q < self.queue@.len() implies (#[trigger] self.queue@[q])@ == self.entry@
                            || referenced(ms, fs, self.queue@[q]@) by {
                            assert(self.queue@[q] == q0[q]);
                        }
                    }
                    if find_path(&self.modules, &p).is_none() {
                        proof {
                            assert(target == (Some(p@), str_views(self.queue@)));
                            assert(p@ == self.entry@ || referenced(ms, fs, p@)) by {
                                assert(q0[q0.len() - 1] == p);
                            }
                        }
                        self.current = Some(p.clone());
                        proof {
                            assert forall|i: int, k: int, x: Seq<char>| #[trigger] found_at(ms, fs, i, k, x) implies scanned(ms, x)
                                || str_views(self.queue@).contains(x) || (self.current matches Some(c) && c@ == x) by {
                                if str_views(q0).contains(x) && !scanned(ms, x) && x != p@ {
                                    let q = choose|q: int| 0 <= q < str_views(q0).len() && str_views(q0)[q] == x;
                                    assert(q != q0.len() - 1);
                                    assert(str_views(self.queue@)[q] == x);
                                }
                            }
                        }
                        return Some(p);
                    } else {
                        proof {
                            assert forall|i: int, k: int, x: Seq<char>| #[trigger] found_at(ms, fs, i, k, x) implies scanned(ms, x)
                                || str_views(self.queue@).contains(x) by {
                                if str_views(q0).contains(x) && !scanned(ms, x) {
                                    let q = choose|q: int| 0 <= q < str_views(q0).len() && str_views(q0)[q] == x;
                                    assert(q != q0.len() - 1);
                                    assert(str_views(self.queue@)[q] == x);
                                }
                            }
                        }
                    }
                },
            }
        }
    }
}

/// Whether `s` names a project file (see `is_local_spec`).
pub fn is_local(s: &String) -> (b: bool)
    ensures
        b == is_local_spec(s@),
{
    let v = chars_of(s.as_str());
    v.len() > 0 && (v[0] == '.' || v[0] == '/')
}

proof fn lemma_queued_members(raw: Seq<RawImport>, found: Seq<Option<String>>, ms: Seq<ModuleInfo>, path: Seq<char>, k: int)
    requires
        0 <= k <= raw.len(),
        raw.len() == found.len(),
    ensures
        forall|x: Seq<char>| #[trigger] queued(raw, found, ms, path, k).contains(x) ==> exists|j: int|
            0 <= j < k && is_local_spec(raw[j].specifier@) && (#[trigger] found[j] matches Some(c) && c@ == x),
        forall|j: int| 0 <= j < k && is_local_spec(raw[j].specifier@) && (#[trigger] found[j] matches Some(c) && !scanned(ms, c@)
            && c@ != path) ==> queued(raw, found, ms, path, k).contains(found[j]->0@),
    decreases k,
{
    if k > 0 {
        lemma_queued_members(raw, found, ms, path, k - 1);
        let prev = queued(raw, found, ms, path, k - 1);
        let cur = queued(raw, found, ms, path, k);
        assert forall|x: Seq<char>| #[trigger] cur.contains(x) implies exists|j: int|
            0 <= j < k && is_local_spec(raw[j].specifier@) && (#[trigger] found[j] matches Some(c) && c@ == x) by {
            if prev.contains(x) {
                let j = choose|j: int| 0 <= j < k - 1 && is_local_spec(raw[j].specifier@) && (#[trigger] found[j] matches Some(c) && c@ == x);
            } else {
                let q = choose|q: int| 0 <= q < cur.len() && cur[q] == x;
                assert(cur != prev);
                assert(q == prev.len()) by {
                    if q < prev.len() {
                        assert(cur[q] == prev[q]);
                    }
                }
                assert(is_local_spec(raw[k - 1].specifier@) && (found[k - 1] matches Some(c) && c@ == x));
            }
        }
        assert forall|j: int| 0 <= j < k && is_local_spec(raw[j].specifier@) && (#[trigger] found[j] matches Some(c) && !scanned(ms, c@)
            && c@ != path) implies cur.contains(found[j]->0@) by {
            if j < k - 1 {
                let q = choose|q: int| 0 <= q < prev.len() && prev[q] == found[j]->0@;
                assert(cur[q] == prev[q]);
            } else {
                assert(cur[prev.len() as int] == found[j]->0@);
            }
        }
    }
}

proof fn lemma_found_at_push(ms: Seq<ModuleInfo>, fs: Seq<Vec<Option<String>>>, m: ModuleInfo, f: Vec<Option<String>>, i: int, k: int, p: Seq<char>)
    requires
        0 <= i < ms.len(),
        ms.len() == fs.len(),
    ensures
        found_at(ms.push(m), fs.push(f), i, k, p) == found_at(ms, fs, i, k, p),
{
    assert(ms.push(m)[i] == ms[i]);
    assert(fs.push(f)[i] == fs[i]);
}

impl ProjectScan {
    /// Record the file handed out by `next_path`: its size, its imports, and
    /// where each local import resolved (`found`, one entry per import). The
    /// module gets the next number and its imports are left unwired; the
    /// resolved files not read yet are queued in import order (see
    /// `queued`), and bare specifiers join the externals.
    pub fn add_module(&mut self, size: u32, raw: Vec<RawImport>, found: Vec<Option<String>>)
        requires
            old(self).wf(),
            old(self).current is Some,
            raw@.len() == found@.len(),
            old(self).modules@.len() < u32::MAX,
        ensures
            final(self).wf(),
            final(self).entry == old(self).entry,
            final(self).current is None,
            final(self).modules@.len() == old(self).modules@.len() + 1,
            forall|i: int| 0 <= i < old(self).modules@.len() ==> #[trigger] final(self).modules@[i] == old(self).modules@[i],
            ({
                let m = final(self).modules@.last();
                &&& m.id == old(self).modules@.len()
                &&& m.path == old(self).current->0
                &&& m.size == size
                &&& m.imports@.len() == raw@.len()
                &&& forall|k: int| 0 <= k < raw@.len() ==> #[trigger] m.imports@[k] == (ImportRef {
                    specifier: raw@[k].specifier,
                    target: None,
                    dynamic: raw@[k].dynamic,
                })
            }),
            final(self).found@ == old(self).found@.push(found),
            str_views(final(self).queue@) == str_views(old(self).queue@) + queued(
                raw@,
                found@,
                old(self).modules@,
                old(self).current->0@,
                raw@.len() as int,
            ),
            str_views(final(self).externals@).to_set() == str_views(old(self).externals@).to_set().union(
                bare_specs(raw@, raw@.len() as int),
            ),
            old(self).externals@.is_prefix_of(final(self).externals@),
    {
        let ghost ms = self.modules@;
        let ghost fs = self.found@;
        let ghost q0 = self.queue@;
        let ghost e0 = self.externals@;
        let path = match &self.current {
            Some(p) => p.clone(),
            None => String::new(),
        };
        let mut imports: Vec<ImportRef> = Vec::new();
        let mut k: usize = 0;
        proof {
            assert(bare_specs(raw@, 0) =~= Set::<Seq<char>>::empty());
            assert(str_views(e0).to_set().union(bare_specs(raw@, 0)) =~= str_views(e0).to_set());
            assert(e0.is_prefix_of(e0)) by {
                assert(e0.subrange(0, e0.len() as int) =~= e0);
            }
        }
        while k < raw.len()
            invariant
                old(self).wf(),
                old(self).current == Some(path),
                self.entry == old(self).entry,
                self.current == old(self).current,
                self.modules == old(self).modules,
                self.found == old(self).found,
                ms == old(self).modules@,
                fs == old(self).found@,
                q0 == old(self).queue@,
                e0 == old(self).externals@,
                raw@.len() == found@.len(),
                k <= raw@.len(),
                imports@.len() == k,
                forall|j: int| 0 <= j < k ==> #[trigger] imports@[j] == (ImportRef {
                    specifier: raw@[j].specifier,
                    target: None,
                    dynamic: raw@[j].dynamic,
                }),
                str_views(self.queue@) == str_views(q0) + queued(raw@, found@, ms, path@, k as int),
                str_views(self.externals@).no_duplicates(),
                str_views(self.externals@).to_set() == str_views(e0).to_set().union(bare_specs(raw@, k as int)),
                e0.is_prefix_of(self.externals@),
            decreases raw@.len() - k,
        {
            let ghost qk = self.queue@;
            let ghost ek = self.externals@;
            let spec = raw[k].specifier.clone();
            let local = is_local(&spec);
            if local {
                if let Some(c) = &found[k] {
                    if find_path(&self.modules, c).is_none() && *c != path {
                        self.queue.push(c.clone());
                        proof {
                            assert(str_views(self.queue@) =~= str_views(qk).push(c@));
                        }
                    }
                }
            } else {
                add_once(&mut self.externals, spec.clone());
            }
            proof {
                assert(str_views(q0) + queued(raw@, found@, ms, path@, k + 1) =~= str_views(self.queue@)) by {
                    if !(local && found@[k as int] is Some) {
                        assert(self.queue@ == qk);
                    }
                }
                let sk = bare_specs(raw@, k as int);
                let sk1 = bare_specs(raw@, k + 1);
                if local {
                    assert(sk1 =~= sk) by {
                        assert forall|t: Seq<char>| sk1.contains(t) implies sk.contains(t) by {
                            let j = choose|j: int| 0 <= j < k + 1 && !is_local_spec(raw@[j].specifier@) && #[trigger] raw@[j].specifier@ == t;
                            assert(j != k);
                        }
                    }
                } else {
                    assert(sk1 =~= sk.insert(spec@)) by {
                        assert forall|t: Seq<char>| sk1.contains(t) implies sk.insert(spec@).contains(t) by {
                            let j = choose|j: int| 0 <= j < k + 1 && !is_local_spec(raw@[j].specifier@) && #[trigger] raw@[j].specifier@ == t;
                        }
                        assert(raw@[k as int].specifier@ == spec@);
                        assert(sk1.contains(spec@));
                    }
                }
                assert(str_views(self.externals@).to_set() =~= str_views(e0).to_set().union(sk1));
                assert(e0.is_prefix_of(self.externals@)) by {
                    if self.externals@ != ek {
                        assert(self.externals@ == ek.push(spec));
                        assert forall|j: int| 0 <= j < e0.len() implies self.externals@[j] == e0[j] by {
                            assert(ek[j] == e0[j]);
                        }
                    }
                }
            }
            imports.push(ImportRef { specifier: spec, target: None, dynamic: raw[k].dynamic });
            k = k + 1;
        }
        let id = self.modules.len();
        let ghost m = ModuleInfo { id, path, size, imports };
        self.modules.push(ModuleInfo { id, path, size, imports });
        self.found.push(found);
        self.current = None;
        proof {
            self.lemma_wf_after_add(ms, fs, q0, m, found, raw@, found@, path);
        }
    }

    /// The bookkeeping of `wf` after a module is recorded.
    proof fn lemma_wf_after_add(
        &self,
        ms: Seq<ModuleInfo>,
        fs: Seq<Vec<Option<String>>>,
        q0: Seq<String>,
        m: ModuleInfo,
        f: Vec<Option<String>>,
        raw: Seq<RawImport>,
        fv: Seq<Option<String>>,
        path: String,
    )
        requires
            ms.len() < u32::MAX,
            self.modules@ == ms.push(m),
            self.found@ == fs.push(f),
            f@ == fv,
            raw.len() == fv.len(),
            self.current is None,
            str_views(self.externals@).no_duplicates(),
            str_views(self.queue@) == str_views(q0) + queued(raw, fv, ms, path@, raw.len() as int),
            m.id == ms.len(),
            m.path == path,
            m.imports@.len() == raw.len(),
            forall|j: int| 0 <= j < raw.len() ==> #[trigger] m.imports@[j] == (ImportRef {
                specifier: raw[j].specifier,
                target: None,
                dynamic: raw[j].dynamic,
            }),
            ms.len() == fs.len(),
            forall|i: int| 0 <= i < ms.len() ==> (#[trigger] ms[i]).id == i,
            forall|i: int| 0 <= i < ms.len() ==> (#[trigger] ms[i]).imports@.len() == fs[i]@.len(),
            forall|i: int, k: int| 0 <= i < ms.len() && 0 <= k < ms[i].imports@.len() ==> (#[trigger] ms[i].imports@[k]).target is None,
            forall|i: int, j: int| 0 <= i < ms.len() && 0 <= j < ms.len() && i != j ==> (#[trigger] ms[i]).path@ != (#[trigger] ms[j]).path@,
            ms.len() > 0 ==> ms[0].path@ == self.entry@,
            forall|j: int| 0 < j < ms.len() ==> #[trigger] has_parent(ms, fs, j),
            forall|q: int| 0 <= q < q0.len() ==> (#[trigger] q0[q])@ == self.entry@ || referenced(ms, fs, q0[q]@),
            forall|i: int, k: int, p: Seq<char>| #[trigger] found_at(ms, fs, i, k, p) ==> scanned(ms, p) || str_views(q0).contains(p)
                || path@ == p,
            !scanned(ms, path@),
            path@ == self.entry@ || referenced(ms, fs, path@),
        ensures
            self.wf(),
    {
        let ms2 = self.modules@;
        let fs2 = self.found@;
        let n = ms.len() as int;
        lemma_queued_members(raw, fv, ms, path@, raw.len() as int);
        assert(ms2[n] == m);
        assert forall|i: int| 0 <= i < ms2.len() implies (#[trigger] ms2[i]).id == i by {
            if i < n {
                assert(ms2[i] == ms[i]);
            }
        }
        assert forall|i: int| 0 <= i < ms2.len() implies (#[trigger] ms2[i]).imports@.len() == fs2[i]@.len() by {
            if i < n {
                assert(ms2[i] == ms[i] && fs2[i] == fs[i]);
            }
        }
        assert forall|i: int, k: int| 0 <= i < ms2.len() && 0 <= k < ms2[i].imports@.len() implies (#[trigger] ms2[i].imports@[k]).target is None by {
            if i < n {
                assert(ms2[i] == ms[i]);
            }
        }
        assert forall|i: int, j: int| 0 <= i < ms2.len() && 0 <= j < ms2.len() && i != j implies (#[trigger] ms2[i]).path@ != (#[trigger] ms2[j]).path@ by {
            if i < n && j < n {
                assert(ms2[i] == ms[i] && ms2[j] == ms[j]);
            } else if i == n {
                assert(ms2[j] == ms[j]);
            } else {
                assert(ms2[i] == ms[i]);
            }
        }
        // Anything referenced before is referenced still.
        assert forall|x: Seq<char>| referenced(ms, fs, x) implies referenced(ms2, fs2, x) by {
            let (i, k) = choose|i: int, k: int| #[trigger] found_at(ms, fs, i, k, x);
            lemma_found_at_push(ms, fs, m, f, i, k, x);
        }
        if n == 0 {
            assert(!referenced(ms, fs, path@));
            assert(ms2[0].path@ == self.entry@);
        } else {
            assert(ms2[0] == ms[0]);
            assert(scanned(ms, self.entry@)) by {
                assert(ms[0].path@ == self.entry@);
            }
        }
        assert forall|j: int| 0 < j < ms2.len() implies #[trigger] has_parent(ms2, fs2, j) by {
            if j < n {
                assert(has_parent(ms, fs, j));
                let (i, k) = choose|i: int, k: int| i < j && #[trigger] found_at(ms, fs, i, k, ms[j].path@);
                lemma_found_at_push(ms, fs, m, f, i, k, ms[j].path@);
                assert(ms2[j] == ms[j]);
                assert(found_at(ms2, fs2, i, k, ms2[j].path@));
            } else {
                assert(path@ != self.entry@);
                let (i, k) = choose|i: int, k: int| #[trigger] found_at(ms, fs, i, k, path@);
                lemma_found_at_push(ms, fs, m, f, i, k, path@);
                assert(found_at(ms2, fs2, i, k, ms2[j].path@));
            }
        }
        let nq = str_views(q0).len();
        let qd = queued(raw, fv, ms, path@, raw.len() as int);
        let sv = str_views(self.queue@);
        assert(sv.len() == nq + qd.len());
        assert forall|q: int| 0 <= q < self.queue@.len() implies (#[trigger] self.queue@[q])@ == self.entry@
            || referenced(ms2, fs2, self.queue@[q]@) by {
            let x = self.queue@[q]@;
            assert(sv[q] == x);
            assert(sv[q] == (str_views(q0) + qd)[q]);
            if q < nq {
                assert(str_views(q0)[q] == x);
                assert(q0[q]@ == x);
            } else {
                assert(qd[q - nq] == x);
                assert(qd.contains(x));
                let j = choose|j: int| 0 <= j < raw.len() && is_local_spec(raw[j].specifier@) && (#[trigger] fv[j] matches Some(c) && c@ == x);
                assert(m.imports@[j].specifier == raw[j].specifier);
                assert(fs2[n] == f);
                assert(found_at(ms2, fs2, n, j, x));
            }
        }
        assert forall|i: int, k: int, p: Seq<char>| #[trigger] found_at(ms2, fs2, i, k, p) implies scanned(ms2, p)
            || str_views(self.queue@).contains(p) || (self.current matches Some(c) && c@ == p) by {
            if i < n {
                lemma_found_at_push(ms, fs, m, f, i, k, p);
                if scanned(ms, p) {
                    let t = choose|t: int| 0 <= t < ms.len() && (#[trigger] ms[t]).path@ == p;
                    assert(ms2[t] == ms[t]);
                } else if str_views(q0).contains(p) {
                    let t = choose|t: int| 0 <= t < str_views(q0).len() && str_views(q0)[t] == p;
                    assert(str_views(self.queue@)[t] == p);
                } else {
                    assert(ms2[n].path@ == p);
                }
            } else {
                assert(fs2[n] == f);
                assert(m.imports@[k].specifier == raw[k].specifier);
                if scanned(ms, p) {
                    let t = choose|t: int| 0 <= t < ms.len() && (#[trigger] ms[t]).path@ == p;
                    assert(ms2[t] == ms[t]);
                } else if p == path@ {
                    assert(ms2[n].path@ == p);
                } else {
                    assert(fv[k] matches Some(c) && c@ == p);
                    assert(qd.contains(fv[k]->0@));
                    let t = choose|t: int| 0 <= t < qd.len() && qd[t] == p;
                    assert(str_views(self.queue@)[nq + t] == p);
                }
            }
        }
    }
}


/// Where an import with specifier `spec` that resolved to `f` points once
/// every module is read: the module read from that file, if the import is
/// local and the file was read.
pub open spec fn wired_target(ms: Seq<ModuleInfo>, spec: Seq<char>, f: Option<String>) -> Option<usize> {
    match f {
        Some(c) => if is_local_spec(spec) && scanned(ms, c@) {
            Some(path_index(ms, c@) as usize)
        } else {
            None
        },
        None => None,
    }
}

/// `g` is module `i` of the scan (`ms`, `found`) with its imports wired.
pub open spec fn wired_module(ms: Seq<ModuleInfo>, found: Seq<Vec<Option<String>>>, i: int, g: ModuleInfo) -> bool {
    &&& g.id == ms[i].id
    &&& g.path == ms[i].path
    &&& g.size == ms[i].size
    &&& g.imports@.len() == ms[i].imports@.len()
    &&& forall|k: int| 0 <= k < g.imports@.len() ==> #[trigger] g.imports@[k] == (ImportRef {
        specifier: ms[i].imports@[k].specifier,
        target: wired_target(ms, ms[i].imports@[k].specifier@, found[i]@[k]),
        dynamic: ms[i].imports@[k].dynamic,
    })
}

proof fn lemma_path_index(ms: Seq<ModuleInfo>, i: int)
    requires
        0 <= i < ms.len(),
        forall|a: int, b: int| 0 <= a < ms.len() && 0 <= b < ms.len() && a != b ==> (#[trigger] ms[a]).path@ != (#[trigger] ms[b]).path@,
    ensures
        scanned(ms, ms[i].path@),
        path_index(ms, ms[i].path@) == i,
{
    assert(ms[i].path@ == ms[i].path@);
    let j = path_index(ms, ms[i].path@);
    assert(0 <= j < ms.len() && ms[j].path@ == ms[i].path@);
}

/// Module `i` of `ms` imports module `p[q + 1]` where `i == p[q]`.
pub open spec fn walk_step(ms: Seq<ModuleInfo>, p: Seq<int>, q: int) -> bool {
    imports_upto(ms[p[q]], p[q + 1], ms[p[q]].imports@.len() as int)
}

/// `p` is a chain of imports through the modules of `ms`.
pub open spec fn import_walk(ms: Seq<ModuleInfo>, p: Seq<int>) -> bool {
    &&& p.len() >= 1
    &&& forall|q: int| 0 <= q < p.len() ==> 0 <= #[trigger] p[q] < ms.len()
    &&& forall|q: int| 0 <= q < p.len() - 1 ==> #[trigger] walk_step(ms, p, q)
}

/// Module `b` is reached from module `a` along imports.
pub open spec fn import_reaches(ms: Seq<ModuleInfo>, a: int, b: int) -> bool {
    exists|p: Seq<int>| #[trigger] import_walk(ms, p) && p[0] == a && p.last() == b
}

impl ProjectScan {
    proof fn lemma_reached(&self, gms: Seq<ModuleInfo>, j: int)
        requires
            self.wf(),
            gms.len() == self.modules@.len(),
            forall|i: int| 0 <= i < gms.len() ==> wired_module(self.modules@, self.found@, i, #[trigger] gms[i]),
            0 <= j < gms.len(),
        ensures
            import_reaches(gms, 0, j),
        decreases j,
    {
        let ms = self.modules@;
        let fs = self.found@;
        if j == 0 {
            let p = seq![0int];
            assert(import_walk(gms, p));
        } else {
            assert(has_parent(ms, fs, j));
            let (i, k) = choose|i: int, k: int| i < j && #[trigger] found_at(ms, fs, i, k, ms[j].path@);
            self.lemma_reached(gms, i);
            let p = choose|p: Seq<int>| #[trigger] import_walk(gms, p) && p[0] == 0 && p.last() == i;
            lemma_path_index(ms, j);
            assert(wired_module(ms, fs, i, gms[i]));
            assert(gms[i].imports@[k].target == Some(j as usize));
            assert(imports_upto(gms[i], j, gms[i].imports@.len() as int));
            let p2 = p.push(j);
            assert forall|q: int| 0 <= q < p2.len() implies 0 <= #[trigger] p2[q] < gms.len() by {
                if q < p.len() {
                    assert(p2[q] == p[q]);
                }
            }
            assert forall|q: int| 0 <= q < p2.len() - 1 implies #[trigger] walk_step(gms, p2, q) by {
                if q < p.len() - 1 {
                    assert(walk_step(gms, p, q));
                    assert(p2[q] == p[q] && p2[q + 1] == p[q + 1]);
                } else {
                    assert(p2[q] == i && p2[q + 1] == j);
                }
            }
            assert(import_walk(gms, p2));
            assert(p2[0] == 0 && p2.last() == j);
        }
    }
    /// The graph of the finished scan: every local import that resolved
    /// points at the module read from that file, the matrix and byte total
    /// come from `module_matrix`, and the entry is module 0. Every module
    /// of the graph is reached from the entry along imports.
    pub fn finish(self, root: String) -> (g: ProjectGraph)
        requires
            self.wf(),
            self.current is None,
            self.queue@.len() == 0,
            self.modules@.len() > 0,
        ensures
            g.root == root,
            g.entry == self.entry,
            g.entry_id == 0,
            g.modules@[0].path@ == self.entry@,
            forall|i: int, k: int, p: Seq<char>| #[trigger] found_at(self.modules@, self.found@, i, k, p)
                ==> g.modules@[i].imports@[k].target == Some(path_index(self.modules@, p) as usize),
            forall|j: int| 0 <= j < g.modules@.len() ==> #[trigger] import_reaches(g.modules@, 0, j),
            g.modules@.len() == self.modules@.len(),
            forall|i: int| 0 <= i < self.modules@.len() ==> wired_module(self.modules@, self.found@, i, #[trigger] g.modules@[i]),
            modules_wf(g.modules@),
            g.matrix.wf(),
            g.matrix.size == g.modules@.len(),
            g.matrix@ == module_table(g.modules@),
            g.total_bytes == size_sum(g.modules@),
            g.externals == self.externals,
            forall|i: int, j: int| 0 <= i < g.modules@.len() && 0 <= j < g.modules@.len() && i != j
                ==> (#[trigger] g.modules@[i]).path@ != (#[trigger] g.modules@[j]).path@,
            forall|i: int| 0 <= i < g.modules@.len() ==> #[trigger] g.path_to_id@.contains_key(g.modules@[i].path@)
                && g.path_to_id@[g.modules@[i].path@] == i,
            forall|s: Seq<char>| #[trigger] g.path_to_id@.contains_key(s) ==> exists|i: int|
                0 <= i < g.modules@.len() && g.modules@[i].path@ == s,
            g.path_to_id@.len() == g.modules@.len(),
    {
        let ghost ms = self.modules@;
        let ghost fs = self.found@;
        let n = self.modules.len();
        let mut out: Vec<ModuleInfo> = Vec::new();
        let mut i: usize = 0;
        while i < n
            invariant
                self.wf(),
                ms == self.modules@,
                fs == self.found@,
                n == ms.len(),
                i <= n,
                out@.len() == i,
                forall|j: int| 0 <= j < i ==> wired_module(ms, fs, j, #[trigger] out@[j]),
                forall|j: int, k: int| 0 <= j < i && 0 <= k < out@[j].imports@.len() ==> ((#[trigger] out@[j].imports@[k]).target matches Some(t) ==> t < n),
            decreases n - i,
        {
            let m = &self.modules[i];
            let fi = &self.found[i];
            proof {
                assert(m.imports@.len() == fi@.len());
            }
            let mut imps: Vec<ImportRef> = Vec::new();
            let mut k: usize = 0;
            while k < m.imports.len()
                invariant
                    self.wf(),
                    ms == self.modules@,
                    fs == self.found@,
                    n == ms.len(),
                    i < n,
                    *m == ms[i as int],
                    *fi == fs[i as int],
                    m.imports@.len() == fi@.len(),
                    k <= m.imports@.len(),
                    imps@.len() == k,
                    forall|q: int| 0 <= q < k ==> #[trigger] imps@[q] == (ImportRef {
                        specifier: ms[i as int].imports@[q].specifier,
                        target: wired_target(ms, ms[i as int].imports@[q].specifier@, fs[i as int]@[q]),
                        dynamic: ms[i as int].imports@[q].dynamic,
                    }),
                    forall|q: int| 0 <= q < k ==> ((#[trigger] imps@[q]).target matches Some(t) ==> t < n),
                decreases m.imports@.len() - k,
            {
                let imp = &m.imports[k];
                let t = match &fi[k] {
                    Some(c) => if is_local(&imp.specifier) {
                        let r = find_path(&self.modules, c);
                        proof {
                            if let Some(x) = r {
                                lemma_path_index(ms, x as int);
                            }
                        }
                        r
                    } else {
                        None
                    },
                    None => None,
                };
                imps.push(ImportRef { specifier: imp.specifier.clone(), target: t, dynamic: imp.dynamic });
                k = k + 1;
            }
            out.push(ModuleInfo { id: m.id, path: m.path.clone(), size: m.size, imports: imps });
            i = i + 1;
        }
        proof {
            assert forall|j: int, q: int| 0 <= j < out@.len() && 0 <= q < out@[j].imports@.len()
                implies ((#[trigger] out@[j].imports@[q]).target matches Some(t) ==> t < out@.len()) by {}
            assert forall|j: int| 0 <= j < out@.len() implies (#[trigger] out@[j]).id == j by {
                assert(wired_module(ms, fs, j, out@[j]));
            }
        }
        let (matrix, total_bytes) = module_matrix(&out);
        let entry_id: usize = 0;
        let mut path_to_id: StringHashMap<usize> = StringHashMap::new();
        let mut j: usize = 0;
        proof {
            assert(path_to_id@.dom() =~= Set::<Seq<char>>::empty());
        }
        while j < n
            invariant
                out@.len() == n,
                n == ms.len(),
                j <= n,
                forall|a: int| 0 <= a < n ==> wired_module(ms, fs, a, #[trigger] out@[a]),
                forall|a: int, b: int| 0 <= a < ms.len() && 0 <= b < ms.len() && a != b ==> (#[trigger] ms[a]).path@ != (#[trigger] ms[b]).path@,
                forall|a: int| 0 <= a < j ==> #[trigger] path_to_id@.contains_key(out@[a].path@)
                    && path_to_id@[out@[a].path@] == a,
                forall|s: Seq<char>| #[trigger] path_to_id@.contains_key(s) ==> exists|a: int|
                    0 <= a < j && out@[a].path@ == s,
                path_to_id@.dom().finite(),
                path_to_id@.len() == j,
            decreases n - j,
        {
            let key = out[j].path.clone();
            let ghost before = path_to_id@;
            proof {
                assert(wired_module(ms, fs, j as int, out@[j as int]));
                assert(!before.contains_key(key@)) by {
                    if before.contains_key(key@) {
                        let a = choose|a: int| 0 <= a < j && out@[a].path@ == key@;
                        assert(wired_module(ms, fs, a, out@[a]));
                        assert(ms[a].path@ != ms[j as int].path@);
                    }
                }
            }
            path_to_id.insert(key, j);
            proof {
                assert(path_to_id@.dom() =~= before.dom().insert(key@));
                assert forall|a: int| 0 <= a < j + 1 implies #[trigger] path_to_id@.contains_key(out@[a].path@)
                    && path_to_id@[out@[a].path@] == a by {
                    if a < j {
                        assert(wired_module(ms, fs, a, out@[a]));
                        assert(ms[a].path@ != ms[j as int].path@);
                    }
                }
                assert forall|s: Seq<char>| #[trigger] path_to_id@.contains_key(s) implies exists|a: int|
                    0 <= a < j + 1 && out@[a].path@ == s by {
                    if s != key@ {
                        assert(before.contains_key(s));
                    } else {
                        assert(out@[j as int].path@ == s);
                    }
                }
            }
            j = j + 1;
        }
        proof {
            assert(out@[0].path@ == self.entry@) by {
                assert(wired_module(ms, fs, 0, out@[0]));
            }
            assert forall|i: int, k: int, p: Seq<char>| #[trigger] found_at(ms, fs, i, k, p)
                implies out@[i].imports@[k].target == Some(path_index(ms, p) as usize) by {
                assert(wired_module(ms, fs, i, out@[i]));
                assert(scanned(ms, p)) by {
                    assert(!str_views(self.queue@).contains(p));
                }
            }
            assert forall|j: int| 0 <= j < out@.len() implies #[trigger] import_reaches(out@, 0, j) by {
                self.lemma_reached(out@, j);
            }
        }
        ProjectGraph {
            root,
            entry: self.entry,
            entry_id,
            modules: out,
            path_to_id,
            matrix,
            externals: self.externals,
            total_bytes,
        }
    }
}


impl ProjectGraph {
    /// The id of the module read from `path`, if the graph holds one: a
    /// lookup over the modules that needs no hashing of the path.
    pub fn id_of(&self, path: &String) -> (r: Option<usize>)
        ensures
            match r {
                Some(i) => i < self.modules@.len() && self.modules@[i as int].path@ == path@,
                None => forall|i: int| 0 <= i < self.modules@.len() ==> (#[trigger] self.modules@[i]).path@ != path@,
            },
    {
        find_path(&self.modules, path)
    }
}

} // verus!
