//! Path resolution for static import specifiers. Paths are `/`-separated.
//! Which candidate file exists is for the caller to check; this module says
//! which paths to try, in order.
use vstd::prelude::*;
use crate::text::{chars_of, string_of, append_char, append_range};
use crate::project::{first_from, is_quote};
use crate::transform::lemma_first_from;
use crate::config::is_char;
use vstd::string::StringExecFns;

verus! {

/// The parts of `s[i..]` between `/` separators, empty parts and `.`
/// parts dropped.
pub open spec fn parts_from(s: Seq<char>, i: int) -> Seq<Seq<char>>
    decreases s.len() + 1 - i,
{
    if i < 0 || i >= s.len() {
        Seq::empty()
    } else {
        let e = first_from(s, i, is_char('/'));
        let seg = s.subrange(i, e);
        proof {
            lemma_first_from(s, i, is_char('/'));
        }
        let rest = parts_from(s, e + 1);
        if seg.len() == 0 || seg == seq!['.'] {
            rest
        } else {
            seq![seg] + rest
        }
    }
}

pub open spec fn rooted(s: Seq<char>) -> bool {
    s.len() > 0 && s[0] == '/'
}

/// `..` drops the part before it (nothing above the start); other parts
/// are kept.
pub open spec fn fold_parts(acc: Seq<Seq<char>>, ps: Seq<Seq<char>>) -> Seq<Seq<char>>
    decreases ps.len(),
{
    if ps.len() == 0 {
        acc
    } else {
        let next = if ps[0] == seq!['.', '.'] {
            if acc.len() > 0 { acc.drop_last() } else { acc }
        } else {
            acc.push(ps[0])
        };
        fold_parts(next, ps.drop_first())
    }
}

/// Parts joined with `/`.
pub open spec fn join_parts(ps: Seq<Seq<char>>) -> Seq<char>
    decreases ps.len(),
{
    if ps.len() == 0 {
        Seq::empty()
    } else if ps.len() == 1 {
        ps[0]
    } else {
        join_parts(ps.drop_last()) + seq!['/'] + ps.last()
    }
}

pub open spec fn render(root: bool, ps: Seq<Seq<char>>) -> Seq<char> {
    if root { seq!['/'] + join_parts(ps) } else { join_parts(ps) }
}

/// `s` with `.` and `..` collapsed, without touching the filesystem.
pub open spec fn normalized(s: Seq<char>) -> Seq<char> {
    render(rooted(s), fold_parts(Seq::empty(), parts_from(s, 0)))
}

/// Parts of `v[lo..hi]`, in order.
fn split_parts(v: &Vec<char>) -> (ps: Vec<Vec<char>>)
    ensures
        ps@.map_values(|p: Vec<char>| p@) == parts_from(v@, 0),
{
    let mut ps: Vec<Vec<char>> = Vec::new();
    let mut i: usize = 0;
    proof {
        assert(ps@.map_values(|p: Vec<char>| p@) =~= Seq::<Seq<char>>::empty());
    }
    while i < v.len()
        invariant
            i <= v@.len(),
            ps@.map_values(|p: Vec<char>| p@) + parts_from(v@, i as int) == parts_from(v@, 0),
        decreases v@.len() - i,
    {
        let ghost before = ps@.map_values(|p: Vec<char>| p@);
        let mut e = i;
        while e < v.len() && v[e] != '/'
            invariant
                i <= e <= v@.len(),
                first_from(v@, e as int, is_char('/')) == first_from(v@, i as int, is_char('/')),
            decreases v@.len() - e,
        {
            e = e + 1;
        }
        proof {
            lemma_first_from(v@, i as int, is_char('/'));
        }
        let seg = crate::text::copy_range(v, i, e);
        let skip = seg.len() == 0 || (seg.len() == 1 && seg[0] == '.');
        proof {
            if seg@.len() == 1 && seg@[0] == '.' {
                assert(seg@ =~= seq!['.']);
            }
            if seg@ == seq!['.'] {
                assert(seg@.len() == 1 && seg@[0] == '.');
            }
        }
        if !skip {
            ps.push(seg);
            proof {
                assert(ps@.map_values(|p: Vec<char>| p@) =~= before.push(seg@));
                assert(before.push(seg@) + parts_from(v@, e + 1) =~= before + (seq![seg@] + parts_from(v@, e + 1)));
            }
        }
        i = if e < v.len() { e + 1 } else { e };
        proof {
            if e >= v@.len() {
                assert(parts_from(v@, e + 1) == Seq::<Seq<char>>::empty());
                assert(parts_from(v@, e as int) == Seq::<Seq<char>>::empty());
            }
        }
    }
    proof {
        assert(ps@.map_values(|p: Vec<char>| p@) + Seq::<Seq<char>>::empty() =~= ps@.map_values(|p: Vec<char>| p@));
    }
    ps
}

proof fn lemma_fold_step(acc: Seq<Seq<char>>, ps: Seq<Seq<char>>, i: int)
    requires
        0 <= i < ps.len(),
    ensures
        fold_parts(acc, ps.subrange(i, ps.len() as int)) == fold_parts(
            if ps[i] == seq!['.', '.'] {
                if acc.len() > 0 { acc.drop_last() } else { acc }
            } else {
                acc.push(ps[i])
            },
            ps.subrange(i + 1, ps.len() as int),
        ),
{
    let t = ps.subrange(i, ps.len() as int);
    assert(t[0] == ps[i]);
    assert(t.drop_first() =~= ps.subrange(i + 1, ps.len() as int));
}

fn is_dotdot(p: &Vec<char>) -> (b: bool)
    ensures
        b == (p@ == seq!['.', '.']),
{
    let r = p.len() == 2 && p[0] == '.' && p[1] == '.';
    proof {
        if r {
            assert(p@ =~= seq!['.', '.']);
        }
        if p@ == seq!['.', '.'] {
            assert(p@.len() == 2 && p@[0] == '.' && p@[1] == '.');
        }
    }
    r
}

fn render_exec(root: bool, ps: &Vec<Vec<char>>) -> (s: String)
    ensures
        s@ == render(root, ps@.map_values(|p: Vec<char>| p@)),
{
    let ghost views = ps@.map_values(|p: Vec<char>| p@);
    let mut s = String::new();
    if root {
        append_char(&mut s, '/');
    }
    let ghost start = s@;
    let mut k: usize = 0;
    while k < ps.len()
        invariant
            views == ps@.map_values(|p: Vec<char>| p@),
            k <= ps@.len(),
            start == (if root { seq!['/'] } else { Seq::<char>::empty() }),
            s@ == start + join_parts(views.subrange(0, k as int)),
        decreases ps@.len() - k,
    {
        let ghost before = s@;
        if k > 0 {
            append_char(&mut s, '/');
        }
        append_range(&mut s, &ps[k], 0, ps[k].len());
        proof {
            let p = views.subrange(0, k + 1);
            assert(p.drop_last() =~= views.subrange(0, k as int));
            assert(ps@[k as int]@.subrange(0, ps@[k as int]@.len() as int) =~= views[k as int]);
            if k == 0 {
                assert(join_parts(p) == views[0]);
                assert(s@ =~= start + join_parts(p));
            } else {
                assert(s@ =~= start + join_parts(p));
            }
        }
        k = k + 1;
    }
    proof {
        assert(views.subrange(0, ps@.len() as int) =~= views);
        if !root {
            assert(s@ =~= join_parts(views));
        }
    }
    s
}

/// The parts of a path with `.` and `..` collapsed, and whether it is rooted.
fn normalize_parts(v: &Vec<char>) -> (r: (bool, Vec<Vec<char>>))
    ensures
        r.0 == rooted(v@),
        r.1@.map_values(|p: Vec<char>| p@) == fold_parts(Seq::empty(), parts_from(v@, 0)),
{
    let parts = split_parts(v);
    let ghost pv = parts@.map_values(|p: Vec<char>| p@);
    let mut stack: Vec<Vec<char>> = Vec::new();
    let mut k: usize = 0;
    proof {
        assert(pv.subrange(0, pv.len() as int) =~= pv);
        assert(stack@.map_values(|p: Vec<char>| p@) =~= Seq::<Seq<char>>::empty());
    }
    while k < parts.len()
        invariant
            pv == parts@.map_values(|p: Vec<char>| p@),
            k <= parts@.len(),
            fold_parts(stack@.map_values(|p: Vec<char>| p@), pv.subrange(k as int, pv.len() as int))
                == fold_parts(Seq::empty(), pv),
        decreases parts@.len() - k,
    {
        let ghost sv = stack@.map_values(|p: Vec<char>| p@);
        proof {
            lemma_fold_step(sv, pv, k as int);
        }
        if is_dotdot(&parts[k]) {
            if stack.len() > 0 {
                stack.pop();
                proof {
                    assert(stack@.map_values(|p: Vec<char>| p@) =~= sv.drop_last());
                }
            }
        } else {
            let p = crate::text::copy_range(&parts[k], 0, parts[k].len());
            proof {
                assert(parts@[k as int]@.subrange(0, parts@[k as int]@.len() as int) =~= pv[k as int]);
            }
            stack.push(p);
            proof {
                assert(stack@.map_values(|p: Vec<char>| p@) =~= sv.push(pv[k as int]));
            }
        }
        k = k + 1;
    }
    proof {
        assert(pv.subrange(parts@.len() as int, pv.len() as int) =~= Seq::<Seq<char>>::empty());
    }
    let root = v.len() > 0 && v[0] == '/';
    (root, stack)
}

/// Collapse `.` and `..` without hitting the filesystem.
pub fn normalize_path(path: &str) -> (out: String)
    ensures
        out@ == normalized(path@),
{
    let v = chars_of(path);
    let (root, stack) = normalize_parts(&v);
    render_exec(root, &stack)
}

// ---------------------------------------------------------------- candidates

/// The extensions of source modules, without their dot, in the order
/// resolution tries them.
pub open spec fn ext_names() -> Seq<Seq<char>> {
    seq!["ts"@, "tsx"@, "mts"@, "cts"@, "js"@, "jsx"@, "mjs"@, "cjs"@]
}

fn ext_name(i: usize) -> (r: &'static str)
    requires
        i < 8,
    ensures
        r@ == ext_names()[i as int],
{
    match i {
        0 => "ts",
        1 => "tsx",
        2 => "mts",
        3 => "cts",
        4 => "js",
        5 => "jsx",
        6 => "mjs",
        _ => "cjs",
    }
}

/// The path starts with a `.` component (`.`, `./...`).
pub open spec fn leading_cur(s: Seq<char>) -> bool {
    s.len() >= 1 && s[0] == '.' && (s.len() == 1 || s[1] == '/')
}

/// The directory of a path: all components but the last; `None` when it
/// has no component but the root.
pub open spec fn parent_of(s: Seq<char>) -> Option<Seq<char>> {
    let ps = parts_from(s, 0);
    if ps.len() > 0 {
        Some(render(rooted(s), ps.drop_last()))
    } else if leading_cur(s) {
        Some(Seq::empty())
    } else {
        None
    }
}

/// `b` (not rooted) appended to `a` with a `/` between them.
pub open spec fn join_path(a: Seq<char>, b: Seq<char>) -> Seq<char> {
    if a.len() == 0 {
        b
    } else if a.last() == '/' {
        a + b
    } else {
        a + seq!['/'] + b
    }
}

/// `s` without its leading `/`s.
pub open spec fn trim_slashes(s: Seq<char>) -> Seq<char> {
    s.subrange(crate::config::lead(s, is_char('/')) as int, s.len() as int)
}

/// The last part of a path with its extension (after the last dot that is
/// not its first character) replaced by `ext`.
pub open spec fn with_ext_part(f: Seq<char>, ext: Seq<char>) -> Seq<char> {
    let d = last_dot(f, f.len() as int);
    let stem = if d > 0 { f.subrange(0, d) } else { f };
    stem + seq!['.'] + ext
}

/// Index of the last `.` in `f[..k]`, or -1.
pub open spec fn last_dot(f: Seq<char>, k: int) -> int
    decreases k,
{
    if k <= 0 {
        -1
    } else if f[k - 1] == '.' {
        k - 1
    } else {
        last_dot(f, k - 1)
    }
}

/// The normalised candidate, as a rooted flag and parts.
pub open spec fn candidate_parts(root: Seq<char>, from: Seq<char>, spec: Seq<char>) -> (bool, Seq<Seq<char>>) {
    let joined = if spec.len() > 0 && spec[0] == '/' {
        join_path(root, trim_slashes(spec))
    } else {
        join_path(
            match parent_of(from) {
                Some(p) => p,
                None => root,
            },
            spec,
        )
    };
    (rooted(joined), fold_parts(Seq::empty(), parts_from(joined, 0)))
}

/// The candidate with its extension replaced by `ext` (unchanged when it
/// has no last part).
pub open spec fn with_extension_of(c: (bool, Seq<Seq<char>>), ext: Seq<char>) -> Seq<char> {
    if c.1.len() == 0 {
        render(c.0, c.1)
    } else {
        render(c.0, c.1.drop_last().push(with_ext_part(c.1.last(), ext)))
    }
}

/// The paths to test, in order, for an import of `spec` from `from` in a
/// project rooted at `root`, each with whether only a file will do (rather
/// than any existing entry): the path itself (a file), then per extension
/// the path with its extension replaced and the path with the extension
/// appended, then per extension `index.<ext>` inside the path. `None` for
/// a bare specifier (an external package).
pub open spec fn resolve_plan(root: Seq<char>, from: Seq<char>, spec: Seq<char>) -> Option<Seq<(Seq<char>, bool)>> {
    if spec.len() > 0 && (spec[0] == '.' || spec[0] == '/') {
        let c = candidate_parts(root, from, spec);
        let cand = render(c.0, c.1);
        let per_ext = Seq::new(16, |k: int| if k % 2 == 0 {
            (with_extension_of(c, ext_names()[k / 2]), false)
        } else {
            (cand + seq!['.'] + ext_names()[k / 2], false)
        });
        let index = Seq::new(8, |k: int| (join_path(cand, "index"@ + seq!['.'] + ext_names()[k]), false));
        Some(seq![(cand, true)] + per_ext + index)
    } else {
        None
    }
}

fn join_exec(a: &Vec<char>, b: &Vec<char>) -> (r: Vec<char>)
    ensures
        r@ == join_path(a@, b@),
{
    let mut r = crate::text::copy_range(a, 0, a.len());
    proof {
        assert(a@.subrange(0, a@.len() as int) =~= a@);
    }
    if a.len() > 0 && a[a.len() - 1] != '/' {
        r.push('/');
    }
    let ghost mid = r@;
    let mut k: usize = 0;
    while k < b.len()
        invariant
            k <= b@.len(),
            r@ == mid + b@.subrange(0, k as int),
        decreases b@.len() - k,
    {
        r.push(b[k]);
        proof {
            assert(b@.subrange(0, k + 1) =~= b@.subrange(0, k as int).push(b@[k as int]));
            assert(mid + b@.subrange(0, k + 1) =~= (mid + b@.subrange(0, k as int)).push(b@[k as int]));
        }
        k = k + 1;
    }
    proof {
        assert(b@.subrange(0, b@.len() as int) =~= b@);
        if a@.len() > 0 && a@.last() != '/' {
            assert(mid =~= a@ + seq!['/']);
        }
    }
    r
}

fn parent_exec(v: &Vec<char>) -> (r: Option<Vec<char>>)
    ensures
        match r {
            Some(p) => parent_of(v@) == Some(p@),
            None => parent_of(v@) is None,
        },
{
    let mut ps = split_parts(v);
    let ghost pv = ps@.map_values(|p: Vec<char>| p@);
    if ps.len() > 0 {
        ps.pop();
        proof {
            assert(ps@.map_values(|p: Vec<char>| p@) =~= pv.drop_last());
        }
        let root = v.len() > 0 && v[0] == '/';
        let s = render_exec(root, &ps);
        Some(chars_of(s.as_str()))
    } else if v.len() >= 1 && v[0] == '.' && (v.len() == 1 || v[1] == '/') {
        Some(Vec::new())
    } else {
        None
    }
}

fn with_ext_exec(f: &Vec<char>, ext: &Vec<char>) -> (r: Vec<char>)
    ensures
        r@ == with_ext_part(f@, ext@),
{
    let mut k = f.len();
    while k > 0 && f[k - 1] != '.'
        invariant
            k <= f@.len(),
            last_dot(f@, k as int) == last_dot(f@, f@.len() as int),
        decreases k,
    {
        k = k - 1;
    }
    let ghost d = last_dot(f@, f@.len() as int);
    proof {
        if k > 0 {
            assert(d == k - 1);
        } else {
            assert(d == -1);
        }
    }
    let stem_end = if k > 1 { k - 1 } else { f.len() };
    let mut r = crate::text::copy_range(f, 0, stem_end);
    r.push('.');
    let ghost mid = r@;
    let mut j: usize = 0;
    while j < ext.len()
        invariant
            j <= ext@.len(),
            r@ == mid + ext@.subrange(0, j as int),
        decreases ext@.len() - j,
    {
        r.push(ext[j]);
        proof {
            assert(ext@.subrange(0, j + 1) =~= ext@.subrange(0, j as int).push(ext@[j as int]));
            assert(mid + ext@.subrange(0, j + 1) =~= (mid + ext@.subrange(0, j as int)).push(ext@[j as int]));
        }
        j = j + 1;
    }
    proof {
        assert(ext@.subrange(0, ext@.len() as int) =~= ext@);
        if d <= 0 {
            assert(f@.subrange(0, f@.len() as int) =~= f@);
        }
        assert(r@ =~= with_ext_part(f@, ext@));
    }
    r
}

proof fn lemma_lead_slashes(s: Seq<char>, m: int)
    requires
        0 <= m <= s.len(),
        forall|k: int| 0 <= k < m ==> #[trigger] s[k] == '/',
        m == s.len() || s[m] != '/',
    ensures
        crate::config::lead(s, is_char('/')) == m,
{
    crate::config::lemma_lead(s, is_char('/'), m);
}

fn string_of_vec(v: &Vec<char>) -> (s: String)
    ensures
        s@ == v@,
{
    let s = string_of(v.as_slice(), 0, v.len());
    proof {
        assert(v@.subrange(0, v@.len() as int) =~= v@);
    }
    s
}

pub open spec fn plan_view(v: Seq<(String, bool)>) -> Seq<(Seq<char>, bool)> {
    v.map_values(|p: (String, bool)| (p.0@, p.1))
}

/// The first candidate that was found: the least index whose flag is set.
pub fn first_found(found: &Vec<bool>) -> (r: Option<usize>)
    ensures
        match r {
            Some(i) => i < found@.len() && found@[i as int] && forall|j: int| 0 <= j < i ==> !found@[j],
            None => forall|j: int| 0 <= j < found@.len() ==> !found@[j],
        },
{
    let mut i: usize = 0;
    while i < found.len()
        invariant
            i <= found@.len(),
            forall|j: int| 0 <= j < i ==> !found@[j],
        decreases found@.len() - i,
    {
        if found[i] {
            return Some(i);
        }
        i = i + 1;
    }
    None
}

/// The paths to test, in order, when resolving `specifier` imported from
/// `from_file` within `root` (see `resolve_plan`); `None` for bare
/// specifiers (node packages).
pub fn resolve_candidates(root: &str, from_file: &str, specifier: &str) -> (r: Option<Vec<(String, bool)>>)
    ensures
        match r {
            Some(v) => resolve_plan(root@, from_file@, specifier@) == Some(plan_view(v@)),
            None => resolve_plan(root@, from_file@, specifier@) is None,
        },
{
    let sv = chars_of(specifier);
    if !(sv.len() > 0 && (sv[0] == '.' || sv[0] == '/')) {
        return None;
    }
    let joined = if sv[0] == '/' {
        let rootv = chars_of(root);
        let mut a: usize = 0;
        while a < sv.len() && sv[a] == '/'
            invariant
                a <= sv@.len(),
                forall|k: int| 0 <= k < a ==> #[trigger] sv@[k] == '/',
            decreases sv@.len() - a,
        {
            a = a + 1;
        }
        proof {
            lemma_lead_slashes(sv@, a as int);
        }
        let rel = crate::text::copy_range(&sv, a, sv.len());
        join_exec(&rootv, &rel)
    } else {
        let fromv = chars_of(from_file);
        let base = match parent_exec(&fromv) {
            Some(p) => p,
            None => chars_of(root),
        };
        join_exec(&base, &sv)
    };
    let (rt, ps) = normalize_parts(&joined);
    let ghost c = candidate_parts(root@, from_file@, specifier@);
    proof {
        assert(c == (rt, ps@.map_values(|p: Vec<char>| p@)));
    }
    let cand = render_exec(rt, &ps);
    let cand_chars = chars_of(cand.as_str());
    let ghost cv = cand@;
    let ghost per_ext = Seq::new(16, |k: int| if k % 2 == 0 {
        (with_extension_of(c, ext_names()[k / 2]), false)
    } else {
        (cv + seq!['.'] + ext_names()[k / 2], false)
    });
    let ghost index = Seq::new(8, |k: int| (join_path(cv, "index"@ + seq!['.'] + ext_names()[k]), false));
    let mut out: Vec<(String, bool)> = Vec::new();
    out.push((string_of_vec(&cand_chars), true));
    proof {
        assert(plan_view(out@) =~= seq![(cv, true)] + per_ext.subrange(0, 0));
    }
    let mut i: usize = 0;
    while i < 8
        invariant
            i <= 8,
            c == (rt, ps@.map_values(|p: Vec<char>| p@)),
            cv == render(c.0, c.1),
            cand_chars@ == cv,
            per_ext == Seq::new(16, |k: int| if k % 2 == 0 {
                (with_extension_of(c, ext_names()[k / 2]), false)
            } else {
                (cv + seq!['.'] + ext_names()[k / 2], false)
            }),
            plan_view(out@) == seq![(cv, true)] + per_ext.subrange(0, 2 * i as int),
        decreases 8 - i,
    {
        let name = chars_of(ext_name(i));
        let with_ext = if ps.len() == 0 {
            render_exec(rt, &ps)
        } else {
            let mut parts2: Vec<Vec<char>> = Vec::new();
            let mut k: usize = 0;
            while k < ps.len() - 1
                invariant
                    ps@.len() > 0,
                    k + 1 <= ps@.len(),
                    parts2@.map_values(|p: Vec<char>| p@) == ps@.map_values(|p: Vec<char>| p@).subrange(0, k as int),
                decreases ps@.len() - k,
            {
                let p = crate::text::copy_range(&ps[k], 0, ps[k].len());
                proof {
                    assert(ps@[k as int]@.subrange(0, ps@[k as int]@.len() as int) =~= ps@[k as int]@);
                }
                let ghost before = parts2@.map_values(|p: Vec<char>| p@);
                parts2.push(p);
                proof {
                    assert(parts2@.map_values(|p: Vec<char>| p@) =~= before.push(ps@[k as int]@));
                    assert(ps@.map_values(|p: Vec<char>| p@).subrange(0, k + 1) =~= ps@.map_values(|p: Vec<char>| p@).subrange(0, k as int).push(ps@[k as int]@));
                }
                k = k + 1;
            }
            let last = with_ext_exec(&ps[ps.len() - 1], &name);
            let ghost before = parts2@.map_values(|p: Vec<char>| p@);
            parts2.push(last);
            proof {
                let pv = ps@.map_values(|p: Vec<char>| p@);
                assert(parts2@.map_values(|p: Vec<char>| p@) =~= before.push(last@));
                assert(pv.subrange(0, pv.len() - 1) =~= pv.drop_last());
                assert(pv.last() == ps@[ps@.len() - 1]@);
            }
            render_exec(rt, &parts2)
        };
        proof {
            assert(with_ext@ == with_extension_of(c, ext_names()[i as int]));
        }
        let ghost before = plan_view(out@);
        let ghost w = with_ext@;
        out.push((with_ext, false));
        let mut appended = string_of_vec(&cand_chars);
        appended.append(".");
        appended.append(ext_name(i));
        let ghost ap = appended@;
        out.push((appended, false));
        proof {
            reveal_strlit(".");
            assert(ap == cv + seq!['.'] + ext_names()[i as int]);
            assert(plan_view(out@) =~= before.push((w, false)).push((ap, false)));
            assert(per_ext[2 * i as int] == (with_extension_of(c, ext_names()[i as int]), false));
            assert(per_ext[2 * i + 1] == (cv + seq!['.'] + ext_names()[i as int], false));
            assert(plan_view(out@) =~= seq![(cv, true)] + per_ext.subrange(0, 2 * (i + 1) as int));
        }
        i = i + 1;
    }
    let ghost head = plan_view(out@);
    let mut i: usize = 0;
    while i < 8
        invariant
            i <= 8,
            cand_chars@ == cv,
            index == Seq::new(8, |k: int| (join_path(cv, "index"@ + seq!['.'] + ext_names()[k]), false)),
            plan_view(out@) == head + index.subrange(0, i as int),
        decreases 8 - i,
    {
        let mut file = chars_of("index.");
        let name = chars_of(ext_name(i));
        let mut j: usize = 0;
        let ghost mid = file@;
        while j < name.len()
            invariant
                j <= name@.len(),
                file@ == mid + name@.subrange(0, j as int),
            decreases name@.len() - j,
        {
            file.push(name[j]);
            proof {
                assert(name@.subrange(0, j + 1) =~= name@.subrange(0, j as int).push(name@[j as int]));
                assert(mid + name@.subrange(0, j + 1) =~= (mid + name@.subrange(0, j as int)).push(name@[j as int]));
            }
            j = j + 1;
        }
        proof {
            reveal_strlit("index.");
            reveal_strlit("index");
            assert(name@.subrange(0, name@.len() as int) =~= name@);
            assert(file@ =~= "index"@ + seq!['.'] + ext_names()[i as int]);
        }
        let joined_index = join_exec(&cand_chars, &file);
        let ghost before = plan_view(out@);
        let js = string_of_vec(&joined_index);
        let ghost jv = js@;
        out.push((js, false));
        proof {
            assert(jv == join_path(cv, "index"@ + seq!['.'] + ext_names()[i as int]));
            assert(plan_view(out@) =~= before.push((jv, false)));
            assert(index[i as int] == (jv, false));
            assert(plan_view(out@) =~= head + index.subrange(0, i + 1));
        }
        i = i + 1;
    }
    proof {
        assert(per_ext.subrange(0, 16) =~= per_ext);
        assert(index.subrange(0, 8) =~= index);
    }
    Some(out)
}

/// The files to test, in order, for an entry given as `path`: the path
/// itself, then the path with each source extension appended, then an
/// `index` file with each extension inside it.
pub open spec fn entry_plan(path: Seq<char>) -> Seq<Seq<char>> {
    seq![path] + Seq::new(8, |k: int| path + seq!['.'] + ext_names()[k]) + Seq::new(
        8,
        |k: int| join_path(path, "index"@ + seq!['.'] + ext_names()[k]),
    )
}

/// The candidates for an entry path (see `entry_plan`).
pub fn entry_candidates(path: &str) -> (out: Vec<String>)
    ensures
        out@.map_values(|s: String| s@) == entry_plan(path@),
{
    let pv = chars_of(path);
    let ghost ext = Seq::new(8, |k: int| pv@ + seq!['.'] + ext_names()[k]);
    let ghost idx = Seq::new(8, |k: int| join_path(pv@, "index"@ + seq!['.'] + ext_names()[k]));
    let mut out: Vec<String> = Vec::new();
    out.push(string_of_vec(&pv));
    proof {
        assert(out@.map_values(|s: String| s@) =~= seq![pv@] + ext.subrange(0, 0));
    }
    let mut i: usize = 0;
    while i < 8
        invariant
            i <= 8,
            pv@ == path@,
            ext == Seq::new(8, |k: int| pv@ + seq!['.'] + ext_names()[k]),
            out@.map_values(|s: String| s@) == seq![pv@] + ext.subrange(0, i as int),
        decreases 8 - i,
    {
        let mut with = string_of_vec(&pv);
        with.append(".");
        with.append(ext_name(i));
        let ghost before = out@.map_values(|s: String| s@);
        let ghost w = with@;
        out.push(with);
        proof {
            reveal_strlit(".");
            assert(w == pv@ + seq!['.'] + ext_names()[i as int]);
            assert(out@.map_values(|s: String| s@) =~= before.push(w));
            assert(seq![pv@] + ext.subrange(0, i + 1) =~= (seq![pv@] + ext.subrange(0, i as int)).push(w));
        }
        i = i + 1;
    }
    let ghost head = out@.map_values(|s: String| s@);
    let mut i: usize = 0;
    while i < 8
        invariant
            i <= 8,
            pv@ == path@,
            idx == Seq::new(8, |k: int| join_path(pv@, "index"@ + seq!['.'] + ext_names()[k])),
            out@.map_values(|s: String| s@) == head + idx.subrange(0, i as int),
        decreases 8 - i,
    {
        let mut file = chars_of("index.");
        let name = chars_of(ext_name(i));
        let mut j: usize = 0;
        let ghost mid = file@;
        while j < name.len()
            invariant
                j <= name@.len(),
                file@ == mid + name@.subrange(0, j as int),
            decreases name@.len() - j,
        {
            file.push(name[j]);
            proof {
                assert(name@.subrange(0, j + 1) =~= name@.subrange(0, j as int).push(name@[j as int]));
                assert(mid + name@.subrange(0, j + 1) =~= (mid + name@.subrange(0, j as int)).push(name@[j as int]));
            }
            j = j + 1;
        }
        proof {
            reveal_strlit("index.");
            reveal_strlit("index");
            assert(name@.subrange(0, name@.len() as int) =~= name@);
            assert(file@ =~= "index"@ + seq!['.'] + ext_names()[i as int]);
        }
        let joined = join_exec(&pv, &file);
        let js = string_of_vec(&joined);
        let ghost before = out@.map_values(|s: String| s@);
        let ghost jv = js@;
        out.push(js);
        proof {
            assert(out@.map_values(|s: String| s@) =~= before.push(jv));
            assert(head + idx.subrange(0, i + 1) =~= (head + idx.subrange(0, i as int)).push(jv));
        }
        i = i + 1;
    }
    proof {
        assert(ext.subrange(0, 8) =~= ext);
        assert(idx.subrange(0, 8) =~= idx);
        assert(out@.map_values(|s: String| s@) =~= entry_plan(path@));
    }
    out
}

/// Whether a file named `name` is a source file: its extension (after the
/// last dot that is not its first character) is one of the source
/// extensions.
pub open spec fn is_source_name(name: Seq<char>) -> bool {
    let d = last_dot(name, name.len() as int);
    d > 0 && ext_names().contains(name.subrange(d + 1, name.len() as int))
}

/// The directory names that discovery skips: tool and build output
/// directories, and hidden ones.
pub open spec fn is_skipped_dir(name: Seq<char>) -> bool {
    ||| seq!["node_modules"@, "dist"@, "build"@, ".git"@, ".next"@, ".nuxt"@, "coverage"@, "target"@].contains(name)
    ||| (name.len() > 0 && name[0] == '.')
}

/// Whether the file `name` is a source file (see `is_source_name`).
pub fn source_file_name(name: &str) -> (b: bool)
    ensures
        b == is_source_name(name@),
{
    let v = chars_of(name);
    let mut k = v.len();
    while k > 0 && v[k - 1] != '.'
        invariant
            k <= v@.len(),
            last_dot(v@, k as int) == last_dot(v@, v@.len() as int),
        decreases k,
    {
        k = k - 1;
    }
    let ghost d = last_dot(v@, v@.len() as int);
    proof {
        if k > 0 {
            assert(d == k - 1);
        } else {
            assert(d == -1);
        }
    }
    if k <= 1 {
        return false;
    }
    let mut i: usize = 0;
    while i < 8
        invariant
            i <= 8,
            v@ == name@,
            1 < k <= v@.len(),
            d == k - 1,
            d == last_dot(v@, v@.len() as int),
            forall|j: int| 0 <= j < i ==> ext_names()[j] != v@.subrange(k as int, v@.len() as int),
        decreases 8 - i,
    {
        if crate::config::range_is(&v, k, v.len(), ext_name(i)) {
            proof {
                assert(ext_names()[i as int] == v@.subrange(k as int, v@.len() as int));
                assert(ext_names().contains(v@.subrange(d + 1, v@.len() as int)));
            }
            return true;
        }
        i = i + 1;
    }
    proof {
        let e = v@.subrange(k as int, v@.len() as int);
        assert(ext_names().len() == 8);
        if ext_names().contains(e) {
            let j = choose|j: int| 0 <= j < ext_names().len() && ext_names()[j] == e;
            assert(ext_names()[j] != e);
        }
    }
    false
}

/// Whether discovery skips the directory `name` (see `is_skipped_dir`).
pub fn skipped_dir(name: &str) -> (b: bool)
    ensures
        b == is_skipped_dir(name@),
{
    let v = chars_of(name);
    if v.len() > 0 && v[0] == '.' {
        return true;
    }
    let all = ["node_modules", "dist", "build", ".git", ".next", ".nuxt", "coverage", "target"];
    let mut i: usize = 0;
    while i < 8
        invariant
            i <= 8,
            v@ == name@,
            !(v@.len() > 0 && v@[0] == '.'),
            all@ == seq!["node_modules", "dist", "build", ".git", ".next", ".nuxt", "coverage", "target"],
            forall|j: int| 0 <= j < i ==> (#[trigger] all@[j])@ != v@,
        decreases 8 - i,
    {
        if crate::config::range_is(&v, 0, v.len(), all[i]) {
            proof {
                assert(v@.subrange(0, v@.len() as int) =~= v@);
            }
            return true;
        }
        proof {
            assert(v@.subrange(0, v@.len() as int) =~= v@);
        }
        i = i + 1;
    }
    proof {
        let names = seq!["node_modules"@, "dist"@, "build"@, ".git"@, ".next"@, ".nuxt"@, "coverage"@, "target"@];
        assert forall|j: int| 0 <= j < 8 implies names[j] != v@ by {
            assert(all@[j]@ == names[j]);
        }
        if names.contains(v@) {
            let j = choose|j: int| 0 <= j < names.len() && names[j] == v@;
        }
    }
    false
}

/// The `k`-th source extension: ts, tsx, mts, cts, js, jsx, mjs, cjs.
pub open spec fn source_ext(k: int) -> Seq<char> {
    if k == 0 {
        "ts"@
    } else if k == 1 {
        "tsx"@
    } else if k == 2 {
        "mts"@
    } else if k == 3 {
        "cts"@
    } else if k == 4 {
        "js"@
    } else if k == 5 {
        "jsx"@
    } else if k == 6 {
        "mjs"@
    } else {
        "cjs"@
    }
}

/// Every source extension is tried: for a relative or root-absolute
/// specifier there are 25 candidates. The first is the resolved path itself
/// (which must be a file); for each `k < 8`, candidate `2k+1` is that path
/// with its extension replaced by the `k`-th source extension, candidate
/// `2k+2` is the path with `.` and that extension appended, and candidate
/// `17+k` is `<path>/index.<ext k>`; all but the first may be any entry.
pub proof fn lemma_every_source_extension_tried(root: Seq<char>, from: Seq<char>, spec: Seq<char>)
    requires
        spec.len() > 0,
        spec[0] == '.' || spec[0] == '/',
    ensures
        resolve_plan(root, from, spec) is Some,
        ({
            let v = resolve_plan(root, from, spec)->0;
            let c = candidate_parts(root, from, spec);
            let path = render(c.0, c.1);
            &&& v.len() == 25
            &&& v[0] == (path, true)
            &&& forall|k: int| 0 <= k < 8 ==> {
                &&& #[trigger] v[2 * k + 1] == (with_extension_of(c, source_ext(k)), false)
                &&& v[2 * k + 2] == (path + seq!['.'] + source_ext(k), false)
                &&& v[17 + k] == (join_path(path, "index."@ + source_ext(k)), false)
            }
        }),
{
    reveal_strlit("index.");
    reveal_strlit("index");
    let v = resolve_plan(root, from, spec)->0;
    let c = candidate_parts(root, from, spec);
    let path = render(c.0, c.1);
    assert forall|k: int| 0 <= k < 8 implies #[trigger] ext_names()[k] == source_ext(k) by {
        if k == 0 {} else if k == 1 {} else if k == 2 {} else if k == 3 {} else if k == 4 {} else if k == 5 {} else if k == 6 {} else {}
    }
    assert("index"@ + seq!['.'] =~= "index."@);
    assert forall|k: int| 0 <= k < 8 implies {
        &&& #[trigger] v[2 * k + 1] == (with_extension_of(c, source_ext(k)), false)
        &&& v[2 * k + 2] == (path + seq!['.'] + source_ext(k), false)
        &&& v[17 + k] == (join_path(path, "index."@ + source_ext(k)), false)
    } by {
        assert((2 * k) % 2 == 0 && (2 * k) / 2 == k);
        assert((2 * k + 1) % 2 == 1 && (2 * k + 1) / 2 == k);
        assert(ext_names()[k] == source_ext(k));
        assert("index"@ + seq!['.'] + source_ext(k) =~= "index."@ + source_ext(k));
    }
}

} // verus!
