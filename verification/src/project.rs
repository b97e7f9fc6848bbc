//! The module graph of a real JS/TS project: modules, their imports, and the
//! import scanner that reads static and dynamic specifiers out of source
//! text. Externals (bare specifiers) are recorded but not part of the graph.
use vstd::prelude::*;
use crate::config::{is_ws, is_whitespace, last_newline, lemma_last_newline_range, lemma_last_newline_at, trim_ws};
use crate::text::{chars_of, string_of};
use crate::tropical::{TropicalSparseMatrix, INF};
use vstd::hash_map::StringHashMap;

verus! {

pub struct ImportRef {
    pub specifier: String,
    /// Resolved local module id, if the import points to a project file.
    pub target: Option<usize>,
    pub dynamic: bool,
}

pub struct ModuleInfo {
    pub id: usize,
    pub path: String,
    pub size: u32,
    pub imports: Vec<ImportRef>,
}

pub struct ProjectGraph {
    pub root: String,
    pub entry: String,
    pub entry_id: usize,
    pub modules: Vec<ModuleInfo>,
    /// The id of the module read from each path.
    pub path_to_id: StringHashMap<usize>,
    pub matrix: TropicalSparseMatrix,
    /// The bare (package) specifiers met, each once, in the order first met.
    pub externals: Vec<String>,
    pub total_bytes: u64,
}

/// An import found in source text, before resolution.
pub struct RawImport {
    pub specifier: String,
    pub dynamic: bool,
}

// ---------------------------------------------------------------- comments

/// Index just past the `*/` that closes a block comment whose body starts
/// at `i`, or the end of the line.
pub open spec fn block_end(s: Seq<char>, i: int) -> int
    decreases s.len() - i,
{
    if i >= s.len() {
        s.len() as int
    } else if s[i] == '*' && i + 1 < s.len() && s[i + 1] == '/' {
        i + 2
    } else {
        block_end(s, i + 1)
    }
}

/// `s[i..]` without `//` line comments and `/* */` block comments.
pub open spec fn strip_from(s: Seq<char>, i: int) -> Seq<char>
    decreases s.len() - i,
{
    if i < 0 || i >= s.len() {
        Seq::empty()
    } else if s[i] == '/' && i + 1 < s.len() && s[i + 1] == '/' {
        Seq::empty()
    } else if s[i] == '/' && i + 1 < s.len() && s[i + 1] == '*' {
        proof {
            lemma_block_end(s, i + 2);
        }
        strip_from(s, block_end(s, i + 2))
    } else {
        seq![s[i]] + strip_from(s, i + 1)
    }
}

pub proof fn lemma_block_end(s: Seq<char>, i: int)
    requires
        0 <= i,
    ensures
        i <= block_end(s, i) || (i > s.len() && block_end(s, i) == s.len()),
        block_end(s, i) <= s.len() || block_end(s, i) == i,
        i <= s.len() ==> i <= block_end(s, i) <= s.len(),
    decreases s.len() - i,
{
    if i < s.len() && !(s[i] == '*' && i + 1 < s.len() && s[i + 1] == '/') {
        lemma_block_end(s, i + 1);
    }
}

/// The line `v[lo..hi]` with its comments removed.
fn strip_comments(v: &Vec<char>, lo: usize, hi: usize) -> (out: Vec<char>)
    requires
        lo <= hi <= v@.len(),
    ensures
        out@ == strip_from(v@.subrange(lo as int, hi as int), 0),
{
    let ghost s = v@.subrange(lo as int, hi as int);
    let mut out: Vec<char> = Vec::new();
    let mut i = lo;
    while i < hi
        invariant
            lo <= i <= hi <= v@.len(),
            s == v@.subrange(lo as int, hi as int),
            out@ + strip_from(s, i - lo) == strip_from(s, 0),
        decreases hi - i,
    {
        let c = v[i];
        if c == '/' && i + 1 < hi && v[i + 1] == '/' {
            proof {
                assert(out@ + Seq::<char>::empty() =~= out@);
            }
            i = hi;
        } else if c == '/' && i + 1 < hi && v[i + 1] == '*' {
            let mut j = i + 2;
            proof {
                lemma_block_end(s, i + 2 - lo);
            }
            while j < hi && !(v[j] == '*' && j + 1 < hi && v[j + 1] == '/')
                invariant
                    lo <= i < hi <= v@.len(),
                    i + 2 <= j <= hi,
                    s == v@.subrange(lo as int, hi as int),
                    block_end(s, j - lo) == block_end(s, i + 2 - lo),
                decreases hi - j,
            {
                j = j + 1;
            }
            let next = if j < hi { j + 2 } else { hi };
            proof {
                lemma_block_end(s, j - lo);
            }
            i = next;
        } else {
            let ghost before = out@;
            out.push(c);
            proof {
                assert(s[i - lo] == c);
                assert(strip_from(s, i - lo) == seq![c] + strip_from(s, i + 1 - lo));
                assert(out@ + strip_from(s, i + 1 - lo) =~= before + (seq![c] + strip_from(s, i + 1 - lo)));
            }
            i = i + 1;
        }
    }
    proof {
        assert(out@ + Seq::<char>::empty() =~= out@);
    }
    out
}

// ---------------------------------------------------------------- quotes

pub open spec fn is_quote(c: char) -> bool {
    c == '\'' || c == '"'
}

/// Index of the quote `q` that closes a quoted string whose body starts at
/// `e`, skipping every character after a backslash; -1 if unterminated.
pub open spec fn quote_end(s: Seq<char>, q: char, e: int) -> int
    decreases s.len() + 2 - e,
{
    if e < 0 || e >= s.len() {
        -1
    } else if s[e] == q {
        e
    } else if s[e] == '\\' {
        quote_end(s, q, e + 2)
    } else {
        quote_end(s, q, e + 1)
    }
}

pub proof fn lemma_quote_end(s: Seq<char>, q: char, e: int)
    ensures
        quote_end(s, q, e) == -1 || (e <= quote_end(s, q, e) < s.len() && s[quote_end(s, q, e)] == q),
    decreases s.len() + 2 - e,
{
    if 0 <= e < s.len() && s[e] != q {
        if s[e] == '\\' {
            lemma_quote_end(s, q, e + 2);
        } else {
            lemma_quote_end(s, q, e + 1);
        }
    }
}

/// The quoted string that starts at `start`, without its quotes.
pub open spec fn read_quoted(s: Seq<char>, start: int) -> Option<Seq<char>> {
    if start < 0 || start >= s.len() || !is_quote(s[start]) {
        None
    } else {
        let e = quote_end(s, s[start], start + 1);
        if e < 0 {
            None
        } else {
            Some(s.subrange(start + 1, e))
        }
    }
}

/// Bounds of the body of the quoted string starting at `start`.
fn read_quoted_at(t: &Vec<char>, start: usize) -> (r: Option<(usize, usize)>)
    ensures
        match r {
            Some((a, b)) => a <= b <= t@.len() && read_quoted(t@, start as int) == Some(t@.subrange(a as int, b as int)),
            None => read_quoted(t@, start as int) is None,
        },
{
    if start >= t.len() {
        return None;
    }
    let q = t[start];
    if q != '\'' && q != '"' {
        return None;
    }
    let mut end = start + 1;
    while end < t.len() && t[end] != q
        invariant
            start < t@.len(),
            q == t@[start as int],
            start + 1 <= end <= t@.len(),
            quote_end(t@, q, end as int) == quote_end(t@, q, start + 1),
        decreases t@.len() + 2 - end,
    {
        if t[end] == '\\' {
            if t.len() - end < 2 {
                proof {
                    assert(quote_end(t@, q, end + 2) == -1);
                    assert(quote_end(t@, q, end as int) == -1);
                }
                return None;
            }
            end = end + 2;
        } else {
            end = end + 1;
        }
    }
    proof {
        lemma_quote_end(t@, q, start + 1);
    }
    if end >= t.len() {
        return None;
    }
    Some((start + 1, end))
}

/// The last position `i < k` at which a quoted string can be read, and
/// that string.
pub open spec fn last_quoted_before(s: Seq<char>, k: int) -> Option<Seq<char>>
    decreases k,
{
    if k <= 0 {
        None
    } else if is_quote(s[k - 1]) && read_quoted(s, k - 1) is Some {
        read_quoted(s, k - 1)
    } else {
        last_quoted_before(s, k - 1)
    }
}

/// The last quoted string on a line (handles `from '...'` and side-effect
/// imports).
fn extract_quoted_specifier(t: &Vec<char>) -> (r: Option<(usize, usize)>)
    ensures
        match r {
            Some((a, b)) => a <= b <= t@.len() && last_quoted_before(t@, t@.len() as int) == Some(t@.subrange(a as int, b as int)),
            None => last_quoted_before(t@, t@.len() as int) is None,
        },
{
    let mut last: Option<(usize, usize)> = None;
    let mut i: usize = 0;
    while i < t.len()
        invariant
            i <= t@.len(),
            match last {
                Some((a, b)) => a <= b <= t@.len() && last_quoted_before(t@, i as int) == Some(t@.subrange(a as int, b as int)),
                None => last_quoted_before(t@, i as int) is None,
            },
        decreases t@.len() - i,
    {
        let q = t[i];
        if q == '\'' || q == '"' {
            let r = read_quoted_at(t, i);
            if r.is_some() {
                last = r;
            }
        }
        i = i + 1;
    }
    last
}

/// First position at or after `p` whose character satisfies `f`, or the
/// end of `s`.
pub open spec fn first_from(s: Seq<char>, p: int, f: spec_fn(char) -> bool) -> int
    decreases s.len() - p,
{
    if p < 0 || p >= s.len() {
        s.len() as int
    } else if f(s[p]) {
        p
    } else {
        first_from(s, p + 1, f)
    }
}

/// The quoted string after the first `(` at or after `p`, leading
/// whitespace skipped.
pub open spec fn from_paren(s: Seq<char>, p: int) -> Option<Seq<char>> {
    let open = first_from(s, p, |c: char| c == '(');
    if open >= s.len() {
        None
    } else {
        read_quoted(s, first_from(s, open + 1, |c: char| !is_ws(c)))
    }
}

fn extract_quoted_from_paren(t: &Vec<char>, p: usize) -> (r: Option<(usize, usize)>)
    requires
        p <= t@.len(),
    ensures
        match r {
            Some((a, b)) => a <= b <= t@.len() && from_paren(t@, p as int) == Some(t@.subrange(a as int, b as int)),
            None => from_paren(t@, p as int) is None,
        },
{
    let mut open = p;
    while open < t.len() && t[open] != '('
        invariant
            p <= open <= t@.len(),
            first_from(t@, open as int, |c: char| c == '(') == first_from(t@, p as int, |c: char| c == '('),
        decreases t@.len() - open,
    {
        open = open + 1;
    }
    if open >= t.len() {
        return None;
    }
    let mut r = open + 1;
    while r < t.len() && is_whitespace(t[r])
        invariant
            open < t@.len(),
            open + 1 <= r <= t@.len(),
            first_from(t@, r as int, |c: char| !is_ws(c)) == first_from(t@, open + 1, |c: char| !is_ws(c)),
        decreases t@.len() - r,
    {
        r = r + 1;
    }
    read_quoted_at(t, r)
}

// ---------------------------------------------------------------- lines

/// First position of `pat` in `s` at or after `i`, or -1.
pub open spec fn find_from(s: Seq<char>, pat: Seq<char>, i: int) -> int
    decreases s.len() + 1 - i,
{
    if i < 0 || i + pat.len() > s.len() {
        -1
    } else if s.subrange(i, i + pat.len()) == pat {
        i
    } else {
        find_from(s, pat, i + 1)
    }
}

pub proof fn lemma_find_from(s: Seq<char>, pat: Seq<char>, i: int)
    requires
        0 <= i,
    ensures
        find_from(s, pat, i) == -1 || (i <= find_from(s, pat, i) && find_from(s, pat, i) + pat.len() <= s.len()),
    decreases s.len() + 1 - i,
{
    if i + pat.len() <= s.len() && s.subrange(i, i + pat.len()) != pat {
        lemma_find_from(s, pat, i + 1);
    }
}

pub open spec fn starts_with(s: Seq<char>, pat: Seq<char>) -> bool {
    s.len() >= pat.len() && s.subrange(0, pat.len() as int) == pat
}

/// Whether `t[i..]` begins with `pat`.
pub fn matches_at(t: &Vec<char>, i: usize, pat: &Vec<char>) -> (b: bool)
    requires
        i <= t@.len(),
    ensures
        b == (i + pat@.len() <= t@.len() && t@.subrange(i as int, i + pat@.len()) == pat@),
{
    if pat.len() > t.len() - i {
        return false;
    }
    let tl = t.len();
    let mut k: usize = 0;
    while k < pat.len()
        invariant
            tl == t@.len(),
            i + pat@.len() <= t@.len(),
            k <= pat@.len(),
            forall|j: int| 0 <= j < k ==> t@[i + j] == #[trigger] pat@[j],
        decreases pat@.len() - k,
    {
        if t[i + k] != pat[k] {
            proof {
                assert(t@.subrange(i as int, i + pat@.len())[k as int] != pat@[k as int]);
            }
            return false;
        }
        k = k + 1;
    }
    assert(t@.subrange(i as int, i + pat@.len()) =~= pat@);
    true
}

/// First position of `pat` in `t`.
pub fn find_pattern(t: &Vec<char>, pat: &Vec<char>) -> (r: Option<usize>)
    ensures
        match r {
            Some(p) => find_from(t@, pat@, 0) == p && p + pat@.len() <= t@.len(),
            None => find_from(t@, pat@, 0) == -1,
        },
{
    let mut i: usize = 0;
    if pat.len() > t.len() {
        proof {
            assert(find_from(t@, pat@, 0) == -1);
        }
        return None;
    }
    let last = t.len() - pat.len();
    loop
        invariant
            last == t@.len() - pat@.len(),
            i <= last,
            find_from(t@, pat@, i as int) == find_from(t@, pat@, 0),
        decreases last - i,
    {
        if matches_at(t, i, pat) {
            return Some(i);
        }
        if i == last {
            proof {
                assert(find_from(t@, pat@, i + 1) == -1);
            }
            return None;
        }
        i = i + 1;
    }
}

/// The imports a trimmed, comment-free line can contribute, in order:
/// the last quoted string of an `import` / `export` statement, the
/// argument of `require(`, and the argument of a dynamic `import(`.
pub open spec fn line_imports(t: Seq<char>) -> Seq<(Seq<char>, bool)> {
    let a = if starts_with(t, "import "@) || starts_with(t, "export "@) {
        match last_quoted_before(t, t.len() as int) {
            Some(x) => seq![(x, false)],
            None => Seq::empty(),
        }
    } else {
        Seq::empty()
    };
    let rp = find_from(t, "require("@, 0);
    let b = if rp >= 0 {
        match from_paren(t, rp) {
            Some(x) => seq![(x, false)],
            None => Seq::empty(),
        }
    } else {
        Seq::empty()
    };
    let ip = find_from(t, "import("@, 0);
    let c = if ip >= 0 {
        match from_paren(t, ip) {
            Some(x) => seq![(x, true)],
            None => Seq::empty(),
        }
    } else {
        Seq::empty()
    };
    a + b + c
}

/// `acc` extended by each of `items` that it does not hold yet.
pub open spec fn push_new(acc: Seq<(Seq<char>, bool)>, items: Seq<(Seq<char>, bool)>) -> Seq<(Seq<char>, bool)>
    decreases items.len(),
{
    if items.len() == 0 {
        acc
    } else {
        let prev = push_new(acc, items.drop_last());
        if prev.contains(items.last()) {
            prev
        } else {
            prev.push(items.last())
        }
    }
}

pub open spec fn clean_line(line: Seq<char>) -> Seq<char> {
    crate::config::trim_by(strip_from(line, 0), crate::config::ws())
}

/// The imports of a source text, first occurrences in order, each
/// (specifier, dynamic) pair once.
pub open spec fn imports_of(text: Seq<char>) -> Seq<(Seq<char>, bool)>
    decreases text.len(),
{
    let p = last_newline(text);
    if p < 0 {
        push_new(Seq::empty(), line_imports(clean_line(text)))
    } else {
        proof {
            lemma_last_newline_range(text);
        }
        push_new(imports_of(text.subrange(0, p)), line_imports(clean_line(text.subrange(p + 1, text.len() as int))))
    }
}

pub open spec fn raw_view(r: RawImport) -> (Seq<char>, bool) {
    (r.specifier@, r.dynamic)
}

pub open spec fn raw_views(v: Seq<RawImport>) -> Seq<(Seq<char>, bool)> {
    v.map_values(|r: RawImport| raw_view(r))
}

/// Add an import unless the same (specifier, dynamic) pair is already there.
fn push_import(out: &mut Vec<RawImport>, spec: String, dynamic: bool)
    ensures
        raw_views(final(out)@) == push_new(raw_views(old(out)@), seq![(spec@, dynamic)]),
{
    let ghost item = (spec@, dynamic);
    let ghost start = raw_views(out@);
    proof {
        assert(seq![item].drop_last() =~= Seq::<(Seq<char>, bool)>::empty());
        assert(push_new(start, Seq::<(Seq<char>, bool)>::empty()) == start);
        assert(seq![item].last() == item);
    }
    let mut i: usize = 0;
    while i < out.len()
        invariant
            i <= out@.len(),
            item == (spec@, dynamic),
            start == raw_views(out@),
            push_new(start, seq![item]) == (if start.contains(item) { start } else { start.push(item) }),
            forall|k: int| 0 <= k < i ==> raw_view(#[trigger] out@[k]) != item,
        decreases out@.len() - i,
    {
        if out[i].dynamic == dynamic && out[i].specifier == spec {
            proof {
                assert(raw_views(out@)[i as int] == item);
                assert(raw_views(out@).contains(item));
            }
            return;
        }
        i = i + 1;
    }
    proof {
        assert(!raw_views(out@).contains(item)) by {
            if raw_views(out@).contains(item) {
                let k = choose|k: int| 0 <= k < raw_views(out@).len() && raw_views(out@)[k] == item;
                assert(raw_view(out@[k]) == item);
            }
        }
    }
    let ghost before = out@;
    out.push(RawImport { specifier: spec, dynamic });
    proof {
        assert(raw_views(out@) =~= raw_views(before).push(item));
    }
}

proof fn lemma_push_new_concat(acc: Seq<(Seq<char>, bool)>, a: Seq<(Seq<char>, bool)>, b: Seq<(Seq<char>, bool)>)
    ensures
        push_new(acc, a + b) == push_new(push_new(acc, a), b),
    decreases b.len(),
{
    if b.len() == 0 {
        assert(a + b =~= a);
    } else {
        assert((a + b).drop_last() =~= a + b.drop_last());
        lemma_push_new_concat(acc, a, b.drop_last());
    }
}

/// Add the imports of one line `v[ls..le]`.
fn scan_line(out: &mut Vec<RawImport>, v: &Vec<char>, ls: usize, le: usize, pats: &(Vec<char>, Vec<char>, Vec<char>, Vec<char>))
    requires
        ls <= le <= v@.len(),
        pats.0@ == "import "@,
        pats.1@ == "export "@,
        pats.2@ == "require("@,
        pats.3@ == "import("@,
    ensures
        raw_views(final(out)@) == push_new(raw_views(old(out)@), line_imports(clean_line(v@.subrange(ls as int, le as int)))),
{
    let stripped = strip_comments(v, ls, le);
    let (a, b) = trim_ws(&stripped, 0, stripped.len());
    let mut t: Vec<char> = Vec::new();
    let mut k = a;
    while k < b
        invariant
            a <= k <= b <= stripped@.len(),
            t@ == stripped@.subrange(a as int, k as int),
        decreases b - k,
    {
        t.push(stripped[k]);
        proof {
            assert(stripped@.subrange(a as int, k + 1) =~= stripped@.subrange(a as int, k as int).push(stripped@[k as int]));
        }
        k = k + 1;
    }
    let ghost tt = t@;
    proof {
        assert(stripped@.subrange(0, stripped@.len() as int) =~= stripped@);
        assert(tt == clean_line(v@.subrange(ls as int, le as int)));
    }
    let ghost start = raw_views(out@);
    let ghost la = if starts_with(tt, "import "@) || starts_with(tt, "export "@) {
        match last_quoted_before(tt, tt.len() as int) {
            Some(x) => seq![(x, false)],
            None => Seq::empty(),
        }
    } else {
        Seq::<(Seq<char>, bool)>::empty()
    };
    if matches_at(&t, 0, &pats.0) || matches_at(&t, 0, &pats.1) {
        if let Some((qa, qb)) = extract_quoted_specifier(&t) {
            push_import(out, string_of(t.as_slice(), qa, qb), false);
        }
    }
    proof {
        assert(raw_views(out@) == push_new(start, la)) by {
            assert(push_new(start, Seq::<(Seq<char>, bool)>::empty()) == start);
        }
    }
    let ghost mid1 = raw_views(out@);
    let ghost rp = find_from(tt, "require("@, 0);
    let ghost lb = if rp >= 0 {
        match from_paren(tt, rp) {
            Some(x) => seq![(x, false)],
            None => Seq::empty(),
        }
    } else {
        Seq::<(Seq<char>, bool)>::empty()
    };
    if let Some(pos) = find_pattern(&t, &pats.2) {
        if let Some((qa, qb)) = extract_quoted_from_paren(&t, pos) {
            push_import(out, string_of(t.as_slice(), qa, qb), false);
        }
    }
    proof {
        assert(raw_views(out@) == push_new(mid1, lb)) by {
            assert(push_new(mid1, Seq::<(Seq<char>, bool)>::empty()) == mid1);
        }
    }
    let ghost mid2 = raw_views(out@);
    let ghost ip = find_from(tt, "import("@, 0);
    let ghost lc = if ip >= 0 {
        match from_paren(tt, ip) {
            Some(x) => seq![(x, true)],
            None => Seq::empty(),
        }
    } else {
        Seq::<(Seq<char>, bool)>::empty()
    };
    if let Some(pos) = find_pattern(&t, &pats.3) {
        if let Some((qa, qb)) = extract_quoted_from_paren(&t, pos) {
            push_import(out, string_of(t.as_slice(), qa, qb), true);
        }
    }
    proof {
        assert(raw_views(out@) == push_new(mid2, lc)) by {
            assert(push_new(mid2, Seq::<(Seq<char>, bool)>::empty()) == mid2);
        }
        assert(line_imports(tt) == la + lb + lc);
        lemma_push_new_concat(start, la + lb, lc);
        lemma_push_new_concat(start, la, lb);
    }
}

/// Extract static and dynamic import specifiers from source text.
pub fn parse_imports(src: &str) -> (out: Vec<RawImport>)
    ensures
        raw_views(out@) == imports_of(src@),
        raw_views(out@).no_duplicates(),
        forall|x: (Seq<char>, bool)| #[trigger] raw_views(out@).contains(x) <==> line_yields(src@, x),
{
    let v = chars_of(src);
    let pats = (chars_of("import "), chars_of("export "), chars_of("require("), chars_of("import("));
    let mut out: Vec<RawImport> = Vec::new();
    let mut ls: usize = 0;
    let mut i: usize = 0;
    proof {
        assert(raw_views(out@) =~= Seq::<(Seq<char>, bool)>::empty());
    }
    while i < v.len()
        invariant
            v@ == src@,
            pats.0@ == "import "@,
            pats.1@ == "export "@,
            pats.2@ == "require("@,
            pats.3@ == "import("@,
            ls <= i <= v@.len(),
            forall|k: int| ls <= k < i ==> #[trigger] v@[k] != '\n',
            ls == 0 || v@[ls - 1] == '\n',
            ls == 0 ==> raw_views(out@) == Seq::<(Seq<char>, bool)>::empty(),
            ls > 0 ==> raw_views(out@) == imports_of(v@.subrange(0, ls - 1)),
        decreases v@.len() - i,
    {
        if v[i] == '\n' {
            scan_line(&mut out, &v, ls, i, &pats);
            proof {
                let pre = v@.subrange(0, i as int);
                lemma_last_newline_at(v@, ls as int, i as int);
                if ls > 0 {
                    assert(pre.subrange(0, ls - 1) =~= v@.subrange(0, ls - 1));
                }
                assert(pre.subrange(ls as int, pre.len() as int) =~= v@.subrange(ls as int, i as int));
            }
            ls = i + 1;
        }
        i = i + 1;
    }
    scan_line(&mut out, &v, ls, v.len(), &pats);
    proof {
        let all = v@;
        lemma_last_newline_at(all, ls as int, all.len() as int);
        assert(all.subrange(0, all.len() as int) =~= all);
        if ls > 0 {
            assert(all.subrange(0, ls - 1) =~= v@.subrange(0, ls - 1));
        }
        lemma_imports_of_lines(src@);
    }
    out
}

/// `text[a..b]` is one line of `text`: it starts at the beginning or after
/// a newline, ends at the end or before a newline, and holds no newline.
pub open spec fn is_line(text: Seq<char>, a: int, b: int) -> bool {
    &&& 0 <= a <= b <= text.len()
    &&& (a == 0 || text[a - 1] == '\n')
    &&& (b == text.len() || text[b] == '\n')
    &&& forall|k: int| a <= k < b ==> text[k] != '\n'
}

/// Some line of `text`, comments stripped and trimmed, yields the import
/// `x`: the last quoted string of an `import`/`export` statement (static),
/// the argument of `require(` (static) or of `import(` (dynamic).
pub open spec fn line_yields(text: Seq<char>, x: (Seq<char>, bool)) -> bool {
    exists|a: int, b: int| is_line(text, a, b) && #[trigger] line_imports(clean_line(text.subrange(a, b))).contains(x)
}

proof fn lemma_push_new_contains(acc: Seq<(Seq<char>, bool)>, items: Seq<(Seq<char>, bool)>)
    ensures
        forall|x: (Seq<char>, bool)| #[trigger] push_new(acc, items).contains(x) <==> acc.contains(x) || items.contains(x),
        acc.no_duplicates() ==> push_new(acc, items).no_duplicates(),
    decreases items.len(),
{
    if items.len() > 0 {
        let prev = push_new(acc, items.drop_last());
        lemma_push_new_contains(acc, items.drop_last());
        let l = items.last();
        assert forall|x: (Seq<char>, bool)| #[trigger] items.contains(x) <==> items.drop_last().contains(x) || x == l by {
            if items.contains(x) {
                let k = choose|k: int| 0 <= k < items.len() && items[k] == x;
                if k < items.len() - 1 {
                    assert(items.drop_last()[k] == x);
                }
            }
            if items.drop_last().contains(x) {
                let k = choose|k: int| 0 <= k < items.drop_last().len() && items.drop_last()[k] == x;
                assert(items[k] == x);
            }
            if x == l {
                assert(items[items.len() - 1] == x);
            }
        }
        if !prev.contains(l) {
            let nx = prev.push(l);
            assert forall|x: (Seq<char>, bool)| #[trigger] nx.contains(x) <==> prev.contains(x) || x == l by {
                if nx.contains(x) {
                    let k = choose|k: int| 0 <= k < nx.len() && nx[k] == x;
                    if k < prev.len() {
                        assert(prev[k] == x);
                    }
                }
                if prev.contains(x) {
                    let k = choose|k: int| 0 <= k < prev.len() && prev[k] == x;
                    assert(nx[k] == x);
                }
                if x == l {
                    assert(nx[prev.len() as int] == x);
                }
            }
            if acc.no_duplicates() {
                assert forall|i: int, j: int| 0 <= i < nx.len() && 0 <= j < nx.len() && i != j implies nx[i] != nx[j] by {
                    if i < prev.len() && j < prev.len() {
                        assert(nx[i] == prev[i] && nx[j] == prev[j]);
                    } else if i == prev.len() {
                        assert(nx[j] == prev[j]);
                        assert(prev.contains(prev[j]));
                    } else {
                        assert(nx[i] == prev[i]);
                        assert(prev.contains(prev[i]));
                    }
                }
            }
        }
    }
}

proof fn lemma_no_newline_after_last(s: Seq<char>)
    ensures
        forall|k: int| last_newline(s) < k < s.len() ==> s[k] != '\n',
    decreases s.len(),
{
    lemma_last_newline_range(s);
    if s.len() > 0 && s.last() != '\n' {
        lemma_no_newline_after_last(s.drop_last());
        assert(last_newline(s) == last_newline(s.drop_last()));
        assert forall|k: int| last_newline(s) < k < s.len() implies s[k] != '\n' by {
            if k < s.len() - 1 {
                assert(s.drop_last()[k] == s[k]);
            }
        }
    }
}

/// What the scanner finds: an import (specifier, dynamic) is in the result
/// exactly when some line of the text yields it, and each once; so a
/// static and a dynamic import of one specifier are both kept.
pub proof fn lemma_imports_of_lines(text: Seq<char>)
    ensures
        imports_of(text).no_duplicates(),
        forall|x: (Seq<char>, bool)| #[trigger] imports_of(text).contains(x) <==> line_yields(text, x),
    decreases text.len(),
{
    let p = last_newline(text);
    lemma_last_newline_range(text);
    lemma_no_newline_after_last(text);
    if p < 0 {
        let items = line_imports(clean_line(text));
        lemma_push_new_contains(Seq::empty(), items);
        assert(text.subrange(0, text.len() as int) =~= text);
        assert(is_line(text, 0, text.len() as int));
        assert forall|x: (Seq<char>, bool)| #[trigger] imports_of(text).contains(x) <==> line_yields(text, x) by {
            if line_yields(text, x) {
                let (a, b) = choose|a: int, b: int| is_line(text, a, b) && #[trigger] line_imports(clean_line(text.subrange(a, b))).contains(x);
                if a > 0 {
                    assert(text[a - 1] == '\n');
                }
                if b < text.len() {
                    assert(text[b] == '\n');
                }
                assert(a == 0 && b == text.len());
            }
            if items.contains(x) {
                assert(line_imports(clean_line(text.subrange(0, text.len() as int))).contains(x));
            }
        }
    } else {
        let pre = text.subrange(0, p);
        let last = text.subrange(p + 1, text.len() as int);
        let items = line_imports(clean_line(last));
        lemma_imports_of_lines(pre);
        lemma_push_new_contains(imports_of(pre), items);
        assert(imports_of(text) == push_new(imports_of(pre), items));
        assert(is_line(text, p + 1, text.len() as int));
        assert forall|x: (Seq<char>, bool)| #[trigger] imports_of(text).contains(x) <==> line_yields(text, x) by {
            if imports_of(pre).contains(x) {
                assert(line_yields(pre, x));
                let (a, b) = choose|a: int, b: int| is_line(pre, a, b) && #[trigger] line_imports(clean_line(pre.subrange(a, b))).contains(x);
                assert(pre.subrange(a, b) =~= text.subrange(a, b));
                if a > 0 {
                    assert(pre[a - 1] == text[a - 1]);
                }
                if b < p {
                    assert(pre[b] == text[b]);
                }
                assert forall|k: int| a <= k < b implies text[k] != '\n' by {
                    assert(pre[k] == text[k]);
                }
                assert(is_line(text, a, b));
                assert(line_imports(clean_line(text.subrange(a, b))).contains(x));
            }
            if items.contains(x) {
                assert(line_imports(clean_line(text.subrange(p + 1, text.len() as int))).contains(x));
            }
            if line_yields(text, x) {
                let (a, b) = choose|a: int, b: int| is_line(text, a, b) && #[trigger] line_imports(clean_line(text.subrange(a, b))).contains(x);
                if b <= p {
                    assert(pre.subrange(a, b) =~= text.subrange(a, b));
                    if a > 0 {
                        assert(pre[a - 1] == text[a - 1]);
                    }
                    if b < p {
                        assert(pre[b] == text[b]);
                    }
                    assert forall|k: int| a <= k < b implies pre[k] != '\n' by {
                        assert(pre[k] == text[k]);
                    }
                    assert(is_line(pre, a, b));
                    assert(line_imports(clean_line(pre.subrange(a, b))).contains(x));
                    assert(imports_of(pre).contains(x));
                } else {
                    assert(a > p) by {
                        if a <= p {
                            assert(text[p] == '\n');
                        }
                    }
                    assert(a == p + 1) by {
                        assert(text[a - 1] == '\n');
                    }
                    assert(b == text.len()) by {
                        if b < text.len() {
                            assert(text[b] == '\n');
                        }
                    }
                    assert(items.contains(x));
                }
            }
        }
    }
}

// ---------------------------------------------------------------- matrix

/// Module `m` has a resolved import of module `t` among its first `k`.
pub open spec fn imports_upto(m: ModuleInfo, t: int, k: int) -> bool {
    exists|q: int| 0 <= q < k && q < m.imports@.len() && #[trigger] m.imports@[q].target == Some(t as usize)
}

/// The adjacency table of a scanned project: 0 on the diagonal; the byte
/// size of `j` where module `i` imports it (sizes of INF or more are no
/// edge); INF elsewhere.
pub open spec fn module_table(ms: Seq<ModuleInfo>) -> Seq<Seq<int>> {
    Seq::new(ms.len(), |i: int| Seq::new(ms.len(), |j: int|
        if i == j {
            0
        } else if imports_upto(ms[i], j, ms[i].imports@.len() as int) && ms[j].size < INF {
            ms[j].size as int
        } else {
            INF as int
        }))
}

pub open spec fn size_sum(ms: Seq<ModuleInfo>) -> nat
    decreases ms.len(),
{
    if ms.len() == 0 {
        0
    } else {
        size_sum(ms.drop_last()) + ms.last().size as nat
    }
}

/// Modules numbered by position whose resolved imports name modules.
pub open spec fn modules_wf(ms: Seq<ModuleInfo>) -> bool {
    &&& ms.len() <= u32::MAX
    &&& forall|i: int| 0 <= i < ms.len() ==> (#[trigger] ms[i]).id == i
    &&& forall|i: int, q: int| 0 <= i < ms.len() && 0 <= q < ms[i].imports@.len()
        ==> ((#[trigger] ms[i].imports@[q]).target matches Some(t) ==> t < ms.len())
}

proof fn lemma_size_sum_bound(ms: Seq<ModuleInfo>)
    ensures
        size_sum(ms) <= ms.len() * 0xFFFF_FFFF,
    decreases ms.len(),
{
    if ms.len() > 0 {
        lemma_size_sum_bound(ms.drop_last());
    }
}

/// The tropical adjacency matrix of the scanned modules and their total
/// byte size: module `i` importing module `t` (`t != i`) is the edge
/// `i -> t` weighted by the size of `t`; every module depends on itself at
/// cost 0.
pub fn module_matrix(modules: &Vec<ModuleInfo>) -> (res: (TropicalSparseMatrix, u64))
    requires
        modules_wf(modules@),
    ensures
        res.0.wf(),
        res.0.size == modules@.len(),
        res.0@ == module_table(modules@),
        res.1 == size_sum(modules@),
{
    let n = modules.len();
    let ghost ms = modules@;
    let mut matrix = TropicalSparseMatrix::new(n);
    matrix.ensure_diagonal();
    let mut total_bytes: u64 = 0;
    let mut i: usize = 0;
    while i < n
        invariant
            ms == modules@,
            n == ms.len(),
            modules_wf(ms),
            i <= n,
            matrix.wf(),
            matrix.size == n,
            total_bytes == size_sum(ms.subrange(0, i as int)),
            forall|r: int, c: int| 0 <= r < n && 0 <= c < n ==> #[trigger] matrix@[r][c] == if r == c {
                0
            } else if r < i && imports_upto(ms[r], c, ms[r].imports@.len() as int) && ms[c].size < INF {
                ms[c].size as int
            } else {
                INF as int
            },
        decreases n - i,
    {
        proof {
            lemma_size_sum_bound(ms.subrange(0, i + 1));
            assert(ms.subrange(0, i + 1).drop_last() =~= ms.subrange(0, i as int));
            assert((i + 1) * 0xFFFF_FFFFu64 <= u32::MAX * 0xFFFF_FFFFu64) by (nonlinear_arith)
                requires
                    i + 1 <= u32::MAX,
            ;
        }
        let m = &modules[i];
        total_bytes = total_bytes + m.size as u64;
        let mut k: usize = 0;
        while k < m.imports.len()
            invariant
                ms == modules@,
                n == ms.len(),
                modules_wf(ms),
                i < n,
                *m == ms[i as int],
                k <= m.imports@.len(),
                matrix.wf(),
                matrix.size == n,
                forall|r: int, c: int| 0 <= r < n && 0 <= c < n ==> #[trigger] matrix@[r][c] == if r == c {
                    0
                } else if ((r < i && imports_upto(ms[r], c, ms[r].imports@.len() as int))
                    || (r == i && imports_upto(ms[r], c, k as int))) && ms[c].size < INF {
                    ms[c].size as int
                } else {
                    INF as int
                },
            decreases m.imports@.len() - k,
        {
            let ghost before = matrix@;
            if let Some(t) = m.imports[k].target {
                proof {
                    assert(ms[i as int].imports@[k as int].target == Some(t));
                    assert(t < n);
                }
                if t != m.id {
                    let w = modules[t].size;
                    matrix.set(m.id, t, w);
                    proof {
                        assert forall|r: int, c: int| 0 <= r < n && 0 <= c < n implies #[trigger] matrix@[r][c] == if r == c {
                            0
                        } else if ((r < i && imports_upto(ms[r], c, ms[r].imports@.len() as int))
                            || (r == i && imports_upto(ms[r], c, k + 1))) && ms[c].size < INF {
                            ms[c].size as int
                        } else {
                            INF as int
                        } by {
                            if r == i && c == t {
                                assert(ms[r].imports@[k as int].target == Some(c as usize));
                                assert(imports_upto(ms[r], c, k + 1));
                            } else if r == i && c != r {
                                if imports_upto(ms[r], c, k + 1) {
                                    let q = choose|q: int| 0 <= q < k + 1 && q < ms[r].imports@.len() && #[trigger] ms[r].imports@[q].target == Some(c as usize);
                                    assert(q != k);
                                    assert(imports_upto(ms[r], c, k as int));
                                }
                            }
                        }
                    }
                } else {
                    proof {
                        assert forall|r: int, c: int| 0 <= r < n && 0 <= c < n && r == i && c != r && imports_upto(ms[r], c, k + 1)
                            implies imports_upto(ms[r], c, k as int) by {
                            let q = choose|q: int| 0 <= q < k + 1 && q < ms[r].imports@.len() && #[trigger] ms[r].imports@[q].target == Some(c as usize);
                            assert(q != k);
                        }
                    }
                }
            } else {
                proof {
                    assert forall|r: int, c: int| 0 <= r < n && 0 <= c < n && r == i && imports_upto(ms[r], c, k + 1)
                        implies imports_upto(ms[r], c, k as int) by {
                        let q = choose|q: int| 0 <= q < k + 1 && q < ms[r].imports@.len() && #[trigger] ms[r].imports@[q].target == Some(c as usize);
                        assert(q != k);
                    }
                }
            }
            k = k + 1;
        }
        i = i + 1;
    }
    proof {
        assert(ms.subrange(0, n as int) =~= ms);
        assert(matrix@ =~= module_table(ms)) by {
            assert forall|r: int| 0 <= r < n implies #[trigger] matrix@[r] =~= module_table(ms)[r] by {
                assert forall|c: int| 0 <= c < n implies matrix@[r][c] == module_table(ms)[r][c] by {}
            }
        }
    }
    (matrix, total_bytes)
}

} // verus!
