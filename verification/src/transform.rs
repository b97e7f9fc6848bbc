//! Minimal import/export rewriter for bundled CJS-style module wrappers.
use vstd::prelude::*;
use std::collections::HashMap;
use vstd::string::StringExecFns;
use crate::config::{trim_by, trim_end_by, ws, is_char, is_ws, is_whitespace, trim_ws};
use crate::project::{ModuleInfo, ImportRef, first_from, find_from, starts_with, is_quote, find_pattern, matches_at,
    lemma_find_from};
use crate::text::{chars_of, copy_range, append_range, append_char, string_of};

verus! {

broadcast use vstd::std_specs::hash::group_hash_axioms;

/// The `Debug` rendering of a string: `format!("{:?}", s)`.
pub uninterp spec fn debug_quoted(s: Seq<char>) -> Seq<char>;

/// `format!("{:?}", s)`: the string quoted, with quotes, backslashes and
/// control characters escaped, as `<str as Debug>::fmt` writes it.
#[verifier::external_body]
fn debug_str(s: &str) -> (r: String)
    ensures
        r@ == debug_quoted(s@),
{
    format!("{s:?}")
}

pub open spec fn skip(s: Seq<char>, k: int) -> Seq<char> {
    s.subrange(k, s.len() as int)
}

/// A string quoted at the very start of `s` (no escapes), without quotes.
pub open spec fn read_quote(s: Seq<char>) -> Option<Seq<char>> {
    if s.len() == 0 || !is_quote(s[0]) {
        None
    } else {
        let e = first_from(s, 1, is_char(s[0]));
        if e >= s.len() {
            None
        } else {
            Some(s.subrange(1, e))
        }
    }
}

/// The module named after the first `from ` of an import clause.
pub open spec fn from_clause(rest: Seq<char>) -> Option<Seq<char>> {
    let pos = find_from(rest, "from "@, 0);
    if pos < 0 {
        None
    } else {
        read_quote(trim_end_by(trim_by(skip(rest, pos + 5), ws()), is_char(';')))
    }
}

/// The module of a side-effect import `'x';`.
pub open spec fn side_effect_spec(rest: Seq<char>) -> Option<Seq<char>> {
    read_quote(trim_end_by(trim_by(rest, ws()), is_char(';')))
}

/// The runtime expression that loads the module `spec`: the bundled module
/// it names among `imports` (the first with that specifier), through
/// `__import__` when imported dynamically and `__req__` otherwise, or an
/// external package.
pub open spec fn req_expr(spec: Seq<char>, imports: Seq<ImportRef>, vars: Map<usize, String>) -> Option<Seq<char>> {
    if spec.len() > 0 && (spec[0] == '.' || spec[0] == '/') {
        if exists|k: int| 0 <= k < imports.len() && (#[trigger] imports[k]).specifier@ == spec {
            let k = choose|k: int|
                0 <= k < imports.len() && (#[trigger] imports[k]).specifier@ == spec
                    && forall|j: int| 0 <= j < k ==> imports[j].specifier@ != spec;
            match imports[k].target {
                Some(id) => if vars.contains_key(id) {
                    if imports[k].dynamic {
                        Some("__import__("@ + vars[id]@ + ")"@)
                    } else {
                        Some("__req__("@ + vars[id]@ + ")"@)
                    }
                } else {
                    None
                },
                None => None,
            }
        } else {
            None
        }
    } else {
        Some("__external__("@ + debug_quoted(spec) + ")"@)
    }
}

/// The imported names clause: the text before the first `from `, trimmed.
pub open spec fn import_head(rest: Seq<char>) -> Seq<char> {
    trim_by(rest.subrange(0, find_from(rest, "from "@, 0)), ws())
}

pub open spec fn is_brace_or_space(c: char) -> bool {
    c == '{' || c == '}' || c == ' '
}

/// The alias of `* as name`: the text between the first and second `as`,
/// trimmed, or `star`.
pub open spec fn star_alias(head: Seq<char>) -> Seq<char> {
    let a = find_from(head, "as"@, 0);
    if a < 0 {
        "star"@
    } else {
        let tail = skip(head, a + 2);
        let b = find_from(tail, "as"@, 0);
        trim_by(if b < 0 { tail } else { tail.subrange(0, b) }, ws())
    }
}

/// `import ...` (the text after `import `) as a statement that awaits the
/// module and binds the imported names.
pub open spec fn rewrite_import(rest: Seq<char>, imports: Seq<ImportRef>, vars: Map<usize, String>) -> Option<Seq<char>> {
    let spec = match from_clause(rest) {
        Some(x) => Some(x),
        None => side_effect_spec(rest),
    };
    match spec {
        None => None,
        Some(sp) => match req_expr(sp, imports, vars) {
            None => None,
            Some(req) => {
                let expr = "await "@ + req;
                if find_from(rest, "from "@, 0) >= 0 {
                    let head = import_head(rest);
                    if head.len() > 0 && head[0] == '{' {
                        Some("const { "@ + trim_by(head, |c: char| is_brace_or_space(c)) + " } = "@ + expr + ";"@)
                    } else if head.len() > 0 && head[0] == '*' {
                        Some("const "@ + star_alias(head) + " = "@ + expr + ";"@)
                    } else {
                        Some(
                            "const "@ + trim_by(head, ws()) + " = "@ + expr + ".default !== undefined ? "@ + expr
                                + ".default : "@ + expr + ";"@,
                        )
                    }
                } else {
                    Some(expr + ";"@)
                }
            },
        },
    }
}

/// `export * from` / `export { } from` (the text after `export `) as an
/// assignment of the module's exports.
pub open spec fn rewrite_reexport(rest: Seq<char>, imports: Seq<ImportRef>, vars: Map<usize, String>) -> Option<Seq<char>> {
    match from_clause(rest) {
        None => None,
        Some(sp) => match req_expr(sp, imports, vars) {
            None => None,
            Some(req) => if starts_with(rest, "* "@) || (rest.len() > 0 && rest[0] == '{') {
                Some("Object.assign(exports, "@ + ("await "@ + req) + ");"@)
            } else {
                None
            },
        },
    }
}

/// `const` / `let` binding (after the keyword): `exports.name = value;`.
pub open spec fn rewrite_binding(r: Seq<char>) -> Option<Seq<char>> {
    let eq = first_from(r, 0, is_char('='));
    let name = trim_by(r.subrange(0, eq), ws());
    if name.len() == 0 {
        None
    } else {
        let val = if eq >= r.len() {
            "undefined"@
        } else {
            trim_end_by(trim_by(skip(r, eq + 1), ws()), is_char(';'))
        };
        Some("exports."@ + name + " = "@ + val + ";"@)
    }
}

/// An exported declaration (the text after `export `) as an assignment to
/// `exports`.
pub open spec fn rewrite_declaration(rest: Seq<char>) -> Option<Seq<char>> {
    if starts_with(rest, "function "@) {
        let r = skip(rest, 9);
        Some("exports."@ + trim_by(r.subrange(0, first_from(r, 0, is_char('('))), ws()) + " = function "@ + r)
    } else if starts_with(rest, "async function "@) {
        let r = skip(rest, 15);
        Some("exports."@ + trim_by(r.subrange(0, first_from(r, 0, is_char('('))), ws()) + " = async function "@ + r)
    } else if starts_with(rest, "const "@) {
        rewrite_binding(skip(rest, 6))
    } else if starts_with(rest, "let "@) {
        rewrite_binding(skip(rest, 4))
    } else if starts_with(rest, "class "@) {
        let r = skip(rest, 6);
        let a = first_from(r, 0, |c: char| !is_ws(c));
        if a >= r.len() {
            None
        } else {
            Some("exports."@ + r.subrange(a, first_from(r, a, |c: char| is_ws(c))) + " = class "@ + r)
        }
    } else {
        None
    }
}

/// The output for one source line: type-only lines vanish; imports,
/// default exports, re-exports and exported declarations are rewritten;
/// anything else is copied. Each output line ends with a newline.
#[verifier::opaque]
pub open spec fn rewrite_line(line: Seq<char>, imports: Seq<ImportRef>, vars: Map<usize, String>) -> Seq<char> {
    let t = trim_by(line, ws());
    let nl = seq!['\n'];
    if starts_with(t, "import type "@) || starts_with(t, "export type "@) {
        Seq::empty()
    } else if starts_with(t, "import "@) && rewrite_import(skip(t, 7), imports, vars) is Some {
        rewrite_import(skip(t, 7), imports, vars)->0 + nl
    } else if starts_with(t, "export "@) && starts_with(skip(t, 7), "default "@) {
        "exports.default = "@ + trim_end_by(skip(skip(t, 7), 8), is_char(';')) + ";"@ + nl
    } else if starts_with(t, "export "@) && starts_with(skip(t, 7), "from "@) && rewrite_reexport(skip(t, 7), imports, vars) is Some {
        rewrite_reexport(skip(t, 7), imports, vars)->0 + nl
    } else if starts_with(t, "export "@) && rewrite_declaration(skip(t, 7)) is Some {
        rewrite_declaration(skip(t, 7))->0 + nl
    } else {
        line + nl
    }
}

/// The lines of `s` from position `i` on, as `str::lines` yields them:
/// split at `\n`, a `\r` before it dropped, no empty line after a final
/// newline. The output of each line is appended in order.
pub open spec fn rewrite_from(s: Seq<char>, i: int, imports: Seq<ImportRef>, vars: Map<usize, String>) -> Seq<char>
    decreases s.len() - i,
{
    if i < 0 || i >= s.len() {
        Seq::empty()
    } else {
        let e = first_from(s, i, is_char('\n'));
        if e >= s.len() {
            rewrite_line(skip(s, i), imports, vars)
        } else {
            let l = s.subrange(i, e);
            let line = if l.len() > 0 && l.last() == '\r' { l.drop_last() } else { l };
            proof {
                lemma_first_from(s, i, is_char('\n'));
            }
            rewrite_line(line, imports, vars) + rewrite_from(s, e + 1, imports, vars)
        }
    }
}

pub proof fn lemma_first_from(s: Seq<char>, p: int, f: spec_fn(char) -> bool)
    requires
        0 <= p,
    ensures
        p <= first_from(s, p, f) || (p > s.len() && first_from(s, p, f) == s.len()),
        first_from(s, p, f) <= s.len(),
        first_from(s, p, f) < s.len() ==> f(s[first_from(s, p, f)]),
        forall|k: int| p <= k < first_from(s, p, f) ==> !f(#[trigger] s[k]),
    decreases s.len() - p,
{
    if p < s.len() && !f(s[p]) {
        lemma_first_from(s, p + 1, f);
    }
}

// ---------------------------------------------------------------- exec

/// First position at or after `p` holding `x`, or the end.
fn find_char_from(t: &Vec<char>, p: usize, x: char) -> (r: usize)
    requires
        p <= t@.len(),
    ensures
        r == first_from(t@, p as int, is_char(x)),
{
    let mut i = p;
    while i < t.len() && t[i] != x
        invariant
            p <= i <= t@.len(),
            first_from(t@, i as int, is_char(x)) == first_from(t@, p as int, is_char(x)),
        decreases t@.len() - i,
    {
        i = i + 1;
    }
    i
}

fn read_quote_exec(s: &Vec<char>) -> (r: Option<Vec<char>>)
    ensures
        match r {
            Some(x) => read_quote(s@) == Some(x@),
            None => read_quote(s@) is None,
        },
{
    if s.len() == 0 || !(s[0] == '\'' || s[0] == '"') {
        return None;
    }
    let e = find_char_from(s, 1, s[0]);
    proof {
        lemma_first_from(s@, 1, is_char(s@[0]));
    }
    if e >= s.len() {
        return None;
    }
    Some(copy_range(s, 1, e))
}

/// `s[lo..hi]` trimmed of whitespace, then of trailing `;`, as a copy.
fn trim_then_semicolons(s: &Vec<char>, lo: usize, hi: usize) -> (r: Vec<char>)
    requires
        lo <= hi <= s@.len(),
    ensures
        r@ == trim_end_by(trim_by(s@.subrange(lo as int, hi as int), ws()), is_char(';')),
{
    let (a, b) = trim_ws(s, lo, hi);
    let t = copy_range(s, a, b);
    let e = crate::config::trim_end_char(&t, 0, t.len(), ';');
    proof {
        assert(t@.subrange(0, t@.len() as int) =~= t@);
    }
    copy_range(&t, 0, e)
}

fn from_clause_exec(rest: &Vec<char>, from_pat: &Vec<char>) -> (r: Option<Vec<char>>)
    requires
        from_pat@ == "from "@,
    ensures
        match r {
            Some(x) => from_clause(rest@) == Some(x@),
            None => from_clause(rest@) is None,
        },
{
    match find_pattern(rest, from_pat) {
        None => None,
        Some(pos) => {
            proof {
                reveal_strlit("from ");
                assert(from_pat@.len() == 5);
            }
            let rl = rest.len();
            let tail = trim_then_semicolons(rest, pos + 5, rl);
            read_quote_exec(&tail)
        },
    }
}

fn side_effect_exec(rest: &Vec<char>) -> (r: Option<Vec<char>>)
    ensures
        match r {
            Some(x) => side_effect_spec(rest@) == Some(x@),
            None => side_effect_spec(rest@) is None,
        },
{
    let t = trim_then_semicolons(rest, 0, rest.len());
    proof {
        assert(rest@.subrange(0, rest@.len() as int) =~= rest@);
    }
    read_quote_exec(&t)
}

fn req_expr_exec(spec: &Vec<char>, imports: &Vec<ImportRef>, vars: &HashMap<usize, String>) -> (r: Option<String>)
    ensures
        match r {
            Some(x) => req_expr(spec@, imports@, vars@) == Some(x@),
            None => req_expr(spec@, imports@, vars@) is None,
        },
{
    let sp = string_of(spec.as_slice(), 0, spec.len());
    proof {
        assert(spec@.subrange(0, spec@.len() as int) =~= spec@);
    }
    if spec.len() > 0 && (spec[0] == '.' || spec[0] == '/') {
        let mut k: usize = 0;
        while k < imports.len() && imports[k].specifier != sp
            invariant
                sp@ == spec@,
                k <= imports@.len(),
                forall|j: int| 0 <= j < k ==> (#[trigger] imports@[j]).specifier@ != spec@,
            decreases imports@.len() - k,
        {
            k = k + 1;
        }
        if k == imports.len() {
            return None;
        }
        let imp = &imports[k];
        proof {
            assert(imports@[k as int].specifier@ == spec@);
            let c = choose|c: int|
                0 <= c < imports@.len() && (#[trigger] imports@[c]).specifier@ == spec@
                    && forall|j: int| 0 <= j < c ==> imports@[j].specifier@ != spec@;
            if c < k {
                assert(imports@[c].specifier@ != spec@);
            } else if c > k {
                assert(imports@[k as int].specifier@ != spec@);
            }
        }
        match imp.target {
            None => None,
            Some(id) => match vars.get(&id) {
                None => None,
                Some(var) => {
                    let mut out = String::new();
                    if imp.dynamic {
                        out.append("__import__(");
                    } else {
                        out.append("__req__(");
                    }
                    out.append(var.as_str());
                    out.append(")");
                    Some(out)
                },
            },
        }
    } else {
        let d = debug_str(sp.as_str());
        let mut out = String::new();
        out.append("__external__(");
        out.append(d.as_str());
        out.append(")");
        Some(out)
    }
}

/// Bounds of `v[lo..hi]` with leading and trailing braces and spaces removed.
fn trim_braces(v: &Vec<char>, lo: usize, hi: usize) -> (r: (usize, usize))
    requires
        lo <= hi <= v@.len(),
    ensures
        lo <= r.0 <= r.1 <= hi,
        v@.subrange(r.0 as int, r.1 as int) == trim_by(v@.subrange(lo as int, hi as int), |c: char| is_brace_or_space(c)),
{
    let ghost f = |c: char| is_brace_or_space(c);
    let ghost s = v@.subrange(lo as int, hi as int);
    let mut a = lo;
    while a < hi && (v[a] == '{' || v[a] == '}' || v[a] == ' ')
        invariant
            lo <= a <= hi <= v@.len(),
            forall|k: int| lo <= k < a ==> is_brace_or_space(#[trigger] v@[k]),
        decreases hi - a,
    {
        a = a + 1;
    }
    proof {
        crate::config::lemma_lead(s, f, a - lo);
    }
    let ghost t = v@.subrange(a as int, hi as int);
    assert(t == crate::config::trim_start_by(s, f));
    let mut b = hi;
    while b > a && (v[b - 1] == '{' || v[b - 1] == '}' || v[b - 1] == ' ')
        invariant
            lo <= a <= b <= hi <= v@.len(),
            forall|k: int| b <= k < hi ==> is_brace_or_space(#[trigger] v@[k]),
        decreases b,
    {
        b = b - 1;
    }
    proof {
        crate::config::lemma_trail(t, f, hi - b);
        assert(v@.subrange(a as int, b as int) =~= trim_end_by(t, f));
    }
    (a, b)
}

fn star_alias_exec(head: &Vec<char>) -> (r: Vec<char>)
    ensures
        r@ == star_alias(head@),
{
    let as_pat = chars_of("as");
    proof {
        reveal_strlit("as");
    }
    match find_pattern(head, &as_pat) {
        None => chars_of("star"),
        Some(a) => {
            let hl = head.len();
            let tail = copy_range(head, a + 2, hl);
            let end = match find_pattern(&tail, &as_pat) {
                None => tail.len(),
                Some(b) => b,
            };
            let (c, d) = trim_ws(&tail, 0, end);
            proof {
                if find_from(tail@, "as"@, 0) < 0 {
                    assert(tail@.subrange(0, tail@.len() as int) =~= tail@);
                }
            }
            copy_range(&tail, c, d)
        },
    }
}

fn rewrite_import_exec(rest: &Vec<char>, imports: &Vec<ImportRef>, vars: &HashMap<usize, String>) -> (r: Option<String>)
    ensures
        match r {
            Some(x) => rewrite_import(rest@, imports@, vars@) == Some(x@),
            None => rewrite_import(rest@, imports@, vars@) is None,
        },
{
    let from_pat = chars_of("from ");
    let spec = match from_clause_exec(rest, &from_pat) {
        Some(x) => Some(x),
        None => side_effect_exec(rest),
    };
    let sp = match spec {
        None => {
            return None;
        },
        Some(x) => x,
    };
    let req = match req_expr_exec(&sp, imports, vars) {
        None => {
            return None;
        },
        Some(x) => x,
    };
    let mut expr = String::new();
    expr.append("await ");
    expr.append(req.as_str());
    let mut out = String::new();
    match find_pattern(rest, &from_pat) {
        Some(pos) => {
            let (a, b) = trim_ws(rest, 0, pos);
            let head = copy_range(rest, a, b);
            if head.len() > 0 && head[0] == '{' {
                let (c, d) = trim_braces(&head, 0, head.len());
                proof {
                    assert(head@.subrange(0, head@.len() as int) =~= head@);
                }
                out.append("const { ");
                append_range(&mut out, &head, c, d);
                out.append(" } = ");
                out.append(expr.as_str());
                out.append(";");
            } else if head.len() > 0 && head[0] == '*' {
                let alias = star_alias_exec(&head);
                out.append("const ");
                append_range(&mut out, &alias, 0, alias.len());
                proof {
                    assert(alias@.subrange(0, alias@.len() as int) =~= alias@);
                }
                out.append(" = ");
                out.append(expr.as_str());
                out.append(";");
            } else {
                let (c, d) = trim_ws(&head, 0, head.len());
                proof {
                    assert(head@.subrange(0, head@.len() as int) =~= head@);
                }
                out.append("const ");
                append_range(&mut out, &head, c, d);
                out.append(" = ");
                out.append(expr.as_str());
                out.append(".default !== undefined ? ");
                out.append(expr.as_str());
                out.append(".default : ");
                out.append(expr.as_str());
                out.append(";");
            }
        },
        None => {
            out.append(expr.as_str());
            out.append(";");
        },
    }
    Some(out)
}

fn rewrite_reexport_exec(rest: &Vec<char>, imports: &Vec<ImportRef>, vars: &HashMap<usize, String>) -> (r: Option<String>)
    ensures
        match r {
            Some(x) => rewrite_reexport(rest@, imports@, vars@) == Some(x@),
            None => rewrite_reexport(rest@, imports@, vars@) is None,
        },
{
    let from_pat = chars_of("from ");
    let sp = match from_clause_exec(rest, &from_pat) {
        None => {
            return None;
        },
        Some(x) => x,
    };
    let req = match req_expr_exec(&sp, imports, vars) {
        None => {
            return None;
        },
        Some(x) => x,
    };
    let star = chars_of("* ");
    if matches_at(rest, 0, &star) || (rest.len() > 0 && rest[0] == '{') {
        let mut out = String::new();
        out.append("Object.assign(exports, ");
        out.append("await ");
        out.append(req.as_str());
        out.append(");");
        Some(out)
    } else {
        None
    }
}

fn rewrite_binding_exec(r: &Vec<char>) -> (res: Option<String>)
    ensures
        match res {
            Some(x) => rewrite_binding(r@) == Some(x@),
            None => rewrite_binding(r@) is None,
        },
{
    let eq = find_char_from(r, 0, '=');
    proof {
        lemma_first_from(r@, 0, is_char('='));
    }
    let (a, b) = trim_ws(r, 0, eq);
    if a == b {
        return None;
    }
    let mut out = String::new();
    out.append("exports.");
    append_range(&mut out, r, a, b);
    out.append(" = ");
    if eq >= r.len() {
        out.append("undefined");
    } else {
        let rl = r.len();
        let val = trim_then_semicolons(r, eq + 1, rl);
        append_range(&mut out, &val, 0, val.len());
        proof {
            assert(val@.subrange(0, val@.len() as int) =~= val@);
        }
    }
    out.append(";");
    Some(out)
}

fn rewrite_declaration_exec(rest: &Vec<char>) -> (res: Option<String>)
    ensures
        match res {
            Some(x) => rewrite_declaration(rest@) == Some(x@),
            None => rewrite_declaration(rest@) is None,
        },
{
    let p_fn = chars_of("function ");
    let p_async = chars_of("async function ");
    let p_const = chars_of("const ");
    let p_let = chars_of("let ");
    let p_class = chars_of("class ");
    proof {
        reveal_strlit("function ");
        reveal_strlit("async function ");
        reveal_strlit("const ");
        reveal_strlit("let ");
        reveal_strlit("class ");
    }
    let rl = rest.len();
    if matches_at(rest, 0, &p_fn) {
        let r = copy_range(rest, 9, rl);
        let open = find_char_from(&r, 0, '(');
        proof {
            lemma_first_from(r@, 0, is_char('('));
        }
        let (a, b) = trim_ws(&r, 0, open);
        let mut out = String::new();
        out.append("exports.");
        append_range(&mut out, &r, a, b);
        out.append(" = function ");
        append_range(&mut out, &r, 0, r.len());
        proof {
            assert(r@.subrange(0, r@.len() as int) =~= r@);
        }
        Some(out)
    } else if matches_at(rest, 0, &p_async) {
        let r = copy_range(rest, 15, rl);
        let open = find_char_from(&r, 0, '(');
        proof {
            lemma_first_from(r@, 0, is_char('('));
        }
        let (a, b) = trim_ws(&r, 0, open);
        let mut out = String::new();
        out.append("exports.");
        append_range(&mut out, &r, a, b);
        out.append(" = async function ");
        append_range(&mut out, &r, 0, r.len());
        proof {
            assert(r@.subrange(0, r@.len() as int) =~= r@);
        }
        Some(out)
    } else if matches_at(rest, 0, &p_const) {
        let r = copy_range(rest, 6, rl);
        rewrite_binding_exec(&r)
    } else if matches_at(rest, 0, &p_let) {
        let r = copy_range(rest, 4, rl);
        rewrite_binding_exec(&r)
    } else if matches_at(rest, 0, &p_class) {
        let r = copy_range(rest, 6, rl);
        let mut a: usize = 0;
        while a < r.len() && is_whitespace(r[a])
            invariant
                a <= r@.len(),
                first_from(r@, a as int, |c: char| !is_ws(c)) == first_from(r@, 0, |c: char| !is_ws(c)),
            decreases r@.len() - a,
        {
            a = a + 1;
        }
        if a >= r.len() {
            return None;
        }
        let mut b: usize = a;
        while b < r.len() && !is_whitespace(r[b])
            invariant
                a <= b <= r@.len(),
                first_from(r@, b as int, |c: char| is_ws(c)) == first_from(r@, a as int, |c: char| is_ws(c)),
            decreases r@.len() - b,
        {
            b = b + 1;
        }
        let mut out = String::new();
        out.append("exports.");
        append_range(&mut out, &r, a, b);
        out.append(" = class ");
        append_range(&mut out, &r, 0, r.len());
        proof {
            assert(r@.subrange(0, r@.len() as int) =~= r@);
        }
        Some(out)
    } else {
        None
    }
}

/// Append the output for one source line.
fn rewrite_line_exec(line: &Vec<char>, imports: &Vec<ImportRef>, vars: &HashMap<usize, String>, out: &mut String)
    ensures
        final(out)@ == old(out)@ + rewrite_line(line@, imports@, vars@),
{
    reveal(rewrite_line);
    let ghost start = out@;
    let ghost nl = seq!['\n'];
    let ll = line.len();
    let (a, b) = trim_ws(line, 0, ll);
    let t = copy_range(line, a, b);
    proof {
        assert(line@.subrange(0, ll as int) =~= line@);
        reveal_strlit("import type ");
        reveal_strlit("export type ");
        reveal_strlit("import ");
        reveal_strlit("export ");
        reveal_strlit("default ");
        reveal_strlit("from ");
    }
    let p_it = chars_of("import type ");
    let p_et = chars_of("export type ");
    let p_imp = chars_of("import ");
    let p_exp = chars_of("export ");
    let p_def = chars_of("default ");
    let p_from = chars_of("from ");
    if matches_at(&t, 0, &p_it) || matches_at(&t, 0, &p_et) {
        proof {
            assert(start + Seq::<char>::empty() =~= start);
        }
        return;
    }
    let tl = t.len();
    if matches_at(&t, 0, &p_imp) {
        let rest = copy_range(&t, 7, tl);
        if let Some(x) = rewrite_import_exec(&rest, imports, vars) {
            out.append(x.as_str());
            append_char(out, '\n');
            proof {
                assert(out@ =~= start + (x@ + nl));
            }
            return;
        }
    }
    if matches_at(&t, 0, &p_exp) {
        let rest = copy_range(&t, 7, tl);
        let rl = rest.len();
        if matches_at(&rest, 0, &p_def) {
            let e = crate::config::trim_end_char(&rest, 8, rl, ';');
            out.append("exports.default = ");
            append_range(out, &rest, 8, e);
            out.append(";");
            append_char(out, '\n');
            proof {
                assert(skip(rest@, 8) == rest@.subrange(8, rl as int));
                assert(out@ =~= start + ("exports.default = "@ + rest@.subrange(8, e as int) + ";"@ + nl));
            }
            return;
        }
        if matches_at(&rest, 0, &p_from) {
            if let Some(x) = rewrite_reexport_exec(&rest, imports, vars) {
                out.append(x.as_str());
                append_char(out, '\n');
                proof {
                    assert(out@ =~= start + (x@ + nl));
                }
                return;
            }
        }
        if let Some(x) = rewrite_declaration_exec(&rest) {
            out.append(x.as_str());
            append_char(out, '\n');
            proof {
                assert(out@ =~= start + (x@ + nl));
            }
            return;
        }
    }
    append_range(out, line, 0, ll);
    append_char(out, '\n');
    proof {
        assert(out@ =~= start + (line@ + nl));
    }
}

/// Rewrite ESM source into the body of an async
/// `function(module, exports, __req__, ...) { ... }` wrapper. External
/// packages are named through `__external__` whether or not `externals`
/// lists them.
pub fn transform_module(
    src: &str,
    module: &ModuleInfo,
    id_to_var: &HashMap<usize, String>,
    externals: &Vec<String>,
) -> (body: String)
    ensures
        body@ == rewrite_from(src@, 0, module.imports@, id_to_var@),
{
    let v = chars_of(src);
    let ghost ims = module.imports@;
    let ghost vars = id_to_var@;
    let mut body = String::new();
    let mut i: usize = 0;
    proof {
        assert(body@ + rewrite_from(v@, 0, ims, vars) =~= rewrite_from(v@, 0, ims, vars));
    }
    while i < v.len()
        invariant
            v@ == src@,
            ims == module.imports@,
            vars == id_to_var@,
            i <= v@.len(),
            body@ + rewrite_from(v@, i as int, ims, vars) == rewrite_from(v@, 0, ims, vars),
        decreases v@.len() - i,
    {
        let ghost before = body@;
        let e = find_char_from(&v, i, '\n');
        proof {
            lemma_first_from(v@, i as int, is_char('\n'));
        }
        let vl = v.len();
        if e >= vl {
            let line = copy_range(&v, i, vl);
            rewrite_line_exec(&line, &module.imports, id_to_var, &mut body);
            proof {
                assert(line@ == skip(v@, i as int));
                assert(rewrite_from(v@, vl as int, ims, vars) == Seq::<char>::empty());
                assert(rewrite_from(v@, i as int, ims, vars) == rewrite_line(line@, ims, vars));
                assert(body@ == before + rewrite_line(line@, ims, vars));
                assert(body@ + rewrite_from(v@, vl as int, ims, vars) =~= before + rewrite_from(v@, i as int, ims, vars));
            }
            i = vl;
        } else {
            let le = if e > i && v[e - 1] == '\r' { e - 1 } else { e };
            let line = copy_range(&v, i, le);
            rewrite_line_exec(&line, &module.imports, id_to_var, &mut body);
            proof {
                let l = v@.subrange(i as int, e as int);
                if l.len() > 0 && l.last() == '\r' {
                    assert(line@ =~= l.drop_last());
                } else {
                    assert(line@ =~= l);
                }
                assert(rewrite_from(v@, i as int, ims, vars) == rewrite_line(line@, ims, vars) + rewrite_from(v@, e + 1, ims, vars));
                assert(body@ == before + rewrite_line(line@, ims, vars));
                assert(body@ + rewrite_from(v@, e + 1, ims, vars) =~= before + rewrite_from(v@, i as int, ims, vars));
            }
            i = e + 1;
        }
    }
    proof {
        assert(body@ + Seq::<char>::empty() =~= body@);
    }
    body
}

/// The name an exported function declaration `d` (`function ...` or
/// `async function ...`) declares: the trimmed text between the keyword and
/// the first `(`.
pub open spec fn declared_name(d: Seq<char>) -> Seq<char> {
    let r = if starts_with(d, "function "@) { skip(d, 9) } else { skip(d, 15) };
    trim_by(r.subrange(0, first_from(r, 0, is_char('('))), ws())
}

/// An exported function declaration keeps its declaration text: a line
/// whose trimmed text is `export ` followed by `d`, where `d` starts with
/// `function ` or `async function `, becomes `exports.<name> = d` and a
/// newline, `<name>` being the declared function's name.
pub proof fn lemma_exported_function_keeps_declaration(
    line: Seq<char>,
    imports: Seq<ImportRef>,
    vars: Map<usize, String>,
    d: Seq<char>,
)
    requires
        trim_by(line, ws()) == "export "@ + d,
        starts_with(d, "function "@) || starts_with(d, "async function "@),
    ensures
        rewrite_line(line, imports, vars) == "exports."@ + declared_name(d) + " = "@ + d + seq!['\n'],
{
    reveal(rewrite_line);
    reveal_strlit("export ");
    reveal_strlit("import ");
    reveal_strlit("import type ");
    reveal_strlit("export type ");
    reveal_strlit("default ");
    reveal_strlit("from ");
    reveal_strlit("function ");
    reveal_strlit("async function ");
    reveal_strlit(" = function ");
    reveal_strlit(" = async function ");
    reveal_strlit(" = ");
    let t = trim_by(line, ws());
    assert(t[0] == 'e');
    assert(!starts_with(t, "import type "@)) by {
        if starts_with(t, "import type "@) {
            assert(t.subrange(0, 12)[0] == 'i');
        }
    }
    assert(!starts_with(t, "import "@)) by {
        if starts_with(t, "import "@) {
            assert(t.subrange(0, 7)[0] == 'i');
        }
    }
    assert(t.subrange(0, 7) =~= "export "@);
    assert(starts_with(t, "export "@));
    assert(skip(t, 7) =~= d);
    if starts_with(d, "function "@) {
        assert(d.subrange(0, 9)[0] == 'f' && d.subrange(0, 9)[1] == 'u');
    } else {
        assert(d.subrange(0, 15)[0] == 'a');
    }
    assert(d[0] == 'f' || d[0] == 'a');
    assert(!starts_with(t, "export type "@)) by {
        if starts_with(t, "export type "@) {
            assert(t.subrange(0, 12)[7] == 't');
            assert(t[7] == d[0]);
        }
    }
    assert(!starts_with(d, "default "@)) by {
        if starts_with(d, "default "@) {
            assert(d.subrange(0, 8)[0] == 'd');
        }
    }
    assert(!starts_with(d, "from "@)) by {
        if starts_with(d, "from "@) {
            assert(d.subrange(0, 5)[0] == 'f' && d.subrange(0, 5)[1] == 'r');
            if starts_with(d, "function "@) {
                assert(d.subrange(0, 9)[1] == 'u');
            }
        }
    }
    if starts_with(d, "function "@) {
        let r = skip(d, 9);
        assert(d =~= "function "@ + r);
        assert(" = function "@ + r =~= " = "@ + d);
    } else {
        assert(!starts_with(d, "function "@)) by {
            if starts_with(d, "function "@) {
                assert(d.subrange(0, 9)[0] == 'f');
            }
        }
        let r = skip(d, 15);
        assert(d =~= "async function "@ + r);
        assert(" = async function "@ + r =~= " = "@ + d);
    }
    let name = declared_name(d);
    assert(rewrite_declaration(d) is Some);
    assert(rewrite_declaration(d)->0 =~= "exports."@ + name + " = "@ + d);
}

/// A one-line source is rewritten as that line: the module body of a
/// source without a newline is the output of its single line.
pub proof fn lemma_single_line_source(src: Seq<char>, imports: Seq<ImportRef>, vars: Map<usize, String>)
    requires
        src.len() > 0,
        forall|k: int| 0 <= k < src.len() ==> src[k] != '\n',
    ensures
        rewrite_from(src, 0, imports, vars) == rewrite_line(src, imports, vars),
{
    lemma_first_from(src, 0, is_char('\n'));
    assert(skip(src, 0) =~= src);
}

} // verus!
