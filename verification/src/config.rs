//! Optional `tropical.config.json` reader (minimal line-based parser).
use vstd::prelude::*;
use crate::text::{chars_of, string_of};

verus! {

pub struct Config {
    pub entry: Option<String>,
    pub outdir: Option<String>,
    pub root: Option<String>,
    pub budget: Option<u32>,
}

/// What a configuration holds: entry, outdir, root and budget.
pub type ConfigView = (Option<Seq<char>>, Option<Seq<char>>, Option<Seq<char>>, Option<u32>);

pub open spec fn opt_text(o: Option<String>) -> Option<Seq<char>> {
    match o {
        Some(s) => Some(s@),
        None => None,
    }
}

impl Config {
    pub open spec fn view(&self) -> ConfigView {
        (opt_text(self.entry), opt_text(self.outdir), opt_text(self.root), self.budget)
    }
}

impl Default for Config {
    fn default() -> (cfg: Self)
        ensures
            cfg.view() == (None::<Seq<char>>, None::<Seq<char>>, None::<Seq<char>>, None::<u32>),
    {
        Config { entry: None, outdir: None, root: None, budget: None }
    }
}

/// Unicode White_Space, the characters that `str::trim` removes.
pub open spec fn is_ws(c: char) -> bool {
    let u = c as u32;
    ||| 0x09 <= u <= 0x0D
    ||| u == 0x20
    ||| u == 0x85
    ||| u == 0xA0
    ||| u == 0x1680
    ||| 0x2000 <= u <= 0x200A
    ||| u == 0x2028
    ||| u == 0x2029
    ||| u == 0x202F
    ||| u == 0x205F
    ||| u == 0x3000
}

pub fn is_whitespace(c: char) -> (b: bool)
    ensures
        b == is_ws(c),
{
    let u = c as u32;
    (0x09 <= u && u <= 0x0D) || u == 0x20 || u == 0x85 || u == 0xA0 || u == 0x1680 || (0x2000 <= u && u <= 0x200A)
        || u == 0x2028 || u == 0x2029 || u == 0x202F || u == 0x205F || u == 0x3000
}

/// Number of leading characters of `s` that satisfy `f`.
pub open spec fn lead(s: Seq<char>, f: spec_fn(char) -> bool) -> nat
    decreases s.len(),
{
    if s.len() > 0 && f(s[0]) {
        1 + lead(s.drop_first(), f)
    } else {
        0
    }
}

/// Number of trailing characters of `s` that satisfy `f`.
pub open spec fn trail(s: Seq<char>, f: spec_fn(char) -> bool) -> nat
    decreases s.len(),
{
    if s.len() > 0 && f(s.last()) {
        1 + trail(s.drop_last(), f)
    } else {
        0
    }
}

pub open spec fn trim_start_by(s: Seq<char>, f: spec_fn(char) -> bool) -> Seq<char> {
    s.subrange(lead(s, f) as int, s.len() as int)
}

pub open spec fn trim_end_by(s: Seq<char>, f: spec_fn(char) -> bool) -> Seq<char> {
    s.subrange(0, s.len() - trail(s, f))
}

/// `s` without its leading and trailing characters that satisfy `f`.
pub open spec fn trim_by(s: Seq<char>, f: spec_fn(char) -> bool) -> Seq<char> {
    trim_end_by(trim_start_by(s, f), f)
}

pub open spec fn ws() -> spec_fn(char) -> bool {
    |c: char| is_ws(c)
}

pub open spec fn is_char(x: char) -> spec_fn(char) -> bool {
    |c: char| c == x
}

pub proof fn lemma_lead(s: Seq<char>, f: spec_fn(char) -> bool, m: int)
    requires
        0 <= m <= s.len(),
        forall|k: int| 0 <= k < m ==> f(#[trigger] s[k]),
        m == s.len() || !f(s[m]),
    ensures
        lead(s, f) == m,
    decreases m,
{
    if m > 0 {
        assert(f(s[0]));
        lemma_lead(s.drop_first(), f, m - 1);
    }
}

pub proof fn lemma_trail(s: Seq<char>, f: spec_fn(char) -> bool, m: int)
    requires
        0 <= m <= s.len(),
        forall|k: int| s.len() - m <= k < s.len() ==> f(#[trigger] s[k]),
        m == s.len() || !f(s[s.len() - m - 1]),
    ensures
        trail(s, f) == m,
    decreases m,
{
    if m > 0 {
        assert(f(s.last()));
        lemma_trail(s.drop_last(), f, m - 1);
    }
}

/// Bounds of `v[lo..hi]` with leading and trailing whitespace removed.
pub fn trim_ws(v: &Vec<char>, lo: usize, hi: usize) -> (r: (usize, usize))
    requires
        lo <= hi <= v@.len(),
    ensures
        lo <= r.0 <= r.1 <= hi,
        v@.subrange(r.0 as int, r.1 as int) == trim_by(v@.subrange(lo as int, hi as int), ws()),
{
    let ghost s = v@.subrange(lo as int, hi as int);
    let mut a = lo;
    while a < hi && is_whitespace(v[a])
        invariant
            lo <= a <= hi <= v@.len(),
            forall|k: int| lo <= k < a ==> is_ws(#[trigger] v@[k]),
        decreases hi - a,
    {
        a = a + 1;
    }
    proof {
        lemma_lead(s, ws(), a - lo);
    }
    let ghost t = v@.subrange(a as int, hi as int);
    assert(t == trim_start_by(s, ws()));
    let mut b = hi;
    while b > a && is_whitespace(v[b - 1])
        invariant
            lo <= a <= b <= hi <= v@.len(),
            forall|k: int| b <= k < hi ==> is_ws(#[trigger] v@[k]),
        decreases b,
    {
        b = b - 1;
    }
    proof {
        lemma_trail(t, ws(), hi - b);
        assert(v@.subrange(a as int, b as int) =~= trim_end_by(t, ws()));
    }
    (a, b)
}

/// Bounds of `v[lo..hi]` with leading and trailing `x` removed.
pub fn trim_char(v: &Vec<char>, lo: usize, hi: usize, x: char) -> (r: (usize, usize))
    requires
        lo <= hi <= v@.len(),
    ensures
        lo <= r.0 <= r.1 <= hi,
        v@.subrange(r.0 as int, r.1 as int) == trim_by(v@.subrange(lo as int, hi as int), is_char(x)),
{
    let ghost s = v@.subrange(lo as int, hi as int);
    let mut a = lo;
    while a < hi && v[a] == x
        invariant
            lo <= a <= hi <= v@.len(),
            forall|k: int| lo <= k < a ==> #[trigger] v@[k] == x,
        decreases hi - a,
    {
        a = a + 1;
    }
    proof {
        lemma_lead(s, is_char(x), a - lo);
    }
    let ghost t = v@.subrange(a as int, hi as int);
    assert(t == trim_start_by(s, is_char(x)));
    let mut b = hi;
    while b > a && v[b - 1] == x
        invariant
            lo <= a <= b <= hi <= v@.len(),
            forall|k: int| b <= k < hi ==> #[trigger] v@[k] == x,
        decreases b,
    {
        b = b - 1;
    }
    proof {
        lemma_trail(t, is_char(x), hi - b);
        assert(v@.subrange(a as int, b as int) =~= trim_end_by(t, is_char(x)));
    }
    (a, b)
}

/// End of `v[lo..hi]` with trailing `x` removed.
pub fn trim_end_char(v: &Vec<char>, lo: usize, hi: usize, x: char) -> (b: usize)
    requires
        lo <= hi <= v@.len(),
    ensures
        lo <= b <= hi,
        v@.subrange(lo as int, b as int) == trim_end_by(v@.subrange(lo as int, hi as int), is_char(x)),
{
    let ghost s = v@.subrange(lo as int, hi as int);
    let mut b = hi;
    while b > lo && v[b - 1] == x
        invariant
            lo <= b <= hi <= v@.len(),
            forall|k: int| b <= k < hi ==> #[trigger] v@[k] == x,
        decreases b,
    {
        b = b - 1;
    }
    proof {
        lemma_trail(s, is_char(x), hi - b);
        assert(v@.subrange(lo as int, b as int) =~= trim_end_by(s, is_char(x)));
    }
    b
}

/// Decimal value of a sequence of ASCII digits.
pub open spec fn digits_value(s: Seq<char>) -> nat
    decreases s.len(),
{
    if s.len() == 0 {
        0
    } else {
        digits_value(s.drop_last()) * 10 + ((s.last() as u32) - 48) as nat
    }
}

pub open spec fn is_digit(c: char) -> bool {
    '0' <= c <= '9'
}

/// The digits of an unsigned number: `s` without one leading `+`.
pub open spec fn unsigned_digits(s: Seq<char>) -> Seq<char> {
    if s.len() > 0 && s[0] == '+' { s.drop_first() } else { s }
}

pub open spec fn all_digits(d: Seq<char>) -> bool {
    forall|k: int| 0 <= k < d.len() ==> is_digit(#[trigger] d[k])
}

/// What `str::parse::<u32>` yields: an optional `+`, then one or more ASCII
/// digits whose value fits in a `u32`.
pub open spec fn parse_u32_spec(s: Seq<char>) -> Option<u32> {
    let d = unsigned_digits(s);
    if d.len() > 0 && all_digits(d) && digits_value(d) <= u32::MAX {
        Some(digits_value(d) as u32)
    } else {
        None
    }
}

/// Parse `v[lo..hi]` as a `u32` the way `str::parse` does.
pub fn parse_u32(v: &Vec<char>, lo: usize, hi: usize) -> (r: Option<u32>)
    requires
        lo <= hi <= v@.len(),
    ensures
        r == parse_u32_spec(v@.subrange(lo as int, hi as int)),
{
    let ghost s = v@.subrange(lo as int, hi as int);
    let start = if lo < hi && v[lo] == '+' { lo + 1 } else { lo };
    let ghost d = v@.subrange(start as int, hi as int);
    proof {
        assert(d =~= unsigned_digits(s));
    }
    if start == hi {
        return None;
    }
    let cap: u64 = 4294967296;
    let mut acc: u64 = 0;
    let mut i = start;
    while i < hi
        invariant
            start <= i <= hi <= v@.len(),
            cap == 4294967296,
            s == v@.subrange(lo as int, hi as int),
            d == v@.subrange(start as int, hi as int),
            d == unsigned_digits(s),
            forall|k: int| start <= k < i ==> is_digit(#[trigger] v@[k]),
            acc == (if digits_value(v@.subrange(start as int, i as int)) < cap {
                digits_value(v@.subrange(start as int, i as int))
            } else {
                cap as nat
            }),
        decreases hi - i,
    {
        let c = v[i];
        if !('0' <= c && c <= '9') {
            proof {
                assert(d[i - start] == c);
                assert(!is_digit(d[i - start]));
                assert(!all_digits(d));
            }
            return None;
        }
        let digit = (c as u32 - 48) as u64;
        proof {
            let p = v@.subrange(start as int, i as int);
            let p2 = v@.subrange(start as int, i + 1);
            assert(p2.drop_last() =~= p);
            assert(p2.last() == c);
        }
        let next = acc * 10 + digit;
        acc = if next < cap { next } else { cap };
        i = i + 1;
    }
    proof {
        assert(v@.subrange(start as int, hi as int) == d);
        assert(all_digits(d)) by {
            assert forall|k: int| 0 <= k < d.len() implies is_digit(#[trigger] d[k]) by {
                assert(d[k] == v@[start + k]);
            }
        }
    }
    if acc < cap {
        Some(acc as u32)
    } else {
        None
    }
}

/// One line of a configuration, trimmed: comments and braces are skipped;
/// `key: value` sets a known key (quotes around both and a trailing comma
/// on the value dropped); anything else changes nothing.
pub open spec fn config_line(cfg: ConfigView, line: Seq<char>) -> ConfigView {
    let t = trim_by(line, ws());
    if (t.len() >= 2 && t[0] == '/' && t[1] == '/') || t == seq!['{'] || t == seq!['}'] {
        cfg
    } else if exists|p: int| 0 <= p < t.len() && t[p] == ':' {
        let p = choose|p: int| 0 <= p < t.len() && t[p] == ':' && forall|q: int| 0 <= q < p ==> t[q] != ':';
        let key = trim_by(trim_by(t.subrange(0, p), ws()), is_char('"'));
        let val = trim_by(trim_end_by(trim_by(t.subrange(p + 1, t.len() as int), ws()), is_char(',')), is_char('"'));
        if key == "entry"@ {
            (Some(val), cfg.1, cfg.2, cfg.3)
        } else if key == "outdir"@ {
            (cfg.0, Some(val), cfg.2, cfg.3)
        } else if key == "root"@ {
            (cfg.0, cfg.1, Some(val), cfg.3)
        } else if key == "budget"@ || key == "budgetBytes"@ {
            (cfg.0, cfg.1, cfg.2, parse_u32_spec(val))
        } else {
            cfg
        }
    } else {
        cfg
    }
}

/// Position of the last newline in `s`, or -1.
pub open spec fn last_newline(s: Seq<char>) -> int
    decreases s.len(),
{
    if s.len() == 0 {
        -1
    } else if s.last() == '\n' {
        s.len() - 1
    } else {
        last_newline(s.drop_last())
    }
}

pub proof fn lemma_last_newline_range(s: Seq<char>)
    ensures
        -1 <= last_newline(s) < s.len(),
        last_newline(s) >= 0 ==> s[last_newline(s)] == '\n',
    decreases s.len(),
{
    if s.len() > 0 && s.last() != '\n' {
        lemma_last_newline_range(s.drop_last());
    }
}

/// The configuration a text describes, its lines applied in order.
pub open spec fn config_of(text: Seq<char>) -> ConfigView
    decreases text.len(),
{
    let p = last_newline(text);
    if p < 0 {
        config_line((None, None, None, None), text)
    } else {
        proof {
            lemma_last_newline_range(text);
        }
        config_line(config_of(text.subrange(0, p)), text.subrange(p + 1, text.len() as int))
    }
}

pub proof fn lemma_last_newline_at(text: Seq<char>, ls: int, q: int)
    requires
        0 <= ls <= q <= text.len(),
        forall|k: int| ls <= k < q ==> #[trigger] text[k] != '\n',
        ls == 0 || text[ls - 1] == '\n',
    ensures
        last_newline(text.subrange(0, q)) == ls - 1,
    decreases q - ls,
{
    let s = text.subrange(0, q);
    if q > ls {
        assert(s.drop_last() =~= text.subrange(0, q - 1));
        lemma_last_newline_at(text, ls, q - 1);
    } else if ls > 0 {
        assert(s.last() == '\n');
    }
}

/// Whether `v[lo..hi]` spells `lit`.
pub fn range_is(v: &Vec<char>, lo: usize, hi: usize, lit: &str) -> (b: bool)
    requires
        lo <= hi <= v@.len(),
    ensures
        b == (v@.subrange(lo as int, hi as int) == lit@),
{
    let w = chars_of(lit);
    if hi - lo != w.len() {
        return false;
    }
    let mut i: usize = 0;
    while i < w.len()
        invariant
            lo <= hi <= v@.len(),
            hi - lo == w@.len(),
            w@ == lit@,
            i <= w@.len(),
            forall|k: int| 0 <= k < i ==> v@[lo + k] == #[trigger] w@[k],
        decreases w@.len() - i,
    {
        if v[lo + i] != w[i] {
            proof {
                assert(v@.subrange(lo as int, hi as int)[i as int] != w@[i as int]);
            }
            return false;
        }
        i = i + 1;
    }
    assert(v@.subrange(lo as int, hi as int) =~= w@);
    true
}

/// Apply one line `v[ls..le]` to the configuration.
fn apply_line(cfg: &mut Config, v: &Vec<char>, ls: usize, le: usize)
    requires
        ls <= le <= v@.len(),
    ensures
        final(cfg).view() == config_line(old(cfg).view(), v@.subrange(ls as int, le as int)),
{
    let ghost line = v@.subrange(ls as int, le as int);
    let (a, b) = trim_ws(v, ls, le);
    let ghost t = v@.subrange(a as int, b as int);
    proof {
        assert(t == trim_by(line, ws()));
    }
    if (b - a >= 2 && v[a] == '/' && v[a + 1] == '/') || (b - a == 1 && (v[a] == '{' || v[a] == '}')) {
        proof {
            if b - a == 1 {
                if v[a as int] == '{' {
                    assert(t =~= seq!['{']);
                } else {
                    assert(t =~= seq!['}']);
                }
            }
        }
        return;
    }
    proof {
        assert(t != seq!['{']) by {
            if t == seq!['{'] {
                assert(t.len() == 1 && t[0] == '{');
            }
        }
        assert(t != seq!['}']) by {
            if t == seq!['}'] {
                assert(t.len() == 1 && t[0] == '}');
            }
        }
    }
    let mut p = a;
    while p < b && v[p] != ':'
        invariant
            a <= p <= b <= v@.len(),
            forall|k: int| a <= k < p ==> #[trigger] v@[k] != ':',
        decreases b - p,
    {
        p = p + 1;
    }
    if p == b {
        proof {
            assert(!exists|q: int| 0 <= q < t.len() && t[q] == ':') by {
                if exists|q: int| 0 <= q < t.len() && t[q] == ':' {
                    let q = choose|q: int| 0 <= q < t.len() && t[q] == ':';
                    assert(v@[a + q] == ':');
                }
            }
        }
        return;
    }
    proof {
        let pp = (p - a) as int;
        assert(t[pp] == ':');
        let c = choose|q: int| 0 <= q < t.len() && t[q] == ':' && forall|r: int| 0 <= r < q ==> t[r] != ':';
        assert(0 <= pp < t.len() && t[pp] == ':' && forall|r: int| 0 <= r < pp ==> t[r] != ':') by {
            assert forall|r: int| 0 <= r < pp implies t[r] != ':' by {
                assert(t[r] == v@[a + r]);
            }
        }
        if c < pp {
            assert(t[c] == v@[a + c]);
        } else if c > pp {
            assert(t[pp] != ':');
        }
        assert(t.subrange(0, pp) =~= v@.subrange(a as int, p as int));
        assert(t.subrange(pp + 1, t.len() as int) =~= v@.subrange(p + 1, b as int));
    }
    let (k1, k2) = trim_ws(v, a, p);
    let (k3, k4) = trim_char(v, k1, k2, '"');
    let (v1, v2) = trim_ws(v, p + 1, b);
    let v3 = trim_end_char(v, v1, v2, ',');
    let (v4, v5) = trim_char(v, v1, v3, '"');
    if range_is(v, k3, k4, "entry") {
        cfg.entry = Some(string_of(v.as_slice(), v4, v5));
    } else if range_is(v, k3, k4, "outdir") {
        cfg.outdir = Some(string_of(v.as_slice(), v4, v5));
    } else if range_is(v, k3, k4, "root") {
        cfg.root = Some(string_of(v.as_slice(), v4, v5));
    } else if range_is(v, k3, k4, "budget") || range_is(v, k3, k4, "budgetBytes") {
        cfg.budget = parse_u32(v, v4, v5);
    }
}

/// Read the configuration from the text of a `tropical.config.json`.
pub fn parse(text: &str) -> (cfg: Config)
    ensures
        cfg.view() == config_of(text@),
{
    let v = chars_of(text);
    let mut cfg = Config::default();
    let mut ls: usize = 0;
    let mut i: usize = 0;
    while i < v.len()
        invariant
            v@ == text@,
            ls <= i <= v@.len(),
            forall|k: int| ls <= k < i ==> #[trigger] v@[k] != '\n',
            ls == 0 || v@[ls - 1] == '\n',
            ls == 0 ==> cfg.view() == (None::<Seq<char>>, None::<Seq<char>>, None::<Seq<char>>, None::<u32>),
            ls > 0 ==> cfg.view() == config_of(v@.subrange(0, ls - 1)),
        decreases v@.len() - i,
    {
        if v[i] == '\n' {
            let ghost before = cfg.view();
            apply_line(&mut cfg, &v, ls, i);
            proof {
                let pre = v@.subrange(0, i as int);
                lemma_last_newline_at(v@, ls as int, i as int);
                if ls > 0 {
                    assert(pre.subrange(0, ls - 1) =~= v@.subrange(0, ls - 1));
                }
                assert(pre.subrange(ls as int, pre.len() as int) =~= v@.subrange(ls as int, i as int));
                assert(pre.subrange(ls as int, pre.len() as int) == pre.subrange(last_newline(pre) + 1, pre.len() as int));
            }
            ls = i + 1;
        }
        i = i + 1;
    }
    apply_line(&mut cfg, &v, ls, v.len());
    proof {
        let all = v@;
        lemma_last_newline_at(all, ls as int, all.len() as int);
        assert(all.subrange(0, all.len() as int) =~= all);
        if ls > 0 {
            assert(all.subrange(0, ls - 1) =~= v@.subrange(0, ls - 1));
        }
        assert(all.subrange(ls as int, all.len() as int) == all.subrange(last_newline(all) + 1, all.len() as int));
    }
    cfg
}

} // verus!
