//! Command-line arguments of `build` / `analyze`, and how a configuration
//! file fills in what the command line leaves out.
use vstd::prelude::*;
use crate::config::{Config, parse_u32, parse_u32_spec, opt_text, range_is};
use crate::text::{chars_of, string_of};
use vstd::string::StringExecFns;

verus! {

/// What the command line says, and which settings it gave explicitly.
pub struct CliArgs {
    pub root: String,
    pub entry: Option<String>,
    pub outdir: String,
    pub budget: u32,
    pub config: Option<String>,
    pub cli_root: bool,
    pub cli_entry: bool,
    pub cli_outdir: bool,
    pub cli_budget: bool,
}

pub struct ProjectArgs {
    pub root: String,
    pub entry: String,
    pub outdir: String,
    pub budget: u32,
}

/// root, entry, outdir, budget, config, and the four "given explicitly" flags.
pub type CliView = (Seq<char>, Option<Seq<char>>, Seq<char>, u32, Option<Seq<char>>, bool, bool, bool, bool);

impl CliArgs {
    pub open spec fn view(&self) -> CliView {
        (self.root@, opt_text(self.entry), self.outdir@, self.budget, opt_text(self.config), self.cli_root,
            self.cli_entry, self.cli_outdir, self.cli_budget)
    }
}

pub open spec fn defaults() -> CliView {
    ("."@, None, "dist"@, 512000, None, false, false, false, false)
}

pub open spec fn is_flag(a: Seq<char>, long: Seq<char>, short: Seq<char>) -> bool {
    a == long || a == short
}

/// One argument at `i` (and the value after a flag): the new state and the
/// position after it. A flag with no value after it stops the scan.
pub open spec fn cli_from(args: Seq<Seq<char>>, i: int, st: CliView) -> Option<CliView>
    decreases args.len() - i,
{
    if i < 0 || i >= args.len() {
        Some(st)
    } else {
        let a = args[i];
        let takes_value = is_flag(a, "--root"@, "-r"@) || is_flag(a, "--entry"@, "-e"@) || is_flag(a, "--outdir"@, "-o"@)
            || is_flag(a, "--budget"@, "-b"@) || is_flag(a, "--config"@, "-c"@);
        if takes_value {
            if i + 1 >= args.len() {
                None
            } else {
                let v = args[i + 1];
                let next = if is_flag(a, "--root"@, "-r"@) {
                    (v, st.1, st.2, st.3, st.4, true, st.6, st.7, st.8)
                } else if is_flag(a, "--entry"@, "-e"@) {
                    (st.0, Some(v), st.2, st.3, st.4, st.5, true, st.7, st.8)
                } else if is_flag(a, "--outdir"@, "-o"@) {
                    (st.0, st.1, v, st.3, st.4, st.5, st.6, true, st.8)
                } else if is_flag(a, "--budget"@, "-b"@) {
                    (st.0, st.1, st.2, match parse_u32_spec(v) {
                        Some(b) => b,
                        None => 512000u32,
                    }, st.4, st.5, st.6, st.7, true)
                } else {
                    (st.0, st.1, st.2, st.3, Some(v), st.5, st.6, st.7, st.8)
                };
                cli_from(args, i + 2, next)
            }
        } else {
            let next = if st.1 is None && !(a.len() > 0 && a[0] == '-') {
                (st.0, Some(a), st.2, st.3, st.4, st.5, true, st.7, st.8)
            } else {
                st
            };
            cli_from(args, i + 1, next)
        }
    }
}

pub open spec fn arg_views(args: Seq<String>) -> Seq<Seq<char>> {
    args.map_values(|a: String| a@)
}

fn copy_string(s: &String) -> (r: String)
    ensures
        r@ == s@,
{
    let v = chars_of(s.as_str());
    let r = string_of(v.as_slice(), 0, v.len());
    proof {
        assert(v@.subrange(0, v@.len() as int) =~= v@);
    }
    r
}

fn arg_is(a: &Vec<char>, lit: &str) -> (b: bool)
    ensures
        b == (a@ == lit@),
{
    let r = range_is(a, 0, a.len(), lit);
    proof {
        assert(a@.subrange(0, a@.len() as int) =~= a@);
    }
    r
}

/// Whether the scan from argument `i` reaches the end, whatever it has read
/// so far: no flag that takes a value comes last.
pub open spec fn complete_from(args: Seq<Seq<char>>, i: int) -> bool
    decreases args.len() - i,
{
    if i < 0 || i >= args.len() {
        true
    } else {
        let a = args[i];
        let takes_value = is_flag(a, "--root"@, "-r"@) || is_flag(a, "--entry"@, "-e"@) || is_flag(a, "--outdir"@, "-o"@)
            || is_flag(a, "--budget"@, "-b"@) || is_flag(a, "--config"@, "-c"@);
        if takes_value {
            i + 1 < args.len() && complete_from(args, i + 2)
        } else {
            complete_from(args, i + 1)
        }
    }
}

proof fn lemma_complete_from(args: Seq<Seq<char>>, i: int, st: CliView)
    requires
        0 <= i,
    ensures
        cli_from(args, i, st) is Some <==> complete_from(args, i),
    decreases args.len() - i,
{
    if i < args.len() {
        let a = args[i];
        let takes_value = is_flag(a, "--root"@, "-r"@) || is_flag(a, "--entry"@, "-e"@) || is_flag(a, "--outdir"@, "-o"@)
            || is_flag(a, "--budget"@, "-b"@) || is_flag(a, "--config"@, "-c"@);
        if takes_value {
            if i + 1 < args.len() {
                let v = args[i + 1];
                let next = if is_flag(a, "--root"@, "-r"@) {
                    (v, st.1, st.2, st.3, st.4, true, st.6, st.7, st.8)
                } else if is_flag(a, "--entry"@, "-e"@) {
                    (st.0, Some(v), st.2, st.3, st.4, st.5, true, st.7, st.8)
                } else if is_flag(a, "--outdir"@, "-o"@) {
                    (st.0, st.1, v, st.3, st.4, st.5, st.6, true, st.8)
                } else if is_flag(a, "--budget"@, "-b"@) {
                    (st.0, st.1, st.2, match parse_u32_spec(v) {
                        Some(b) => b,
                        None => 512000u32,
                    }, st.4, st.5, st.6, st.7, true)
                } else {
                    (st.0, st.1, st.2, st.3, Some(v), st.5, st.6, st.7, st.8)
                };
                lemma_complete_from(args, i + 2, next);
            }
        } else {
            let next = if st.1 is None && !(a.len() > 0 && a[0] == '-') {
                (st.0, Some(a), st.2, st.3, st.4, st.5, true, st.7, st.8)
            } else {
                st
            };
            lemma_complete_from(args, i + 1, next);
        }
    }
}

/// Whether `parse_cli` can read `args`: every flag that takes a value has
/// one after it.
pub fn args_complete(args: &Vec<String>) -> (b: bool)
    ensures
        b == cli_from(arg_views(args@), 0, defaults()) is Some,
{
    let ghost av = arg_views(args@);
    proof {
        lemma_complete_from(av, 0, defaults());
    }
    let mut i: usize = 0;
    while i < args.len()
        invariant
            av == arg_views(args@),
            i <= args@.len() + 1,
            complete_from(av, i as int) == complete_from(av, 0),
            (cli_from(av, 0, defaults()) is Some) == complete_from(av, 0),
        decreases args@.len() + 1 - i,
    {
        let a = chars_of(args[i].as_str());
        proof {
            assert(av[i as int] == a@);
        }
        let takes_value = arg_is(&a, "--root") || arg_is(&a, "-r") || arg_is(&a, "--entry") || arg_is(&a, "-e")
            || arg_is(&a, "--outdir") || arg_is(&a, "-o") || arg_is(&a, "--budget") || arg_is(&a, "-b")
            || arg_is(&a, "--config") || arg_is(&a, "-c");
        if takes_value {
            if i + 1 >= args.len() {
                return false;
            }
            i = i + 2;
        } else {
            i = i + 1;
        }
    }
    true
}

/// Read the arguments of `build` / `analyze`: `--root`, `--entry`,
/// `--outdir`, `--budget` (an unparsable budget means 512000) and
/// `--config`, each with its short form, and a bare first argument as the
/// entry. Later occurrences win.
pub fn parse_cli(args: &Vec<String>) -> (cli: CliArgs)
    requires
        cli_from(arg_views(args@), 0, defaults()) is Some,
    ensures
        Some(cli.view()) == cli_from(arg_views(args@), 0, defaults()),
{
    let ghost av = arg_views(args@);
    let mut cli = CliArgs {
        root: String::from_str("."),
        entry: None,
        outdir: String::from_str("dist"),
        budget: 512000,
        config: None,
        cli_root: false,
        cli_entry: false,
        cli_outdir: false,
        cli_budget: false,
    };
    let mut i: usize = 0;
    while i < args.len()
        invariant
            av == arg_views(args@),
            i <= args@.len(),
            cli_from(av, i as int, cli.view()) == cli_from(av, 0, defaults()),
            cli_from(av, 0, defaults()) is Some,
        decreases args@.len() - i,
    {
        let a = chars_of(args[i].as_str());
        proof {
            assert(av[i as int] == a@);
        }
        let is_root = arg_is(&a, "--root") || arg_is(&a, "-r");
        let is_entry = arg_is(&a, "--entry") || arg_is(&a, "-e");
        let is_outdir = arg_is(&a, "--outdir") || arg_is(&a, "-o");
        let is_budget = arg_is(&a, "--budget") || arg_is(&a, "-b");
        let is_config = arg_is(&a, "--config") || arg_is(&a, "-c");
        if is_root || is_entry || is_outdir || is_budget || is_config {
            let ghost before = cli.view();
            proof {
                assert(i + 1 < av.len());
            }
            let v = copy_string(&args[i + 1]);
            proof {
                assert(av[i + 1] == v@);
            }
            if is_root {
                cli.root = v;
                cli.cli_root = true;
            } else if is_entry {
                cli.entry = Some(v);
                cli.cli_entry = true;
            } else if is_outdir {
                cli.outdir = v;
                cli.cli_outdir = true;
            } else if is_budget {
                let vc = chars_of(v.as_str());
                let parsed = parse_u32(&vc, 0, vc.len());
                proof {
                    assert(vc@.subrange(0, vc@.len() as int) =~= vc@);
                }
                cli.budget = match parsed {
                    Some(b) => b,
                    None => 512000,
                };
                cli.cli_budget = true;
            } else {
                cli.config = Some(v);
            }
            i = i + 2;
        } else {
            if cli.entry.is_none() && !(a.len() > 0 && a[0] == '-') {
                cli.entry = Some(copy_string(&args[i]));
                cli.cli_entry = true;
            }
            i = i + 1;
        }
    }
    cli
}

/// Settings after the configuration fills in what the command line left
/// out: entry only when none was given at all, outdir, budget and root
/// when not given explicitly. `None` when no entry is known.
pub open spec fn merged(cli: CliView, cfg: Option<(Option<Seq<char>>, Option<Seq<char>>, Option<Seq<char>>, Option<u32>)>) -> Option<(Seq<char>, Seq<char>, Seq<char>, u32)> {
    let (root, entry, outdir, budget) = match cfg {
        None => (cli.0, cli.1, cli.2, cli.3),
        Some(c) => (
            if !cli.5 && c.2 is Some { c.2->0 } else { cli.0 },
            if cli.1 is None && !cli.6 { c.0 } else { cli.1 },
            if !cli.7 && c.1 is Some { c.1->0 } else { cli.2 },
            if !cli.8 && c.3 is Some { c.3->0 } else { cli.3 },
        ),
    };
    match entry {
        Some(e) => Some((root, e, outdir, budget)),
        None => None,
    }
}

pub open spec fn project_view(p: ProjectArgs) -> (Seq<char>, Seq<char>, Seq<char>, u32) {
    (p.root@, p.entry@, p.outdir@, p.budget)
}

/// Combine the command line with the configuration that was found and
/// read, if any.
pub fn merge_config(cli: CliArgs, cfg: Option<Config>) -> (r: Option<ProjectArgs>)
    ensures
        match r {
            Some(p) => merged(cli.view(), match cfg { Some(c) => Some(c.view()), None => None }) == Some(project_view(p)),
            None => merged(cli.view(), match cfg { Some(c) => Some(c.view()), None => None }) is None,
        },
{
    let ghost cv = cli.view();
    let CliArgs { root, entry, outdir, budget, config: _, cli_root, cli_entry, cli_outdir, cli_budget } = cli;
    let mut root = root;
    let mut entry = entry;
    let mut outdir = outdir;
    let mut budget = budget;
    match cfg {
        Some(c) => {
            let Config { entry: c_entry, outdir: c_outdir, root: c_root, budget: c_budget } = c;
            if entry.is_none() && !cli_entry {
                entry = c_entry;
            }
            if !cli_outdir {
                if let Some(o) = c_outdir {
                    outdir = o;
                }
            }
            if !cli_budget {
                if let Some(b) = c_budget {
                    budget = b;
                }
            }
            if !cli_root {
                if let Some(r) = c_root {
                    root = r;
                }
            }
        },
        None => {},
    }
    match entry {
        Some(e) => Some(ProjectArgs { root, entry: e, outdir, budget }),
        None => None,
    }
}

/// What the command line gives explicitly wins over the configuration
/// file; what it leaves out comes from the file where the file has it. An
/// entry from the command line (flag or bare argument) always stays.
pub proof fn lemma_cli_overrides_config(
    args: Seq<Seq<char>>,
    cfg: Option<(Option<Seq<char>>, Option<Seq<char>>, Option<Seq<char>>, Option<u32>)>,
)
    requires
        cli_from(args, 0, defaults()) is Some,
        merged(cli_from(args, 0, defaults())->0, cfg) is Some,
    ensures
        ({
            let st = cli_from(args, 0, defaults())->0;
            let p = merged(st, cfg)->0;
            &&& st.5 ==> p.0 == st.0
            &&& st.1 is Some ==> p.1 == st.1->0
            &&& st.7 ==> p.2 == st.2
            &&& st.8 ==> p.3 == st.3
            &&& cfg matches Some(c) ==> {
                &&& !st.5 && c.2 is Some ==> p.0 == c.2->0
                &&& !st.7 && c.1 is Some ==> p.2 == c.1->0
                &&& !st.8 && c.3 is Some ==> p.3 == c.3->0
                &&& st.1 is None && !st.6 ==> c.0 == Some(p.1)
            }
            &&& cfg is None ==> p == (st.0, st.1->0, st.2, st.3)
        }),
{
}

/// The state after a value flag `a` with value `v` (`a` must take a value).
pub open spec fn flag_sets(st: CliView, a: Seq<char>, v: Seq<char>) -> CliView {
    if a == "--root"@ || a == "-r"@ {
        (v, st.1, st.2, st.3, st.4, true, st.6, st.7, st.8)
    } else if a == "--entry"@ || a == "-e"@ {
        (st.0, Some(v), st.2, st.3, st.4, st.5, true, st.7, st.8)
    } else if a == "--outdir"@ || a == "-o"@ {
        (st.0, st.1, v, st.3, st.4, st.5, st.6, true, st.8)
    } else if a == "--budget"@ || a == "-b"@ {
        (st.0, st.1, st.2, match parse_u32_spec(v) {
            Some(b) => b,
            None => 512000u32,
        }, st.4, st.5, st.6, st.7, true)
    } else {
        (st.0, st.1, st.2, st.3, Some(v), st.5, st.6, st.7, st.8)
    }
}

pub open spec fn value_flag(a: Seq<char>) -> bool {
    a == "--root"@ || a == "-r"@ || a == "--entry"@ || a == "-e"@ || a == "--outdir"@ || a == "-o"@
        || a == "--budget"@ || a == "-b"@ || a == "--config"@ || a == "-c"@
}

proof fn lemma_value_flag(a: Seq<char>)
    ensures
        value_flag(a) == (is_flag(a, "--root"@, "-r"@) || is_flag(a, "--entry"@, "-e"@) || is_flag(a, "--outdir"@, "-o"@)
            || is_flag(a, "--budget"@, "-b"@) || is_flag(a, "--config"@, "-c"@)),
{
}

/// The state after a bare argument `x`: the entry when none is set yet and
/// `x` does not start with `-`.
pub open spec fn bare_sets(st: CliView, x: Seq<char>) -> CliView {
    if st.1 is None && !(x.len() > 0 && x[0] == '-') {
        (st.0, Some(x), st.2, st.3, st.4, st.5, true, st.7, st.8)
    } else {
        st
    }
}

/// One step of the scan.
proof fn lemma_cli_step(args: Seq<Seq<char>>, i: int, st: CliView)
    requires
        0 <= i < args.len(),
    ensures
        cli_from(args, i, st) == if value_flag(args[i]) {
            if i + 1 >= args.len() {
                None
            } else {
                cli_from(args, i + 2, flag_sets(st, args[i], args[i + 1]))
            }
        } else {
            cli_from(args, i + 1, bare_sets(st, args[i]))
        },
{
    lemma_value_flag(args[i]);
}

/// Scanning from position `k >= a.len()` of `a + b` is scanning `b` from
/// `k - a.len()`.
proof fn lemma_scan_shift(a: Seq<Seq<char>>, b: Seq<Seq<char>>, k: int)
    requires
        a.len() <= k,
    ensures
        forall|st: CliView| #[trigger] cli_from(a + b, k, st) == cli_from(b, k - a.len(), st),
    decreases a.len() + b.len() - k,
{
    let ab = a + b;
    let j = k - a.len();
    if k < ab.len() {
        lemma_scan_shift(a, b, k + 1);
        if k + 2 <= ab.len() {
            lemma_scan_shift(a, b, k + 2);
        }
        assert forall|st: CliView| #[trigger] cli_from(a + b, k, st) == cli_from(b, k - a.len(), st) by {
            assert(ab[k] == b[j]);
            lemma_cli_step(ab, k, st);
            lemma_cli_step(b, j, st);
            if k + 1 < ab.len() {
                assert(ab[k + 1] == b[j + 1]);
                assert(cli_from(ab, k + 2, flag_sets(st, b[j], b[j + 1])) == cli_from(b, j + 2, flag_sets(st, b[j], b[j + 1])));
            }
            assert(cli_from(ab, k + 1, bare_sets(st, b[j])) == cli_from(b, j + 1, bare_sets(st, b[j])));
        }
    }
}

/// Scanning `a + b`, when `a` leaves no flag waiting for its value, is
/// scanning `b` from the state that `a` leaves.
proof fn lemma_scan_concat(a: Seq<Seq<char>>, b: Seq<Seq<char>>, i: int)
    requires
        0 <= i <= a.len(),
        complete_from(a, i),
    ensures
        forall|st: CliView| #[trigger] cli_from(a + b, i, st) == cli_from(b, 0, cli_from(a, i, st)->0),
    decreases a.len() - i,
{
    let ab = a + b;
    if i == a.len() {
        lemma_scan_shift(a, b, i);
    } else {
        let x = a[i];
        assert(ab[i] == a[i]);
        lemma_value_flag(x);
        if value_flag(x) {
            assert(ab[i + 1] == a[i + 1]);
            lemma_scan_concat(a, b, i + 2);
        } else {
            lemma_scan_concat(a, b, i + 1);
        }
        assert forall|st: CliView| #[trigger] cli_from(a + b, i, st) == cli_from(b, 0, cli_from(a, i, st)->0) by {
            lemma_cli_step(ab, i, st);
            lemma_cli_step(a, i, st);
            if value_flag(x) {
                assert(cli_from(ab, i + 2, flag_sets(st, x, a[i + 1])) == cli_from(b, 0, cli_from(a, i + 2, flag_sets(st, x, a[i + 1]))->0));
            } else {
                assert(cli_from(ab, i + 1, bare_sets(st, x)) == cli_from(b, 0, cli_from(a, i + 1, bare_sets(st, x))->0));
            }
        }
    }
}

/// A value flag as the first argument sets its own field (and marks it as
/// given) and nothing else; the scan goes on with the rest: `--config v`
/// (or `-c v`) gives config `v`, `--root v` root `v`, `--entry v` entry
/// `v`, `--outdir v` outdir `v`, `--budget v` the budget `v` reads as.
pub proof fn lemma_flag_then_rest(a: Seq<char>, v: Seq<char>, rest: Seq<Seq<char>>, st: CliView)
    requires
        value_flag(a),
    ensures
        cli_from(seq![a, v] + rest, 0, st) == cli_from(rest, 0, flag_sets(st, a, v)),
{
    let head = seq![a, v];
    lemma_value_flag(a);
    lemma_scan_shift(head, rest, 2);
    assert((head + rest)[0] == a && (head + rest)[1] == v);
    assert(cli_from(head + rest, 2, flag_sets(st, a, v)) == cli_from(rest, 0, flag_sets(st, a, v)));
}

/// A value flag given last decides its field: after any complete command
/// line, `flag v` yields the state it left with that field set to `v`.
pub proof fn lemma_last_flag_wins(args: Seq<Seq<char>>, a: Seq<char>, v: Seq<char>, st: CliView)
    requires
        value_flag(a),
        cli_from(args, 0, st) is Some,
    ensures
        cli_from(args + seq![a, v], 0, st) == Some(flag_sets(cli_from(args, 0, st)->0, a, v)),
{
    lemma_complete_from(args, 0, st);
    lemma_scan_concat(args, seq![a, v], 0);
    lemma_flag_then_rest(a, v, Seq::empty(), cli_from(args, 0, st)->0);
    assert(seq![a, v] + Seq::<Seq<char>>::empty() =~= seq![a, v]);
}

/// Only a config flag changes the config: when no argument is `--config`
/// or `-c`, the scan keeps the config it started with; likewise for the
/// root with `--root` / `-r`, the outdir with `--outdir` / `-o` and the
/// budget with `--budget` / `-b`.
pub proof fn lemma_fields_change_only_by_their_flag(args: Seq<Seq<char>>, i: int, st: CliView)
    requires
        0 <= i,
        cli_from(args, i, st) is Some,
    ensures
        (forall|k: int| i <= k < args.len() ==> #[trigger] args[k] != "--config"@ && args[k] != "-c"@)
            ==> (cli_from(args, i, st)->0).4 == st.4,
        (forall|k: int| i <= k < args.len() ==> #[trigger] args[k] != "--root"@ && args[k] != "-r"@)
            ==> (cli_from(args, i, st)->0).0 == st.0 && (cli_from(args, i, st)->0).5 == st.5,
        (forall|k: int| i <= k < args.len() ==> #[trigger] args[k] != "--outdir"@ && args[k] != "-o"@)
            ==> (cli_from(args, i, st)->0).2 == st.2 && (cli_from(args, i, st)->0).7 == st.7,
        (forall|k: int| i <= k < args.len() ==> #[trigger] args[k] != "--budget"@ && args[k] != "-b"@)
            ==> (cli_from(args, i, st)->0).3 == st.3 && (cli_from(args, i, st)->0).8 == st.8,
        st.1 is Some && (forall|k: int| i <= k < args.len() ==> #[trigger] args[k] != "--entry"@ && args[k] != "-e"@)
            ==> (cli_from(args, i, st)->0).1 == st.1,
    decreases args.len() - i,
{
    if i < args.len() {
        let x = args[i];
        if is_flag(x, "--root"@, "-r"@) || is_flag(x, "--entry"@, "-e"@) || is_flag(x, "--outdir"@, "-o"@)
            || is_flag(x, "--budget"@, "-b"@) || is_flag(x, "--config"@, "-c"@) {
            let v = args[i + 1];
            let next = flag_sets(st, x, v);
            lemma_fields_change_only_by_their_flag(args, i + 2, next);
        } else {
            let next = if st.1 is None && !(x.len() > 0 && x[0] == '-') {
                (st.0, Some(x), st.2, st.3, st.4, st.5, true, st.7, st.8)
            } else {
                st
            };
            lemma_fields_change_only_by_their_flag(args, i + 1, next);
        }
    }
}

proof fn lemma_flag_names_differ()
    ensures
        "--config"@ != "--root"@ && "--config"@ != "-r"@ && "--config"@ != "--entry"@ && "--config"@ != "-e"@
            && "--config"@ != "--outdir"@ && "--config"@ != "-o"@ && "--config"@ != "--budget"@ && "--config"@ != "-b"@,
        "-c"@ != "--root"@ && "-c"@ != "-r"@ && "-c"@ != "--entry"@ && "-c"@ != "-e"@ && "-c"@ != "--outdir"@
            && "-c"@ != "-o"@ && "-c"@ != "--budget"@ && "-c"@ != "-b"@,
        "--root"@ != "--entry"@ && "--root"@ != "-e"@ && "--root"@ != "--outdir"@ && "--root"@ != "-o"@
            && "--root"@ != "--budget"@ && "--root"@ != "-b"@,
        "-r"@ != "--entry"@ && "-r"@ != "-e"@ && "-r"@ != "--outdir"@ && "-r"@ != "-o"@ && "-r"@ != "--budget"@
            && "-r"@ != "-b"@,
        "--entry"@ != "--outdir"@ && "--entry"@ != "-o"@ && "--entry"@ != "--budget"@ && "--entry"@ != "-b"@,
        "-e"@ != "--outdir"@ && "-e"@ != "-o"@ && "-e"@ != "--budget"@ && "-e"@ != "-b"@,
        "--outdir"@ != "--budget"@ && "--outdir"@ != "-b"@ && "-o"@ != "--budget"@ && "-o"@ != "-b"@,
{
    reveal_strlit("--config");
    reveal_strlit("-c");
    reveal_strlit("--root");
    reveal_strlit("-r");
    reveal_strlit("--entry");
    reveal_strlit("-e");
    reveal_strlit("--outdir");
    reveal_strlit("-o");
    reveal_strlit("--budget");
    reveal_strlit("-b");
    assert("--config"@[2] != "--root"@[2]);
    assert("--config"@[2] != "--entry"@[2]);
    assert("--config"@[2] != "--outdir"@[2]);
    assert("--config"@[2] != "--budget"@[2]);
    assert("--root"@[2] != "--entry"@[2]);
    assert("--root"@[2] != "--outdir"@[2]);
    assert("--root"@[2] != "--budget"@[2]);
    assert("--entry"@[2] != "--outdir"@[2]);
    assert("--entry"@[2] != "--budget"@[2]);
    assert("--outdir"@[2] != "--budget"@[2]);
    assert("-c"@[1] != "-r"@[1] && "-c"@[1] != "-e"@[1] && "-c"@[1] != "-o"@[1] && "-c"@[1] != "-b"@[1]);
    assert("-r"@[1] != "-e"@[1] && "-r"@[1] != "-o"@[1] && "-r"@[1] != "-b"@[1]);
    assert("-e"@[1] != "-o"@[1] && "-e"@[1] != "-b"@[1] && "-o"@[1] != "-b"@[1]);
}

/// Each value flag stores its value in the field it names: `--config v`
/// (`-c v`) sets the config to `v`, `--root v` (`-r v`) the root, `--entry v`
/// (`-e v`) the entry, `--outdir v` (`-o v`) the outdir, and `--budget v`
/// (`-b v`) the budget `v` reads as (512000 when it does not read); each
/// marks its setting as given and leaves the other settings alone.
pub proof fn lemma_flag_stores_its_value(st: CliView, a: Seq<char>, v: Seq<char>)
    requires
        value_flag(a),
    ensures
        ({
            let r = flag_sets(st, a, v);
            &&& (a == "--config"@ || a == "-c"@) ==> r == (st.0, st.1, st.2, st.3, Some(v), st.5, st.6, st.7, st.8)
            &&& (a == "--root"@ || a == "-r"@) ==> r == (v, st.1, st.2, st.3, st.4, true, st.6, st.7, st.8)
            &&& (a == "--entry"@ || a == "-e"@) ==> r == (st.0, Some(v), st.2, st.3, st.4, st.5, true, st.7, st.8)
            &&& (a == "--outdir"@ || a == "-o"@) ==> r == (st.0, st.1, v, st.3, st.4, st.5, st.6, true, st.8)
            &&& (a == "--budget"@ || a == "-b"@) ==> r.8 && r.0 == st.0 && r.1 == st.1 && r.2 == st.2 && r.4 == st.4
                && r.3 == (match parse_u32_spec(v) {
                    Some(b) => b,
                    None => 512000u32,
                })
        }),
{
    lemma_flag_names_differ();
}

/// A config flag decides the config when no later config flag follows:
/// for any command line `pre` that leaves no flag waiting for its value,
/// `pre`, then `--config v` (or `-c v`), then arguments none of which is
/// `--config` or `-c`, gives config `v`.
pub proof fn lemma_config_flag_decides(pre: Seq<Seq<char>>, a: Seq<char>, v: Seq<char>, rest: Seq<Seq<char>>, st: CliView)
    requires
        a == "--config"@ || a == "-c"@,
        complete_from(pre, 0),
        forall|k: int| 0 <= k < rest.len() ==> #[trigger] rest[k] != "--config"@ && rest[k] != "-c"@,
        cli_from(pre + (seq![a, v] + rest), 0, st) is Some,
    ensures
        (cli_from(pre + (seq![a, v] + rest), 0, st)->0).4 == Some(v),
{
    lemma_scan_concat(pre, seq![a, v] + rest, 0);
    let s1 = cli_from(pre, 0, st)->0;
    lemma_flag_then_rest(a, v, rest, s1);
    lemma_flag_stores_its_value(s1, a, v);
    lemma_fields_change_only_by_their_flag(rest, 0, flag_sets(s1, a, v));
}

/// Each value flag decides its field when no later flag for that field
/// follows: `pre` (leaving no flag waiting for its value), then `a v`, then
/// arguments none of which is a flag for the same field, gives that field
/// `v` (the budget: what `v` reads as, 512000 when it does not read).
pub proof fn lemma_flag_decides(pre: Seq<Seq<char>>, a: Seq<char>, v: Seq<char>, rest: Seq<Seq<char>>, st: CliView)
    requires
        value_flag(a),
        complete_from(pre, 0),
        (a == "--config"@ || a == "-c"@) ==> forall|k: int| 0 <= k < rest.len() ==> #[trigger] rest[k] != "--config"@ && rest[k] != "-c"@,
        (a == "--root"@ || a == "-r"@) ==> forall|k: int| 0 <= k < rest.len() ==> #[trigger] rest[k] != "--root"@ && rest[k] != "-r"@,
        (a == "--entry"@ || a == "-e"@) ==> forall|k: int| 0 <= k < rest.len() ==> #[trigger] rest[k] != "--entry"@ && rest[k] != "-e"@,
        (a == "--outdir"@ || a == "-o"@) ==> forall|k: int| 0 <= k < rest.len() ==> #[trigger] rest[k] != "--outdir"@ && rest[k] != "-o"@,
        (a == "--budget"@ || a == "-b"@) ==> forall|k: int| 0 <= k < rest.len() ==> #[trigger] rest[k] != "--budget"@ && rest[k] != "-b"@,
        cli_from(pre + (seq![a, v] + rest), 0, st) is Some,
    ensures
        ({
            let r = cli_from(pre + (seq![a, v] + rest), 0, st)->0;
            &&& (a == "--config"@ || a == "-c"@) ==> r.4 == Some(v)
            &&& (a == "--root"@ || a == "-r"@) ==> r.0 == v
            &&& (a == "--entry"@ || a == "-e"@) ==> r.1 == Some(v)
            &&& (a == "--outdir"@ || a == "-o"@) ==> r.2 == v
            &&& (a == "--budget"@ || a == "-b"@) ==> r.3 == (match parse_u32_spec(v) {
                Some(b) => b,
                None => 512000u32,
            })
        }),
{
    lemma_scan_concat(pre, seq![a, v] + rest, 0);
    let s1 = cli_from(pre, 0, st)->0;
    lemma_flag_then_rest(a, v, rest, s1);
    lemma_flag_stores_its_value(s1, a, v);
    lemma_fields_change_only_by_their_flag(rest, 0, flag_sets(s1, a, v));
}

} // verus!
