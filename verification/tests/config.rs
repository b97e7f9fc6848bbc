use tropical_bundler::cli::{args_complete, merge_config, parse_cli};
use tropical_bundler::config::{parse, Config};

#[test]
fn parses_minimal_config() {
    let cfg = parse(
        r#"{
            "entry": "src/index.js",
            "outdir": "dist",
            "budget": 512000
        }"#,
    );
    assert_eq!(cfg.entry.as_deref(), Some("src/index.js"));
    assert_eq!(cfg.outdir.as_deref(), Some("dist"));
    assert_eq!(cfg.budget, Some(512000));
}

#[test]
fn config_skips_comments_and_unknown_keys() {
    let cfg = parse("{\n  // \"entry\": \"nope.js\",\n  \"colour\": \"blue\",\n  \"root\": \"./app\"\r\n}\n");
    assert_eq!(cfg.entry, None);
    assert_eq!(cfg.root.as_deref(), Some("./app"));
    assert_eq!(cfg.outdir, None);
    assert_eq!(cfg.budget, None);
}

#[test]
fn config_budget_bytes_and_bad_numbers() {
    assert_eq!(parse("\"budgetBytes\": 1000,").budget, Some(1000));
    assert_eq!(parse("\"budget\": +42").budget, Some(42));
    assert_eq!(parse("\"budget\": 12kb").budget, None);
    assert_eq!(parse("\"budget\": 4294967296").budget, None);
    assert_eq!(parse("\"budget\": 4294967295").budget, Some(4294967295));
}

#[test]
fn config_later_lines_win() {
    let cfg = parse("\"outdir\": \"a\"\n\"outdir\": \"b\"");
    assert_eq!(cfg.outdir.as_deref(), Some("b"));
}

#[test]
fn config_default_is_empty() {
    let cfg = Config::default();
    assert!(cfg.entry.is_none() && cfg.outdir.is_none() && cfg.root.is_none() && cfg.budget.is_none());
}

fn args(v: &[&str]) -> Vec<String> {
    v.iter().map(|s| s.to_string()).collect()
}

#[test]
fn cli_reads_flags_and_bare_entry() {
    let cli = parse_cli(&args(&["src/main.js", "-o", "out", "--budget", "50000", "-r", "proj"]));
    assert_eq!(cli.entry.as_deref(), Some("src/main.js"));
    assert_eq!(cli.outdir, "out");
    assert_eq!(cli.budget, 50000);
    assert_eq!(cli.root, "proj");
    assert!(cli.cli_entry && cli.cli_outdir && cli.cli_budget && cli.cli_root);
}

#[test]
fn cli_bad_budget_falls_back() {
    let cli = parse_cli(&args(&["--budget", "lots"]));
    assert_eq!(cli.budget, 512000);
    assert!(cli.cli_budget);
    assert_eq!(cli.entry, None);
    assert_eq!(cli.root, ".");
    assert_eq!(cli.outdir, "dist");
}

#[test]
fn config_fills_what_the_command_line_left_out() {
    let cli = parse_cli(&args(&["--outdir", "build"]));
    let cfg = parse("\"entry\": \"src/index.js\"\n\"outdir\": \"dist2\"\n\"budget\": 7\n\"root\": \"web\"");
    let p = merge_config(cli, Some(cfg)).unwrap();
    assert_eq!(p.entry, "src/index.js");
    assert_eq!(p.outdir, "build");
    assert_eq!(p.budget, 7);
    assert_eq!(p.root, "web");
}

#[test]
fn missing_entry_is_reported() {
    let cli = parse_cli(&args(&[]));
    assert!(merge_config(cli, None).is_none());
}

#[test]
fn command_line_overrides_config() {
    let cli = parse_cli(&args(&["main.js", "-b", "9", "-r", "app", "-o", "out"]));
    let cfg = parse("\"entry\": \"src/index.js\"\n\"outdir\": \"dist2\"\n\"budget\": 7\n\"root\": \"web\"");
    let p = merge_config(cli, Some(cfg)).unwrap();
    assert_eq!(p.entry, "main.js");
    assert_eq!(p.outdir, "out");
    assert_eq!(p.budget, 9);
    assert_eq!(p.root, "app");
}

#[test]
fn a_value_flag_needs_its_value() {
    assert!(args_complete(&args(&["--entry", "a.js", "-b", "10"])));
    assert!(args_complete(&args(&[])));
    assert!(args_complete(&args(&["main.js", "--json"])));
    assert!(!args_complete(&args(&["--entry", "a.js", "--outdir"])));
    assert!(!args_complete(&args(&["-c"])));
    // The value of a flag is not read as a flag itself.
    assert!(args_complete(&args(&["-o", "-r"])));
}
